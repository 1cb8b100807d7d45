//! A snapshot of a graph's arcs as adjacency lists, which a search can read
//! many times without asking the graph again.

use vstd::prelude::*;
use crate::mapf::graph_specs::lists_pair;
use crate::mapf::graphlike::{lists_arc, GraphLike};
use crate::mapf::plan::{arc_set, arcs_within, connected, is_route, legal_step};
use crate::mapf::Location;

verus! {

/// For every node the arcs that leave it, each as (target, weight).
pub struct Roadmap {
    pub adj: Vec<Vec<(usize, usize)>>,
}

/// Whether `row` holds exactly the arcs that leave node `x` of `graph`.
pub open spec fn row_matches<G: GraphLike>(graph: &G, x: int, row: Seq<(usize, usize)>) -> bool {
    &&& forall|k: int| 0 <= k < row.len() ==> graph.arc(x, (#[trigger] row[k]).0 as int, row[k].1 as int)
    &&& forall|b: int, w: int| #[trigger] graph.arc(x, b, w) ==> lists_pair(row, b, w)
}

/// The number of entries of `seen` that are still `false`.
pub open spec fn unseen(seen: Seq<bool>) -> nat
    decreases seen.len(),
{
    if seen.len() == 0 {
        0
    } else {
        unseen(seen.drop_last()) + if seen.last() {
            0nat
        } else {
            1nat
        }
    }
}

proof fn lemma_unseen_update(seen: Seq<bool>, i: int)
    requires
        0 <= i < seen.len(),
        !seen[i],
    ensures
        unseen(seen.update(i, true)) + 1 == unseen(seen),
    decreases seen.len(),
{
    let after = seen.update(i, true);
    if i == seen.len() - 1 {
        assert(after.drop_last() == seen.drop_last());
    } else {
        assert(after.drop_last() == seen.drop_last().update(i, true));
        lemma_unseen_update(seen.drop_last(), i);
    }
}

impl Roadmap {
    /// The number of nodes.
    pub open spec fn size(&self) -> int {
        self.adj@.len() as int
    }

    /// Whether the snapshot holds an arc from `a` to `b` of weight `w`.
    pub open spec fn has_arc(&self, a: int, b: int, w: int) -> bool {
        0 <= a < self.adj@.len() && lists_pair(self.adj@[a]@, b, w)
    }

    /// The arcs of the snapshot.
    pub open spec fn arcs(&self) -> Set<(int, int, int)> {
        Set::new(|t: (int, int, int)| self.has_arc(t.0, t.1, t.2))
    }

    /// Every arc leads to a node of the snapshot, and every list fits a
    /// machine word.
    pub open spec fn wf(&self) -> bool {
        &&& self.adj@.len() <= usize::MAX
        &&& forall|a: int| 0 <= a < self.adj@.len() ==> (#[trigger] self.adj@[a])@.len() <= usize::MAX
        &&& forall|a: int, k: int|
            0 <= a < self.adj@.len() && 0 <= k < self.adj@[a]@.len() ==> (#[trigger] self.adj@[a]@[k]).0
                < self.adj@.len()
    }

    /// The largest number of arcs that leave one of the nodes below `a`.
    pub open spec fn widest_upto(&self, a: int) -> int
        decreases a,
    {
        if a <= 0 {
            0
        } else {
            let rest = self.widest_upto(a - 1);
            let here = self.adj@[a - 1]@.len() as int;
            if here > rest {
                here
            } else {
                rest
            }
        }
    }

    /// The largest number of arcs that leave one node.
    pub open spec fn widest(&self) -> int {
        self.widest_upto(self.adj@.len() as int)
    }

    /// No node has more arcs than the widest.
    pub proof fn lemma_widest(&self, a: int, x: int)
        requires
            0 <= x < a <= self.adj@.len(),
        ensures
            0 <= self.adj@[x]@.len() <= self.widest_upto(a),
        decreases a,
    {
        if x < a - 1 {
            self.lemma_widest(a - 1, x);
        }
    }

    /// Where no node has more than `d` arcs, the widest has no more.
    pub proof fn lemma_widest_within(&self, a: int, d: int)
        requires
            0 <= a <= self.adj@.len(),
            0 <= d,
            forall|x: int| 0 <= x < a ==> (#[trigger] self.adj@[x])@.len() <= d,
        ensures
            0 <= self.widest_upto(a) <= d,
        decreases a,
    {
        if a > 0 {
            self.lemma_widest_within(a - 1, d);
        }
    }

    /// The largest number of arcs that leave one node.
    pub fn widest_of(&self) -> (d: usize)
        ensures
            d == self.widest(),
    {
        let mut d: usize = 0;
        let mut a: usize = 0;
        while a < self.adj.len()
            invariant
                0 <= a <= self.adj@.len(),
                d == self.widest_upto(a as int),
            decreases self.adj@.len() - a,
        {
            if self.adj[a].len() > d {
                d = self.adj[a].len();
            }
            a += 1;
        }
        d
    }

    /// The arcs of a well-formed snapshot stay within it.
    pub proof fn lemma_arcs_within(&self)
        requires
            self.wf(),
        ensures
            arcs_within(self.arcs(), self.size()),
    {
        assert forall|a: int, b: int, w: int| #[trigger] self.arcs().contains((a, b, w)) implies 0 <= a
            < self.size() && 0 <= b < self.size() && 0 <= w <= usize::MAX by {
            assert(self.has_arc(a, b, w));
            let k = choose|k: int|
                0 <= k < self.adj@[a]@.len() && (#[trigger] self.adj@[a]@[k]).0 == b && self.adj@[a]@[k].1 == w;
            assert(self.adj@[a]@[k].0 < self.adj@.len());
        }
    }

    /// Entry `k` of node `a` is an arc of the snapshot.
    pub proof fn lemma_entry_is_arc(&self, a: int, k: int)
        requires
            0 <= a < self.adj@.len(),
            0 <= k < self.adj@[a]@.len(),
        ensures
            self.arcs().contains((a, self.adj@[a]@[k].0 as int, self.adj@[a]@[k].1 as int)),
    {
        let e = self.adj@[a]@[k];
        assert(lists_pair(self.adj@[a]@, e.0 as int, e.1 as int));
        assert(self.has_arc(a, e.0 as int, e.1 as int));
    }

    /// Reads every node's arcs from `graph`.
    pub fn build<G: GraphLike>(graph: &G) -> (r: Roadmap)
        ensures
            r.wf(),
            r.size() == graph.node_total(),
            r.arcs() == arc_set(graph),
            r.widest() <= graph.arc_total(),
    {
        let n = graph.node_count();
        let mut adj: Vec<Vec<(usize, usize)>> = Vec::new();
        let mut a: usize = 0;
        while a < n
            invariant
                0 <= a <= n,
                n == graph.node_total(),
                adj@.len() == a,
                forall|x: int| 0 <= x < a ==> row_matches(graph, x, (#[trigger] adj@[x])@),
                forall|x: int| 0 <= x < a ==> (#[trigger] adj@[x])@.len() <= usize::MAX,
                forall|x: int| 0 <= x < a ==> (#[trigger] adj@[x])@.len() <= graph.arc_total(),
            decreases n - a,
        {
            let node = Location { index: a };
            let listed = graph.neighbors(node);
            proof {
                assert forall|to: int, weight: int| #[trigger] graph.arc(a as int, to, weight) implies lists_arc(
                    listed@,
                    to,
                    weight,
                ) by {
                    assert(graph.arc(node.index as int, to, weight));
                }
            }
            let mut row: Vec<(usize, usize)> = Vec::new();
            let mut k: usize = 0;
            while k < listed.len()
                invariant
                    0 <= k <= listed@.len(),
                    row@.len() == k,
                    forall|j: int| 0 <= j < k ==> #[trigger] row@[j] == (listed@[j].0.index, listed@[j].1),
                    listed@.len() <= graph.arc_total(),
                    forall|j: int|
                        0 <= j < listed@.len() ==> graph.arc(
                            a as int,
                            (#[trigger] listed@[j]).0.index as int,
                            listed@[j].1 as int,
                        ),
                    forall|to: int, weight: int| #[trigger]
                        graph.arc(a as int, to, weight) ==> lists_arc(listed@, to, weight),
                decreases listed@.len() - k,
            {
                let entry = listed[k];
                row.push((entry.0.index, entry.1));
                k += 1;
            }
            proof {
                assert forall|j: int| 0 <= j < row@.len() implies graph.arc(
                    a as int,
                    (#[trigger] row@[j]).0 as int,
                    row@[j].1 as int,
                ) by {
                    assert(row@[j] == (listed@[j].0.index, listed@[j].1));
                }
                assert forall|b: int, w: int| #[trigger] graph.arc(a as int, b, w) implies lists_pair(row@, b, w) by {
                    assert(lists_arc(listed@, b, w));
                    let j = choose|j: int|
                        0 <= j < listed@.len() && (#[trigger] listed@[j]).0.index == b && listed@[j].1 == w;
                    assert(row@[j] == (listed@[j].0.index, listed@[j].1));
                }
            }
            adj.push(row);
            a += 1;
        }
        let r = Roadmap { adj };
        proof {
            r.lemma_widest_within(r.adj@.len() as int, graph.arc_total() as int);
            assert forall|x: int, k: int| 0 <= x < r.adj@.len() && 0 <= k < r.adj@[x]@.len() implies (
            #[trigger] r.adj@[x]@[k]).0 < r.adj@.len() by {
                assert(row_matches(graph, x, r.adj@[x]@));
                graph.arc_within(x, r.adj@[x]@[k].0 as int, r.adj@[x]@[k].1 as int);
            }
            assert forall|t: (int, int, int)| r.arcs().contains(t) == arc_set(graph).contains(t) by {
                if r.has_arc(t.0, t.1, t.2) {
                    assert(row_matches(graph, t.0, r.adj@[t.0]@));
                    let k = choose|k: int|
                        0 <= k < r.adj@[t.0]@.len() && (#[trigger] r.adj@[t.0]@[k]).0 == t.1 && r.adj@[t.0]@[k].1
                            == t.2;
                    assert(graph.arc(t.0, r.adj@[t.0]@[k].0 as int, r.adj@[t.0]@[k].1 as int));
                }
                if graph.arc(t.0, t.1, t.2) {
                    graph.arc_within(t.0, t.1, t.2);
                    assert(row_matches(graph, t.0, r.adj@[t.0]@));
                }
            }
            assert(r.arcs() =~= arc_set(graph));
        }
        r
    }

    /// Whether some route leads from `from` to `to`.
    pub fn reaches(&self, from: usize, to: usize) -> (found: bool)
        requires
            self.wf(),
            from < self.size(),
            to < self.size(),
        ensures
            found == exists|p: Seq<usize>| is_route(self.arcs(), p, from as int, to as int),
    {
        let n = self.adj.len();
        let mut seen: Vec<bool> = Vec::new();
        let mut i: usize = 0;
        while i < n
            invariant
                0 <= i <= n,
                seen@.len() == i,
                forall|x: int| 0 <= x < i ==> !#[trigger] seen@[x],
            decreases n - i,
        {
            seen.push(false);
            i += 1;
        }
        let ghost mut witness: Seq<Seq<usize>> = Seq::new(n as nat, |x: int| seq![from]);
        let mut stack: Vec<usize> = Vec::new();
        seen.set(from, true);
        stack.push(from);
        proof {
            assert(is_route(self.arcs(), seq![from], from as int, from as int));
            assert(stack@[0] == from);
        }
        while stack.len() > 0
            invariant
                self.wf(),
                n == self.adj@.len(),
                from < n,
                seen@.len() == n,
                witness.len() == n,
                seen@[from as int],
                forall|s: int| 0 <= s < stack@.len() ==> #[trigger] stack@[s] < n && seen@[stack@[s] as int],
                forall|x: int|
                    0 <= x < n && #[trigger] seen@[x] ==> is_route(self.arcs(), witness[x], from as int, x),
                forall|x: int|
                    0 <= x < n && #[trigger] seen@[x] ==> stack@.contains(x as usize) || self.row_seen(
                        x,
                        seen@,
                        self.adj@[x]@.len() as int,
                    ),
            decreases 2 * unseen(seen@) + stack@.len(),
        {
            let ghost stack0 = stack@;
            let ghost measure0 = 2 * unseen(seen@) + stack@.len();
            let x = stack.pop().unwrap();
            assert(stack0[stack0.len() - 1] == x);
            assert(x < n);
            proof {
                assert forall|y: int| 0 <= y < n && #[trigger] seen@[y] && y != x implies stack@.contains(y as usize)
                    || self.row_seen(y, seen@, self.adj@[y]@.len() as int) by {
                    if stack0.contains(y as usize) {
                        let s = choose|s: int| 0 <= s < stack0.len() && stack0[s] == y as usize;
                        assert(stack@[s] == y as usize);
                    }
                }
            }
            let row = &self.adj[x];
            let mut k: usize = 0;
            while k < row.len()
                invariant
                    self.wf(),
                    n == self.adj@.len(),
                    from < n,
                    x < n,
                    seen@.len() == n,
                    witness.len() == n,
                    seen@[from as int],
                    seen@[x as int],
                    row@ == self.adj@[x as int]@,
                    0 <= k <= row@.len(),
                    stack0.len() > 0,
                    stack0[stack0.len() - 1] == x,
                    2 * unseen(seen@) + stack@.len() + 1 <= measure0,
                    forall|s: int| 0 <= s < stack@.len() ==> #[trigger] stack@[s] < n && seen@[stack@[s] as int],
                    forall|y: int|
                        0 <= y < n && #[trigger] seen@[y] ==> is_route(self.arcs(), witness[y], from as int, y),
                    self.row_seen(x as int, seen@, k as int),
                    forall|y: int|
                        0 <= y < n && #[trigger] seen@[y] && y != x ==> stack@.contains(y as usize) || self.row_seen(
                            y,
                            seen@,
                            self.adj@[y]@.len() as int,
                        ),
                decreases row@.len() - k,
            {
                let b = row[k].0;
                assert(self.adj@[x as int]@[k as int].0 < n);
                if !seen[b] {
                    proof {
                        lemma_unseen_update(seen@, b as int);
                        let via = witness[x as int];
                        let longer = via.push(b);
                        self.lemma_entry_is_arc(x as int, k as int);
                        assert(connected(self.arcs(), x as int, b as int));
                        assert forall|t: int| 0 <= t < longer.len() - 1 implies legal_step(
                            self.arcs(),
                            #[trigger] longer[t] as int,
                            longer[t + 1] as int,
                        ) by {
                            if t < via.len() - 1 {
                                assert(legal_step(self.arcs(), via[t] as int, via[t + 1] as int));
                            }
                        }
                        assert(is_route(self.arcs(), longer, from as int, b as int));
                        witness = witness.update(b as int, longer);
                    }
                    let ghost seen0 = seen@;
                    let ghost stack1 = stack@;
                    seen.set(b, true);
                    stack.push(b);
                    proof {
                        assert(stack@[stack1.len() as int] == b);
                        assert forall|y: int| 0 <= y < n && #[trigger] seen@[y] && y != x implies stack@.contains(
                            y as usize,
                        ) || self.row_seen(y, seen@, self.adj@[y]@.len() as int) by {
                            if y == b {
                                assert(stack@.contains(b));
                            } else {
                                assert(seen0[y]);
                                if stack1.contains(y as usize) {
                                    let s = choose|s: int| 0 <= s < stack1.len() && stack1[s] == y as usize;
                                    assert(stack@[s] == y as usize);
                                } else {
                                    assert(self.row_seen(y, seen0, self.adj@[y]@.len() as int));
                                }
                            }
                        }
                    }
                }
                k += 1;
            }
            proof {
                assert forall|y: int| 0 <= y < n && #[trigger] seen@[y] implies stack@.contains(y as usize)
                    || self.row_seen(y, seen@, self.adj@[y]@.len() as int) by {
                }
            }
        }
        let found = seen[to];
        proof {
            if found {
                assert(is_route(self.arcs(), witness[to as int], from as int, to as int));
            } else {
                assert forall|p: Seq<usize>| !is_route(self.arcs(), p, from as int, to as int) by {
                    if is_route(self.arcs(), p, from as int, to as int) {
                        self.lemma_routes_stay_seen(seen@, p, p.len() - 1);
                    }
                }
            }
        }
        found
    }

    /// Whether the targets of the first `k` arcs of node `x` are all seen.
    pub open spec fn row_seen(&self, x: int, seen: Seq<bool>, k: int) -> bool {
        forall|j: int| 0 <= j < k ==> seen[(#[trigger] self.adj@[x]@[j]).0 as int]
    }

    /// A route that starts in a set of nodes which no arc leaves stays in it.
    proof fn lemma_routes_stay_seen(&self, seen: Seq<bool>, p: Seq<usize>, t: int)
        requires
            self.wf(),
            seen.len() == self.adj@.len(),
            is_route(self.arcs(), p, p[0] as int, p[p.len() - 1] as int),
            p[0] < seen.len(),
            seen[p[0] as int],
            forall|x: int|
                0 <= x < seen.len() && #[trigger] seen[x] ==> self.row_seen(x, seen, self.adj@[x]@.len() as int),
            0 <= t < p.len(),
        ensures
            p[t] < seen.len(),
            seen[p[t] as int],
        decreases t,
    {
        if t > 0 {
            self.lemma_routes_stay_seen(seen, p, t - 1);
            let a = p[t - 1] as int;
            let b = p[t] as int;
            assert(legal_step(self.arcs(), p[t - 1] as int, p[t - 1 + 1] as int));
            if a != b {
                let w = choose|w: int| self.arcs().contains((a, b, w));
                assert(self.has_arc(a, b, w));
                let k = choose|k: int|
                    0 <= k < self.adj@[a]@.len() && (#[trigger] self.adj@[a]@[k]).0 == b && self.adj@[a]@[k].1 == w;
                assert(self.row_seen(a, seen, self.adj@[a]@.len() as int));
                assert(seen[self.adj@[a]@[k].0 as int]);
            }
        }
    }
}

} // verus!
