//! The frontier of a search: the nodes that wait, the one that comes
//! before all others first.
//!
//! The nodes are kept in a binary heap by priority, then by estimate, then
//! by age. A node's place in that order never changes, because nodes do not
//! change once they are in the arena.

use vstd::prelude::*;
use crate::mapf::joint_search::{comes_before, Node};

verus! {

/// Whether node `a` does not come after node `b`.
pub open spec fn not_after(nodes: Seq<Node>, a: usize, b: usize) -> bool {
    !comes_before(nodes[b as int]@, b as int, nodes[a as int]@, a as int)
}

/// Whether every entry but the first does not come before its parent,
/// except the entries `skip_child` and the children of `skip_parent`.
pub open spec fn ordered_but(nodes: Seq<Node>, heap: Seq<usize>, skip_child: int, skip_parent: int) -> bool {
    forall|j: int|
        0 < j < heap.len() && j != skip_child && (j - 1) / 2 != skip_parent ==> not_after(
            nodes,
            heap[(j - 1) / 2],
            #[trigger] heap[j],
        )
}

/// Whether the children of entry `i` do not come before the parent of
/// entry `i`.
pub open spec fn children_fit(nodes: Seq<Node>, heap: Seq<usize>, i: int) -> bool {
    forall|j: int|
        0 < j < heap.len() && (j - 1) / 2 == i && i > 0 ==> not_after(nodes, heap[(i - 1) / 2], #[trigger] heap[j])
}

/// Whether the entries are nodes of the arena.
pub open spec fn entries_within(nodes: Seq<Node>, heap: Seq<usize>) -> bool {
    forall|j: int| 0 <= j < heap.len() ==> #[trigger] heap[j] < nodes.len()
}

/// Whether `heap` is a heap: its entries are nodes of the arena, and none
/// comes before its parent.
pub open spec fn heap_ok(nodes: Seq<Node>, heap: Seq<usize>) -> bool {
    entries_within(nodes, heap) && ordered_but(nodes, heap, -1, -1)
}

/// Whether two sequences hold the same values.
pub open spec fn same_entries(a: Seq<usize>, b: Seq<usize>) -> bool {
    forall|x: usize| a.contains(x) <==> b.contains(x)
}

/// A frontier has one first node: two nodes of which neither comes after
/// the other are one node. So which node leaves the frontier next depends
/// on the nodes that wait in it alone, not on the order in which they
/// came.
pub proof fn lemma_one_first(nodes: Seq<Node>, a: usize, b: usize)
    requires
        not_after(nodes, a, b),
        not_after(nodes, b, a),
    ensures
        a == b,
{
}

/// The first entry of a heap comes after no entry.
pub proof fn lemma_first_is_least(nodes: Seq<Node>, heap: Seq<usize>, j: int)
    requires
        heap_ok(nodes, heap),
        0 <= j < heap.len(),
    ensures
        not_after(nodes, heap[0], heap[j]),
    decreases j,
{
    if j > 0 {
        lemma_first_is_least(nodes, heap, (j - 1) / 2);
        assert(not_after(nodes, heap[(j - 1) / 2], heap[j]));
    }
}

/// Exchanging two entries leaves the values as they are.
proof fn lemma_exchange(before: Seq<usize>, after: Seq<usize>, i: int, j: int)
    requires
        0 <= i < before.len(),
        0 <= j < before.len(),
        after == before.update(i, before[j]).update(j, before[i]),
    ensures
        same_entries(before, after),
{
    assert forall|x: usize| before.contains(x) <==> after.contains(x) by {
        if before.contains(x) {
            let k = choose|k: int| 0 <= k < before.len() && before[k] == x;
            if k == i {
                assert(after[j] == x);
            } else if k == j {
                assert(after[i] == x);
            } else {
                assert(after[k] == x);
            }
        }
        if after.contains(x) {
            let k = choose|k: int| 0 <= k < after.len() && after[k] == x;
            if k == i {
                assert(before[j] == x);
            } else if k == j {
                assert(before[i] == x);
            } else {
                assert(before[k] == x);
            }
        }
    }
}

/// Whether the node in place `a` comes before the node in place `b`.
fn before_in(nodes: &Vec<Node>, heap: &Vec<usize>, a: usize, b: usize) -> (r: bool)
    requires
        a < heap@.len(),
        b < heap@.len(),
        entries_within(nodes@, heap@),
    ensures
        r == !not_after(nodes@, heap@[b as int], heap@[a as int]),
{
    let x = heap[a];
    let y = heap[b];
    let p = &nodes[x];
    let q = &nodes[y];
    p.f < q.f || (p.f == q.f && (p.h < q.h || (p.h == q.h && x < y)))
}

/// Exchanges the entries in places `i` and `j`.
fn exchange(heap: &mut Vec<usize>, i: usize, j: usize)
    requires
        i < old(heap)@.len(),
        j < old(heap)@.len(),
    ensures
        final(heap)@ == old(heap)@.update(i as int, old(heap)@[j as int]).update(j as int, old(heap)@[i as int]),
        same_entries(old(heap)@, final(heap)@),
{
    let ghost before = heap@;
    let a = heap[i];
    let b = heap[j];
    heap.set(i, b);
    heap.set(j, a);
    proof {
        lemma_exchange(before, heap@, i as int, j as int);
    }
}

/// Puts node `x` into the frontier.
pub fn push(heap: &mut Vec<usize>, nodes: &Vec<Node>, x: usize)
    requires
        heap_ok(nodes@, old(heap)@),
        x < nodes@.len(),
    ensures
        heap_ok(nodes@, final(heap)@),
        final(heap)@.len() == old(heap)@.len() + 1,
        forall|y: usize| final(heap)@.contains(y) <==> (old(heap)@.contains(y) || y == x),
{
    let ghost start = heap@;
    heap.push(x);
    let ghost pushed = heap@;
    proof {
        assert(pushed[pushed.len() - 1] == x);
        assert forall|y: usize| pushed.contains(y) <==> (start.contains(y) || y == x) by {
            if start.contains(y) {
                let k = choose|k: int| 0 <= k < start.len() && start[k] == y;
                assert(pushed[k] == y);
            }
            if pushed.contains(y) {
                let k = choose|k: int| 0 <= k < pushed.len() && pushed[k] == y;
                if k < start.len() {
                    assert(start[k] == y);
                }
            }
        }
        assert forall|j: int| 0 < j < pushed.len() && j != pushed.len() - 1 implies not_after(
            nodes@,
            pushed[(j - 1) / 2],
            #[trigger] pushed[j],
        ) by {
            assert(not_after(nodes@, start[(j - 1) / 2], start[j]));
        }
    }
    let mut i: usize = heap.len() - 1;
    let mut rising = true;
    while rising
        invariant
            0 <= i < heap@.len(),
            heap@.len() == pushed.len(),
            entries_within(nodes@, heap@),
            same_entries(pushed, heap@),
            rising ==> ordered_but(nodes@, heap@, i as int, -1),
            rising ==> children_fit(nodes@, heap@, i as int),
            !rising ==> ordered_but(nodes@, heap@, -1, -1),
        decreases
                i + if rising {
                    1int
                } else {
                    0int
                },
    {
        if i == 0 {
            rising = false;
            continue ;
        }
        let p = (i - 1) / 2;
        if !before_in(nodes, heap, i, p) {
            rising = false;
            continue ;
        }
        let ghost earlier = heap@;
        exchange(heap, i, p);
        proof {
            let now = heap@;
            assert forall|j: int| 0 < j < now.len() && j != p implies not_after(
                nodes@,
                now[(j - 1) / 2],
                #[trigger] now[j],
            ) by {
                let q = (j - 1) / 2;
                if j == i {
                } else if q == i {
                    assert(not_after(nodes@, earlier[(i - 1) / 2], earlier[j]));
                } else if q == p {
                    assert(not_after(nodes@, earlier[p as int], earlier[j]));
                } else {
                    assert(not_after(nodes@, earlier[q], earlier[j]));
                }
            }
            assert forall|j: int| 0 < j < now.len() && (j - 1) / 2 == p && p > 0 implies not_after(
                nodes@,
                now[(p - 1) / 2],
                #[trigger] now[j],
            ) by {
                assert(not_after(nodes@, earlier[(p - 1) / 2], earlier[p as int]));
                if j != i {
                    assert(not_after(nodes@, earlier[p as int], earlier[j]));
                }
            }
        }
        i = p;
    }
}

/// Takes the node that comes before all others out of the frontier.
pub fn pop(heap: &mut Vec<usize>, nodes: &Vec<Node>) -> (first: usize)
    requires
        heap_ok(nodes@, old(heap)@),
        old(heap)@.len() > 0,
    ensures
        heap_ok(nodes@, final(heap)@),
        final(heap)@.len() + 1 == old(heap)@.len(),
        old(heap)@.contains(first),
        first < nodes@.len(),
        forall|y: usize| old(heap)@.contains(y) ==> not_after(nodes@, first, y),
        forall|y: usize| old(heap)@.contains(y) && y != first ==> final(heap)@.contains(y),
        forall|y: usize| final(heap)@.contains(y) ==> old(heap)@.contains(y),
{
    let ghost start = heap@;
    let first = heap[0];
    proof {
        assert(start[0] == first);
        assert forall|y: usize| start.contains(y) implies not_after(nodes@, first, y) by {
            let k = choose|k: int| 0 <= k < start.len() && start[k] == y;
            lemma_first_is_least(nodes@, start, k);
        }
    }
    let last = heap.pop().unwrap();
    if heap.len() == 0 {
        return first;
    }
    heap.set(0, last);
    let ghost moved = heap@;
    proof {
        assert forall|y: usize| start.contains(y) && y != first implies moved.contains(y) by {
            let k = choose|k: int| 0 <= k < start.len() && start[k] == y;
            if k == start.len() - 1 {
                assert(moved[0] == y);
            } else {
                assert(moved[k] == y);
            }
        }
        assert forall|y: usize| moved.contains(y) implies start.contains(y) by {
            let k = choose|k: int| 0 <= k < moved.len() && moved[k] == y;
            if k == 0 {
                assert(start[start.len() - 1] == y);
            } else {
                assert(start[k] == y);
            }
        }
        assert forall|j: int| 0 <= j < moved.len() implies #[trigger] moved[j] < nodes@.len() by {
            if j == 0 {
                assert(start[start.len() - 1] < nodes@.len());
            } else {
                assert(start[j] < nodes@.len());
            }
        }
        assert forall|j: int| 0 < j < moved.len() && (j - 1) / 2 != 0 implies not_after(
            nodes@,
            moved[(j - 1) / 2],
            #[trigger] moved[j],
        ) by {
            assert(not_after(nodes@, start[(j - 1) / 2], start[j]));
        }
    }
    let n = heap.len();
    let mut i: usize = 0;
    let mut sinking = true;
    while sinking
        invariant
            n == heap@.len(),
            n + 1 == start.len(),
            0 <= i < n,
            entries_within(nodes@, heap@),
            same_entries(moved, heap@),
            sinking ==> ordered_but(nodes@, heap@, -1, i as int),
            sinking ==> children_fit(nodes@, heap@, i as int),
            !sinking ==> ordered_but(nodes@, heap@, -1, -1),
        decreases
                n - i + if sinking {
                    1int
                } else {
                    0int
                },
    {
        let left = (i as u128) * 2 + 1;
        let right = left + 1;
        let mut least = i;
        if left < n as u128 {
            if before_in(nodes, heap, left as usize, least) {
                least = left as usize;
            }
        }
        if right < n as u128 {
            if before_in(nodes, heap, right as usize, least) {
                least = right as usize;
            }
        }
        if least == i {
            proof {
                assert forall|j: int| 0 < j < heap@.len() implies not_after(
                    nodes@,
                    heap@[(j - 1) / 2],
                    #[trigger] heap@[j],
                ) by {
                    if (j - 1) / 2 == i {
                        assert(j == left || j == right);
                    }
                }
            }
            sinking = false;
        } else {
            let ghost earlier = heap@;
            exchange(heap, i, least);
            proof {
                let now = heap@;
                let c = least as int;
                assert(c == left || c == right);
                assert((c - 1) / 2 == i);
                assert forall|j: int| 0 < j < now.len() && (j - 1) / 2 != c implies not_after(
                    nodes@,
                    now[(j - 1) / 2],
                    #[trigger] now[j],
                ) by {
                    let q = (j - 1) / 2;
                    if j == c {
                    } else if q == i {
                        assert(j == left || j == right);
                    } else if j == i {
                        assert(not_after(nodes@, earlier[(i - 1) / 2], earlier[c]));
                    } else {
                        assert(not_after(nodes@, earlier[q], earlier[j]));
                    }
                }
                assert forall|j: int| 0 < j < now.len() && (j - 1) / 2 == c && c > 0 implies not_after(
                    nodes@,
                    now[(c - 1) / 2],
                    #[trigger] now[j],
                ) by {
                    assert(not_after(nodes@, earlier[c], earlier[j]));
                }
            }
            i = least;
        }
    }
    first
}

} // verus!
