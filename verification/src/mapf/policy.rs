//! For one agent, the step to take from every node toward the agent's goal
//! when no other agent is in the way.

use vstd::prelude::*;
use crate::mapf::plan::{
    at, cost_upto, is_route, legal_step, lemma_cost_after_end, lemma_legal_step_cost,
    lemma_route_split, lemma_step_cost_bounds, route_cost, route_from, step_cost,
};
use crate::mapf::roadmap::Roadmap;

verus! {

/// Where an agent that is alone goes from every node, what the step
/// costs, what the whole way to the goal costs, and how many steps it has.
/// A node from which the goal cannot be reached has itself as next node
/// and the largest number as cost.
pub struct Policy {
    pub next: Vec<usize>,
    pub weight: Vec<usize>,
    pub dist: Vec<u128>,
    pub hops: Vec<usize>,
}

/// The cost that stands for "no way".
pub open spec fn no_way() -> u128 {
    u128::MAX
}

impl Policy {
    /// Whether the goal can be reached from node `x`.
    pub open spec fn leads(&self, x: int) -> bool {
        0 <= x < self.dist@.len() && self.dist@[x] < no_way()
    }

    /// Whether the entry for node `x` fits the entry for the node that
    /// follows it: the step is an arc, and cost and number of steps add up.
    pub open spec fn step_fits(&self, road: &Roadmap, goal: int, x: int) -> bool {
        let y = self.next@[x] as int;
        &&& 0 <= y < road.size()
        &&& self.hops@[x] < road.size()
        &&& if x == goal {
            self.dist@[x] == 0 && y == x && self.weight@[x] == 0 && self.hops@[x] == 0
        } else if self.leads(x) {
            &&& y != x
            &&& road.arcs().contains((x, y, self.weight@[x] as int))
            &&& self.leads(y)
            &&& self.dist@[x] == self.weight@[x] + self.dist@[y]
            &&& self.hops@[x] == self.hops@[y] + 1
            &&& self.dist@[x] <= self.hops@[x] * usize::MAX
        } else {
            y == x && self.weight@[x] == 0
        }
    }

    /// Whether arc `k` of node `a` offers no cheaper way than the policy
    /// knows.
    pub open spec fn arc_fits(&self, road: &Roadmap, a: int, k: int) -> bool {
        let b = road.adj@[a]@[k].0 as int;
        self.leads(b) ==> self.dist@[a] <= road.adj@[a]@[k].1 + self.dist@[b]
    }

    /// Whether the policy is one of cheapest ways to `goal`: every step
    /// is a move of the graph, the costs add up along the steps, the goal
    /// is reached in fewer steps than there are nodes, and no arc offers a
    /// cheaper way than the policy knows.
    pub open spec fn exact(&self, road: &Roadmap, goal: int) -> bool {
        &&& self.next@.len() == road.size()
        &&& self.weight@.len() == road.size()
        &&& self.dist@.len() == road.size()
        &&& self.hops@.len() == road.size()
        &&& 0 <= goal < road.size()
        &&& road.size() <= usize::MAX
        &&& forall|x: int| 0 <= x < road.size() ==> #[trigger] self.step_fits(road, goal, x)
        &&& forall|a: int, k: int|
            0 <= a < road.size() && 0 <= k < road.adj@[a]@.len() ==> #[trigger] self.arc_fits(road, a, k)
    }

    /// Along an arc the policy's cost grows by no more than the arc's
    /// weight, and where the arc leads to a node that reaches the goal, so
    /// does its source.
    pub proof fn lemma_arc(&self, road: &Roadmap, goal: int, a: int, b: int, w: int)
        requires
            road.wf(),
            self.exact(road, goal),
            road.arcs().contains((a, b, w)),
            self.leads(b),
        ensures
            self.leads(a),
            self.dist@[a] <= w + self.dist@[b],
    {
        assert(road.has_arc(a, b, w));
        let k = choose|k: int|
            0 <= k < road.adj@[a]@.len() && (#[trigger] road.adj@[a]@[k]).0 == b && road.adj@[a]@[k].1 == w;
        assert(self.arc_fits(road, a, k));
        assert(self.step_fits(road, goal, b));
        let hops = self.hops@[b] as int;
        assert(w + hops * usize::MAX < u128::MAX) by (nonlinear_arith)
            requires
                0 <= w <= usize::MAX,
                0 <= hops < usize::MAX,
                usize::MAX <= 0xffff_ffff_ffff_ffff,
                u128::MAX == 0xffff_ffff_ffff_ffff_ffff_ffff_ffff_ffff,
        ;
        if b == goal {
        } else {
        }
    }

    /// From a node on a route to the goal, the goal can be reached, at no
    /// more than the rest of the route costs.
    pub proof fn lemma_no_dearer(&self, road: &Roadmap, goal: int, p: Seq<usize>, t: int)
        requires
            road.wf(),
            self.exact(road, goal),
            is_route(road.arcs(), p, p[0] as int, goal),
            p[0] < road.size(),
            0 <= t,
        ensures
            self.leads(at(p, t)),
            self.dist@[at(p, t)] + cost_upto(road.arcs(), p, t) <= route_cost(road.arcs(), p),
        decreases p.len() - t,
    {
        let arcs = road.arcs();
        road.lemma_arcs_within();
        if t >= p.len() - 1 {
            lemma_cost_after_end(arcs, p, t);
            assert(self.step_fits(road, goal, goal));
        } else {
            self.lemma_no_dearer(road, goal, p, t + 1);
            let a = p[t] as int;
            let b = p[t + 1] as int;
            assert(legal_step(arcs, p[t] as int, p[t + 1] as int));
            lemma_legal_step_cost(arcs, road.size(), a, b);
            if a != b {
                self.lemma_arc(road, goal, a, b, step_cost(arcs, a, b));
            }
        }
    }

    /// The nodes on the policy's way from `x` to the goal.
    pub open spec fn way(&self, goal: usize, x: usize) -> Seq<usize>
        decreases self.hops@[x as int],
    {
        if x == goal || !self.leads(x as int) || !(self.next@[x as int] < self.dist@.len()) || self.hops@[self.next@[x as int] as int]
            >= self.hops@[x as int] {
            seq![x]
        } else {
            seq![x] + self.way(goal, self.next@[x as int])
        }
    }

    /// The policy's way from a node is a route to the goal at the
    /// policy's cost or less.
    pub proof fn lemma_way(&self, road: &Roadmap, goal: usize, x: usize)
        requires
            road.wf(),
            self.exact(road, goal as int),
            self.leads(x as int),
        ensures
            is_route(road.arcs(), self.way(goal, x), x as int, goal as int),
            route_cost(road.arcs(), self.way(goal, x)) <= self.dist@[x as int],
        decreases self.hops@[x as int],
    {
        let arcs = road.arcs();
        let p = self.way(goal, x);
        assert(self.step_fits(road, goal as int, x as int));
        if x == goal {
            assert(p == seq![x]);
            assert(cost_upto(arcs, p, 0) == 0);
        } else {
            let y = self.next@[x as int];
            self.lemma_way(road, goal, y);
            let rest = self.way(goal, y);
            assert(p == seq![x] + rest);
            assert(p[0] == x);
            assert(p[p.len() - 1] == rest[rest.len() - 1]);
            assert forall|t: int| 0 <= t < p.len() - 1 implies legal_step(arcs, #[trigger] p[t] as int, p[t + 1] as int) by {
                if t == 0 {
                    assert(p[1] == rest[0]);
                    assert(crate::mapf::plan::connected(arcs, x as int, y as int));
                } else {
                    assert(p[t] == rest[t - 1]);
                    assert(p[t + 1] == rest[t - 1 + 1]);
                    assert(legal_step(arcs, rest[t - 1] as int, rest[t - 1 + 1] as int));
                }
            }
            lemma_route_split(arcs, p, goal as int, 1);
            assert(route_from(p, 1) =~= rest);
            assert(p[1] == rest[0]);
            assert(cost_upto(arcs, p, 0) == 0);
            assert(cost_upto(arcs, p, 1) == step_cost(arcs, x as int, y as int));
            road.lemma_arcs_within();
            lemma_step_cost_bounds(arcs, road.size(), x as int, y as int, self.weight@[x as int] as int);
        }
    }

    /// The estimate of an admissible table is no more than the policy's
    /// cost, because the policy's way is a route.
    pub proof fn lemma_estimate_below(&self, road: &Roadmap, goal: usize, h: Seq<u128>, x: usize)
        requires
            road.wf(),
            self.exact(road, goal as int),
            crate::mapf::plan::admissible(road.arcs(), h, goal as int),
            h.len() == road.size(),
            self.leads(x as int),
        ensures
            h[x as int] <= self.dist@[x as int],
    {
        self.lemma_way(road, goal, x);
        let p = self.way(goal, x);
        assert(is_route(road.arcs(), p, p[0] as int, goal as int));
    }
}

/// Whether `radj` lists, for every node, the arcs that enter it, each as
/// (source, weight).
pub open spec fn reversed(road: &Roadmap, radj: Seq<Vec<(usize, usize)>>) -> bool {
    &&& radj.len() == road.size()
    &&& forall|b: int, k: int|
        0 <= b < radj.len() && 0 <= k < radj[b]@.len() ==> (#[trigger] radj[b]@[k]).0 < road.size()
            && road.arcs().contains((radj[b]@[k].0 as int, b, radj[b]@[k].1 as int))
    &&& enters_upto(road, radj, road.size(), 0)
}

/// Whether `radj` lists the arcs that leave the nodes below `a`, and the
/// first `k` arcs that leave node `a`.
pub open spec fn enters_upto(road: &Roadmap, radj: Seq<Vec<(usize, usize)>>, a: int, k: int) -> bool {
    forall|x: int, j: int|
        0 <= x < road.size() && 0 <= j < road.adj@[x]@.len() && (x < a || (x == a && j < k)) ==> radj[(
        #[trigger] road.adj@[x]@[j]).0 as int]@.contains((x as usize, road.adj@[x]@[j].1))
}

/// For every node the arcs that enter it.
pub fn reverse(road: &Roadmap) -> (radj: Vec<Vec<(usize, usize)>>)
    requires
        road.wf(),
    ensures
        reversed(road, radj@),
{
    let n = road.adj.len();
    let mut radj: Vec<Vec<(usize, usize)>> = Vec::new();
    let mut b: usize = 0;
    while b < n
        invariant
            0 <= b <= n,
            n == road.size(),
            radj@.len() == b,
            forall|x: int| 0 <= x < b ==> (#[trigger] radj@[x])@.len() == 0,
        decreases n - b,
    {
        radj.push(Vec::new());
        b += 1;
    }
    let mut a: usize = 0;
    while a < n
        invariant
            0 <= a <= n,
            n == road.size(),
            road.wf(),
            radj@.len() == n,
            forall|b: int, k: int|
                0 <= b < radj@.len() && 0 <= k < radj@[b]@.len() ==> (#[trigger] radj@[b]@[k]).0 < road.size()
                    && road.arcs().contains((radj@[b]@[k].0 as int, b, radj@[b]@[k].1 as int)),
            enters_upto(road, radj@, a as int, 0),
        decreases n - a,
    {
        let mut k: usize = 0;
        while k < road.adj[a].len()
            invariant
                0 <= k <= road.adj@[a as int]@.len(),
                a < n,
                n == road.size(),
                road.wf(),
                radj@.len() == n,
                forall|b: int, k: int|
                    0 <= b < radj@.len() && 0 <= k < radj@[b]@.len() ==> (#[trigger] radj@[b]@[k]).0 < road.size()
                        && road.arcs().contains((radj@[b]@[k].0 as int, b, radj@[b]@[k].1 as int)),
                enters_upto(road, radj@, a as int, k as int),
            decreases road.adj@[a as int]@.len() - k,
        {
            let (b, w) = road.adj[a][k];
            assert(road.adj@[a as int]@[k as int].0 < n);
            let ghost before = radj@;
            let mut row: Vec<(usize, usize)> = Vec::new();
            let mut r: usize = 0;
            while r < radj[b].len()
                invariant
                    0 <= r <= radj@[b as int]@.len(),
                    b < radj@.len(),
                    row@.len() == r,
                    forall|s: int| 0 <= s < r ==> row@[s] == radj@[b as int]@[s],
                decreases radj@[b as int]@.len() - r,
            {
                row.push(radj[b][r]);
                r += 1;
            }
            row.push((a, w));
            radj.set(b, row);
            proof {
                road.lemma_entry_is_arc(a as int, k as int);
                assert forall|x: int, s: int| 0 <= x < radj@.len() && 0 <= s < radj@[x]@.len() implies (
                #[trigger] radj@[x]@[s]).0 < road.size() && road.arcs().contains(
                    (radj@[x]@[s].0 as int, x, radj@[x]@[s].1 as int),
                ) by {
                    if x == b {
                        if s < before[x]@.len() {
                            assert(radj@[x]@[s] == before[x]@[s]);
                        }
                    } else {
                        assert(radj@[x] == before[x]);
                    }
                }
                assert forall|x: int, j: int|
                    0 <= x < road.size() && 0 <= j < road.adj@[x]@.len() && (x < a || (x == a && j < k + 1)) implies radj@[(
                #[trigger] road.adj@[x]@[j]).0 as int]@.contains((x as usize, road.adj@[x]@[j].1)) by {
                    let target = road.adj@[x]@[j].0 as int;
                    let pair = (x as usize, road.adj@[x]@[j].1);
                    if x == a && j == k {
                        assert(radj@[b as int]@[before[b as int]@.len() as int] == pair);
                    } else {
                        assert(before[target]@.contains(pair));
                        let s = choose|s: int| 0 <= s < before[target]@.len() && before[target]@[s] == pair;
                        if target == b {
                            assert(radj@[target]@[s] == pair);
                        } else {
                            assert(radj@[target] == before[target]);
                        }
                    }
                }
            }
            k += 1;
        }
        a += 1;
    }
    radj
}

/// What holds of a policy while the tree of cheapest ways grows, `round`
/// nodes being settled; `order` says in which round a node was settled.
pub open spec fn growing(
    road: &Roadmap,
    radj: Seq<Vec<(usize, usize)>>,
    goal: int,
    policy: Policy,
    done: Seq<bool>,
    order: Seq<int>,
    round: int,
) -> bool {
    &&& policy.next@.len() == road.size()
    &&& policy.weight@.len() == road.size()
    &&& policy.dist@.len() == road.size()
    &&& policy.hops@.len() == road.size()
    &&& done.len() == road.size()
    &&& order.len() == road.size()
    &&& forall|x: int| 0 <= x < road.size() ==> #[trigger] tree_fits(road, goal, policy, done, order, round, x)
    &&& forall|x: int, y: int|
        0 <= x < road.size() && 0 <= y < road.size() && #[trigger] done[x] && !#[trigger] done[y] ==> policy.dist@[x]
            <= policy.dist@[y]
    &&& forall|u: int, k: int|
        0 <= u < road.size() && done[u] && 0 <= k < radj[u]@.len() ==> policy.dist@[(#[trigger] radj[u]@[k]).0 as int]
            <= radj[u]@[k].1 + policy.dist@[u]
}

/// What holds of the entry for node `x` while the tree grows.
pub open spec fn tree_fits(
    road: &Roadmap,
    goal: int,
    policy: Policy,
    done: Seq<bool>,
    order: Seq<int>,
    round: int,
    x: int,
) -> bool {
    let y = policy.next@[x] as int;
    &&& 0 <= y < road.size()
    &&& done[x] ==> policy.leads(x) && 0 <= order[x] < round && policy.hops@[x] <= order[x]
    &&& !done[x] ==> policy.hops@[x] <= round
    &&& if x == goal {
        policy.dist@[x] == 0 && y == x && policy.weight@[x] == 0 && policy.hops@[x] == 0
    } else if policy.leads(x) {
        &&& y != x
        &&& done[y]
        &&& done[x] ==> order[y] < order[x]
        &&& road.arcs().contains((x, y, policy.weight@[x] as int))
        &&& policy.dist@[x] == policy.weight@[x] + policy.dist@[y]
        &&& policy.hops@[x] == policy.hops@[y] + 1
        &&& policy.dist@[x] <= policy.hops@[x] * usize::MAX
    } else {
        y == x && policy.weight@[x] == 0 && policy.hops@[x] == 0
    }
}

/// Where every flag is set, none is unset.
proof fn lemma_all_seen(seen: Seq<bool>, i: int)
    requires
        crate::mapf::roadmap::unseen(seen) == 0,
        0 <= i < seen.len(),
    ensures
        seen[i],
    decreases seen.len(),
{
    if i < seen.len() - 1 {
        lemma_all_seen(seen.drop_last(), i);
    }
}

/// Setting a flag that was unset leaves one unset flag less.
proof fn lemma_one_seen(seen: Seq<bool>, i: int)
    requires
        0 <= i < seen.len(),
        !seen[i],
    ensures
        crate::mapf::roadmap::unseen(seen.update(i, true)) + 1 == crate::mapf::roadmap::unseen(seen),
    decreases seen.len(),
{
    let after = seen.update(i, true);
    if i == seen.len() - 1 {
        assert(after.drop_last() == seen.drop_last());
    } else {
        assert(after.drop_last() == seen.drop_last().update(i, true));
        lemma_one_seen(seen.drop_last(), i);
    }
}

/// No flag, none set.
proof fn lemma_none_seen(seen: Seq<bool>)
    requires
        forall|i: int| 0 <= i < seen.len() ==> !seen[i],
    ensures
        crate::mapf::roadmap::unseen(seen) == seen.len(),
    decreases seen.len(),
{
    if seen.len() > 0 {
        lemma_none_seen(seen.drop_last());
    }
}

/// The policy toward `goal`, found by growing the tree of cheapest ways
/// from the goal backwards, nearest node first.
pub fn policy_to(road: &Roadmap, radj: &Vec<Vec<(usize, usize)>>, goal: usize) -> (policy: Policy)
    requires
        road.wf(),
        reversed(road, radj@),
        goal < road.size(),
    ensures
        policy.exact(road, goal as int),
{
    let n = road.adj.len();
    let mut next: Vec<usize> = Vec::new();
    let mut weight: Vec<usize> = Vec::new();
    let mut dist: Vec<u128> = Vec::new();
    let mut hops: Vec<usize> = Vec::new();
    let mut done: Vec<bool> = Vec::new();
    let mut v: usize = 0;
    while v < n
        invariant
            0 <= v <= n,
            next@.len() == v,
            weight@.len() == v,
            dist@.len() == v,
            hops@.len() == v,
            done@.len() == v,
            forall|x: int| 0 <= x < v ==> #[trigger] next@[x] == x,
            forall|x: int| 0 <= x < v ==> #[trigger] weight@[x] == 0,
            forall|x: int| 0 <= x < v ==> #[trigger] hops@[x] == 0,
            forall|x: int| 0 <= x < v ==> #[trigger] dist@[x] == u128::MAX,
            forall|x: int| 0 <= x < v ==> !#[trigger] done@[x],
        decreases n - v,
    {
        next.push(v);
        weight.push(0);
        dist.push(u128::MAX);
        hops.push(0);
        done.push(false);
        v += 1;
    }
    dist.set(goal, 0);
    let mut policy = Policy { next, weight, dist, hops };
    let ghost mut order: Seq<int> = Seq::new(n as nat, |x: int| 0int);
    let mut round: usize = 0;
    let mut open = true;
    proof {
        lemma_none_seen(done@);
        assert forall|x: int| 0 <= x < road.size() implies #[trigger] tree_fits(
            road,
            goal as int,
            policy,
            done@,
            order,
            0,
            x,
        ) by {
        }
    }
    while round < n && open
        invariant
            0 <= round <= n,
            n == road.size(),
            goal < n,
            road.wf(),
            reversed(road, radj@),
            growing(road, radj@, goal as int, policy, done@, order, round as int),
            crate::mapf::roadmap::unseen(done@) + round == n,
            !open ==> forall|x: int| 0 <= x < n && policy.leads(x) ==> #[trigger] done@[x],
        decreases
                n - round + if open {
                    1int
                } else {
                    0int
                },
    {
        // the nearest node that is not settled yet
        let mut u: usize = n;
        let mut x: usize = 0;
        while x < n
            invariant
                0 <= x <= n,
                u <= n,
                n == road.size(),
                policy.dist@.len() == n,
                done@.len() == n,
                u < n ==> !done@[u as int] && policy.leads(u as int),
                forall|y: int|
                    0 <= y < x && !#[trigger] done@[y] && policy.leads(y) ==> u < n && policy.dist@[u as int]
                        <= policy.dist@[y],
            decreases n - x,
        {
            if !done[x] && policy.dist[x] < u128::MAX && (u == n || policy.dist[x] < policy.dist[u]) {
                u = x;
            }
            x += 1;
        }
        if u == n {
            open = false;
        } else {
            let ghost before = policy;
            let ghost done0 = done@;
            let ghost order0 = order;
            proof {
                lemma_one_seen(done@, u as int);
                order = order.update(u as int, round as int);
                assert(tree_fits(road, goal as int, policy, done0, order0, round as int, u as int));
            }
            done.set(u, true);
            proof {
                assert forall|y: int| 0 <= y < n implies #[trigger] tree_fits(
                    road,
                    goal as int,
                    policy,
                    done@,
                    order,
                    round + 1,
                    y,
                ) by {
                    assert(tree_fits(road, goal as int, policy, done0, order0, round as int, y));
                    let z = policy.next@[y] as int;
                    assert(tree_fits(road, goal as int, policy, done0, order0, round as int, z));
                }
                assert forall|a: int, b: int|
                    0 <= a < n && 0 <= b < n && #[trigger] done@[a] && !#[trigger] done@[b] implies policy.dist@[a]
                    <= policy.dist@[b] by {
                    if a != u {
                        assert(done0[a] && !done0[b]);
                    }
                }
                assert forall|a: int| 0 <= a < n && #[trigger] done@[a] implies policy.dist@[a] <= policy.dist@[u as int] by {
                    if a != u {
                        assert(done0[a] && !done0[u as int]);
                    }
                }
            }
            let du = policy.dist[u];
            let hu = policy.hops[u];
            let mut k: usize = 0;
            while k < radj[u].len()
                invariant
                    0 <= k <= radj@[u as int]@.len(),
                    u < n,
                    n == road.size(),
                    goal < n,
                    round < n,
                    road.wf(),
                    reversed(road, radj@),
                    done@[u as int],
                    du == policy.dist@[u as int],
                    hu == policy.hops@[u as int],
                    policy.next@.len() == n,
                    policy.weight@.len() == n,
                    policy.dist@.len() == n,
                    policy.hops@.len() == n,
                    done@.len() == n,
                    order.len() == n,
                    forall|y: int|
                        0 <= y < n ==> #[trigger] tree_fits(road, goal as int, policy, done@, order, round + 1, y),
                    forall|a: int, b: int|
                        0 <= a < n && 0 <= b < n && #[trigger] done@[a] && !#[trigger] done@[b] ==> policy.dist@[a]
                            <= policy.dist@[b],
                    forall|a: int| 0 <= a < n && #[trigger] done@[a] ==> policy.dist@[a] <= du,
                    forall|v: int, j: int|
                        0 <= v < n && done@[v] && 0 <= j < radj@[v]@.len() && (v != u || j < k) ==> policy.dist@[(
                        #[trigger] radj@[v]@[j]).0 as int] <= radj@[v]@[j].1 + policy.dist@[v],
                decreases radj@[u as int]@.len() - k,
            {
                let (a, w) = radj[u][k];
                assert(radj@[u as int]@[k as int].0 < road.size());
                proof {
                    assert(tree_fits(road, goal as int, policy, done@, order, round + 1, u as int));
                    assert(tree_fits(road, goal as int, policy, done@, order, round + 1, a as int));
                    let hops = hu as int;
                    assert(hops * usize::MAX + usize::MAX < u128::MAX) by (nonlinear_arith)
                        requires
                            0 <= hops < usize::MAX,
                            usize::MAX <= 0xffff_ffff_ffff_ffff,
                            u128::MAX == 0xffff_ffff_ffff_ffff_ffff_ffff_ffff_ffff,
                    ;
                    assert((hops + 1) * usize::MAX == hops * usize::MAX + usize::MAX) by (nonlinear_arith);
                }
                let through = du + w as u128;
                if !done[a] && a != u && through < policy.dist[a] {
                    let ghost earlier = policy;
                    policy.dist.set(a, through);
                    policy.next.set(a, u);
                    policy.weight.set(a, w);
                    policy.hops.set(a, hu + 1);
                    proof {
                        assert(a != goal);
                        assert forall|y: int| 0 <= y < n implies #[trigger] tree_fits(
                            road,
                            goal as int,
                            policy,
                            done@,
                            order,
                            round + 1,
                            y,
                        ) by {
                            assert(tree_fits(road, goal as int, earlier, done@, order, round + 1, y));
                            if y != a {
                                let z = earlier.next@[y] as int;
                                assert(policy.next@[y] == earlier.next@[y]);
                                assert(policy.dist@[y] == earlier.dist@[y]);
                                assert(policy.weight@[y] == earlier.weight@[y]);
                                assert(policy.hops@[y] == earlier.hops@[y]);
                                if earlier.leads(y) && y != goal {
                                    assert(z != a);
                                }
                            }
                        }
                        assert forall|x: int, y: int|
                            0 <= x < n && 0 <= y < n && #[trigger] done@[x] && !#[trigger] done@[y] implies policy.dist@[x]
                            <= policy.dist@[y] by {
                            assert(earlier.dist@[x] <= earlier.dist@[y]);
                            assert(earlier.dist@[x] <= du);
                        }
                        assert forall|x: int| 0 <= x < n && #[trigger] done@[x] implies policy.dist@[x] <= du by {
                            assert(earlier.dist@[x] <= du);
                        }
                        assert forall|v: int, j: int|
                            0 <= v < n && done@[v] && 0 <= j < radj@[v]@.len() && (v != u || j < k + 1) implies policy.dist@[(
                        #[trigger] radj@[v]@[j]).0 as int] <= radj@[v]@[j].1 + policy.dist@[v] by {
                            if v != u || j < k {
                                assert(earlier.dist@[radj@[v]@[j].0 as int] <= radj@[v]@[j].1 + earlier.dist@[v]);
                            }
                        }
                    }
                } else {
                    proof {
                        assert forall|v: int, j: int|
                            0 <= v < n && done@[v] && 0 <= j < radj@[v]@.len() && (v != u || j < k + 1) implies policy.dist@[(
                        #[trigger] radj@[v]@[j]).0 as int] <= radj@[v]@[j].1 + policy.dist@[v] by {
                            if v == u && j == k {
                                if done@[a as int] {
                                    assert(policy.dist@[a as int] <= du);
                                }
                            }
                        }
                    }
                }
                k += 1;
            }
            round += 1;
        }
    }
    proof {
        let g = goal as int;
        assert forall|x: int| 0 <= x < n && policy.leads(x) implies #[trigger] done@[x] by {
            if open {
                assert(crate::mapf::roadmap::unseen(done@) == 0);
                lemma_all_seen(done@, x);
            }
        }
        assert forall|x: int| 0 <= x < road.size() implies #[trigger] policy.step_fits(road, g, x) by {
            assert(tree_fits(road, g, policy, done@, order, round as int, x));
            if x != g && policy.leads(x) {
                let y = policy.next@[x] as int;
                assert(tree_fits(road, g, policy, done@, order, round as int, y));
            }
        }
        assert forall|a: int, k: int| 0 <= a < road.size() && 0 <= k < road.adj@[a]@.len() implies #[trigger] policy.arc_fits(
            road,
            a,
            k,
        ) by {
            let b = road.adj@[a]@[k].0 as int;
            let w = road.adj@[a]@[k].1;
            if policy.leads(b) {
                assert(done@[b]);
                assert(enters_upto(road, radj@, road.size(), 0));
                assert(radj@[b]@.contains((a as usize, w)));
                let j = choose|j: int| 0 <= j < radj@[b]@.len() && radj@[b]@[j] == (a as usize, w);
                assert(policy.dist@[radj@[b]@[j].0 as int] <= radj@[b]@[j].1 + policy.dist@[b]);
            }
        }
    }
    policy
}

} // verus!
