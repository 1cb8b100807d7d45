//! Finding collisions between routes, and cutting the waits off a route's
//! end.

use vstd::prelude::*;
use crate::mapf::plan::{at, collide, cost_upto, is_route, legal_step, lemma_cost_after_end, route_cost};

verus! {

/// Where an agent with route `p` is at time `t`.
pub fn position(p: &Vec<usize>, t: usize) -> (x: usize)
    requires
        p@.len() >= 1,
    ensures
        x == at(p@, t as int),
{
    if t < p.len() {
        p[t]
    } else {
        p[p.len() - 1]
    }
}

/// Whether two routes collide at some time: the agents are on one node, or
/// swap their nodes.
pub fn routes_collide(p: &Vec<usize>, q: &Vec<usize>) -> (r: bool)
    requires
        p@.len() >= 1,
        q@.len() >= 1,
    ensures
        r == exists|t: int| 0 <= t && collide(p@, q@, t),
{
    let end = if p.len() >= q.len() {
        p.len()
    } else {
        q.len()
    };
    let mut t: usize = 0;
    while t < end
        invariant
            0 <= t <= end,
            p@.len() >= 1,
            q@.len() >= 1,
            end >= p@.len(),
            end >= q@.len(),
            end == p@.len() || end == q@.len(),
            forall|s: int| 0 <= s < t ==> !collide(p@, q@, s),
        decreases end - t,
    {
        let a0 = position(p, t);
        let b0 = position(q, t);
        let a1 = position(p, t + 1);
        let b1 = position(q, t + 1);
        if a0 == b0 || (a1 == b0 && b1 == a0) {
            assert(collide(p@, q@, t as int));
            return true;
        }
        t += 1;
    }
    proof {
        assert forall|s: int| 0 <= s implies !collide(p@, q@, s) by {
            if s >= end {
                assert(!collide(p@, q@, end - 1));
            }
        }
    }
    false
}

/// Whether the routes of agents `a` and `b` of different groups collide.
pub open spec fn in_conflict(paths: Seq<Vec<usize>>, group: Seq<usize>, a: int, b: int) -> bool {
    group[a] != group[b] && exists|t: int| 0 <= t && collide(paths[a]@, paths[b]@, t)
}

/// The first pair of agents of different groups whose routes collide, in
/// the order of the agents.
pub fn find_conflict(paths: &Vec<Vec<usize>>, group: &Vec<usize>) -> (found: Option<(usize, usize)>)
    requires
        paths@.len() == group@.len(),
        forall|i: int| 0 <= i < paths@.len() ==> (#[trigger] paths@[i])@.len() >= 1,
    ensures
        match found {
            Some((i, j)) => {
                &&& i < j < paths@.len()
                &&& in_conflict(paths@, group@, i as int, j as int)
                &&& forall|a: int, b: int|
                    0 <= a < b < paths@.len() && (a < i || (a == i && b < j)) ==> !#[trigger] in_conflict(
                        paths@,
                        group@,
                        a,
                        b,
                    )
            },
            None => forall|a: int, b: int|
                0 <= a < b < paths@.len() ==> !#[trigger] in_conflict(paths@, group@, a, b),
        },
{
    let n = paths.len();
    let mut i: usize = 0;
    while i < n
        invariant
            0 <= i <= n,
            n == paths@.len(),
            n == group@.len(),
            forall|x: int| 0 <= x < paths@.len() ==> (#[trigger] paths@[x])@.len() >= 1,
            forall|a: int, b: int| 0 <= a < i && a < b < n ==> !#[trigger] in_conflict(paths@, group@, a, b),
        decreases n - i,
    {
        let mut j: usize = i + 1;
        while j < n
            invariant
                0 <= i < j <= n,
                n == paths@.len(),
                n == group@.len(),
                forall|x: int| 0 <= x < paths@.len() ==> (#[trigger] paths@[x])@.len() >= 1,
                forall|a: int, b: int| 0 <= a < i && a < b < n ==> !#[trigger] in_conflict(paths@, group@, a, b),
                forall|b: int| i < b < j ==> !#[trigger] in_conflict(paths@, group@, i as int, b),
            decreases n - j,
        {
            if group[i] != group[j] && routes_collide(&paths[i], &paths[j]) {
                return Some((i, j));
            }
            j += 1;
        }
        i += 1;
    }
    None
}

/// Whether a route ends with a wait.
pub open spec fn ends_waiting(p: Seq<usize>) -> bool {
    p.len() >= 2 && p[p.len() - 1] == p[p.len() - 2]
}

/// Whether two routes put the agent on the same node at every time.
pub open spec fn same_whereabouts(p: Seq<usize>, q: Seq<usize>) -> bool {
    p.len() >= 1 && q.len() >= 1 && forall|t: int| 0 <= t ==> #[trigger] at(p, t) == at(q, t)
}

/// Routes with the same whereabouts cost the same up to any time.
pub proof fn lemma_same_cost_upto(arcs: Set<(int, int, int)>, p: Seq<usize>, q: Seq<usize>, t: int)
    requires
        same_whereabouts(p, q),
    ensures
        cost_upto(arcs, p, t) == cost_upto(arcs, q, t),
    decreases t,
{
    if t > 0 {
        lemma_same_cost_upto(arcs, p, q, t - 1);
        assert(at(p, t - 1) == at(q, t - 1));
        assert(at(p, t) == at(q, t));
    }
}

/// Routes with the same whereabouts cost the same, lead to the same goal,
/// and collide with the same routes.
pub proof fn lemma_same_route(arcs: Set<(int, int, int)>, p: Seq<usize>, q: Seq<usize>, start: int, goal: int)
    requires
        same_whereabouts(p, q),
        is_route(arcs, p, start, goal),
    ensures
        is_route(arcs, q, start, goal),
        route_cost(arcs, q) == route_cost(arcs, p),
{
    let far = if p.len() >= q.len() {
        p.len() as int
    } else {
        q.len() as int
    };
    assert(at(p, 0) == at(q, 0));
    assert(at(p, far) == at(q, far));
    assert forall|t: int| 0 <= t < q.len() - 1 implies legal_step(arcs, #[trigger] q[t] as int, q[t + 1] as int) by {
        assert(at(p, t) == at(q, t));
        assert(at(p, t + 1) == at(q, t + 1));
        if t < p.len() - 1 {
            assert(legal_step(arcs, p[t] as int, p[t + 1] as int));
        }
    }
    lemma_same_cost_upto(arcs, p, q, far);
    lemma_cost_after_end(arcs, p, far);
    lemma_cost_after_end(arcs, q, far);
}

/// The route without the waits at its end.
pub fn trim(p: &Vec<usize>) -> (q: Vec<usize>)
    requires
        p@.len() >= 1,
    ensures
        same_whereabouts(p@, q@),
        !ends_waiting(q@),
        q@.len() <= p@.len(),
{
    let mut keep: usize = p.len();
    while keep >= 2 && p[keep - 1] == p[keep - 2]
        invariant
            1 <= keep <= p@.len(),
            forall|t: int| keep - 1 <= t < p@.len() ==> #[trigger] p@[t] == p@[keep - 1],
        decreases keep,
    {
        keep -= 1;
    }
    let mut q: Vec<usize> = Vec::new();
    let mut t: usize = 0;
    while t < keep
        invariant
            0 <= t <= keep <= p@.len(),
            q@.len() == t,
            forall|s: int| 0 <= s < t ==> q@[s] == p@[s],
        decreases keep - t,
    {
        q.push(p[t]);
        t += 1;
    }
    proof {
        assert forall|s: int| 0 <= s implies #[trigger] at(p@, s) == at(q@, s) by {
        }
    }
    q
}

} // verus!
