//! From a goal node back to the root: the routes that a search found.

use vstd::prelude::*;
use crate::mapf::joint_search::{
    clash, distinct, is_goal, is_standard, node_wf, step_costs, views, Ctx, Node, NodeView,
};
use crate::mapf::plan::{
    at, collide, costs_upto, is_route, is_solution, legal_step, lemma_total_after_end,
    lemma_total_upto_is_sum, lemma_total_upto_zero, total_cost, total_upto,
};
use crate::mapf::sums::lemma_sum_add;

verus! {

/// Whether `chain` lists standard nodes from some node back to the root,
/// each the origin of the one before it.
pub open spec fn is_chain(ctx: Ctx, nodes: Seq<NodeView>, chain: Seq<usize>) -> bool {
    &&& chain.len() >= 1
    &&& chain[chain.len() - 1] == 0
    &&& forall|s: int|
        0 <= s < chain.len() ==> #[trigger] chain[s] < nodes.len() && is_standard(ctx, nodes[chain[s] as int])
    &&& forall|s: int|
        0 <= s < chain.len() - 1 ==> #[trigger] chain[s] > 0 && nodes[chain[s] as int].origin == chain[s + 1]
}

/// The configuration at time `t` along a chain.
pub open spec fn chain_config(nodes: Seq<NodeView>, chain: Seq<usize>, t: int) -> Seq<usize> {
    nodes[chain[chain.len() - 1 - t] as int].pos
}

/// Whether route `j` is what agent `j` does along the chain.
pub open spec fn reads_chain(nodes: Seq<NodeView>, chain: Seq<usize>, path: Seq<usize>, j: int) -> bool {
    &&& path.len() == chain.len()
    &&& forall|t: int| 0 <= t < path.len() ==> #[trigger] path[t] == chain_config(nodes, chain, t)[j]
}

/// What the routes along a chain have cost by time `t` is no more than the
/// cost of the chain's node at that time.
proof fn lemma_chain_cost(ctx: Ctx, nodes: Seq<NodeView>, chain: Seq<usize>, paths: Seq<Seq<usize>>, t: int)
    requires
        ctx.wf(),
        forall|i: int| 0 <= i < nodes.len() ==> #[trigger] node_wf(ctx, nodes, i),
        is_chain(ctx, nodes, chain),
        paths.len() == ctx.n(),
        forall|j: int| 0 <= j < paths.len() ==> reads_chain(nodes, chain, #[trigger] paths[j], j),
        0 <= t < chain.len(),
    ensures
        total_upto(ctx.arcs(), paths, t) <= nodes[chain[chain.len() - 1 - t] as int].g,
    decreases t,
{
    let arcs = ctx.arcs();
    let last = chain.len() - 1;
    if t == 0 {
        lemma_total_upto_zero(arcs, paths);
        assert(node_wf(ctx, nodes, chain[last] as int));
    } else {
        lemma_chain_cost(ctx, nodes, chain, paths, t - 1);
        let s = last - t;
        let c = nodes[chain[s] as int];
        assert(chain[s] > 0 && nodes[chain[s] as int].origin == chain[s + 1]);
        assert(node_wf(ctx, nodes, chain[s] as int));
        assert(is_standard(ctx, nodes[chain[s] as int]));
        let earlier = costs_upto(arcs, paths, t - 1);
        let later = costs_upto(arcs, paths, t);
        let steps = step_costs(arcs, c.from, c.pos);
        assert forall|j: int| 0 <= j < ctx.n() implies #[trigger] later(j) == earlier(j) + steps(j) by {
            assert(reads_chain(nodes, chain, paths[j], j));
            assert(paths[j][t - 1] == chain_config(nodes, chain, t - 1)[j]);
            assert(paths[j][t] == chain_config(nodes, chain, t)[j]);
            assert(at(paths[j], t - 1) == c.from[j]);
            assert(at(paths[j], t) == c.pos[j]);
        }
        lemma_sum_add(earlier, steps, later, ctx.n());
        lemma_total_upto_is_sum(arcs, paths, t - 1);
        lemma_total_upto_is_sum(arcs, paths, t);
    }
}

/// The routes along a chain from a goal node solve the problem, at no more
/// than the node's cost.
pub proof fn lemma_chain_solves(ctx: Ctx, nodes: Seq<NodeView>, chain: Seq<usize>, paths: Seq<Seq<usize>>)
    requires
        ctx.wf(),
        forall|i: int| 0 <= i < nodes.len() ==> #[trigger] node_wf(ctx, nodes, i),
        is_chain(ctx, nodes, chain),
        is_goal(ctx, nodes[chain[0] as int]),
        paths.len() == ctx.n(),
        forall|j: int| 0 <= j < paths.len() ==> reads_chain(nodes, chain, #[trigger] paths[j], j),
    ensures
        is_solution(ctx.arcs(), ctx.starts, ctx.goals, paths),
        total_cost(ctx.arcs(), paths) <= nodes[chain[0] as int].g,
{
    let arcs = ctx.arcs();
    let last = chain.len() - 1;
    let goal = nodes[chain[0] as int];
    assert(node_wf(ctx, nodes, 0));
    assert forall|j: int| 0 <= j < paths.len() implies is_route(
        arcs,
        #[trigger] paths[j],
        ctx.starts[j] as int,
        ctx.goals[j] as int,
    ) by {
        let p = paths[j];
        assert(reads_chain(nodes, chain, p, j));
        assert(p[0] == chain_config(nodes, chain, 0)[j]);
        assert(p[last] == chain_config(nodes, chain, last)[j]);
        assert forall|t: int| 0 <= t < p.len() - 1 implies legal_step(arcs, #[trigger] p[t] as int, p[t + 1] as int) by {
            let s = last - t - 1;
            let c = nodes[chain[s] as int];
            assert(chain[s] > 0 && nodes[chain[s] as int].origin == chain[s + 1]);
            assert(node_wf(ctx, nodes, chain[s] as int));
            assert(is_standard(ctx, nodes[chain[s] as int]));
            assert(p[t] == chain_config(nodes, chain, t)[j]);
            assert(p[t + 1] == chain_config(nodes, chain, t + 1)[j]);
            assert(legal_step(arcs, c.from[j] as int, c.pos[j] as int));
        }
    }
    assert forall|i: int, j: int, t: int| 0 <= i < j < paths.len() && 0 <= t implies !#[trigger] collide(
        paths[i],
        paths[j],
        t,
    ) by {
        assert(reads_chain(nodes, chain, paths[i], i));
        assert(reads_chain(nodes, chain, paths[j], j));
        if t < last {
            let s = last - t - 1;
            let c = nodes[chain[s] as int];
            assert(chain[s] > 0 && nodes[chain[s] as int].origin == chain[s + 1]);
            assert(node_wf(ctx, nodes, chain[s] as int));
            assert(is_standard(ctx, nodes[chain[s] as int]));
            assert(paths[i][t] == chain_config(nodes, chain, t)[i]);
            assert(paths[j][t] == chain_config(nodes, chain, t)[j]);
            assert(paths[i][t + 1] == chain_config(nodes, chain, t + 1)[i]);
            assert(paths[j][t + 1] == chain_config(nodes, chain, t + 1)[j]);
            assert(!clash(c.from, c.pos, i, j));
            assert(distinct(c.from));
        } else {
            assert(node_wf(ctx, nodes, chain[0] as int));
            assert(paths[i][last] == chain_config(nodes, chain, last)[i]);
            assert(paths[j][last] == chain_config(nodes, chain, last)[j]);
            assert(!clash(goal.from, goal.pos, i, j));
        }
    }
    lemma_chain_cost(ctx, nodes, chain, paths, last);
    assert forall|j: int| 0 <= j < paths.len() implies (#[trigger] paths[j]).len() >= 1 && last >= paths[j].len()
        - 1 by {
        assert(reads_chain(nodes, chain, paths[j], j));
    }
    lemma_total_after_end(arcs, paths, last);
}

/// The routes that lead to the goal node `u`: one per agent, all of the
/// same length.
pub(crate) fn trace(nodes: &Vec<Node>, u: usize, n: usize, Ghost(ctx): Ghost<Ctx>) -> (paths: Vec<Vec<usize>>)
    requires
        ctx.wf(),
        n == ctx.n(),
        forall|i: int| 0 <= i < nodes@.len() ==> #[trigger] node_wf(ctx, views(nodes@), i),
        u < nodes@.len(),
        is_goal(ctx, nodes@[u as int]@),
    ensures
        is_solution(ctx.arcs(), ctx.starts, ctx.goals, paths.deep_view()),
        total_cost(ctx.arcs(), paths.deep_view()) <= nodes@[u as int].g,
{
    let ghost all = views(nodes@);
    let mut chain: Vec<usize> = Vec::new();
    let mut cur = u;
    while cur != 0
        invariant
            all == views(nodes@),
            forall|i: int| 0 <= i < nodes@.len() ==> #[trigger] node_wf(ctx, all, i),
            cur < nodes@.len(),
            is_standard(ctx, all[cur as int]),
            chain@.len() == 0 ==> cur == u,
            chain@.len() > 0 ==> chain@[0] == u && all[chain@[chain@.len() - 1] as int].origin == cur,
            forall|s: int|
                0 <= s < chain@.len() ==> #[trigger] chain@[s] < all.len() && is_standard(ctx, all[chain@[s] as int])
                    && chain@[s] > 0,
            forall|s: int| 0 <= s < chain@.len() - 1 ==> all[#[trigger] chain@[s] as int].origin == chain@[s + 1],
        decreases cur,
    {
        proof {
            assert(node_wf(ctx, all, cur as int));
            assert(all[cur as int] == nodes@[cur as int]@);
        }
        let ghost before = chain@;
        chain.push(cur);
        cur = nodes[cur].origin;
        proof {
            assert forall|s: int| 0 <= s < chain@.len() - 1 implies all[#[trigger] chain@[s] as int].origin
                == chain@[s + 1] by {
                if s < before.len() - 1 {
                    assert(chain@[s] == before[s]);
                    assert(chain@[s + 1] == before[s + 1]);
                }
            }
        }
    }
    let ghost before = chain@;
    chain.push(0);
    proof {
        assert forall|s: int| 0 <= s < chain@.len() - 1 implies #[trigger] chain@[s] > 0 && all[chain@[s] as int].origin
            == chain@[s + 1] by {
            assert(chain@[s] == before[s]);
            if s < before.len() - 1 {
                assert(chain@[s + 1] == before[s + 1]);
            }
        }
        assert(is_chain(ctx, all, chain@));
        assert(chain@[0] == u);
    }
    let mut paths: Vec<Vec<usize>> = Vec::new();
    let mut j: usize = 0;
    while j < n
        invariant
            0 <= j <= n,
            n == ctx.n(),
            all == views(nodes@),
            forall|i: int| 0 <= i < nodes@.len() ==> #[trigger] node_wf(ctx, all, i),
            is_chain(ctx, all, chain@),
            paths@.len() == j,
            forall|i: int| 0 <= i < j ==> reads_chain(all, chain@, (#[trigger] paths@[i])@, i),
        decreases n - j,
    {
        let mut path: Vec<usize> = Vec::new();
        let mut s: usize = chain.len();
        while s > 0
            invariant
                0 <= s <= chain@.len(),
                j < n,
                n == ctx.n(),
                all == views(nodes@),
                forall|i: int| 0 <= i < nodes@.len() ==> #[trigger] node_wf(ctx, all, i),
                is_chain(ctx, all, chain@),
                path@.len() == chain@.len() - s,
                forall|t: int| 0 <= t < path@.len() ==> #[trigger] path@[t] == chain_config(all, chain@, t)[j as int],
            decreases s,
        {
            s -= 1;
            let c = chain[s];
            proof {
                assert(chain@[s as int] < all.len());
                assert(node_wf(ctx, all, c as int));
                assert(all[c as int] == nodes@[c as int]@);
            }
            let x = nodes[c].pos[j];
            path.push(x);
        }
        paths.push(path);
        j += 1;
    }
    proof {
        let view = paths.deep_view();
        assert(view.len() == n);
        assert forall|i: int| 0 <= i < view.len() implies reads_chain(all, chain@, #[trigger] view[i], i) by {
            assert(view[i] == paths@[i]@);
            assert(reads_chain(all, chain@, paths@[i]@, i));
        }
        assert(all[u as int] == nodes@[u as int]@);
        lemma_chain_solves(ctx, all, chain@, view);
    }
    paths
}

} // verus!
