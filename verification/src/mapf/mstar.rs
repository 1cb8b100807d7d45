//! M*: every agent follows its own policy until its route collides with
//! another's; from then on, at the configurations that led to the
//! collision, the agents involved try all their moves.

use vstd::prelude::*;
use std::collections::HashMap;
use crate::mapf::agent::Agent;
use crate::mapf::bound::tables_admissible;
use crate::mapf::distance_heuristic::DistanceHeuristic;
use crate::mapf::forest::{
    grows, lemma_coverage_stable, no_collisions, policies_exact, within, Forest,
};
use crate::mapf::graphlike::GraphLike;
use crate::mapf::heap::not_after;
use crate::mapf::index::{mix, Index, MANY};
use crate::mapf::independence::lemma_plan_enough;
use crate::mapf::joint_search::{
    clash, copy_of, estimate_at, is_goal, moved, node_wf, same, setting, step_costs, views, Node,
};
use crate::mapf::mapf_problem::MAPFProblem;
use crate::mapf::mstar_bound::lemma_stuck;
use crate::mapf::plan::{is_optimal, is_solution};
use crate::mapf::policy::{policy_to, reverse, reversed, Policy};
use crate::mapf::roadmap::Roadmap;
use crate::mapf::setup::{answer_of_none, lemma_fit_admissible, prepare, prepared_for, set_aside, settle};
use crate::mapf::sums::sum_over;
use crate::mapf::trace::trace;
use crate::mapf::{solved, MAPFAlgorithm, MapfError, Path};

verus! {

/// The solver that searches the joint configurations only as far as
/// collisions force it to.
pub struct MStar;

/// Searches with subdimensional expansion. `Some` routes solve the
/// problem and, with admissible estimates, no routes that solve it are
/// cheaper; `None` says that the problem has no solution. The routes found
/// all have the same length. Every record taken from the open list costs
/// one unit of fuel; `Timeout` says that the fuel ran out. How much fuel
/// this search needs at most is not stated: a configuration is opened
/// again whenever its collision set grows or a cheaper way to it is found.
pub(crate) fn subdimensional(
    road: &Roadmap,
    starts: &Vec<usize>,
    goals: &Vec<usize>,
    htab: &Vec<Vec<u128>>,
    policies: &Vec<Policy>,
    fuel: &mut usize,
) -> (r: Result<Option<Vec<Vec<usize>>>, MapfError>)
    requires
        setting(road, starts@, goals@, htab.deep_view()).wf(),
        policies_exact(setting(road, starts@, goals@, htab.deep_view()), policies@),
    ensures
        *final(fuel) <= *old(fuel),
        match r {
            Ok(Some(paths)) => {
                &&& is_solution(road.arcs(), starts@, goals@, paths.deep_view())
                &&& tables_admissible(setting(road, starts@, goals@, htab.deep_view())) ==> is_optimal(
                    road.arcs(),
                    starts@,
                    goals@,
                    paths.deep_view(),
                )
            },
            Ok(None) => forall|q: Seq<Seq<usize>>| !is_solution(road.arcs(), starts@, goals@, q),
            Err(e) => e == MapfError::Timeout,
        },
{
    let ghost ctx = setting(road, starts@, goals@, htab.deep_view());
    let ghost empty = Seq::<(usize, usize)>::empty();
    let n = starts.len();
    if !crate::mapf::joint_search::all_distinct(starts) {
        proof {
            crate::mapf::joint_search::lemma_shared_start(road.arcs(), starts@, goals@);
        }
        return Ok(None);
    }
    proof {
        assert forall|j: int| 0 <= j < starts@.len() implies (#[trigger] starts@[j]) < htab@[j]@.len() by {
            assert(htab.deep_view()[j] == htab@[j].deep_view());
            assert(ctx.h[j].len() == ctx.road.size());
        }
    }
    let h0 = estimate_at(htab, starts);
    let root = Node { from: copy_of(starts), pos: copy_of(starts), k: n, g: 0, h: h0, f: h0, origin: 0 };
    let mut forest = Forest {
        records: Vec::new(),
        pos: Vec::new(),
        collision: Vec::new(),
        back: Vec::new(),
        best: Vec::new(),
        waiting: Vec::new(),
        settled: Vec::new(),
        open: Vec::new(),
        owner: Vec::new(),
        index: Index::new(MANY),
        broken: false,
    };
    forest.index.file(mix(starts, 0), 0);
    forest.records.push(root);
    forest.owner.push(0);
    forest.pos.push(copy_of(starts));
    forest.collision.push(no_collisions(n));
    forest.back.push(Vec::new());
    forest.best.push(0);
    forest.waiting.push(true);
    forest.settled.push(false);
    forest.open.push(0);
    proof {
        let all = views(forest.records@);
        let v = all[0];
        assert(v.from == starts@ && v.pos == starts@);
        assert forall|i: int, j: int| 0 <= i < j < v.k implies !#[trigger] clash(v.from, v.pos, i, j) by {
        }
        assert(moved(ctx, v.from, v.pos, v.k));
        assert(sum_over(step_costs(ctx.arcs(), v.from, v.pos), 0) == 0);
        assert(node_wf(ctx, all, 0));
        assert(forest.inv(ctx));
        assert(forest.open@[0] == 0);
        assert(forest.mid(ctx, policies@, -1, empty));
    }
    loop
        invariant
            ctx == setting(road, starts@, goals@, htab.deep_view()),
            empty == Seq::<(usize, usize)>::empty(),
            ctx.wf(),
            n == ctx.n(),
            policies_exact(ctx, policies@),
            forest.mid(ctx, policies@, -1, empty),
            *fuel <= *old(fuel),
        decreases *fuel,
    {
        if forest.broken {
            return Err(MapfError::Timeout);
        }
        if forest.open.len() == 0 {
            proof {
                assert forall|q: Seq<Seq<usize>>| !is_solution(road.arcs(), starts@, goals@, q) by {
                    if is_solution(road.arcs(), starts@, goals@, q) {
                        lemma_stuck(ctx, policies@, forest, q);
                        let v = choose|v: int| 0 <= v < forest.cells() && !#[trigger] forest.settled@[v];
                        assert(forest.waiting@[v]);
                        assert(forest.open@.contains(forest.best@[v]));
                    }
                }
            }
            return Ok(None);
        }
        if *fuel == 0 {
            return Err(MapfError::Timeout);
        }
        *fuel = *fuel - 1;
        let ghost before = forest;
        let r = crate::mapf::heap::pop(&mut forest.open, &forest.records);
        let c = forest.owner[r];
        assert(forest.owner@[r as int] < forest.cells());
        let fresh = forest.waiting[c] && forest.best[c] == r;
        if fresh && same(&forest.pos[c], goals) {
            proof {
                assert(views(forest.records@)[r as int] == forest.records@[r as int]@);
                assert(is_goal(ctx, forest.records@[r as int]@));
            }
            let paths = trace(&forest.records, r, n, Ghost(ctx));
            proof {
                if tables_admissible(ctx) {
                    assert forall|other: Seq<Seq<usize>>| #[trigger]
                        is_solution(road.arcs(), starts@, goals@, other) implies crate::mapf::plan::total_cost(
                        road.arcs(),
                        paths.deep_view(),
                    ) <= crate::mapf::plan::total_cost(road.arcs(), other) by {
                        lemma_stuck(ctx, policies@, before, other);
                        let v = choose|v: int|
                            0 <= v < before.cells() && !#[trigger] before.settled@[v] && (tables_admissible(ctx)
                                ==> before.f_of(v) <= crate::mapf::plan::total_cost(ctx.arcs(), other));
                        assert(before.waiting@[v]);
                        assert(before.open@.contains(before.best@[v]));
                        assert(not_after(forest.records@, r, before.best@[v]));
                        assert(node_wf(ctx, views(forest.records@), r as int));
                    }
                }
            }
            return Ok(Some(paths));
        }
        if fresh {
            forest.waiting.set(c, false);
            forest.settled.set(c, false);
        }
        proof {
            assert(grows(before, forest, ctx.n()));
            let cur = if fresh {
                c as int
            } else {
                -1
            };
            assert forall|x: int| 0 <= x < forest.cells() && #[trigger] forest.settled@[x] implies x != cur
                && forest.pos@[x]@ != ctx.goals && forest.coverage(ctx, policies@, x) by {
                assert(before.settled@[x]);
                lemma_coverage_stable(ctx, policies@, before, forest, x);
            }
            assert forall|x: int| 0 <= x < forest.cells() && #[trigger] forest.waiting@[x] implies forest.open@.contains(
                forest.best@[x],
            ) by {
                assert(before.waiting@[x]);
                assert(before.open@.contains(before.best@[x]));
                if forest.best@[x] == r {
                    assert(forest.owner@[forest.best@[x] as int] == x);
                }
            }
            if !forest.broken {
                assert forall|x: usize, k: int| x < forest.cells() && 0 <= k < forest.back@[x as int]@.len() implies within(
                    forest.coll(x as int),
                    forest.coll(#[trigger] forest.back@[x as int]@[k] as int),
                    ctx.n(),
                ) || empty.contains((forest.back@[x as int]@[k], x)) by {
                    assert(within(
                        before.coll(x as int),
                        before.coll(before.back@[x as int]@[k] as int),
                        ctx.n(),
                    ) || empty.contains((before.back@[x as int]@[k], x)));
                }
            }
            assert(forest.mid(ctx, policies@, cur, empty));
        }
        if fresh {
            forest.grow(road, htab, policies, c, fuel, Ghost(ctx))?;
        }
    }
}

impl MStar {
    /// Solves the problem under a budget: the number of steps of search in
    /// all. Where the budget is enough for a search of all agents together
    /// in the whole joint space, that much is set aside: where the search
    /// in the narrowed space runs out of the rest, the other decides.
    pub fn solve_within<G: GraphLike, AGENT: Agent, DH: DistanceHeuristic<G>>(
        problem: &MAPFProblem<G, AGENT, DH>,
        budget: usize,
    ) -> (r: Result<HashMap<usize, Path>, MapfError>)
        requires
            problem.wf(),
        ensures
            solved(problem, budget as int, r),
    {
        let prep = match prepare(problem) {
            Ok(prep) => prep,
            Err(e) => {
                return Err(e);
            },
        };
        let n = prep.starts.len();
        if n == 0 {
            return Ok(answer_of_none(problem, &prep));
        }
        let ghost ctx = setting(&prep.road, prep.starts@, prep.goals@, prep.htab.deep_view());
        proof {
            assert(problem.agents@[0].location_spec().index < problem.graph.node_total());
            lemma_fit_admissible(ctx);
        }
        let radj = reverse(&prep.road);
        let mut policies: Vec<Policy> = Vec::new();
        let mut j: usize = 0;
        while j < n
            invariant
                0 <= j <= n,
                n == prep.starts@.len(),
                prepared_for(problem, &prep),
                ctx == setting(&prep.road, prep.starts@, prep.goals@, prep.htab.deep_view()),
                reversed(&prep.road, radj@),
                policies@.len() == j,
                forall|i: int| 0 <= i < j ==> (#[trigger] policies@[i]).exact(&ctx.road, ctx.goals[i] as int),
            decreases n - j,
        {
            assert(prep.goals@[j as int] < prep.road.size());
            policies.push(policy_to(&prep.road, &radj, prep.goals[j]));
            j += 1;
        }
        let (mut fuel, aside) = set_aside(&prep, budget);
        proof {
            prep.road.lemma_widest(prep.road.size(), 0);
            lemma_plan_enough(prep.road.size(), n as int, prep.road.widest(), prep.road.widest());
        }
        let found = match subdimensional(&prep.road, &prep.starts, &prep.goals, &prep.htab, &policies, &mut fuel) {
            Ok(Some(paths)) => Ok(paths),
            Ok(None) => Err(MapfError::NoSolution),
            Err(e) => Err(e),
        };
        settle(problem, &prep, found, aside, budget)
    }
}

impl<G: GraphLike, AGENT: Agent, DH: DistanceHeuristic<G>> MAPFAlgorithm<G, AGENT, DH> for MStar {
    /// Solves the problem under the largest budget there is.
    fn solve(problem: &MAPFProblem<G, AGENT, DH>) -> (r: Result<HashMap<usize, Path>, MapfError>) {
        MStar::solve_within(problem, usize::MAX)
    }
}

} // verus!
