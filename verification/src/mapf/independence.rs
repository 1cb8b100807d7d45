//! Independence detection: agents plan alone, and only agents whose plans
//! collide plan together.

use vstd::prelude::*;
use crate::mapf::bound::tables_admissible;
use crate::mapf::conflicts::{find_conflict, in_conflict};
use crate::mapf::groups::{ascending, heads, lemma_ascending_short, lemma_empty_group, lemma_groups_add_up, lemma_groups_collision_free, lemma_heads_alone, lemma_heads_merge, lemma_members, lemma_no_members, lemma_own_members, lemma_restriction, lemma_same_members, listed, members, members_upto, pick, rooted};
use crate::mapf::joint_search::{Ctx, copy_of, lemma_enough_grows, search, search_enough, setting, steady, tables_fit};
use crate::mapf::plan::{collision_free, is_optimal, is_route, is_solution, total_cost};
use crate::mapf::roadmap::Roadmap;
use crate::mapf::MapfError;

verus! {

/// Whether the routes of the group `label` do not collide with each other
/// and, if the estimates are admissible, are the cheapest such routes.
pub open spec fn group_ok(ctx: Ctx, paths: Seq<Seq<usize>>, group: Seq<usize>, label: usize) -> bool {
    let ms = members(group, label);
    &&& collision_free(pick(paths, ms))
    &&& tables_admissible(ctx) ==> is_optimal(ctx.arcs(), pick(ctx.starts, ms), pick(ctx.goals, ms), pick(paths, ms))
}

/// What holds of the plans between two merges: every agent has a route to
/// its goal, and every group is planned as well as it can be alone.
pub open spec fn plan_inv(ctx: Ctx, paths: Seq<Seq<usize>>, group: Seq<usize>) -> bool {
    &&& paths.len() == ctx.n()
    &&& group.len() == ctx.n()
    &&& forall|x: int| 0 <= x < group.len() ==> #[trigger] group[x] < group.len()
    &&& forall|x: int|
        0 <= x < paths.len() ==> is_route(ctx.arcs(), #[trigger] paths[x], ctx.starts[x] as int, ctx.goals[x] as int)
    &&& forall|label: usize| label < group.len() ==> #[trigger] group_ok(ctx, paths, group, label)
}

/// A copy of a table of estimates.
fn copy_table(a: &Vec<u128>) -> (r: Vec<u128>)
    ensures
        r@ == a@,
{
    let mut r: Vec<u128> = Vec::new();
    let mut i: usize = 0;
    while i < a.len()
        invariant
            0 <= i <= a@.len(),
            r@.len() == i,
            forall|j: int| 0 <= j < i ==> r@[j] == a@[j],
        decreases a@.len() - i,
    {
        r.push(a[i]);
        i += 1;
    }
    assert(r@ =~= a@);
    r
}

/// The agents that carry `label`, in ascending order.
pub fn collect_members(group: &Vec<usize>, label: usize) -> (ms: Vec<usize>)
    ensures
        ms@ == members(group@, label),
{
    let mut ms: Vec<usize> = Vec::new();
    let mut i: usize = 0;
    while i < group.len()
        invariant
            0 <= i <= group@.len(),
            ms@ == members_upto(group@, label, i as int),
        decreases group@.len() - i,
    {
        if group[i] == label {
            ms.push(i);
        }
        i += 1;
    }
    ms
}

/// Plans the agents `ms` together, without regard to the other agents.
pub fn plan_group(
    road: &Roadmap,
    starts: &Vec<usize>,
    goals: &Vec<usize>,
    htab: &Vec<Vec<u128>>,
    ms: &Vec<usize>,
    fuel: &mut usize,
) -> (r: Result<Vec<Vec<usize>>, MapfError>)
    requires
        setting(road, starts@, goals@, htab.deep_view()).fits(),
        tables_fit(setting(road, starts@, goals@, htab.deep_view())),
        ascending(ms@, starts@.len() as int),
        ms@.len() >= 1,
    ensures
        *final(fuel) <= *old(fuel),
        r.is_ok() ==> *final(fuel) < *old(fuel),
        *old(fuel) - *final(fuel) <= search_enough(road.size(), ms@.len() as int, road.widest()),
        match r {
            Ok(sub) => {
                &&& is_solution(road.arcs(), pick(starts@, ms@), pick(goals@, ms@), sub.deep_view())
                &&& tables_admissible(setting(road, starts@, goals@, htab.deep_view())) ==> is_optimal(
                    road.arcs(),
                    pick(starts@, ms@),
                    pick(goals@, ms@),
                    sub.deep_view(),
                )
            },
            Err(MapfError::NoSolution) => forall|q: Seq<Seq<usize>>| !is_solution(road.arcs(), starts@, goals@, q),
            Err(MapfError::Timeout) => *final(fuel) == 0 && *old(fuel) < search_enough(
                road.size(),
                ms@.len() as int,
                road.widest(),
            ),
            Err(_) => false,
        },
{
    let ghost ctx = setting(road, starts@, goals@, htab.deep_view());
    let mut sub_starts: Vec<usize> = Vec::new();
    let mut sub_goals: Vec<usize> = Vec::new();
    let mut sub_h: Vec<Vec<u128>> = Vec::new();
    let mut r: usize = 0;
    while r < ms.len()
        invariant
            0 <= r <= ms@.len(),
            ctx == setting(road, starts@, goals@, htab.deep_view()),
            ctx.fits(),
            ascending(ms@, starts@.len() as int),
            sub_starts@.len() == r,
            sub_goals@.len() == r,
            sub_h@.len() == r,
            forall|s: int| 0 <= s < r ==> sub_starts@[s] == starts@[ms@[s] as int],
            forall|s: int| 0 <= s < r ==> sub_goals@[s] == goals@[ms@[s] as int],
            forall|s: int| 0 <= s < r ==> (#[trigger] sub_h@[s])@ == htab@[ms@[s] as int]@,
        decreases ms@.len() - r,
    {
        let x = ms[r];
        assert(ms@[r as int] < starts@.len());
        assert(htab.deep_view().len() == htab@.len());
        sub_starts.push(starts[x]);
        sub_goals.push(goals[x]);
        sub_h.push(copy_table(&htab[x]));
        r += 1;
    }
    let ghost part = setting(road, sub_starts@, sub_goals@, sub_h.deep_view());
    proof {
        assert(sub_starts@ =~= pick(starts@, ms@));
        assert(sub_goals@ =~= pick(goals@, ms@));
        assert forall|s: int| 0 <= s < sub_h@.len() implies #[trigger] part.h[s] == ctx.h[ms@[s] as int] by {
            assert(sub_h.deep_view()[s] == sub_h@[s].deep_view());
            assert(htab.deep_view()[ms@[s] as int] == htab@[ms@[s] as int].deep_view());
            assert(sub_h@[s].deep_view() =~= htab@[ms@[s] as int].deep_view());
        }
        assert forall|s: int| 0 <= s < part.starts.len() implies #[trigger] part.starts[s] < part.road.size() by {
            assert(ctx.starts[ms@[s] as int] < ctx.road.size());
        }
        assert forall|s: int| 0 <= s < part.goals.len() implies #[trigger] part.goals[s] < part.road.size() by {
            assert(ctx.goals[ms@[s] as int] < ctx.road.size());
        }
        assert forall|s: int| 0 <= s < part.h.len() implies (#[trigger] part.h[s]).len() == part.road.size() by {
            assert(part.h[s] == ctx.h[ms@[s] as int]);
        }
        assert(part.wf());
        lemma_ascending_short(ms@, starts@.len() as int);
        assert forall|j: int, a: int, k: int|
            0 <= j < part.n() && 0 <= a < part.road.size() && 0 <= k < part.road.adj@[a]@.len() implies #[trigger] steady(
            part,
            j,
            a,
            k,
        ) by {
            assert(part.h[j] == ctx.h[ms@[j] as int]);
            assert(steady(ctx, ms@[j] as int, a, k));
        }
        assert forall|j: int, x: int| 0 <= j < part.n() && 0 <= x < part.road.size() implies (
        #[trigger] part.h[j][x]) * part.n() <= usize::MAX by {
            assert(part.h[j] == ctx.h[ms@[j] as int]);
            let e = ctx.h[ms@[j] as int][x] as int;
            assert(e * ctx.n() <= usize::MAX);
            assert(e * part.n() <= e * ctx.n()) by (nonlinear_arith)
                requires
                    0 <= e,
                    0 <= part.n() <= ctx.n(),
            ;
        }
        assert forall|j: int| 0 <= j < part.n() implies (#[trigger] part.h[j])[part.goals[j] as int] == 0 by {
            assert(part.h[j] == ctx.h[ms@[j] as int]);
            assert(ctx.h[ms@[j] as int][ctx.goals[ms@[j] as int] as int] == 0);
        }
        assert(tables_fit(part));
        if tables_admissible(ctx) {
            assert forall|s: int| 0 <= s < part.n() implies crate::mapf::plan::admissible(
                part.arcs(),
                #[trigger] part.h[s],
                part.goals[s] as int,
            ) by {
                assert(part.h[s] == ctx.h[ms@[s] as int]);
            }
        }
    }
    let found = search(road, &sub_starts, &sub_goals, &sub_h, fuel);
    proof {
        if found == Err::<Vec<Vec<usize>>, MapfError>(MapfError::NoSolution) {
            assert forall|q: Seq<Seq<usize>>| !is_solution(road.arcs(), starts@, goals@, q) by {
                if is_solution(road.arcs(), starts@, goals@, q) {
                    lemma_restriction(road.arcs(), starts@, goals@, q, ms@);
                }
            }
        }
    }
    found
}

/// Gives every agent of `ms` its route of `sub`; the other routes stay.
pub fn put_routes(paths: &mut Vec<Vec<usize>>, ms: &Vec<usize>, sub: &Vec<Vec<usize>>)
    requires
        ascending(ms@, old(paths)@.len() as int),
        sub@.len() == ms@.len(),
    ensures
        final(paths)@.len() == old(paths)@.len(),
        forall|r: int| 0 <= r < ms@.len() ==> (#[trigger] final(paths)@[ms@[r] as int])@ == sub@[r]@,
        forall|x: int|
            0 <= x < final(paths)@.len() && !listed(ms@, x) ==> #[trigger] final(paths)@[x] == old(paths)@[x],
{
    let ghost before = paths@;
    let mut r: usize = 0;
    while r < ms.len()
        invariant
            0 <= r <= ms@.len(),
            ascending(ms@, before.len() as int),
            sub@.len() == ms@.len(),
            paths@.len() == before.len(),
            forall|s: int| 0 <= s < r ==> (#[trigger] paths@[ms@[s] as int])@ == sub@[s]@,
            forall|x: int| 0 <= x < paths@.len() && !listed(ms@, x) ==> #[trigger] paths@[x] == before[x],
        decreases ms@.len() - r,
    {
        let x = ms[r];
        let ghost mid = paths@;
        paths.set(x, copy_of(&sub[r]));
        proof {
            assert forall|s: int| 0 <= s < r + 1 implies (#[trigger] paths@[ms@[s] as int])@ == sub@[s]@ by {
                if s < r {
                    assert(ms@[s] < ms@[r as int]);
                    assert(paths@[ms@[s] as int] == mid[ms@[s] as int]);
                }
            }
            assert forall|y: int| 0 <= y < paths@.len() && !listed(ms@, y) implies #[trigger] paths@[y]
                == before[y] by {
                assert(ms@[r as int] == x);
                assert(y != x);
            }
        }
        r += 1;
    }
}

/// After two groups have merged and the merged group has been planned, the
/// plans are again as they should be.
proof fn lemma_merge(
    ctx: Ctx,
    paths0: Seq<Seq<usize>>,
    group0: Seq<usize>,
    paths1: Seq<Seq<usize>>,
    group1: Seq<usize>,
    a: usize,
    b: usize,
    sub: Seq<Seq<usize>>,
)
    requires
        plan_inv(ctx, paths0, group0),
        group0.len() <= usize::MAX,
        a < group0.len(),
        b < group0.len(),
        a != b,
        group1.len() == group0.len(),
        forall|x: int|
            0 <= x < group0.len() ==> #[trigger] group1[x] == if group0[x] == b {
                a
            } else {
                group0[x]
            },
        is_solution(ctx.arcs(), pick(ctx.starts, members(group1, a)), pick(ctx.goals, members(group1, a)), sub),
        tables_admissible(ctx) ==> is_optimal(
            ctx.arcs(),
            pick(ctx.starts, members(group1, a)),
            pick(ctx.goals, members(group1, a)),
            sub,
        ),
        paths1.len() == paths0.len(),
        forall|r: int|
            0 <= r < members(group1, a).len() ==> #[trigger] paths1[members(group1, a)[r] as int] == sub[r],
        forall|x: int| 0 <= x < paths1.len() && !listed(members(group1, a), x) ==> #[trigger] paths1[x] == paths0[x],
    ensures
        plan_inv(ctx, paths1, group1),
{
    let n = group0.len() as int;
    let ms = members(group1, a);
    lemma_members(group1, a, n);
    assert(pick(paths1, ms) =~= sub);
    assert forall|x: int| 0 <= x < paths1.len() implies is_route(
        ctx.arcs(),
        #[trigger] paths1[x],
        ctx.starts[x] as int,
        ctx.goals[x] as int,
    ) by {
        if listed(ms, x) {
            let r = choose|r: int| 0 <= r < ms.len() && #[trigger] ms[r] == x;
            assert(paths1[ms[r] as int] == sub[r]);
            assert(is_route(ctx.arcs(), sub[r], pick(ctx.starts, ms)[r] as int, pick(ctx.goals, ms)[r] as int));
        } else {
            assert(paths1[x] == paths0[x]);
            assert(is_route(ctx.arcs(), paths0[x], ctx.starts[x] as int, ctx.goals[x] as int));
        }
    }
    assert forall|label: usize| label < group1.len() implies #[trigger] group_ok(ctx, paths1, group1, label) by {
        if label == a {
        } else if label == b {
            assert forall|x: int| 0 <= x < group1.len() implies #[trigger] group1[x] != b by {
            }
            lemma_no_members(group1, b, n);
            assert(pick(paths1, members(group1, b)) =~= Seq::<Seq<usize>>::empty());
            assert(pick(ctx.starts, members(group1, b)) =~= Seq::<usize>::empty());
            assert(pick(ctx.goals, members(group1, b)) =~= Seq::<usize>::empty());
            lemma_empty_group(ctx.arcs());
        } else {
            assert forall|x: int| 0 <= x < group0.len() implies (#[trigger] group0[x] == label) == (group1[x]
                == label) by {
            }
            lemma_same_members(group0, group1, label, n);
            let theirs = members(group0, label);
            lemma_members(group0, label, n);
            assert(group_ok(ctx, paths0, group0, label));
            assert forall|r: int| 0 <= r < theirs.len() implies paths1[#[trigger] theirs[r] as int] == paths0[theirs[r] as int] by {
                let x = theirs[r] as int;
                assert(group0[x] == label);
                if listed(ms, x) {
                    let s = choose|s: int| 0 <= s < ms.len() && #[trigger] ms[s] == x;
                    assert(group1[ms[s] as int] == a);
                }
            }
            assert(pick(paths1, theirs) =~= pick(paths0, theirs));
        }
    }
}

/// Fuel with which planning by groups does not give up: every agent is
/// planned alone once, every merge makes one group fewer, and no search
/// takes more than that of all agents together.
pub open spec fn plan_enough(size: int, n: int, widest: int) -> int {
    2 * n * search_enough(size, n, widest)
}

/// Planning by groups needs no more fuel with more arcs at a node, and no
/// less than one search of all agents.
pub proof fn lemma_plan_enough(size: int, n: int, narrow: int, wide: int)
    requires
        size >= 1,
        n >= 1,
        0 <= narrow <= wide,
    ensures
        search_enough(size, n, narrow) <= plan_enough(size, n, narrow) <= plan_enough(size, n, wide),
{
    lemma_enough_grows(size, n, n, narrow, wide);
    let a = search_enough(size, n, narrow);
    let b = search_enough(size, n, wide);
    assert(a <= 2 * n * a <= 2 * n * b) by (nonlinear_arith)
        requires
            n >= 1,
            1 <= a <= b,
    ;
}

/// Plans every agent: each one alone at first; while the routes of two
/// groups collide, the two groups merge and plan together. Each search
/// takes its nodes from the one supply of fuel.
pub fn plan_all(
    road: &Roadmap,
    starts: &Vec<usize>,
    goals: &Vec<usize>,
    htab: &Vec<Vec<u128>>,
    fuel: &mut usize,
) -> (r: Result<Vec<Vec<usize>>, MapfError>)
    requires
        setting(road, starts@, goals@, htab.deep_view()).fits(),
        tables_fit(setting(road, starts@, goals@, htab.deep_view())),
    ensures
        *final(fuel) <= *old(fuel),
        match r {
            Ok(paths) => {
                &&& is_solution(road.arcs(), starts@, goals@, paths.deep_view())
                &&& tables_admissible(setting(road, starts@, goals@, htab.deep_view())) ==> is_optimal(
                    road.arcs(),
                    starts@,
                    goals@,
                    paths.deep_view(),
                )
            },
            Err(MapfError::NoSolution) => forall|q: Seq<Seq<usize>>| !is_solution(road.arcs(), starts@, goals@, q),
            Err(MapfError::Timeout) => *final(fuel) == 0 && *old(fuel) < plan_enough(
                road.size(),
                starts@.len() as int,
                road.widest(),
            ),
            Err(_) => false,
        },
{
    let ghost ctx = setting(road, starts@, goals@, htab.deep_view());
    let n = starts.len();
    let ghost each = search_enough(road.size(), n as int, road.widest());
    let mut paths: Vec<Vec<usize>> = Vec::new();
    let mut group: Vec<usize> = Vec::new();
    let mut i: usize = 0;
    while i < n
        invariant
            0 <= i <= n,
            n == starts@.len(),
            ctx == setting(road, starts@, goals@, htab.deep_view()),
            ctx.fits(),
            tables_fit(ctx),
            *fuel <= *old(fuel),
            each == search_enough(road.size(), n as int, road.widest()),
            *old(fuel) - *fuel <= i * each,
            paths@.len() == i,
            group@.len() == i,
            forall|x: int| 0 <= x < i ==> #[trigger] group@[x] == x,
            forall|x: int|
                0 <= x < i ==> is_route(
                    ctx.arcs(),
                    (#[trigger] paths@[x])@,
                    ctx.starts[x] as int,
                    ctx.goals[x] as int,
                ),
            forall|x: int|
                0 <= x < i && tables_admissible(ctx) ==> is_optimal(
                    ctx.arcs(),
                    pick(ctx.starts, seq![x as usize]),
                    pick(ctx.goals, seq![x as usize]),
                    seq![(#[trigger] paths@[x])@],
                ),
        decreases n - i,
    {
        let mut ms: Vec<usize> = Vec::new();
        ms.push(i);
        assert(ms@ =~= seq![i]);
        let ghost spent = *old(fuel) - *fuel;
        proof {
            assert(ctx.starts[i as int] < road.size());
            road.lemma_widest(road.size(), 0);
            lemma_enough_grows(road.size(), 1, n as int, road.widest(), road.widest());
            assert(spent + each <= 2 * n * each && spent + each <= (i + 1) * each) by (nonlinear_arith)
                requires
                    spent <= i * each,
                    0 <= i < n,
                    1 <= each,
            ;
        }
        let sub = match plan_group(road, starts, goals, htab, &ms, fuel) {
            Ok(sub) => sub,
            Err(e) => {
                return Err(e);
            },
        };
        proof {
            assert(sub.deep_view().len() == 1);
            assert(sub.deep_view()[0] == sub@[0]@);
            assert(sub.deep_view() =~= seq![sub@[0]@]);
            assert(is_route(
                ctx.arcs(),
                sub.deep_view()[0],
                pick(ctx.starts, ms@)[0] as int,
                pick(ctx.goals, ms@)[0] as int,
            ));
        }
        paths.push(copy_of(&sub[0]));
        group.push(i);
        i += 1;
    }
    proof {
        let all = paths.deep_view();
        assert forall|label: usize| label < group@.len() implies #[trigger] group_ok(ctx, all, group@, label) by {
            lemma_own_members(group@, label, n as int);
            let ms = members(group@, label);
            assert(ms == seq![label]);
            assert(all[label as int] == paths@[label as int]@);
            assert(pick(all, ms) =~= seq![paths@[label as int]@]);
            assert(collision_free(pick(all, ms)));
        }
        assert forall|x: int| 0 <= x < all.len() implies is_route(
            ctx.arcs(),
            #[trigger] all[x],
            ctx.starts[x] as int,
            ctx.goals[x] as int,
        ) by {
            assert(all[x] == paths@[x]@);
        }
        assert(plan_inv(ctx, all, group@));
        lemma_heads_alone(group@, n as int);
    }
    let ghost mut calls: int = n as int;
    loop
        invariant
            n == starts@.len(),
            ctx == setting(road, starts@, goals@, htab.deep_view()),
            ctx.fits(),
            tables_fit(ctx),
            *fuel <= *old(fuel),
            each == search_enough(road.size(), n as int, road.widest()),
            *old(fuel) - *fuel <= calls * each,
            calls + heads(group@, n as int) == 2 * n,
            rooted(group@),
            plan_inv(ctx, paths.deep_view(), group@),
        decreases *fuel,
    {
        let ghost paths0 = paths.deep_view();
        let ghost group0 = group@;
        proof {
            assert forall|x: int| 0 <= x < paths@.len() implies (#[trigger] paths@[x])@.len() >= 1 by {
                assert(paths0[x] == paths@[x]@);
                assert(is_route(ctx.arcs(), paths0[x], ctx.starts[x] as int, ctx.goals[x] as int));
            }
        }
        let conflict = find_conflict(&paths, &group);
        match conflict {
            None => {
                proof {
                    assert forall|i: int, j: int, t: int|
                        0 <= i < j < paths0.len() && group0[i] != group0[j] && 0 <= t implies !#[trigger] crate::mapf::plan::collide(
                        paths0[i],
                        paths0[j],
                        t,
                    ) by {
                        assert(paths0[i] == paths@[i]@);
                        assert(paths0[j] == paths@[j]@);
                        assert(!in_conflict(paths@, group@, i, j));
                    }
                    assert forall|label: usize| label < group0.len() implies collision_free(
                        pick(paths0, #[trigger] members(group0, label)),
                    ) by {
                        assert(group_ok(ctx, paths0, group0, label));
                    }
                    lemma_groups_collision_free(paths0, group0);
                    if tables_admissible(ctx) {
                        assert forall|other: Seq<Seq<usize>>| #[trigger]
                            is_solution(ctx.arcs(), ctx.starts, ctx.goals, other) implies total_cost(
                            ctx.arcs(),
                            paths0,
                        ) <= total_cost(ctx.arcs(), other) by {
                            assert forall|label: usize| label < group0.len() implies total_cost(
                                ctx.arcs(),
                                pick(paths0, #[trigger] members(group0, label)),
                            ) <= total_cost(ctx.arcs(), pick(other, members(group0, label))) by {
                                lemma_members(group0, label, n as int);
                                lemma_restriction(ctx.arcs(), ctx.starts, ctx.goals, other, members(group0, label));
                                assert(group_ok(ctx, paths0, group0, label));
                            }
                            lemma_groups_add_up(ctx.arcs(), paths0, other, group0);
                        }
                    }
                }
                return Ok(paths);
            },
            Some((i, j)) => {
                let a = group[i];
                let b = group[j];
                let mut x: usize = 0;
                while x < n
                    invariant
                        0 <= x <= n,
                        n == group@.len(),
                        n == group0.len(),
                        a != b,
                        forall|y: int|
                            0 <= y < x ==> #[trigger] group@[y] == if group0[y] == b {
                                a
                            } else {
                                group0[y]
                            },
                        forall|y: int| x <= y < n ==> #[trigger] group@[y] == group0[y],
                    decreases n - x,
                {
                    if group[x] == b {
                        group.set(x, a);
                    }
                    x += 1;
                }
                let ms = collect_members(&group, a);
                proof {
                    lemma_members(group@, a, n as int);
                    assert(group@[i as int] == a);
                    assert(listed(ms@, i as int));
                }
                let ghost spent = *old(fuel) - *fuel;
                proof {
                    assert(group0[i as int] == a && group0[j as int] == b);
                    assert(group0[group0[i as int] as int] == group0[i as int]);
                    assert(group0[group0[j as int] as int] == group0[j as int]);
                    lemma_heads_merge(group0, group@, a, b, n as int);
                    assert(ctx.starts[i as int] < road.size());
                    road.lemma_widest(road.size(), 0);
                    lemma_enough_grows(road.size(), ms@.len() as int, n as int, road.widest(), road.widest());
                    assert(spent + each <= 2 * n * each && spent + each <= (calls + 1) * each) by (nonlinear_arith)
                        requires
                            spent <= calls * each,
                            calls + 1 <= 2 * n,
                            1 <= each,
                    ;
                    calls = calls + 1;
                }
                let sub = match plan_group(road, starts, goals, htab, &ms, fuel) {
                    Ok(sub) => sub,
                    Err(e) => {
                        return Err(e);
                    },
                };
                put_routes(&mut paths, &ms, &sub);
                proof {
                    let paths1 = paths.deep_view();
                    let part = sub.deep_view();
                    assert forall|r: int| 0 <= r < ms@.len() implies #[trigger] paths1[ms@[r] as int] == part[r] by {
                        assert(paths1[ms@[r] as int] == paths@[ms@[r] as int]@);
                        assert(part[r] == sub@[r]@);
                    }
                    assert forall|y: int| 0 <= y < paths1.len() && !listed(ms@, y) implies #[trigger] paths1[y]
                        == paths0[y] by {
                        assert(paths1[y] == paths@[y]@);
                    }
                    lemma_merge(ctx, paths0, group0, paths1, group@, a, b, part);
                }
            },
        }
    }
}

} // verus!
