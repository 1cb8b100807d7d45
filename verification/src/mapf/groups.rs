//! Groups of agents: which agents plan together, and why optimal plans of
//! the groups that do not collide make an optimal plan of all.

use vstd::prelude::*;
use crate::mapf::plan::{
    collide, collision_free, is_optimal, is_route, is_solution, lemma_total_is_sum, route_costs,
    total_cost,
};
use crate::mapf::sums::{lemma_sum_add, lemma_sum_eq, sum_over};

verus! {

/// The agents below `i` that carry `label`, in ascending order.
pub open spec fn members_upto(group: Seq<usize>, label: usize, i: int) -> Seq<usize>
    decreases i,
{
    if i <= 0 {
        Seq::<usize>::empty()
    } else {
        let rest = members_upto(group, label, i - 1);
        if group[i - 1] == label {
            rest.push((i - 1) as usize)
        } else {
            rest
        }
    }
}

/// The agents that carry `label`, in ascending order.
pub open spec fn members(group: Seq<usize>, label: usize) -> Seq<usize> {
    members_upto(group, label, group.len() as int)
}

/// The entries of `s` at the positions `ms`.
pub open spec fn pick<T>(s: Seq<T>, ms: Seq<usize>) -> Seq<T> {
    Seq::new(ms.len(), |r: int| s[ms[r] as int])
}

/// Whether `ms` lists positions below `n` in ascending order.
pub open spec fn ascending(ms: Seq<usize>, n: int) -> bool {
    &&& forall|r: int| 0 <= r < ms.len() ==> #[trigger] ms[r] < n
    &&& forall|r: int, s: int| 0 <= r < s < ms.len() ==> ms[r] < ms[s]
}

/// An ascending list has no place below its value.
pub proof fn lemma_ascending_least(ms: Seq<usize>, n: int, r: int)
    requires
        ascending(ms, n),
        0 <= r < ms.len(),
    ensures
        ms[r] >= r,
    decreases r,
{
    if r > 0 {
        lemma_ascending_least(ms, n, r - 1);
        assert(ms[r - 1] < ms[r]);
    }
}

/// An ascending list of positions below `n` has at most `n` places.
pub proof fn lemma_ascending_short(ms: Seq<usize>, n: int)
    requires
        ascending(ms, n),
        0 <= n,
    ensures
        ms.len() <= n,
{
    if ms.len() > 0 {
        lemma_ascending_least(ms, n, ms.len() - 1);
        assert(ms[ms.len() - 1] < n);
    }
}

/// Whether `x` is one of `ms`.
pub open spec fn listed(ms: Seq<usize>, x: int) -> bool {
    exists|r: int| 0 <= r < ms.len() && #[trigger] ms[r] == x
}

/// The members of a group are exactly the agents that carry its label.
pub proof fn lemma_members(group: Seq<usize>, label: usize, i: int)
    requires
        0 <= i <= group.len() <= usize::MAX,
    ensures
        ascending(members_upto(group, label, i), i),
        forall|r: int|
            0 <= r < members_upto(group, label, i).len() ==> group[#[trigger] members_upto(group, label, i)[r] as int]
                == label,
        forall|x: int| 0 <= x < i && group[x] == label ==> #[trigger] listed(members_upto(group, label, i), x),
        members_upto(group, label, i).len() <= i,
    decreases i,
{
    if i > 0 {
        lemma_members(group, label, i - 1);
        let rest = members_upto(group, label, i - 1);
        let ms = members_upto(group, label, i);
        assert forall|x: int| 0 <= x < i && group[x] == label implies #[trigger] listed(ms, x) by {
            if x < i - 1 {
                assert(listed(rest, x));
                let r = choose|r: int| 0 <= r < rest.len() && #[trigger] rest[r] == x;
                assert(ms[r] == x);
            } else {
                assert(ms[ms.len() - 1] == x);
            }
        }
        assert forall|r: int, s: int| 0 <= r < s < ms.len() implies ms[r] < ms[s] by {
            if s < rest.len() {
                assert(ms[r] == rest[r] && ms[s] == rest[s]);
            } else {
                assert(ms[r] == rest[r]);
                assert(rest[r] < i - 1);
            }
        }
    }
}

/// Groups that agree on who carries a label have the same members.
pub proof fn lemma_same_members(group: Seq<usize>, other: Seq<usize>, label: usize, i: int)
    requires
        0 <= i <= group.len(),
        group.len() == other.len(),
        forall|x: int| 0 <= x < group.len() ==> (#[trigger] group[x] == label) == (other[x] == label),
    ensures
        members_upto(group, label, i) == members_upto(other, label, i),
    decreases i,
{
    if i > 0 {
        lemma_same_members(group, other, label, i - 1);
        assert((group[i - 1] == label) == (other[i - 1] == label));
    }
}

/// A label that no agent carries has no members.
pub proof fn lemma_no_members(group: Seq<usize>, label: usize, i: int)
    requires
        0 <= i <= group.len(),
        forall|x: int| 0 <= x < group.len() ==> #[trigger] group[x] != label,
    ensures
        members_upto(group, label, i).len() == 0,
    decreases i,
{
    if i > 0 {
        lemma_no_members(group, label, i - 1);
        assert(group[i - 1] != label);
    }
}

/// While every agent is its own group, a group is its agent.
pub proof fn lemma_own_members(group: Seq<usize>, label: usize, i: int)
    requires
        0 <= i <= group.len(),
        forall|x: int| 0 <= x < group.len() ==> #[trigger] group[x] == x,
    ensures
        members_upto(group, label, i) == if label < i {
            seq![label]
        } else {
            Seq::<usize>::empty()
        },
    decreases i,
{
    if i > 0 {
        lemma_own_members(group, label, i - 1);
        assert(group[i - 1] == i - 1);
        if label == i - 1 {
            assert(Seq::<usize>::empty().push(label) =~= seq![label]);
        }
    }
}

/// A solution for all agents, cut down to some of them, solves their part
/// of the problem.
pub proof fn lemma_restriction(
    arcs: Set<(int, int, int)>,
    starts: Seq<usize>,
    goals: Seq<usize>,
    q: Seq<Seq<usize>>,
    ms: Seq<usize>,
)
    requires
        is_solution(arcs, starts, goals, q),
        ascending(ms, q.len() as int),
    ensures
        is_solution(arcs, pick(starts, ms), pick(goals, ms), pick(q, ms)),
{
    let part = pick(q, ms);
    assert forall|r: int| 0 <= r < part.len() implies is_route(
        arcs,
        #[trigger] part[r],
        pick(starts, ms)[r] as int,
        pick(goals, ms)[r] as int,
    ) by {
        assert(ms[r] < q.len());
        assert(is_route(arcs, q[ms[r] as int], starts[ms[r] as int] as int, goals[ms[r] as int] as int));
    }
    assert forall|r: int, s: int, t: int| 0 <= r < s < part.len() && 0 <= t implies !#[trigger] collide(
        part[r],
        part[s],
        t,
    ) by {
        assert(ms[r] < ms[s]);
        assert(ms[s] < q.len());
        assert(!collide(q[ms[r] as int], q[ms[s] as int], t));
    }
}

/// The term `f(j)` where agent `j` carries `label`, else 0.
pub open spec fn only(f: spec_fn(int) -> int, group: Seq<usize>, label: usize) -> spec_fn(int) -> int {
    |j: int|
        if group[j] == label {
            f(j)
        } else {
            0
        }
}

/// The term `f(j)` where agent `j` carries a label below `bound`, else 0.
pub open spec fn below(f: spec_fn(int) -> int, group: Seq<usize>, bound: int) -> spec_fn(int) -> int {
    |j: int|
        if group[j] < bound {
            f(j)
        } else {
            0
        }
}

/// The cost of a group's routes is the sum of the costs of its members.
pub proof fn lemma_group_cost(
    arcs: Set<(int, int, int)>,
    paths: Seq<Seq<usize>>,
    group: Seq<usize>,
    label: usize,
    i: int,
)
    requires
        0 <= i <= group.len() <= usize::MAX,
        group.len() == paths.len(),
    ensures
        total_cost(arcs, pick(paths, members_upto(group, label, i))) == sum_over(
            only(route_costs(arcs, paths), group, label),
            i,
        ),
    decreases i,
{
    if i > 0 {
        lemma_group_cost(arcs, paths, group, label, i - 1);
        let rest = members_upto(group, label, i - 1);
        let ms = members_upto(group, label, i);
        if group[i - 1] == label {
            let part = pick(paths, ms);
            assert(part.drop_last() =~= pick(paths, rest));
            assert(part.last() == paths[i - 1]);
        }
    } else {
        assert(pick(paths, members_upto(group, label, i)).len() == 0);
    }
}

/// The terms of the groups below `bound + 1` are those below `bound` and
/// those of group `bound`.
proof fn lemma_below_step(f: spec_fn(int) -> int, group: Seq<usize>, bound: int, n: int)
    requires
        0 <= bound <= usize::MAX,
    ensures
        sum_over(below(f, group, bound + 1), n) == sum_over(below(f, group, bound), n) + sum_over(
            only(f, group, bound as usize),
            n,
        ),
{
    let lower = below(f, group, bound);
    let one = only(f, group, bound as usize);
    let upper = below(f, group, bound + 1);
    assert forall|j: int| 0 <= j < n implies #[trigger] upper(j) == lower(j) + one(j) by {
    }
    lemma_sum_add(lower, one, upper, n);
}

/// Where every group's routes cost no more than the other's, all routes
/// together cost no more than the other's, up to any label.
proof fn lemma_groups_upto(
    arcs: Set<(int, int, int)>,
    paths: Seq<Seq<usize>>,
    q: Seq<Seq<usize>>,
    group: Seq<usize>,
    bound: int,
)
    requires
        group.len() == paths.len(),
        group.len() == q.len(),
        group.len() <= usize::MAX,
        0 <= bound <= group.len(),
        forall|label: usize|
            label < group.len() ==> total_cost(arcs, pick(paths, #[trigger] members(group, label))) <= total_cost(
                arcs,
                pick(q, members(group, label)),
            ),
    ensures
        sum_over(below(route_costs(arcs, paths), group, bound), group.len() as int) <= sum_over(
            below(route_costs(arcs, q), group, bound),
            group.len() as int,
        ),
    decreases bound,
{
    let n = group.len() as int;
    let mine = route_costs(arcs, paths);
    let theirs = route_costs(arcs, q);
    if bound == 0 {
        let a = below(mine, group, 0);
        let b = below(theirs, group, 0);
        assert forall|j: int| 0 <= j < n implies #[trigger] a(j) == b(j) by {
        }
        lemma_sum_eq(a, b, n);
    } else {
        lemma_groups_upto(arcs, paths, q, group, bound - 1);
        let label = (bound - 1) as usize;
        lemma_below_step(mine, group, bound - 1, n);
        lemma_below_step(theirs, group, bound - 1, n);
        lemma_group_cost(arcs, paths, group, label, n);
        lemma_group_cost(arcs, q, group, label, n);
        assert(total_cost(arcs, pick(paths, members(group, label))) <= total_cost(
            arcs,
            pick(q, members(group, label)),
        ));
    }
}

/// Where every group's routes cost no more than the other's, all routes
/// together cost no more than the other's.
pub proof fn lemma_groups_add_up(
    arcs: Set<(int, int, int)>,
    paths: Seq<Seq<usize>>,
    q: Seq<Seq<usize>>,
    group: Seq<usize>,
)
    requires
        group.len() == paths.len(),
        group.len() == q.len(),
        group.len() <= usize::MAX,
        forall|j: int| 0 <= j < group.len() ==> #[trigger] group[j] < group.len(),
        forall|label: usize|
            label < group.len() ==> total_cost(arcs, pick(paths, #[trigger] members(group, label))) <= total_cost(
                arcs,
                pick(q, members(group, label)),
            ),
    ensures
        total_cost(arcs, paths) <= total_cost(arcs, q),
{
    let n = group.len() as int;
    let mine = route_costs(arcs, paths);
    let theirs = route_costs(arcs, q);
    lemma_groups_upto(arcs, paths, q, group, n);
    let a = below(mine, group, n);
    let b = below(theirs, group, n);
    assert forall|j: int| 0 <= j < n implies #[trigger] a(j) == mine(j) by {
        assert(group[j] < n);
    }
    assert forall|j: int| 0 <= j < n implies #[trigger] b(j) == theirs(j) by {
        assert(group[j] < n);
    }
    lemma_sum_eq(a, mine, n);
    lemma_sum_eq(b, theirs, n);
    lemma_total_is_sum(arcs, paths);
    lemma_total_is_sum(arcs, q);
}

/// Where no group collides within itself and no two groups collide, no
/// two agents collide.
pub proof fn lemma_groups_collision_free(paths: Seq<Seq<usize>>, group: Seq<usize>)
    requires
        group.len() == paths.len(),
        group.len() <= usize::MAX,
        forall|label: usize| label < group.len() ==> collision_free(pick(paths, #[trigger] members(group, label))),
        forall|j: int| 0 <= j < group.len() ==> #[trigger] group[j] < group.len(),
        forall|i: int, j: int, t: int|
            0 <= i < j < paths.len() && group[i] != group[j] && 0 <= t ==> !#[trigger] collide(
                paths[i],
                paths[j],
                t,
            ),
    ensures
        collision_free(paths),
{
    assert forall|i: int, j: int, t: int| 0 <= i < j < paths.len() && 0 <= t implies !#[trigger] collide(
        paths[i],
        paths[j],
        t,
    ) by {
        if group[i] == group[j] {
            let label = group[i];
            let ms = members(group, label);
            lemma_members(group, label, group.len() as int);
            assert(listed(ms, i));
            assert(listed(ms, j));
            let r = choose|r: int| 0 <= r < ms.len() && #[trigger] ms[r] == i;
            let s = choose|s: int| 0 <= s < ms.len() && #[trigger] ms[s] == j;
            if r >= s {
                if r > s {
                    assert(ms[s] < ms[r]);
                }
            }
            assert(collision_free(pick(paths, ms)));
            assert(!collide(pick(paths, ms)[r], pick(paths, ms)[s], t));
        }
    }
}

/// An empty plan solves the empty problem, and nothing solves it cheaper.
pub proof fn lemma_empty_group(arcs: Set<(int, int, int)>)
    ensures
        collision_free(Seq::<Seq<usize>>::empty()),
        is_optimal(arcs, Seq::<usize>::empty(), Seq::<usize>::empty(), Seq::<Seq<usize>>::empty()),
{
    assert forall|other: Seq<Seq<usize>>| #[trigger]
        is_solution(arcs, Seq::<usize>::empty(), Seq::<usize>::empty(), other) implies total_cost(
        arcs,
        Seq::<Seq<usize>>::empty(),
    ) <= total_cost(arcs, other) by {
        assert(other.len() == 0);
    }
}

/// Whether every label is the number of an agent that carries it.
pub open spec fn rooted(group: Seq<usize>) -> bool {
    forall|x: int| 0 <= x < group.len() ==> (#[trigger] group[x]) < group.len() && group[group[x] as int] == group[x]
}

/// The number of agents below `i` that carry their own number as label:
/// with `rooted` labels, the number of groups among them.
pub open spec fn heads(group: Seq<usize>, i: int) -> int
    decreases i,
{
    if i <= 0 {
        0
    } else {
        heads(group, i - 1) + if group[i - 1] == i - 1 {
            1int
        } else {
            0int
        }
    }
}

/// Where every agent is a group of its own, there are as many groups as
/// agents.
pub proof fn lemma_heads_alone(group: Seq<usize>, i: int)
    requires
        0 <= i <= group.len(),
        forall|x: int| 0 <= x < i ==> #[trigger] group[x] == x,
    ensures
        heads(group, i) == i,
    decreases i,
{
    if i > 0 {
        lemma_heads_alone(group, i - 1);
    }
}

/// When group `b` joins group `a`, the labels stay rooted and there is one
/// group fewer, among the agents below `i` if `b` is one of them.
pub proof fn lemma_heads_merge(before: Seq<usize>, after: Seq<usize>, a: usize, b: usize, i: int)
    requires
        rooted(before),
        after.len() == before.len(),
        0 <= i <= before.len(),
        a != b,
        a < before.len() && before[a as int] == a,
        b < before.len() && before[b as int] == b,
        forall|y: int|
            0 <= y < before.len() ==> #[trigger] after[y] == if before[y] == b {
                a
            } else {
                before[y]
            },
    ensures
        rooted(after),
        0 <= heads(after, i),
        heads(after, i) == heads(before, i) - if b < i {
            1int
        } else {
            0int
        },
    decreases i,
{
    assert forall|x: int| 0 <= x < after.len() implies (#[trigger] after[x]) < after.len() && after[after[x] as int]
        == after[x] by {
        let l = after[x];
        assert(before[x] < before.len());
        assert(before[before[x] as int] == before[x]);
        assert(after[l as int] == if before[l as int] == b {
            a
        } else {
            before[l as int]
        });
    }
    if i > 0 {
        lemma_heads_merge(before, after, a, b, i - 1);
        let y = i - 1;
        assert(after[y] == if before[y] == b {
            a
        } else {
            before[y]
        });
    }
}

} // verus!
