//! How many states a search has: every state gets a number of its own
//! below a bound that depends on the numbers of nodes and agents alone.

use vstd::prelude::*;
use vstd::set_lib::{lemma_int_range, lemma_len_subset, set_int_range};
use crate::mapf::joint_search::{matches_state, NodeView};

verus! {

/// `base` to the power of `e`.
pub open spec fn power(base: int, e: nat) -> int
    decreases e,
{
    if e == 0 {
        1
    } else {
        base * power(base, (e - 1) as nat)
    }
}

/// The number whose digits to base `base` are the values of `s`.
pub open spec fn number_of(s: Seq<usize>, base: int) -> int
    decreases s.len(),
{
    if s.len() == 0 {
        0
    } else {
        number_of(s.drop_last(), base) * base + s.last()
    }
}

/// The number of states of a search for `n` agents on `size` nodes.
pub open spec fn state_total(size: int, n: int) -> int {
    (n + 1) * power(size, n as nat) * power(size, n as nat)
}

/// The number of the state that a node stands for.
pub open spec fn code_of(v: NodeView, size: int, n: int) -> int {
    let p = power(size, n as nat);
    (v.k * p + (if v.k == n {
        0
    } else {
        number_of(v.from, size)
    })) * p + number_of(v.pos, size)
}

/// Whether a node's configurations have `n` entries below `size`.
pub open spec fn shaped(v: NodeView, size: int, n: int) -> bool {
    &&& v.from.len() == n
    &&& v.pos.len() == n
    &&& 1 <= v.k <= n
    &&& forall|j: int| 0 <= j < n ==> #[trigger] v.from[j] < size
    &&& forall|j: int| 0 <= j < n ==> #[trigger] v.pos[j] < size
}

pub proof fn lemma_power_positive(base: int, e: nat)
    requires
        base >= 1,
    ensures
        power(base, e) >= 1,
    decreases e,
{
    if e > 0 {
        lemma_power_positive(base, (e - 1) as nat);
        assert(base * power(base, (e - 1) as nat) >= 1) by (nonlinear_arith)
            requires
                base >= 1,
                power(base, (e - 1) as nat) >= 1,
        ;
    }
}

/// A number of `len` digits is below the base to the power of `len`.
pub proof fn lemma_number_bound(s: Seq<usize>, base: int)
    requires
        base >= 1,
        forall|j: int| 0 <= j < s.len() ==> #[trigger] s[j] < base,
    ensures
        0 <= number_of(s, base) < power(base, s.len()),
    decreases s.len(),
{
    if s.len() > 0 {
        let front = s.drop_last();
        assert forall|j: int| 0 <= j < front.len() implies #[trigger] front[j] < base by {
            assert(front[j] == s[j]);
        }
        lemma_number_bound(front, base);
        let a = number_of(front, base);
        let p = power(base, front.len());
        assert(s.last() == s[s.len() - 1]);
        assert(a * base + s.last() < base * p && a * base >= 0) by (nonlinear_arith)
            requires
                0 <= a < p,
                0 <= s.last() < base,
        ;
    }
}

/// Where two numbers `a * p + x` and `b * p + y` with `x`, `y` below `p`
/// are equal, so are their parts.
pub proof fn lemma_parts(a: int, x: int, b: int, y: int, p: int)
    requires
        0 <= x < p,
        0 <= y < p,
        a * p + x == b * p + y,
    ensures
        a == b,
        x == y,
{
    assert(a == b) by (nonlinear_arith)
        requires
            0 <= x < p,
            0 <= y < p,
            a * p + x == b * p + y,
    ;
    assert(a * p == b * p);
}

/// Sequences of digits with the same number are the same.
pub proof fn lemma_number_one_to_one(s: Seq<usize>, t: Seq<usize>, base: int)
    requires
        base >= 1,
        s.len() == t.len(),
        forall|j: int| 0 <= j < s.len() ==> #[trigger] s[j] < base,
        forall|j: int| 0 <= j < t.len() ==> #[trigger] t[j] < base,
        number_of(s, base) == number_of(t, base),
    ensures
        s == t,
    decreases s.len(),
{
    if s.len() > 0 {
        let s0 = s.drop_last();
        let t0 = t.drop_last();
        assert forall|j: int| 0 <= j < s0.len() implies #[trigger] s0[j] < base by {
            assert(s0[j] == s[j]);
        }
        assert forall|j: int| 0 <= j < t0.len() implies #[trigger] t0[j] < base by {
            assert(t0[j] == t[j]);
        }
        assert(s.last() == s[s.len() - 1]);
        assert(t.last() == t[t.len() - 1]);
        lemma_parts(number_of(s0, base), s.last() as int, number_of(t0, base), t.last() as int, base);
        lemma_number_one_to_one(s0, t0, base);
        assert(s =~= s0.push(s.last()));
        assert(t =~= t0.push(t.last()));
    } else {
        assert(s =~= t);
    }
}

/// The number of a state is below the number of states.
pub proof fn lemma_code_bound(v: NodeView, size: int, n: int)
    requires
        size >= 1,
        shaped(v, size, n),
    ensures
        0 <= code_of(v, size, n) < state_total(size, n),
{
    let p = power(size, n as nat);
    lemma_power_positive(size, n as nat);
    lemma_number_bound(v.from, size);
    lemma_number_bound(v.pos, size);
    let e = if v.k == n {
        0
    } else {
        number_of(v.from, size)
    };
    let x = number_of(v.pos, size);
    assert((v.k * p + e) * p + x < (n + 1) * p * p && (v.k * p + e) * p + x >= 0) by (nonlinear_arith)
        requires
            1 <= v.k <= n,
            0 <= e < p,
            0 <= x < p,
    ;
}

/// Nodes with the same number stand for the same state.
pub proof fn lemma_code_one_to_one(a: NodeView, b: NodeView, size: int, n: int)
    requires
        size >= 1,
        shaped(a, size, n),
        shaped(b, size, n),
        code_of(a, size, n) == code_of(b, size, n),
    ensures
        matches_state(n, a, b.from, b.pos, b.k),
{
    let p = power(size, n as nat);
    lemma_power_positive(size, n as nat);
    lemma_number_bound(a.from, size);
    lemma_number_bound(a.pos, size);
    lemma_number_bound(b.from, size);
    lemma_number_bound(b.pos, size);
    let ea = if a.k == n {
        0
    } else {
        number_of(a.from, size)
    };
    let eb = if b.k == n {
        0
    } else {
        number_of(b.from, size)
    };
    lemma_parts(a.k * p + ea, number_of(a.pos, size), b.k * p + eb, number_of(b.pos, size), p);
    lemma_parts(a.k, ea, b.k, eb, p);
    lemma_number_one_to_one(a.pos, b.pos, size);
    if a.k != n {
        lemma_number_one_to_one(a.from, b.from, size);
    }
}

/// A finite set of numbers between 0 and `bound` has at most `bound`
/// members.
pub proof fn lemma_few(codes: Set<int>, bound: int)
    requires
        0 <= bound,
        forall|x: int| codes.contains(x) ==> 0 <= x < bound,
    ensures
        codes.finite(),
        codes.len() <= bound,
{
    lemma_int_range(0, bound);
    assert(codes.subset_of(set_int_range(0, bound)));
    lemma_len_subset(codes, set_int_range(0, bound));
}

/// A power of a base that is at least 1 grows with the exponent.
pub proof fn lemma_power_grows(base: int, a: nat, b: nat)
    requires
        base >= 1,
        a <= b,
    ensures
        power(base, a) <= power(base, b),
    decreases b,
{
    if a < b {
        lemma_power_grows(base, a, (b - 1) as nat);
        lemma_power_positive(base, (b - 1) as nat);
        assert(power(base, (b - 1) as nat) <= base * power(base, (b - 1) as nat)) by (nonlinear_arith)
            requires
                base >= 1,
                power(base, (b - 1) as nat) >= 1,
        ;
    }
}

/// There are no fewer states with more agents, and never fewer than none.
pub proof fn lemma_total_grows(size: int, few: int, many: int)
    requires
        size >= 1,
        0 <= few <= many,
    ensures
        0 <= state_total(size, few) <= state_total(size, many),
{
    lemma_power_positive(size, few as nat);
    lemma_power_grows(size, few as nat, many as nat);
    let p = power(size, few as nat);
    let q = power(size, many as nat);
    assert(0 <= (few + 1) * p * p <= (many + 1) * q * q) by (nonlinear_arith)
        requires
            0 <= few <= many,
            1 <= p <= q,
    ;
}

} // verus!
