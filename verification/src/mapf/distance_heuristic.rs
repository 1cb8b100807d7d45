//! Estimates of the distance between two nodes.
//!
//! Edge weights are whole numbers, so every estimate is a whole number too:
//! the largest one that does not exceed the distance it stands for.

use vstd::prelude::*;
use crate::mapf::graphlike::GraphLike;
use crate::mapf::{Location, MapfError};

verus! {

/// The distance between two coordinates along one axis.
pub open spec fn axis_gap(a: usize, b: usize) -> nat {
    if a <= b {
        (b - a) as nat
    } else {
        (a - b) as nat
    }
}

/// The row and column distances between the payloads of two nodes, if both
/// nodes carry a coordinate.
pub open spec fn offsets<G: GraphLike>(graph: &G, from: int, to: int) -> Option<(nat, nat)> {
    match (graph.coordinate(from), graph.coordinate(to)) {
        (Some(a), Some(b)) => Some((axis_gap(a.0, b.0), axis_gap(a.1, b.1))),
        _ => None,
    }
}

/// Whether `r` is the whole part of the square root of `s`.
pub open spec fn is_floor_sqrt(r: nat, s: nat) -> bool {
    r * r <= s < (r + 1) * (r + 1)
}

/// The whole part of the square root of `s`.
pub open spec fn floor_sqrt(s: nat) -> nat {
    choose|r: nat| is_floor_sqrt(r, s)
}

/// Every number has a whole square root.
pub proof fn lemma_floor_sqrt_exists(s: nat)
    ensures
        is_floor_sqrt(floor_sqrt(s), s),
    decreases s,
{
    if s == 0 {
        assert(0nat * 0nat == 0 && (0nat + 1) * (0nat + 1) == 1) by (nonlinear_arith);
        assert(is_floor_sqrt(0, 0));
    } else {
        lemma_floor_sqrt_exists((s - 1) as nat);
        let r = floor_sqrt((s - 1) as nat);
        if (r + 1) * (r + 1) <= s {
            assert((r + 1) * (r + 1) == s);
            assert(s < (r + 2) * (r + 2)) by (nonlinear_arith)
                requires
                    (r + 1) * (r + 1) == s,
            ;
            assert(is_floor_sqrt(r + 1, s));
        } else {
            assert(is_floor_sqrt(r, s));
        }
    }
}

/// A number has one whole square root only.
pub proof fn lemma_floor_sqrt_unique(r: nat, s: nat)
    requires
        is_floor_sqrt(r, s),
    ensures
        r == floor_sqrt(s),
{
    lemma_floor_sqrt_exists(s);
    let q = floor_sqrt(s);
    if r < q {
        assert((r + 1) * (r + 1) <= q * q) by (nonlinear_arith)
            requires
                r + 1 <= q,
        ;
    }
    if q < r {
        assert((q + 1) * (q + 1) <= r * r) by (nonlinear_arith)
            requires
                q + 1 <= r,
        ;
    }
}

/// The distance between two values.
pub fn gap(a: usize, b: usize) -> (d: usize)
    ensures
        d == axis_gap(a, b),
{
    if a <= b {
        b - a
    } else {
        a - b
    }
}

/// The row and column distances between the payloads of two locations, or
/// `NodeNotFound` when either location carries no coordinate.
pub fn coordinate_offsets<G: GraphLike>(graph: &G, from: Location, to: Location) -> (r: Result<
    (usize, usize),
    MapfError,
>)
    ensures
        match offsets(graph, from.index as int, to.index as int) {
            Some(d) => r == Ok::<(usize, usize), MapfError>((d.0 as usize, d.1 as usize)),
            None => r == Err::<(usize, usize), MapfError>(MapfError::NodeNotFound),
        },
{
    let a = graph.payload(from);
    let b = graph.payload(to);
    match (a, b) {
        (Ok(a), Ok(b)) => Ok((gap(a.0, b.0), gap(a.1, b.1))),
        _ => Err(MapfError::NodeNotFound),
    }
}

/// A heuristic for the distance between two nodes of a graph. Users of a
/// heuristic find optimal routes only when the estimate never exceeds the
/// true distance.
pub trait DistanceHeuristic<G: GraphLike> {
    /// The estimate, or `None` where a location lacks what the estimate
    /// is computed from.
    spec fn estimate(graph: &G, from: int, to: int) -> Option<nat>;

    /// A node is at distance 0 from itself.
    proof fn estimate_to_self(graph: &G, x: int)
        ensures
            Self::estimate(graph, x, x).is_some() ==> Self::estimate(graph, x, x) == Some(0nat),
    ;

    /// An estimate of the distance between `from` and `to`.
    fn heuristic(graph: &G, from: Location, to: Location) -> (r: Result<u128, MapfError>)
        ensures
            match Self::estimate(graph, from.index as int, to.index as int) {
                Some(e) => r == Ok::<u128, MapfError>(e as u128) && e <= u128::MAX,
                None => r == Err::<u128, MapfError>(MapfError::NodeNotFound),
            },
    ;
}

/// The estimate that is always 0. It needs no payload.
pub struct Trivial;

impl<G: GraphLike> DistanceHeuristic<G> for Trivial {
    open spec fn estimate(graph: &G, from: int, to: int) -> Option<nat> {
        Some(0nat)
    }

    proof fn estimate_to_self(graph: &G, x: int) {
    }

    fn heuristic(graph: &G, from: Location, to: Location) -> (r: Result<u128, MapfError>) {
        Ok(0)
    }
}

/// The sum of the row distance and the column distance.
pub struct Manhattan;

impl<G: GraphLike> DistanceHeuristic<G> for Manhattan {
    open spec fn estimate(graph: &G, from: int, to: int) -> Option<nat> {
        match offsets(graph, from, to) {
            Some(d) => Some(d.0 + d.1),
            None => None,
        }
    }

    proof fn estimate_to_self(graph: &G, x: int) {
    }

    fn heuristic(graph: &G, from: Location, to: Location) -> (r: Result<u128, MapfError>) {
        match coordinate_offsets(graph, from, to) {
            Ok(d) => Ok(d.0 as u128 + d.1 as u128),
            Err(e) => Err(e),
        }
    }
}

/// The square of the straight-line distance.
pub open spec fn squared_length(d: (nat, nat)) -> nat {
    d.0 * d.0 + d.1 * d.1
}

/// Whether `long`, `short` and `t` satisfy `(long + t)^2 <= long^2 + short^2`,
/// computed without leaving 128 bits.
fn within_hypotenuse(long: u128, short: u128, t: u128) -> (ok: bool)
    requires
        short <= long <= usize::MAX,
        t <= short,
    ensures
        ok == ((long + t) * (long + t) <= long * long + short * short),
{
    proof {
        assert((long + t) * (long + t) == long * long + t * (2 * long + t)) by (nonlinear_arith);
        assert(short * short <= 0xffff_ffff_ffff_ffff * 0xffff_ffff_ffff_ffff) by (nonlinear_arith)
            requires
                short <= 0xffff_ffff_ffff_ffff,
        ;
    }
    let width: u128 = 2 * long + t;
    let area = short * short;
    match t.checked_mul(width) {
        Some(p) => p <= area,
        None => false,
    }
}

/// The whole part of the straight-line distance.
pub struct Euclidean;

impl Euclidean {
    /// The whole part of the length of the hypotenuse over the two sides.
    pub fn hypotenuse(dx: usize, dy: usize) -> (r: u128)
        ensures
            r == floor_sqrt(squared_length((dx as nat, dy as nat))),
    {
        let (long, short): (u128, u128) = if dx >= dy {
            (dx as u128, dy as u128)
        } else {
            (dy as u128, dx as u128)
        };
        let ghost s: nat = (long * long + short * short) as nat;
        // The answer is long + t for the largest t in [0, short] that stays within the hypotenuse.
        let mut lo: u128 = 0;
        let mut hi: u128 = short;
        proof {
            assert((long + (short + 1)) * (long + (short + 1)) > long * long + short * short) by (nonlinear_arith)
                requires
                    long >= 0,
                    short >= 0,
            ;
        }
        while lo < hi
            invariant
                short <= long <= usize::MAX,
                0 <= lo <= hi <= short,
                s == long * long + short * short,
                (long + lo) * (long + lo) <= s,
                (long + (hi + 1)) * (long + (hi + 1)) > s,
            decreases hi - lo,
        {
            let mid: u128 = lo + (hi - lo + 1) / 2;
            if within_hypotenuse(long, short, mid) {
                lo = mid;
            } else {
                hi = mid - 1;
            }
        }
        proof {
            let r: nat = (long + lo) as nat;
            assert(is_floor_sqrt(r, s));
            lemma_floor_sqrt_unique(r, s);
            assert(squared_length((dx as nat, dy as nat)) == s) by (nonlinear_arith)
                requires
                    s == long * long + short * short,
                    (long == dx && short == dy) || (long == dy && short == dx),
            ;
        }
        long + lo
    }
}

impl<G: GraphLike> DistanceHeuristic<G> for Euclidean {
    open spec fn estimate(graph: &G, from: int, to: int) -> Option<nat> {
        match offsets(graph, from, to) {
            Some(d) => Some(floor_sqrt(squared_length(d))),
            None => None,
        }
    }

    proof fn estimate_to_self(graph: &G, x: int) {
        if offsets(graph, x, x).is_some() {
            assert(0nat * 0nat == 0 && (0nat + 1) * (0nat + 1) == 1) by (nonlinear_arith);
            assert(squared_length((0nat, 0nat)) == 0);
            lemma_floor_sqrt_unique(0, 0);
        }
    }

    fn heuristic(graph: &G, from: Location, to: Location) -> (r: Result<u128, MapfError>) {
        match coordinate_offsets(graph, from, to) {
            Ok(d) => Ok(Euclidean::hypotenuse(d.0, d.1)),
            Err(e) => Err(e),
        }
    }
}

} // verus!
