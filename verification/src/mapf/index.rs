//! Where to look for the search nodes of a state: a table from a number
//! that depends on the state alone to the nodes that were filed under it.
//!
//! The table does not know what the numbers filed in it stand for. Whoever
//! looks a state up compares the state of every node found, so a node filed
//! in the wrong place is a node not found, and no more.

use vstd::prelude::*;

verus! {

/// The number of lists of a table for a search with many states.
pub const MANY: usize = 65536;

/// The number of lists of a table for a search with few states.
pub const FEW: usize = 1024;

/// A table of lists of numbers.
pub struct Index {
    pub lists: Vec<Vec<usize>>,
}

/// The number that `mix` makes of the first `i` values of `a` and `seed`.
pub open spec fn mixed(a: Seq<usize>, seed: u64, i: int) -> u64
    decreases i,
{
    if i <= 0 {
        seed
    } else {
        (mixed(a, seed, i - 1) ^ (a[i - 1] as u64)).wrapping_mul(1099511628211u64)
    }
}

/// A number that depends on the values of `a` and on `seed` alone.
pub fn mix(a: &Vec<usize>, seed: u64) -> (h: u64)
    ensures
        h == mixed(a@, seed, a@.len() as int),
{
    let mut h: u64 = seed;
    let mut i: usize = 0;
    while i < a.len()
        invariant
            0 <= i <= a@.len(),
            h == mixed(a@, seed, i as int),
        decreases a@.len() - i,
    {
        h = (h ^ (a[i] as u64)).wrapping_mul(1099511628211u64);
        i += 1;
    }
    h
}

impl Index {
    /// The list under which `h` is filed; a table without lists has none.
    pub open spec fn place(&self, h: u64) -> int {
        (h % (self.lists@.len() as u64)) as int
    }

    /// The numbers filed under `h`.
    pub open spec fn list(&self, h: u64) -> Seq<usize> {
        if self.lists@.len() == 0 {
            Seq::<usize>::empty()
        } else {
            self.lists@[self.place(h)]@
        }
    }

    /// An empty table of `count` lists.
    pub fn new(count: usize) -> (index: Index)
        ensures
            index.lists@.len() == count,
            forall|h: u64| #[trigger] index.list(h) == Seq::<usize>::empty(),
    {
        let mut lists: Vec<Vec<usize>> = Vec::new();
        let mut i: usize = 0;
        while i < count
            invariant
                0 <= i <= count,
                lists@.len() == i,
                forall|j: int| 0 <= j < i ==> (#[trigger] lists@[j])@ == Seq::<usize>::empty(),
            decreases count - i,
        {
            lists.push(Vec::new());
            i += 1;
        }
        Index { lists }
    }

    /// How many numbers are filed under `h`.
    pub fn count(&self, h: u64) -> (c: usize)
        ensures
            c == self.list(h).len(),
    {
        let m = self.lists.len();
        if m == 0 {
            return 0;
        }
        let at = (h % (m as u64)) as usize;
        self.lists[at].len()
    }

    /// The number filed under `h` in place `i`.
    pub fn filed(&self, h: u64, i: usize) -> (x: usize)
        requires
            i < self.list(h).len(),
        ensures
            x == self.list(h)[i as int],
    {
        let m = self.lists.len();
        let at = (h % (m as u64)) as usize;
        self.lists[at][i]
    }

    /// Files `x` under `h`, behind what is filed there. A table without
    /// lists gets its first list. The other lists stay as they are.
    pub fn file(&mut self, h: u64, x: usize)
        ensures
            final(self).lists@.len() == if old(self).lists@.len() == 0 {
                1
            } else {
                old(self).lists@.len()
            },
            forall|k: u64| #[trigger]
                final(self).list(k) == if old(self).lists@.len() == 0 || old(self).place(k) == old(self).place(h) {
                    old(self).list(k).push(x)
                } else {
                    old(self).list(k)
                },
    {
        if self.lists.len() == 0 {
            self.lists.push(Vec::new());
        }
        let ghost grown = *self;
        let m = self.lists.len();
        let at = (h % (m as u64)) as usize;
        let mut list: Vec<usize> = Vec::new();
        let mut i: usize = 0;
        while i < self.lists[at].len()
            invariant
                *self == grown,
                at < self.lists@.len(),
                0 <= i <= self.lists@[at as int]@.len(),
                list@ == self.lists@[at as int]@.take(i as int),
            decreases self.lists@[at as int]@.len() - i,
        {
            list.push(self.lists[at][i]);
            proof {
                let whole = self.lists@[at as int]@;
                assert(whole.take(i as int + 1) =~= whole.take(i as int).push(whole[i as int]));
            }
            i += 1;
        }
        proof {
            let whole = self.lists@[at as int]@;
            assert(whole.take(whole.len() as int) =~= whole);
        }
        list.push(x);
        let ghost before = *self;
        let ghost longer = list@;
        self.lists.set(at, list);
        proof {
            assert(longer =~= before.lists@[at as int]@.push(x));
            assert(self.lists@[at as int]@ == longer);
            assert forall|k: u64| #[trigger]
                self.list(k) == if old(self).lists@.len() == 0 || old(self).place(k) == old(self).place(h) {
                    old(self).list(k).push(x)
                } else {
                    old(self).list(k)
                } by {
                assert(self.place(k) == before.place(k));
                assert(before.place(h) == at);
                if old(self).lists@.len() == 0 {
                    assert(before.place(k) == 0 && at == 0);
                    assert(before.lists@[0]@ =~= Seq::<usize>::empty());
                } else {
                    assert(before == *old(self));
                    if before.place(k) != at {
                        assert(self.lists@[before.place(k)] == before.lists@[before.place(k)]);
                    }
                }
            }
        }
    }
}

} // verus!
