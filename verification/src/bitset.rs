//! A set of byte values, used both for proposing next key bytes during
//! trie exploration and as the set of variables a constraint touches.

use vstd::prelude::*;
use vstd::set_lib::lemma_len_subset;

verus! {

/// A set over the 256 byte values.
pub struct ByteBitset {
    bits: Vec<bool>,
}

impl ByteBitset {
    pub closed spec fn inv(&self) -> bool {
        self.bits@.len() == 256
    }

    /// Is byte `b` in the set?
    pub closed spec fn mem(&self, b: u8) -> bool {
        self.bits@[b as int]
    }

    /// The same set, seen over the integers; this is the view the query
    /// layer uses for variable indices.
    pub open spec fn iset(&self) -> Set<int> {
        Set::new(|i: int| 0 <= i < 256 && self.mem(i as u8))
    }

    /// The set of possible members is bounded, so the set is finite.
    pub proof fn lemma_iset_finite(&self)
        ensures
            self.iset().finite(),
            self.iset().len() <= 256,
    {
        vstd::set_lib::lemma_int_range(0, 256);
        assert(self.iset().subset_of(vstd::set_lib::set_int_range(0, 256)));
        vstd::set_lib::lemma_set_subset_finite(vstd::set_lib::set_int_range(0, 256), self.iset());
        lemma_len_subset(self.iset(), vstd::set_lib::set_int_range(0, 256));
    }

    /// The empty set.
    pub fn new_empty() -> (r: ByteBitset)
        ensures
            r.inv(),
            forall|b: u8| !r.mem(b),
    {
        let mut bits: Vec<bool> = Vec::new();
        let mut i: usize = 0;
        while i < 256
            invariant
                i <= 256,
                bits@.len() == i,
                forall|j: int| 0 <= j < i ==> !bits@[j],
            decreases 256 - i,
        {
            bits.push(false);
            i = i + 1;
        }
        ByteBitset { bits }
    }

    /// Add byte `b`.
    pub fn set(&mut self, b: u8)
        requires
            old(self).inv(),
        ensures
            final(self).inv(),
            forall|x: u8| final(self).mem(x) == (old(self).mem(x) || x == b),
    {
        self.bits.set(b as usize, true);
    }

    /// Drop byte `b`.
    pub fn unset(&mut self, b: u8)
        requires
            old(self).inv(),
        ensures
            final(self).inv(),
            forall|x: u8| final(self).mem(x) == (old(self).mem(x) && x != b),
    {
        self.bits.set(b as usize, false);
    }

    /// Is byte `b` in the set?
    pub fn is_set(&self, b: u8) -> (r: bool)
        requires
            self.inv(),
        ensures
            r == self.mem(b),
    {
        self.bits[b as usize]
    }

    /// The union of two sets.
    pub fn union(&self, other: &ByteBitset) -> (r: ByteBitset)
        requires
            self.inv(),
            other.inv(),
        ensures
            r.inv(),
            forall|x: u8| r.mem(x) == (self.mem(x) || other.mem(x)),
    {
        let mut bits: Vec<bool> = Vec::new();
        let mut i: usize = 0;
        while i < 256
            invariant
                i <= 256,
                bits@.len() == i,
                self.inv(),
                other.inv(),
                forall|j: int| 0 <= j < i ==> bits@[j] == (self.bits@[j] || other.bits@[j]),
            decreases 256 - i,
        {
            bits.push(self.bits[i] || other.bits[i]);
            i = i + 1;
        }
        ByteBitset { bits }
    }

    /// The members, in ascending order.
    pub fn elements(&self) -> (r: Vec<u8>)
        requires
            self.inv(),
        ensures
            forall|j1: int, j2: int| 0 <= j1 < j2 < r@.len() ==> r@[j1] < r@[j2],
            forall|j: int| 0 <= j < r@.len() ==> self.mem(#[trigger] r@[j]),
            forall|b: u8| self.mem(b) ==> exists|j: int| 0 <= j < r@.len() && r@[j] == b,
    {
        let mut r: Vec<u8> = Vec::new();
        let mut i: usize = 0;
        while i < 256
            invariant
                i <= 256,
                self.inv(),
                forall|j1: int, j2: int| 0 <= j1 < j2 < r@.len() ==> r@[j1] < r@[j2],
                forall|j: int| 0 <= j < r@.len() ==> self.mem(#[trigger] r@[j]) && r@[j] < i,
                forall|b: u8| b < i && self.mem(b) ==> exists|j: int| 0 <= j < r@.len() && r@[j] == b,
            decreases 256 - i,
        {
            if self.bits[i] {
                let b = i as u8;
                let ghost r0 = r@;
                r.push(b);
                proof {
                    assert(r@[r@.len() - 1] == b);
                    assert(forall|j: int| 0 <= j < r0.len() ==> r@[j] == r0[j]);
                    assert forall|x: u8| x < i + 1 && self.mem(x) implies exists|j: int|
                        0 <= j < r@.len() && r@[j] == x by {
                        if x < i {
                            let j = choose|j: int| 0 <= j < r0.len() && r0[j] == x;
                            assert(r@[j] == x);
                        } else {
                            assert(r@[r@.len() - 1] == x);
                        }
                    }
                    assert forall|j1: int, j2: int| 0 <= j1 < j2 < r@.len() implies r@[j1]
                        < r@[j2] by {
                        if j2 == r@.len() - 1 {
                            assert(r@[j1] == r0[j1]);
                            assert(r0[j1] < i as u8);
                        }
                    }
                }
            }
            i = i + 1;
        }
        r
    }
}

} // verus!
