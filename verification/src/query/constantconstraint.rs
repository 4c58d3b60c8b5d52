//! The constant constraint: one variable restricted to one literal
//! 32-byte value.  Literal positions of a query pattern are expressed by
//! pinning a variable with one of these.

use vstd::prelude::*;
use crate::bitset::ByteBitset;
use crate::query::Binding;
use crate::query::Constraint;
use crate::query::Variable;
use crate::query::VariableId;
use crate::trible::RawValue;

verus! {

/// A constraint holding one variable to one value.
pub struct ConstantConstraint {
    index: VariableId,
    value: RawValue,
}

impl ConstantConstraint {
    pub closed spec fn var_index(&self) -> int {
        self.index as int
    }

    pub closed spec fn val(&self) -> Seq<u8> {
        self.value@
    }

    pub fn new<S>(v: Variable<S>, value: RawValue) -> (r: ConstantConstraint)
        requires
            v.index < 256,
            value@.len() == 32,
        ensures
            r.inv(),
            r.var_index() == v.index,
            r.val() == value@,
            r.vars() == Set::<int>::empty().insert(v.index as int),
    {
        let r = ConstantConstraint { index: v.index, value };
        proof {
            assert(r.vars() =~= Set::<int>::empty().insert(v.index as int));
        }
        r
    }

    /// What satisfaction means: the variable, where bound, holds the
    /// literal value.
    pub proof fn lemma_ok_meaning(&self, m: Map<int, Seq<u8>>)
        ensures
            self.ok(m) == (m.dom().contains(self.var_index()) ==> m[self.var_index()]
                == self.val()),
    {
    }

    pub proof fn lemma_cand_ok_meaning(&self, v: int, m: Map<int, Seq<u8>>, val: Seq<u8>)
        ensures
            self.cand_ok(v, m, val) == self.ok(m.insert(v, val)),
    {
    }
}

impl Constraint for ConstantConstraint {
    closed spec fn inv(&self) -> bool {
        self.index < 256 && self.value@.len() == 32
    }

    closed spec fn vars(&self) -> Set<int> {
        Set::empty().insert(self.index as int)
    }

    closed spec fn ok(&self, m: Map<int, Seq<u8>>) -> bool {
        m.dom().contains(self.index as int) ==> m[self.index as int] == self.value@
    }

    closed spec fn cand_ok(&self, v: int, m: Map<int, Seq<u8>>, val: Seq<u8>) -> bool {
        self.ok(m.insert(v, val))
    }

    closed spec fn sat_bound(&self, m: Map<int, Seq<u8>>) -> bool {
        self.vars().subset_of(m.dom()) ==> self.ok(m)
    }

    closed spec fn est(&self, v: int, m: Map<int, Seq<u8>>) -> nat {
        1
    }

    proof fn lemma_vars_finite(&self) {
        assert(self.vars().subset_of(vstd::set_lib::set_int_range(0, 256))) by {
            assert forall|x: int| self.vars().contains(x) implies 0 <= x < 256 by {}
        }
    }

    proof fn lemma_vacuous(&self, m: Map<int, Seq<u8>>) {
        if self.vars().subset_of(m.dom()) {
            assert(self.vars().contains(self.index as int));
            assert(false);
        }
    }

    proof fn lemma_step(&self, v: int, m: Map<int, Seq<u8>>, val: Seq<u8>) {
    }

    proof fn lemma_step_outside(&self, v: int, m: Map<int, Seq<u8>>, val: Seq<u8>) {
        let m2 = m.insert(v, val);
        if self.vars().subset_of(m2.dom()) {
            assert(self.vars().contains(self.index as int));
            assert(m.dom().contains(self.index as int));
            assert(m2[self.index as int] == m[self.index as int]);
        }
    }

    proof fn lemma_final(&self, m: Map<int, Seq<u8>>) {
    }

    proof fn lemma_antitone(&self, v: int, m: Map<int, Seq<u8>>, val: Seq<u8>) {
        let m2 = m.insert(v, val);
        if m.dom().contains(self.index as int) {
            assert(v != self.index as int);
            assert(m2[self.index as int] == m[self.index as int]);
        }
    }

    proof fn lemma_complete(&self, v: int, m: Map<int, Seq<u8>>, val: Seq<u8>) {
    }

    fn variables(&self) -> (r: ByteBitset) {
        let mut r = ByteBitset::new_empty();
        r.set(self.index as u8);
        proof {
            assert(r.iset() =~= self.vars());
        }
        r
    }

    fn variable(&self, v: VariableId) -> (r: bool) {
        let r = v == self.index;
        proof {
            if r {
                assert(self.vars().contains(v as int));
            } else {
                assert(!self.vars().contains(v as int));
            }
        }
        r
    }

    fn estimate(&self, v: VariableId, b: &Binding) -> (r: usize) {
        let ghost m = b.as_map();
        proof {
            let cand = Set::new(|val: Seq<u8>| self.cand_ok(v as int, m, val));
            assert forall|val: Seq<u8>| cand.contains(val) implies val == self.value@ by {
                let m1 = m.insert(v as int, val);
                assert(m1[self.index as int] == self.value@);
            }
            assert(cand.subset_of(Set::<Seq<u8>>::empty().insert(self.value@)));
            vstd::set_lib::lemma_set_subset_finite(
                Set::<Seq<u8>>::empty().insert(self.value@),
                cand,
            );
            vstd::set_lib::lemma_len_subset(cand, Set::<Seq<u8>>::empty().insert(self.value@));
            assert(Set::<Seq<u8>>::empty().insert(self.value@).len() == 1);
        }
        1
    }

    fn propose(&self, v: VariableId, b: &Binding, proposals: &mut Vec<Vec<u8>>) {
        let ghost m = b.as_map();
        let c = crate::trie::copy_bytes(&self.value);
        proposals.push(c);
        proof {
            assert forall|val: Seq<u8>| #[trigger]
                self.cand_ok(v as int, m, val) implies exists|t: int|
                0 <= t < proposals@.len() && proposals@[t]@ == val by {
                let m1 = m.insert(v as int, val);
                assert(m1[self.index as int] == self.value@);
                assert(proposals@[0]@ == val);
            }
            assert forall|t: int| 0 <= t < proposals@.len() implies self.cand_ok(
                v as int,
                m,
                (#[trigger] proposals@[t])@,
            ) && proposals@[t]@.len() == 32 by {
                let m1 = m.insert(v as int, proposals@[t]@);
            }
        }
    }

    fn confirm(&self, v: VariableId, b: &Binding, proposals: &mut Vec<Vec<u8>>) {
        let ghost m = b.as_map();
        let ghost ov = old(proposals)@.map_values(|x: Vec<u8>| x@);
        let mut out: Vec<Vec<u8>> = Vec::new();
        let mut i: usize = 0;
        proof {
            reveal(Seq::filter);
            assert(ov.take(0) =~= Seq::<Seq<u8>>::empty());
        }
        while i < proposals.len()
            invariant
                i <= proposals@.len(),
                self.inv(),
                b.inv(),
                b.as_map() == m,
                v < 256,
                self.vars().contains(v as int),
                !m.dom().contains(v as int),
                ov == proposals@.map_values(|x: Vec<u8>| x@),
                out@.map_values(|x: Vec<u8>| x@) == ov.take(i as int).filter(
                    (|s: Seq<u8>| self.cand_ok(v as int, m, s)),
                ),
            decreases proposals@.len() - i,
        {
            let keep = equal_bytes(&proposals[i], &self.value);
            let ghost pred = |s: Seq<u8>| self.cand_ok(v as int, m, s);
            proof {
                reveal(Seq::filter);
                assert(ov.take(i as int + 1).drop_last() =~= ov.take(i as int));
                assert(ov.take(i as int + 1).last() == ov[i as int]);
                assert(ov[i as int] == proposals@[i as int]@);
                let m1 = m.insert(v as int, proposals@[i as int]@);
                assert(m1[self.index as int] == (if self.index as int == v as int {
                    proposals@[i as int]@
                } else {
                    m[self.index as int]
                }));
            }
            if keep {
                let c = crate::trie::copy_bytes(&proposals[i]);
                out.push(c);
                proof {
                    assert(out@.map_values(|x: Vec<u8>| x@) =~= ov.take(i as int + 1).filter(pred));
                }
            } else {
                proof {
                    assert(out@.map_values(|x: Vec<u8>| x@) =~= ov.take(i as int + 1).filter(pred));
                }
            }
            i = i + 1;
        }
        proof {
            assert(ov.take(ov.len() as int) =~= ov);
        }
        *proposals = out;
        proof {
            assert((|s: Seq<u8>| self.cand_ok(v as int, m, s)) =~= (
            |s: Seq<u8>| self.cand_ok(v as int, b.as_map(), s)));
        }
    }
}

/// Byte-for-byte equality of two vectors.
pub(crate) fn equal_bytes(a: &Vec<u8>, b: &Vec<u8>) -> (r: bool)
    ensures
        r == (a@ == b@),
{
    if a.len() != b.len() {
        proof {
            assert(a@ != b@);
        }
        return false;
    }
    let mut i: usize = 0;
    while i < a.len()
        invariant
            i <= a@.len(),
            a@.len() == b@.len(),
            forall|j: int| 0 <= j < i ==> a@[j] == b@[j],
        decreases a@.len() - i,
    {
        if a[i] != b[i] {
            proof {
                assert(a@[i as int] != b@[i as int]);
            }
            return false;
        }
        i = i + 1;
    }
    proof {
        assert(a@ =~= b@);
    }
    true
}

} // verus!
