//! Owned identifiers: a single-writer context holds the set of 128-bit
//! identifiers it may use in the entity position.  Acquiring an identifier
//! removes it from the context, so no two live handles cover the same
//! identifier; releasing the handle returns it.  The context is an
//! explicit value passed to whoever needs it, created and torn down
//! deliberately rather than tied to a thread.

use vstd::prelude::*;
use vstd::set_lib::lemma_len_subset;
use vstd::set_lib::lemma_map_size_bound;
use vstd::set_lib::lemma_set_subset_finite;
use crate::bitset::ByteBitset;
use crate::query::Binding;
use crate::query::Constraint;
use crate::query::Variable;
use crate::query::VariableId;
use crate::schemas::GenId;
use crate::trible::RawId;
use crate::trible::id_from_value;
use crate::trible::id_into_value;
use crate::trible::lemma_pad_id_injective;
use crate::trible::pad_id;
use crate::trie::Trie;

verus! {

/// A writer context: the set of identifiers it currently owns.
pub struct IdOwner {
    ids: Trie,
}

/// An exclusively held identifier.  While the handle lives, its context
/// does not own the identifier, so it cannot be acquired again until the
/// handle is released back.
pub struct OwnedId {
    pub raw: RawId,
}

impl OwnedId {
    /// Declare an identifier owned without consulting any context.  The
    /// caller vouches for exclusivity.
    pub fn force(id: RawId) -> (r: OwnedId)
        ensures
            r.raw@ == id@,
    {
        OwnedId { raw: id }
    }
}

impl IdOwner {
    /// The identifiers this context owns.
    pub closed spec fn owned(&self) -> Set<Seq<u8>> {
        self.ids@
    }

    pub closed spec fn wf(&self) -> bool {
        self.ids.wf() && self.ids.key_len() == 16
    }

    pub proof fn lemma_shape(&self)
        requires
            self.wf(),
        ensures
            self.owned().finite(),
            forall|k: Seq<u8>| self.owned().contains(k) ==> k.len() == 16,
    {
        self.ids.lemma_shape();
    }

    /// A context owning nothing.
    pub fn new() -> (r: IdOwner)
        ensures
            r.wf(),
            r.owned() == Set::<Seq<u8>>::empty(),
    {
        IdOwner { ids: Trie::new(16) }
    }

    /// Grant this context ownership of `id`.
    pub fn add(&mut self, id: &RawId)
        requires
            old(self).wf(),
            id@.len() == 16,
            old(self).owned().len() < usize::MAX,
        ensures
            final(self).wf(),
            final(self).owned() == old(self).owned().insert(id@),
    {
        self.ids = self.ids.insert(id);
    }

    /// Return an acquired identifier to this context.
    pub fn release(&mut self, h: OwnedId)
        requires
            old(self).wf(),
            h.raw@.len() == 16,
            old(self).owned().len() < usize::MAX,
        ensures
            final(self).wf(),
            final(self).owned() == old(self).owned().insert(h.raw@),
    {
        self.ids = self.ids.insert(&h.raw);
    }

    /// How many identifiers this context owns.
    pub fn count(&self) -> (r: usize)
        requires
            self.wf(),
        ensures
            r as nat == self.owned().len(),
    {
        self.ids.count()
    }
}

/// Take ownership of `id` from the context.  Succeeds exactly when the
/// context currently owns the identifier; on success the identifier
/// leaves the context until the handle is released.
pub fn try_aquire(owner: &mut IdOwner, id: &RawId) -> (r: Option<OwnedId>)
    requires
        old(owner).wf(),
        id@.len() == 16,
    ensures
        final(owner).wf(),
        match r {
            Some(h) => old(owner).owned().contains(id@) && h.raw@ == id@ && final(owner).owned()
                == old(owner).owned().remove(id@),
            None => !old(owner).owned().contains(id@) && final(owner).owned() == old(
                owner,
            ).owned(),
        },
{
    if owner.ids.has_prefix(id) {
        proof {
            owner.ids.lemma_shape();
            let k = choose|k: Seq<u8>| owner.ids@.contains(k) && id@.is_prefix_of(k);
            assert(k =~= id@);
        }
        owner.ids = owner.ids.remove(id);
        let c = crate::trie::copy_bytes(id);
        Some(OwnedId::force(c))
    } else {
        proof {
            if owner.ids@.contains(id@) {
                assert(id@.is_prefix_of(id@)) by {
                    assert(id@.take(16) =~= id@);
                }
            }
            assert(owner.owned() =~= owner.owned().remove(id@).union(owner.owned()));
        }
        None
    }
}

/// Take ownership of `id`; the caller asserts the context owns it.
pub fn aquire(owner: &mut IdOwner, id: &RawId) -> (r: OwnedId)
    requires
        old(owner).wf(),
        id@.len() == 16,
        old(owner).owned().contains(id@),
    ensures
        final(owner).wf(),
        r.raw@ == id@,
        final(owner).owned() == old(owner).owned().remove(id@),
{
    let got = try_aquire(owner, id);
    match got {
        Some(h) => h,
        None => {
            proof {
                assert(false);
            }
            OwnedId { raw: Vec::new() }
        },
    }
}

/// A constraint restricting a variable to the identifiers the context
/// owns, each embedded in a value slot.
pub fn local_owned<'a>(v: Variable<GenId>, owner: &'a IdOwner) -> (r: OwnedConstraint<'a>)
    requires
        v.index < 256,
        owner.wf(),
    ensures
        r.inv(),
        r.var_index() == v.index,
        r.context() == *owner,
        r.vars() == Set::<int>::empty().insert(v.index as int),
{
    let r = OwnedConstraint { index: v.index, owner };
    proof {
        assert(r.vars() =~= Set::<int>::empty().insert(v.index as int));
    }
    r
}

/// The membership constraint behind `local_owned`.
pub struct OwnedConstraint<'a> {
    index: VariableId,
    owner: &'a IdOwner,
}

impl<'a> OwnedConstraint<'a> {
    pub closed spec fn var_index(&self) -> int {
        self.index as int
    }

    pub closed spec fn context(&self) -> IdOwner {
        *self.owner
    }

    /// What satisfaction means: the variable, where bound, holds an
    /// identifier the context owns, in slot form.
    pub proof fn lemma_ok_meaning(&self, m: Map<int, Seq<u8>>)
        ensures
            self.ok(m) == (m.dom().contains(self.var_index()) ==> exists|id: Seq<u8>| #[trigger]
                self.context().owned().contains(id) && m[self.var_index()] == pad_id(id)),
    {
        let d = self.context().owned();
        assert(d == self.owner.owned());
        if m.dom().contains(self.var_index()) {
            if self.ok(m) {
                let id = choose|id: Seq<u8>| #[trigger]
                    self.owner.owned().contains(id) && m[self.index as int] == pad_id(id);
                assert(d.contains(id) && m[self.var_index()] == pad_id(id));
            }
            if exists|id: Seq<u8>| #[trigger] d.contains(id) && m[self.var_index()] == pad_id(id) {
                let id = choose|id: Seq<u8>| #[trigger]
                    d.contains(id) && m[self.var_index()] == pad_id(id);
                assert(self.owner.owned().contains(id) && m[self.index as int] == pad_id(id));
            }
        }
    }

    pub proof fn lemma_cand_ok_meaning(&self, v: int, m: Map<int, Seq<u8>>, val: Seq<u8>)
        ensures
            self.cand_ok(v, m, val) == self.ok(m.insert(v, val)),
    {
    }

    /// What the estimate reports: the size of the owned set.
    pub proof fn lemma_est_meaning(&self, v: int, m: Map<int, Seq<u8>>)
        ensures
            self.est(v, m) == self.context().owned().len(),
    {
    }
}

impl<'a> Constraint for OwnedConstraint<'a> {
    closed spec fn inv(&self) -> bool {
        self.owner.wf() && self.index < 256
    }

    closed spec fn vars(&self) -> Set<int> {
        Set::empty().insert(self.index as int)
    }

    closed spec fn ok(&self, m: Map<int, Seq<u8>>) -> bool {
        m.dom().contains(self.index as int) ==> exists|id: Seq<u8>| #[trigger]
            self.owner.owned().contains(id) && m[self.index as int] == pad_id(id)
    }

    closed spec fn cand_ok(&self, v: int, m: Map<int, Seq<u8>>, val: Seq<u8>) -> bool {
        self.ok(m.insert(v, val))
    }

    closed spec fn sat_bound(&self, m: Map<int, Seq<u8>>) -> bool {
        self.vars().subset_of(m.dom()) ==> self.ok(m)
    }

    closed spec fn est(&self, v: int, m: Map<int, Seq<u8>>) -> nat {
        self.owner.owned().len()
    }

    proof fn lemma_vars_finite(&self) {
        assert(self.vars().subset_of(vstd::set_lib::set_int_range(0, 256))) by {
            assert forall|x: int| self.vars().contains(x) implies 0 <= x < 256 by {}
        }
    }

    proof fn lemma_vacuous(&self, m: Map<int, Seq<u8>>) {
        if self.vars().subset_of(m.dom()) {
            assert(self.vars().contains(self.index as int));
            assert(false);
        }
    }

    proof fn lemma_step(&self, v: int, m: Map<int, Seq<u8>>, val: Seq<u8>) {
    }

    proof fn lemma_step_outside(&self, v: int, m: Map<int, Seq<u8>>, val: Seq<u8>) {
        let m2 = m.insert(v, val);
        if self.vars().subset_of(m2.dom()) {
            assert(self.vars().contains(self.index as int));
            assert(m.dom().contains(self.index as int));
            assert(self.ok(m));
            let id = choose|id: Seq<u8>| #[trigger]
                self.owner.owned().contains(id) && m[self.index as int] == pad_id(id);
            assert(m2[self.index as int] == pad_id(id));
        }
    }

    proof fn lemma_final(&self, m: Map<int, Seq<u8>>) {
    }

    proof fn lemma_antitone(&self, v: int, m: Map<int, Seq<u8>>, val: Seq<u8>) {
        let m2 = m.insert(v, val);
        if m.dom().contains(self.index as int) {
            assert(v != self.index as int);
            let id = choose|id: Seq<u8>| #[trigger]
                self.owner.owned().contains(id) && m2[self.index as int] == pad_id(id);
            assert(m[self.index as int] == pad_id(id));
        }
    }

    proof fn lemma_complete(&self, v: int, m: Map<int, Seq<u8>>, val: Seq<u8>) {
    }

    fn variables(&self) -> (r: ByteBitset) {
        let mut r = ByteBitset::new_empty();
        r.set(self.index as u8);
        proof {
            assert(r.iset() =~= self.vars());
        }
        r
    }

    fn variable(&self, v: VariableId) -> (r: bool) {
        let r = v == self.index;
        proof {
            if r {
                assert(self.vars().contains(v as int));
            } else {
                assert(!self.vars().contains(v as int));
            }
        }
        r
    }

    fn estimate(&self, v: VariableId, b: &Binding) -> (r: usize) {
        let ghost m = b.as_map();
        let r = self.owner.ids.count();
        proof {
            self.owner.lemma_shape();
            let cand = Set::new(|val: Seq<u8>| self.cand_ok(v as int, m, val));
            let g = |id: Seq<u8>| pad_id(id);
            assert forall|val: Seq<u8>| cand.contains(val) implies self.owner.owned().map(
                g,
            ).contains(val) by {
                let m1 = m.insert(v as int, val);
                let id = choose|id: Seq<u8>| #[trigger]
                    self.owner.owned().contains(id) && m1[self.index as int] == pad_id(id);
                assert(self.owner.owned().contains(id) && val == g(id));
            }
            lemma_map_size_bound(self.owner.owned(), self.owner.owned().map(g), g);
            lemma_set_subset_finite(self.owner.owned().map(g), cand);
            lemma_len_subset(cand, self.owner.owned().map(g));
        }
        r
    }

    fn propose(&self, v: VariableId, b: &Binding, proposals: &mut Vec<Vec<u8>>) {
        let ghost m = b.as_map();
        proof {
            self.owner.lemma_shape();
        }
        let ids = self.owner.ids.keys();
        let mut j: usize = 0;
        while j < ids.len()
            invariant
                j <= ids@.len(),
                self.inv(),
                forall|t: int| 0 <= t < ids@.len() ==> self.owner.owned().contains(
                    (#[trigger] ids@[t])@,
                ),
                forall|t: int| 0 <= t < ids@.len() ==> (#[trigger] ids@[t])@.len() == 16,
                forall|t1: int, t2: int| 0 <= t1 < t2 < ids@.len() ==> ids@[t1]@ != ids@[t2]@,
                proposals@.len() == j,
                forall|t: int|
                    0 <= t < j ==> (#[trigger] proposals@[t])@ == pad_id(ids@[t]@)
                        && proposals@[t]@.len() == 32,
                forall|t1: int, t2: int|
                    0 <= t1 < t2 < proposals@.len() ==> proposals@[t1]@ != proposals@[t2]@,
            decreases ids@.len() - j,
        {
            let c = id_into_value(&ids[j]);
            proposals.push(c);
            proof {
                assert forall|t1: int, t2: int|
                    0 <= t1 < t2 < proposals@.len() implies proposals@[t1]@ != proposals@[t2]@ by {
                    if t2 == proposals@.len() - 1 {
                        if proposals@[t1]@ == proposals@[t2]@ {
                            lemma_pad_id_injective(ids@[t1]@, ids@[t2]@);
                        }
                    }
                }
            }
            j = j + 1;
        }
        proof {
            self.owner.lemma_shape();
            assert forall|t: int| 0 <= t < proposals@.len() implies self.cand_ok(
                v as int,
                m,
                (#[trigger] proposals@[t])@,
            ) && proposals@[t]@.len() == 32 by {
                let m1 = m.insert(v as int, proposals@[t]@);
                assert(self.owner.owned().contains(ids@[t]@) && m1[self.index as int] == pad_id(
                    ids@[t]@,
                ));
            }
            assert forall|val: Seq<u8>| #[trigger]
                self.cand_ok(v as int, m, val) implies exists|t: int|
                0 <= t < proposals@.len() && proposals@[t]@ == val by {
                let m1 = m.insert(v as int, val);
                let id = choose|id: Seq<u8>| #[trigger]
                    self.owner.owned().contains(id) && m1[self.index as int] == pad_id(id);
                let t = choose|t: int| 0 <= t < ids@.len() && ids@[t]@ == id;
                assert(proposals@[t]@ == val);
            }
        }
    }

    fn confirm(&self, v: VariableId, b: &Binding, proposals: &mut Vec<Vec<u8>>) {
        let ghost m = b.as_map();
        let ghost ov = old(proposals)@.map_values(|x: Vec<u8>| x@);
        let mut out: Vec<Vec<u8>> = Vec::new();
        let mut i: usize = 0;
        proof {
            reveal(Seq::filter);
            assert(ov.take(0) =~= Seq::<Seq<u8>>::empty());
        }
        while i < proposals.len()
            invariant
                i <= proposals@.len(),
                self.inv(),
                b.inv(),
                b.as_map() == m,
                v < 256,
                self.vars().contains(v as int),
                !m.dom().contains(v as int),
                ov == proposals@.map_values(|x: Vec<u8>| x@),
                out@.map_values(|x: Vec<u8>| x@) == ov.take(i as int).filter(
                    (|s: Seq<u8>| self.cand_ok(v as int, m, s)),
                ),
            decreases proposals@.len() - i,
        {
            let keep = self.member(v, &proposals[i], Ghost(m));
            let ghost pred = |s: Seq<u8>| self.cand_ok(v as int, m, s);
            proof {
                reveal(Seq::filter);
                assert(ov.take(i as int + 1).drop_last() =~= ov.take(i as int));
                assert(ov.take(i as int + 1).last() == ov[i as int]);
                assert(ov[i as int] == proposals@[i as int]@);
            }
            if keep {
                let c = crate::trie::copy_bytes(&proposals[i]);
                out.push(c);
                proof {
                    assert(out@.map_values(|x: Vec<u8>| x@) =~= ov.take(i as int + 1).filter(pred));
                }
            } else {
                proof {
                    assert(out@.map_values(|x: Vec<u8>| x@) =~= ov.take(i as int + 1).filter(pred));
                }
            }
            i = i + 1;
        }
        proof {
            assert(ov.take(ov.len() as int) =~= ov);
        }
        *proposals = out;
        proof {
            assert((|s: Seq<u8>| self.cand_ok(v as int, m, s)) =~= (
            |s: Seq<u8>| self.cand_ok(v as int, b.as_map(), s)));
        }
    }
}

impl<'a> OwnedConstraint<'a> {
    /// Is `val` an owned identifier in slot form?
    fn member(&self, v: VariableId, val: &Vec<u8>, Ghost(m): Ghost<Map<int, Seq<u8>>>) -> (r: bool)
        requires
            self.inv(),
            v < 256,
            self.vars().contains(v as int),
            !m.dom().contains(v as int),
        ensures
            r == self.cand_ok(v as int, m, val@),
    {
        let ghost m1 = m.insert(v as int, val@);
        proof {
            self.owner.lemma_shape();
        }
        if val.len() != 32 {
            proof {
                if self.ok(m1) {
                    let id = choose|id: Seq<u8>| #[trigger]
                        self.owner.owned().contains(id) && m1[self.index as int] == pad_id(id);
                }
            }
            return false;
        }
        match id_from_value(val) {
            Some(id) => {
                let r = self.owner.ids.contains(&id);
                proof {
                    if r {
                        assert(self.owner.owned().contains(id@) && m1[self.index as int] == pad_id(
                            id@,
                        ));
                    }
                    if self.ok(m1) {
                        let w = choose|w: Seq<u8>| #[trigger]
                            self.owner.owned().contains(w) && m1[self.index as int] == pad_id(w);
                        lemma_pad_id_injective(w, id@);
                    }
                }
                r
            },
            None => {
                proof {
                    if self.ok(m1) {
                        let w = choose|w: Seq<u8>| #[trigger]
                            self.owner.owned().contains(w) && m1[self.index as int] == pad_id(w);
                    }
                }
                false
            },
        }
    }
}

} // verus!
