//! The triple-pattern constraint: three variables (or bound values) over
//! entity, attribute and value, backed by a triple index.  For every one
//! of the eight binding patterns it answers estimates, proposals and
//! confirmations through the ordering of the index made for that pattern,
//! and each answer is exact with respect to the triples held.

use vstd::prelude::*;
use vstd::relations::injective_on;
use vstd::set_lib::lemma_map_size;
use crate::bitset::ByteBitset;
use crate::hashtribleset::HashTribleSet;
use crate::hashtribleset::concat;
use crate::hashtribleset::key_eav;
use crate::hashtribleset::part_a;
use crate::hashtribleset::part_e;
use crate::hashtribleset::part_v;
use crate::hashtribleset::reorder_ae;
use crate::hashtribleset::reorder_av;
use crate::hashtribleset::reorder_ea;
use crate::hashtribleset::reorder_ev;
use crate::hashtribleset::reorder_va;
use crate::hashtribleset::reorder_ve;
use crate::hashtribleset::reorder_ave;
use crate::hashtribleset::reorder_eva;
use crate::query::Binding;
use crate::query::Constraint;
use crate::query::Variable;
use crate::query::VariableId;
use crate::schemas::GenId;
use crate::schemas::ValueSchema;
use crate::trible::pad_id;
use crate::trible::lemma_pad_id_injective;
use crate::trible::id_from_value;
use crate::trible::id_into_value;
use crate::trie::prefixed;

verus! {

/// Does assignment `m` pin position `idx` to the field value `fv`?  An
/// unbound position matches anything.
pub open spec fn field_ok(m: Map<int, Seq<u8>>, idx: int, fv: Seq<u8>) -> bool {
    m.dom().contains(idx) ==> m[idx] == fv
}

/// Splitting a concatenation of known widths recovers the parts.
pub(crate) proof fn lemma_concat_inj(a1: Seq<u8>, b1: Seq<u8>, a2: Seq<u8>, b2: Seq<u8>)
    requires
        a1.len() == a2.len(),
        a1 + b1 == a2 + b2,
    ensures
        a1 == a2,
        b1 == b2,
{
    assert(a1 =~= (a1 + b1).take(a1.len() as int));
    assert(a2 =~= (a2 + b2).take(a2.len() as int));
    assert(b1 =~= (a1 + b1).skip(a1.len() as int));
    assert(b2 =~= (a2 + b2).skip(a2.len() as int));
}

/// Every triple held has 16-byte identifiers and a 32-byte value, and its
/// canonical key is in the raw set.
pub proof fn lemma_trible_lens(s: &HashTribleSet)
    requires
        s.wf(),
    ensures
        forall|t: (Seq<u8>, Seq<u8>, Seq<u8>)| #[trigger]
            s.tribles().contains(t) ==> t.0.len() == 16 && t.1.len() == 16 && t.2.len() == 32
                && s.raw().contains(key_eav(t.0, t.1, t.2)),
{
    s.lemma_shape();
    assert forall|t: (Seq<u8>, Seq<u8>, Seq<u8>)| #[trigger]
        s.tribles().contains(t) implies t.0.len() == 16 && t.1.len() == 16 && t.2.len() == 32
        && s.raw().contains(key_eav(t.0, t.1, t.2)) by {
        let k = choose|k: Seq<u8>|
            s.raw().contains(k) && (part_e(k), part_a(k), part_v(k)) == t;
        assert(k =~= key_eav(t.0, t.1, t.2));
    }
}

/// The triple-pattern constraint over a triple index.
pub struct HashTribleSetConstraint<'a> {
    variable_e: VariableId,
    variable_a: VariableId,
    variable_v: VariableId,
    set: &'a HashTribleSet,
}

impl<'a> HashTribleSetConstraint<'a> {
    /// The variable indices for the three positions.
    pub closed spec fn ve(&self) -> int {
        self.variable_e as int
    }

    pub closed spec fn va(&self) -> int {
        self.variable_a as int
    }

    pub closed spec fn vv(&self) -> int {
        self.variable_v as int
    }

    /// The index the pattern runs against.
    pub closed spec fn index_set(&self) -> HashTribleSet {
        *self.set
    }

    pub fn new<V: ValueSchema>(
        variable_e: Variable<GenId>,
        variable_a: Variable<GenId>,
        variable_v: Variable<V>,
        set: &'a HashTribleSet,
    ) -> (r: HashTribleSetConstraint<'a>)
        requires
            variable_e.index < 256,
            variable_a.index < 256,
            variable_v.index < 256,
            variable_e.index != variable_a.index,
            variable_e.index != variable_v.index,
            variable_a.index != variable_v.index,
            set.wf(),
        ensures
            r.inv(),
            r.ve() == variable_e.index,
            r.va() == variable_a.index,
            r.vv() == variable_v.index,
            r.index_set() == *set,
            r.vars() == Set::<int>::empty().insert(variable_e.index as int).insert(
                variable_a.index as int,
            ).insert(variable_v.index as int),
    {
        let r = HashTribleSetConstraint {
            variable_e: variable_e.index,
            variable_a: variable_a.index,
            variable_v: variable_v.index,
            set,
        };
        proof {
            assert(r.vars() =~= Set::<int>::empty().insert(variable_e.index as int).insert(
                variable_a.index as int,
            ).insert(variable_v.index as int));
        }
        r
    }

    /// What a candidate decision means: `val` is a candidate for `v`
    /// exactly when the assignment extended by it is consistent.
    pub proof fn lemma_cand_ok_meaning(&self, v: int, m: Map<int, Seq<u8>>, val: Seq<u8>)
        ensures
            self.cand_ok(v, m, val) == self.ok(m.insert(v, val)),
    {
    }

    /// What the estimate reports: exactly the number of candidates.
    pub proof fn lemma_est_meaning(&self, v: int, m: Map<int, Seq<u8>>)
        ensures
            self.est(v, m) == Set::new(|val: Seq<u8>| self.cand_ok(v, m, val)).len(),
    {
    }

    /// Decide one candidate: is `val` for variable `v` consistent with the
    /// bound positions and the triples held?
    fn check(&self, v: VariableId, b: &Binding, val: &Vec<u8>) -> (r: bool)
        requires
            self.inv(),
            b.inv(),
            v < 256,
            self.vars().contains(v as int),
            !b.as_map().dom().contains(v as int),
        ensures
            r == self.cand_ok(v as int, b.as_map(), val@),
    {
        let ghost m1 = b.as_map().insert(v as int, val@);
        proof {
            self.set.lemma_shape();
            lemma_trible_lens(self.set);
            b.lemma_values_wide();
        }
        if val.len() != 32 {
            proof {
                if self.ok(m1) {
                    let t = choose|t: (Seq<u8>, Seq<u8>, Seq<u8>)| #[trigger]
                        self.set.tribles().contains(t) && field_ok(m1, self.ve(), pad_id(t.0))
                            && field_ok(m1, self.va(), pad_id(t.1)) && field_ok(m1, self.vv(), t.2);
                    assert(m1.dom().contains(v as int));
                    if v as int == self.ve() {
                        assert(m1[v as int] == pad_id(t.0));
                    } else if v as int == self.va() {
                        assert(m1[v as int] == pad_id(t.1));
                    } else {
                        assert(m1[v as int] == t.2);
                    }
                }
            }
            return false;
        }
        let e_det: Option<&Vec<u8>> = if v == self.variable_e {
            Some(val)
        } else {
            b.get(self.variable_e)
        };
        let a_det: Option<&Vec<u8>> = if v == self.variable_a {
            Some(val)
        } else {
            b.get(self.variable_a)
        };
        let v_det: Option<&Vec<u8>> = if v == self.variable_v {
            Some(val)
        } else {
            b.get(self.variable_v)
        };
        proof {
            assert(match e_det {
                Some(x) => m1.dom().contains(self.ve()) && x@ == m1[self.ve()],
                None => !m1.dom().contains(self.ve()),
            });
            assert(match a_det {
                Some(x) => m1.dom().contains(self.va()) && x@ == m1[self.va()],
                None => !m1.dom().contains(self.va()),
            });
            assert(match v_det {
                Some(x) => m1.dom().contains(self.vv()) && x@ == m1[self.vv()],
                None => !m1.dom().contains(self.vv()),
            });
        }
        let r = self.lookup(e_det, a_det, v_det, Ghost(m1));
        r
    }

    /// Look the determined positions up in the ordering made for them.
    fn lookup(
        &self,
        e_det: Option<&Vec<u8>>,
        a_det: Option<&Vec<u8>>,
        v_det: Option<&Vec<u8>>,
        Ghost(m1): Ghost<Map<int, Seq<u8>>>,
    ) -> (r: bool)
        requires
            self.inv(),
            match e_det {
                Some(x) => m1.dom().contains(self.ve()) && x@ == m1[self.ve()] && x@.len() == 32,
                None => !m1.dom().contains(self.ve()),
            },
            match a_det {
                Some(x) => m1.dom().contains(self.va()) && x@ == m1[self.va()] && x@.len() == 32,
                None => !m1.dom().contains(self.va()),
            },
            match v_det {
                Some(x) => m1.dom().contains(self.vv()) && x@ == m1[self.vv()] && x@.len() == 32,
                None => !m1.dom().contains(self.vv()),
            },
            e_det is Some || a_det is Some || v_det is Some,
        ensures
            r == self.ok(m1),
    {
        proof {
            self.set.lemma_shape();
            lemma_trible_lens(self.set);
        }
        let eid = match e_det {
            Some(x) => match id_from_value(x) {
                Some(id) => Some(id),
                None => {
                    proof {
                        self.lemma_no_match(m1);
                    }
                    return false;
                },
            },
            None => None,
        };
        let aid = match a_det {
            Some(x) => match id_from_value(x) {
                Some(id) => Some(id),
                None => {
                    proof {
                        self.lemma_no_match(m1);
                    }
                    return false;
                },
            },
            None => None,
        };
        match (eid, aid, v_det) {
            (Some(ei), None, None) => {
                let r = self.set.e.contains(&ei);
                proof {
                    self.lemma_lookup_e(m1, ei@);
                }
                r
            },
            (None, Some(ai), None) => {
                let r = self.set.a.contains(&ai);
                proof {
                    self.lemma_lookup_a(m1, ai@);
                }
                r
            },
            (None, None, Some(vx)) => {
                let vc = crate::trie::copy_bytes(vx);
                let r = self.set.v.contains(&vc);
                proof {
                    self.lemma_lookup_v(m1, vc@);
                }
                r
            },
            (Some(ei), Some(ai), None) => {
                let k = concat(&ei, &ai);
                let r = self.set.ea.contains(&k);
                proof {
                    self.lemma_lookup_ea(m1, ei@, ai@);
                }
                r
            },
            (Some(ei), None, Some(vx)) => {
                let k = concat(&ei, vx);
                let r = self.set.ev.contains(&k);
                proof {
                    self.lemma_lookup_ev(m1, ei@, vx@);
                }
                r
            },
            (None, Some(ai), Some(vx)) => {
                let k = concat(&ai, vx);
                let r = self.set.av.contains(&k);
                proof {
                    self.lemma_lookup_av(m1, ai@, vx@);
                }
                r
            },
            (Some(ei), Some(ai), Some(vx)) => {
                let k0 = concat(&ei, &ai);
                let k = concat(&k0, vx);
                let r = self.set.eav.contains(&k);
                proof {
                    assert(k@ == key_eav(ei@, ai@, vx@));
                    self.lemma_lookup_eav(m1, ei@, ai@, vx@);
                }
                r
            },
            (None, None, None) => {
                proof {
                    assert(false);
                }
                false
            },
        }
    }

    /// A determined identifier position whose slot does not embed an
    /// identifier matches no triple.
    proof fn lemma_no_match(&self, m1: Map<int, Seq<u8>>)
        requires
            self.inv(),
            (m1.dom().contains(self.ve()) && forall|s: Seq<u8>| m1[self.ve()] != pad_id(s)) || (
            m1.dom().contains(self.va()) && forall|s: Seq<u8>| m1[self.va()] != pad_id(s)),
        ensures
            !self.ok(m1),
    {
        if self.ok(m1) {
            let t = self.ok_witness(m1);
        }
    }

    /// The matching triple behind a satisfied pattern.
    proof fn ok_witness(&self, m1: Map<int, Seq<u8>>) -> (t: (Seq<u8>, Seq<u8>, Seq<u8>))
        requires
            self.inv(),
            self.ok(m1),
        ensures
            self.set.tribles().contains(t),
            field_ok(m1, self.ve(), pad_id(t.0)),
            field_ok(m1, self.va(), pad_id(t.1)),
            field_ok(m1, self.vv(), t.2),
            t.0.len() == 16,
            t.1.len() == 16,
            t.2.len() == 32,
            self.set.raw().contains(key_eav(t.0, t.1, t.2)),
    {
        lemma_trible_lens(self.set);
        let t = choose|t: (Seq<u8>, Seq<u8>, Seq<u8>)| #[trigger]
            self.set.tribles().contains(t) && field_ok(m1, self.ve(), pad_id(t.0)) && field_ok(
                m1,
                self.va(),
                pad_id(t.1),
            ) && field_ok(m1, self.vv(), t.2);
        t
    }

    /// A canonical key whose triple matches the determined positions.
    proof fn ok_intro(&self, m1: Map<int, Seq<u8>>, k: Seq<u8>)
        requires
            self.inv(),
            self.set.raw().contains(k),
            m1.dom().contains(self.ve()) ==> m1[self.ve()] == pad_id(part_e(k)),
            m1.dom().contains(self.va()) ==> m1[self.va()] == pad_id(part_a(k)),
            m1.dom().contains(self.vv()) ==> m1[self.vv()] == part_v(k),
        ensures
            self.ok(m1),
    {
        let t = (part_e(k), part_a(k), part_v(k));
        assert(self.set.tribles().contains(t));
    }

    proof fn lemma_lookup_e(&self, m1: Map<int, Seq<u8>>, ei: Seq<u8>)
        requires
            self.inv(),
            ei.len() == 16,
            m1.dom().contains(self.ve()),
            m1[self.ve()] == pad_id(ei),
            !m1.dom().contains(self.va()),
            !m1.dom().contains(self.vv()),
        ensures
            self.set.e@.contains(ei) == self.ok(m1),
    {
        self.set.lemma_shape();
        lemma_trible_lens(self.set);
        if self.set.e@.contains(ei) {
            let k = choose|k: Seq<u8>| self.set.raw().contains(k) && ei == part_e(k);
            self.ok_intro(m1, k);
        }
        if self.ok(m1) {
            let t = self.ok_witness(m1);
            lemma_pad_id_injective(t.0, ei);
            assert(self.set.e@.contains(part_e(key_eav(t.0, t.1, t.2))));
            assert(part_e(key_eav(t.0, t.1, t.2)) =~= t.0);
        }
    }

    proof fn lemma_lookup_a(&self, m1: Map<int, Seq<u8>>, ai: Seq<u8>)
        requires
            self.inv(),
            ai.len() == 16,
            m1.dom().contains(self.va()),
            m1[self.va()] == pad_id(ai),
            !m1.dom().contains(self.ve()),
            !m1.dom().contains(self.vv()),
        ensures
            self.set.a@.contains(ai) == self.ok(m1),
    {
        self.set.lemma_shape();
        lemma_trible_lens(self.set);
        if self.set.a@.contains(ai) {
            let k = choose|k: Seq<u8>| self.set.raw().contains(k) && ai == part_a(k);
            self.ok_intro(m1, k);
        }
        if self.ok(m1) {
            let t = self.ok_witness(m1);
            lemma_pad_id_injective(t.1, ai);
            assert(self.set.a@.contains(part_a(key_eav(t.0, t.1, t.2))));
            assert(part_a(key_eav(t.0, t.1, t.2)) =~= t.1);
        }
    }

    proof fn lemma_lookup_v(&self, m1: Map<int, Seq<u8>>, vx: Seq<u8>)
        requires
            self.inv(),
            vx.len() == 32,
            m1.dom().contains(self.vv()),
            m1[self.vv()] == vx,
            !m1.dom().contains(self.ve()),
            !m1.dom().contains(self.va()),
        ensures
            self.set.v@.contains(vx) == self.ok(m1),
    {
        self.set.lemma_shape();
        lemma_trible_lens(self.set);
        if self.set.v@.contains(vx) {
            let k = choose|k: Seq<u8>| self.set.raw().contains(k) && vx == part_v(k);
            self.ok_intro(m1, k);
        }
        if self.ok(m1) {
            let t = self.ok_witness(m1);
            assert(self.set.v@.contains(part_v(key_eav(t.0, t.1, t.2))));
            assert(part_v(key_eav(t.0, t.1, t.2)) =~= t.2);
        }
    }

    proof fn lemma_lookup_ea(&self, m1: Map<int, Seq<u8>>, ei: Seq<u8>, ai: Seq<u8>)
        requires
            self.inv(),
            ei.len() == 16,
            ai.len() == 16,
            m1.dom().contains(self.ve()),
            m1[self.ve()] == pad_id(ei),
            m1.dom().contains(self.va()),
            m1[self.va()] == pad_id(ai),
            !m1.dom().contains(self.vv()),
        ensures
            self.set.ea@.contains(ei + ai) == self.ok(m1),
    {
        self.set.lemma_shape();
        lemma_trible_lens(self.set);
        if self.set.ea@.contains(ei + ai) {
            let k = choose|k: Seq<u8>| self.set.raw().contains(k) && ei + ai == reorder_ea(k);
            lemma_concat_inj(ei, ai, part_e(k), part_a(k));
            self.ok_intro(m1, k);
        }
        if self.ok(m1) {
            let t = self.ok_witness(m1);
            lemma_pad_id_injective(t.0, ei);
            lemma_pad_id_injective(t.1, ai);
            assert(self.set.ea@.contains(reorder_ea(key_eav(t.0, t.1, t.2))));
            assert(part_e(key_eav(t.0, t.1, t.2)) =~= t.0);
            assert(part_a(key_eav(t.0, t.1, t.2)) =~= t.1);
        }
    }

    proof fn lemma_lookup_ev(&self, m1: Map<int, Seq<u8>>, ei: Seq<u8>, vx: Seq<u8>)
        requires
            self.inv(),
            ei.len() == 16,
            vx.len() == 32,
            m1.dom().contains(self.ve()),
            m1[self.ve()] == pad_id(ei),
            m1.dom().contains(self.vv()),
            m1[self.vv()] == vx,
            !m1.dom().contains(self.va()),
        ensures
            self.set.ev@.contains(ei + vx) == self.ok(m1),
    {
        self.set.lemma_shape();
        lemma_trible_lens(self.set);
        if self.set.ev@.contains(ei + vx) {
            let k = choose|k: Seq<u8>| self.set.raw().contains(k) && ei + vx == reorder_ev(k);
            lemma_concat_inj(ei, vx, part_e(k), part_v(k));
            self.ok_intro(m1, k);
        }
        if self.ok(m1) {
            let t = self.ok_witness(m1);
            lemma_pad_id_injective(t.0, ei);
            assert(self.set.ev@.contains(reorder_ev(key_eav(t.0, t.1, t.2))));
            assert(part_e(key_eav(t.0, t.1, t.2)) =~= t.0);
            assert(part_v(key_eav(t.0, t.1, t.2)) =~= t.2);
        }
    }

    proof fn lemma_lookup_av(&self, m1: Map<int, Seq<u8>>, ai: Seq<u8>, vx: Seq<u8>)
        requires
            self.inv(),
            ai.len() == 16,
            vx.len() == 32,
            m1.dom().contains(self.va()),
            m1[self.va()] == pad_id(ai),
            m1.dom().contains(self.vv()),
            m1[self.vv()] == vx,
            !m1.dom().contains(self.ve()),
        ensures
            self.set.av@.contains(ai + vx) == self.ok(m1),
    {
        self.set.lemma_shape();
        lemma_trible_lens(self.set);
        if self.set.av@.contains(ai + vx) {
            let k = choose|k: Seq<u8>| self.set.raw().contains(k) && ai + vx == reorder_av(k);
            lemma_concat_inj(ai, vx, part_a(k), part_v(k));
            self.ok_intro(m1, k);
        }
        if self.ok(m1) {
            let t = self.ok_witness(m1);
            lemma_pad_id_injective(t.1, ai);
            assert(self.set.av@.contains(reorder_av(key_eav(t.0, t.1, t.2))));
            assert(part_a(key_eav(t.0, t.1, t.2)) =~= t.1);
            assert(part_v(key_eav(t.0, t.1, t.2)) =~= t.2);
        }
    }

    proof fn lemma_lookup_eav(&self, m1: Map<int, Seq<u8>>, ei: Seq<u8>, ai: Seq<u8>, vx: Seq<u8>)
        requires
            self.inv(),
            ei.len() == 16,
            ai.len() == 16,
            vx.len() == 32,
            m1.dom().contains(self.ve()),
            m1[self.ve()] == pad_id(ei),
            m1.dom().contains(self.va()),
            m1[self.va()] == pad_id(ai),
            m1.dom().contains(self.vv()),
            m1[self.vv()] == vx,
        ensures
            self.set.raw().contains(key_eav(ei, ai, vx)) == self.ok(m1),
    {
        self.set.lemma_shape();
        lemma_trible_lens(self.set);
        if self.set.raw().contains(key_eav(ei, ai, vx)) {
            let k = key_eav(ei, ai, vx);
            assert(part_e(k) =~= ei);
            assert(part_a(k) =~= ai);
            assert(part_v(k) =~= vx);
            self.ok_intro(m1, k);
        }
        if self.ok(m1) {
            let t = self.ok_witness(m1);
            lemma_pad_id_injective(t.0, ei);
            lemma_pad_id_injective(t.1, ai);
        }
    }
}



impl<'a> HashTribleSetConstraint<'a> {
    /// Candidates for the entity variable are exactly the continuations of
    /// the bound positions in the ordering made for this pattern.
    proof fn char_e(
        &self,
        m: Map<int, Seq<u8>>,
        a_det: Option<Seq<u8>>,
        v_det: Option<Seq<u8>>,
        x: Set<Seq<u8>>,
        prefix: Seq<u8>,
    )
        requires
            self.inv(),
            !m.dom().contains(self.ve()),
            match a_det {
                Some(ai) => ai.len() == 16 && m.dom().contains(self.va()) && m[self.va()]
                    == pad_id(ai),
                None => !m.dom().contains(self.va()),
            },
            match v_det {
                Some(vx) => vx.len() == 32 && m.dom().contains(self.vv()) && m[self.vv()] == vx,
                None => !m.dom().contains(self.vv()),
            },
            match (a_det, v_det) {
                (None, None) => x == self.set.e@ && prefix == Seq::<u8>::empty(),
                (Some(ai), None) => x == self.set.ae@ && prefix == ai,
                (None, Some(vx)) => x == self.set.ve@ && prefix == vx,
                (Some(ai), Some(vx)) => x == self.set.ave@ && prefix == ai + vx,
            },
        ensures
            forall|val: Seq<u8>| #[trigger]
                self.cand_ok(self.ve(), m, val) ==> exists|suf: Seq<u8>|
                    suf.len() == 16 && #[trigger] x.contains(prefix + suf) && val == pad_id(suf),
            forall|suf: Seq<u8>|
                #[trigger] x.contains(prefix + suf) && suf.len() == 16 ==> self.cand_ok(
                    self.ve(),
                    m,
                    pad_id(suf),
                ),
    {
        self.set.lemma_shape();
        lemma_trible_lens(self.set);
        assert forall|val: Seq<u8>| #[trigger]
            self.cand_ok(self.ve(), m, val) implies exists|suf: Seq<u8>|
            suf.len() == 16 && #[trigger] x.contains(prefix + suf) && val == pad_id(suf) by {
            let m1 = m.insert(self.ve(), val);
            let t = self.ok_witness(m1);
            let k0 = key_eav(t.0, t.1, t.2);
            assert(part_e(k0) =~= t.0);
            assert(part_a(k0) =~= t.1);
            assert(part_v(k0) =~= t.2);
            if a_det is Some {
                lemma_pad_id_injective(t.1, a_det->0);
            }
            match (a_det, v_det) {
                (None, None) => {
                    assert(x.contains(part_e(k0)));
                    assert(prefix + t.0 =~= t.0);
                },
                (Some(ai), None) => {
                    assert(x.contains(reorder_ae(k0)));
                    assert(reorder_ae(k0) == prefix + t.0);
                },
                (None, Some(vx)) => {
                    assert(x.contains(reorder_ve(k0)));
                    assert(reorder_ve(k0) == prefix + t.0);
                },
                (Some(ai), Some(vx)) => {
                    assert(x.contains(reorder_ave(k0)));
                    assert(reorder_ave(k0) == prefix + t.0);
                },
            }
            assert(x.contains(prefix + t.0) && val == pad_id(t.0));
        }
        assert forall|suf: Seq<u8>|
            #[trigger] x.contains(prefix + suf) && suf.len() == 16 implies self.cand_ok(
            self.ve(),
            m,
            pad_id(suf),
        ) by {
            let m1 = m.insert(self.ve(), pad_id(suf));
            match (a_det, v_det) {
                (None, None) => {
                    let k0 = choose|k0: Seq<u8>|
                        self.set.raw().contains(k0) && prefix + suf == part_e(k0);
                    assert(prefix + suf =~= suf);
                    self.ok_intro(m1, k0);
                },
                (Some(ai), None) => {
                    let k0 = choose|k0: Seq<u8>|
                        self.set.raw().contains(k0) && prefix + suf == reorder_ae(k0);
                    lemma_concat_inj(ai, suf, part_a(k0), part_e(k0));
                    self.ok_intro(m1, k0);
                },
                (None, Some(vx)) => {
                    let k0 = choose|k0: Seq<u8>|
                        self.set.raw().contains(k0) && prefix + suf == reorder_ve(k0);
                    lemma_concat_inj(vx, suf, part_v(k0), part_e(k0));
                    self.ok_intro(m1, k0);
                },
                (Some(ai), Some(vx)) => {
                    let k0 = choose|k0: Seq<u8>|
                        self.set.raw().contains(k0) && prefix + suf == reorder_ave(k0);
                    assert(prefix + suf =~= (part_a(k0) + part_v(k0)) + part_e(k0));
                    lemma_concat_inj(ai + vx, suf, part_a(k0) + part_v(k0), part_e(k0));
                    lemma_concat_inj(ai, vx, part_a(k0), part_v(k0));
                    self.ok_intro(m1, k0);
                },
            }
        }
    }

    /// Candidates for the attribute variable, likewise.
    proof fn char_a(
        &self,
        m: Map<int, Seq<u8>>,
        e_det: Option<Seq<u8>>,
        v_det: Option<Seq<u8>>,
        x: Set<Seq<u8>>,
        prefix: Seq<u8>,
    )
        requires
            self.inv(),
            !m.dom().contains(self.va()),
            match e_det {
                Some(ei) => ei.len() == 16 && m.dom().contains(self.ve()) && m[self.ve()]
                    == pad_id(ei),
                None => !m.dom().contains(self.ve()),
            },
            match v_det {
                Some(vx) => vx.len() == 32 && m.dom().contains(self.vv()) && m[self.vv()] == vx,
                None => !m.dom().contains(self.vv()),
            },
            match (e_det, v_det) {
                (None, None) => x == self.set.a@ && prefix == Seq::<u8>::empty(),
                (Some(ei), None) => x == self.set.ea@ && prefix == ei,
                (None, Some(vx)) => x == self.set.va@ && prefix == vx,
                (Some(ei), Some(vx)) => x == self.set.eva@ && prefix == ei + vx,
            },
        ensures
            forall|val: Seq<u8>| #[trigger]
                self.cand_ok(self.va(), m, val) ==> exists|suf: Seq<u8>|
                    suf.len() == 16 && #[trigger] x.contains(prefix + suf) && val == pad_id(suf),
            forall|suf: Seq<u8>|
                #[trigger] x.contains(prefix + suf) && suf.len() == 16 ==> self.cand_ok(
                    self.va(),
                    m,
                    pad_id(suf),
                ),
    {
        self.set.lemma_shape();
        lemma_trible_lens(self.set);
        assert forall|val: Seq<u8>| #[trigger]
            self.cand_ok(self.va(), m, val) implies exists|suf: Seq<u8>|
            suf.len() == 16 && #[trigger] x.contains(prefix + suf) && val == pad_id(suf) by {
            let m1 = m.insert(self.va(), val);
            let t = self.ok_witness(m1);
            let k0 = key_eav(t.0, t.1, t.2);
            assert(part_e(k0) =~= t.0);
            assert(part_a(k0) =~= t.1);
            assert(part_v(k0) =~= t.2);
            if e_det is Some {
                lemma_pad_id_injective(t.0, e_det->0);
            }
            match (e_det, v_det) {
                (None, None) => {
                    assert(x.contains(part_a(k0)));
                    assert(prefix + t.1 =~= t.1);
                },
                (Some(ei), None) => {
                    assert(x.contains(reorder_ea(k0)));
                    assert(reorder_ea(k0) == prefix + t.1);
                },
                (None, Some(vx)) => {
                    assert(x.contains(reorder_va(k0)));
                    assert(reorder_va(k0) == prefix + t.1);
                },
                (Some(ei), Some(vx)) => {
                    assert(x.contains(reorder_eva(k0)));
                    assert(reorder_eva(k0) == prefix + t.1);
                },
            }
            assert(x.contains(prefix + t.1) && val == pad_id(t.1));
        }
        assert forall|suf: Seq<u8>|
            #[trigger] x.contains(prefix + suf) && suf.len() == 16 implies self.cand_ok(
            self.va(),
            m,
            pad_id(suf),
        ) by {
            let m1 = m.insert(self.va(), pad_id(suf));
            match (e_det, v_det) {
                (None, None) => {
                    let k0 = choose|k0: Seq<u8>|
                        self.set.raw().contains(k0) && prefix + suf == part_a(k0);
                    assert(prefix + suf =~= suf);
                    self.ok_intro(m1, k0);
                },
                (Some(ei), None) => {
                    let k0 = choose|k0: Seq<u8>|
                        self.set.raw().contains(k0) && prefix + suf == reorder_ea(k0);
                    lemma_concat_inj(ei, suf, part_e(k0), part_a(k0));
                    self.ok_intro(m1, k0);
                },
                (None, Some(vx)) => {
                    let k0 = choose|k0: Seq<u8>|
                        self.set.raw().contains(k0) && prefix + suf == reorder_va(k0);
                    lemma_concat_inj(vx, suf, part_v(k0), part_a(k0));
                    self.ok_intro(m1, k0);
                },
                (Some(ei), Some(vx)) => {
                    let k0 = choose|k0: Seq<u8>|
                        self.set.raw().contains(k0) && prefix + suf == reorder_eva(k0);
                    assert(prefix + suf =~= (part_e(k0) + part_v(k0)) + part_a(k0));
                    lemma_concat_inj(ei + vx, suf, part_e(k0) + part_v(k0), part_a(k0));
                    lemma_concat_inj(ei, vx, part_e(k0), part_v(k0));
                    self.ok_intro(m1, k0);
                },
            }
        }
    }

    /// Candidates for the value variable, likewise; no identifier padding.
    proof fn char_v(
        &self,
        m: Map<int, Seq<u8>>,
        e_det: Option<Seq<u8>>,
        a_det: Option<Seq<u8>>,
        x: Set<Seq<u8>>,
        prefix: Seq<u8>,
    )
        requires
            self.inv(),
            !m.dom().contains(self.vv()),
            match e_det {
                Some(ei) => ei.len() == 16 && m.dom().contains(self.ve()) && m[self.ve()]
                    == pad_id(ei),
                None => !m.dom().contains(self.ve()),
            },
            match a_det {
                Some(ai) => ai.len() == 16 && m.dom().contains(self.va()) && m[self.va()]
                    == pad_id(ai),
                None => !m.dom().contains(self.va()),
            },
            match (e_det, a_det) {
                (None, None) => x == self.set.v@ && prefix == Seq::<u8>::empty(),
                (Some(ei), None) => x == self.set.ev@ && prefix == ei,
                (None, Some(ai)) => x == self.set.av@ && prefix == ai,
                (Some(ei), Some(ai)) => x == self.set.eav@ && prefix == ei + ai,
            },
        ensures
            forall|val: Seq<u8>| #[trigger]
                self.cand_ok(self.vv(), m, val) ==> exists|suf: Seq<u8>|
                    suf.len() == 32 && #[trigger] x.contains(prefix + suf) && val == suf,
            forall|suf: Seq<u8>|
                #[trigger] x.contains(prefix + suf) && suf.len() == 32 ==> self.cand_ok(
                    self.vv(),
                    m,
                    suf,
                ),
    {
        self.set.lemma_shape();
        lemma_trible_lens(self.set);
        assert forall|val: Seq<u8>| #[trigger]
            self.cand_ok(self.vv(), m, val) implies exists|suf: Seq<u8>|
            suf.len() == 32 && #[trigger] x.contains(prefix + suf) && val == suf by {
            let m1 = m.insert(self.vv(), val);
            let t = self.ok_witness(m1);
            let k0 = key_eav(t.0, t.1, t.2);
            assert(part_e(k0) =~= t.0);
            assert(part_a(k0) =~= t.1);
            assert(part_v(k0) =~= t.2);
            if e_det is Some {
                lemma_pad_id_injective(t.0, e_det->0);
            }
            if a_det is Some {
                lemma_pad_id_injective(t.1, a_det->0);
            }
            match (e_det, a_det) {
                (None, None) => {
                    assert(x.contains(part_v(k0)));
                    assert(prefix + t.2 =~= t.2);
                },
                (Some(ei), None) => {
                    assert(x.contains(reorder_ev(k0)));
                    assert(reorder_ev(k0) == prefix + t.2);
                },
                (None, Some(ai)) => {
                    assert(x.contains(reorder_av(k0)));
                    assert(reorder_av(k0) == prefix + t.2);
                },
                (Some(ei), Some(ai)) => {
                    assert(self.set.raw().contains(k0));
                    assert(k0 == prefix + t.2);
                },
            }
            assert(x.contains(prefix + t.2) && val == t.2);
        }
        assert forall|suf: Seq<u8>|
            #[trigger] x.contains(prefix + suf) && suf.len() == 32 implies self.cand_ok(
            self.vv(),
            m,
            suf,
        ) by {
            let m1 = m.insert(self.vv(), suf);
            match (e_det, a_det) {
                (None, None) => {
                    let k0 = choose|k0: Seq<u8>|
                        self.set.raw().contains(k0) && prefix + suf == part_v(k0);
                    assert(prefix + suf =~= suf);
                    self.ok_intro(m1, k0);
                },
                (Some(ei), None) => {
                    let k0 = choose|k0: Seq<u8>|
                        self.set.raw().contains(k0) && prefix + suf == reorder_ev(k0);
                    lemma_concat_inj(ei, suf, part_e(k0), part_v(k0));
                    self.ok_intro(m1, k0);
                },
                (None, Some(ai)) => {
                    let k0 = choose|k0: Seq<u8>|
                        self.set.raw().contains(k0) && prefix + suf == reorder_av(k0);
                    lemma_concat_inj(ai, suf, part_a(k0), part_v(k0));
                    self.ok_intro(m1, k0);
                },
                (Some(ei), Some(ai)) => {
                    let k0 = prefix + suf;
                    assert(k0.len() == 64);
                    assert(part_e(k0) =~= ei);
                    assert(part_a(k0) =~= ai);
                    assert(part_v(k0) =~= suf);
                    self.ok_intro(m1, k0);
                },
            }
        }
    }

    /// From a two-sided candidate characterization, the candidates are in
    /// bijection with the prefixed bucket keys, so the bucket count is the
    /// exact candidate count.
    proof fn finish_est(
        &self,
        v: int,
        m: Map<int, Seq<u8>>,
        x: Set<Seq<u8>>,
        prefix: Seq<u8>,
        do_pad: bool,
        width: int,
    )
        requires
            prefixed(x, prefix).finite(),
            forall|k: Seq<u8>| x.contains(k) ==> k.len() == prefix.len() + width,
            forall|val: Seq<u8>| #[trigger]
                self.cand_ok(v, m, val) ==> exists|suf: Seq<u8>|
                    suf.len() == width && #[trigger] x.contains(prefix + suf) && val == (if do_pad {
                        pad_id(suf)
                    } else {
                        suf
                    }),
            forall|suf: Seq<u8>|
                #[trigger] x.contains(prefix + suf) && suf.len() == width ==> self.cand_ok(
                    v,
                    m,
                    (if do_pad {
                        pad_id(suf)
                    } else {
                        suf
                    }),
                ),
        ensures
            Set::new(|val: Seq<u8>| self.cand_ok(v, m, val)).finite(),
            Set::new(|val: Seq<u8>| self.cand_ok(v, m, val)).len() == prefixed(x, prefix).len(),
    {
        let cand = Set::new(|val: Seq<u8>| self.cand_ok(v, m, val));
        let pref = prefixed(x, prefix);
        let g = |k: Seq<u8>|
            if do_pad {
                pad_id(k.skip(prefix.len() as int))
            } else {
                k.skip(prefix.len() as int)
            };
        assert forall|val: Seq<u8>| cand.contains(val) implies pref.map(g).contains(val) by {
            let suf = choose|suf: Seq<u8>|
                suf.len() == width && #[trigger] x.contains(prefix + suf) && val == (if do_pad {
                    pad_id(suf)
                } else {
                    suf
                });
            assert(prefix.is_prefix_of(prefix + suf)) by {
                assert((prefix + suf).take(prefix.len() as int) =~= prefix);
            }
            assert(pref.contains(prefix + suf));
            assert((prefix + suf).skip(prefix.len() as int) =~= suf);
            assert(g(prefix + suf) == val);
        }
        assert forall|val: Seq<u8>| pref.map(g).contains(val) implies cand.contains(val) by {
            let k = choose|k: Seq<u8>| pref.contains(k) && val == g(k);
            let suf = k.skip(prefix.len() as int);
            assert(prefix + suf =~= k);
            assert(x.contains(prefix + suf));
            assert(suf.len() == width);
        }
        assert(cand =~= pref.map(g));
        assert(injective_on(g, pref)) by {
            assert forall|k1: Seq<u8>, k2: Seq<u8>|
                pref.contains(k1) && pref.contains(k2) && g(k1) == g(k2) implies k1 == k2 by {
                if do_pad {
                    lemma_pad_id_injective(
                        k1.skip(prefix.len() as int),
                        k2.skip(prefix.len() as int),
                    );
                }
                assert(prefix + k1.skip(prefix.len() as int) =~= k1);
                assert(prefix + k2.skip(prefix.len() as int) =~= k2);
            }
        }
        lemma_map_size(pref, cand, g);
    }

    /// From a candidate characterization and an exact suffix enumeration,
    /// the emitted candidates are exactly the candidate set.
    proof fn finish_prop(
        &self,
        v: int,
        m: Map<int, Seq<u8>>,
        x: Set<Seq<u8>>,
        prefix: Seq<u8>,
        do_pad: bool,
        width: int,
        sufs: Seq<Vec<u8>>,
        props: Seq<Vec<u8>>,
    )
        requires
            forall|val: Seq<u8>| #[trigger]
                self.cand_ok(v, m, val) ==> exists|suf: Seq<u8>|
                    suf.len() == width && #[trigger] x.contains(prefix + suf) && val == (if do_pad {
                        pad_id(suf)
                    } else {
                        suf
                    }),
            forall|suf: Seq<u8>|
                #[trigger] x.contains(prefix + suf) && suf.len() == width ==> self.cand_ok(
                    v,
                    m,
                    (if do_pad {
                        pad_id(suf)
                    } else {
                        suf
                    }),
                ),
            forall|j: int| 0 <= j < sufs.len() ==> x.contains(prefix + (#[trigger] sufs[j])@),
            forall|j: int| 0 <= j < sufs.len() ==> (#[trigger] sufs[j])@.len() == width,
            forall|k: Seq<u8>|
                x.contains(k) && prefix.is_prefix_of(k) ==> exists|j: int|
                    0 <= j < sufs.len() && (#[trigger] sufs[j])@ == k.skip(prefix.len() as int),
            props.len() == sufs.len(),
            forall|j: int|
                0 <= j < sufs.len() ==> (#[trigger] props[j])@ == (if do_pad {
                    pad_id(sufs[j]@)
                } else {
                    sufs[j]@
                }),
        ensures
            forall|i: int| 0 <= i < props.len() ==> self.cand_ok(v, m, (#[trigger] props[i])@),
            forall|val: Seq<u8>| #[trigger]
                self.cand_ok(v, m, val) ==> exists|i: int| 0 <= i < props.len() && props[i]@ == val,
    {
        assert forall|i: int| 0 <= i < props.len() implies self.cand_ok(
            v,
            m,
            (#[trigger] props[i])@,
        ) by {
            assert(x.contains(prefix + sufs[i]@) && sufs[i]@.len() == width);
        }
        assert forall|val: Seq<u8>| #[trigger] self.cand_ok(v, m, val) implies exists|i: int|
            0 <= i < props.len() && props[i]@ == val by {
            let suf = choose|suf: Seq<u8>|
                suf.len() == width && #[trigger] x.contains(prefix + suf) && val == (if do_pad {
                    pad_id(suf)
                } else {
                    suf
                });
            assert(prefix.is_prefix_of(prefix + suf)) by {
                assert((prefix + suf).take(prefix.len() as int) =~= prefix);
            }
            let j = choose|j: int|
                0 <= j < sufs.len() && (#[trigger] sufs[j])@ == (prefix + suf).skip(
                    prefix.len() as int,
                );
            assert((prefix + suf).skip(prefix.len() as int) =~= suf);
            assert(props[j]@ == val);
        }
    }

    /// With a bound identifier position holding a slot that embeds no
    /// identifier, nothing is a candidate.
    proof fn lemma_cand_empty(&self, v: int, m: Map<int, Seq<u8>>)
        requires
            self.inv(),
            !m.dom().contains(v),
            (m.dom().contains(self.ve()) && (forall|s: Seq<u8>| m[self.ve()] != pad_id(s)) && v
                != self.ve()) || (m.dom().contains(self.va()) && (forall|s: Seq<u8>|
                m[self.va()] != pad_id(s)) && v != self.va()),
        ensures
            forall|val: Seq<u8>| !(#[trigger] self.cand_ok(v, m, val)),
            Set::new(|val: Seq<u8>| self.cand_ok(v, m, val)).finite(),
            Set::new(|val: Seq<u8>| self.cand_ok(v, m, val)).len() == 0,
    {
        assert forall|val: Seq<u8>| !(#[trigger] self.cand_ok(v, m, val)) by {
            let m1 = m.insert(v, val);
            if self.ok(m1) {
                let t = self.ok_witness(m1);
            }
        }
        assert(Set::new(|val: Seq<u8>| self.cand_ok(v, m, val)) =~= Set::<Seq<u8>>::empty());
    }
}

/// Append one padded identifier candidate per suffix.
fn emit_ids(sufs: &Vec<Vec<u8>>, proposals: &mut Vec<Vec<u8>>)
    requires
        old(proposals)@.len() == 0,
        forall|j: int| 0 <= j < sufs@.len() ==> (#[trigger] sufs@[j])@.len() == 16,
        forall|j1: int, j2: int| 0 <= j1 < j2 < sufs@.len() ==> sufs@[j1]@ != sufs@[j2]@,
    ensures
        final(proposals)@.len() == sufs@.len(),
        forall|j: int|
            0 <= j < sufs@.len() ==> (#[trigger] final(proposals)@[j])@ == pad_id(sufs@[j]@)
                && final(proposals)@[j]@.len() == 32,
        forall|j1: int, j2: int|
            0 <= j1 < j2 < final(proposals)@.len() ==> final(proposals)@[j1]@
                != final(proposals)@[j2]@,
{
    let mut j: usize = 0;
    while j < sufs.len()
        invariant
            j <= sufs@.len(),
            proposals@.len() == j,
            forall|t: int| 0 <= t < sufs@.len() ==> (#[trigger] sufs@[t])@.len() == 16,
            forall|t1: int, t2: int| 0 <= t1 < t2 < sufs@.len() ==> sufs@[t1]@ != sufs@[t2]@,
            forall|t: int|
                0 <= t < j ==> (#[trigger] proposals@[t])@ == pad_id(sufs@[t]@)
                    && proposals@[t]@.len() == 32,
            forall|t1: int, t2: int|
                0 <= t1 < t2 < proposals@.len() ==> proposals@[t1]@ != proposals@[t2]@,
        decreases sufs@.len() - j,
    {
        let c = id_into_value(&sufs[j]);
        proposals.push(c);
        proof {
            assert forall|t1: int, t2: int|
                0 <= t1 < t2 < proposals@.len() implies proposals@[t1]@ != proposals@[t2]@ by {
                if t2 == proposals@.len() - 1 {
                    if proposals@[t1]@ == proposals@[t2]@ {
                        lemma_pad_id_injective(sufs@[t1]@, sufs@[t2]@);
                    }
                }
            }
        }
        j = j + 1;
    }
}

/// Append one candidate per 32-byte suffix, unchanged.
fn emit_vals(sufs: &Vec<Vec<u8>>, proposals: &mut Vec<Vec<u8>>)
    requires
        old(proposals)@.len() == 0,
        forall|j: int| 0 <= j < sufs@.len() ==> (#[trigger] sufs@[j])@.len() == 32,
        forall|j1: int, j2: int| 0 <= j1 < j2 < sufs@.len() ==> sufs@[j1]@ != sufs@[j2]@,
    ensures
        final(proposals)@.len() == sufs@.len(),
        forall|j: int|
            0 <= j < sufs@.len() ==> (#[trigger] final(proposals)@[j])@ == sufs@[j]@
                && final(proposals)@[j]@.len() == 32,
        forall|j1: int, j2: int|
            0 <= j1 < j2 < final(proposals)@.len() ==> final(proposals)@[j1]@
                != final(proposals)@[j2]@,
{
    let mut j: usize = 0;
    while j < sufs.len()
        invariant
            j <= sufs@.len(),
            proposals@.len() == j,
            forall|t: int| 0 <= t < sufs@.len() ==> (#[trigger] sufs@[t])@.len() == 32,
            forall|t1: int, t2: int| 0 <= t1 < t2 < sufs@.len() ==> sufs@[t1]@ != sufs@[t2]@,
            forall|t: int| 0 <= t < j ==> (#[trigger] proposals@[t])@ == sufs@[t]@,
        decreases sufs@.len() - j,
    {
        let c = crate::trie::copy_bytes(&sufs[j]);
        proposals.push(c);
        j = j + 1;
    }
}

impl<'a> Constraint for HashTribleSetConstraint<'a> {
    closed spec fn inv(&self) -> bool {
        &&& self.set.wf()
        &&& self.variable_e < 256
        &&& self.variable_a < 256
        &&& self.variable_v < 256
        &&& self.variable_e != self.variable_a
        &&& self.variable_e != self.variable_v
        &&& self.variable_a != self.variable_v
    }

    closed spec fn vars(&self) -> Set<int> {
        Set::empty().insert(self.ve()).insert(self.va()).insert(self.vv())
    }

    closed spec fn ok(&self, m: Map<int, Seq<u8>>) -> bool {
        exists|t: (Seq<u8>, Seq<u8>, Seq<u8>)| #[trigger]
            self.set.tribles().contains(t) && field_ok(m, self.ve(), pad_id(t.0)) && field_ok(
                m,
                self.va(),
                pad_id(t.1),
            ) && field_ok(m, self.vv(), t.2)
    }

    closed spec fn cand_ok(&self, v: int, m: Map<int, Seq<u8>>, val: Seq<u8>) -> bool {
        self.ok(m.insert(v, val))
    }

    closed spec fn sat_bound(&self, m: Map<int, Seq<u8>>) -> bool {
        self.vars().subset_of(m.dom()) ==> self.ok(m)
    }

    closed spec fn est(&self, v: int, m: Map<int, Seq<u8>>) -> nat {
        Set::new(|val: Seq<u8>| self.cand_ok(v, m, val)).len()
    }

    proof fn lemma_vars_finite(&self) {
        assert(self.vars().subset_of(vstd::set_lib::set_int_range(0, 256))) by {
            assert forall|x: int| self.vars().contains(x) implies 0 <= x < 256 by {}
        }
    }

    proof fn lemma_vacuous(&self, m: Map<int, Seq<u8>>) {
        if self.vars().subset_of(m.dom()) {
            assert(self.vars().contains(self.ve()));
            assert(m.dom().contains(self.ve()));
            assert(false);
        }
    }

    proof fn lemma_step(&self, v: int, m: Map<int, Seq<u8>>, val: Seq<u8>) {
    }

    proof fn lemma_step_outside(&self, v: int, m: Map<int, Seq<u8>>, val: Seq<u8>) {
        let m2 = m.insert(v, val);
        if self.vars().subset_of(m2.dom()) {
            assert forall|x: int| self.vars().contains(x) implies m.dom().contains(x) by {
                assert(m2.dom().contains(x));
            }
            assert(self.ok(m));
            let t = self.ok_witness(m);
            assert(self.set.tribles().contains(t) && field_ok(m2, self.ve(), pad_id(t.0))
                && field_ok(m2, self.va(), pad_id(t.1)) && field_ok(m2, self.vv(), t.2)) by {
                assert(self.vars().contains(self.ve()));
                assert(self.vars().contains(self.va()));
                assert(self.vars().contains(self.vv()));
            }
        }
    }

    proof fn lemma_final(&self, m: Map<int, Seq<u8>>) {
    }

    proof fn lemma_antitone(&self, v: int, m: Map<int, Seq<u8>>, val: Seq<u8>) {
        let m2 = m.insert(v, val);
        let t = self.ok_witness(m2);
        assert(self.set.tribles().contains(t) && field_ok(m, self.ve(), pad_id(t.0)) && field_ok(
            m,
            self.va(),
            pad_id(t.1),
        ) && field_ok(m, self.vv(), t.2)) by {
            if m.dom().contains(self.ve()) {
                assert(m2[self.ve()] == m[self.ve()]);
            }
            if m.dom().contains(self.va()) {
                assert(m2[self.va()] == m[self.va()]);
            }
            if m.dom().contains(self.vv()) {
                assert(m2[self.vv()] == m[self.vv()]);
            }
        }
    }

    proof fn lemma_complete(&self, v: int, m: Map<int, Seq<u8>>, val: Seq<u8>) {
    }

    fn variables(&self) -> (r: ByteBitset) {
        let mut r = ByteBitset::new_empty();
        r.set(self.variable_e as u8);
        r.set(self.variable_a as u8);
        r.set(self.variable_v as u8);
        proof {
            assert(r.iset() =~= self.vars());
        }
        r
    }

    fn variable(&self, v: VariableId) -> (r: bool) {
        let r = v == self.variable_e || v == self.variable_a || v == self.variable_v;
        proof {
            if r {
                assert(self.vars().contains(v as int));
            } else {
                assert(!self.vars().contains(v as int));
            }
        }
        r
    }

    fn estimate(&self, v: VariableId, b: &Binding) -> (r: usize) {
        let ghost m = b.as_map();
        proof {
            self.set.lemma_shape();
            lemma_trible_lens(self.set);
            b.lemma_values_wide();
        }
        if v == self.variable_e {
            match (b.get(self.variable_a), b.get(self.variable_v)) {
                (None, None) => {
                    let r = self.set.e.count_prefix(&Vec::new());
                    proof {
                        self.set.e.lemma_shape();
                        self.char_e(m, None, None, self.set.e@, Seq::empty());
                        self.finish_est(v as int, m, self.set.e@, Seq::empty(), true, 16);
                    }
                    r
                },
                (Some(ab), None) => {
                    match id_from_value(ab) {
                        Some(ai) => {
                            let r = self.set.ae.count_prefix(&ai);
                            proof {
                                self.set.ae.lemma_shape();
                                self.char_e(m, Some(ai@), None, self.set.ae@, ai@);
                                self.finish_est(v as int, m, self.set.ae@, ai@, true, 16);
                            }
                            r
                        },
                        None => {
                            proof {
                                self.lemma_cand_empty(v as int, m);
                            }
                            0
                        },
                    }
                },
                (None, Some(vb)) => {
                    let vc = crate::trie::copy_bytes(vb);
                    let r = self.set.ve.count_prefix(&vc);
                    proof {
                        self.set.ve.lemma_shape();
                        self.char_e(m, None, Some(vc@), self.set.ve@, vc@);
                        self.finish_est(v as int, m, self.set.ve@, vc@, true, 16);
                    }
                    r
                },
                (Some(ab), Some(vb)) => {
                    match id_from_value(ab) {
                        Some(ai) => {
                            let k = concat(&ai, vb);
                            let r = self.set.ave.count_prefix(&k);
                            proof {
                                self.set.ave.lemma_shape();
                                self.char_e(m, Some(ai@), Some(vb@), self.set.ave@, k@);
                                self.finish_est(v as int, m, self.set.ave@, k@, true, 16);
                            }
                            r
                        },
                        None => {
                            proof {
                                self.lemma_cand_empty(v as int, m);
                            }
                            0
                        },
                    }
                },
            }
        } else if v == self.variable_a {
            match (b.get(self.variable_e), b.get(self.variable_v)) {
                (None, None) => {
                    let r = self.set.a.count_prefix(&Vec::new());
                    proof {
                        self.set.a.lemma_shape();
                        self.char_a(m, None, None, self.set.a@, Seq::empty());
                        self.finish_est(v as int, m, self.set.a@, Seq::empty(), true, 16);
                    }
                    r
                },
                (Some(eb), None) => {
                    match id_from_value(eb) {
                        Some(ei) => {
                            let r = self.set.ea.count_prefix(&ei);
                            proof {
                                self.set.ea.lemma_shape();
                                self.char_a(m, Some(ei@), None, self.set.ea@, ei@);
                                self.finish_est(v as int, m, self.set.ea@, ei@, true, 16);
                            }
                            r
                        },
                        None => {
                            proof {
                                self.lemma_cand_empty(v as int, m);
                            }
                            0
                        },
                    }
                },
                (None, Some(vb)) => {
                    let vc = crate::trie::copy_bytes(vb);
                    let r = self.set.va.count_prefix(&vc);
                    proof {
                        self.set.va.lemma_shape();
                        self.char_a(m, None, Some(vc@), self.set.va@, vc@);
                        self.finish_est(v as int, m, self.set.va@, vc@, true, 16);
                    }
                    r
                },
                (Some(eb), Some(vb)) => {
                    match id_from_value(eb) {
                        Some(ei) => {
                            let k = concat(&ei, vb);
                            let r = self.set.eva.count_prefix(&k);
                            proof {
                                self.set.eva.lemma_shape();
                                self.char_a(m, Some(ei@), Some(vb@), self.set.eva@, k@);
                                self.finish_est(v as int, m, self.set.eva@, k@, true, 16);
                            }
                            r
                        },
                        None => {
                            proof {
                                self.lemma_cand_empty(v as int, m);
                            }
                            0
                        },
                    }
                },
            }
        } else {
            match (b.get(self.variable_e), b.get(self.variable_a)) {
                (None, None) => {
                    let r = self.set.v.count_prefix(&Vec::new());
                    proof {
                        self.set.v.lemma_shape();
                        self.char_v(m, None, None, self.set.v@, Seq::empty());
                        self.finish_est(v as int, m, self.set.v@, Seq::empty(), false, 32);
                    }
                    r
                },
                (Some(eb), None) => {
                    match id_from_value(eb) {
                        Some(ei) => {
                            let r = self.set.ev.count_prefix(&ei);
                            proof {
                                self.set.ev.lemma_shape();
                                self.char_v(m, Some(ei@), None, self.set.ev@, ei@);
                                self.finish_est(v as int, m, self.set.ev@, ei@, false, 32);
                            }
                            r
                        },
                        None => {
                            proof {
                                self.lemma_cand_empty(v as int, m);
                            }
                            0
                        },
                    }
                },
                (None, Some(ab)) => {
                    match id_from_value(ab) {
                        Some(ai) => {
                            let r = self.set.av.count_prefix(&ai);
                            proof {
                                self.set.av.lemma_shape();
                                self.char_v(m, None, Some(ai@), self.set.av@, ai@);
                                self.finish_est(v as int, m, self.set.av@, ai@, false, 32);
                            }
                            r
                        },
                        None => {
                            proof {
                                self.lemma_cand_empty(v as int, m);
                            }
                            0
                        },
                    }
                },
                (Some(eb), Some(ab)) => {
                    match id_from_value(eb) {
                        Some(ei) => {
                            match id_from_value(ab) {
                                Some(ai) => {
                                    let k = concat(&ei, &ai);
                                    let r = self.set.eav.count_prefix(&k);
                                    proof {
                                        self.set.eav.lemma_shape();
                                        self.char_v(m, Some(ei@), Some(ai@), self.set.eav@, k@);
                                        self.finish_est(
                                            v as int,
                                            m,
                                            self.set.eav@,
                                            k@,
                                            false,
                                            32,
                                        );
                                    }
                                    r
                                },
                                None => {
                                    proof {
                                        self.lemma_cand_empty(v as int, m);
                                    }
                                    0
                                },
                            }
                        },
                        None => {
                            proof {
                                self.lemma_cand_empty(v as int, m);
                            }
                            0
                        },
                    }
                },
            }
        }
    }

    fn propose(&self, v: VariableId, b: &Binding, proposals: &mut Vec<Vec<u8>>) {
        let ghost m = b.as_map();
        proof {
            self.set.lemma_shape();
            lemma_trible_lens(self.set);
            b.lemma_values_wide();
        }
        if v == self.variable_e {
            match (b.get(self.variable_a), b.get(self.variable_v)) {
                (None, None) => {
                    let sufs = self.set.e.suffixes(&Vec::new());
                    emit_ids(&sufs, proposals);
                    proof {
                        self.char_e(m, None, None, self.set.e@, Seq::empty());
                        self.finish_prop(
                            v as int,
                            m,
                            self.set.e@,
                            Seq::empty(),
                            true,
                            16,
                            sufs@,
                            proposals@,
                        );
                    }
                },
                (Some(ab), None) => {
                    match id_from_value(ab) {
                        Some(ai) => {
                            let sufs = self.set.ae.suffixes(&ai);
                            emit_ids(&sufs, proposals);
                            proof {
                                self.char_e(m, Some(ai@), None, self.set.ae@, ai@);
                                self.finish_prop(
                                    v as int,
                                    m,
                                    self.set.ae@,
                                    ai@,
                                    true,
                                    16,
                                    sufs@,
                                    proposals@,
                                );
                            }
                        },
                        None => {
                            proof {
                                self.lemma_cand_empty(v as int, m);
                            }
                        },
                    }
                },
                (None, Some(vb)) => {
                    let vc = crate::trie::copy_bytes(vb);
                    let sufs = self.set.ve.suffixes(&vc);
                    emit_ids(&sufs, proposals);
                    proof {
                        self.char_e(m, None, Some(vc@), self.set.ve@, vc@);
                        self.finish_prop(
                            v as int,
                            m,
                            self.set.ve@,
                            vc@,
                            true,
                            16,
                            sufs@,
                            proposals@,
                        );
                    }
                },
                (Some(ab), Some(vb)) => {
                    match id_from_value(ab) {
                        Some(ai) => {
                            let k = concat(&ai, vb);
                            let sufs = self.set.ave.suffixes(&k);
                            emit_ids(&sufs, proposals);
                            proof {
                                self.char_e(m, Some(ai@), Some(vb@), self.set.ave@, k@);
                                self.finish_prop(
                                    v as int,
                                    m,
                                    self.set.ave@,
                                    k@,
                                    true,
                                    16,
                                    sufs@,
                                    proposals@,
                                );
                            }
                        },
                        None => {
                            proof {
                                self.lemma_cand_empty(v as int, m);
                            }
                        },
                    }
                },
            }
        } else if v == self.variable_a {
            match (b.get(self.variable_e), b.get(self.variable_v)) {
                (None, None) => {
                    let sufs = self.set.a.suffixes(&Vec::new());
                    emit_ids(&sufs, proposals);
                    proof {
                        self.char_a(m, None, None, self.set.a@, Seq::empty());
                        self.finish_prop(
                            v as int,
                            m,
                            self.set.a@,
                            Seq::empty(),
                            true,
                            16,
                            sufs@,
                            proposals@,
                        );
                    }
                },
                (Some(eb), None) => {
                    match id_from_value(eb) {
                        Some(ei) => {
                            let sufs = self.set.ea.suffixes(&ei);
                            emit_ids(&sufs, proposals);
                            proof {
                                self.char_a(m, Some(ei@), None, self.set.ea@, ei@);
                                self.finish_prop(
                                    v as int,
                                    m,
                                    self.set.ea@,
                                    ei@,
                                    true,
                                    16,
                                    sufs@,
                                    proposals@,
                                );
                            }
                        },
                        None => {
                            proof {
                                self.lemma_cand_empty(v as int, m);
                            }
                        },
                    }
                },
                (None, Some(vb)) => {
                    let vc = crate::trie::copy_bytes(vb);
                    let sufs = self.set.va.suffixes(&vc);
                    emit_ids(&sufs, proposals);
                    proof {
                        self.char_a(m, None, Some(vc@), self.set.va@, vc@);
                        self.finish_prop(
                            v as int,
                            m,
                            self.set.va@,
                            vc@,
                            true,
                            16,
                            sufs@,
                            proposals@,
                        );
                    }
                },
                (Some(eb), Some(vb)) => {
                    match id_from_value(eb) {
                        Some(ei) => {
                            let k = concat(&ei, vb);
                            let sufs = self.set.eva.suffixes(&k);
                            emit_ids(&sufs, proposals);
                            proof {
                                self.char_a(m, Some(ei@), Some(vb@), self.set.eva@, k@);
                                self.finish_prop(
                                    v as int,
                                    m,
                                    self.set.eva@,
                                    k@,
                                    true,
                                    16,
                                    sufs@,
                                    proposals@,
                                );
                            }
                        },
                        None => {
                            proof {
                                self.lemma_cand_empty(v as int, m);
                            }
                        },
                    }
                },
            }
        } else {
            match (b.get(self.variable_e), b.get(self.variable_a)) {
                (None, None) => {
                    let sufs = self.set.v.suffixes(&Vec::new());
                    emit_vals(&sufs, proposals);
                    proof {
                        self.char_v(m, None, None, self.set.v@, Seq::empty());
                        self.finish_prop(
                            v as int,
                            m,
                            self.set.v@,
                            Seq::empty(),
                            false,
                            32,
                            sufs@,
                            proposals@,
                        );
                    }
                },
                (Some(eb), None) => {
                    match id_from_value(eb) {
                        Some(ei) => {
                            let sufs = self.set.ev.suffixes(&ei);
                            emit_vals(&sufs, proposals);
                            proof {
                                self.char_v(m, Some(ei@), None, self.set.ev@, ei@);
                                self.finish_prop(
                                    v as int,
                                    m,
                                    self.set.ev@,
                                    ei@,
                                    false,
                                    32,
                                    sufs@,
                                    proposals@,
                                );
                            }
                        },
                        None => {
                            proof {
                                self.lemma_cand_empty(v as int, m);
                            }
                        },
                    }
                },
                (None, Some(ab)) => {
                    match id_from_value(ab) {
                        Some(ai) => {
                            let sufs = self.set.av.suffixes(&ai);
                            emit_vals(&sufs, proposals);
                            proof {
                                self.char_v(m, None, Some(ai@), self.set.av@, ai@);
                                self.finish_prop(
                                    v as int,
                                    m,
                                    self.set.av@,
                                    ai@,
                                    false,
                                    32,
                                    sufs@,
                                    proposals@,
                                );
                            }
                        },
                        None => {
                            proof {
                                self.lemma_cand_empty(v as int, m);
                            }
                        },
                    }
                },
                (Some(eb), Some(ab)) => {
                    match id_from_value(eb) {
                        Some(ei) => {
                            match id_from_value(ab) {
                                Some(ai) => {
                                    let k = concat(&ei, &ai);
                                    let sufs = self.set.eav.suffixes(&k);
                                    emit_vals(&sufs, proposals);
                                    proof {
                                        self.char_v(m, Some(ei@), Some(ai@), self.set.eav@, k@);
                                        self.finish_prop(
                                            v as int,
                                            m,
                                            self.set.eav@,
                                            k@,
                                            false,
                                            32,
                                            sufs@,
                                            proposals@,
                                        );
                                    }
                                },
                                None => {
                                    proof {
                                        self.lemma_cand_empty(v as int, m);
                                    }
                                },
                            }
                        },
                        None => {
                            proof {
                                self.lemma_cand_empty(v as int, m);
                            }
                        },
                    }
                },
            }
        }
    }

    fn confirm(&self, v: VariableId, b: &Binding, proposals: &mut Vec<Vec<u8>>) {
        let ghost m = b.as_map();
        let ghost ov = old(proposals)@.map_values(|x: Vec<u8>| x@);
        let mut out: Vec<Vec<u8>> = Vec::new();
        let mut i: usize = 0;
        proof {
            reveal(Seq::filter);
            assert(ov.take(0) =~= Seq::<Seq<u8>>::empty());
        }
        while i < proposals.len()
            invariant
                i <= proposals@.len(),
                self.inv(),
                b.inv(),
                b.as_map() == m,
                v < 256,
                self.vars().contains(v as int),
                !m.dom().contains(v as int),
                ov == proposals@.map_values(|x: Vec<u8>| x@),
                out@.map_values(|x: Vec<u8>| x@) == ov.take(i as int).filter(
                    (|s: Seq<u8>| self.cand_ok(v as int, m, s)),
                ),
            decreases proposals@.len() - i,
        {
            let keep = self.check(v, b, &proposals[i]);
            let ghost pred = |s: Seq<u8>| self.cand_ok(v as int, m, s);
            proof {
                reveal(Seq::filter);
                assert(ov.take(i as int + 1).drop_last() =~= ov.take(i as int));
                assert(ov.take(i as int + 1).last() == ov[i as int]);
                assert(ov[i as int] == proposals@[i as int]@);
            }
            if keep {
                let c = crate::trie::copy_bytes(&proposals[i]);
                out.push(c);
                proof {
                    assert(out@.map_values(|x: Vec<u8>| x@) =~= ov.take(i as int + 1).filter(pred));
                }
            } else {
                proof {
                    assert(out@.map_values(|x: Vec<u8>| x@) =~= ov.take(i as int + 1).filter(pred));
                }
            }
            i = i + 1;
        }
        proof {
            assert(ov.take(ov.len() as int) =~= ov);
        }
        *proposals = out;
        proof {
            assert((|s: Seq<u8>| self.cand_ok(v as int, m, s)) =~= (
            |s: Seq<u8>| self.cand_ok(v as int, b.as_map(), s)));
        }
    }
}


/// Index completeness, one direction: a triple held by the index matches
/// every binding pattern that agrees with it on the bound positions.
pub proof fn lemma_pattern_match(
    c: &HashTribleSetConstraint,
    m: Map<int, Seq<u8>>,
    t: (Seq<u8>, Seq<u8>, Seq<u8>),
)
    requires
        c.inv(),
        c.index_set().tribles().contains(t),
        field_ok(m, c.ve(), pad_id(t.0)),
        field_ok(m, c.va(), pad_id(t.1)),
        field_ok(m, c.vv(), t.2),
    ensures
        c.ok(m),
{
}

/// Index completeness, the other direction: a satisfied pattern is
/// witnessed by a triple the index actually holds, agreeing on every
/// bound position.
pub proof fn lemma_pattern_witnessed(c: &HashTribleSetConstraint, m: Map<int, Seq<u8>>) -> (t: (
    Seq<u8>,
    Seq<u8>,
    Seq<u8>,
))
    requires
        c.inv(),
        c.ok(m),
    ensures
        c.index_set().tribles().contains(t),
        field_ok(m, c.ve(), pad_id(t.0)),
        field_ok(m, c.va(), pad_id(t.1)),
        field_ok(m, c.vv(), t.2),
{
    c.ok_witness(m)
}

} // verus!
