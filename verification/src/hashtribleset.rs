//! The triple index: one persistent trie per useful ordering of the
//! triple fields, kept consistent on every write, so that each of the
//! eight binding patterns of (entity, attribute, value) can be answered by
//! one prefix lookup whose cost follows the result size.

use vstd::prelude::*;
use vstd::set_lib::lemma_map_size_bound;
use crate::trie::Trie;
use crate::trible::Trible;

pub mod hashtriblesetconstraint;

verus! {

/// The canonical key of a triple: entity, attribute, value concatenated.
pub open spec fn key_eav(e: Seq<u8>, a: Seq<u8>, v: Seq<u8>) -> Seq<u8> {
    e + a + v
}

/// Field projections of a 64-byte canonical key.
pub open spec fn part_e(k: Seq<u8>) -> Seq<u8> {
    k.take(16)
}

pub open spec fn part_a(k: Seq<u8>) -> Seq<u8> {
    k.subrange(16, 32)
}

pub open spec fn part_v(k: Seq<u8>) -> Seq<u8> {
    k.skip(32)
}

/// The reorderings kept by the index, as functions of the canonical key.
pub open spec fn reorder_ea(k: Seq<u8>) -> Seq<u8> {
    part_e(k) + part_a(k)
}

pub open spec fn reorder_ae(k: Seq<u8>) -> Seq<u8> {
    part_a(k) + part_e(k)
}

pub open spec fn reorder_ev(k: Seq<u8>) -> Seq<u8> {
    part_e(k) + part_v(k)
}

pub open spec fn reorder_av(k: Seq<u8>) -> Seq<u8> {
    part_a(k) + part_v(k)
}

pub open spec fn reorder_ve(k: Seq<u8>) -> Seq<u8> {
    part_v(k) + part_e(k)
}

pub open spec fn reorder_va(k: Seq<u8>) -> Seq<u8> {
    part_v(k) + part_a(k)
}

pub open spec fn reorder_eva(k: Seq<u8>) -> Seq<u8> {
    part_e(k) + part_v(k) + part_a(k)
}

pub open spec fn reorder_ave(k: Seq<u8>) -> Seq<u8> {
    part_a(k) + part_v(k) + part_e(k)
}

/// A set of triples, indexed under every ordering the eight binding
/// patterns need.  All orderings always hold exactly the same triple set.
pub struct HashTribleSet {
    pub(crate) e: Trie,
    pub(crate) a: Trie,
    pub(crate) v: Trie,
    pub(crate) ea: Trie,
    pub(crate) ae: Trie,
    pub(crate) ev: Trie,
    pub(crate) av: Trie,
    pub(crate) ve: Trie,
    pub(crate) va: Trie,
    pub(crate) eav: Trie,
    pub(crate) eva: Trie,
    pub(crate) ave: Trie,
}

impl HashTribleSet {
    /// The canonical keys held.
    pub closed spec fn raw(&self) -> Set<Seq<u8>> {
        self.eav@
    }

    /// The triples held, as (entity, attribute, value) byte strings.
    pub open spec fn tribles(&self) -> Set<(Seq<u8>, Seq<u8>, Seq<u8>)> {
        self.raw().map(|k: Seq<u8>| (part_e(k), part_a(k), part_v(k)))
    }

    pub closed spec fn wf(&self) -> bool {
        &&& self.e.wf() && self.e.key_len() == 16
        &&& self.a.wf() && self.a.key_len() == 16
        &&& self.v.wf() && self.v.key_len() == 32
        &&& self.ea.wf() && self.ea.key_len() == 32
        &&& self.ae.wf() && self.ae.key_len() == 32
        &&& self.ev.wf() && self.ev.key_len() == 48
        &&& self.av.wf() && self.av.key_len() == 48
        &&& self.ve.wf() && self.ve.key_len() == 48
        &&& self.va.wf() && self.va.key_len() == 48
        &&& self.eav.wf() && self.eav.key_len() == 64
        &&& self.eva.wf() && self.eva.key_len() == 64
        &&& self.ave.wf() && self.ave.key_len() == 64
        &&& self.e@ == self.eav@.map(|k: Seq<u8>| part_e(k))
        &&& self.a@ == self.eav@.map(|k: Seq<u8>| part_a(k))
        &&& self.v@ == self.eav@.map(|k: Seq<u8>| part_v(k))
        &&& self.ea@ == self.eav@.map(|k: Seq<u8>| reorder_ea(k))
        &&& self.ae@ == self.eav@.map(|k: Seq<u8>| reorder_ae(k))
        &&& self.ev@ == self.eav@.map(|k: Seq<u8>| reorder_ev(k))
        &&& self.av@ == self.eav@.map(|k: Seq<u8>| reorder_av(k))
        &&& self.ve@ == self.eav@.map(|k: Seq<u8>| reorder_ve(k))
        &&& self.va@ == self.eav@.map(|k: Seq<u8>| reorder_va(k))
        &&& self.eva@ == self.eav@.map(|k: Seq<u8>| reorder_eva(k))
        &&& self.ave@ == self.eav@.map(|k: Seq<u8>| reorder_ave(k))
    }

    /// The raw key set is finite, holds 64-byte keys, and bounds every
    /// ordering's size.
    pub proof fn lemma_shape(&self)
        requires
            self.wf(),
        ensures
            self.raw().finite(),
            forall|k: Seq<u8>| self.raw().contains(k) ==> k.len() == 64,
    {
        self.eav.lemma_shape();
    }

    /// The empty index.
    pub fn new() -> (r: HashTribleSet)
        ensures
            r.wf(),
            r.raw() == Set::<Seq<u8>>::empty(),
            r.tribles() == Set::<(Seq<u8>, Seq<u8>, Seq<u8>)>::empty(),
    {
        let r = HashTribleSet {
            e: Trie::new(16),
            a: Trie::new(16),
            v: Trie::new(32),
            ea: Trie::new(32),
            ae: Trie::new(32),
            ev: Trie::new(48),
            av: Trie::new(48),
            ve: Trie::new(48),
            va: Trie::new(48),
            eav: Trie::new(64),
            eva: Trie::new(64),
            ave: Trie::new(64),
        };
        proof {
            assert(Set::<Seq<u8>>::empty().map(|k: Seq<u8>| part_e(k)) =~= Set::<Seq<u8>>::empty());
            assert(Set::<Seq<u8>>::empty().map(|k: Seq<u8>| part_a(k)) =~= Set::<Seq<u8>>::empty());
            assert(Set::<Seq<u8>>::empty().map(|k: Seq<u8>| part_v(k)) =~= Set::<Seq<u8>>::empty());
            assert(Set::<Seq<u8>>::empty().map(|k: Seq<u8>| reorder_ea(k)) =~= Set::<
                Seq<u8>,
            >::empty());
            assert(Set::<Seq<u8>>::empty().map(|k: Seq<u8>| reorder_ae(k)) =~= Set::<
                Seq<u8>,
            >::empty());
            assert(Set::<Seq<u8>>::empty().map(|k: Seq<u8>| reorder_ev(k)) =~= Set::<
                Seq<u8>,
            >::empty());
            assert(Set::<Seq<u8>>::empty().map(|k: Seq<u8>| reorder_av(k)) =~= Set::<
                Seq<u8>,
            >::empty());
            assert(Set::<Seq<u8>>::empty().map(|k: Seq<u8>| reorder_ve(k)) =~= Set::<
                Seq<u8>,
            >::empty());
            assert(Set::<Seq<u8>>::empty().map(|k: Seq<u8>| reorder_va(k)) =~= Set::<
                Seq<u8>,
            >::empty());
            assert(Set::<Seq<u8>>::empty().map(|k: Seq<u8>| reorder_eva(k)) =~= Set::<
                Seq<u8>,
            >::empty());
            assert(Set::<Seq<u8>>::empty().map(|k: Seq<u8>| reorder_ave(k)) =~= Set::<
                Seq<u8>,
            >::empty());
            assert(r.tribles() =~= Set::<(Seq<u8>, Seq<u8>, Seq<u8>)>::empty());
        }
        r
    }

    /// How many triples the index holds.
    pub fn len(&self) -> (r: usize)
        requires
            self.wf(),
        ensures
            r as nat == self.raw().len(),
    {
        self.eav.count()
    }

    /// A new index holding everything this one holds, plus the triple.
    /// Every ordering is updated; the receiver stays valid.
    pub fn insert(&self, t: &Trible) -> (r: HashTribleSet)
        requires
            self.wf(),
            t.wf(),
            self.raw().len() < usize::MAX,
        ensures
            r.wf(),
            r.raw() == self.raw().insert(key_eav(t.e_spec(), t.a_spec(), t.v_spec())),
            r.tribles() == self.tribles().insert((t.e_spec(), t.a_spec(), t.v_spec())),
    {
        broadcast use Set::lemma_set_map_insert_commute;

        proof {
            self.lemma_shape();
            lemma_order_sizes(self);
            t.lemma_field_lens();
        }
        let te = t.e();
        let ta = t.a();
        let tv = t.v();
        let k_e = crate::trie::copy_bytes(&te);
        let k_a = crate::trie::copy_bytes(&ta);
        let k_v = crate::trie::copy_bytes(&tv);
        let k_ea = concat(&te, &ta);
        let k_ae = concat(&ta, &te);
        let k_ev = concat(&te, &tv);
        let k_av = concat(&ta, &tv);
        let k_ve = concat(&tv, &te);
        let k_va = concat(&tv, &ta);
        let k_eav = concat(&k_ea, &tv);
        let k_eva = concat(&k_ev, &ta);
        let k_ave = concat(&k_av, &te);
        let ghost k64 = key_eav(t.e_spec(), t.a_spec(), t.v_spec());
        proof {
            assert(part_e(k64) =~= t.e_spec());
            assert(part_a(k64) =~= t.a_spec());
            assert(part_v(k64) =~= t.v_spec());
            assert(k_eav@ == k64);
            assert(k_eva@ =~= reorder_eva(k64));
            assert(k_ave@ =~= reorder_ave(k64));
            assert(k_ea@ =~= reorder_ea(k64));
            assert(k_ae@ =~= reorder_ae(k64));
            assert(k_ev@ =~= reorder_ev(k64));
            assert(k_av@ =~= reorder_av(k64));
            assert(k_ve@ =~= reorder_ve(k64));
            assert(k_va@ =~= reorder_va(k64));
        }
        let r = HashTribleSet {
            e: self.e.insert(&k_e),
            a: self.a.insert(&k_a),
            v: self.v.insert(&k_v),
            ea: self.ea.insert(&k_ea),
            ae: self.ae.insert(&k_ae),
            ev: self.ev.insert(&k_ev),
            av: self.av.insert(&k_av),
            ve: self.ve.insert(&k_ve),
            va: self.va.insert(&k_va),
            eav: self.eav.insert(&k_eav),
            eva: self.eva.insert(&k_eva),
            ave: self.ave.insert(&k_ave),
        };
        proof {
            assert(r.e@ =~= r.eav@.map(|k: Seq<u8>| part_e(k)));
            assert(r.a@ =~= r.eav@.map(|k: Seq<u8>| part_a(k)));
            assert(r.v@ =~= r.eav@.map(|k: Seq<u8>| part_v(k)));
            assert(r.ea@ =~= r.eav@.map(|k: Seq<u8>| reorder_ea(k)));
            assert(r.ae@ =~= r.eav@.map(|k: Seq<u8>| reorder_ae(k)));
            assert(r.ev@ =~= r.eav@.map(|k: Seq<u8>| reorder_ev(k)));
            assert(r.av@ =~= r.eav@.map(|k: Seq<u8>| reorder_av(k)));
            assert(r.ve@ =~= r.eav@.map(|k: Seq<u8>| reorder_ve(k)));
            assert(r.va@ =~= r.eav@.map(|k: Seq<u8>| reorder_va(k)));
            assert(r.eva@ =~= r.eav@.map(|k: Seq<u8>| reorder_eva(k)));
            assert(r.ave@ =~= r.eav@.map(|k: Seq<u8>| reorder_ave(k)));
            assert(r.tribles() =~= self.tribles().insert((t.e_spec(), t.a_spec(), t.v_spec())));
        }
        r
    }

    /// A new index holding the triples of both.  Every ordering is merged.
    pub fn union(&self, other: &HashTribleSet) -> (r: HashTribleSet)
        requires
            self.wf(),
            other.wf(),
            self.raw().len() + other.raw().len() <= usize::MAX,
        ensures
            r.wf(),
            r.raw() == self.raw().union(other.raw()),
            r.tribles() == self.tribles().union(other.tribles()),
    {
        proof {
            self.lemma_shape();
            other.lemma_shape();
            lemma_order_sizes(self);
            lemma_order_sizes(other);
        }
        let r = HashTribleSet {
            e: self.e.union(&other.e),
            a: self.a.union(&other.a),
            v: self.v.union(&other.v),
            ea: self.ea.union(&other.ea),
            ae: self.ae.union(&other.ae),
            ev: self.ev.union(&other.ev),
            av: self.av.union(&other.av),
            ve: self.ve.union(&other.ve),
            va: self.va.union(&other.va),
            eav: self.eav.union(&other.eav),
            eva: self.eva.union(&other.eva),
            ave: self.ave.union(&other.ave),
        };
        proof {
            self.eav@.lemma_map_union_commute(other.eav@, |k: Seq<u8>| part_e(k));
            self.eav@.lemma_map_union_commute(other.eav@, |k: Seq<u8>| part_a(k));
            self.eav@.lemma_map_union_commute(other.eav@, |k: Seq<u8>| part_v(k));
            self.eav@.lemma_map_union_commute(other.eav@, |k: Seq<u8>| reorder_ea(k));
            self.eav@.lemma_map_union_commute(other.eav@, |k: Seq<u8>| reorder_ae(k));
            self.eav@.lemma_map_union_commute(other.eav@, |k: Seq<u8>| reorder_ev(k));
            self.eav@.lemma_map_union_commute(other.eav@, |k: Seq<u8>| reorder_av(k));
            self.eav@.lemma_map_union_commute(other.eav@, |k: Seq<u8>| reorder_ve(k));
            self.eav@.lemma_map_union_commute(other.eav@, |k: Seq<u8>| reorder_va(k));
            self.eav@.lemma_map_union_commute(other.eav@, |k: Seq<u8>| reorder_eva(k));
            self.eav@.lemma_map_union_commute(other.eav@, |k: Seq<u8>| reorder_ave(k));
            self.eav@.lemma_map_union_commute(
                other.eav@,
                |k: Seq<u8>| (part_e(k), part_a(k), part_v(k)),
            );
            assert(r.tribles() =~= self.tribles().union(other.tribles()));
        }
        r
    }

    /// Is the triple in the index?
    pub fn contains(&self, t: &Trible) -> (r: bool)
        requires
            self.wf(),
            t.wf(),
        ensures
            r == self.tribles().contains((t.e_spec(), t.a_spec(), t.v_spec())),
    {
        proof {
            t.lemma_field_lens();
        }
        let te = t.e();
        let ta = t.a();
        let tv = t.v();
        let k_ea = concat(&te, &ta);
        let k = concat(&k_ea, &tv);
        let r = self.eav.contains(&k);
        proof {
            let k64 = key_eav(t.e_spec(), t.a_spec(), t.v_spec());
            assert(k@ == k64);
            lemma_trible_key(self, t.e_spec(), t.a_spec(), t.v_spec());
        }
        r
    }
}

/// Raw membership and triple membership coincide for well-formed fields.
pub proof fn lemma_trible_key(s: &HashTribleSet, e: Seq<u8>, a: Seq<u8>, v: Seq<u8>)
    requires
        s.wf(),
        e.len() == 16,
        a.len() == 16,
        v.len() == 32,
    ensures
        s.raw().contains(key_eav(e, a, v)) == s.tribles().contains((e, a, v)),
{
    s.lemma_shape();
    let k64 = key_eav(e, a, v);
    assert(part_e(k64) =~= e);
    assert(part_a(k64) =~= a);
    assert(part_v(k64) =~= v);
    if s.tribles().contains((e, a, v)) {
        let k0 = choose|k0: Seq<u8>|
            s.raw().contains(k0) && (part_e(k0), part_a(k0), part_v(k0)) == (e, a, v);
        assert(k0 =~= key_eav(e, a, v));
    }
}

/// Every ordering holds at most as many keys as there are triples.
pub(crate) proof fn lemma_order_sizes(s: &HashTribleSet)
    requires
        s.wf(),
    ensures
        s.e@.len() <= s.raw().len(),
        s.a@.len() <= s.raw().len(),
        s.v@.len() <= s.raw().len(),
        s.ea@.len() <= s.raw().len(),
        s.ae@.len() <= s.raw().len(),
        s.ev@.len() <= s.raw().len(),
        s.av@.len() <= s.raw().len(),
        s.ve@.len() <= s.raw().len(),
        s.va@.len() <= s.raw().len(),
        s.eva@.len() <= s.raw().len(),
        s.ave@.len() <= s.raw().len(),
{
    s.lemma_shape();
    lemma_map_size_bound(s.eav@, s.e@, |k: Seq<u8>| part_e(k));
    lemma_map_size_bound(s.eav@, s.a@, |k: Seq<u8>| part_a(k));
    lemma_map_size_bound(s.eav@, s.v@, |k: Seq<u8>| part_v(k));
    lemma_map_size_bound(s.eav@, s.ea@, |k: Seq<u8>| reorder_ea(k));
    lemma_map_size_bound(s.eav@, s.ae@, |k: Seq<u8>| reorder_ae(k));
    lemma_map_size_bound(s.eav@, s.ev@, |k: Seq<u8>| reorder_ev(k));
    lemma_map_size_bound(s.eav@, s.av@, |k: Seq<u8>| reorder_av(k));
    lemma_map_size_bound(s.eav@, s.ve@, |k: Seq<u8>| reorder_ve(k));
    lemma_map_size_bound(s.eav@, s.va@, |k: Seq<u8>| reorder_va(k));
    lemma_map_size_bound(s.eav@, s.eva@, |k: Seq<u8>| reorder_eva(k));
    lemma_map_size_bound(s.eav@, s.ave@, |k: Seq<u8>| reorder_ave(k));
}

/// Concatenate two byte vectors.
pub(crate) fn concat(a: &Vec<u8>, b: &Vec<u8>) -> (r: Vec<u8>)
    ensures
        r@ == a@ + b@,
{
    let mut r = crate::trie::copy_bytes(a);
    let mut i: usize = 0;
    while i < b.len()
        invariant
            i <= b@.len(),
            r@ == a@ + b@.take(i as int),
        decreases b@.len() - i,
    {
        let x = b[i];
        r.push(x);
        proof {
            assert(b@.take(i as int + 1) =~= b@.take(i as int).push(b@[i as int]));
            assert(r@ =~= a@ + b@.take(i as int + 1));
        }
        i = i + 1;
    }
    proof {
        assert(b@.take(b@.len() as int) =~= b@);
    }
    r
}

} // verus!
