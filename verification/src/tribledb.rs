//! The write capability of a triple store: extend a store by a batch of
//! triples, yielding a new store value.

use vstd::prelude::*;
use crate::hashtribleset::HashTribleSet;
use crate::trible::Trible;

verus! {

/// A store of triples that can absorb a batch of new facts.
pub trait TribleDB: Sized {
    spec fn db_wf(&self) -> bool;

    /// The triples held, as (entity, attribute, value) byte strings.
    spec fn db_tribles(&self) -> Set<(Seq<u8>, Seq<u8>, Seq<u8>)>;

    spec fn db_size(&self) -> nat;

    /// A new store holding the old triples and the batch.
    fn with(&self, tribles: &Vec<Trible>) -> (r: Self)
        requires
            self.db_wf(),
            forall|j: int| 0 <= j < tribles@.len() ==> (#[trigger] tribles@[j]).wf(),
            self.db_size() + tribles@.len() <= usize::MAX,
        ensures
            r.db_wf(),
            forall|t: (Seq<u8>, Seq<u8>, Seq<u8>)| #[trigger]
                r.db_tribles().contains(t) <==> self.db_tribles().contains(t) || exists|j: int|
                    0 <= j < tribles@.len() && ((#[trigger] tribles@[j]).e_spec(),
                    tribles@[j].a_spec(), tribles@[j].v_spec()) == t,
    ;
}

impl TribleDB for HashTribleSet {
    open spec fn db_wf(&self) -> bool {
        self.wf()
    }

    open spec fn db_tribles(&self) -> Set<(Seq<u8>, Seq<u8>, Seq<u8>)> {
        self.tribles()
    }

    open spec fn db_size(&self) -> nat {
        self.raw().len()
    }

    fn with(&self, tribles: &Vec<Trible>) -> (r: HashTribleSet) {
        proof {
            self.lemma_shape();
        }
        let mut cur = self.union(&HashTribleSet::new());
        let mut i: usize = 0;
        proof {
            assert(cur.raw() =~= self.raw());
        }
        while i < tribles.len()
            invariant
                i <= tribles@.len(),
                cur.wf(),
                self.wf(),
                self.raw().finite(),
                forall|j: int| 0 <= j < tribles@.len() ==> (#[trigger] tribles@[j]).wf(),
                self.db_size() + tribles@.len() <= usize::MAX,
                cur.raw().finite(),
                cur.raw().len() <= self.raw().len() + i,
                forall|t: (Seq<u8>, Seq<u8>, Seq<u8>)| #[trigger]
                    cur.tribles().contains(t) <==> self.tribles().contains(t) || exists|j: int|
                        0 <= j < i && ((#[trigger] tribles@[j]).e_spec(), tribles@[j].a_spec(),
                        tribles@[j].v_spec()) == t,
            decreases tribles@.len() - i,
        {
            proof {
                cur.lemma_shape();
            }
            let nxt = cur.insert(&tribles[i]);
            proof {
                vstd::set_lib::lemma_set_insert_finite_iff(
                    cur.raw(),
                    crate::hashtribleset::key_eav(
                        tribles@[i as int].e_spec(),
                        tribles@[i as int].a_spec(),
                        tribles@[i as int].v_spec(),
                    ),
                );
            }
            cur = nxt;
            proof {
                assert forall|t: (Seq<u8>, Seq<u8>, Seq<u8>)| #[trigger]
                    cur.tribles().contains(t) <==> self.tribles().contains(t) || exists|j: int|
                        0 <= j < i + 1 && ((#[trigger] tribles@[j]).e_spec(), tribles@[j].a_spec(),
                        tribles@[j].v_spec()) == t by {
                    if cur.tribles().contains(t) {
                        if t == (tribles@[i as int].e_spec(), tribles@[i as int].a_spec(),
                        tribles@[i as int].v_spec()) {
                            assert((tribles@[i as int].e_spec(), tribles@[i as int].a_spec(),
                            tribles@[i as int].v_spec()) == t);
                        }
                    }
                    if exists|j: int|
                        0 <= j < i + 1 && ((#[trigger] tribles@[j]).e_spec(),
                        tribles@[j].a_spec(), tribles@[j].v_spec()) == t {
                        let j = choose|j: int|
                            0 <= j < i + 1 && ((#[trigger] tribles@[j]).e_spec(),
                            tribles@[j].a_spec(), tribles@[j].v_spec()) == t;
                        if j < i {
                            assert(exists|j2: int|
                                0 <= j2 < i && ((#[trigger] tribles@[j2]).e_spec(),
                                tribles@[j2].a_spec(), tribles@[j2].v_spec()) == t);
                        }
                    }
                }
            }
            i = i + 1;
        }
        cur
    }
}

} // verus!
