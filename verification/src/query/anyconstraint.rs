//! A closed sum of the concrete constraint providers, so that providers
//! of different shapes can stand together in one conjunction.

use vstd::prelude::*;
use crate::bitset::ByteBitset;
use crate::hashtribleset::hashtriblesetconstraint::HashTribleSetConstraint;
use crate::id::OwnedConstraint;
use crate::query::Binding;
use crate::query::Constraint;
use crate::query::VariableId;
use crate::query::constantconstraint::ConstantConstraint;

verus! {

/// One of the concrete constraint providers.
pub enum AnyConstraint<'a> {
    /// A triple pattern over an index.
    Pattern(HashTribleSetConstraint<'a>),
    /// A variable pinned to a literal value.
    Constant(ConstantConstraint),
    /// A variable restricted to a context's owned identifiers.
    Owned(OwnedConstraint<'a>),
}

impl<'a> AnyConstraint<'a> {
    /// Every facet of the sum delegates to the wrapped provider, so query
    /// results can be interpreted through the provider's own meaning.
    pub proof fn lemma_delegates(&self, v: int, m: Map<int, Seq<u8>>, val: Seq<u8>)
        ensures
            self.vars() == (match self {
                AnyConstraint::Pattern(c) => c.vars(),
                AnyConstraint::Constant(c) => c.vars(),
                AnyConstraint::Owned(c) => c.vars(),
            }),
            self.ok(m) == (match self {
                AnyConstraint::Pattern(c) => c.ok(m),
                AnyConstraint::Constant(c) => c.ok(m),
                AnyConstraint::Owned(c) => c.ok(m),
            }),
            self.cand_ok(v, m, val) == (match self {
                AnyConstraint::Pattern(c) => c.cand_ok(v, m, val),
                AnyConstraint::Constant(c) => c.cand_ok(v, m, val),
                AnyConstraint::Owned(c) => c.cand_ok(v, m, val),
            }),
            self.est(v, m) == (match self {
                AnyConstraint::Pattern(c) => c.est(v, m),
                AnyConstraint::Constant(c) => c.est(v, m),
                AnyConstraint::Owned(c) => c.est(v, m),
            }),
    {
    }
}

impl<'a> Constraint for AnyConstraint<'a> {
    closed spec fn inv(&self) -> bool {
        match self {
            AnyConstraint::Pattern(c) => c.inv(),
            AnyConstraint::Constant(c) => c.inv(),
            AnyConstraint::Owned(c) => c.inv(),
        }
    }

    closed spec fn vars(&self) -> Set<int> {
        match self {
            AnyConstraint::Pattern(c) => c.vars(),
            AnyConstraint::Constant(c) => c.vars(),
            AnyConstraint::Owned(c) => c.vars(),
        }
    }

    closed spec fn ok(&self, m: Map<int, Seq<u8>>) -> bool {
        match self {
            AnyConstraint::Pattern(c) => c.ok(m),
            AnyConstraint::Constant(c) => c.ok(m),
            AnyConstraint::Owned(c) => c.ok(m),
        }
    }

    closed spec fn cand_ok(&self, v: int, m: Map<int, Seq<u8>>, val: Seq<u8>) -> bool {
        match self {
            AnyConstraint::Pattern(c) => c.cand_ok(v, m, val),
            AnyConstraint::Constant(c) => c.cand_ok(v, m, val),
            AnyConstraint::Owned(c) => c.cand_ok(v, m, val),
        }
    }

    closed spec fn sat_bound(&self, m: Map<int, Seq<u8>>) -> bool {
        match self {
            AnyConstraint::Pattern(c) => c.sat_bound(m),
            AnyConstraint::Constant(c) => c.sat_bound(m),
            AnyConstraint::Owned(c) => c.sat_bound(m),
        }
    }

    closed spec fn est(&self, v: int, m: Map<int, Seq<u8>>) -> nat {
        match self {
            AnyConstraint::Pattern(c) => c.est(v, m),
            AnyConstraint::Constant(c) => c.est(v, m),
            AnyConstraint::Owned(c) => c.est(v, m),
        }
    }

    proof fn lemma_vars_finite(&self) {
        match self {
            AnyConstraint::Pattern(c) => c.lemma_vars_finite(),
            AnyConstraint::Constant(c) => c.lemma_vars_finite(),
            AnyConstraint::Owned(c) => c.lemma_vars_finite(),
        }
    }

    proof fn lemma_vacuous(&self, m: Map<int, Seq<u8>>) {
        match self {
            AnyConstraint::Pattern(c) => c.lemma_vacuous(m),
            AnyConstraint::Constant(c) => c.lemma_vacuous(m),
            AnyConstraint::Owned(c) => c.lemma_vacuous(m),
        }
    }

    proof fn lemma_step(&self, v: int, m: Map<int, Seq<u8>>, val: Seq<u8>) {
        match self {
            AnyConstraint::Pattern(c) => c.lemma_step(v, m, val),
            AnyConstraint::Constant(c) => c.lemma_step(v, m, val),
            AnyConstraint::Owned(c) => c.lemma_step(v, m, val),
        }
    }

    proof fn lemma_step_outside(&self, v: int, m: Map<int, Seq<u8>>, val: Seq<u8>) {
        match self {
            AnyConstraint::Pattern(c) => c.lemma_step_outside(v, m, val),
            AnyConstraint::Constant(c) => c.lemma_step_outside(v, m, val),
            AnyConstraint::Owned(c) => c.lemma_step_outside(v, m, val),
        }
    }

    proof fn lemma_final(&self, m: Map<int, Seq<u8>>) {
        match self {
            AnyConstraint::Pattern(c) => c.lemma_final(m),
            AnyConstraint::Constant(c) => c.lemma_final(m),
            AnyConstraint::Owned(c) => c.lemma_final(m),
        }
    }

    proof fn lemma_antitone(&self, v: int, m: Map<int, Seq<u8>>, val: Seq<u8>) {
        match self {
            AnyConstraint::Pattern(c) => c.lemma_antitone(v, m, val),
            AnyConstraint::Constant(c) => c.lemma_antitone(v, m, val),
            AnyConstraint::Owned(c) => c.lemma_antitone(v, m, val),
        }
    }

    proof fn lemma_complete(&self, v: int, m: Map<int, Seq<u8>>, val: Seq<u8>) {
        match self {
            AnyConstraint::Pattern(c) => c.lemma_complete(v, m, val),
            AnyConstraint::Constant(c) => c.lemma_complete(v, m, val),
            AnyConstraint::Owned(c) => c.lemma_complete(v, m, val),
        }
    }

    fn variables(&self) -> (r: ByteBitset) {
        match self {
            AnyConstraint::Pattern(c) => c.variables(),
            AnyConstraint::Constant(c) => c.variables(),
            AnyConstraint::Owned(c) => c.variables(),
        }
    }

    fn variable(&self, v: VariableId) -> (r: bool) {
        match self {
            AnyConstraint::Pattern(c) => c.variable(v),
            AnyConstraint::Constant(c) => c.variable(v),
            AnyConstraint::Owned(c) => c.variable(v),
        }
    }

    fn estimate(&self, v: VariableId, b: &Binding) -> (r: usize) {
        let r = match self {
            AnyConstraint::Pattern(c) => c.estimate(v, b),
            AnyConstraint::Constant(c) => c.estimate(v, b),
            AnyConstraint::Owned(c) => c.estimate(v, b),
        };
        proof {
            match self {
                AnyConstraint::Pattern(c) => {
                    assert(Set::new(|val: Seq<u8>| self.cand_ok(v as int, b.as_map(), val)) =~= Set::new(
                        |val: Seq<u8>| c.cand_ok(v as int, b.as_map(), val),
                    ));
                },
                AnyConstraint::Constant(c) => {
                    assert(Set::new(|val: Seq<u8>| self.cand_ok(v as int, b.as_map(), val)) =~= Set::new(
                        |val: Seq<u8>| c.cand_ok(v as int, b.as_map(), val),
                    ));
                },
                AnyConstraint::Owned(c) => {
                    assert(Set::new(|val: Seq<u8>| self.cand_ok(v as int, b.as_map(), val)) =~= Set::new(
                        |val: Seq<u8>| c.cand_ok(v as int, b.as_map(), val),
                    ));
                },
            }
        }
        r
    }

    fn propose(&self, v: VariableId, b: &Binding, proposals: &mut Vec<Vec<u8>>) {
        match self {
            AnyConstraint::Pattern(c) => {
                c.propose(v, b, proposals);
                proof {
                    assert forall|val: Seq<u8>| #[trigger]
                        self.cand_ok(v as int, b.as_map(), val) implies exists|i: int|
                        0 <= i < proposals@.len() && proposals@[i]@ == val by {
                        assert(c.cand_ok(v as int, b.as_map(), val));
                    }
                }
            },
            AnyConstraint::Constant(c) => {
                c.propose(v, b, proposals);
                proof {
                    assert forall|val: Seq<u8>| #[trigger]
                        self.cand_ok(v as int, b.as_map(), val) implies exists|i: int|
                        0 <= i < proposals@.len() && proposals@[i]@ == val by {
                        assert(c.cand_ok(v as int, b.as_map(), val));
                    }
                }
            },
            AnyConstraint::Owned(c) => {
                c.propose(v, b, proposals);
                proof {
                    assert forall|val: Seq<u8>| #[trigger]
                        self.cand_ok(v as int, b.as_map(), val) implies exists|i: int|
                        0 <= i < proposals@.len() && proposals@[i]@ == val by {
                        assert(c.cand_ok(v as int, b.as_map(), val));
                    }
                }
            },
        }
    }

    fn confirm(&self, v: VariableId, b: &Binding, proposals: &mut Vec<Vec<u8>>) {
        let ghost ov = old(proposals)@.map_values(|x: Vec<u8>| x@);
        match self {
            AnyConstraint::Pattern(c) => {
                c.confirm(v, b, proposals);
                proof {
                    assert((|s: Seq<u8>| c.cand_ok(v as int, b.as_map(), s)) =~= (
                    |s: Seq<u8>| self.cand_ok(v as int, b.as_map(), s)));
                }
            },
            AnyConstraint::Constant(c) => {
                c.confirm(v, b, proposals);
                proof {
                    assert((|s: Seq<u8>| c.cand_ok(v as int, b.as_map(), s)) =~= (
                    |s: Seq<u8>| self.cand_ok(v as int, b.as_map(), s)));
                }
            },
            AnyConstraint::Owned(c) => {
                c.confirm(v, b, proposals);
                proof {
                    assert((|s: Seq<u8>| c.cand_ok(v as int, b.as_map(), s)) =~= (
                    |s: Seq<u8>| self.cand_ok(v as int, b.as_map(), s)));
                }
            },
        }
    }
}

} // verus!
