//! The conjunction of constraints: a binding satisfies it when it
//! satisfies every member.  For each variable it delegates proposal to the
//! member with the lowest estimate and has every other relevant member
//! confirm, which keeps the materialized candidate lists no larger than
//! the smallest member's.

use vstd::prelude::*;
use crate::bitset::ByteBitset;
use crate::query::Binding;
use crate::query::Constraint;
use crate::query::VariableId;

verus! {

pub struct IntersectionConstraint<C> {
    constraints: Vec<C>,
}

impl<C: Constraint> IntersectionConstraint<C> {
    pub fn new(constraints: Vec<C>) -> (r: IntersectionConstraint<C>)
        requires
            forall|i: int|
                0 <= i < constraints@.len() ==> (#[trigger] constraints@[i]).inv(),
        ensures
            r.inv(),
            r.members() == constraints@,
            r.vars() == Set::new(
                (|x: int|
                    exists|i: int|
                        0 <= i < constraints@.len() && (#[trigger] constraints@[i]).vars().contains(
                            x,
                        )),
            ),
    {
        let r = IntersectionConstraint { constraints };
        proof {
            assert(r.vars() =~= Set::new(
                (|x: int|
                    exists|i: int|
                        0 <= i < r.constraints@.len() && (
                        #[trigger] r.constraints@[i]).vars().contains(x)),
            ));
        }
        r
    }

    /// The member constraints, in declaration order.
    pub closed spec fn members(&self) -> Seq<C> {
        self.constraints@
    }

    /// What satisfaction means: every member is satisfied.
    pub proof fn lemma_ok_meaning(&self, m: Map<int, Seq<u8>>)
        ensures
            self.ok(m) == (forall|i: int|
                0 <= i < self.members().len() ==> (#[trigger] self.members()[i]).ok(m)),
    {
        if self.ok(m) {
            assert forall|i: int| 0 <= i < self.members().len() implies (
            #[trigger] self.members()[i]).ok(m) by {
                assert(self.constraints@[i].ok(m));
            }
        }
        if forall|i: int| 0 <= i < self.members().len() ==> (#[trigger] self.members()[i]).ok(m) {
            assert forall|i: int| 0 <= i < self.constraints@.len() implies (
            #[trigger] self.constraints@[i]).ok(m) by {
                assert(self.members()[i].ok(m));
            }
        }
    }

    /// What a candidate decision means: every member relevant to the
    /// variable accepts the value.
    pub proof fn lemma_cand_ok_meaning(&self, v: int, m: Map<int, Seq<u8>>, val: Seq<u8>)
        ensures
            self.cand_ok(v, m, val) == all_relevant_ok(self.members(), v, m, val),
    {
    }

    /// What the estimate reports: the least estimate among the relevant
    /// members.
    pub proof fn lemma_est_meaning(&self, v: int, m: Map<int, Seq<u8>>)
        ensures
            self.est(v, m) == min_relevant_est(self.members(), v, m),
    {
    }
}

/// Is `val` a candidate for `v` that every member of `cs` relevant to `v`
/// accepts under `m`?
pub open spec fn all_relevant_ok<C: Constraint>(
    cs: Seq<C>,
    v: int,
    m: Map<int, Seq<u8>>,
    val: Seq<u8>,
) -> bool {
    forall|i: int|
        0 <= i < cs.len() && (#[trigger] cs[i]).vars().contains(v) ==> cs[i].cand_ok(v, m, val)
}

/// Is `val` accepted by every member among the first `upto` that is
/// relevant to `v`?
pub open spec fn prefix_ok<C: Constraint>(
    cs: Seq<C>,
    upto: int,
    v: int,
    m: Map<int, Seq<u8>>,
    val: Seq<u8>,
) -> bool {
    forall|j: int|
        0 <= j < upto && (#[trigger] cs[j]).vars().contains(v) ==> cs[j].cand_ok(v, m, val)
}

/// Is any of the first `upto` members relevant to `v`?
pub open spec fn has_relevant<C: Constraint>(cs: Seq<C>, v: int) -> bool {
    exists|i: int| 0 <= i < cs.len() && (#[trigger] cs[i]).vars().contains(v)
}

/// The least estimate among the members relevant to `v`; meaningful only
/// when one is.
pub open spec fn min_relevant_est<C: Constraint>(cs: Seq<C>, v: int, m: Map<int, Seq<u8>>) -> nat
    decreases cs.len(),
{
    if cs.len() == 0 {
        0
    } else {
        let rest = cs.drop_last();
        if cs.last().vars().contains(v) {
            if has_relevant(rest, v) && min_relevant_est(rest, v, m) <= cs.last().est(v, m) {
                min_relevant_est(rest, v, m)
            } else {
                cs.last().est(v, m)
            }
        } else {
            min_relevant_est(rest, v, m)
        }
    }
}

/// A filtered distinct sequence stays distinct, and its entries come from
/// the original.
proof fn lemma_filter_distinct(s: Seq<Seq<u8>>, p: spec_fn(Seq<u8>) -> bool)
    requires
        forall|i: int, j: int| 0 <= i < j < s.len() ==> s[i] != s[j],
    ensures
        forall|i: int, j: int| 0 <= i < j < s.filter(p).len() ==> s.filter(p)[i] != s.filter(p)[j],
        forall|i: int| 0 <= i < s.filter(p).len() ==> s.contains(#[trigger] s.filter(p)[i]),
    decreases s.len(),
{
    reveal(Seq::filter);
    if s.len() > 0 {
        let rest = s.drop_last();
        assert(forall|i: int| 0 <= i < rest.len() ==> rest[i] == s[i]);
        lemma_filter_distinct(rest, p);
        let f0 = rest.filter(p);
        assert forall|i: int| 0 <= i < f0.len() implies s.contains(#[trigger] f0[i]) by {
            assert(rest.contains(f0[i]));
            let t = choose|t: int| 0 <= t < rest.len() && rest[t] == f0[i];
            assert(s[t] == f0[i]);
        }
        if p(s.last()) {
            assert(s.filter(p) == f0.push(s.last()));
            assert(s.contains(s.last())) by {
                assert(s[s.len() - 1] == s.last());
            }
            assert forall|i: int, j: int| 0 <= i < j < s.filter(p).len() implies s.filter(p)[i]
                != s.filter(p)[j] by {
                if j == s.filter(p).len() - 1 {
                    assert(s.filter(p)[i] == f0[i]);
                    assert(rest.contains(f0[i]));
                    let t = choose|t: int| 0 <= t < rest.len() && rest[t] == f0[i];
                    if f0[i] == s.last() {
                        assert(s[t] == s[s.len() - 1]);
                    }
                } else {
                    assert(s.filter(p)[i] == f0[i] && s.filter(p)[j] == f0[j]);
                }
            }
        }
    }
}

/// Filtering by `p` and then by `q` is filtering by their conjunction.
proof fn lemma_filter_and(s: Seq<Seq<u8>>, p: spec_fn(Seq<u8>) -> bool, q: spec_fn(Seq<u8>) -> bool)
    ensures
        s.filter(p).filter(q) == s.filter(|x: Seq<u8>| p(x) && q(x)),
    decreases s.len(),
{
    reveal(Seq::filter);
    let pq = |x: Seq<u8>| p(x) && q(x);
    if s.len() == 0 {
        assert(s.filter(p).filter(q) =~= s.filter(pq));
    } else {
        let rest = s.drop_last();
        lemma_filter_and(rest, p, q);
        let l = s.last();
        if p(l) {
            let fp = rest.filter(p).push(l);
            assert(s.filter(p) == fp);
            assert(fp.drop_last() =~= rest.filter(p));
            assert(fp.last() == l);
            if q(l) {
                assert(fp.filter(q) == fp.drop_last().filter(q).push(l));
                assert(s.filter(pq) == rest.filter(pq).push(l));
                assert(s.filter(p).filter(q) == s.filter(pq));
            } else {
                assert(fp.filter(q) == fp.drop_last().filter(q));
                assert(s.filter(pq) == rest.filter(pq));
                assert(s.filter(p).filter(q) == s.filter(pq));
            }
        } else {
            assert(s.filter(p) == rest.filter(p));
            assert(s.filter(pq) == rest.filter(pq));
            assert(s.filter(p).filter(q) == s.filter(pq));
        }
    }
}

/// Filtering by a predicate that holds everywhere changes nothing.
proof fn lemma_filter_true(s: Seq<Seq<u8>>, p: spec_fn(Seq<u8>) -> bool)
    requires
        forall|i: int| 0 <= i < s.len() ==> p(#[trigger] s[i]),
    ensures
        s.filter(p) == s,
    decreases s.len(),
{
    reveal(Seq::filter);
    if s.len() != 0 {
        let rest = s.drop_last();
        assert(forall|i: int| 0 <= i < rest.len() ==> rest[i] == s[i]);
        lemma_filter_true(rest, p);
        assert(p(s[s.len() - 1]));
        assert(s.filter(p) == rest.push(s.last()));
        assert(rest.push(s.last()) =~= s);
    }
}

impl<C: Constraint> Constraint for IntersectionConstraint<C> {
    closed spec fn inv(&self) -> bool {
        forall|i: int| 0 <= i < self.constraints@.len() ==> (#[trigger] self.constraints@[i]).inv()
    }

    closed spec fn vars(&self) -> Set<int> {
        Set::new(
            |v: int|
                exists|i: int|
                    0 <= i < self.constraints@.len() && (#[trigger] self.constraints@[i]).vars().contains(v),
        )
    }

    closed spec fn ok(&self, m: Map<int, Seq<u8>>) -> bool {
        forall|i: int| 0 <= i < self.constraints@.len() ==> (#[trigger] self.constraints@[i]).ok(m)
    }

    closed spec fn cand_ok(&self, v: int, m: Map<int, Seq<u8>>, val: Seq<u8>) -> bool {
        all_relevant_ok(self.constraints@, v, m, val)
    }

    closed spec fn sat_bound(&self, m: Map<int, Seq<u8>>) -> bool {
        forall|i: int|
            0 <= i < self.constraints@.len() ==> (#[trigger] self.constraints@[i]).sat_bound(m)
    }

    closed spec fn est(&self, v: int, m: Map<int, Seq<u8>>) -> nat {
        min_relevant_est(self.constraints@, v, m)
    }

    proof fn lemma_vars_finite(&self) {
        let r = vstd::set_lib::set_int_range(0, 256);
        assert forall|v: int| self.vars().contains(v) implies r.contains(v) by {
            let i = choose|i: int|
                0 <= i < self.constraints@.len() && (#[trigger] self.constraints@[i]).vars().contains(
                    v,
                );
            self.constraints@[i].lemma_vars_finite();
        }
        vstd::set_lib::lemma_int_range(0, 256);
        vstd::set_lib::lemma_set_subset_finite(r, self.vars());
    }

    proof fn lemma_vacuous(&self, m: Map<int, Seq<u8>>) {
        assert forall|i: int| 0 <= i < self.constraints@.len() implies (
        #[trigger] self.constraints@[i]).sat_bound(m) by {
            assert forall|v: int| m.dom().contains(v) implies !self.constraints@[i].vars().contains(
                v,
            ) by {
                if self.constraints@[i].vars().contains(v) {
                    assert(self.vars().contains(v));
                }
            }
            assert(m.dom().disjoint(self.constraints@[i].vars()));
            self.constraints@[i].lemma_vacuous(m);
        }
    }

    proof fn lemma_step(&self, v: int, m: Map<int, Seq<u8>>, val: Seq<u8>) {
        assert forall|i: int| 0 <= i < self.constraints@.len() implies (
        #[trigger] self.constraints@[i]).sat_bound(m.insert(v, val)) by {
            if self.constraints@[i].vars().contains(v) {
                self.constraints@[i].lemma_step(v, m, val);
            } else {
                self.constraints@[i].lemma_step_outside(v, m, val);
            }
        }
    }

    proof fn lemma_step_outside(&self, v: int, m: Map<int, Seq<u8>>, val: Seq<u8>) {
        assert forall|i: int| 0 <= i < self.constraints@.len() implies (
        #[trigger] self.constraints@[i]).sat_bound(m.insert(v, val)) by {
            assert(!self.constraints@[i].vars().contains(v)) by {
                if self.constraints@[i].vars().contains(v) {
                    assert(self.vars().contains(v));
                }
            }
            self.constraints@[i].lemma_step_outside(v, m, val);
        }
    }

    proof fn lemma_final(&self, m: Map<int, Seq<u8>>) {
        assert forall|i: int| 0 <= i < self.constraints@.len() implies (
        #[trigger] self.constraints@[i]).ok(m) by {
            assert forall|v: int|
                self.constraints@[i].vars().contains(v) implies m.dom().contains(v) by {
                assert(self.vars().contains(v));
            }
            self.constraints@[i].lemma_final(m);
        }
    }

    proof fn lemma_antitone(&self, v: int, m: Map<int, Seq<u8>>, val: Seq<u8>) {
        assert forall|i: int| 0 <= i < self.constraints@.len() implies (
        #[trigger] self.constraints@[i]).ok(m) by {
            self.constraints@[i].lemma_antitone(v, m, val);
        }
    }

    proof fn lemma_complete(&self, v: int, m: Map<int, Seq<u8>>, val: Seq<u8>) {
        assert forall|i: int|
            0 <= i < self.constraints@.len() && (#[trigger] self.constraints@[i]).vars().contains(
                v,
            ) implies self.constraints@[i].cand_ok(v, m, val) by {
            self.constraints@[i].lemma_complete(v, m, val);
        }
    }

    fn variables(&self) -> (r: ByteBitset) {
        let mut acc = ByteBitset::new_empty();
        let mut i: usize = 0;
        while i < self.constraints.len()
            invariant
                i <= self.constraints@.len(),
                self.inv(),
                acc.inv(),
                forall|v: int|
                    acc.iset().contains(v) <==> exists|j: int|
                        0 <= j < i && (#[trigger] self.constraints@[j]).vars().contains(v),
            decreases self.constraints@.len() - i,
        {
            let vs = self.constraints[i].variables();
            proof {
                self.constraints@[i as int].lemma_vars_finite();
            }
            let acc2 = acc.union(&vs);
            proof {
                assert forall|v: int|
                    acc2.iset().contains(v) <==> exists|j: int|
                        0 <= j < i + 1 && (#[trigger] self.constraints@[j]).vars().contains(v) by {
                    if acc2.iset().contains(v) {
                        if acc.iset().contains(v) {
                            let j = choose|j: int|
                                0 <= j < i && (#[trigger] self.constraints@[j]).vars().contains(v);
                            assert(0 <= j < i + 1 && self.constraints@[j].vars().contains(v));
                        } else {
                            assert(vs.iset().contains(v));
                            assert(self.constraints@[i as int].vars().contains(v));
                        }
                    }
                    if exists|j: int|
                        0 <= j < i + 1 && (#[trigger] self.constraints@[j]).vars().contains(v) {
                        let j = choose|j: int|
                            0 <= j < i + 1 && (#[trigger] self.constraints@[j]).vars().contains(v);
                        assert(0 <= v < 256) by {
                            self.constraints@[j].lemma_vars_finite();
                        }
                        if j < i {
                            assert(acc.iset().contains(v));
                        } else {
                            assert(vs.iset().contains(v));
                            assert(vs.mem(v as u8));
                        }
                        assert(acc2.mem(v as u8));
                    }
                }
            }
            acc = acc2;
            i = i + 1;
        }
        proof {
            assert(acc.iset() =~= self.vars());
        }
        acc
    }

    fn variable(&self, v: VariableId) -> (r: bool) {
        let mut i: usize = 0;
        while i < self.constraints.len()
            invariant
                i <= self.constraints@.len(),
                self.inv(),
                forall|j: int| 0 <= j < i ==> !(#[trigger] self.constraints@[j]).vars().contains(
                    v as int,
                ),
            decreases self.constraints@.len() - i,
        {
            if self.constraints[i].variable(v) {
                proof {
                    assert(self.vars().contains(v as int));
                }
                return true;
            }
            i = i + 1;
        }
        proof {
            if self.vars().contains(v as int) {
                let j = choose|j: int|
                    0 <= j < self.constraints@.len() && (#[trigger] self.constraints@[j]).vars().contains(
                        v as int,
                    );
            }
        }
        false
    }

    fn estimate(&self, v: VariableId, b: &Binding) -> (r: usize) {
        let (bi, best) = self.cheapest(v, b);
        proof {
            let m = b.as_map();
            let mine = Set::new(|val: Seq<u8>| self.cand_ok(v as int, m, val));
            let member = Set::new(
                |val: Seq<u8>| self.constraints@[bi as int].cand_ok(v as int, m, val),
            );
            assert(mine.subset_of(member)) by {
                assert forall|val: Seq<u8>| mine.contains(val) implies member.contains(val) by {
                    assert(self.cand_ok(v as int, m, val));
                    assert(self.constraints@[bi as int].cand_ok(v as int, m, val));
                }
            }
            vstd::set_lib::lemma_set_subset_finite(member, mine);
            vstd::set_lib::lemma_len_subset(mine, member);
        }
        best
    }

    fn propose(&self, v: VariableId, b: &Binding, proposals: &mut Vec<Vec<u8>>) {
        let ghost m = b.as_map();
        let (bi, best) = self.cheapest(v, b);
        self.constraints[bi].propose(v, b, proposals);
        let ghost cs = self.constraints@;
        proof {
            assert forall|val: Seq<u8>| #[trigger]
                cs[bi as int].cand_ok(v as int, m, val) implies proposals@.map_values(
                |x: Vec<u8>| x@,
            ).contains(val) by {
                let t = choose|t: int| 0 <= t < proposals@.len() && proposals@[t]@ == val;
                assert(proposals@.map_values(|x: Vec<u8>| x@)[t] == val);
            }
        }
        let mut i: usize = 0;
        while i < self.constraints.len()
            invariant
                i <= cs.len(),
                cs == self.constraints@,
                self.inv(),
                b.inv(),
                b.as_map() == m,
                v < 256,
                bi < cs.len(),
                cs[bi as int].vars().contains(v as int),
                !m.dom().contains(v as int),
                forall|t: int|
                    0 <= t < proposals@.len() ==> cs[bi as int].cand_ok(
                        v as int,
                        m,
                        (#[trigger] proposals@[t])@,
                    ) && proposals@[t]@.len() == 32,
                forall|t: int, j: int|
                    0 <= t < proposals@.len() && 0 <= j < i && (#[trigger] cs[j]).vars().contains(
                        v as int,
                    ) ==> cs[j].cand_ok(v as int, m, (#[trigger] proposals@[t])@),
                forall|val: Seq<u8>|
                    (#[trigger] cs[bi as int].cand_ok(v as int, m, val) && (forall|j: int|
                        0 <= j < i && (#[trigger] cs[j]).vars().contains(v as int) ==> cs[j].cand_ok(
                            v as int,
                            m,
                            val,
                        ))) ==> proposals@.map_values(|x: Vec<u8>| x@).contains(val),
                forall|t1: int, t2: int|
                    0 <= t1 < t2 < proposals@.len() ==> proposals@[t1]@ != proposals@[t2]@,
            decreases cs.len() - i,
        {
            let relevant = if i == bi {
                false
            } else {
                self.constraints[i].variable(v)
            };
            if relevant {
                let ghost pre = proposals@;
                let ghost before = proposals@.map_values(|x: Vec<u8>| x@);
                self.constraints[i].confirm(v, b, proposals);
                proof {
                    broadcast use vstd::seq_lib::group_filter_ensures;

                    let after = proposals@.map_values(|x: Vec<u8>| x@);
                    let pred = |s: Seq<u8>| cs[i as int].cand_ok(v as int, m, s);
                    assert(after == before.filter(pred));
                    assert(forall|t1: int, t2: int|
                        0 <= t1 < t2 < before.len() ==> before[t1] != before[t2]);
                    lemma_filter_distinct(before, pred);
                    // every surviving entry was already present and passes
                    // this member's check
                    assert forall|t: int| #![trigger after[t]]
                        0 <= t < after.len() implies exists|t0: int|
                        0 <= t0 < before.len() && (#[trigger] before[t0]) == after[t] by {
                        assert(before.contains(after[t]));
                        let t0 = choose|t0: int| 0 <= t0 < before.len() && before[t0] == after[t];
                    }
                    assert(forall|t: int|
                        0 <= t < after.len() ==> pred(#[trigger] before.filter(pred)[t]));
                    // re-establish the per-entry facts over the filtered list
                    assert forall|t: int| 0 <= t < proposals@.len() implies cs[bi as int].cand_ok(
                        v as int,
                        m,
                        (#[trigger] proposals@[t])@,
                    ) && proposals@[t]@.len() == 32 by {
                        assert(proposals@[t]@ == after[t]);
                        let t0 = choose|t0: int|
                            0 <= t0 < before.len() && (#[trigger] before[t0]) == after[t];
                        assert(before[t0] == pre[t0]@);
                        assert(cs[bi as int].cand_ok(v as int, m, pre[t0]@) && pre[t0]@.len()
                            == 32);
                    }
                    assert forall|t: int, j: int|
                        0 <= t < proposals@.len() && 0 <= j < i + 1 && (
                        #[trigger] cs[j]).vars().contains(v as int) implies cs[j].cand_ok(
                        v as int,
                        m,
                        (#[trigger] proposals@[t])@,
                    ) by {
                        assert(proposals@[t]@ == after[t]);
                        let t0 = choose|t0: int|
                            0 <= t0 < before.len() && (#[trigger] before[t0]) == after[t];
                        assert(before[t0] == pre[t0]@);
                        if j < i {
                            assert(cs[j].cand_ok(v as int, m, pre[t0]@));
                        } else {
                            assert(after[t] == before.filter(pred)[t]);
                            assert(pred(before.filter(pred)[t]));
                        }
                    }
                    assert forall|t1: int, t2: int|
                        0 <= t1 < t2 < proposals@.len() implies proposals@[t1]@
                        != proposals@[t2]@ by {
                        assert(after[t1] == before.filter(pred)[t1]);
                        assert(after[t2] == before.filter(pred)[t2]);
                        assert(proposals@[t1]@ == after[t1]);
                        assert(proposals@[t2]@ == after[t2]);
                    }
                    // a value every relevant member up to here accepts was
                    // present before and survives the filter
                    assert forall|val: Seq<u8>|
                        (#[trigger] cs[bi as int].cand_ok(v as int, m, val) && (forall|j: int|
                            0 <= j < i + 1 && (#[trigger] cs[j]).vars().contains(v as int)
                                ==> cs[j].cand_ok(v as int, m, val))) implies after.contains(
                        val,
                    ) by {
                        assert forall|j: int|
                            0 <= j < i && (#[trigger] cs[j]).vars().contains(v as int) implies
                            cs[j].cand_ok(v as int, m, val) by {}
                        assert(before.contains(val));
                        let t0 = choose|t0: int| 0 <= t0 < before.len() && before[t0] == val;
                        assert(pred(before[t0])) by {
                            assert(cs[i as int].vars().contains(v as int));
                            assert(cs[i as int].cand_ok(v as int, m, val));
                        }
                        assert(before.filter(pred).contains(before[t0]));
                    }
                }
            }
            i = i + 1;
        }
        proof {
            assert forall|t: int| 0 <= t < proposals@.len() implies self.cand_ok(
                v as int,
                m,
                (#[trigger] proposals@[t])@,
            ) && proposals@[t]@.len() == 32 by {
                assert forall|j: int|
                    0 <= j < cs.len() && (#[trigger] cs[j]).vars().contains(v as int) implies
                    cs[j].cand_ok(v as int, m, proposals@[t]@) by {
                    if j == bi {
                    }
                }
            }
            assert forall|val: Seq<u8>| #[trigger]
                self.cand_ok(v as int, m, val) implies exists|t: int|
                0 <= t < proposals@.len() && proposals@[t]@ == val by {
                assert(cs[bi as int].cand_ok(v as int, m, val));
                assert(proposals@.map_values(|x: Vec<u8>| x@).contains(val));
                let mv = proposals@.map_values(|x: Vec<u8>| x@);
                let t = choose|t: int| 0 <= t < mv.len() && (#[trigger] mv[t]) == val;
                assert(proposals@[t]@ == val);
            }
        }
    }

    fn confirm(&self, v: VariableId, b: &Binding, proposals: &mut Vec<Vec<u8>>) {
        let ghost m = b.as_map();
        let ghost cs = self.constraints@;
        let ghost orig = old(proposals)@.map_values(|x: Vec<u8>| x@);
        proof {
            let p0 = |s2: Seq<u8>| prefix_ok(cs, 0int, v as int, m, s2);
            assert(forall|t: int| 0 <= t < orig.len() ==> p0(#[trigger] orig[t]));
            lemma_filter_true(orig, p0);
        }
        let mut i: usize = 0;
        while i < self.constraints.len()
            invariant
                i <= cs.len(),
                cs == self.constraints@,
                self.inv(),
                b.inv(),
                b.as_map() == m,
                v < 256,
                !m.dom().contains(v as int),
                proposals@.map_values(|x: Vec<u8>| x@) == orig.filter(
                    (|s: Seq<u8>| prefix_ok(cs, i as int, v as int, m, s)),
                ),
            decreases cs.len() - i,
        {
            let relevant = self.constraints[i].variable(v);
            let ghost pi = |s: Seq<u8>| prefix_ok(cs, i as int, v as int, m, s);
            let ghost pi1 = |s: Seq<u8>| prefix_ok(cs, i + 1, v as int, m, s);
            if relevant {
                self.constraints[i].confirm(v, b, proposals);
                proof {
                    let q = |s: Seq<u8>| cs[i as int].cand_ok(v as int, m, s);
                    lemma_filter_and(orig, pi, q);
                    assert(proposals@.map_values(|x: Vec<u8>| x@) == orig.filter(pi).filter(q));
                    assert forall|s: Seq<u8>| #![trigger prefix_ok(cs, i + 1, v as int, m, s)]
                        (pi(s) && q(s)) == prefix_ok(cs, i + 1, v as int, m, s) by {
                        if pi(s) && q(s) {
                            assert forall|j: int|
                                0 <= j < i + 1 && (#[trigger] cs[j]).vars().contains(
                                    v as int,
                                ) implies cs[j].cand_ok(v as int, m, s) by {
                                if j == i {
                                }
                            }
                        }
                        if prefix_ok(cs, i + 1, v as int, m, s) {
                            assert(cs[i as int].vars().contains(v as int));
                            assert(cs[i as int].cand_ok(v as int, m, s));
                        }
                    }
                    assert((|s: Seq<u8>| pi(s) && q(s)) =~= pi1);
                    assert(orig.filter((|s: Seq<u8>| pi(s) && q(s))) == orig.filter(pi1));
                }
            } else {
                proof {
                    assert forall|s: Seq<u8>| #![trigger prefix_ok(cs, i + 1, v as int, m, s)]
                        pi(s) == prefix_ok(cs, i + 1, v as int, m, s) by {
                        if pi(s) {
                            assert forall|j: int|
                                0 <= j < i + 1 && (#[trigger] cs[j]).vars().contains(
                                    v as int,
                                ) implies cs[j].cand_ok(v as int, m, s) by {
                                if j == i {
                                }
                            }
                        }
                    }
                    assert(pi =~= pi1);
                    assert(orig.filter(pi) == orig.filter(pi1));
                }
            }
            i = i + 1;
        }
        proof {
            assert forall|s: Seq<u8>| #![trigger self.cand_ok(v as int, m, s)]
                prefix_ok(cs, cs.len() as int, v as int, m, s) == self.cand_ok(v as int, m, s) by {}
            assert((|s: Seq<u8>| prefix_ok(cs, cs.len() as int, v as int, m, s)) =~= (
            |s: Seq<u8>| self.cand_ok(v as int, m, s)));
            assert(orig.filter((|s: Seq<u8>| prefix_ok(cs, cs.len() as int, v as int, m, s)))
                == orig.filter((|s: Seq<u8>| self.cand_ok(v as int, m, s))));
            assert((|s: Seq<u8>| self.cand_ok(v as int, m, s)) =~= (
            |s: Seq<u8>| self.cand_ok(v as int, b.as_map(), s)));
        }
    }
}

impl<C: Constraint> IntersectionConstraint<C> {
    /// The relevant member with the lowest estimate for `v` under `b`, and
    /// that estimate; ties go to the earliest member.
    fn cheapest(&self, v: VariableId, b: &Binding) -> (r: (usize, usize))
        requires
            self.inv(),
            b.inv(),
            v < 256,
            self.vars().contains(v as int),
            !b.as_map().dom().contains(v as int),
        ensures
            r.0 < self.constraints@.len(),
            self.constraints@[r.0 as int].vars().contains(v as int),
            Set::new(
                |val: Seq<u8>| self.constraints@[r.0 as int].cand_ok(v as int, b.as_map(), val),
            ).finite(),
            r.1 >= Set::new(
                |val: Seq<u8>| self.constraints@[r.0 as int].cand_ok(v as int, b.as_map(), val),
            ).len(),
            r.1 as nat == min_relevant_est(self.constraints@, v as int, b.as_map()),
    {
        let ghost cs = self.constraints@;
        let mut found = false;
        let mut bi: usize = 0;
        let mut best: usize = 0;
        let mut i: usize = 0;
        proof {
            assert(cs.take(0) =~= Seq::<C>::empty());
        }
        while i < self.constraints.len()
            invariant
                i <= cs.len(),
                cs == self.constraints@,
                self.inv(),
                b.inv(),
                v < 256,
                !b.as_map().dom().contains(v as int),
                found == has_relevant(cs.take(i as int), v as int),
                found ==> bi < i && cs[bi as int].vars().contains(v as int) && Set::new(
                    |val: Seq<u8>| cs[bi as int].cand_ok(v as int, b.as_map(), val),
                ).finite() && best >= Set::new(
                    |val: Seq<u8>| cs[bi as int].cand_ok(v as int, b.as_map(), val),
                ).len() && best as nat == min_relevant_est(cs.take(i as int), v as int, b.as_map()),
            decreases cs.len() - i,
        {
            let ghost was_found = found;
            let ghost old_best = best;
            let relevant = self.constraints[i].variable(v);
            if relevant {
                let e = self.constraints[i].estimate(v, b);
                if !found || e < best {
                    found = true;
                    bi = i;
                    best = e;
                }
            }
            proof {
                let m = b.as_map();
                let csi = cs.take(i as int);
                let csi1 = cs.take(i as int + 1);
                assert(csi1.drop_last() =~= csi);
                assert(csi1.last() == cs[i as int]);
                assert(has_relevant(csi1, v as int) == (has_relevant(csi, v as int)
                    || cs[i as int].vars().contains(v as int))) by {
                    if has_relevant(csi1, v as int) {
                        let j = choose|j: int|
                            0 <= j < csi1.len() && (#[trigger] csi1[j]).vars().contains(v as int);
                        if j < i {
                            assert(csi[j].vars().contains(v as int));
                        }
                    }
                    if has_relevant(csi, v as int) {
                        let j = choose|j: int|
                            0 <= j < csi.len() && (#[trigger] csi[j]).vars().contains(v as int);
                        assert(csi1[j].vars().contains(v as int));
                    }
                    if cs[i as int].vars().contains(v as int) {
                        assert(csi1[i as int].vars().contains(v as int));
                    }
                }
                if relevant {
                    if !was_found {
                        assert(min_relevant_est(csi1, v as int, m) == cs[i as int].est(
                            v as int,
                            m,
                        ));
                    } else {
                        if cs[i as int].est(v as int, m) < old_best as nat {
                            assert(min_relevant_est(csi1, v as int, m) == cs[i as int].est(
                                v as int,
                                m,
                            ));
                        } else {
                            assert(min_relevant_est(csi1, v as int, m) == min_relevant_est(
                                csi,
                                v as int,
                                m,
                            ));
                        }
                    }
                } else {
                    assert(min_relevant_est(csi1, v as int, m) == min_relevant_est(
                        csi,
                        v as int,
                        m,
                    ));
                }
            }
            i = i + 1;
        }
        proof {
            assert(cs.take(cs.len() as int) =~= cs);
            if !found {
                let j = choose|j: int|
                    0 <= j < cs.len() && (#[trigger] cs[j]).vars().contains(v as int);
                assert(has_relevant(cs.take(cs.len() as int), v as int));
                assert(false);
            }
        }
        (bi, best)
    }
}

} // verus!
