//! Variables, bindings, the constraint capability and the join engine: a
//! depth-first, backtracking, variable-at-a-time solver whose output is
//! proved to be exactly the set of bindings satisfying the constraint.

use vstd::prelude::*;
use crate::bitset::ByteBitset;
use crate::trie::copy_bytes;
use crate::trie::lemma_lex_prefix;
use crate::trie::lex_lt;

pub mod anyconstraint;
pub mod constantconstraint;
pub mod intersectionconstraint;

verus! {

/// Index of a query variable; the universe holds 256 of them.
pub type VariableId = usize;

/// A typed handle on a query variable; the type parameter names the value
/// schema the variable ranges over and plays no role at runtime.
pub struct Variable<S> {
    pub index: VariableId,
    pub typing: Ghost<Option<S>>,
}

impl<S> Variable<S> {
    pub fn new(index: VariableId) -> (r: Variable<S>)
        ensures
            r.index == index,
    {
        Variable { index, typing: Ghost(None) }
    }
}

/// A partial assignment of 32-byte values to variables: a bit per variable
/// plus a parallel value table.  It abstracts to a map from the bound
/// variable indices to the byte strings assigned to them.
pub struct Binding {
    bound: ByteBitset,
    values: Vec<Vec<u8>>,
}

impl Binding {
    pub closed spec fn inv(&self) -> bool {
        &&& self.bound.inv()
        &&& self.values@.len() == 256
        &&& forall|i: int|
            0 <= i < 256 ==> (#[trigger] self.values@[i])@.len() == (if self.bound.mem(i as u8) {
                32int
            } else {
                0int
            })
    }

    /// The assignment this binding stands for.
    pub closed spec fn as_map(&self) -> Map<int, Seq<u8>> {
        Map::new(|i: int| 0 <= i < 256 && self.bound.mem(i as u8), |i: int| self.values@[i]@)
    }

    /// Bound values are value slots: 32 bytes each.
    pub proof fn lemma_values_wide(&self)
        requires
            self.inv(),
        ensures
            forall|i: int| #[trigger]
                self.as_map().dom().contains(i) ==> self.as_map()[i].len() == 32,
            self.as_map().dom().subset_of(vstd::set_lib::set_int_range(0, 256)),
    {
    }

    /// The empty binding.
    pub fn new() -> (r: Binding)
        ensures
            r.inv(),
            r.as_map() == Map::<int, Seq<u8>>::empty(),
    {
        let bound = ByteBitset::new_empty();
        let mut values: Vec<Vec<u8>> = Vec::new();
        let mut i: usize = 0;
        while i < 256
            invariant
                i <= 256,
                values@.len() == i,
                forall|j: int| 0 <= j < i ==> (#[trigger] values@[j])@.len() == 0,
            decreases 256 - i,
        {
            values.push(Vec::new());
            i = i + 1;
        }
        let r = Binding { bound, values };
        proof {
            assert(r.as_map() =~= Map::<int, Seq<u8>>::empty());
        }
        r
    }

    /// Is variable `v` bound?
    pub fn bound(&self, v: VariableId) -> (r: bool)
        requires
            self.inv(),
            v < 256,
        ensures
            r == self.as_map().dom().contains(v as int),
    {
        self.bound.is_set(v as u8)
    }

    /// The value bound to `v`, if any.
    pub fn get(&self, v: VariableId) -> (r: Option<&Vec<u8>>)
        requires
            self.inv(),
            v < 256,
        ensures
            match r {
                Some(val) => self.as_map().dom().contains(v as int) && val@
                    == self.as_map()[v as int],
                None => !self.as_map().dom().contains(v as int),
            },
    {
        if self.bound.is_set(v as u8) {
            Some(&self.values[v])
        } else {
            None
        }
    }

    /// Bind `v` to `val`.
    pub fn set(&mut self, v: VariableId, val: &Vec<u8>)
        requires
            old(self).inv(),
            v < 256,
            !old(self).as_map().dom().contains(v as int),
            val@.len() == 32,
        ensures
            final(self).inv(),
            final(self).as_map() == old(self).as_map().insert(v as int, val@),
    {
        self.bound.set(v as u8);
        let c = copy_bytes(val);
        self.values.set(v, c);
        proof {
            assert(self.as_map() =~= old(self).as_map().insert(v as int, val@));
        }
    }

    /// Unbind `v`.
    pub fn unset(&mut self, v: VariableId)
        requires
            old(self).inv(),
            v < 256,
        ensures
            final(self).inv(),
            final(self).as_map() == old(self).as_map().remove(v as int),
    {
        self.bound.unset(v as u8);
        self.values.set(v, Vec::new());
        proof {
            assert(self.as_map() =~= old(self).as_map().remove(v as int));
        }
    }

    /// A copy of this binding, standing for the same assignment.
    pub fn duplicate(&self) -> (r: Binding)
        requires
            self.inv(),
        ensures
            r.inv(),
            r.as_map() == self.as_map(),
    {
        let mut values: Vec<Vec<u8>> = Vec::new();
        let mut bits = ByteBitset::new_empty();
        let mut i: usize = 0;
        while i < 256
            invariant
                i <= 256,
                self.inv(),
                bits.inv(),
                values@.len() == i,
                forall|j: int| 0 <= j < i ==> #[trigger] values@[j]@ == self.values@[j]@,
                forall|x: u8| bits.mem(x) == (self.bound.mem(x) && (x as int) < i),
            decreases 256 - i,
        {
            if self.bound.is_set(i as u8) {
                bits.set(i as u8);
            }
            let c = copy_bytes(&self.values[i]);
            values.push(c);
            i = i + 1;
        }
        let r = Binding { bound: bits, values };
        proof {
            assert(r.as_map() =~= self.as_map());
        }
        r
    }
}

/// A capability for restricting query variables.  Each provider carries a
/// spec-level satisfaction predicate `ok` over partial assignments; the
/// exec methods are exact with respect to it, and the proof obligations
/// tie the per-step behaviour to the final meaning, which is what makes
/// the join engine's output provably exact.
pub trait Constraint: Sized {
    spec fn inv(&self) -> bool;

    /// The variables this provider can restrict.
    spec fn vars(&self) -> Set<int>;

    /// Is the partial assignment `m` consistent with this provider: can it
    /// be extended to a full assignment of the provider's variables that
    /// the provider's data supports?
    spec fn ok(&self, m: Map<int, Seq<u8>>) -> bool;

    /// What this provider's `propose`/`confirm` decide for a candidate
    /// `val` of variable `v` under `m`: consistency of each part of the
    /// provider that mentions `v`.
    spec fn cand_ok(&self, v: int, m: Map<int, Seq<u8>>, val: Seq<u8>) -> bool;

    /// Every part of this provider whose variables are all bound in `m` is
    /// satisfied by `m`; the engine maintains this along a search path.
    spec fn sat_bound(&self, m: Map<int, Seq<u8>>) -> bool;

    /// The number this provider's `estimate` reports for `v` under `m`:
    /// the cardinality of the bucket it consults.
    spec fn est(&self, v: int, m: Map<int, Seq<u8>>) -> nat;

    proof fn lemma_vars_finite(&self)
        requires
            self.inv(),
        ensures
            self.vars().finite(),
            self.vars().subset_of(vstd::set_lib::set_int_range(0, 256));

    proof fn lemma_vacuous(&self, m: Map<int, Seq<u8>>)
        requires
            self.inv(),
            m.dom().disjoint(self.vars()),
        ensures
            self.sat_bound(m);

    proof fn lemma_step(&self, v: int, m: Map<int, Seq<u8>>, val: Seq<u8>)
        requires
            self.inv(),
            self.sat_bound(m),
            self.vars().contains(v),
            !m.dom().contains(v),
            self.cand_ok(v, m, val),
        ensures
            self.sat_bound(m.insert(v, val));

    proof fn lemma_step_outside(&self, v: int, m: Map<int, Seq<u8>>, val: Seq<u8>)
        requires
            self.inv(),
            self.sat_bound(m),
            !self.vars().contains(v),
        ensures
            self.sat_bound(m.insert(v, val));

    proof fn lemma_final(&self, m: Map<int, Seq<u8>>)
        requires
            self.inv(),
            self.sat_bound(m),
            self.vars().subset_of(m.dom()),
        ensures
            self.ok(m);

    proof fn lemma_antitone(&self, v: int, m: Map<int, Seq<u8>>, val: Seq<u8>)
        requires
            self.inv(),
            !m.dom().contains(v),
            self.ok(m.insert(v, val)),
        ensures
            self.ok(m);

    proof fn lemma_complete(&self, v: int, m: Map<int, Seq<u8>>, val: Seq<u8>)
        requires
            self.inv(),
            self.vars().contains(v),
            !m.dom().contains(v),
            self.ok(m.insert(v, val)),
        ensures
            self.cand_ok(v, m, val);

    /// The variables, as a bitset.
    fn variables(&self) -> (r: ByteBitset)
        requires
            self.inv(),
        ensures
            r.inv(),
            r.iset() == self.vars();

    /// Does this provider participate in variable `v`?
    fn variable(&self, v: VariableId) -> (r: bool)
        requires
            self.inv(),
        ensures
            r == self.vars().contains(v as int);

    /// The size of the bucket consulted for `v` under `b`: exactly
    /// `est`, and never lower than the number of candidates `propose`
    /// would emit.
    fn estimate(&self, v: VariableId, b: &Binding) -> (r: usize)
        requires
            self.inv(),
            b.inv(),
            v < 256,
            self.vars().contains(v as int),
            !b.as_map().dom().contains(v as int),
        ensures
            r as nat == self.est(v as int, b.as_map()),
            Set::new(|val: Seq<u8>| self.cand_ok(v as int, b.as_map(), val)).finite(),
            r >= Set::new(|val: Seq<u8>| self.cand_ok(v as int, b.as_map(), val)).len();

    /// Append every candidate value for `v` consistent with this provider
    /// under `b`: exactly the values satisfying `cand_ok`, without
    /// duplicates.
    fn propose(&self, v: VariableId, b: &Binding, proposals: &mut Vec<Vec<u8>>)
        requires
            self.inv(),
            b.inv(),
            v < 256,
            self.vars().contains(v as int),
            !b.as_map().dom().contains(v as int),
            old(proposals)@.len() == 0,
        ensures
            forall|i: int|
                0 <= i < final(proposals)@.len() ==> self.cand_ok(
                    v as int,
                    b.as_map(),
                    (#[trigger] final(proposals)@[i])@,
                ) && final(proposals)@[i]@.len() == 32,
            forall|val: Seq<u8>| #[trigger]
                self.cand_ok(v as int, b.as_map(), val) ==> exists|i: int|
                    0 <= i < final(proposals)@.len() && final(proposals)@[i]@ == val,
            forall|i1: int, i2: int|
                0 <= i1 < i2 < final(proposals)@.len() ==> final(proposals)@[i1]@
                    != final(proposals)@[i2]@;

    /// Filter `proposals` in place, keeping exactly the candidates that
    /// satisfy `cand_ok` for this provider.
    fn confirm(&self, v: VariableId, b: &Binding, proposals: &mut Vec<Vec<u8>>)
        requires
            self.inv(),
            b.inv(),
            v < 256,
            self.vars().contains(v as int),
            !b.as_map().dom().contains(v as int),
        ensures
            final(proposals)@.map_values(|x: Vec<u8>| x@) == old(proposals)@.map_values(
                |x: Vec<u8>| x@,
            ).filter(|s: Seq<u8>| self.cand_ok(v as int, b.as_map(), s));
}

/// Consistency is monotone: a sub-assignment of a consistent assignment is
/// consistent.
pub proof fn lemma_ok_mono<C: Constraint>(c: &C, m1: Map<int, Seq<u8>>, m2: Map<int, Seq<u8>>)
    requires
        c.inv(),
        m1.submap_of(m2),
        m2.dom().finite(),
        c.ok(m2),
    ensures
        c.ok(m1),
    decreases m2.dom().len(),
{
    if m1.dom() =~= m2.dom() {
        assert(m1 =~= m2);
    } else {
        let v = choose|v: int| m2.dom().contains(v) && !m1.dom().contains(v);
        let m2p = m2.remove(v);
        assert(m2 =~= m2p.insert(v, m2[v]));
        c.lemma_antitone(v, m2p, m2[v]);
        assert(m1.submap_of(m2p));
        lemma_ok_mono(c, m1, m2p);
    }
}

/// The join engine: enumerate every complete assignment of the
/// constraint's variables that satisfies it.  The result is proved sound
/// (every returned binding satisfies the constraint) and complete (every
/// satisfying assignment is returned); re-running the search runs it from
/// scratch.
pub fn solve<C: Constraint>(c: &C) -> (out: Vec<Binding>)
    requires
        c.inv(),
    ensures
        forall|i: int|
            0 <= i < out@.len() ==> (#[trigger] out@[i]).inv() && out@[i].as_map().dom() == c.vars()
                && c.ok(out@[i].as_map()),
        forall|m: Map<int, Seq<u8>>|
            m.dom() == c.vars() && #[trigger] c.ok(m) ==> exists|i: int|
                0 <= i < out@.len() && out@[i].as_map() == m,
{
    let mut b = Binding::new();
    let mut out: Vec<Binding> = Vec::new();
    proof {
        c.lemma_vars_finite();
        assert(b.as_map().dom().disjoint(c.vars()));
        c.lemma_vacuous(b.as_map());
        assert(b.as_map().dom().subset_of(c.vars()));
    }
    let ghost fuel = c.vars().difference(b.as_map().dom()).len();
    solve_rec(c, &mut b, &mut out, Ghost(fuel));
    proof {
        assert forall|m: Map<int, Seq<u8>>|
            m.dom() == c.vars() && #[trigger] c.ok(m) implies exists|i: int|
            0 <= i < out@.len() && out@[i].as_map() == m by {
            assert(Map::<int, Seq<u8>>::empty().submap_of(m));
        }
    }
    out
}

/// One level of the search: `b` is the partial assignment so far; every
/// completion of it that satisfies `c` is appended to `out`.
fn solve_rec<C: Constraint>(c: &C, b: &mut Binding, out: &mut Vec<Binding>, Ghost(fuel): Ghost<nat>)
    requires
        c.inv(),
        old(b).inv(),
        c.sat_bound(old(b).as_map()),
        old(b).as_map().dom().subset_of(c.vars()),
        fuel == c.vars().difference(old(b).as_map().dom()).len(),
    ensures
        final(b).inv(),
        final(b).as_map() == old(b).as_map(),
        final(out)@.len() >= old(out)@.len(),
        forall|i: int| 0 <= i < old(out)@.len() ==> final(out)@[i] == old(out)@[i],
        forall|i: int|
            old(out)@.len() <= i < final(out)@.len() ==> (#[trigger] final(out)@[i]).inv()
                && final(out)@[i].as_map().dom() == c.vars() && c.ok(final(out)@[i].as_map())
                && old(b).as_map().submap_of(final(out)@[i].as_map()),
        forall|m: Map<int, Seq<u8>>|
            #[trigger] c.ok(m) && m.dom() == c.vars() && old(b).as_map().submap_of(m)
                ==> exists|i: int|
                old(out)@.len() <= i < final(out)@.len() && final(out)@[i].as_map() == m,
    decreases fuel,
{
    let ghost m0 = b.as_map();
    proof {
        c.lemma_vars_finite();
    }
    let vs = c.variables();
    let elems = vs.elements();
    let mut pick: usize = 256;
    let mut j: usize = 0;
    while j < elems.len() && pick == 256
        invariant
            pick <= 256,
            j <= elems@.len(),
            b.inv(),
            b.as_map() == m0,
            c.inv(),
            vs.inv(),
            vs.iset() == c.vars(),
            forall|t: int| 0 <= t < elems@.len() ==> vs.mem(#[trigger] elems@[t]),
            forall|x: u8| vs.mem(x) ==> exists|t: int| 0 <= t < elems@.len() && elems@[t] == x,
            pick == 256 ==> forall|t: int|
                0 <= t < j ==> m0.dom().contains(#[trigger] elems@[t] as int),
            pick < 256 ==> c.vars().contains(pick as int) && !m0.dom().contains(pick as int),
        decreases elems@.len() - j, (if pick == 256 { 1int } else { 0int }),
    {
        let e = elems[j];
        proof {
            assert(vs.mem(e));
            assert(c.vars().contains(e as int));
        }
        if !b.bound(e as usize) {
            pick = e as usize;
        } else {
            j = j + 1;
        }
    }
    if pick == 256 {
        // every variable is bound: record the satisfying assignment
        proof {
            assert(c.vars().subset_of(m0.dom())) by {
                assert forall|v: int| c.vars().contains(v) implies m0.dom().contains(v) by {
                    assert(vs.iset().contains(v));
                    assert(vs.mem(v as u8));
                    let t = choose|t: int| 0 <= t < elems@.len() && elems@[t] == v as u8;
                    assert(m0.dom().contains(elems@[t] as int));
                }
            }
            assert(m0.dom() =~= c.vars());
            c.lemma_final(m0);
        }
        let cp = b.duplicate();
        out.push(cp);
        proof {
            assert(m0.submap_of(m0));
            assert forall|m: Map<int, Seq<u8>>|
                #[trigger] c.ok(m) && m.dom() == c.vars() && m0.submap_of(m) implies exists|i: int|
                old(out)@.len() <= i < out@.len() && out@[i].as_map() == m by {
                assert(m =~= m0);
                assert(out@[out@.len() - 1].as_map() == m);
            }
        }
        return ;
    }
    let v = pick;
    let mut props: Vec<Vec<u8>> = Vec::new();
    c.propose(v, b, &mut props);
    let ghost out0 = out@;
    let mut i: usize = 0;
    while i < props.len()
        invariant
            i <= props@.len(),
            c.inv(),
            b.inv(),
            b.as_map() == m0,
            c.sat_bound(m0),
            m0.dom().subset_of(c.vars()),
            fuel == c.vars().difference(m0.dom()).len(),
            v < 256,
            c.vars().contains(v as int),
            !m0.dom().contains(v as int),
            forall|t: int|
                0 <= t < props@.len() ==> c.cand_ok(v as int, m0, (#[trigger] props@[t])@)
                    && props@[t]@.len() == 32,
            forall|val: Seq<u8>| #[trigger]
                c.cand_ok(v as int, m0, val) ==> exists|t: int|
                    0 <= t < props@.len() && props@[t]@ == val,
            out@.len() >= out0.len(),
            forall|t: int| 0 <= t < out0.len() ==> out@[t] == out0[t],
            forall|t: int|
                out0.len() <= t < out@.len() ==> (#[trigger] out@[t]).inv() && out@[t].as_map().dom()
                    == c.vars() && c.ok(out@[t].as_map()) && m0.submap_of(out@[t].as_map()),
            forall|m: Map<int, Seq<u8>>|
                #[trigger] c.ok(m) && m.dom() == c.vars() && m0.submap_of(m) && (exists|t: int|
                    0 <= t < i && props@[t]@ == m[v as int]) ==> exists|t: int|
                    out0.len() <= t < out@.len() && out@[t].as_map() == m,
        decreases props@.len() - i,
    {
        let val = copy_bytes(&props[i]);
        b.set(v, &val);
        proof {
            c.lemma_step(v as int, m0, val@);
            assert(b.as_map().dom() =~= m0.dom().insert(v as int));
            assert(b.as_map().dom().subset_of(c.vars()));
            assert(c.vars().difference(b.as_map().dom()) =~= c.vars().difference(m0.dom()).remove(
                v as int,
            ));
            c.lemma_vars_finite();
            vstd::set_lib::lemma_set_subset_finite(c.vars(), c.vars().difference(m0.dom()));
            assert(c.vars().difference(m0.dom()).contains(v as int));
            assert(c.vars().difference(m0.dom()).remove(v as int).len() == c.vars().difference(
                m0.dom(),
            ).len() - 1);
        }
        let ghost fuel2 = c.vars().difference(b.as_map().dom()).len();
        let ghost out_before = out@;
        solve_rec(c, b, out, Ghost(fuel2));
        proof {
            assert(b.as_map() == m0.insert(v as int, val@));
        }
        b.unset(v);
        proof {
            assert(b.as_map() =~= m0);
            // the recursive call collected exactly the completions through this value
            assert forall|m: Map<int, Seq<u8>>|
                #[trigger] c.ok(m) && m.dom() == c.vars() && m0.submap_of(m) && (exists|t: int|
                    0 <= t < i + 1 && props@[t]@ == m[v as int]) implies exists|t: int|
                out0.len() <= t < out@.len() && out@[t].as_map() == m by {
                let t0 = choose|t: int| 0 <= t < i + 1 && props@[t]@ == m[v as int];
                if t0 < i {
                    let t1 = choose|t: int| out0.len() <= t < out_before.len() && out_before[t].as_map() == m;
                    assert(out@[t1] == out_before[t1]);
                } else {
                    // this very candidate: the recursion covered it
                    assert(m0.insert(v as int, val@).submap_of(m)) by {
                        assert(m.dom().contains(v as int));
                        assert(m[v as int] == val@);
                    }
                    let t1 = choose|t: int|
                        out_before.len() <= t < out@.len() && out@[t].as_map() == m;
                    assert(out0.len() <= t1 < out@.len() && out@[t1].as_map() == m);
                }
            }
        }
        i = i + 1;
    }
    proof {
        assert forall|m: Map<int, Seq<u8>>|
            #[trigger] c.ok(m) && m.dom() == c.vars() && m0.submap_of(m) implies exists|t: int|
            out0.len() <= t < out@.len() && out@[t].as_map() == m by {
            assert(m.dom().contains(v as int));
            let valm = m[v as int];
            assert(m0.insert(v as int, valm).submap_of(m));
            c.lemma_vars_finite();
            assert(m.dom().finite());
            lemma_ok_mono(c, m0.insert(v as int, valm), m);
            c.lemma_complete(v as int, m0, valm);
            assert(exists|t: int| 0 <= t < props@.len() && props@[t]@ == valm);
        }
    }
}


/// A byte-level cursor over a set of fixed-length keys: a current path of
/// key bytes that can be extended (`push`) and retracted (`pop`), with
/// `propose` naming the bytes that continue the path towards a stored key
/// and `peek` short-cutting when only one byte can.
pub trait ByteCursor: Sized {
    spec fn inv(&self) -> bool;

    /// The keys being explored.
    spec fn keys(&self) -> Set<Seq<u8>>;

    /// The fixed key length.
    spec fn klen(&self) -> nat;

    /// The bytes pushed so far.
    spec fn path(&self) -> Seq<u8>;

    proof fn lemma_cursor_shape(&self)
        requires
            self.inv(),
        ensures
            self.klen() <= 0xffff_ffff,
            forall|k: Seq<u8>| #[trigger] self.keys().contains(k) ==> k.len() == self.klen();

    /// If some byte is forced, every stored continuation of the path
    /// starts with it.
    fn peek(&self) -> (r: Option<u8>)
        requires
            self.inv(),
            self.path().len() < self.klen(),
        ensures
            match r {
                Some(b) => forall|k: Seq<u8>| #[trigger]
                    self.keys().contains(k) && self.path().is_prefix_of(k) ==> k[self.path().len() as int]
                        == b,
                None => true,
            },
    ;

    /// Exactly the bytes under which the path continues towards a key.
    fn propose(&self) -> (r: crate::bitset::ByteBitset)
        requires
            self.inv(),
            self.path().len() < self.klen(),
        ensures
            r.inv(),
            forall|b: u8|
                r.mem(b) <==> exists|k: Seq<u8>| #[trigger]
                    self.keys().contains(k) && self.path().push(b).is_prefix_of(k),
    ;

    /// Extend the path by one byte that continues towards a key.
    fn push(&mut self, b: u8)
        requires
            old(self).inv(),
            old(self).path().len() < old(self).klen(),
            exists|k: Seq<u8>| #[trigger]
                old(self).keys().contains(k) && old(self).path().push(b).is_prefix_of(k),
        ensures
            final(self).inv(),
            final(self).keys() == old(self).keys(),
            final(self).klen() == old(self).klen(),
            final(self).path() == old(self).path().push(b),
    ;

    /// Retract the last pushed byte.
    fn pop(&mut self)
        requires
            old(self).inv(),
            old(self).path().len() > 0,
        ensures
            final(self).inv(),
            final(self).keys() == old(self).keys(),
            final(self).klen() == old(self).klen(),
            final(self).path() == old(self).path().drop_last(),
    ;

    /// How many key bytes are still to be chosen below the current path.
    fn segment_count(&self) -> (r: u32)
        requires
            self.inv(),
        ensures
            r as nat == self.klen() - self.path().len(),
    ;
}

/// A depth-first walk over everything a cursor can reach: the exploration
/// driver behind ordered key enumeration.
pub struct CursorIterator<C: ByteCursor> {
    cursor: C,
}

impl<C: ByteCursor> CursorIterator<C> {
    pub closed spec fn inv(&self) -> bool {
        self.cursor.inv() && self.cursor.path() == Seq::<u8>::empty() && self.cursor.klen() >= 1
    }

    /// The keys the wrapped cursor explores.
    pub closed spec fn keys(&self) -> Set<Seq<u8>> {
        self.cursor.keys()
    }

    pub fn new(cursor: C) -> (r: CursorIterator<C>)
        requires
            cursor.inv(),
            cursor.path() == Seq::<u8>::empty(),
            cursor.klen() >= 1,
        ensures
            r.inv(),
            r.keys() == cursor.keys(),
    {
        CursorIterator { cursor }
    }

    /// Every reachable key, one vector per key, no duplicates.
    pub fn collect_keys(&mut self) -> (out: Vec<Vec<u8>>)
        requires
            old(self).inv(),
        ensures
            final(self).inv(),
            final(self).keys() == old(self).keys(),
            forall|i: int| 0 <= i < out@.len() ==> old(self).keys().contains((#[trigger] out@[i])@),
            forall|k: Seq<u8>| #[trigger]
                old(self).keys().contains(k) ==> exists|i: int|
                    0 <= i < out@.len() && out@[i]@ == k,
            forall|i1: int, i2: int| 0 <= i1 < i2 < out@.len() ==> out@[i1]@ != out@[i2]@,
            forall|i1: int, i2: int| 0 <= i1 < i2 < out@.len() ==> lex_lt(out@[i1]@, out@[i2]@),
    {
        let mut out: Vec<Vec<u8>> = Vec::new();
        let mut prefix: Vec<u8> = Vec::new();
        proof {
            assert(prefix@ =~= self.cursor.path());
        }
        collect_from(&mut self.cursor, &mut prefix, &mut out);
        proof {
            assert forall|k: Seq<u8>| #[trigger]
                old(self).keys().contains(k) implies exists|i: int|
                0 <= i < out@.len() && out@[i]@ == k by {
                assert(Seq::<u8>::empty().is_prefix_of(k)) by {
                    assert(k.take(0) =~= Seq::<u8>::empty());
                }
            }
        }
        out
    }
}

/// Explore every continuation of the current path, appending each
/// completed key to `out`.
#[verifier::loop_isolation(false)]
fn collect_from<C: ByteCursor>(cur: &mut C, prefix: &mut Vec<u8>, out: &mut Vec<Vec<u8>>)
    requires
        old(cur).inv(),
        old(prefix)@ == old(cur).path(),
        old(cur).path().len() == old(cur).klen() ==> old(cur).keys().contains(old(cur).path()),
    ensures
        final(cur).inv(),
        final(cur).keys() == old(cur).keys(),
        final(cur).klen() == old(cur).klen(),
        final(cur).path() == old(cur).path(),
        final(prefix)@ == old(prefix)@,
        final(out)@.len() >= old(out)@.len(),
        forall|i: int| 0 <= i < old(out)@.len() ==> final(out)@[i] == old(out)@[i],
        forall|i: int|
            old(out)@.len() <= i < final(out)@.len() ==> old(cur).keys().contains(
                (#[trigger] final(out)@[i])@,
            ) && old(cur).path().is_prefix_of(final(out)@[i]@),
        forall|k: Seq<u8>|
            old(cur).keys().contains(k) && #[trigger] old(cur).path().is_prefix_of(k)
                ==> exists|i: int|
                old(out)@.len() <= i < final(out)@.len() && final(out)@[i]@ == k,
        forall|i1: int, i2: int|
            old(out)@.len() <= i1 < i2 < final(out)@.len() ==> final(out)@[i1]@
                != final(out)@[i2]@,
        forall|i1: int, i2: int|
            old(out)@.len() <= i1 < i2 < final(out)@.len() ==> lex_lt(
                final(out)@[i1]@,
                final(out)@[i2]@,
            ),
    decreases old(cur).klen() - old(cur).path().len(),
{
    proof {
        cur.lemma_cursor_shape();
    }
    let left = cur.segment_count();
    if left == 0 {
        proof {
            assert(cur.keys().contains(prefix@));
        }
        let c = crate::trie::copy_bytes(prefix);
        out.push(c);
        proof {
            assert(cur.path().is_prefix_of(prefix@)) by {
                assert(prefix@.take(cur.path().len() as int) =~= cur.path());
            }
            assert forall|k: Seq<u8>|
                old(cur).keys().contains(k) && #[trigger] old(cur).path().is_prefix_of(
                    k,
                ) implies exists|i: int| old(out)@.len() <= i < out@.len() && out@[i]@ == k by {
                assert(k.len() == cur.klen());
                assert(k =~= prefix@);
                assert(out@[out@.len() - 1]@ == k);
            }
        }
        return ;
    }
    let bits = cur.propose();
    let bytes = bits.elements();
    let ghost out0 = out@;
    let ghost p0 = prefix@;
    let mut j: usize = 0;
    while j < bytes.len()
        invariant
            j <= bytes@.len(),
            cur.inv(),
            cur.keys() == old(cur).keys(),
            cur.klen() == old(cur).klen(),
            cur.path() == p0,
            prefix@ == p0,
            p0.len() < cur.klen(),
            forall|t1: int, t2: int| 0 <= t1 < t2 < bytes@.len() ==> bytes@[t1] < bytes@[t2],
            forall|t: int| 0 <= t < bytes@.len() ==> bits.mem(#[trigger] bytes@[t]),
            forall|b: u8| bits.mem(b) ==> exists|t: int| 0 <= t < bytes@.len() && bytes@[t] == b,
            forall|b: u8|
                bits.mem(b) <==> exists|k: Seq<u8>| #[trigger]
                    cur.keys().contains(k) && p0.push(b).is_prefix_of(k),
            out@.len() >= out0.len(),
            forall|i: int| 0 <= i < out0.len() ==> out@[i] == out0[i],
            forall|i: int|
                out0.len() <= i < out@.len() ==> cur.keys().contains((#[trigger] out@[i])@)
                    && p0.is_prefix_of(out@[i]@) && out@[i]@.len() > p0.len() && (exists|t: int|
                    0 <= t < j && out@[i]@[p0.len() as int] == bytes@[t]),
            forall|k: Seq<u8>|
                cur.keys().contains(k) && #[trigger] p0.is_prefix_of(k) && (exists|t: int|
                    0 <= t < j && k[p0.len() as int] == bytes@[t]) ==> exists|i: int|
                    out0.len() <= i < out@.len() && out@[i]@ == k,
            forall|i1: int, i2: int| out0.len() <= i1 < i2 < out@.len() ==> out@[i1]@ != out@[i2]@,
            forall|i1: int, i2: int|
                out0.len() <= i1 < i2 < out@.len() ==> lex_lt(out@[i1]@, out@[i2]@),
        decreases bytes@.len() - j,
    {
        let b = bytes[j];
        proof {
            assert(bits.mem(b));
        }
        cur.push(b);
        prefix.push(b);
        proof {
            if cur.path().len() == cur.klen() {
                let k = choose|k: Seq<u8>| #[trigger]
                    cur.keys().contains(k) && p0.push(b).is_prefix_of(k);
                cur.lemma_cursor_shape();
                assert(k =~= cur.path());
            }
        }
        let ghost out_before = out@;
        collect_from(cur, prefix, out);
        cur.pop();
        proof {
            assert(cur.path() =~= p0);
        }
        if prefix.len() > 0 {
            prefix.pop();
        }
        proof {
            assert(prefix@ =~= p0);
            cur.lemma_cursor_shape();
            // entries of this round start with byte `b` after the prefix
            assert forall|i: int|
                out_before.len() <= i < out@.len() implies cur.keys().contains(
                (#[trigger] out@[i])@,
            ) && p0.is_prefix_of(out@[i]@) && out@[i]@.len() > p0.len() && out@[i]@[p0.len() as int]
                == b by {
                let k = out@[i]@;
                assert(p0.push(b).is_prefix_of(k));
                assert(k.len() >= p0.len() + 1);
                assert(p0.push(b)[p0.len() as int] == b);
                assert(k.take(p0.len() as int + 1) =~= p0.push(b));
                assert(k[p0.len() as int] == b);
                assert(p0.is_prefix_of(k)) by {
                    assert(k.take(p0.len() as int) =~= p0);
                }
            }
            // distinctness across rounds: earlier entries continue with an
            // earlier byte
            assert forall|i1: int, i2: int|
                out0.len() <= i1 < i2 < out@.len() implies out@[i1]@ != out@[i2]@ by {
                if i1 < out_before.len() && i2 >= out_before.len() {
                    if out@[i1]@ == out@[i2]@ {
                        let t = choose|t: int|
                            0 <= t < j && out@[i1]@[p0.len() as int] == bytes@[t];
                        assert(out@[i2]@[p0.len() as int] == b);
                        assert(bytes@[t] < bytes@[j as int]);
                    }
                }
            }
            // and they order below the new ones lexicographically
            assert forall|i1: int, i2: int|
                out0.len() <= i1 < i2 < out@.len() implies lex_lt(out@[i1]@, out@[i2]@) by {
                if i2 < out_before.len() {
                    assert(out@[i1] == out_before[i1]);
                    assert(out@[i2] == out_before[i2]);
                } else if i1 < out_before.len() {
                    let k1 = out@[i1]@;
                    let k2 = out@[i2]@;
                    assert(out@[i1] == out_before[i1]);
                    let t = choose|t: int| 0 <= t < j && k1[p0.len() as int] == bytes@[t];
                    assert(k2[p0.len() as int] == b);
                    assert(bytes@[t] < bytes@[j as int]);
                    assert forall|u: int| 0 <= u < p0.len() implies k1[u] == k2[u] by {
                        assert(p0[u] == k1.take(p0.len() as int)[u]);
                        assert(p0[u] == k2.take(p0.len() as int)[u]);
                    }
                    lemma_lex_prefix(k1, k2, p0.len() as int);
                }
            }
            // completeness for bytes through this round
            assert forall|k: Seq<u8>|
                cur.keys().contains(k) && #[trigger] p0.is_prefix_of(k) && (exists|t: int|
                    0 <= t < j + 1 && k[p0.len() as int] == bytes@[t]) implies exists|i: int|
                out0.len() <= i < out@.len() && out@[i]@ == k by {
                let t = choose|t: int| 0 <= t < j + 1 && k[p0.len() as int] == bytes@[t];
                if t < j {
                    let i = choose|i: int| out0.len() <= i < out_before.len() && out_before[i]@ == k;
                    assert(out@[i]@ == k);
                } else {
                    assert(k[p0.len() as int] == b);
                    assert(p0.push(b).is_prefix_of(k)) by {
                        assert(k.take(p0.len() as int + 1) =~= p0.push(b));
                    }
                    let i = choose|i: int|
                        out_before.len() <= i < out@.len() && out@[i]@ == k;
                    assert(out0.len() <= i < out@.len() && out@[i]@ == k);
                }
            }
        }
        j = j + 1;
    }
    proof {
        assert forall|k: Seq<u8>|
            old(cur).keys().contains(k) && #[trigger] old(cur).path().is_prefix_of(
                k,
            ) implies exists|i: int| out0.len() <= i < out@.len() && out@[i]@ == k by {
            cur.lemma_cursor_shape();
            assert(k.len() == cur.klen());
            let b = k[p0.len() as int];
            assert(p0.push(b).is_prefix_of(k)) by {
                assert(k.take(p0.len() as int + 1) =~= p0.push(b));
            }
            assert(bits.mem(b));
            let t = choose|t: int| 0 <= t < bytes@.len() && bytes@[t] == b;
            assert(exists|t2: int| 0 <= t2 < j && k[p0.len() as int] == bytes@[t2]);
        }
    }
}

} // verus!
