//! The fact record: a triple of entity, attribute and value with fixed
//! field widths, plus the conversions between 16-byte identifiers and the
//! 32-byte value slots that embed them.

use vstd::prelude::*;

verus! {

/// Width of an entity or attribute identifier, in bytes.
pub const ID_LEN: usize = 16;

/// Width of a value slot, in bytes.
pub const VALUE_LEN: usize = 32;

/// Width of a whole triple record, in bytes.
pub const TRIBLE_LEN: usize = 64;

/// A 128-bit identifier, as its 16 bytes.
pub type RawId = Vec<u8>;

/// A 256-bit value slot, as its 32 bytes.
pub type RawValue = Vec<u8>;

/// A 16-byte identifier embedded in a 32-byte value slot: zeros, then the id.
pub open spec fn pad_id(id: Seq<u8>) -> Seq<u8> {
    Seq::new(16, |i: int| 0u8) + id
}

/// Distinct identifiers embed as distinct values.
pub proof fn lemma_pad_id_injective(a: Seq<u8>, b: Seq<u8>)
    requires
        pad_id(a) == pad_id(b),
    ensures
        a == b,
{
    assert(pad_id(a).skip(16) =~= a);
    assert(pad_id(b).skip(16) =~= b);
}

/// Embed an identifier in a value slot.
pub fn id_into_value(id: &RawId) -> (r: RawValue)
    requires
        id@.len() == ID_LEN,
    ensures
        r@ == pad_id(id@),
        r@.len() == VALUE_LEN,
{
    let mut r: Vec<u8> = Vec::new();
    let mut i: usize = 0;
    while i < 16
        invariant
            i <= 16,
            r@.len() == i,
            forall|j: int| 0 <= j < i ==> r@[j] == 0u8,
        decreases 16 - i,
    {
        r.push(0u8);
        i = i + 1;
    }
    let mut j: usize = 0;
    while j < id.len()
        invariant
            j <= id@.len(),
            id@.len() == 16,
            r@.len() == 16 + j,
            forall|t: int| 0 <= t < 16 ==> r@[t] == 0u8,
            forall|t: int| 0 <= t < j ==> r@[16 + t] == id@[t],
        decreases id@.len() - j,
    {
        let x = id[j];
        r.push(x);
        j = j + 1;
    }
    proof {
        assert(r@ =~= pad_id(id@));
    }
    r
}

/// Recover the identifier from a value slot, if the slot embeds one: the
/// first sixteen bytes must all be zero.
pub fn id_from_value(v: &RawValue) -> (r: Option<RawId>)
    requires
        v@.len() == VALUE_LEN,
    ensures
        match r {
            Some(id) => id@.len() == ID_LEN && v@ == pad_id(id@),
            None => forall|s: Seq<u8>| v@ != pad_id(s),
        },
{
    let mut i: usize = 0;
    while i < 16
        invariant
            i <= 16,
            v@.len() == 32,
            forall|j: int| 0 <= j < i ==> v@[j] == 0u8,
        decreases 16 - i,
    {
        if v[i] != 0 {
            proof {
                assert forall|s: Seq<u8>| v@ != pad_id(s) by {
                    if v@ == pad_id(s) {
                        assert(pad_id(s)[i as int] == 0u8);
                    }
                }
            }
            return None;
        }
        i = i + 1;
    }
    let mut id: Vec<u8> = Vec::new();
    let mut j: usize = 16;
    while j < 32
        invariant
            16 <= j <= 32,
            v@.len() == 32,
            id@.len() == j - 16,
            forall|t: int| 0 <= t < j - 16 ==> id@[t] == v@[16 + t],
        decreases 32 - j,
    {
        let x = v[j];
        id.push(x);
        j = j + 1;
    }
    proof {
        assert(v@ =~= pad_id(id@));
    }
    Some(id)
}

/// Why a raw value could not serve as an identifier field of a triple.
pub enum TribleError {
    /// The entity slot does not embed an identifier.
    EntityNotAnId,
    /// The attribute slot does not embed an identifier.
    AttributeNotAnId,
}

/// One fact: entity id, attribute id, value, laid out as 64 contiguous
/// bytes.
pub struct Trible {
    data: Vec<u8>,
}

impl Trible {
    pub closed spec fn wf(&self) -> bool {
        self.data@.len() == TRIBLE_LEN
    }

    /// The entity field, as bytes.
    pub closed spec fn e_spec(&self) -> Seq<u8> {
        self.data@.subrange(0, 16)
    }

    /// The attribute field, as bytes.
    pub closed spec fn a_spec(&self) -> Seq<u8> {
        self.data@.subrange(16, 32)
    }

    /// The value field, as bytes.
    pub closed spec fn v_spec(&self) -> Seq<u8> {
        self.data@.subrange(32, 64)
    }

    /// The three fields have the fixed widths.
    pub proof fn lemma_field_lens(&self)
        requires
            self.wf(),
        ensures
            self.e_spec().len() == 16,
            self.a_spec().len() == 16,
            self.v_spec().len() == 32,
    {
    }

    /// Build a triple from its three fields.
    pub fn new(e: &RawId, a: &RawId, v: &RawValue) -> (r: Trible)
        requires
            e@.len() == ID_LEN,
            a@.len() == ID_LEN,
            v@.len() == VALUE_LEN,
        ensures
            r.wf(),
            r.e_spec() == e@,
            r.a_spec() == a@,
            r.v_spec() == v@,
    {
        let mut data: Vec<u8> = Vec::new();
        let mut i: usize = 0;
        while i < e.len()
            invariant
                i <= e@.len(),
                e@.len() == 16,
                data@ == e@.take(i as int),
            decreases e@.len() - i,
        {
            let x = e[i];
            data.push(x);
            proof {
                assert(e@.take(i as int + 1) =~= e@.take(i as int).push(e@[i as int]));
            }
            i = i + 1;
        }
        proof {
            assert(e@.take(16) =~= e@);
        }
        let mut j: usize = 0;
        while j < a.len()
            invariant
                j <= a@.len(),
                a@.len() == 16,
                data@ == e@ + a@.take(j as int),
            decreases a@.len() - j,
        {
            let x = a[j];
            data.push(x);
            proof {
                assert(a@.take(j as int + 1) =~= a@.take(j as int).push(a@[j as int]));
                assert(data@ =~= e@ + a@.take(j as int + 1));
            }
            j = j + 1;
        }
        proof {
            assert(a@.take(16) =~= a@);
        }
        let mut t: usize = 0;
        while t < v.len()
            invariant
                t <= v@.len(),
                v@.len() == 32,
                data@ == e@ + a@ + v@.take(t as int),
            decreases v@.len() - t,
        {
            let x = v[t];
            data.push(x);
            proof {
                assert(v@.take(t as int + 1) =~= v@.take(t as int).push(v@[t as int]));
                assert(data@ =~= e@ + a@ + v@.take(t as int + 1));
            }
            t = t + 1;
        }
        proof {
            assert(v@.take(32) =~= v@);
        }
        let r = Trible { data };
        proof {
            assert(r.e_spec() =~= e@);
            assert(r.a_spec() =~= a@);
            assert(r.v_spec() =~= v@);
        }
        r
    }

    /// Build a triple from three 32-byte slots; the entity and attribute
    /// slots must embed identifiers, else the matching error is returned.
    pub fn new_raw_values(e: &RawValue, a: &RawValue, v: &RawValue) -> (r: Result<
        Trible,
        TribleError,
    >)
        requires
            e@.len() == VALUE_LEN,
            a@.len() == VALUE_LEN,
            v@.len() == VALUE_LEN,
        ensures
            match r {
                Ok(t) => t.wf() && e@ == pad_id(t.e_spec()) && a@ == pad_id(t.a_spec())
                    && t.v_spec() == v@ && (exists|s: Seq<u8>| e@ == pad_id(s)) && (exists|s: Seq<u8>|
                    a@ == pad_id(s)),
                Err(TribleError::EntityNotAnId) => forall|s: Seq<u8>| e@ != pad_id(s),
                Err(TribleError::AttributeNotAnId) => (exists|s: Seq<u8>| e@ == pad_id(s))
                    && forall|s: Seq<u8>| a@ != pad_id(s),
            },
    {
        let eid = match id_from_value(e) {
            Some(eid) => eid,
            None => {
                return Err(TribleError::EntityNotAnId);
            },
        };
        let aid = match id_from_value(a) {
            Some(aid) => aid,
            None => {
                return Err(TribleError::AttributeNotAnId);
            },
        };
        let t = Trible::new(&eid, &aid, v);
        Ok(t)
    }

    /// The entity identifier.
    pub fn e(&self) -> (r: RawId)
        requires
            self.wf(),
        ensures
            r@ == self.e_spec(),
    {
        let mut r: Vec<u8> = Vec::new();
        let mut i: usize = 0;
        while i < 16
            invariant
                i <= 16,
                self.wf(),
                r@ == self.data@.subrange(0, i as int),
            decreases 16 - i,
        {
            let x = self.data[i];
            r.push(x);
            proof {
                assert(self.data@.subrange(0, i as int + 1) =~= self.data@.subrange(
                    0,
                    i as int,
                ).push(self.data@[i as int]));
            }
            i = i + 1;
        }
        r
    }

    /// The attribute identifier.
    pub fn a(&self) -> (r: RawId)
        requires
            self.wf(),
        ensures
            r@ == self.a_spec(),
    {
        let mut r: Vec<u8> = Vec::new();
        let mut i: usize = 16;
        while i < 32
            invariant
                16 <= i <= 32,
                self.wf(),
                r@ == self.data@.subrange(16, i as int),
            decreases 32 - i,
        {
            let x = self.data[i];
            r.push(x);
            proof {
                assert(self.data@.subrange(16, i as int + 1) =~= self.data@.subrange(
                    16,
                    i as int,
                ).push(self.data@[i as int]));
            }
            i = i + 1;
        }
        r
    }

    /// The value slot.
    pub fn v(&self) -> (r: RawValue)
        requires
            self.wf(),
        ensures
            r@ == self.v_spec(),
    {
        let mut r: Vec<u8> = Vec::new();
        let mut i: usize = 32;
        while i < 64
            invariant
                32 <= i <= 64,
                self.wf(),
                r@ == self.data@.subrange(32, i as int),
            decreases 64 - i,
        {
            let x = self.data[i];
            r.push(x);
            proof {
                assert(self.data@.subrange(32, i as int + 1) =~= self.data@.subrange(
                    32,
                    i as int,
                ).push(self.data@[i as int]));
            }
            i = i + 1;
        }
        r
    }
}

} // verus!
