//! Fractions in 32-byte slots: a 128-bit numerator and a 128-bit
//! denominator, little- or big-endian.  Reduction to lowest terms is done
//! by the rational arithmetic of `num_rational`.

use vstd::prelude::*;
use crate::schemas::ValueSchema;
use crate::trible::RawValue;

verus! {

/// The fraction schema with little-endian fields.
pub struct FR256LE {}

/// The fraction schema with big-endian fields.
pub struct FR256BE {}

impl ValueSchema for FR256LE {
    fn schema_id() -> (r: Vec<u8>) {
        let bytes: [u8; 16] = [
            0x0a,
            0x9b,
            0x43,
            0xc5,
            0xc2,
            0xec,
            0xd4,
            0x5b,
            0x25,
            0x7c,
            0xde,
            0xfc,
            0x16,
            0x54,
            0x43,
            0x58,
        ];
        let mut r: Vec<u8> = Vec::new();
        let mut i: usize = 0;
        while i < 16
            invariant
                i <= 16,
                r@.len() == i,
            decreases 16 - i,
        {
            r.push(bytes[i]);
            i = i + 1;
        }
        r
    }
}

impl ValueSchema for FR256BE {
    fn schema_id() -> (r: Vec<u8>) {
        let bytes: [u8; 16] = [
            0xca,
            0x5e,
            0xaf,
            0x56,
            0x71,
            0x71,
            0x77,
            0x2c,
            0x1f,
            0xfd,
            0x77,
            0x6e,
            0x9c,
            0x7c,
            0x02,
            0xd1,
        ];
        let mut r: Vec<u8> = Vec::new();
        let mut i: usize = 0;
        while i < 16
            invariant
                i <= 16,
                r@.len() == i,
            decreases 16 - i,
        {
            r.push(bytes[i]);
            i = i + 1;
        }
        r
    }
}

/// The number a byte string holds in little-endian order.
pub open spec fn le_val(s: Seq<u8>) -> nat
    decreases s.len(),
{
    if s.len() == 0 {
        0
    } else {
        (s.first() as nat) + 256 * le_val(s.drop_first())
    }
}

/// The number a byte string holds in big-endian order.
pub open spec fn be_val(s: Seq<u8>) -> nat
    decreases s.len(),
{
    if s.len() == 0 {
        0
    } else {
        be_val(s.drop_last()) * 256 + (s.last() as nat)
    }
}

/// Relies on `i128::to_le_bytes`: the sixteen bytes hold the value's
/// two's-complement representation in little-endian order.
#[verifier::external_body]
fn i128_to_le(n: i128) -> (r: Vec<u8>)
    ensures
        r@.len() == 16,
        le_val(r@) == (n as u128) as nat,
{
    n.to_le_bytes().to_vec()
}

/// Relies on `i128::from_le_bytes`: reading the little-endian bytes back.
#[verifier::external_body]
fn i128_from_le(v: &Vec<u8>) -> (r: i128)
    requires
        v@.len() == 16,
    ensures
        (r as u128) as nat == le_val(v@),
{
    let mut b: [u8; 16] = [0u8; 16];
    b.copy_from_slice(v.as_slice());
    i128::from_le_bytes(b)
}

/// Relies on `i128::to_be_bytes`: big-endian order.
#[verifier::external_body]
fn i128_to_be(n: i128) -> (r: Vec<u8>)
    ensures
        r@.len() == 16,
        be_val(r@) == (n as u128) as nat,
{
    n.to_be_bytes().to_vec()
}

/// Relies on `i128::from_be_bytes`: reading the big-endian bytes back.
#[verifier::external_body]
fn i128_from_be(v: &Vec<u8>) -> (r: i128)
    requires
        v@.len() == 16,
    ensures
        (r as u128) as nat == be_val(v@),
{
    let mut b: [u8; 16] = [0u8; 16];
    b.copy_from_slice(v.as_slice());
    i128::from_be_bytes(b)
}

/// The reducing constructor of `num_rational`, on plain parts.  Relies on
/// `Ratio::new` bringing the fraction to lowest terms while keeping the
/// denominator positive, and on `numer`/`denom` reading the parts back:
/// the result denotes the same rational, by cross-multiplication.
#[verifier::external_body]
fn ratio_reduce(n: i128, d: i128) -> (r: (i128, i128))
    requires
        d >= 1,
    ensures
        r.1 >= 1,
        (r.0 as int) * (d as int) == (r.1 as int) * (n as int),
{
    let q = num_rational::Ratio::new(n, d);
    (*q.numer(), *q.denom())
}

/// Why a slot or a fraction could not be converted.
pub enum FractionError {
    /// The denominator field is zero.
    ZeroDenominator,
    /// The fraction cannot be brought to a positive denominator in range.
    OutOfRange,
}

/// Encode a fraction little-endian: numerator bytes, then denominator
/// bytes.
pub fn pack_le(n: i128, d: i128) -> (v: RawValue)
    ensures
        v@.len() == 32,
        le_val(v@.take(16)) == (n as u128) as nat,
        le_val(v@.skip(16)) == (d as u128) as nat,
{
    let nb = i128_to_le(n);
    let db = i128_to_le(d);
    let v = crate::hashtribleset::concat(&nb, &db);
    proof {
        assert(v@.take(16) =~= nb@);
        assert(v@.skip(16) =~= db@);
    }
    v
}

/// Decode a little-endian fraction slot; a zero denominator is malformed.
pub fn unpack_le(v: &RawValue) -> (r: Result<(i128, i128), FractionError>)
    requires
        v@.len() == 32,
    ensures
        match r {
            Ok(p) => (p.0 as u128) as nat == le_val(v@.take(16)) && (p.1 as u128) as nat == le_val(
                v@.skip(16),
            ) && p.1 != 0,
            Err(e) => e is ZeroDenominator && le_val(v@.skip(16)) == 0,
        },
{
    let mut nb: Vec<u8> = Vec::new();
    let mut i: usize = 0;
    while i < 16
        invariant
            i <= 16,
            v@.len() == 32,
            nb@ == v@.take(16).take(i as int),
        decreases 16 - i,
    {
        let x = v[i];
        nb.push(x);
        proof {
            assert(v@.take(16).take(i as int + 1) =~= v@.take(16).take(i as int).push(v@[i as int]));
        }
        i = i + 1;
    }
    proof {
        assert(v@.take(16).take(16) =~= v@.take(16));
    }
    let mut db: Vec<u8> = Vec::new();
    let mut j: usize = 16;
    while j < 32
        invariant
            16 <= j <= 32,
            v@.len() == 32,
            db@ == v@.skip(16).take(j - 16),
        decreases 32 - j,
    {
        let x = v[j];
        db.push(x);
        proof {
            assert(v@.skip(16).take(j - 16 + 1) =~= v@.skip(16).take(j - 16).push(v@[j as int]));
        }
        j = j + 1;
    }
    proof {
        assert(v@.skip(16).take(16) =~= v@.skip(16));
    }
    let n = i128_from_le(&nb);
    let d = i128_from_le(&db);
    if d == 0 {
        proof {
            assert((0i128 as u128) as nat == 0);
        }
        Err(FractionError::ZeroDenominator)
    } else {
        Ok((n, d))
    }
}

/// Encode a fraction big-endian.
pub fn pack_be(n: i128, d: i128) -> (v: RawValue)
    ensures
        v@.len() == 32,
        be_val(v@.take(16)) == (n as u128) as nat,
        be_val(v@.skip(16)) == (d as u128) as nat,
{
    let nb = i128_to_be(n);
    let db = i128_to_be(d);
    let v = crate::hashtribleset::concat(&nb, &db);
    proof {
        assert(v@.take(16) =~= nb@);
        assert(v@.skip(16) =~= db@);
    }
    v
}

/// Decode a big-endian fraction slot; a zero denominator is malformed.
pub fn unpack_be(v: &RawValue) -> (r: Result<(i128, i128), FractionError>)
    requires
        v@.len() == 32,
    ensures
        match r {
            Ok(p) => (p.0 as u128) as nat == be_val(v@.take(16)) && (p.1 as u128) as nat == be_val(
                v@.skip(16),
            ) && p.1 != 0,
            Err(e) => e is ZeroDenominator && be_val(v@.skip(16)) == 0,
        },
{
    let mut nb: Vec<u8> = Vec::new();
    let mut i: usize = 0;
    while i < 16
        invariant
            i <= 16,
            v@.len() == 32,
            nb@ == v@.take(16).take(i as int),
        decreases 16 - i,
    {
        let x = v[i];
        nb.push(x);
        proof {
            assert(v@.take(16).take(i as int + 1) =~= v@.take(16).take(i as int).push(v@[i as int]));
        }
        i = i + 1;
    }
    proof {
        assert(v@.take(16).take(16) =~= v@.take(16));
    }
    let mut db: Vec<u8> = Vec::new();
    let mut j: usize = 16;
    while j < 32
        invariant
            16 <= j <= 32,
            v@.len() == 32,
            db@ == v@.skip(16).take(j - 16),
        decreases 32 - j,
    {
        let x = v[j];
        db.push(x);
        proof {
            assert(v@.skip(16).take(j - 16 + 1) =~= v@.skip(16).take(j - 16).push(v@[j as int]));
        }
        j = j + 1;
    }
    proof {
        assert(v@.skip(16).take(16) =~= v@.skip(16));
    }
    let n = i128_from_be(&nb);
    let d = i128_from_be(&db);
    if d == 0 {
        Err(FractionError::ZeroDenominator)
    } else {
        Ok((n, d))
    }
}

/// Bring a fraction to lowest terms with a positive denominator, using
/// the rational arithmetic of `num_rational`.  The result denotes the
/// same rational: cross-multiplication with the input agrees.
pub fn reduce_fraction(n: i128, d: i128) -> (r: Result<(i128, i128), FractionError>)
    ensures
        match r {
            Ok(p) => d != 0 && p.1 >= 1 && (p.0 as int) * (d as int) == (p.1 as int) * (n as int),
            Err(FractionError::ZeroDenominator) => d == 0,
            Err(FractionError::OutOfRange) => d < 0 && (n == i128::MIN || d == i128::MIN),
        },
{
    if d == 0 {
        return Err(FractionError::ZeroDenominator);
    }
    if d >= 1 {
        let p = ratio_reduce(n, d);
        return Ok(p);
    }
    // negative denominator: move the sign to the numerator first
    if n == i128::MIN || d == i128::MIN {
        return Err(FractionError::OutOfRange);
    }
    let p = ratio_reduce(-n, -d);
    proof {
        assert((p.0 as int) * (d as int) == (p.1 as int) * (n as int)) by {
            assert((p.0 as int) * ((-d) as int) == (p.1 as int) * ((-n) as int));
            assert((p.0 as int) * ((-d) as int) == -((p.0 as int) * (d as int)))
                by (nonlinear_arith);
            assert((p.1 as int) * ((-n) as int) == -((p.1 as int) * (n as int)))
                by (nonlinear_arith);
        }
    }
    Ok(p)
}

} // verus!
