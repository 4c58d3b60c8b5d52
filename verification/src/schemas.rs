//! Value schemas: tags that say how a 32-byte value slot is to be read.
//! The core never interprets slot contents; schemas matter to it only as
//! identities, so a schema is a type with a 16-byte schema identifier.

use vstd::prelude::*;

pub mod handle;

verus! {

/// A value schema: a way of reading a 32-byte slot, named by a 16-byte
/// identifier.
pub trait ValueSchema {
    /// The identifier of this schema.
    fn schema_id() -> (r: Vec<u8>)
        ensures
            r@.len() == 16,
    ;
}

/// The schema of slots that embed a 16-byte entity or attribute identifier.
pub struct GenId {}

impl ValueSchema for GenId {
    fn schema_id() -> (r: Vec<u8>) {
        let mut r: Vec<u8> = Vec::new();
        let mut i: usize = 0;
        while i < 16
            invariant
                i <= 16,
                r@.len() == i,
            decreases 16 - i,
        {
            r.push(173u8);
            i = i + 1;
        }
        r
    }
}

/// The schema of slots whose interpretation is unknown.
pub struct UnknownValue {}

impl ValueSchema for UnknownValue {
    fn schema_id() -> (r: Vec<u8>) {
        let bytes: [u8; 16] = [
            0x4e,
            0xc6,
            0x97,
            0xe8,
            0x59,
            0x9a,
            0xc7,
            0x9d,
            0x66,
            0x7c,
            0x72,
            0x2e,
            0x2c,
            0x8b,
            0xeb,
            0xf4,
        ];
        let mut r: Vec<u8> = Vec::new();
        let mut i: usize = 0;
        while i < 16
            invariant
                i <= 16,
                r@.len() == i,
            decreases 16 - i,
        {
            r.push(bytes[i]);
            i = i + 1;
        }
        r
    }
}

} // verus!
