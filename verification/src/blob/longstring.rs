//! The long-string blob schema: a blob holding the UTF-8 bytes of a
//! string of unbounded length.

use vstd::prelude::*;
use crate::blob::Blob;
use crate::blob::BlobSchema;
use crate::blob::bytes_to_string;
use crate::blob::str_bytes;
use crate::blob::utf8_ok;
use vstd::string::StringSliceAdditionalSpecFns;

verus! {

/// The schema of blobs holding one long string.
pub struct LongString {}

impl BlobSchema for LongString {
    fn blob_schema_id() -> (r: Vec<u8>) {
        let bytes: [u8; 16] = [
            0x8b,
            0x17,
            0x3c,
            0x65,
            0xb7,
            0xdb,
            0x60,
            0x1a,
            0x11,
            0xe8,
            0xa1,
            0x90,
            0xbd,
            0x77,
            0x4a,
            0x79,
        ];
        let mut r: Vec<u8> = Vec::new();
        let mut i: usize = 0;
        while i < 16
            invariant
                i <= 16,
                r@.len() == i,
            decreases 16 - i,
        {
            r.push(bytes[i]);
            i = i + 1;
        }
        r
    }
}

/// A string slice as a long-string blob: the blob holds its UTF-8 bytes.
pub fn str_to_blob(s: &str) -> (r: Blob)
    ensures
        r.content() == s.spec_bytes(),
        utf8_ok(r.content()),
{
    let v = str_bytes(s);
    Blob::new(v)
}

/// An owned string as a long-string blob.
pub fn string_to_blob(s: String) -> (r: Blob)
    ensures
        exists|t: &str| t@ == s@ && r.content() == t.spec_bytes(),
        utf8_ok(r.content()),
{
    let t = s.as_str();
    let r = str_to_blob(t);
    proof {
        assert(t@ == s@ && r.content() == t.spec_bytes());
    }
    r
}

/// Read a long-string blob back as an owned string.  Succeeds exactly
/// when the blob's bytes are valid UTF-8, and the string holds exactly
/// those bytes.
pub fn try_from_blob(b: Blob) -> (r: Result<String, anybytes::view::ViewError>)
    ensures
        match r {
            Ok(s) => utf8_ok(b.content()) && (exists|t: &str|
                t@ == s@ && t.spec_bytes() == b.content()),
            Err(_) => !utf8_ok(b.content()),
        },
{
    bytes_to_string(b.bytes)
}

} // verus!
