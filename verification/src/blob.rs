//! Blobs: out-of-line byte payloads addressed by content.  The buffer
//! itself is the cheaply cloneable byte container of `anybytes`; the core
//! treats its contents as an opaque byte string.

use vstd::prelude::*;
use vstd::string::StringSliceAdditionalSpecFns;

pub mod longstring;

verus! {

#[verifier::external_type_specification]
#[verifier::external_body]
pub struct ExBytes(anybytes::Bytes);

#[verifier::external_type_specification]
#[verifier::external_body]
pub struct ExViewError(anybytes::view::ViewError);

/// The bytes a buffer holds.
pub uninterp spec fn byte_content(b: anybytes::Bytes) -> Seq<u8>;

/// Is a byte string valid UTF-8?  Decided by the validating view of
/// `anybytes` below.
pub uninterp spec fn utf8_ok(bytes: Seq<u8>) -> bool;

/// Relies on `Bytes::from` for `Vec<u8>`: the buffer takes over exactly
/// the vector's bytes.
#[verifier::external_body]
pub(crate) fn bytes_from_vec(v: Vec<u8>) -> (r: anybytes::Bytes)
    ensures
        byte_content(r) == v@,
{
    anybytes::Bytes::from(v)
}

/// Relies on the `[u8]` view of `Bytes`: reading the content back out.
#[verifier::external_body]
pub(crate) fn bytes_to_vec(b: &anybytes::Bytes) -> (r: Vec<u8>)
    ensures
        r@ == byte_content(*b),
{
    b.as_ref().to_vec()
}

/// Relies on `Bytes::view::<str>`: it succeeds exactly when the content
/// is valid UTF-8, and the validated view covers the same bytes, read
/// back out as an owned string.
#[verifier::external_body]
pub(crate) fn bytes_to_string(b: anybytes::Bytes) -> (r: Result<
    String,
    anybytes::view::ViewError,
>)
    ensures
        match r {
            Ok(s) => utf8_ok(byte_content(b)) && (exists|t: &str|
                t@ == s@ && t.spec_bytes() == byte_content(b)),
            Err(_) => !utf8_ok(byte_content(b)),
        },
{
    match b.view::<str>() {
        Ok(vw) => Ok((&*vw).to_string()),
        Err(e) => Err(e),
    }
}

/// Relies on `str::as_bytes`: the bytes returned are the string's UTF-8
/// representation, which the validating view accepts, since a string
/// slice is valid UTF-8 by construction.
#[verifier::external_body]
pub(crate) fn str_bytes(s: &str) -> (r: Vec<u8>)
    ensures
        r@ == s.spec_bytes(),
        utf8_ok(r@),
{
    s.as_bytes().to_vec()
}

/// A blob: a byte buffer to be stored out of line and addressed by its
/// digest.
pub struct Blob {
    pub bytes: anybytes::Bytes,
}

/// A blob schema: a way of reading a blob's bytes, named by a 16-byte
/// identifier.
pub trait BlobSchema {
    /// The identifier of this schema.
    fn blob_schema_id() -> (r: Vec<u8>)
        ensures
            r@.len() == 16,
    ;
}

impl Blob {
    /// The bytes this blob holds.
    pub open spec fn content(&self) -> Seq<u8> {
        byte_content(self.bytes)
    }

    /// Wrap a byte vector.
    pub fn new(v: Vec<u8>) -> (r: Blob)
        ensures
            r.content() == v@,
    {
        Blob { bytes: bytes_from_vec(v) }
    }

    /// Copy the bytes out.
    pub fn to_vec(&self) -> (r: Vec<u8>)
        ensures
            r@ == self.content(),
    {
        bytes_to_vec(&self.bytes)
    }
}

} // verus!
