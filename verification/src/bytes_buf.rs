//! The byte buffer of the `bytes` crate, as far as the library uses it.
//! Nothing in this file is proved: each contract says what the crate's
//! source shows of the function that is called.

use vstd::prelude::*;
use vstd::string::StringSliceAdditionalSpecFns;

verus! {

/// `bytes::BytesMut`, a growable buffer of bytes. Nothing of what is
/// inside is known here but through the functions below.
#[verifier::external_type_specification]
#[verifier::external_body]
pub struct ExBytesMut(bytes::BytesMut);

/// The bytes that a buffer holds, first to last.
pub uninterp spec fn buffer_contents(b: bytes::BytesMut) -> Seq<u8>;

/// `BytesMut::from(&str)`: a new buffer that holds a copy of the string's
/// bytes.
#[verifier::external_body]
pub(crate) fn buffer_from_str(s: &str) -> (b: bytes::BytesMut)
    ensures
        buffer_contents(b) == s.spec_bytes(),
{
    bytes::BytesMut::from(s)
}

/// `BytesMut::len`: the number of bytes in the buffer.
#[verifier::external_body]
pub(crate) fn buffer_len(b: &bytes::BytesMut) -> (n: usize)
    ensures
        n == buffer_contents(*b).len(),
{
    b.len()
}

/// `BytesMut::extend_from_slice`: the given bytes are appended to the
/// buffer, which grows if it has to. Growing panics where the new size
/// would be more than an allocation can have; such a call is ruled out.
#[verifier::external_body]
pub(crate) fn buffer_extend(b: &mut bytes::BytesMut, extend: &[u8])
    requires
        buffer_contents(*old(b)).len() + extend@.len() <= isize::MAX,
    ensures
        buffer_contents(*final(b)) == buffer_contents(*old(b)) + extend@,
{
    b.extend_from_slice(extend)
}

/// `BytesMut::as_ref`: the bytes of the buffer as a slice.
#[verifier::external_body]
pub(crate) fn buffer_bytes(b: &bytes::BytesMut) -> (s: &[u8])
    ensures
        s@ == buffer_contents(*b),
{
    b.as_ref()
}

} // verus!
