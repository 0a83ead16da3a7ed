//! The content of a blob, as `bytes::Bytes`.

use vstd::prelude::*;

verus! {

/// The bytes that a `bytes::Bytes` holds, in order.
pub uninterp spec fn bytes_content(bytes: bytes::Bytes) -> Seq<u8>;

/// `bytes::Bytes`, a cheaply shared byte string.
#[verifier::external_type_specification]
#[verifier::external_body]
pub struct ExBytes(bytes::Bytes);

/// Calls `<bytes::Bytes as From<Vec<u8>>>::from`: the result takes the vector's
/// buffer over and holds its bytes in their order.
#[verifier::external_body]
pub(crate) fn bytes_from_vec(content: Vec<u8>) -> (bytes: bytes::Bytes)
    ensures
        bytes_content(bytes) == content@,
{
    bytes::Bytes::from(content)
}

/// Calls `bytes::Bytes::new`: the result holds nothing.
#[verifier::external_body]
pub(crate) fn no_bytes() -> (bytes: bytes::Bytes)
    ensures
        bytes_content(bytes) == Seq::<u8>::empty(),
{
    bytes::Bytes::new()
}

} // verus!
