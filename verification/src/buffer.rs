//! Shared, immutable byte buffers.
//!
//! Keys, values and log payloads are [`bytes::Bytes`]. The verifier does not
//! look inside that type: what a buffer holds is named by [`octets`], and the
//! functions below tie each operation of the `bytes` crate to that name.

use bytes::Bytes;
use vstd::prelude::*;

verus! {

/// `bytes::Bytes`, an opaque handle to a run of bytes.
#[verifier::external_type_specification]
#[verifier::external_body]
pub struct ExBytes(bytes::Bytes);

/// The bytes that a buffer holds.
pub uninterp spec fn octets(b: Bytes) -> Seq<u8>;

/// `Bytes::new`: the buffer that holds nothing.
pub assume_specification[ Bytes::new ]() -> (b: Bytes)
    ensures
        octets(b) == Seq::<u8>::empty(),
;

/// `Bytes::copy_from_slice`: a buffer that holds a copy of `data`.
pub assume_specification[ Bytes::copy_from_slice ](data: &[u8]) -> (b: Bytes)
    ensures
        octets(b) == data@,
;

/// `Bytes::len`: how many bytes the buffer holds.
pub assume_specification[ Bytes::len ](b: &Bytes) -> (n: usize)
    ensures
        n == octets(*b).len(),
;

/// `Bytes::is_empty`: whether the buffer holds no byte.
pub assume_specification[ Bytes::is_empty ](b: &Bytes) -> (r: bool)
    ensures
        r == (octets(*b).len() == 0),
;

/// `<Bytes as From<Vec<u8>>>::from`: a buffer that takes over the vector and
/// holds the same bytes.
#[verifier::external_body]
pub(crate) fn from_vec(v: Vec<u8>) -> (b: Bytes)
    ensures
        octets(b) == v@,
{
    Bytes::from(v)
}

/// `<Bytes as AsRef<[u8]>>::as_ref`: the bytes of the buffer as a slice.
#[verifier::external_body]
pub(crate) fn as_slice(b: &Bytes) -> (s: &[u8])
    ensures
        s@ == octets(*b),
{
    b.as_ref()
}

/// `<Bytes as Clone>::clone`: a second handle to the same bytes.
pub assume_specification[ <Bytes as Clone>::clone ](b: &Bytes) -> (c: Bytes)
    ensures
        octets(c) == octets(*b),
;

/// The bytes that an optional buffer holds.
pub open spec fn opt_octets(b: Option<Bytes>) -> Option<Seq<u8>> {
    match b {
        Some(v) => Some(octets(v)),
        None => None,
    }
}

/// A second handle to the same bytes, if there are any.
pub fn opt_share(b: &Option<Bytes>) -> (c: Option<Bytes>)
    ensures
        opt_octets(c) == opt_octets(*b),
{
    match b {
        Some(v) => Some(v.clone()),
        None => None,
    }
}

} // verus!
