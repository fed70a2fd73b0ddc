//! Message buffers that grow: `bytes::BytesMut`.

use bytes::BytesMut;
use vstd::prelude::*;

verus! {

#[verifier::external_type_specification]
#[verifier::external_body]
pub struct ExBytesMut(BytesMut);

/// The bytes in a buffer.
pub uninterp spec fn content(b: BytesMut) -> Seq<u8>;

/// `BytesMut::from` a slice: a buffer with the same bytes.
#[verifier::external_body]
pub(crate) fn from_bytes(data: &[u8]) -> (r: BytesMut)
    ensures
        content(r) == data@,
{
    BytesMut::from(data)
}

/// `BytesMut::as_ref`: all bytes in the buffer.
#[verifier::external_body]
pub(crate) fn as_bytes(b: &BytesMut) -> (r: &[u8])
    ensures
        r@ == content(*b),
{
    b.as_ref()
}

/// `BytesMut::extend_from_slice`: puts the bytes behind those in the buffer.
/// The buffer cannot hold more than `isize::MAX` bytes.
#[verifier::external_body]
pub(crate) fn extend(b: &mut BytesMut, data: &[u8])
    requires
        content(*old(b)).len() + data@.len() <= isize::MAX,
    ensures
        content(*final(b)) == content(*old(b)) + data@,
{
    b.extend_from_slice(data);
}

/// `BytesMut::clear`: the buffer is empty.
#[verifier::external_body]
pub(crate) fn clear(b: &mut BytesMut)
    ensures
        content(*final(b)).len() == 0,
{
    b.clear();
}

/// `BytesMut::as_mut`, to change one byte.
#[verifier::external_body]
pub(crate) fn set_byte(b: &mut BytesMut, i: usize, value: u8)
    requires
        i < content(*old(b)).len(),
    ensures
        content(*final(b)) == content(*old(b)).update(i as int, value),
{
    b.as_mut()[i] = value;
}

/// Puts a 16-bit number behind the bytes in the buffer.
pub fn extend_u16(b: &mut BytesMut, x: u16)
    requires
        content(*old(b)).len() + 2 <= isize::MAX,
    ensures
        content(*final(b)) == content(*old(b)) + crate::wire::be16_bytes(x),
{
    let bytes = [(x / 256) as u8, (x % 256) as u8];
    assert(bytes@ =~= crate::wire::be16_bytes(x));
    extend(b, vstd::array::array_as_slice(&bytes));
}

/// Replaces all bytes in the buffer.
pub fn replace(b: &mut BytesMut, data: &[u8])
    requires
        data@.len() <= isize::MAX,
    ensures
        content(*final(b)) == data@,
{
    clear(b);
    extend(b, data);
    assert(content(*b) =~= data@);
}

} // verus!
