use vstd::prelude::*;

verus! {

/// `bytes::BytesMut`, declared so that it can stand in verified signatures.
#[verifier::external_type_specification]
#[verifier::external_body]
pub struct ExBytesMut(bytes::BytesMut);

/// The bytes currently held by a `bytes::BytesMut`, oldest first.
pub uninterp spec fn buf_bytes(b: bytes::BytesMut) -> Seq<u8>;

/// Relies on bytes::BytesMut::len: the number of bytes held.
#[verifier::external_body]
pub fn buf_len(b: &bytes::BytesMut) -> (n: usize)
    ensures
        n == buf_bytes(*b).len(),
{
    b.len()
}

/// Relies on bytes::BufMut::put_u8 on BytesMut: appends one byte,
/// growing the buffer as needed.
#[verifier::external_body]
pub fn buf_put_u8(b: &mut bytes::BytesMut, v: u8)
    requires
        buf_bytes(*old(b)).len() < usize::MAX,
    ensures
        buf_bytes(*final(b)) == buf_bytes(*old(b)).push(v),
{
    bytes::BufMut::put_u8(b, v)
}

/// Relies on bytes::BufMut::put_u16 on BytesMut: appends the two bytes
/// of the value in big-endian order.
#[verifier::external_body]
pub fn buf_put_u16(b: &mut bytes::BytesMut, v: u16)
    requires
        buf_bytes(*old(b)).len() + 2 <= usize::MAX,
    ensures
        buf_bytes(*final(b)) == buf_bytes(*old(b)) + seq![(v / 256) as u8, (v % 256) as u8],
{
    bytes::BufMut::put_u16(b, v)
}

/// Relies on bytes::BufMut::put_u64 on BytesMut: appends the eight bytes
/// of the value in big-endian order.
#[verifier::external_body]
pub fn buf_put_u64(b: &mut bytes::BytesMut, v: u64)
    requires
        buf_bytes(*old(b)).len() + 8 <= usize::MAX,
    ensures
        buf_bytes(*final(b)) == buf_bytes(*old(b)) + seq![
            ((v / 0x100000000000000) % 256) as u8,
            ((v / 0x1000000000000) % 256) as u8,
            ((v / 0x10000000000) % 256) as u8,
            ((v / 0x100000000) % 256) as u8,
            ((v / 0x1000000) % 256) as u8,
            ((v / 0x10000) % 256) as u8,
            ((v / 0x100) % 256) as u8,
            (v % 256) as u8,
        ],
{
    bytes::BufMut::put_u64(b, v)
}

/// Relies on bytes::BytesMut::extend_from_slice: appends the given bytes.
#[verifier::external_body]
pub fn buf_extend(b: &mut bytes::BytesMut, s: &[u8])
    requires
        buf_bytes(*old(b)).len() + s@.len() <= usize::MAX,
    ensures
        buf_bytes(*final(b)) == buf_bytes(*old(b)) + s@,
{
    b.extend_from_slice(s)
}

} // verus!
