use vstd::prelude::*;

verus! {

use vstd::utf8::valid_utf8;
use vstd::utf8::decode_utf8;
use vstd::utf8::encode_utf8;
use vstd::string::StringSliceAdditionalSpecFns;
use vstd::arithmetic::div_mod::lemma_div_denominator;
use crate::bufext::buf_bytes;
use crate::bufext::buf_len;
use crate::bufext::buf_put_u8;
use crate::bufext::buf_put_u16;
use crate::bufext::buf_put_u64;
use crate::bufext::buf_extend;
use crate::text::string_from_utf8;

/// Why a buffer failed to decode as one text frame.
#[derive(Debug, PartialEq, Eq)]
pub enum FrameError {
    /// The declared header or payload extends past the supplied bytes.
    Truncated,
    /// The payload bytes are not valid UTF-8.
    InvalidUtf8,
}

/// Big-endian value of a byte string.
pub open spec fn be_bytes(b: Seq<u8>) -> nat
    decreases b.len(),
{
    if b.len() == 0 {
        0
    } else {
        be_bytes(b.drop_last()) * 256 + b.last() as nat
    }
}

/// 256 to the power of `n`.
pub open spec fn pow256(n: nat) -> nat
    decreases n,
{
    if n == 0 {
        1
    } else {
        256 * pow256((n - 1) as nat)
    }
}

/// Header of a text frame for a payload of `len` bytes: the FIN + text
/// opcode byte, then the mask bit and the length in one of three tiers.
pub open spec fn frame_header(len: nat, masked: bool) -> Seq<u8> {
    let m: nat = if masked {
        128
    } else {
        0
    };
    if len <= 125 {
        seq![0x81u8, (len + m) as u8]
    } else if len <= 65535 {
        seq![0x81u8, (126 + m) as u8, (len / 256) as u8, (len % 256) as u8]
    } else {
        seq![
            0x81u8,
            (127 + m) as u8,
            ((len / 0x100000000000000) % 256) as u8,
            ((len / 0x1000000000000) % 256) as u8,
            ((len / 0x10000000000) % 256) as u8,
            ((len / 0x100000000) % 256) as u8,
            ((len / 0x1000000) % 256) as u8,
            ((len / 0x10000) % 256) as u8,
            ((len / 0x100) % 256) as u8,
            (len % 256) as u8,
        ]
    }
}

/// An unmasked text frame carrying `payload`.
pub open spec fn frame_for(payload: Seq<u8>) -> Seq<u8> {
    frame_header(payload.len(), false) + payload
}

/// `payload` masked with the four-byte `key`, applied cyclically.
pub open spec fn mask_seq(payload: Seq<u8>, key: Seq<u8>) -> Seq<u8>
    recommends
        key.len() == 4,
{
    Seq::new(payload.len(), |i: int| payload[i] ^ key[i % 4])
}

/// A masked text frame carrying `payload` under the mask `key`.
pub open spec fn masked_frame_for(payload: Seq<u8>, key: Seq<u8>) -> Seq<u8>
    recommends
        key.len() == 4,
{
    frame_header(payload.len(), true) + key + mask_seq(payload, key)
}

/// The declared payload length and the offset where the mask or payload
/// starts, or `None` when the buffer ends inside the length field.
pub open spec fn length_field(buf: Seq<u8>) -> Option<(nat, nat)> {
    if buf.len() < 2 {
        None
    } else {
        let ind = (buf[1] as nat) % 128;
        if ind <= 125 {
            Some((ind, 2nat))
        } else if ind == 126 {
            if buf.len() >= 4 {
                Some((be_bytes(buf.subrange(2, 4)), 4nat))
            } else {
                None
            }
        } else {
            if buf.len() >= 10 {
                Some((be_bytes(buf.subrange(2, 10)), 10nat))
            } else {
                None
            }
        }
    }
}

/// Whether the frame declares a mask.
pub open spec fn is_masked(buf: Seq<u8>) -> bool {
    buf.len() >= 2 && buf[1] >= 128
}

/// The payload carried by the frame at the start of `buf`, unmasked if a
/// mask is declared, or `None` when the declared extent leaves `buf`.
pub open spec fn decoded(buf: Seq<u8>) -> Option<Seq<u8>> {
    match length_field(buf) {
        None => None,
        Some((size, off)) => if is_masked(buf) {
            if off + 4 + size <= buf.len() {
                Some(
                    mask_seq(
                        buf.subrange((off + 4) as int, (off + 4 + size) as int),
                        buf.subrange(off as int, (off + 4) as int),
                    ),
                )
            } else {
                None
            }
        } else {
            if off + size <= buf.len() {
                Some(buf.subrange(off as int, (off + size) as int))
            } else {
                None
            }
        },
    }
}

proof fn lemma_be_bytes_bound(b: Seq<u8>)
    ensures
        be_bytes(b) < pow256(b.len()),
    decreases b.len(),
{
    if b.len() == 0 {
    } else {
        lemma_be_bytes_bound(b.drop_last());
    }
}

/// The eight big-endian bytes of a value below 2^64 decode back to it.
proof fn lemma_be_bytes_of(v: nat)
    requires
        v < 0x10000000000000000,
    ensures
        be_bytes(
            seq![
                ((v / 0x100000000000000) % 256) as u8,
                ((v / 0x1000000000000) % 256) as u8,
                ((v / 0x10000000000) % 256) as u8,
                ((v / 0x100000000) % 256) as u8,
                ((v / 0x1000000) % 256) as u8,
                ((v / 0x10000) % 256) as u8,
                ((v / 0x100) % 256) as u8,
                (v % 256) as u8,
            ],
        ) == v,
{
    let n0 = v as int;
    let n1 = n0 / 256;
    let n2 = n1 / 256;
    let n3 = n2 / 256;
    let n4 = n3 / 256;
    let n5 = n4 / 256;
    let n6 = n5 / 256;
    let n7 = n6 / 256;
    lemma_div_denominator(n0, 256, 256);
    assert(n2 == n0 / 0x10000);
    lemma_div_denominator(n0, 0x10000, 256);
    assert(n3 == n0 / 0x1000000);
    lemma_div_denominator(n0, 0x1000000, 256);
    assert(n4 == n0 / 0x100000000);
    lemma_div_denominator(n0, 0x100000000, 256);
    assert(n5 == n0 / 0x10000000000);
    lemma_div_denominator(n0, 0x10000000000, 256);
    assert(n6 == n0 / 0x1000000000000);
    lemma_div_denominator(n0, 0x1000000000000, 256);
    assert(n7 == n0 / 0x100000000000000);
    let b = seq![
        ((v / 0x100000000000000) % 256) as u8,
        ((v / 0x1000000000000) % 256) as u8,
        ((v / 0x10000000000) % 256) as u8,
        ((v / 0x100000000) % 256) as u8,
        ((v / 0x1000000) % 256) as u8,
        ((v / 0x10000) % 256) as u8,
        ((v / 0x100) % 256) as u8,
        (v % 256) as u8,
    ];
    assert(n7 < 256);
    assert(b[0] as int == n7 % 256 && b[1] as int == n6 % 256 && b[2] as int == n5 % 256 && b[3]
        as int == n4 % 256 && b[4] as int == n3 % 256 && b[5] as int == n2 % 256 && b[6] as int
        == n1 % 256 && b[7] as int == n0 % 256);
    assert(be_bytes(Seq::<u8>::empty()) == 0);
    assert(b.subrange(0, 1).drop_last() =~= Seq::<u8>::empty());
    assert(b.subrange(0, 1).last() == b[0]);
    assert(be_bytes(b.subrange(0, 1)) == n7);
    assert(b.subrange(0, 2).drop_last() =~= b.subrange(0, 1));
    assert(be_bytes(b.subrange(0, 2)) == n7 * 256 + n6 % 256 == n6);
    assert(b.subrange(0, 3).drop_last() =~= b.subrange(0, 2));
    assert(be_bytes(b.subrange(0, 3)) == n6 * 256 + n5 % 256 == n5);
    assert(b.subrange(0, 4).drop_last() =~= b.subrange(0, 3));
    assert(be_bytes(b.subrange(0, 4)) == n5 * 256 + n4 % 256 == n4);
    assert(b.subrange(0, 5).drop_last() =~= b.subrange(0, 4));
    assert(be_bytes(b.subrange(0, 5)) == n4 * 256 + n3 % 256 == n3);
    assert(b.subrange(0, 6).drop_last() =~= b.subrange(0, 5));
    assert(be_bytes(b.subrange(0, 6)) == n3 * 256 + n2 % 256 == n2);
    assert(b.subrange(0, 7).drop_last() =~= b.subrange(0, 6));
    assert(be_bytes(b.subrange(0, 7)) == n2 * 256 + n1 % 256 == n1);
    assert(b.subrange(0, 8).drop_last() =~= b.subrange(0, 7));
    assert(b.subrange(0, 8) =~= b);
    assert(be_bytes(b) == n1 * 256 + n0 % 256 == n0);
}

proof fn lemma_be_bytes2(b: Seq<u8>)
    requires
        b.len() == 2,
    ensures
        be_bytes(b) == (b[0] as nat) * 256 + b[1] as nat,
{
    assert(be_bytes(Seq::<u8>::empty()) == 0);
    assert(b.drop_last() =~= b.subrange(0, 1));
    assert(b.subrange(0, 1).drop_last() =~= Seq::<u8>::empty());
    assert(b.subrange(0, 1).last() == b[0]);
    assert(be_bytes(b.subrange(0, 1)) == b[0] as nat);
    assert(b.last() == b[1]);
}

/// Emplace a text frame carrying `msg` at the end of `buf`; returns the
/// number of bytes appended.
pub fn set_text(buf: &mut bytes::BytesMut, msg: &str) -> (n: usize)
    requires
        buf_bytes(*old(buf)).len() + msg.spec_bytes().len() + 10 <= usize::MAX,
    ensures
        buf_bytes(*final(buf)) == buf_bytes(*old(buf)) + frame_for(msg.spec_bytes()),
        n == frame_for(msg.spec_bytes()).len(),
{
    let start_len = buf_len(buf);
    buf_put_u8(buf, 0x81);
    let len = msg.len();
    if len <= 125 {
        buf_put_u8(buf, len as u8);
    } else if len <= 65535 {
        buf_put_u8(buf, 126);
        buf_put_u16(buf, len as u16);
    } else {
        buf_put_u8(buf, 127);
        buf_put_u64(buf, len as u64);
    }
    proof {
        assert(buf_bytes(*buf) =~= buf_bytes(*old(buf)) + frame_header(
            msg.spec_bytes().len(),
            false,
        ));
    }
    buf_extend(buf, msg.as_bytes());
    proof {
        assert(buf_bytes(*buf) =~= buf_bytes(*old(buf)) + frame_for(msg.spec_bytes()));
    }
    buf_len(buf) - start_len
}

/// Build the bytes of a masked text frame, as a client would send it.
pub fn encode_masked(payload: &[u8], key: &[u8]) -> (r: Vec<u8>)
    requires
        key@.len() == 4,
        payload@.len() + 14 <= usize::MAX,
    ensures
        r@ == masked_frame_for(payload@, key@),
{
    let len = payload.len();
    let mut out: Vec<u8> = Vec::new();
    out.push(0x81);
    if len <= 125 {
        out.push(len as u8 + 128);
    } else if len <= 65535 {
        out.push(254);
        out.push((len / 256) as u8);
        out.push((len % 256) as u8);
    } else {
        out.push(255);
        let v = len as u64;
        out.push(((v / 0x100000000000000) % 256) as u8);
        out.push(((v / 0x1000000000000) % 256) as u8);
        out.push(((v / 0x10000000000) % 256) as u8);
        out.push(((v / 0x100000000) % 256) as u8);
        out.push(((v / 0x1000000) % 256) as u8);
        out.push(((v / 0x10000) % 256) as u8);
        out.push(((v / 0x100) % 256) as u8);
        out.push((v % 256) as u8);
    }
    proof {
        assert(out@ =~= frame_header(payload@.len(), true));
    }
    out.push(key[0]);
    out.push(key[1]);
    out.push(key[2]);
    out.push(key[3]);
    proof {
        assert(out@ =~= frame_header(payload@.len(), true) + key@);
    }
    let ghost base = out@;
    let mut x: usize = 0;
    while x < len
        invariant
            len == payload@.len(),
            key@.len() == 4,
            x <= len,
            out@ == base + mask_seq(payload@, key@).take(x as int),
        decreases len - x,
    {
        out.push(payload[x] ^ key[x % 4]);
        proof {
            assert(out@ =~= base + mask_seq(payload@, key@).take(x as int + 1));
        }
        x += 1;
    }
    proof {
        assert(mask_seq(payload@, key@).take(len as int) =~= mask_seq(payload@, key@));
        assert(out@ =~= masked_frame_for(payload@, key@));
    }
    out
}

/// Extract the payload bytes of the frame at the start of `buf`,
/// unmasking them if the frame is masked.
pub fn decode_payload(buf: &[u8]) -> (r: Result<Vec<u8>, FrameError>)
    ensures
        (match r {
            Ok(v) => decoded(buf@) == Some(v@),
            Err(e) => decoded(buf@) is None && e == FrameError::Truncated,
        }),
{
    if buf.len() < 2 {
        return Err(FrameError::Truncated);
    }
    let ind = buf[1] % 128;
    let masked = buf[1] >= 128;
    let size: u64;
    let off: usize;
    if ind <= 125 {
        size = ind as u64;
        off = 2;
    } else if ind == 126 {
        if buf.len() < 4 {
            return Err(FrameError::Truncated);
        }
        size = (buf[2] as u64) * 256 + (buf[3] as u64);
        off = 4;
        proof {
            lemma_be_bytes2(buf@.subrange(2, 4));
        }
    } else {
        if buf.len() < 10 {
            return Err(FrameError::Truncated);
        }
        let mut acc: u64 = 0;
        let mut k: usize = 0;
        while k < 8
            invariant
                buf@.len() >= 10,
                k <= 8,
                acc as nat == be_bytes(buf@.subrange(2, 2 + k as int)),
                (acc as nat) < pow256(k as nat),
            decreases 8 - k,
        {
            proof {
                assert(buf@.subrange(2, 2 + (k + 1) as int).drop_last() =~= buf@.subrange(
                    2,
                    2 + k as int,
                ));
                assert(buf@.subrange(2, 2 + (k + 1) as int).last() == buf@[2 + k as int]);
                assert(pow256(k as nat + 1) == 256 * pow256(k as nat));
                lemma_pow256_8();
                lemma_pow256_le(k as nat + 1, 8nat);
            }
            acc = acc * 256 + (buf[2 + k] as u64);
            k += 1;
        }
        size = acc;
        off = 10;
    }
    if masked {
        if buf.len() - off < 4 {
            return Err(FrameError::Truncated);
        }
        let data_off = off + 4;
        let avail = buf.len() - data_off;
        if size > avail as u64 {
            return Err(FrameError::Truncated);
        }
        let n = size as usize;
        let ghost expect = mask_seq(
            buf@.subrange(data_off as int, data_off as int + n as int),
            buf@.subrange(off as int, off as int + 4),
        );
        let mut data: Vec<u8> = Vec::new();
        let mut x: usize = 0;
        while x < n
            invariant
                n + data_off <= buf@.len(),
                n + data_off <= usize::MAX,
                off + 4 == data_off,
                x <= n,
                expect == mask_seq(
                    buf@.subrange(data_off as int, data_off as int + n as int),
                    buf@.subrange(off as int, off as int + 4),
                ),
                expect.len() == n,
                data@ == expect.take(x as int),
            decreases n - x,
        {
            data.push(buf[data_off + x] ^ buf[off + (x % 4)]);
            proof {
                assert(data@ =~= expect.take(x as int + 1));
            }
            x += 1;
        }
        proof {
            assert(data@ =~= expect);
        }
        Ok(data)
    } else {
        let avail = buf.len() - off;
        if size > avail as u64 {
            return Err(FrameError::Truncated);
        }
        let n = size as usize;
        let mut data: Vec<u8> = Vec::new();
        let mut x: usize = 0;
        while x < n
            invariant
                n + off <= buf@.len(),
                n + off <= usize::MAX,
                x <= n,
                data@ == buf@.subrange(off as int, off as int + x as int),
            decreases n - x,
        {
            data.push(buf[off + x]);
            proof {
                assert(data@ =~= buf@.subrange(off as int, off as int + x as int + 1));
            }
            x += 1;
        }
        Ok(data)
    }
}

proof fn lemma_pow256_8()
    ensures
        pow256(8) == 0x10000000000000000,
{
    assert(pow256(0) == 1);
    assert(pow256(1) == 256);
    assert(pow256(2) == 0x10000);
    assert(pow256(3) == 0x1000000);
    assert(pow256(4) == 0x100000000);
    assert(pow256(5) == 0x10000000000);
    assert(pow256(6) == 0x1000000000000);
    assert(pow256(7) == 0x100000000000000);
    assert(pow256(8) == 0x10000000000000000);
}

proof fn lemma_pow256_le(a: nat, b: nat)
    requires
        a <= b,
    ensures
        pow256(a) <= pow256(b),
    decreases b,
{
    if a < b && b > 0 {
        lemma_pow256_le(a, (b - 1) as nat);
        assert(pow256(b) == 256 * pow256((b - 1) as nat));
    }
}

proof fn lemma_xor_involution(a: u8, b: u8)
    ensures
        (a ^ b) ^ b == a,
{
    assert((a ^ b) ^ b == a) by (bit_vector);
}

proof fn lemma_header_facts(len: nat, masked: bool)
    requires
        len < 0x10000000000000000,
    ensures
        frame_header(len, masked).len() >= 2,
        frame_header(len, masked).len() == (if len <= 125 {
            2int
        } else if len <= 65535 {
            4int
        } else {
            10int
        }),
        (frame_header(len, masked)[1] as nat) % 128 == (if len <= 125 {
            len
        } else if len <= 65535 {
            126nat
        } else {
            127nat
        }),
        frame_header(len, masked)[1] >= 128 <==> masked,
{
}

/// Law: an unmasked text frame decodes back to the payload it was built
/// from.
pub proof fn lemma_unmasked_round_trip(payload: Seq<u8>)
    requires
        payload.len() < 0x10000000000000000,
    ensures
        decoded(frame_for(payload)) == Some(payload),
{
    let len = payload.len();
    let buf = frame_for(payload);
    let hdr = frame_header(len, false);
    lemma_header_facts(len, false);
    assert(buf[1] == hdr[1]);
    if len <= 125 {
        assert(length_field(buf) == Some((len, 2nat)));
        assert(buf.subrange(2, 2 + len as int) =~= payload);
    } else if len <= 65535 {
        assert(buf.subrange(2, 4) =~= seq![(len / 256) as u8, (len % 256) as u8]);
        lemma_be_bytes2(buf.subrange(2, 4));
        assert(be_bytes(buf.subrange(2, 4)) == len);
        assert(length_field(buf) == Some((len, 4nat)));
        assert(buf.subrange(4, 4 + len as int) =~= payload);
    } else {
        lemma_be_bytes_of(len);
        assert(buf.subrange(2, 10) =~= seq![
            ((len / 0x100000000000000) % 256) as u8,
            ((len / 0x1000000000000) % 256) as u8,
            ((len / 0x10000000000) % 256) as u8,
            ((len / 0x100000000) % 256) as u8,
            ((len / 0x1000000) % 256) as u8,
            ((len / 0x10000) % 256) as u8,
            ((len / 0x100) % 256) as u8,
            (len % 256) as u8,
        ]);
        assert(be_bytes(buf.subrange(2, 10)) == len);
        assert(length_field(buf) == Some((len, 10nat)));
        assert(buf.subrange(10, 10 + len as int) =~= payload);
    }
}

/// Law: a masked text frame decodes back to the payload it was built
/// from, whatever the four-byte mask key.
pub proof fn lemma_masked_round_trip(payload: Seq<u8>, key: Seq<u8>)
    requires
        payload.len() < 0x10000000000000000,
        key.len() == 4,
    ensures
        decoded(masked_frame_for(payload, key)) == Some(payload),
{
    let len = payload.len();
    let buf = masked_frame_for(payload, key);
    let hdr = frame_header(len, true);
    let off = hdr.len();
    lemma_header_facts(len, true);
    assert(buf[1] == hdr[1]);
    assert(is_masked(buf));
    if len <= 125 {
        assert(length_field(buf) == Some((len, 2nat)));
    } else if len <= 65535 {
        assert(buf.subrange(2, 4) =~= seq![(len / 256) as u8, (len % 256) as u8]);
        lemma_be_bytes2(buf.subrange(2, 4));
        assert(length_field(buf) == Some((len, 4nat)));
    } else {
        lemma_be_bytes_of(len);
        assert(buf.subrange(2, 10) =~= seq![
            ((len / 0x100000000000000) % 256) as u8,
            ((len / 0x1000000000000) % 256) as u8,
            ((len / 0x10000000000) % 256) as u8,
            ((len / 0x100000000) % 256) as u8,
            ((len / 0x1000000) % 256) as u8,
            ((len / 0x10000) % 256) as u8,
            ((len / 0x100) % 256) as u8,
            (len % 256) as u8,
        ]);
        assert(length_field(buf) == Some((len, 10nat)));
    }
    assert(buf.subrange(off as int, off as int + 4) =~= key);
    assert(buf.subrange(off as int + 4, off as int + 4 + len as int) =~= mask_seq(payload, key));
    let recovered = mask_seq(mask_seq(payload, key), key);
    assert forall|i: int| 0 <= i < len implies recovered[i] == payload[i] by {
        lemma_xor_involution(payload[i], key[i % 4]);
    }
    assert(recovered =~= payload);
    assert(decoded(buf) == Some(recovered));
}

/// Law: the frame built from a text decodes to exactly that text: its
/// payload is recovered whole and spells the original characters.
pub proof fn lemma_text_round_trip(text: Seq<char>)
    requires
        encode_utf8(text).len() < 0x10000000000000000,
    ensures
        decoded(frame_for(encode_utf8(text))) == Some(encode_utf8(text)),
        valid_utf8(encode_utf8(text)),
        decode_utf8(encode_utf8(text)) == text,
{
    lemma_unmasked_round_trip(encode_utf8(text));
    broadcast use vstd::utf8::encode_utf8_valid_utf8;
    broadcast use vstd::utf8::encode_utf8_decode_utf8;

}

/// Extract the text carried by the frame at the start of `buf`.
pub fn get_text(buf: &[u8]) -> (r: Result<String, FrameError>)
    ensures
        (match r {
            Ok(s) => decoded(buf@) is Some && valid_utf8(decoded(buf@).unwrap()) && s@
                == decode_utf8(decoded(buf@).unwrap()),
            Err(e) => match e {
                FrameError::Truncated => decoded(buf@) is None,
                FrameError::InvalidUtf8 => decoded(buf@) is Some && !valid_utf8(
                    decoded(buf@).unwrap(),
                ),
            },
        }),
{
    let payload = match decode_payload(buf) {
        Ok(p) => p,
        Err(e) => {
            return Err(e);
        },
    };
    match string_from_utf8(payload) {
        Some(s) => Ok(s),
        None => Err(FrameError::InvalidUtf8),
    }
}

} // verus!
