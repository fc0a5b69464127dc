use vstd::prelude::*;

verus! {

/// The lowercase hex digit spelling a value below 16.
pub open spec fn hex_digit(n: u8) -> u8
    recommends
        n < 16,
{
    if n < 10 {
        (48 + n) as u8
    } else {
        (87 + n) as u8
    }
}

/// The value of one hex digit byte, or 255 when the byte is no digit.
pub open spec fn hex_val(b: u8) -> u8 {
    if 48 <= b && b <= 57 {
        (b - 48) as u8
    } else if 97 <= b && b <= 102 {
        (b - 87) as u8
    } else if 65 <= b && b <= 70 {
        (b - 55) as u8
    } else {
        255
    }
}

/// The byte spells a hex digit, of either case.
pub open spec fn is_hex_digit(b: u8) -> bool {
    hex_val(b) < 16
}

/// The string is well-formed hex: even length, digits throughout.
pub open spec fn is_hex(s: Seq<u8>) -> bool {
    s.len() % 2 == 0 && forall|i: int| 0 <= i < s.len() ==> is_hex_digit(#[trigger] s[i])
}

/// The lowercase hex spelling of a byte string, two digits per byte.
pub open spec fn hex_of(data: Seq<u8>) -> Seq<u8> {
    Seq::new(
        data.len() * 2,
        |i: int|
            if i % 2 == 0 {
                hex_digit(data[i / 2] / 16)
            } else {
                hex_digit(data[i / 2] % 16)
            },
    )
}

/// The bytes spelled by a well-formed hex string.
pub open spec fn unhex_of(s: Seq<u8>) -> Seq<u8>
    recommends
        is_hex(s),
{
    Seq::new(s.len() / 2, |i: int| (hex_val(s[2 * i]) * 16 + hex_val(s[2 * i + 1])) as u8)
}

/// Spell bytes as lowercase hex, two digits per byte.
pub fn hex_encode(data: &[u8]) -> (r: Vec<u8>)
    ensures
        r@ == hex_of(data@),
{
    let mut out: Vec<u8> = Vec::new();
    let mut i: usize = 0;
    while i < data.len()
        invariant
            i <= data@.len(),
            out@ == hex_of(data@.take(i as int)),
            out@.len() == 2 * i,
        decreases data@.len() - i,
    {
        let b = data[i];
        let hi = b / 16;
        let lo = b % 16;
        out.push(
            if hi < 10 {
                48 + hi
            } else {
                87 + hi
            },
        );
        out.push(
            if lo < 10 {
                48 + lo
            } else {
                87 + lo
            },
        );
        proof {
            assert(out@ =~= hex_of(data@.take(i as int + 1)));
        }
        i += 1;
    }
    proof {
        assert(data@.take(data@.len() as int) =~= data@);
    }
    out
}

fn hex_val_of(b: u8) -> (r: u8)
    ensures
        r == hex_val(b),
{
    if 48 <= b && b <= 57 {
        b - 48
    } else if 97 <= b && b <= 102 {
        b - 87
    } else if 65 <= b && b <= 70 {
        b - 55
    } else {
        255
    }
}

/// Read a hex string back as bytes; `None` exactly when the string has
/// odd length or holds a byte that is no hex digit.
pub fn hex_decode(s: &[u8]) -> (r: Option<Vec<u8>>)
    ensures
        r is Some <==> is_hex(s@),
        r is Some ==> r.unwrap()@ == unhex_of(s@),
{
    if s.len() % 2 != 0 {
        return None;
    }
    let mut out: Vec<u8> = Vec::new();
    let mut i: usize = 0;
    while i < s.len()
        invariant
            i <= s@.len(),
            i % 2 == 0,
            s@.len() % 2 == 0,
            forall|j: int| 0 <= j < i ==> is_hex_digit(#[trigger] s@[j]),
            out@ == unhex_of(s@).take(i as int / 2),
        decreases s@.len() - i,
    {
        let hi = hex_val_of(s[i]);
        let lo = hex_val_of(s[i + 1]);
        if hi == 255 || lo == 255 {
            return None;
        }
        out.push(hi * 16 + lo);
        proof {
            assert(out@ =~= unhex_of(s@).take(i as int / 2 + 1));
        }
        i += 2;
    }
    proof {
        assert(unhex_of(s@).take(s@.len() as int / 2) =~= unhex_of(s@));
    }
    Some(out)
}

/// Law: hex encoding round-trips: the spelling is well-formed hex, and
/// reading it back returns the original bytes.
pub proof fn lemma_hex_round_trip(data: Seq<u8>)
    ensures
        is_hex(hex_of(data)),
        unhex_of(hex_of(data)) == data,
{
    let h = hex_of(data);
    assert forall|i: int| 0 <= i < h.len() implies is_hex_digit(#[trigger] h[i]) by {
        assert(data[i / 2] / 16 < 16 && data[i / 2] % 16 < 16);
    }
    assert forall|k: int| 0 <= k < data.len() implies unhex_of(h)[k] == data[k] by {
        assert(h[2 * k] == hex_digit(data[k] / 16));
        assert(h[2 * k + 1] == hex_digit(data[k] % 16));
        assert(hex_val(hex_digit(data[k] / 16)) == data[k] / 16);
        assert(hex_val(hex_digit(data[k] % 16)) == data[k] % 16);
    }
    assert(unhex_of(h) =~= data);
}

} // verus!
