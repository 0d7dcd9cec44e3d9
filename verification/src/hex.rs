//! Lowercase hexadecimal encoding of byte strings and its decoding.
use vstd::prelude::*;
use vstd::string::StringSliceAdditionalSpecFns;

verus! {

/// The hexadecimal digit character of `d < 16`, lowercase.
pub open spec fn hex_digit(d: nat) -> char {
    if d < 10 {
        ((d + 48) as u8) as char
    } else {
        ((d + 87) as u8) as char
    }
}

/// Two lowercase hex digits per byte, high nibble first.
pub open spec fn hex_spec(bytes: Seq<u8>) -> Seq<char>
    decreases bytes.len(),
{
    if bytes.len() == 0 {
        Seq::empty()
    } else {
        seq![hex_digit((bytes[0] / 16) as nat), hex_digit((bytes[0] % 16) as nat)] + hex_spec(
            bytes.drop_first(),
        )
    }
}

/// The value of one hex digit byte, upper or lower case.
pub open spec fn hex_value_spec(byte: u8) -> Option<u8> {
    if 48 <= byte && byte <= 57 {
        Some((byte - 48) as u8)
    } else if 97 <= byte && byte <= 102 {
        Some((byte - 87) as u8)
    } else if 65 <= byte && byte <= 70 {
        Some((byte - 55) as u8)
    } else {
        None
    }
}

/// Decoding `n` bytes from `2 n` hex digit bytes; `None` on any other length or on
/// a byte that is not a hex digit.
pub open spec fn hex_decode_spec(encoded: Seq<u8>, n: nat) -> Option<Seq<u8>> {
    if encoded.len() == 2 * n && forall|i: int|
        0 <= i < encoded.len() ==> #[trigger] hex_value_spec(encoded[i]) is Some {
        Some(
            Seq::new(
                n,
                |i: int|
                    (hex_value_spec(encoded[2 * i])->0 * 16 + hex_value_spec(
                        encoded[2 * i + 1],
                    )->0) as u8,
            ),
        )
    } else {
        None
    }
}

/// The bytes of a string whose characters are all ASCII.
pub open spec fn ascii_bytes(s: Seq<char>) -> Seq<u8> {
    s.map_values(|c: char| c as u8)
}

pub proof fn lemma_hex_spec_len(bytes: Seq<u8>)
    ensures
        hex_spec(bytes).len() == 2 * bytes.len(),
        forall|i: int|
            0 <= i < bytes.len() ==> hex_spec(bytes)[2 * i] == hex_digit((bytes[i] / 16) as nat)
                && hex_spec(bytes)[2 * i + 1] == hex_digit((bytes[i] % 16) as nat),
    decreases bytes.len(),
{
    if bytes.len() > 0 {
        let rest = bytes.drop_first();
        lemma_hex_spec_len(rest);
        let h = hex_spec(bytes);
        assert forall|i: int| 0 <= i < bytes.len() implies h[2 * i] == hex_digit(
            (bytes[i] / 16) as nat,
        ) && h[2 * i + 1] == hex_digit((bytes[i] % 16) as nat) by {
            if i > 0 {
                assert(bytes[i] == rest[i - 1]);
                assert(h[2 * i] == hex_spec(rest)[2 * (i - 1)]);
                assert(h[2 * i + 1] == hex_spec(rest)[2 * (i - 1) + 1]);
            }
        }
    }
}

fn hex_digit_char(d: u8) -> (r: char)
    requires
        d < 16,
    ensures
        r == hex_digit(d as nat),
{
    if d < 10 {
        (d + 48) as char
    } else {
        (d + 87) as char
    }
}

/// Lowercase hexadecimal encoding, two digits per byte.
pub fn hex_encode(bytes: &[u8]) -> (r: String)
    ensures
        r@ == hex_spec(bytes@),
{
    let mut out = String::new();
    let mut i: usize = 0;
    proof {
        assert(bytes@.skip(0) == bytes@);
        assert(out@ + hex_spec(bytes@) == hex_spec(bytes@));
    }
    while i < bytes.len()
        invariant
            i <= bytes@.len(),
            hex_spec(bytes@) == out@ + hex_spec(bytes@.skip(i as int)),
        decreases bytes@.len() - i,
    {
        let ghost rest = bytes@.skip(i as int);
        let byte = bytes[i];
        proof {
            assert(rest[0] == byte);
            assert(rest.drop_first() == bytes@.skip(i + 1));
        }
        out.push(hex_digit_char(byte / 16));
        out.push(hex_digit_char(byte % 16));
        i = i + 1;
    }
    proof {
        assert(bytes@.skip(i as int) == Seq::<u8>::empty());
    }
    out
}

/// The value of one hex digit byte.
pub fn hex_value(byte: u8) -> (r: Option<u8>)
    ensures
        r == hex_value_spec(byte),
{
    if 48 <= byte && byte <= 57 {
        Some(byte - 48)
    } else if 97 <= byte && byte <= 102 {
        Some(byte - 87)
    } else if 65 <= byte && byte <= 70 {
        Some(byte - 55)
    } else {
        None
    }
}

/// Decodes exactly `N` bytes from `2 N` hex digits of either case.
pub fn hex_decode_array<const N: usize>(encoded: &str) -> (r: Option<[u8; N]>)
    ensures
        r is Some <==> hex_decode_spec(encoded.spec_bytes(), N as nat) is Some,
        r matches Some(a) ==> hex_decode_spec(encoded.spec_bytes(), N as nat) == Some(a@),
{
    let bytes = encoded.as_bytes();
    if bytes.len() % 2 != 0 || bytes.len() / 2 != N {
        return None;
    }
    let blen = bytes.len();
    let mut out: Vec<u8> = Vec::new();
    let mut index: usize = 0;
    while index < N
        invariant
            blen == bytes@.len(),
            bytes@ == encoded.spec_bytes(),
            bytes@.len() == 2 * N,
            index <= N,
            out@.len() == index,
            forall|k: int|
                0 <= k < 2 * index ==> #[trigger] hex_value_spec(bytes@[k]) is Some,
            forall|k: int|
                0 <= k < index ==> #[trigger] out@[k] == (hex_value_spec(bytes@[2 * k])->0 * 16
                    + hex_value_spec(bytes@[2 * k + 1])->0) as u8,
        decreases N - index,
    {
        assert(index * 2 + 1 < bytes@.len());
        let high = hex_value(bytes[index * 2]);
        let low = hex_value(bytes[index * 2 + 1]);
        match (high, low) {
            (Some(h), Some(l)) => {
                out.push(h * 16 + l);
            },
            _ => {
                proof {
                    let k = if high is None {
                        2 * index
                    } else {
                        2 * index + 1
                    };
                    assert(hex_value_spec(bytes@[k]) is None);
                }
                return None;
            },
        }
        index = index + 1;
    }
    proof {
        let d = hex_decode_spec(bytes@, N as nat);
        assert(d is Some);
        assert(d->0 == out@);
    }
    Some(crate::bytes::vec_into_array(out))
}

pub proof fn lemma_hex_digit_byte(d: nat)
    requires
        d < 16,
    ensures
        hex_value_spec(hex_digit(d) as u8) == Some(d as u8),
        hex_digit(d) as u8 == (if d < 10 {
            d + 48
        } else {
            d + 87
        }),
{
}

/// Decoding undoes encoding: the hex digits of any byte string decode back to it.
pub proof fn hex_round_trip(bytes: Seq<u8>)
    ensures
        hex_decode_spec(ascii_bytes(hex_spec(bytes)), bytes.len()) == Some(bytes),
{
    lemma_hex_spec_len(bytes);
    let e = ascii_bytes(hex_spec(bytes));
    assert forall|i: int| 0 <= i < e.len() implies #[trigger] hex_value_spec(e[i]) is Some by {
        let j = i / 2;
        assert(i == 2 * j || i == 2 * j + 1);
        let d = if i == 2 * j {
            bytes[j] / 16
        } else {
            bytes[j] % 16
        };
        assert(hex_spec(bytes)[i] == hex_digit(d as nat));
        lemma_hex_digit_byte(d as nat);
    }
    let d = hex_decode_spec(e, bytes.len());
    assert forall|i: int| 0 <= i < bytes.len() implies #[trigger] d->0[i] == bytes[i] by {
        let hi = bytes[i] / 16;
        let lo = bytes[i] % 16;
        assert(e[2 * i] == hex_digit(hi as nat) as u8);
        assert(e[2 * i + 1] == hex_digit(lo as nat) as u8);
        lemma_hex_digit_byte(hi as nat);
        lemma_hex_digit_byte(lo as nat);
        assert(hex_value_spec(e[2 * i]) == Some(hi));
        assert(hex_value_spec(e[2 * i + 1]) == Some(lo));
    }
    assert(d->0 =~= bytes);
}

/// Hex digits are ASCII, so the UTF-8 bytes of an encoding are its characters.
pub proof fn lemma_hex_utf8(bytes: Seq<u8>)
    ensures
        vstd::utf8::encode_utf8(hex_spec(bytes)) == ascii_bytes(hex_spec(bytes)),
{
    lemma_hex_spec_len(bytes);
    let h = hex_spec(bytes);
    assert forall|i: int| 0 <= i < h.len() implies '\0' <= #[trigger] h[i] <= '\u{7f}' by {
        let j = i / 2;
        let d = if i == 2 * j {
            bytes[j] / 16
        } else {
            bytes[j] % 16
        };
        assert(h[i] == hex_digit(d as nat));
    }
    vstd::utf8::is_ascii_chars_encode_utf8(h);
    assert(vstd::utf8::encode_utf8(h) =~= ascii_bytes(h));
}

/// A string holding the hex encoding of `bytes` decodes back to them.
pub proof fn lemma_hex_decode_encoding(bytes: Seq<u8>)
    ensures
        hex_decode_spec(vstd::utf8::encode_utf8(hex_spec(bytes)), bytes.len()) == Some(bytes),
{
    lemma_hex_utf8(bytes);
    hex_round_trip(bytes);
}

} // verus!
