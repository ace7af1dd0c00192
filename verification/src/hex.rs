//! Lowercase hexadecimal text for byte strings.

use vstd::prelude::*;
use vstd::string::*;
use crate::text::{decimal, push_decimal};

verus! {

/// The character of the hexadecimal digit `d`, which is below sixteen.
pub open spec fn hex_digit(d: int) -> char {
    if d < 10 {
        (48 + d) as char
    } else {
        (87 + d) as char
    }
}

/// `bytes` in lowercase hexadecimal, two digits for each byte.
pub open spec fn hex_text(bytes: Seq<u8>) -> Seq<char> {
    Seq::new(
        2 * bytes.len(),
        |i: int|
            if i % 2 == 0 {
                hex_digit(bytes[i / 2] as int / 16)
            } else {
                hex_digit(bytes[i / 2] as int % 16)
            },
    )
}

/// The value of a hexadecimal digit of either case, written as a byte.
pub open spec fn nibble_value(byte: u8) -> Option<u8> {
    if 48 <= byte <= 57 {
        Some((byte - 48) as u8)
    } else if 97 <= byte <= 102 {
        Some((byte - 87) as u8)
    } else if 65 <= byte <= 70 {
        Some((byte - 55) as u8)
    } else {
        None
    }
}

/// The first byte of `text` that is no hexadecimal digit.
pub open spec fn first_bad_nibble(text: Seq<u8>) -> Option<u8>
    decreases text.len(),
{
    if text.len() == 0 {
        None
    } else if nibble_value(text[0]) is None {
        Some(text[0])
    } else {
        first_bad_nibble(text.drop_first())
    }
}

/// What is wrong with `text` as hexadecimal, if anything.
pub open spec fn hex_error(text: Seq<u8>) -> Option<Seq<char>> {
    if text.len() % 2 != 0 {
        Some("hex string has odd length"@)
    } else {
        match first_bad_nibble(text) {
            Some(byte) => Some("invalid hex byte "@ + decimal(byte as nat)),
            None => None,
        }
    }
}

/// The bytes that hexadecimal `text` stands for.
pub open spec fn hex_value(text: Seq<u8>) -> Seq<u8> {
    Seq::new(
        text.len() / 2,
        |i: int| (nibble_value(text[2 * i])->0 * 16 + nibble_value(text[2 * i + 1])->0) as u8,
    )
}

fn hex_char(d: u8) -> (c: char)
    requires
        d < 16,
    ensures
        c == hex_digit(d as int),
{
    if d < 10 {
        (48u8 + d) as char
    } else {
        (87u8 + d) as char
    }
}

/// Renders `bytes` in lowercase hexadecimal.
pub fn encode_hex(bytes: &[u8]) -> (encoded: String)
    ensures
        encoded@ == hex_text(bytes@),
{
    let mut encoded: String = String::new();
    let mut i: usize = 0;
    while i < bytes.len()
        invariant
            i <= bytes@.len(),
            encoded@ == hex_text(bytes@.take(i as int)),
        decreases bytes@.len() - i,
    {
        let byte: u8 = bytes[i];
        encoded.push(hex_char(byte / 16));
        encoded.push(hex_char(byte % 16));
        i += 1;
        assert(encoded@ =~= hex_text(bytes@.take(i as int)));
    }
    assert(bytes@.take(i as int) =~= bytes@);
    encoded
}

/// Reads one hexadecimal digit of either case.
pub fn decode_nibble(byte: u8) -> (r: Result<u8, String>)
    ensures
        match r {
            Ok(v) => nibble_value(byte) == Some(v),
            Err(m) => nibble_value(byte) is None && m@ == "invalid hex byte "@ + decimal(
                byte as nat,
            ),
        },
        r matches Ok(v) ==> v < 16,
{
    if 48 <= byte && byte <= 57 {
        Ok(byte - 48)
    } else if 97 <= byte && byte <= 102 {
        Ok(byte - 87)
    } else if 65 <= byte && byte <= 70 {
        Ok(byte - 55)
    } else {
        let mut message: String = String::from_str("invalid hex byte ");
        push_decimal(&mut message, byte as u64);
        Err(message)
    }
}

proof fn lemma_first_bad_after_good(text: Seq<u8>, n: int)
    requires
        0 <= n <= text.len(),
        forall|k: int| 0 <= k < n ==> nibble_value(#[trigger] text[k]) is Some,
    ensures
        first_bad_nibble(text) == first_bad_nibble(text.skip(n)),
    decreases n,
{
    if n == 0 {
        assert(text.skip(0) =~= text);
    } else {
        let rest = text.drop_first();
        assert forall|k: int| 0 <= k < n - 1 implies nibble_value(#[trigger] rest[k]) is Some by {
            assert(rest[k] == text[k + 1]);
        }
        lemma_first_bad_after_good(rest, n - 1);
        assert(rest.skip(n - 1) =~= text.skip(n));
        assert(nibble_value(text[0]) is Some);
    }
}

/// Reads hexadecimal text of either case.
pub fn decode_hex(value: &str) -> (r: Result<Vec<u8>, String>)
    ensures
        match r {
            Ok(bytes) => hex_error(value.spec_bytes()) is None && bytes@ == hex_value(
                value.spec_bytes(),
            ),
            Err(m) => hex_error(value.spec_bytes()) == Some(m@),
        },
{
    let text: &[u8] = value.as_bytes();
    let ghost t = value.spec_bytes();
    if text.len() % 2 != 0 {
        return Err(String::from_str("hex string has odd length"));
    }
    let mut bytes: Vec<u8> = Vec::new();
    let mut i: usize = 0;
    while i < text.len()
        invariant
            text@ == t,
            t == value.spec_bytes(),
            t.len() % 2 == 0,
            i % 2 == 0,
            i <= t.len(),
            bytes@.len() == i / 2,
            forall|k: int| 0 <= k < i ==> nibble_value(#[trigger] t[k]) is Some,
            forall|k: int| 0 <= k < i / 2 ==> bytes@[k] == hex_value(t)[k],
        decreases t.len() - i,
    {
        let ghost before = t.skip(i as int);
        proof {
            lemma_first_bad_after_good(t, i as int);
            assert(before[0] == t[i as int]);
            assert(before.drop_first()[0] == t[i + 1]);
        }
        let high: u8 = match decode_nibble(text[i]) {
            Ok(v) => v,
            Err(m) => {
                return Err(m);
            },
        };
        let low: u8 = match decode_nibble(text[i + 1]) {
            Ok(v) => v,
            Err(m) => {
                proof {
                    reveal_with_fuel(first_bad_nibble, 3);
                }
                return Err(m);
            },
        };
        bytes.push(high * 16 + low);
        i += 2;
    }
    proof {
        lemma_first_bad_after_good(t, t.len() as int);
        assert(bytes@ =~= hex_value(t));
    }
    Ok(bytes)
}

/// Decoding the hexadecimal text of a byte string gives the byte string back.
pub proof fn law_decode_undoes_encode(bytes: Seq<u8>)
    ensures
        hex_error(vstd::utf8::encode_utf8(hex_text(bytes))) is None,
        hex_value(vstd::utf8::encode_utf8(hex_text(bytes))) == bytes,
{
    let chars = hex_text(bytes);
    vstd::utf8::is_ascii_chars_encode_utf8(chars);
    let text = vstd::utf8::encode_utf8(chars);
    assert forall|k: int| 0 <= k < text.len() implies nibble_value(#[trigger] text[k]) is Some by {
        assert(text[k] == chars[k] as u8);
    }
    lemma_first_bad_after_good(text, text.len() as int);
    assert forall|i: int| 0 <= i < bytes.len() implies hex_value(text)[i] == bytes[i] by {
        assert(text[2 * i] == chars[2 * i] as u8);
        assert(text[2 * i + 1] == chars[2 * i + 1] as u8);
        assert((2 * i) / 2 == i && (2 * i + 1) / 2 == i);
    }
    assert(hex_value(text) =~= bytes);
}

/// Different byte strings have different hexadecimal texts.
pub proof fn law_hex_text_is_injective(a: Seq<u8>, b: Seq<u8>)
    requires
        hex_text(a) == hex_text(b),
    ensures
        a == b,
{
    law_decode_undoes_encode(a);
    law_decode_undoes_encode(b);
}

/// A text can be read as bytes exactly if it has an even number of hexadecimal digits, of either
/// case, and nothing else; each pair of them is a byte.
pub proof fn law_hex_texts_are_read_in_pairs(text: Seq<u8>, i: int)
    ensures
        hex_error(text) is None <==> text.len() % 2 == 0 && forall|k: int|
            0 <= k < text.len() ==> (48 <= #[trigger] text[k] <= 57) || (97 <= text[k] <= 102) || (
            65 <= text[k] <= 70),
        hex_value(text).len() == text.len() / 2,
        hex_error(text) is None && 0 <= i < text.len() / 2 ==> hex_value(text)[i]
            == nibble_value(text[2 * i])->0 * 16 + nibble_value(text[2 * i + 1])->0,
        forall|b: u8|
            48 <= b <= 57 ==> #[trigger] nibble_value(b) == Some((b - 48) as u8),
        forall|b: u8|
            97 <= b <= 102 ==> #[trigger] nibble_value(b) == Some((b - 87) as u8),
        forall|b: u8|
            65 <= b <= 70 ==> #[trigger] nibble_value(b) == Some((b - 55) as u8),
{
    lemma_all_nibbles(text);
    if hex_error(text) is None && 0 <= i < text.len() / 2 {
        assert(nibble_value(text[2 * i]) is Some);
        assert(nibble_value(text[2 * i + 1]) is Some);
    }
}

proof fn lemma_all_nibbles(text: Seq<u8>)
    ensures
        first_bad_nibble(text) is None <==> forall|k: int|
            0 <= k < text.len() ==> (48 <= #[trigger] text[k] <= 57) || (97 <= text[k] <= 102) || (
            65 <= text[k] <= 70),
    decreases text.len(),
{
    if text.len() > 0 {
        let rest = text.drop_first();
        lemma_all_nibbles(rest);
        assert forall|k: int| 1 <= k < text.len() implies rest[k - 1] == #[trigger] text[k] by {}
        if first_bad_nibble(text) is None {
            assert forall|k: int| 0 <= k < text.len() implies (48 <= #[trigger] text[k] <= 57) || (97
                <= text[k] <= 102) || (65 <= text[k] <= 70) by {
                if k > 0 {
                    assert(rest[k - 1] == text[k]);
                }
            }
        } else if nibble_value(text[0]) is Some {
            let k = choose|k: int|
                0 <= k < rest.len() && !((48 <= #[trigger] rest[k] <= 57) || (97 <= rest[k] <= 102)
                    || (65 <= rest[k] <= 70));
            assert(text[k + 1] == rest[k]);
        }
    }
}

} // verus!
