//! Request and operation identities.

use vstd::prelude::*;
use vstd::string::*;
use crate::hex::{encode_hex, hex_text, law_hex_text_is_injective};
use crate::text::{
    chars_of, decimal, decimal_text, find_last, has_prefix, has_suffix, join3, last_position,
    lemma_decimal_digits, lemma_decimal_injective, lemma_last_position_is,
    lemma_split_at_separator, starts_with,
};

verus! {

/// Whether `c` is a hexadecimal digit of either case.
pub open spec fn is_hex_char(c: char) -> bool {
    '0' <= c <= '9' || 'a' <= c <= 'f' || 'A' <= c <= 'F'
}

/// Whether `s` is made of eight hexadecimal digits.
pub open spec fn is_engine_suffix(s: Seq<char>) -> bool {
    s.len() == 8 && forall|i: int| 0 <= i < 8 ==> is_hex_char(#[trigger] s[i])
}

/// A raw request identifier without the completion prefix.
pub open spec fn without_completion_prefix(raw: Seq<char>) -> Seq<char> {
    if has_prefix(raw, "cmpl-"@) {
        raw.skip("cmpl-"@.len() as int)
    } else {
        raw
    }
}

/// The identity of a request behind the affixes that the serving engine adds,
/// or what is wrong with the raw identifier.
pub open spec fn stable_identity(raw: Seq<char>) -> Result<Seq<char>, Seq<char>> {
    let body = without_completion_prefix(raw);
    match last_position(body, '-') {
        None => Err("request id "@ + raw + " lacks the frozen vLLM suffix"@),
        Some(p) => {
            let prefix = body.take(p);
            let suffix = body.skip(p + 1);
            if !is_engine_suffix(suffix) {
                Err("request id "@ + raw + " has an invalid vLLM suffix"@)
            } else if !has_suffix(prefix, "-0"@) {
                Err("request id "@ + raw + " lacks the frozen completion index"@)
            } else if prefix.len() == "-0"@.len() {
                Err("request id "@ + raw + " has an empty stable identity"@)
            } else {
                Ok(prefix.take(prefix.len() - "-0"@.len()))
            }
        },
    }
}

fn hex_char(c: char) -> (r: bool)
    ensures
        r == is_hex_char(c),
{
    ('0' <= c && c <= '9') || ('a' <= c && c <= 'f') || ('A' <= c && c <= 'F')
}

/// Strips the completion prefix, the completion index and the engine's suffix
/// from a raw request identifier.
pub fn stable_request_id(raw: &str) -> (r: Result<String, String>)
    ensures
        match r {
            Ok(id) => stable_identity(raw@) == Ok::<Seq<char>, Seq<char>>(id@),
            Err(m) => stable_identity(raw@) == Err::<Seq<char>, Seq<char>>(m@),
        },
{
    proof {
        reveal_strlit("cmpl-");
        reveal_strlit("-0");
    }
    let total: usize = raw.unicode_len();
    let body: &str = if starts_with(raw, "cmpl-") {
        raw.substring_char(5, total)
    } else {
        raw
    };
    assert(body@ =~= without_completion_prefix(raw@));
    let chars: Vec<char> = chars_of(body);
    let p: usize = match find_last(&chars, '-') {
        Some(p) => p,
        None => {
            return Err(join3("request id ", raw, " lacks the frozen vLLM suffix"));
        },
    };
    let ghost prefix = body@.take(p as int);
    let ghost suffix = body@.skip(p + 1);
    let mut valid: bool = chars.len() - p - 1 == 8;
    if valid {
        let mut i: usize = p + 1;
        while i < chars.len() && valid
            invariant
                p + 1 <= i <= chars@.len(),
                chars@.len() == p + 9,
                suffix == chars@.skip(p + 1),
                valid ==> forall|k: int| 0 <= k < i - p - 1 ==> is_hex_char(#[trigger] suffix[k]),
                !valid ==> !is_engine_suffix(suffix),
            decreases chars@.len() - i,
        {
            assert(suffix[i - p - 1] == chars@[i as int]);
            if !hex_char(chars[i]) {
                valid = false;
            }
            i += 1;
        }
    }
    if !valid {
        return Err(join3("request id ", raw, " has an invalid vLLM suffix"));
    }
    assert(is_engine_suffix(suffix));
    if p < 2 || chars[p - 2] != '-' || chars[p - 1] != '0' {
        proof {
            if has_suffix(prefix, "-0"@) {
                let tail = prefix.skip(p - 2);
                assert(tail[0] == chars@[p - 2] && tail[1] == chars@[p - 1]);
            }
        }
        return Err(join3("request id ", raw, " lacks the frozen completion index"));
    }
    assert(prefix.skip(p - 2) =~= "-0"@);
    if p == 2 {
        return Err(join3("request id ", raw, " has an empty stable identity"));
    }
    let stable: &str = body.substring_char(0, p - 2);
    assert(stable@ =~= prefix.take(prefix.len() - 2));
    Ok(String::from_str(stable))
}

/// The identity of the operation that moves one segment of one slot of a block.
pub open spec fn operation_identity(
    request: Seq<char>,
    hash: Seq<u8>,
    slot: nat,
    segment: Seq<char>,
) -> Seq<char> {
    request + "|"@ + hex_text(hash) + "|"@ + decimal(slot) + "|"@ + segment
}

/// Names the operation that moves one segment of one slot of a block.
pub fn operation_id(
    stable_request_id: &str,
    block_hash: &[u8],
    slot_index: usize,
    segment: &str,
) -> (id: String)
    ensures
        id@ == operation_identity(stable_request_id@, block_hash@, slot_index as nat, segment@),
{
    let hash: String = encode_hex(block_hash);
    let slot: String = decimal_text(slot_index as u64);
    String::from_str(stable_request_id).concat("|").concat(&hash).concat("|").concat(&slot).concat(
        "|",
    ).concat(segment)
}

/// Adding the engine's affixes to an identity and stripping them again gives
/// the identity back, whatever the eight hexadecimal digits are.
pub proof fn law_affixes_are_stripped(id: Seq<char>, suffix: Seq<char>)
    requires
        id.len() > 0,
        is_engine_suffix(suffix),
    ensures
        stable_identity("cmpl-"@ + id + "-0-"@ + suffix) == Ok::<Seq<char>, Seq<char>>(id),
        !has_prefix(id + "-0-"@, "cmpl-"@) ==> stable_identity(id + "-0-"@ + suffix) == Ok::<
            Seq<char>,
            Seq<char>,
        >(id),
{
    reveal_strlit("cmpl-");
    reveal_strlit("-0");
    reveal_strlit("-0-");
    let body = id + "-0-"@ + suffix;
    let raw = "cmpl-"@ + id + "-0-"@ + suffix;
    assert(raw.take(5) =~= "cmpl-"@);
    assert(raw.skip(5) =~= body);
    let p = id.len() + 2;
    assert(body[p as int] == '-');
    assert forall|k: int| p < k < body.len() implies body[k] != '-' by {
        assert(body[k] == suffix[k - p - 1]);
        assert(is_hex_char(suffix[k - p - 1]));
    }
    lemma_last_position_is(body, '-', p as int);
    assert(body.skip((p + 1) as int) =~= suffix);
    let prefix = body.take(p as int);
    assert(prefix.skip(prefix.len() - 2) =~= "-0"@);
    assert(prefix.take(prefix.len() - 2) =~= id);
    if !has_prefix(id + "-0-"@, "cmpl-"@) {
        if has_prefix(body, "cmpl-"@) {
            let whole = id + "-0-"@;
            if whole.len() >= 5 {
                assert(whole.take(5) =~= body.take(5));
            } else {
                assert(body.take(5)[3] == body[3]);
                assert("cmpl-"@[3] == 'l');
                assert(body[3] == '-');
            }
        }
    }
}

/// Within one request, an operation's identity determines its block, its slot
/// and its segment.
pub proof fn law_operation_identity_is_unique(
    request: Seq<char>,
    hash1: Seq<u8>,
    slot1: nat,
    segment1: Seq<char>,
    hash2: Seq<u8>,
    slot2: nat,
    segment2: Seq<char>,
)
    requires
        operation_identity(request, hash1, slot1, segment1) == operation_identity(
            request,
            hash2,
            slot2,
            segment2,
        ),
    ensures
        hash1 == hash2,
        slot1 == slot2,
        segment1 == segment2,
{
    reveal_strlit("|");
    let bar = seq!['|'];
    assert("|"@ =~= bar);
    let tail1 = decimal(slot1) + bar + segment1;
    let tail2 = decimal(slot2) + bar + segment2;
    let rest1 = hex_text(hash1) + bar + tail1;
    let rest2 = hex_text(hash2) + bar + tail2;
    let all1 = operation_identity(request, hash1, slot1, segment1);
    let all2 = operation_identity(request, hash2, slot2, segment2);
    assert(all1 =~= request + bar + rest1);
    assert(all2 =~= request + bar + rest2);
    assert(all1.skip((request.len() + 1) as int) =~= rest1);
    assert(all2.skip((request.len() + 1) as int) =~= rest2);
    lemma_split_at_separator(hex_text(hash1), tail1, hex_text(hash2), tail2, '|');
    law_hex_text_is_injective(hash1, hash2);
    lemma_decimal_digits(slot1);
    lemma_decimal_digits(slot2);
    lemma_split_at_separator(decimal(slot1), segment1, decimal(slot2), segment2, '|');
    lemma_decimal_injective(slot1, slot2);
}

/// What is left of a name is what stood between the engine's affixes: with them it is the name
/// again.
pub proof fn law_identities_are_what_stood_between(raw: Seq<char>)
    ensures
        stable_identity(raw) matches Ok(id) ==> id.len() > 0 && exists|suffix: Seq<char>| #[trigger]
            is_engine_suffix(suffix) && (raw == id + "-0-"@ + suffix || raw == "cmpl-"@ + id
                + "-0-"@ + suffix),
{
    reveal_strlit("cmpl-");
    reveal_strlit("-0");
    reveal_strlit("-0-");
    if let Ok(id) = stable_identity(raw) {
        let body = without_completion_prefix(raw);
        let p = last_position(body, '-')->0;
        lemma_last_position_there(body, '-');
        let prefix = body.take(p);
        let suffix = body.skip(p + 1);
        assert(prefix =~= id + "-0"@) by {
            assert(prefix.skip(prefix.len() - 2) =~= "-0"@);
        }
        assert(body =~= id + "-0-"@ + suffix) by {
            assert(body =~= prefix + seq!['-'] + suffix);
            assert("-0-"@ =~= "-0"@ + seq!['-']);
        }
        if has_prefix(raw, "cmpl-"@) {
            assert(raw =~= "cmpl-"@ + body);
            assert(raw =~= "cmpl-"@ + id + "-0-"@ + suffix);
        }
        assert(is_engine_suffix(suffix));
    }
}

proof fn lemma_last_position_there(s: Seq<char>, c: char)
    ensures
        last_position(s, c) matches Some(p) ==> 0 <= p < s.len() && s[p] == c,
    decreases s.len(),
{
    if s.len() > 0 {
        lemma_last_position_there(s.drop_last(), c);
    }
}

} // verus!
