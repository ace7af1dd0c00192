//! Options of the server.

use vstd::prelude::*;
use vstd::string::*;
use crate::storage::config::texts;
use crate::text::{
    chars_of, decimal, decimal_text, digit_char, join2, join3, join4, join5, lemma_decimal_digits,
    push_decimal, quote, quoted, same_text, string_of, trim, trimmed,
};

verus! {

/// Why a text is no number.
#[derive(Clone, Copy, Debug, PartialEq, Eq, Structural)]
pub enum NumberFault {
    Empty,
    InvalidDigit,
    TooLarge,
}

/// What is said of a text that is no number.
pub open spec fn number_fault_text(f: NumberFault) -> Seq<char> {
    match f {
        NumberFault::Empty => "cannot parse integer from empty string"@,
        NumberFault::InvalidDigit => "invalid digit found in string"@,
        NumberFault::TooLarge => "number too large to fit in target type"@,
    }
}

impl NumberFault {
    /// What is said of such a text.
    pub fn message(self) -> (r: &'static str)
        ensures
            r@ == number_fault_text(self),
    {
        match self {
            NumberFault::Empty => "cannot parse integer from empty string",
            NumberFault::InvalidDigit => "invalid digit found in string",
            NumberFault::TooLarge => "number too large to fit in target type",
        }
    }
}

/// Whether a character is a decimal digit.
pub open spec fn is_digit(c: char) -> bool {
    '0' <= c <= '9'
}

/// The number that some digits make up, if it is at most `max`. The first character that is
/// no digit, or that makes the number too large, decides.
pub open spec fn digits_value(s: Seq<char>, max: nat) -> Result<nat, NumberFault>
    decreases s.len(),
{
    if s.len() == 0 {
        Ok(0)
    } else {
        match digits_value(s.drop_last(), max) {
            Err(f) => Err(f),
            Ok(v) => if !is_digit(s.last()) {
                Err(NumberFault::InvalidDigit)
            } else if v * 10 + (s.last() as int - 48) > max {
                Err(NumberFault::TooLarge)
            } else {
                Ok((v * 10 + (s.last() as int - 48)) as nat)
            },
        }
    }
}

/// The number that a text stands for: digits, with a plus sign in front or without.
pub open spec fn number_value(s: Seq<char>, max: nat) -> Result<nat, NumberFault> {
    if s.len() == 0 {
        Err(NumberFault::Empty)
    } else if s[0] == '+' && s.len() > 1 {
        digits_value(s.skip(1), max)
    } else {
        digits_value(s, max)
    }
}

/// Reads a number of at most `max`.
pub fn parse_number(s: &[char], max: u64) -> (r: Result<u64, NumberFault>)
    ensures
        match r {
            Ok(n) => number_value(s@, max as nat) == Ok::<nat, NumberFault>(n as nat) && n <= max,
            Err(f) => number_value(s@, max as nat) == Err::<nat, NumberFault>(f),
        },
{
    if s.len() == 0 {
        return Err(NumberFault::Empty);
    }
    let start: usize = if s[0] == '+' && s.len() > 1 {
        1
    } else {
        0
    };
    let ghost digits = s@.skip(start as int);
    assert(s@.skip(0) =~= s@);
    let mut value: u64 = 0;
    let mut i: usize = start;
    assert(digits.take(0) =~= Seq::<char>::empty());
    while i < s.len()
        invariant
            start <= i <= s@.len(),
            s@.len() > 0,
            start == (if s@[0] == '+' && s@.len() > 1 {
                1usize
            } else {
                0
            }),
            digits == s@.skip(start as int),
            start == 0 ==> digits == s@,
            value <= max,
            digits_value(digits.take(i - start), max as nat) == Ok::<nat, NumberFault>(
                value as nat,
            ),
        decreases s@.len() - i,
    {
        let c: char = s[i];
        proof {
            let part = digits.take(i - start + 1);
            assert(part.drop_last() =~= digits.take(i - start));
            assert(part.last() == c);
            lemma_fault_stays(digits, max as nat, i - start + 1);
        }
        if !('0' <= c && c <= '9') {
            return Err(NumberFault::InvalidDigit);
        }
        let digit: u64 = c as u64 - 48;
        if value > (u64::MAX - digit) / 10 || value * 10 + digit > max {
            assert(value * 10 + digit > max) by {
                if value > (u64::MAX - digit) / 10 {
                    assert(value * 10 + digit > u64::MAX) by (nonlinear_arith)
                        requires
                            value > (u64::MAX - digit) / 10,
                            digit <= 9,
                    ;
                }
            }
            return Err(NumberFault::TooLarge);
        }
        value = value * 10 + digit;
        i += 1;
    }
    assert(digits.take(i - start) =~= digits);
    Ok(value)
}

proof fn lemma_fault_stays(s: Seq<char>, max: nat, n: int)
    requires
        0 <= n <= s.len(),
    ensures
        digits_value(s.take(n), max) is Err ==> digits_value(s, max) == digits_value(
            s.take(n),
            max,
        ),
    decreases s.len() - n,
{
    if n < s.len() {
        lemma_fault_stays(s, max, n + 1);
        assert(s.take(n + 1).drop_last() =~= s.take(n));
    } else {
        assert(s.take(n) =~= s);
    }
}

/// A number that was written in decimal is read back.
pub proof fn law_written_numbers_are_read_back(n: nat, max: nat)
    requires
        n <= max,
    ensures
        number_value(decimal(n), max) == Ok::<nat, NumberFault>(n),
    decreases n,
{
    lemma_decimal_digits(n);
    lemma_digits_of_decimal(n, max);
}

proof fn lemma_digits_of_decimal(n: nat, max: nat)
    requires
        n <= max,
    ensures
        digits_value(decimal(n), max) == Ok::<nat, NumberFault>(n),
    decreases n,
{
    lemma_decimal_digits(n);
    let s = decimal(n);
    if n < 10 {
        assert(s.drop_last() =~= Seq::<char>::empty());
        assert(digits_value(s.drop_last(), max) == Ok::<nat, NumberFault>(0));
        assert(s.last() == digit_char(n as int));
    } else {
        lemma_digits_of_decimal(n / 10, max);
        assert(s.drop_last() =~= decimal(n / 10));
        assert(s.last() == digit_char((n % 10) as int));
    }
}

/// The least number of bits of a bucket index.
pub const MIN_BUCKET_BITS: u8 = 4;

/// The largest number of bits of a bucket index.
pub const MAX_BUCKET_BITS: u8 = 18;

/// Reads how many bits a bucket index has.
pub fn parse_hll_bucket_bits(s: &str) -> (r: Result<u8, String>)
    ensures
        match number_value(s@, 255) {
            Err(f) => r matches Err(m) && m@ == number_fault_text(f),
            Ok(v) => if MIN_BUCKET_BITS <= v <= MAX_BUCKET_BITS {
                r matches Ok(b) && b == v
            } else {
                r matches Err(m) && m@ == "HLL bucket_bits must be in 4..=18, got "@ + decimal(v)
            },
        },
{
    let chars: Vec<char> = chars_of(s);
    match parse_number(chars.as_slice(), 255) {
        Err(f) => Err(String::from_str(f.message())),
        Ok(v) => {
            if v < MIN_BUCKET_BITS as u64 || v > MAX_BUCKET_BITS as u64 {
                return Err(
                    join2("HLL bucket_bits must be in 4..=18, got ", decimal_text(v).as_str()),
                );
            }
            Ok(v as u8)
        },
    }
}

/// Reads the name of a NIC, without the white space around it.
pub fn parse_nic_name(s: &str) -> (r: Result<String, String>)
    ensures
        if trimmed(s@).len() == 0 {
            r matches Err(m) && m@ == "--nics contains an empty NIC name"@
        } else {
            r matches Ok(name) && name@ == trimmed(s@)
        },
{
    let name: String = trim(s);
    let chars: Vec<char> = chars_of(name.as_str());
    if chars.len() == 0 {
        return Err(String::from_str("--nics contains an empty NIC name"));
    }
    Ok(name)
}

/// How many of the first characters are digits.
pub open spec fn digit_count(s: Seq<char>) -> int
    decreases s.len(),
{
    if s.len() == 0 || !is_digit(s[0]) {
        0
    } else {
        1 + digit_count(s.drop_first())
    }
}

proof fn lemma_digit_count(s: Seq<char>, n: int)
    requires
        0 <= n <= s.len(),
        forall|k: int| 0 <= k < n ==> is_digit(#[trigger] s[k]),
        n < s.len() ==> !is_digit(s[n]),
    ensures
        digit_count(s) == n,
    decreases n,
{
    if n > 0 {
        assert(is_digit(s[0]));
        let rest = s.drop_first();
        assert forall|k: int| 0 <= k < n - 1 implies is_digit(#[trigger] rest[k]) by {
            assert(rest[k] == s[k + 1]);
        }
        lemma_digit_count(rest, n - 1);
    }
}

/// How many seconds a unit of time has.
pub open spec fn unit_seconds(unit: Seq<char>) -> Option<nat> {
    if unit == "s"@ {
        Some(1)
    } else if unit == "m"@ {
        Some(60)
    } else if unit == "h"@ {
        Some(3600)
    } else if unit == "d"@ {
        Some(86400)
    } else {
        None
    }
}

/// The seconds that a text stands for: a number and a unit; or what is wrong with it.
pub open spec fn duration_value(s: Seq<char>) -> Result<nat, Seq<char>> {
    let p = digit_count(s);
    let unit = s.skip(p);
    if p == s.len() {
        Err("missing time unit in "@ + s)
    } else {
        match number_value(s.take(p), u64::MAX as nat) {
            Err(f) => Err("invalid number in "@ + s + ": "@ + number_fault_text(f)),
            Ok(n) => match unit_seconds(unit) {
                None => Err(
                    "unknown time unit "@ + quoted(unit) + " in "@ + s + "; use s/m/h/d"@,
                ),
                Some(secs) => if n * secs > u64::MAX {
                    Err("duration overflows seconds in "@ + s)
                } else {
                    Ok(n * secs)
                },
            },
        }
    }
}

/// What is said of a unit that there is not; `shown` is the unit in quotes.
pub fn unknown_unit_text(shown: &str, s: &str) -> (r: String)
    ensures
        r@ == "unknown time unit "@ + shown@ + " in "@ + s@ + "; use s/m/h/d"@,
{
    join5("unknown time unit ", shown, " in ", s, "; use s/m/h/d")
}

/// Reads a time: a number and one of the units s, m, h and d. In seconds.
pub fn parse_humantime(s: &str) -> (r: Result<u64, String>)
    ensures
        match r {
            Ok(secs) => duration_value(s@) == Ok::<nat, Seq<char>>(secs as nat),
            Err(m) => duration_value(s@) == Err::<nat, Seq<char>>(m@),
        },
{
    let chars: Vec<char> = chars_of(s);
    let mut p: usize = 0;
    while p < chars.len() && '0' <= chars[p] && chars[p] <= '9'
        invariant
            p <= chars@.len(),
            forall|k: int| 0 <= k < p ==> is_digit(#[trigger] chars@[k]),
        decreases chars@.len() - p,
    {
        p += 1;
    }
    proof {
        lemma_digit_count(s@, p as int);
    }
    if p == chars.len() {
        return Err(join2("missing time unit in ", s));
    }
    let number: &[char] = vstd::slice::slice_subrange(chars.as_slice(), 0, p);
    assert(number@ =~= s@.take(p as int));
    let unit: String = string_of(vstd::slice::slice_subrange(chars.as_slice(), p, chars.len()));
    assert(unit@ =~= s@.skip(p as int));
    let n: u64 = match parse_number(number, u64::MAX) {
        Ok(n) => n,
        Err(f) => {
            return Err(join4("invalid number in ", s, ": ", f.message()));
        },
    };
    let secs: u64 = if same_text(unit.as_str(), "s") {
        1
    } else if same_text(unit.as_str(), "m") {
        60
    } else if same_text(unit.as_str(), "h") {
        3600
    } else if same_text(unit.as_str(), "d") {
        86400
    } else {
        let shown: String = quote(unit.as_str());
        return Err(unknown_unit_text(shown.as_str(), s));
    };
    let total: u128 = n as u128 * secs as u128;
    if total > u64::MAX as u128 {
        return Err(join2("duration overflows seconds in ", s));
    }
    Ok(total as u64)
}

/// The bytes of a unit of sizes, where there is one of that name.
pub open spec fn unit_bytes(unit: Seq<char>) -> Option<nat> {
    if unit == ""@ {
        Some(1)
    } else if unit == "kb"@ {
        Some(1024)
    } else if unit == "mb"@ {
        Some(1_048_576)
    } else if unit == "gb"@ {
        Some(1_073_741_824)
    } else if unit == "tb"@ {
        Some(1_099_511_627_776)
    } else {
        None
    }
}

/// The bytes that a text stands for: a number, with a unit or without; or what is wrong with
/// it.
pub open spec fn size_value(s: Seq<char>) -> Result<nat, Seq<char>> {
    let p = digit_count(s);
    let unit = s.skip(p);
    match number_value(s.take(p), u64::MAX as nat) {
        Err(f) => Err("invalid number in "@ + s + ": "@ + number_fault_text(f)),
        Ok(n) => match unit_bytes(unit) {
            None => Err(
                "unknown size unit "@ + quoted(unit) + " in "@ + s + "; use kb/mb/gb/tb"@,
            ),
            Some(bytes) => if n * bytes > u64::MAX {
                Err("size overflows bytes in "@ + s)
            } else {
                Ok(n * bytes)
            },
        },
    }
}

/// What is said of a unit of sizes that there is not; `shown` is the unit in quotes.
pub fn unknown_size_unit_text(shown: &str, s: &str) -> (r: String)
    ensures
        r@ == "unknown size unit "@ + shown@ + " in "@ + s@ + "; use kb/mb/gb/tb"@,
{
    join5("unknown size unit ", shown, " in ", s, "; use kb/mb/gb/tb")
}

/// Reads a size: a number, and one of the units kb, mb, gb and tb or none. In bytes.
pub fn parse_memory_size(s: &str) -> (r: Result<u64, String>)
    ensures
        match r {
            Ok(bytes) => size_value(s@) == Ok::<nat, Seq<char>>(bytes as nat),
            Err(m) => size_value(s@) == Err::<nat, Seq<char>>(m@),
        },
{
    let chars: Vec<char> = chars_of(s);
    let mut p: usize = 0;
    while p < chars.len() && '0' <= chars[p] && chars[p] <= '9'
        invariant
            p <= chars@.len(),
            forall|k: int| 0 <= k < p ==> is_digit(#[trigger] chars@[k]),
        decreases chars@.len() - p,
    {
        p += 1;
    }
    proof {
        lemma_digit_count(s@, p as int);
    }
    let number: &[char] = vstd::slice::slice_subrange(chars.as_slice(), 0, p);
    assert(number@ =~= s@.take(p as int));
    let unit: String = string_of(vstd::slice::slice_subrange(chars.as_slice(), p, chars.len()));
    assert(unit@ =~= s@.skip(p as int));
    let n: u64 = match parse_number(number, u64::MAX) {
        Ok(n) => n,
        Err(f) => {
            return Err(join4("invalid number in ", s, ": ", f.message()));
        },
    };
    let bytes: u64 = if same_text(unit.as_str(), "") {
        1
    } else if same_text(unit.as_str(), "kb") {
        1024
    } else if same_text(unit.as_str(), "mb") {
        1_048_576
    } else if same_text(unit.as_str(), "gb") {
        1_073_741_824
    } else if same_text(unit.as_str(), "tb") {
        1_099_511_627_776
    } else {
        let shown: String = quote(unit.as_str());
        return Err(unknown_size_unit_text(shown.as_str(), s));
    };
    let total: u128 = n as u128 * bytes as u128;
    if total > u64::MAX as u128 {
        return Err(join2("size overflows bytes in ", s));
    }
    Ok(total as u64)
}

/// A time in its largest whole unit.
pub open spec fn window_label(secs: nat) -> Seq<char> {
    if secs % 86400 == 0 {
        decimal(secs / 86400) + "d"@
    } else if secs % 3600 == 0 {
        decimal(secs / 3600) + "h"@
    } else if secs % 60 == 0 {
        decimal(secs / 60) + "m"@
    } else {
        decimal(secs) + "s"@
    }
}

/// Writes a time in its largest whole unit.
pub fn format_hll_window_label(secs: u64) -> (r: String)
    ensures
        r@ == window_label(secs as nat),
{
    if secs % 86400 == 0 {
        join2(decimal_text(secs / 86400).as_str(), "d")
    } else if secs % 3600 == 0 {
        join2(decimal_text(secs / 3600).as_str(), "h")
    } else if secs % 60 == 0 {
        join2(decimal_text(secs / 60).as_str(), "m")
    } else {
        join2(decimal_text(secs).as_str(), "s")
    }
}

/// The label of a time is read back as that time.
pub proof fn law_labels_are_read_back(secs: nat)
    requires
        secs <= u64::MAX,
    ensures
        duration_value(window_label(secs)) == Ok::<nat, Seq<char>>(secs),
{
    reveal_strlit("s");
    reveal_strlit("m");
    reveal_strlit("h");
    reveal_strlit("d");
    let (n, unit): (nat, Seq<char>) = if secs % 86400 == 0 {
        (secs / 86400, "d"@)
    } else if secs % 3600 == 0 {
        (secs / 3600, "h"@)
    } else if secs % 60 == 0 {
        (secs / 60, "m"@)
    } else {
        (secs, "s"@)
    };
    assert(n <= u64::MAX);
    let s = decimal(n) + unit;
    let p = decimal(n).len() as int;
    lemma_decimal_digits(n);
    assert forall|k: int| 0 <= k < p implies is_digit(#[trigger] s[k]) by {
        assert(s[k] == decimal(n)[k]);
    }
    assert(s[p] == unit[0]);
    lemma_digit_count(s, p);
    assert(s.take(p) =~= decimal(n));
    assert(s.skip(p) =~= unit);
    law_written_numbers_are_read_back(n, u64::MAX as nat);
    assert("s"@[0] == 's' && "m"@[0] == 'm' && "h"@[0] == 'h' && "d"@[0] == 'd');
    assert(digit_count(s) == p);
    let per = unit_seconds(unit)->0;
    assert(unit_seconds(unit) == Some(per));
    assert(n * per == secs) by {
        assert(per == 1 ==> n * 1 == n);
    }
}

/// The parts of a text between commas.
pub open spec fn comma_parts(s: Seq<char>) -> Seq<Seq<char>>
    decreases s.len(),
{
    if s.len() == 0 {
        seq![Seq::empty()]
    } else {
        let front = comma_parts(s.drop_last());
        if s.last() == ',' {
            front.push(Seq::empty())
        } else {
            front.update(front.len() - 1, front.last().push(s.last()))
        }
    }
}

/// Divides a text at its commas.
pub fn split_commas(s: &str) -> (r: Vec<String>)
    ensures
        texts(r@) == comma_parts(s@),
        r@.len() > 0,
{
    let chars: Vec<char> = chars_of(s);
    let mut parts: Vec<String> = Vec::new();
    let mut part: String = String::new();
    let mut i: usize = 0;
    proof {
        assert(chars@.take(0) =~= Seq::<char>::empty());
        assert(texts(parts@).push(part@) =~= seq![Seq::<char>::empty()]);
    }
    while i < chars.len()
        invariant
            i <= chars@.len(),
            texts(parts@).push(part@) == comma_parts(chars@.take(i as int)),
        decreases chars@.len() - i,
    {
        let ghost shown = texts(parts@);
        let ghost current = part@;
        let ghost front = comma_parts(chars@.take(i as int));
        proof {
            assert(chars@.take(i + 1).drop_last() =~= chars@.take(i as int));
            assert(front.last() == current);
            assert(front.drop_last() =~= shown);
        }
        if chars[i] == ',' {
            parts.push(part);
            part = String::new();
            assert(texts(parts@) =~= shown.push(current));
            assert(texts(parts@).push(part@) =~= front.push(Seq::<char>::empty()));
        } else {
            part.push(chars[i]);
            assert(texts(parts@).push(part@) =~= front.update(
                front.len() - 1,
                current.push(chars@[i as int]),
            ));
        }
        i += 1;
    }
    assert(chars@.take(i as int) =~= chars@);
    let ghost shown = texts(parts@);
    let ghost current = part@;
    parts.push(part);
    assert(texts(parts@) =~= shown.push(current));
    parts
}

/// What is wrong with part `i` of a list of windows, if anything.
pub open spec fn window_fault(parts: Seq<Seq<char>>, i: int) -> Option<Seq<char>> {
    let token = trimmed(parts[i]);
    if token.len() == 0 {
        Some(
            "--metric-hll-windows contains an empty window at position "@ + decimal(
                (i + 1) as nat,
            ),
        )
    } else {
        match duration_value(token) {
            Err(m) => Some(m),
            Ok(secs) => if secs < 60 {
                Some("HLL window "@ + token + " must be at least 1 minute"@)
            } else if exists|k: int| 0 <= k < i && #[trigger] duration_value(trimmed(parts[k])) == Ok::<
                nat,
                Seq<char>,
            >(secs) {
                Some(
                    "duplicate HLL window duration: "@ + token + " ("@ + window_label(secs)
                        + ")"@,
                )
            } else {
                None
            },
        }
    }
}

/// What is wrong with the first of the first `n` parts that something is wrong with.
pub open spec fn first_window_fault(parts: Seq<Seq<char>>, n: int) -> Option<Seq<char>>
    decreases n,
{
    if n <= 0 {
        None
    } else if first_window_fault(parts, n - 1) is Some {
        first_window_fault(parts, n - 1)
    } else {
        window_fault(parts, n - 1)
    }
}

/// The window of a part: its label and its length in seconds.
pub open spec fn window_of(part: Seq<char>) -> (Seq<char>, u64) {
    let secs = duration_value(trimmed(part))->Ok_0;
    (window_label(secs), secs as u64)
}

/// Windows as plain values.
pub open spec fn window_views(v: Seq<(String, u64)>) -> Seq<(Seq<char>, u64)> {
    v.map_values(|w: (String, u64)| (w.0@, w.1))
}

/// What a list of windows stands for, or what is wrong with it.
pub open spec fn windows_value(s: Seq<char>) -> Result<Seq<(Seq<char>, u64)>, Seq<char>> {
    let parts = comma_parts(s);
    match first_window_fault(parts, parts.len() as int) {
        Some(m) => Err(m),
        None => Ok(parts.map_values(|p: Seq<char>| window_of(p))),
    }
}

proof fn lemma_window_fault_stays(parts: Seq<Seq<char>>, m: int, n: int)
    requires
        m <= n,
    ensures
        first_window_fault(parts, m) is Some ==> first_window_fault(parts, n)
            == first_window_fault(parts, m),
    decreases n - m,
{
    if m < n {
        lemma_window_fault_stays(parts, m, n - 1);
    }
}

proof fn lemma_no_window_fault(parts: Seq<Seq<char>>, n: int, k: int)
    requires
        first_window_fault(parts, n) is None,
        0 <= k < n,
    ensures
        window_fault(parts, k) is None,
    decreases n,
{
    if k < n - 1 {
        lemma_no_window_fault(parts, n - 1, k);
    }
}

/// Reads a list of windows with commas between them. Each gets a label that depends on its
/// length alone; no window may be empty, shorter than a minute, or as long as another.
pub fn parse_hll_windows(s: &str) -> (r: Result<Vec<(String, u64)>, String>)
    ensures
        match r {
            Ok(windows) => windows_value(s@) == Ok::<Seq<(Seq<char>, u64)>, Seq<char>>(
                window_views(windows@),
            ) && windows@.len() > 0,
            Err(m) => windows_value(s@) == Err::<Seq<(Seq<char>, u64)>, Seq<char>>(m@),
        },
{
    let tokens: Vec<String> = split_commas(s);
    let ghost parts = comma_parts(s@);
    let ghost n = parts.len() as int;
    assert(texts(tokens@).len() == tokens@.len());
    let mut out: Vec<(String, u64)> = Vec::new();
    let ghost wanted = parts.map_values(|p: Seq<char>| window_of(p));
    let mut i: usize = 0;
    assert(window_views(out@) =~= wanted.take(0));
    while i < tokens.len()
        invariant
            i <= tokens@.len(),
            texts(tokens@) == parts,
            n == parts.len(),
            n == tokens@.len(),
            parts == comma_parts(s@),
            wanted == parts.map_values(|p: Seq<char>| window_of(p)),
            first_window_fault(parts, i as int) is None,
            out@.len() == i,
            window_views(out@) == wanted.take(i as int),
            forall|k: int|
                0 <= k < i ==> #[trigger] duration_value(trimmed(parts[k])) == Ok::<
                    nat,
                    Seq<char>,
                >(out@[k].1 as nat),
        decreases tokens@.len() - i,
    {
        proof {
            assert(parts[i as int] == tokens@[i as int]@);
            lemma_window_fault_stays(parts, i + 1, n);
        }
        let token: String = trim(tokens[i].as_str());
        let chars: Vec<char> = chars_of(token.as_str());
        if chars.len() == 0 {
            let mut m: String = String::from_str(
                "--metric-hll-windows contains an empty window at position ",
            );
            push_decimal(&mut m, i as u64 + 1);
            return Err(m);
        }
        let secs: u64 = match parse_humantime(token.as_str()) {
            Ok(secs) => secs,
            Err(m) => {
                return Err(m);
            },
        };
        if secs < 60 {
            return Err(join3("HLL window ", token.as_str(), " must be at least 1 minute"));
        }
        let label: String = format_hll_window_label(secs);
        let mut k: usize = 0;
        while k < i
            invariant
                k <= i,
                i < tokens@.len(),
                out@.len() == i,
                n == parts.len(),
                parts == comma_parts(s@),
                first_window_fault(parts, i as int) is None,
                first_window_fault(parts, i + 1) is Some ==> first_window_fault(parts, n)
                    == first_window_fault(parts, i + 1),
                token@ == trimmed(parts[i as int]),
                token@.len() > 0,
                duration_value(token@) == Ok::<nat, Seq<char>>(secs as nat),
                secs >= 60,
                label@ == window_label(secs as nat),
                forall|q: int|
                    0 <= q < i ==> #[trigger] duration_value(trimmed(parts[q])) == Ok::<
                        nat,
                        Seq<char>,
                    >(out@[q].1 as nat),
                forall|q: int| 0 <= q < k ==> (#[trigger] out@[q]).1 != secs,
            decreases i - k,
        {
            if out[k].1 == secs {
                assert(duration_value(trimmed(parts[k as int])) == Ok::<nat, Seq<char>>(
                    secs as nat,
                ));
                return Err(
                    join5(
                        "duplicate HLL window duration: ",
                        token.as_str(),
                        " (",
                        label.as_str(),
                        ")",
                    ),
                );
            }
            k += 1;
        }
        let ghost shown = window_views(out@);
        let ghost view = (label@, secs);
        proof {
            assert forall|q: int| 0 <= q < i implies #[trigger] duration_value(
                trimmed(parts[q]),
            ) != Ok::<nat, Seq<char>>(secs as nat) by {
                assert(out@[q].1 != secs);
            }
            assert(window_fault(parts, i as int) is None);
            assert(wanted[i as int] == view);
        }
        out.push((label, secs));
        i += 1;
        assert(window_views(out@) =~= shown.push(view));
        assert(wanted.take(i as int) =~= wanted.take(i - 1).push(view));
    }
    assert(wanted.take(i as int) =~= wanted);
    Ok(out)
}

/// Checks a list of windows, and returns it as it is written.
pub fn parse_hll_windows_arg(s: &str) -> (r: Result<String, String>)
    ensures
        match windows_value(s@) {
            Ok(_) => r matches Ok(t) && t@ == s@,
            Err(e) => r matches Err(m) && m@ == e,
        },
{
    match parse_hll_windows(s) {
        Ok(_) => Ok(String::from_str(s)),
        Err(m) => Err(m),
    }
}

/// No two windows of a list are equally long, and none is shorter than a minute.
pub proof fn law_windows_differ(s: Seq<char>, i: int, j: int)
    requires
        windows_value(s) is Ok,
        0 <= i < j < comma_parts(s).len(),
    ensures
        ({
            let windows = windows_value(s)->Ok_0;
            &&& windows.len() == comma_parts(s).len()
            &&& windows[i].1 != windows[j].1
            &&& windows[i].1 >= 60
        }),
{
    let parts = comma_parts(s);
    let n = parts.len() as int;
    lemma_no_window_fault(parts, n, i);
    lemma_no_window_fault(parts, n, j);
    lemma_duration_bound(trimmed(parts[i]));
    lemma_duration_bound(trimmed(parts[j]));
    let a = duration_value(trimmed(parts[i]))->Ok_0;
    let b = duration_value(trimmed(parts[j]))->Ok_0;
    assert(duration_value(trimmed(parts[i])) == Ok::<nat, Seq<char>>(a));
    assert(duration_value(trimmed(parts[j])) == Ok::<nat, Seq<char>>(b));
    assert(a != b);
}

proof fn lemma_duration_bound(s: Seq<char>)
    ensures
        duration_value(s) matches Ok(n) ==> n <= u64::MAX,
{
}

/// A size is its number times the bytes of its unit: a binary thousand for each step from bytes to
/// `kb`, `mb`, `gb` and `tb`. A time is its number times the seconds of its unit.
pub proof fn law_units_multiply(n: nat, step: nat)
    requires
        n <= u64::MAX,
        step <= 4,
    ensures
        ({
            let unit = if step == 0 {
                ""@
            } else if step == 1 {
                "kb"@
            } else if step == 2 {
                "mb"@
            } else if step == 3 {
                "gb"@
            } else {
                "tb"@
            };
            let bytes = n * vstd::arithmetic::power::pow(1024, step);
            &&& bytes <= u64::MAX ==> size_value(decimal(n) + unit) == Ok::<nat, Seq<char>>(
                bytes as nat,
            )
            &&& bytes > u64::MAX ==> size_value(decimal(n) + unit) is Err
        }),
        n <= u64::MAX ==> duration_value(decimal(n) + "s"@) == Ok::<nat, Seq<char>>(n),
        n * 60 <= u64::MAX ==> duration_value(decimal(n) + "m"@) == Ok::<nat, Seq<char>>(n * 60),
        n * 3600 <= u64::MAX ==> duration_value(decimal(n) + "h"@) == Ok::<nat, Seq<char>>(n * 3600),
        n * 86400 <= u64::MAX ==> duration_value(decimal(n) + "d"@) == Ok::<nat, Seq<char>>(
            n * 86400,
        ),
{
    reveal_strlit("");
    reveal_strlit("kb");
    reveal_strlit("mb");
    reveal_strlit("gb");
    reveal_strlit("tb");
    reveal_strlit("s");
    reveal_strlit("m");
    reveal_strlit("h");
    reveal_strlit("d");
    assert("kb"@[0] == 'k' && "mb"@[0] == 'm' && "gb"@[0] == 'g' && "tb"@[0] == 't');
    assert("s"@[0] == 's' && "m"@[0] == 'm' && "h"@[0] == 'h' && "d"@[0] == 'd');
    assert("kb"@.len() == 2 && "mb"@.len() == 2 && "gb"@.len() == 2 && "tb"@.len() == 2);
    lemma_number_with_unit(n, "kb"@);
    lemma_number_with_unit(n, "mb"@);
    lemma_number_with_unit(n, "gb"@);
    lemma_number_with_unit(n, "tb"@);
    lemma_number_with_unit(n, "s"@);
    lemma_number_with_unit(n, "m"@);
    lemma_number_with_unit(n, "h"@);
    lemma_number_with_unit(n, "d"@);
    lemma_number_with_unit(n, ""@);
    assert(n * 1 == n);
    assert(unit_seconds("s"@) == Some(1nat));
    assert(vstd::arithmetic::power::pow(1024, 0) == 1) by {
        vstd::arithmetic::power::lemma_pow0(1024);
    }
    assert(vstd::arithmetic::power::pow(1024, 1) == 1024) by {
        vstd::arithmetic::power::lemma_pow1(1024);
    }
    assert(vstd::arithmetic::power::pow(1024, 2) == 1_048_576) by {
        reveal_with_fuel(vstd::arithmetic::power::pow, 3);
    }
    assert(vstd::arithmetic::power::pow(1024, 3) == 1_073_741_824) by {
        reveal_with_fuel(vstd::arithmetic::power::pow, 4);
    }
    assert(vstd::arithmetic::power::pow(1024, 4) == 1_099_511_627_776) by {
        reveal_with_fuel(vstd::arithmetic::power::pow, 5);
    }
}

proof fn lemma_number_with_unit(n: nat, unit: Seq<char>)
    requires
        n <= u64::MAX,
        unit.len() > 0 ==> !is_digit(unit[0]),
    ensures
        ({
            let s = decimal(n) + unit;
            &&& digit_count(s) == decimal(n).len()
            &&& s.take(digit_count(s)) == decimal(n)
            &&& s.skip(digit_count(s)) == unit
            &&& number_value(decimal(n), u64::MAX as nat) == Ok::<nat, NumberFault>(n)
        }),
{
    let s = decimal(n) + unit;
    let p = decimal(n).len() as int;
    lemma_decimal_digits(n);
    assert forall|k: int| 0 <= k < p implies is_digit(#[trigger] s[k]) by {
        assert(s[k] == decimal(n)[k]);
    }
    if unit.len() > 0 {
        assert(s[p] == unit[0]);
    }
    lemma_digit_count(s, p);
    assert(s.take(p) =~= decimal(n));
    assert(s.skip(p) =~= unit);
    law_written_numbers_are_read_back(n, u64::MAX as nat);
}

/// A text is divided at every comma and nowhere else: a text without one is a single part, and the
/// parts on the two sides of a comma are those of the two texts.
pub proof fn law_texts_are_divided_at_their_commas(a: Seq<char>, b: Seq<char>)
    ensures
        !a.contains(',') ==> comma_parts(a) == seq![a],
        comma_parts(a + seq![','] + b) == comma_parts(a) + comma_parts(b),
    decreases a.len() + b.len(),
{
    lemma_parts_some(a);
    lemma_parts_some(b);
    if !a.contains(',') {
        lemma_one_part(a);
    }
    let whole = a + seq![','] + b;
    if b.len() == 0 {
        assert(whole.drop_last() =~= a);
        assert(whole.last() == ',');
        assert(comma_parts(whole) =~= comma_parts(a) + comma_parts(b));
    } else {
        assert(whole.drop_last() =~= a + seq![','] + b.drop_last());
        assert(whole.last() == b.last());
        law_texts_are_divided_at_their_commas(a, b.drop_last());
        lemma_parts_some(b.drop_last());
        let front = comma_parts(whole.drop_last());
        let rest = comma_parts(b.drop_last());
        assert(front.last() == rest.last());
        assert(comma_parts(whole) =~= comma_parts(a) + comma_parts(b));
    }
}

proof fn lemma_parts_some(s: Seq<char>)
    ensures
        comma_parts(s).len() > 0,
    decreases s.len(),
{
    if s.len() > 0 {
        lemma_parts_some(s.drop_last());
    }
}

proof fn lemma_one_part(s: Seq<char>)
    requires
        !s.contains(','),
    ensures
        comma_parts(s) == seq![s],
    decreases s.len(),
{
    if s.len() > 0 {
        let front = s.drop_last();
        assert(!front.contains(',')) by {
            if front.contains(',') {
                let k = front.index_of(',');
                assert(s[k] == ',');
            }
        }
        lemma_one_part(front);
        assert(s.last() != ',') by {
            assert(s[s.len() - 1] == s.last());
        }
        assert(front.push(s.last()) =~= s);
        assert(comma_parts(s) =~= seq![s]);
    } else {
        assert(s =~= Seq::<char>::empty());
        assert(comma_parts(s) =~= seq![s]);
    }
}

/// Windows are accepted exactly if every part is a time of a minute at least and no time comes
/// twice; they are then reported in their order, with their seconds and their labels.
pub proof fn law_windows_are_refused_for_a_reason(s: Seq<char>)
    ensures
        windows_value(s) is Ok <==> forall|i: int|
            0 <= i < comma_parts(s).len() ==> window_fault(comma_parts(s), i) is None,
        windows_value(s) matches Ok(windows) ==> windows.len() == comma_parts(s).len() && forall|
            i: int,
        |
            0 <= i < windows.len() ==> (#[trigger] windows[i]).1
                == duration_value(trimmed(comma_parts(s)[i]))->Ok_0 as u64 && windows[i].0
                == window_label(duration_value(trimmed(comma_parts(s)[i]))->Ok_0),
{
    let parts = comma_parts(s);
    lemma_windows_in_order(parts, parts.len() as int);
}

proof fn lemma_windows_in_order(parts: Seq<Seq<char>>, n: int)
    ensures
        first_window_fault(parts, n) is None <==> forall|i: int|
            0 <= i < n ==> window_fault(parts, i) is None,
    decreases n,
{
    if n > 0 {
        lemma_windows_in_order(parts, n - 1);
        assert(first_window_fault(parts, n - 1) is Some ==> exists|i: int|
            0 <= i < n - 1 && window_fault(parts, i) is Some);
    }
}

/// Windows are shown whole and in order.
pub proof fn law_windows_are_shown_whole(v: Seq<(String, u64)>, i: int)
    ensures
        window_views(v).len() == v.len(),
        0 <= i < v.len() ==> window_views(v)[i] == (v[i].0@, v[i].1),
{
}

} // verus!
