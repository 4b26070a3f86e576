use vstd::prelude::*;
use vstd::string::is_ascii;
use vstd::string::is_ascii_spec_bytes;
use vstd::string::StringExecFns;
use vstd::string::StringSliceAdditionalSpecFns;

verus! {

/// Whether `c` is one of the ten decimal digits.
pub open spec fn is_digit(c: char) -> bool {
    '0' <= c <= '9'
}

/// The value of a decimal digit.
pub open spec fn digit_value(c: char) -> nat
    recommends
        is_digit(c),
{
    (c as u32 - '0' as u32) as nat
}

/// Whether `text` is made of decimal digits only.
pub open spec fn all_digits(text: Seq<char>) -> bool {
    forall|i: int| 0 <= i < text.len() ==> is_digit(#[trigger] text[i])
}

/// The number that a sequence of decimal digits writes; leading zeros count
/// for nothing.
pub open spec fn decimal_value(digits: Seq<char>) -> nat
    decreases digits.len(),
{
    if digits.len() == 0 {
        0
    } else {
        10 * decimal_value(digits.drop_last()) + digit_value(digits.last())
    }
}

/// The number that `text` writes as an optional sign followed by at least one
/// decimal digit, with `-` accepted only where `signed` is set.
pub open spec fn signed_decimal(text: Seq<char>, signed: bool) -> Option<int> {
    if text.len() > 0 && (text[0] == '+' || (signed && text[0] == '-')) {
        let digits = text.skip(1);
        if digits.len() > 0 && all_digits(digits) {
            Some(
                if text[0] == '-' {
                    -(decimal_value(digits) as int)
                } else {
                    decimal_value(digits) as int
                },
            )
        } else {
            None
        }
    } else if text.len() > 0 && all_digits(text) {
        Some(decimal_value(text) as int)
    } else {
        None
    }
}

/// The `i64` that `text` writes in decimal, if it writes one.
pub open spec fn i64_of(text: Seq<char>) -> Option<i64> {
    match signed_decimal(text, true) {
        Some(v) => if i64::MIN <= v <= i64::MAX {
            Some(v as i64)
        } else {
            None
        },
        None => None,
    }
}

/// The `u64` that `text` writes in decimal, if it writes one.
pub open spec fn u64_of(text: Seq<char>) -> Option<u64> {
    match signed_decimal(text, false) {
        Some(v) => if v <= u64::MAX {
            Some(v as u64)
        } else {
            None
        },
        None => None,
    }
}

/// The character that writes the digit `d`.
pub open spec fn digit_char(d: nat) -> char
    recommends
        d < 10,
{
    ((d + 48) as u8) as char
}

/// A natural number written in decimal, without leading zeros.
pub open spec fn decimal_text(n: nat) -> Seq<char>
    decreases n,
{
    if n < 10 {
        seq![digit_char(n)]
    } else {
        decimal_text(n / 10).push(digit_char(n % 10))
    }
}

/// An integer written in decimal, with `-` before a negative one.
pub open spec fn signed_decimal_text(n: int) -> Seq<char> {
    if n < 0 {
        seq!['-'] + decimal_text((-n) as nat)
    } else {
        decimal_text(n as nat)
    }
}

/// An ASCII letter in upper case; any other character unchanged.
pub open spec fn ascii_upper(c: char) -> char {
    if 'a' <= c <= 'z' {
        ((c as u32 - 32) as u8) as char
    } else {
        c
    }
}

/// Whether two texts are equal up to the case of their ASCII letters.
pub open spec fn same_ignoring_ascii_case(a: Seq<char>, b: Seq<char>) -> bool {
    a.len() == b.len() && forall|i: int|
        0 <= i < a.len() ==> ascii_upper(#[trigger] a[i]) == ascii_upper(b[i])
}

/// A longer run of digits writes a number at least as large as any of its
/// prefixes.
pub proof fn lemma_decimal_value_grows(digits: Seq<char>, k: int)
    requires
        0 <= k <= digits.len(),
    ensures
        decimal_value(digits.take(k)) <= decimal_value(digits),
    decreases digits.len(),
{
    if k < digits.len() {
        lemma_decimal_value_grows(digits.drop_last(), k);
        assert(digits.drop_last().take(k) =~= digits.take(k));
    } else {
        assert(digits.take(k) =~= digits);
    }
}

/// The bytes of an ASCII text, one for each character.
pub(crate) fn ascii_bytes(text: &str) -> (bytes: &[u8])
    requires
        is_ascii(text),
    ensures
        bytes@.len() == text@.len(),
        forall|i: int| 0 <= i < text@.len() ==> #[trigger] bytes@[i] == text@[i] as u8,
{
    broadcast use is_ascii_spec_bytes;

    text.as_bytes()
}

fn upper_byte(b: u8) -> (u: u8)
    requires
        b < 128,
    ensures
        u as char == ascii_upper(b as char),
{
    if 97 <= b && b <= 122 {
        b - 32
    } else {
        b
    }
}

/// Compares `text` with an ASCII keyword, ignoring the case of letters.
pub(crate) fn is_keyword(text: &str, keyword: &str) -> (same: bool)
    requires
        is_ascii(keyword),
    ensures
        same == same_ignoring_ascii_case(text@, keyword@),
{
    if !text.is_ascii() {
        proof {
            if same_ignoring_ascii_case(text@, keyword@) {
                let i = choose|i: int|
                    0 <= i < text@.len() && !('\0' <= #[trigger] text@[i] <= '\u{7f}');
                assert(ascii_upper(text@[i]) == ascii_upper(keyword@[i]));
            }
        }
        return false;
    }
    let a = ascii_bytes(text);
    let b = ascii_bytes(keyword);
    if a.len() != b.len() {
        return false;
    }
    let mut i: usize = 0;
    while i < a.len()
        invariant
            i <= a.len(),
            a@.len() == text@.len(),
            b@.len() == keyword@.len(),
            a@.len() == b@.len(),
            is_ascii(text),
            is_ascii(keyword),
            forall|k: int| 0 <= k < text@.len() ==> #[trigger] a@[k] == text@[k] as u8,
            forall|k: int| 0 <= k < keyword@.len() ==> #[trigger] b@[k] == keyword@[k] as u8,
            forall|k: int| 0 <= k < i ==> ascii_upper(#[trigger] text@[k]) == ascii_upper(keyword@[k]),
        decreases a.len() - i,
    {
        assert(a@[i as int] == text@[i as int] as u8);
        assert(b@[i as int] == keyword@[i as int] as u8);
        assert('\0' <= text@[i as int] <= '\u{7f}');
        assert('\0' <= keyword@[i as int] <= '\u{7f}');
        if upper_byte(a[i]) != upper_byte(b[i]) {
            assert(ascii_upper(text@[i as int]) != ascii_upper(keyword@[i as int]));
            return false;
        }
        i += 1;
    }
    true
}

/// Reads the bytes from `start` on as decimal digits of a number that does
/// not exceed `limit`.
fn read_magnitude(bytes: &[u8], Ghost(text): Ghost<Seq<char>>, start: usize, limit: u64) -> (value:
    Option<u64>)
    requires
        start <= bytes.len(),
        bytes@.len() == text.len(),
        forall|i: int| 0 <= i < text.len() ==> #[trigger] bytes@[i] == text[i] as u8,
        forall|i: int| 0 <= i < text.len() ==> '\0' <= #[trigger] text[i] <= '\u{7f}',
    ensures
        value is Some <==> text.skip(start as int).len() > 0 && all_digits(text.skip(start as int))
            && decimal_value(text.skip(start as int)) <= limit,
        value is Some ==> value->0 == decimal_value(text.skip(start as int)),
{
    let ghost digits = text.skip(start as int);
    if start == bytes.len() {
        return None;
    }
    let mut value: u64 = 0;
    let mut i: usize = start;
    assert(digits.take(0).len() == 0);
    while i < bytes.len()
        invariant
            start <= i <= bytes.len(),
            bytes@.len() == text.len(),
            digits == text.skip(start as int),
            forall|k: int| 0 <= k < text.len() ==> #[trigger] bytes@[k] == text[k] as u8,
            forall|k: int| 0 <= k < text.len() ==> '\0' <= #[trigger] text[k] <= '\u{7f}',
            all_digits(digits.take(i - start)),
            value == decimal_value(digits.take(i - start)),
            value <= limit,
        decreases bytes.len() - i,
    {
        let b = bytes[i];
        let ghost c = digits[i - start];
        proof {
            assert(bytes@[i as int] == text[i as int] as u8);
            assert(c == text[i as int]);
            assert(digits.take(i - start + 1).drop_last() =~= digits.take(i - start));
            assert(digits.take(i - start + 1).last() == c);
        }
        if b < 48 || b > 57 {
            assert(!is_digit(c));
            return None;
        }
        let next: u128 = value as u128 * 10 + (b - 48) as u128;
        assert(next == decimal_value(digits.take(i - start + 1)));
        if next > limit as u128 {
            proof {
                lemma_decimal_value_grows(digits, i - start + 1);
            }
            return None;
        }
        assert forall|k: int| 0 <= k < i - start + 1 implies is_digit(
            #[trigger] digits.take(i - start + 1)[k],
        ) by {
            if k < i - start {
                assert(digits.take(i - start + 1)[k] == digits.take(i - start)[k]);
            }
        }
        value = next as u64;
        i += 1;
    }
    assert(digits.take(i - start) =~= digits);
    Some(value)
}

/// A text with a character beyond ASCII writes no number.
proof fn lemma_number_is_ascii(text: Seq<char>, signed: bool)
    requires
        signed_decimal(text, signed) is Some,
    ensures
        forall|i: int| 0 <= i < text.len() ==> '\0' <= #[trigger] text[i] <= '\u{7f}',
{
    assert forall|i: int| 0 <= i < text.len() implies '\0' <= #[trigger] text[i] <= '\u{7f}' by {
        if text[0] == '+' || (signed && text[0] == '-') {
            if i > 0 {
                assert(text.skip(1)[i - 1] == text[i]);
                assert(is_digit(text.skip(1)[i - 1]));
            }
        } else {
            assert(is_digit(text[i]));
        }
    }
}

/// Reads a decimal `i64`: an optional sign, then digits.
pub fn parse_i64(text: &str) -> (value: Option<i64>)
    ensures
        value == i64_of(text@),
{
    if !text.is_ascii() {
        proof {
            if signed_decimal(text@, true) is Some {
                lemma_number_is_ascii(text@, true);
            }
        }
        return None;
    }
    let bytes = ascii_bytes(text);
    if bytes.len() == 0 {
        return None;
    }
    assert(bytes@[0] == text@[0] as u8);
    assert(text@.skip(0) =~= text@);
    if bytes[0] == 45 {
        assert(text@[0] == '-');
        match read_magnitude(bytes, Ghost(text@), 1, 0x8000_0000_0000_0000) {
            Some(m) => if m == 0x8000_0000_0000_0000 {
                Some(i64::MIN)
            } else {
                Some(-(m as i64))
            },
            None => None,
        }
    } else if bytes[0] == 43 {
        assert(text@[0] == '+');
        match read_magnitude(bytes, Ghost(text@), 1, 0x7fff_ffff_ffff_ffff) {
            Some(m) => Some(m as i64),
            None => None,
        }
    } else {
        assert(text@[0] != '+' && text@[0] != '-');
        match read_magnitude(bytes, Ghost(text@), 0, 0x7fff_ffff_ffff_ffff) {
            Some(m) => Some(m as i64),
            None => None,
        }
    }
}

/// Reads a decimal `u64`: an optional `+`, then digits.
pub fn parse_u64(text: &str) -> (value: Option<u64>)
    ensures
        value == u64_of(text@),
{
    if !text.is_ascii() {
        proof {
            if signed_decimal(text@, false) is Some {
                lemma_number_is_ascii(text@, false);
            }
        }
        return None;
    }
    let bytes = ascii_bytes(text);
    if bytes.len() == 0 {
        return None;
    }
    assert(bytes@[0] == text@[0] as u8);
    assert(text@.skip(0) =~= text@);
    if bytes[0] == 43 {
        assert(text@[0] == '+');
        read_magnitude(bytes, Ghost(text@), 1, u64::MAX)
    } else {
        assert(text@[0] != '+');
        read_magnitude(bytes, Ghost(text@), 0, u64::MAX)
    }
}

/// The text of one decimal digit.
pub(crate) fn digit_str(d: u8) -> (text: &'static str)
    requires
        d < 10,
    ensures
        text@ == seq![digit_char(d as nat)],
{
    proof {
        reveal_strlit("0");
        reveal_strlit("1");
        reveal_strlit("2");
        reveal_strlit("3");
        reveal_strlit("4");
        reveal_strlit("5");
        reveal_strlit("6");
        reveal_strlit("7");
        reveal_strlit("8");
        reveal_strlit("9");
    }
    let text = if d == 0 {
        "0"
    } else if d == 1 {
        "1"
    } else if d == 2 {
        "2"
    } else if d == 3 {
        "3"
    } else if d == 4 {
        "4"
    } else if d == 5 {
        "5"
    } else if d == 6 {
        "6"
    } else if d == 7 {
        "7"
    } else if d == 8 {
        "8"
    } else {
        "9"
    };
    assert(text@ =~= seq![digit_char(d as nat)]);
    text
}

/// Appends `n` in decimal to `out`.
pub fn push_decimal(out: &mut String, n: u128)
    ensures
        final(out)@ == old(out)@ + decimal_text(n as nat),
    decreases n,
{
    if n >= 10 {
        push_decimal(out, n / 10);
    }
    out.append(digit_str((n % 10) as u8));
    assert(final(out)@ =~= old(out)@ + decimal_text(n as nat));
}

/// Appends `n` in decimal to `out`, with `-` before a negative number.
pub fn push_signed_decimal(out: &mut String, n: i64)
    ensures
        final(out)@ == old(out)@ + signed_decimal_text(n as int),
{
    if n < 0 {
        proof {
            reveal_strlit("-");
        }
        out.append("-");
        let magnitude: u128 = if n == i64::MIN {
            0x8000_0000_0000_0000
        } else {
            (-n) as u128
        };
        push_decimal(out, magnitude);
        assert(final(out)@ =~= old(out)@ + signed_decimal_text(n as int));
    } else {
        push_decimal(out, n as u128);
    }
}

} // verus!
