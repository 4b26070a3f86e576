use vstd::prelude::*;
use vstd::string::StringExecFns;

use crate::utils::text::{decimal_text, digit_char, digit_str, push_decimal};

verus! {

pub const B: u64 = 1;

pub const KIB: u64 = 1024;

pub const MIB: u64 = 1_048_576;

pub const GIB: u64 = 1_073_741_824;

pub const TIB: u64 = 1_099_511_627_776;

/// The distance between neighbouring double-precision numbers around `n`:
/// 1 below 2^53, and twice as much with each further bit.
pub open spec fn double_step(n: nat) -> nat
    decreases n,
{
    if n < 0x20_0000_0000_0000 {
        1
    } else {
        2 * double_step(n / 2)
    }
}

/// `n / d` rounded to the nearest integer, a tie to the even neighbour.
pub open spec fn round_half_even(n: nat, d: nat) -> nat
    recommends
        d > 0,
{
    let q = n / d;
    let r = n % d;
    if 2 * r < d {
        q
    } else if 2 * r > d {
        q + 1
    } else if q % 2 == 0 {
        q
    } else {
        q + 1
    }
}

/// The double-precision number nearest to `n`, which is what a size is
/// measured as before it is written with a fraction.
pub open spec fn nearest_double(n: nat) -> nat {
    round_half_even(n, double_step(n)) * double_step(n)
}

/// Ten to the power of `k`.
pub open spec fn pow10(k: nat) -> nat
    decreases k,
{
    if k == 0 {
        1
    } else {
        10 * pow10((k - 1) as nat)
    }
}

/// Whether a distance of `quarters` quarters stays within a gap of `gap`
/// quarters, the far end of the gap counting only where `closed` is set.
pub open spec fn within(quarters: nat, gap: nat, closed: bool) -> bool {
    quarters < gap || (closed && quarters == gap)
}

/// Four times the distance from the double `x` down to the numbers that no
/// longer round to it: half a step, and a quarter of a step where the
/// doubles below `x` lie twice as close as those above.
pub open spec fn gap_below(x: nat) -> nat {
    if x / double_step(x) == 0x10_0000_0000_0000 {
        double_step(x)
    } else {
        2 * double_step(x)
    }
}

/// Four times the distance from the double `x` up to the numbers that no
/// longer round to it: half a step.
pub open spec fn gap_above(x: nat) -> nat {
    2 * double_step(x)
}

/// Whether a number halfway between `x` and a neighbouring double rounds to
/// `x`.
pub open spec fn wins_ties(x: nat) -> bool {
    (x / double_step(x)) % 2 == 0
}

/// The multiple of the largest power of ten, up to the `k`-th, that still
/// rounds to the double `x`: of the two multiples around `x` the valid one,
/// of two valid ones the nearer, of two equally near the upper.
pub open spec fn shortest_at(x: nat, k: nat) -> nat
    decreases k,
{
    let unit = pow10(k);
    let r = x % unit;
    let down = within(4 * r, gap_below(x), wins_ties(x));
    let up = within((4 * (unit - r)) as nat, gap_above(x), wins_ties(x));
    if k == 0 {
        x
    } else if down || up {
        if up && (!down || 2 * r >= unit) {
            (x - r + unit) as nat
        } else {
            (x - r) as nat
        }
    } else {
        shortest_at(x, (k - 1) as nat)
    }
}

/// The number with the fewest digits before its trailing zeros that rounds
/// to the double `x`, which is how a double without a fraction is written.
pub open spec fn shortest_decimal(x: nat) -> nat {
    shortest_at(x, 20)
}

/// `x / unit` written with two decimals, rounded to the nearest hundredth,
/// a tie to the even neighbour.
pub open spec fn two_decimals_text(x: nat, unit: nat) -> Seq<char>
    recommends
        unit > 0,
{
    let hundredths = round_half_even(x * 100, unit);
    decimal_text(hundredths / 100) + seq!['.'] + seq![
        digit_char(hundredths % 100 / 10),
        digit_char(hundredths % 10),
    ]
}

/// A size in the given binary unit, with two decimals and the unit's name.
pub open spec fn size_in_unit_text(bytes: u64, unit: u64, name: Seq<char>) -> Seq<char> {
    two_decimals_text(nearest_double(bytes as nat), unit as nat) + name
}

/// A size in the largest binary unit that it fills, up to `largest`: as a
/// whole number of bytes below a kibibyte, with two decimals above.
pub open spec fn size_up_to_text(bytes: u64, largest: u64) -> Seq<char> {
    if bytes >= TIB && largest >= TIB {
        size_in_unit_text(bytes, TIB, " TiB"@)
    } else if bytes >= GIB {
        size_in_unit_text(bytes, GIB, " GiB"@)
    } else if bytes >= MIB {
        size_in_unit_text(bytes, MIB, " MiB"@)
    } else if bytes >= KIB {
        size_in_unit_text(bytes, KIB, " KiB"@)
    } else {
        decimal_text(bytes as nat) + " B"@
    }
}

/// A size in the largest binary unit that it fills.
pub open spec fn size_auto_text(bytes: u64) -> Seq<char> {
    size_up_to_text(bytes, TIB)
}

/// A size in the unit that `lowered_unit` names in lower case, or the
/// complaint about `unit` where it names none. In bytes the size is written
/// without decimals, with no more digits than tell its double from the
/// next.
pub open spec fn size_with_unit_text(bytes: u64, lowered_unit: Seq<char>, unit: Seq<char>) -> Result<
    Seq<char>,
    Seq<char>,
> {
    if lowered_unit == "b"@ {
        Ok(decimal_text(shortest_decimal(nearest_double(bytes as nat))) + " B"@)
    } else if lowered_unit == "kib"@ {
        Ok(size_in_unit_text(bytes, KIB, " KiB"@))
    } else if lowered_unit == "mib"@ {
        Ok(size_in_unit_text(bytes, MIB, " MiB"@))
    } else if lowered_unit == "gib"@ {
        Ok(size_in_unit_text(bytes, GIB, " GiB"@))
    } else if lowered_unit == "tib"@ {
        Ok(size_in_unit_text(bytes, TIB, " TiB"@))
    } else {
        Err("Invalid unit: "@ + unit)
    }
}

/// The characters of a text, or of a complaint.
pub open spec fn text_of(outcome: Result<String, String>) -> Result<Seq<char>, Seq<char>> {
    match outcome {
        Ok(text) => Ok(text@),
        Err(complaint) => Err(complaint@),
    }
}

/// `text` in lower case, as `str::to_lowercase` of the standard library
/// gives it.
pub uninterp spec fn lowercase_of(text: Seq<char>) -> Seq<char>;

/// `str::to_lowercase`: the text with every character replaced by its
/// lower-case mapping in Unicode.
#[verifier::external_body]
fn to_lowercase(text: &str) -> (lowered: String)
    ensures
        lowered@ == lowercase_of(text@),
{
    text.to_lowercase()
}

/// The double nearest to a 64-bit number is at most 2^64.
proof fn lemma_nearest_double_bound(bytes: u64)
    ensures
        nearest_double(bytes as nat) <= 0x1_0000_0000_0000_0000,
{
    let n = bytes as nat;
    let s = double_step(n);
    lemma_step_divides(n);
    let q = n / s;
    let top = 0x1_0000_0000_0000_0000nat / s;
    assert(q < top) by (nonlinear_arith)
        requires
            q == n / s,
            top * s == 0x1_0000_0000_0000_0000,
            n < 0x1_0000_0000_0000_0000,
            s > 0,
    ;
    assert(round_half_even(n, s) <= q + 1);
    assert(round_half_even(n, s) * s <= top * s) by (nonlinear_arith)
        requires
            round_half_even(n, s) <= top,
            s > 0,
    ;
}

/// Whether `s` is a power of two up to 2^11.
spec fn is_small_power_of_two(s: nat) -> bool {
    s == 1 || s == 2 || s == 4 || s == 8 || s == 16 || s == 32 || s == 64 || s == 128 || s == 256
        || s == 512 || s == 1024 || s == 2048
}

/// The step of the doubles around a 64-bit number is a power of two that
/// divides 2^64.
proof fn lemma_step_divides(n: nat)
    requires
        n < 0x1_0000_0000_0000_0000,
    ensures
        is_small_power_of_two(double_step(n)),
        (0x1_0000_0000_0000_0000nat / double_step(n)) * double_step(n) == 0x1_0000_0000_0000_0000,
        n >= 0x20_0000_0000_0000 ==> double_step(n) * 0x10_0000_0000_0000 <= n,
        n < 0x20_0000_0000_0000 ==> double_step(n) == 1,
    decreases n,
{
    if n >= 0x20_0000_0000_0000 {
        lemma_step_divides(n / 2);
    }
    let s = double_step(n);
    assert(is_small_power_of_two(s));
    if s == 1 {
    } else if s == 2 {
    } else if s == 4 {
    } else if s == 8 {
    } else if s == 16 {
    } else if s == 32 {
    } else if s == 64 {
    } else if s == 128 {
    } else if s == 256 {
    } else if s == 512 {
    } else if s == 1024 {
    } else {
    }
}

fn step_of(n: u64) -> (step: u64)
    ensures
        step == double_step(n as nat),
        1 <= step,
        n >= 0x20_0000_0000_0000 ==> step * 0x10_0000_0000_0000 <= n,
        n < 0x20_0000_0000_0000 ==> step == 1,
    decreases n,
{
    if n < 0x20_0000_0000_0000 {
        1
    } else {
        let half = step_of(n / 2);
        2 * half
    }
}

fn rounded_quotient(n: u128, d: u128) -> (q: u128)
    requires
        d > 0,
        n < 0x1_0000_0000_0000_0000_0000_0000,
    ensures
        q == round_half_even(n as nat, d as nat),
        q <= n + 1,
{
    let q = n / d;
    let r = n % d;
    proof {
        assert(q <= n && r < d) by (nonlinear_arith)
            requires
                q == n / d,
                r == n % d,
                d > 0,
        ;
    }
    if r < d - r {
        q
    } else if r > d - r {
        q + 1
    } else if q % 2 == 0 {
        q
    } else {
        q + 1
    }
}

fn nearest(bytes: u64) -> (x: u128)
    ensures
        x == nearest_double(bytes as nat),
        x < 0x1_0000_0000_0000_0000_0000,
{
    let step = step_of(bytes);
    let q = rounded_quotient(bytes as u128, step as u128);
    assert(step <= 0x1000);
    assert(q * step <= 0x1_0000_0000_0000_0000 * 0x1000) by (nonlinear_arith)
        requires
            q <= 0x1_0000_0000_0000_0000,
            step <= 0x1000,
    ;
    q * step as u128
}

/// The powers of ten up to the twentieth do not exceed it.
proof fn lemma_pow10_bound(k: nat)
    requires
        k <= 20,
    ensures
        1 <= pow10(k) <= 100_000_000_000_000_000_000,
    decreases 20 - k,
{
    if k < 20 {
        lemma_pow10_bound(k + 1);
    } else {
        reveal_with_fuel(pow10, 21);
    }
}

fn power_of_ten(k: u32) -> (p: u128)
    requires
        k <= 20,
    ensures
        p == pow10(k as nat),
        1 <= p <= 100_000_000_000_000_000_000,
    decreases k,
{
    proof {
        lemma_pow10_bound(k as nat);
    }
    if k == 0 {
        1
    } else {
        10 * power_of_ten(k - 1)
    }
}

fn stays_within(quarters: u128, gap: u128, closed: bool) -> (yes: bool)
    ensures
        yes == within(quarters as nat, gap as nat, closed),
{
    quarters < gap || (closed && quarters == gap)
}

fn shortest_from(x: u128, step: u64, k: u32) -> (shortest: u128)
    requires
        k <= 20,
        x < 0x1_0000_0000_0000_0000_0000,
        step == double_step(x as nat),
        1 <= step <= 0x1000,
    ensures
        shortest == shortest_at(x as nat, k as nat),
    decreases k,
{
    if k == 0 {
        return x;
    }
    let unit = power_of_ten(k);
    let r = x % unit;
    assert(r <= x && r < unit) by (nonlinear_arith)
        requires
            r == x % unit,
            unit > 0,
    ;
    let mantissa = x / (step as u128);
    let below: u128 = if mantissa == 0x10_0000_0000_0000 {
        step as u128
    } else {
        2 * (step as u128)
    };
    let above: u128 = 2 * (step as u128);
    let closed = mantissa % 2 == 0;
    let down = stays_within(4 * r, below, closed);
    let up = stays_within(4 * (unit - r), above, closed);
    if down || up {
        if up && (!down || 2 * r >= unit) {
            x - r + unit
        } else {
            x - r
        }
    } else {
        shortest_from(x, step, k - 1)
    }
}

/// The step of the doubles around the double `x`.
fn step_around(x: u128) -> (step: u64)
    requires
        x <= 0x1_0000_0000_0000_0000,
    ensures
        step == double_step(x as nat),
        1 <= step <= 0x1000,
{
    if x == 0x1_0000_0000_0000_0000 {
        proof {
            reveal_with_fuel(double_step, 13);
        }
        0x1000
    } else {
        step_of(x as u64)
    }
}

/// Appends `x / unit` with two decimals to `out`.
fn push_two_decimals(out: &mut String, x: u128, unit: u64)
    requires
        unit > 0,
        x < 0x1_0000_0000_0000_0000_0000,
    ensures
        final(out)@ == old(out)@ + two_decimals_text(x as nat, unit as nat),
{
    proof {
        reveal_strlit(".");
    }
    let hundredths = rounded_quotient(x * 100, unit as u128);
    push_decimal(out, hundredths / 100);
    out.append(".");
    out.append(digit_str((hundredths % 100 / 10) as u8));
    out.append(digit_str((hundredths % 10) as u8));
    assert(final(out)@ =~= old(out)@ + two_decimals_text(x as nat, unit as nat));
}

fn size_in_unit(bytes: u64, unit: u64, name: &str) -> (text: String)
    requires
        unit > 0,
    ensures
        text@ == size_in_unit_text(bytes, unit, name@),
{
    let mut text = String::new();
    push_two_decimals(&mut text, nearest(bytes), unit);
    text.append(name);
    assert(text@ =~= size_in_unit_text(bytes, unit, name@));
    text
}

fn size_up_to(bytes: u64, largest: u64) -> (text: String)
    ensures
        text@ == size_up_to_text(bytes, largest),
{
    if bytes >= TIB && largest >= TIB {
        size_in_unit(bytes, TIB, " TiB")
    } else if bytes >= GIB {
        size_in_unit(bytes, GIB, " GiB")
    } else if bytes >= MIB {
        size_in_unit(bytes, MIB, " MiB")
    } else if bytes >= KIB {
        size_in_unit(bytes, KIB, " KiB")
    } else {
        let mut text = String::new();
        push_decimal(&mut text, bytes as u128);
        text.append(" B");
        assert(text@ =~= decimal_text(bytes as nat) + " B"@);
        text
    }
}

/// Formats a byte count into a human-readable string with an appropriate unit (B, KiB, MiB, GiB, TiB).
///
/// This function automatically selects the most suitable unit to display the file size,
/// providing a more readable output for various magnitudes of bytes.
pub fn format_size_auto(bytes: u64) -> (text: String)
    ensures
        text@ == size_auto_text(bytes),
{
    size_up_to(bytes, TIB)
}

/// Formats a byte count like [`format_size_auto`], with the gibibyte as the
/// largest unit.
pub fn format_human_readable_size(bytes: u64) -> (text: String)
    ensures
        text@ == size_up_to_text(bytes, GIB),
{
    size_up_to(bytes, GIB)
}

/// The shortest number that rounds to the double nearest to `bytes`.
fn shortest_double(bytes: u64) -> (shortest: u128)
    ensures
        shortest == shortest_decimal(nearest_double(bytes as nat)),
{
    let x = nearest(bytes);
    proof {
        lemma_nearest_double_bound(bytes);
    }
    let step = step_around(x);
    shortest_from(x, step, 20)
}

fn same_text(a: &str, b: &str) -> (same: bool)
    ensures
        same == (a@ == b@),
{
    a.to_owned() == b.to_owned()
}

/// Formats a byte count in the unit that `lowered_unit` names, which is
/// `unit` in lower case.
pub fn format_size_in(bytes: u64, lowered_unit: &str, unit: &str) -> (text: Result<String, String>)
    ensures
        text_of(text) == size_with_unit_text(bytes, lowered_unit@, unit@),
{
    if same_text(lowered_unit, "b") {
        let mut text = String::new();
        push_decimal(&mut text, shortest_double(bytes));
        text.append(" B");
        assert(text@ =~= decimal_text(shortest_decimal(nearest_double(bytes as nat))) + " B"@);
        Ok(text)
    } else if same_text(lowered_unit, "kib") {
        Ok(size_in_unit(bytes, KIB, " KiB"))
    } else if same_text(lowered_unit, "mib") {
        Ok(size_in_unit(bytes, MIB, " MiB"))
    } else if same_text(lowered_unit, "gib") {
        Ok(size_in_unit(bytes, GIB, " GiB"))
    } else if same_text(lowered_unit, "tib") {
        Ok(size_in_unit(bytes, TIB, " TiB"))
    } else {
        let mut text = String::from_str("Invalid unit: ");
        text.append(unit);
        Err(text)
    }
}

/// Formats a byte count in the given unit: `b`, `kib`, `mib`, `gib` or
/// `tib`, in any case of letters.
pub fn format_size_with_unit(bytes: u64, unit: &str) -> (text: Result<String, String>)
    ensures
        text_of(text) == size_with_unit_text(bytes, lowercase_of(unit@), unit@),
{
    let lowered = to_lowercase(unit);
    format_size_in(bytes, lowered.as_str(), unit)
}

} // verus!
