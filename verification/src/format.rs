//! Human-readable sizes and expiration countdowns for the item list.
use vstd::prelude::*;
use vstd::arithmetic::div_mod::{lemma_div_denominator, lemma_div_is_ordered, lemma_fundamental_div_mod};
use crate::text::{
    decimal, digit_char, is_digit, lemma_decimal_digits, lemma_digit_char_value, push_decimal,
};
use std::time::{Duration, SystemTime, UNIX_EPOCH};

verus! {

/// The system clock's time value, carried through opaque.
#[verifier::external_type_specification]
#[verifier::external_body]
pub struct ExSystemTime(SystemTime);

/// `SystemTime::now`: the current reading of the system clock. Nothing is stated of it: it
/// depends on the time at which it is called.
#[verifier::external_body]
fn system_time_now() -> SystemTime {
    SystemTime::now()
}

/// `SystemTime::duration_since(UNIX_EPOCH)`: the time from the Unix epoch to a clock
/// reading; `None` where the reading lies before the epoch. Nothing is stated of the value:
/// the reading it measures is opaque.
#[verifier::external_body]
fn duration_since_unix_epoch(t: &SystemTime) -> Option<Duration> {
    t.duration_since(UNIX_EPOCH).ok()
}

/// `Duration::as_millis`: the whole milliseconds of a duration. Nothing is stated of the
/// value: the duration it reads is opaque.
#[verifier::external_body]
fn duration_millis(d: &Duration) -> u128 {
    d.as_millis()
}

/// 1 KB, in bytes.
pub const KIB: u64 = 1024;

/// 1 MB, in bytes.
pub const MIB: u64 = 1048576;

/// 1 GB, in bytes.
pub const GIB: u64 = 1073741824;

/// Below this bound every integer is exactly a double (2^53).
pub const EXACT_DOUBLE_BOUND: u64 = 0x20_0000_0000_0000;

/// Two to the power `e`.
pub open spec fn pow2(e: nat) -> nat
    decreases e,
{
    if e == 0 {
        1
    } else {
        2 * pow2((e - 1) as nat)
    }
}

/// `a / b` rounded to the nearest integer, ties to the even one.
pub open spec fn round_half_even(a: nat, b: nat) -> nat {
    let q = a / b;
    let r = a % b;
    if 2 * r > b || (2 * r == b && q % 2 == 1) {
        q + 1
    } else {
        q
    }
}

/// The exponent of the gap between neighbouring doubles at `n`: 0 below 2^53, and one more
/// for each halving that `n` needs to fall below 2^53.
pub open spec fn double_exponent(n: nat) -> nat
    decreases n,
{
    if n < EXACT_DOUBLE_BOUND {
        0
    } else {
        1 + double_exponent(n / 2)
    }
}

/// The value of `n as f64`: the multiple of the gap `2^double_exponent(n)` nearest to `n`,
/// ties to an even multiple.
pub open spec fn nearest_double(n: nat) -> nat {
    let u = pow2(double_exponent(n));
    round_half_even(n, u) * u
}

/// `h / 100` printed with two decimals (what `{:.2}` prints for the value `h / 100`).
pub open spec fn fixed_two(h: nat) -> Seq<char> {
    decimal(h / 100) + seq!['.', digit_char((h / 10) % 10), digit_char(h % 10)]
}

/// `t / 10` printed with one decimal (what `{:.1}` prints for the value `t / 10`).
pub open spec fn fixed_one(t: nat) -> Seq<char> {
    decimal(t / 10) + seq!['.', digit_char(t % 10)]
}

/// The unit rank of `bytes`: with `b` the double nearest to `bytes`, 3 (GB) from 1 GB on,
/// 2 (MB) from 1 MB on, 1 (KB) from 1 KB on, 0 (B) below.
pub open spec fn size_rank(bytes: nat) -> nat {
    let b = nearest_double(bytes);
    if b >= GIB {
        3
    } else if b >= MIB {
        2
    } else if b >= KIB {
        1
    } else {
        0
    }
}

/// The name of the unit of a rank: `B`, `KB`, `MB`, `GB`.
pub open spec fn unit_name(rank: nat) -> Seq<char> {
    if rank == 3 {
        "GB"@
    } else if rank == 2 {
        "MB"@
    } else if rank == 1 {
        "KB"@
    } else {
        "B"@
    }
}

/// The number in the size label of `bytes`: with `b` the double nearest to `bytes`,
/// `b / 1 GB` with two decimals from 1 GB on, `b / 1 MB` with two decimals from 1 MB on,
/// `b / 1 KB` with one decimal from 1 KB on, and the plain count below. Each quotient is
/// rounded to the shown decimals, ties to even.
pub open spec fn size_number(bytes: nat) -> Seq<char> {
    let b = nearest_double(bytes);
    if b >= GIB {
        fixed_two(round_half_even(b * 100, GIB as nat))
    } else if b >= MIB {
        fixed_two(round_half_even(b * 100, MIB as nat))
    } else if b >= KIB {
        fixed_one(round_half_even(b * 10, KIB as nat))
    } else {
        decimal(bytes)
    }
}

/// The size label of `bytes`: its number, a space, and its unit.
pub open spec fn size_text(bytes: nat) -> Seq<char> {
    size_number(bytes) + " "@ + unit_name(size_rank(bytes))
}

/// Whole seconds from `now_ms` to a later `expiry_ms`.
pub open spec fn seconds_left(expiry_ms: nat, now_ms: nat) -> nat {
    (expiry_ms - now_ms) as nat / 1000
}

/// Whole hours from `now_ms` to a later `expiry_ms`.
pub open spec fn hours_left(expiry_ms: nat, now_ms: nat) -> nat {
    seconds_left(expiry_ms, now_ms) / 3600
}

/// Whole minutes beyond the whole hours from `now_ms` to a later `expiry_ms`.
pub open spec fn minutes_part(expiry_ms: nat, now_ms: nat) -> nat {
    (seconds_left(expiry_ms, now_ms) % 3600) / 60
}

/// The time left that the countdown shows, in whole minutes: -1 once expired.
pub open spec fn minutes_left(expiry_ms: nat, now_ms: nat) -> int {
    if expiry_ms <= now_ms {
        -1
    } else {
        (seconds_left(expiry_ms, now_ms) / 60) as int
    }
}

/// The countdown label: `Expirado` once the expiry is reached, `expira en {h}h {m}m` with at
/// least one whole hour left, `expira en {m}m` otherwise (`h` whole hours, `m` the whole
/// minutes beyond them).
pub open spec fn expiry_text(expiry_ms: nat, now_ms: nat) -> Seq<char> {
    if expiry_ms <= now_ms {
        "Expirado"@
    } else {
        let hours = hours_left(expiry_ms, now_ms);
        let minutes = minutes_part(expiry_ms, now_ms);
        if hours > 0 {
            "expira en "@ + decimal(hours) + "h "@ + decimal(minutes) + "m"@
        } else {
            "expira en "@ + decimal(minutes) + "m"@
        }
    }
}

/// Byte counts below 2^53 are exact doubles.
pub proof fn lemma_small_sizes_are_exact(n: nat)
    requires
        n < EXACT_DOUBLE_BOUND,
    ensures
        nearest_double(n) == n,
{
    assert(double_exponent(n) == 0);
    assert(pow2(0) == 1);
    assert(n / 1 == n && n % 1 == 0);
    assert(round_half_even(n, 1) == n);
}

/// Under 1 KB the size label is the plain byte count followed by ` B`.
pub proof fn lemma_byte_count_label(n: nat)
    requires
        n < KIB,
    ensures
        size_text(n) == decimal(n) + " B"@,
{
    lemma_small_sizes_are_exact(n);
    reveal_strlit(" B");
    reveal_strlit(" ");
    reveal_strlit("B");
    assert(size_text(n) =~= decimal(n) + " B"@);
}

/// Above 2^53, the significand of a count keeps at least 52 bits.
proof fn lemma_double_significand(n: nat)
    requires
        n >= EXACT_DOUBLE_BOUND,
    ensures
        pow2(double_exponent(n)) > 0,
        n / pow2(double_exponent(n)) >= EXACT_DOUBLE_BOUND / 2,
    decreases n,
{
    let h = n / 2;
    if h < EXACT_DOUBLE_BOUND {
        assert(double_exponent(h) == 0);
        assert(double_exponent(n) == 1);
        assert(pow2(1) == 2) by {
            assert(pow2(0) == 1);
        }
    } else {
        lemma_double_significand(h);
        let p = pow2(double_exponent(h));
        assert(pow2(double_exponent(n)) == 2 * p);
        lemma_div_denominator(n as int, 2, p as int);
    }
}

/// The unit rank depends on the byte count as exact thresholds at 1 KB, 1 MB and 1 GB.
pub proof fn lemma_size_rank_thresholds(n: nat)
    ensures
        size_rank(n) == (if n >= GIB {
            3nat
        } else if n >= MIB {
            2nat
        } else if n >= KIB {
            1nat
        } else {
            0nat
        }),
{
    if n < EXACT_DOUBLE_BOUND {
        lemma_small_sizes_are_exact(n);
    } else {
        lemma_double_significand(n);
        let u = pow2(double_exponent(n));
        let q = n / u;
        assert(round_half_even(n, u) >= q);
        let r = round_half_even(n, u);
        assert(r * u >= r) by (nonlinear_arith)
            requires
                u > 0,
        ;
        assert(nearest_double(n) >= GIB);
    }
}

/// A larger byte count never gets a smaller unit.
pub proof fn lemma_size_unit_monotonic(a: nat, b: nat)
    requires
        a <= b,
    ensures
        size_rank(a) <= size_rank(b),
{
    lemma_size_rank_thresholds(a);
    lemma_size_rank_thresholds(b);
}

/// The number of a size label holds only digits and a decimal point.
proof fn lemma_size_number_chars(n: nat)
    ensures
        forall|i: int|
            0 <= i < size_number(n).len() ==> (is_digit(#[trigger] size_number(n)[i])
                || size_number(n)[i] == '.'),
{
    let s = size_number(n);
    let b = nearest_double(n);
    if b >= KIB {
        let k: nat = if b >= GIB {
            round_half_even(b * 100, GIB as nat) / 100
        } else if b >= MIB {
            round_half_even(b * 100, MIB as nat) / 100
        } else {
            round_half_even(b * 10, KIB as nat) / 10
        };
        lemma_decimal_digits(k);
        lemma_digit_char_value(round_half_even(b * 100, GIB as nat) / 10 % 10);
        lemma_digit_char_value(round_half_even(b * 100, GIB as nat) % 10);
        lemma_digit_char_value(round_half_even(b * 100, MIB as nat) / 10 % 10);
        lemma_digit_char_value(round_half_even(b * 100, MIB as nat) % 10);
        lemma_digit_char_value(round_half_even(b * 10, KIB as nat) % 10);
        assert forall|i: int| 0 <= i < s.len() implies (is_digit(#[trigger] s[i]) || s[i]
            == '.') by {
            if i < decimal(k).len() {
                assert(is_digit(decimal(k)[i]));
            }
        }
    } else {
        lemma_decimal_digits(n);
    }
}

/// A size label is its number, one space and its unit; the number holds no space, so the
/// unit is the text after the last space.
pub proof fn lemma_size_label_parts(n: nat)
    ensures
        size_text(n) == size_number(n) + seq![' '] + unit_name(size_rank(n)),
        size_number(n).len() > 0,
        forall|i: int| 0 <= i < size_number(n).len() ==> #[trigger] size_number(n)[i] != ' ',
        forall|i: int|
            0 <= i < unit_name(size_rank(n)).len() ==> #[trigger] unit_name(size_rank(n))[i]
                != ' ',
{
    reveal_strlit(" ");
    reveal_strlit("GB");
    reveal_strlit("MB");
    reveal_strlit("KB");
    reveal_strlit("B");
    lemma_size_number_chars(n);
    let b = nearest_double(n);
    if b < KIB {
        lemma_decimal_digits(n);
    }
    assert forall|i: int| 0 <= i < size_number(n).len() implies #[trigger] size_number(n)[i]
        != ' ' by {
        assert(is_digit(size_number(n)[i]) || size_number(n)[i] == '.');
    }
}

/// The countdown label shows `h` whole hours and `m` more whole minutes with `60 * h + m`
/// the minutes left.
pub proof fn lemma_expiry_label_minutes(expiry_ms: nat, now_ms: nat)
    requires
        expiry_ms > now_ms,
    ensures
        60 * hours_left(expiry_ms, now_ms) + minutes_part(expiry_ms, now_ms) == minutes_left(
            expiry_ms,
            now_ms,
        ),
{
    let s = seconds_left(expiry_ms, now_ms);
    assert(60 * (s / 3600) + (s % 3600) / 60 == s / 60) by (nonlinear_arith);
}

/// The countdown counts in milliseconds: `d` ms before the expiry it shows `d / 3600000`
/// whole hours and `(d / 60000) % 60` more whole minutes (the hours left out below one
/// hour), and at or after the expiry it shows `Expirado`.
pub proof fn lemma_countdown_in_milliseconds(now_ms: nat, d: nat)
    ensures
        d >= 3_600_000 ==> expiry_text(now_ms + d, now_ms) == "expira en "@ + decimal(
            d / 3_600_000,
        ) + "h "@ + decimal((d / 60_000) % 60) + "m"@,
        0 < d < 3_600_000 ==> expiry_text(now_ms + d, now_ms) == "expira en "@ + decimal(
            d / 60_000,
        ) + "m"@,
        expiry_text(now_ms, now_ms + d) == "Expirado"@,
{
    if d > 0 {
        let secs = seconds_left(now_ms + d, now_ms);
        assert(secs == d / 1000);
        assert(secs / 3600 == d / 3_600_000) by {
            lemma_div_denominator(d as int, 1000, 3600);
        }
        assert((secs % 3600) / 60 == (d / 60_000) % 60) by (nonlinear_arith)
            requires
                secs == d / 1000,
        ;
    }
}

/// Read at the same time, a later expiry never shows less time left, and is not expired
/// where the earlier one is not.
pub proof fn lemma_later_expiry_shows_more_time(e1: nat, e2: nat, now_ms: nat)
    requires
        e1 <= e2,
    ensures
        minutes_left(e1, now_ms) <= minutes_left(e2, now_ms),
        e1 > now_ms ==> e2 > now_ms,
{
    if e1 > now_ms {
        lemma_div_is_ordered((e1 - now_ms) as int, (e2 - now_ms) as int, 1000);
        lemma_div_is_ordered(seconds_left(e1, now_ms) as int, seconds_left(e2, now_ms) as int, 60);
    }
}

/// `a / b` rounded to the nearest integer, ties to the even one.
fn round_half_even_exec(a: u128, b: u128) -> (res: u128)
    requires
        0 < b < 0x1_0000_0000_0000_0000,
        a < 0x1_0000_0000_0000_0000_0000,
    ensures
        res == round_half_even(a as nat, b as nat),
        res <= a / b + 1,
{
    let q = a / b;
    let r = a % b;
    if 2 * r > b || (2 * r == b && q % 2 == 1) {
        q + 1
    } else {
        q
    }
}

/// The value of `n as f64`, as an exact integer.
pub fn nearest_double_exec(n: u64) -> (d: u128)
    ensures
        d == nearest_double(n as nat),
        d <= n as nat + 0x1000,
{
    let mut m: u64 = n;
    let mut u: u64 = 1;
    let ghost mut e: nat = 0;
    while m >= EXACT_DOUBLE_BOUND
        invariant
            0 < u <= 0x1000,
            u == pow2(e),
            m == n as nat / u as nat,
            double_exponent(n as nat) == e + double_exponent(m as nat),
        decreases m,
    {
        proof {
            lemma_fundamental_div_mod(n as int, u as int);
            assert(u * m <= n);
            assert(u <= 0x800) by (nonlinear_arith)
                requires
                    u * m <= n,
                    m >= 0x20_0000_0000_0000,
                    n < 0x1_0000_0000_0000_0000,
                    u > 0,
            ;
            lemma_div_denominator(n as int, u as int, 2);
        }
        m = m / 2;
        u = u * 2;
        proof {
            e = e + 1;
        }
    }
    proof {
        lemma_fundamental_div_mod(n as int, u as int);
    }
    let q: u64 = m;
    let r: u64 = n - q * u;
    let k = round_half_even_exec(n as u128, u as u128);
    assert(q * u <= n);
    assert(k <= q + 1);
    assert(k * u <= n + 0x1000) by (nonlinear_arith)
        requires
            k <= q + 1,
            q * u <= n,
            0 < u <= 0x1000,
    ;
    k * (u as u128)
}

/// Appends `h / 100` with two decimals.
fn push_fixed_two(out: &mut String, h: u64)
    ensures
        final(out)@ == old(out)@ + fixed_two(h as nat),
{
    push_decimal(out, h / 100);
    out.push('.');
    push_decimal(out, (h / 10) % 10);
    push_decimal(out, h % 10);
    assert(decimal(((h / 10) % 10) as nat) =~= seq![digit_char(((h / 10) % 10) as nat)]);
    assert(decimal((h % 10) as nat) =~= seq![digit_char((h % 10) as nat)]);
    assert(final(out)@ =~= old(out)@ + fixed_two(h as nat));
}

/// Appends `t / 10` with one decimal.
fn push_fixed_one(out: &mut String, t: u64)
    ensures
        final(out)@ == old(out)@ + fixed_one(t as nat),
{
    push_decimal(out, t / 10);
    out.push('.');
    push_decimal(out, t % 10);
    assert(decimal((t % 10) as nat) =~= seq![digit_char((t % 10) as nat)]);
    assert(final(out)@ =~= old(out)@ + fixed_one(t as nat));
}

/// Formats a byte count as a human-readable size (B, KB, MB, GB), as the item list shows it.
pub fn format_size(bytes: u64) -> (res: String)
    ensures
        res@ == size_text(bytes as nat),
{
    let b = nearest_double_exec(bytes);
    let mut out = String::new();
    if b >= GIB as u128 {
        let h = round_half_even_exec(b * 100, GIB as u128);
        assert(h < 0x1_0000_0000_0000_0000);
        push_fixed_two(&mut out, h as u64);
        out.append(" ");
        out.append("GB");
    } else if b >= MIB as u128 {
        let h = round_half_even_exec(b * 100, MIB as u128);
        push_fixed_two(&mut out, h as u64);
        out.append(" ");
        out.append("MB");
    } else if b >= KIB as u128 {
        let t = round_half_even_exec(b * 10, KIB as u128);
        push_fixed_one(&mut out, t as u64);
        out.append(" ");
        out.append("KB");
    } else {
        push_decimal(&mut out, bytes);
        out.append(" ");
        out.append("B");
    }
    assert(out@ =~= size_text(bytes as nat));
    out
}

/// The countdown label for an item that expires at `expiry_ms` when the clock reads `now_ms`
/// (both in milliseconds since the Unix epoch).
pub fn format_expiry_at(expiry_ms: u64, now_ms: u64) -> (res: String)
    ensures
        res@ == expiry_text(expiry_ms as nat, now_ms as nat),
{
    if expiry_ms <= now_ms {
        return String::from_str("Expirado");
    }
    let diff_secs = (expiry_ms - now_ms) / 1000;
    let hours = diff_secs / 3600;
    let minutes = (diff_secs % 3600) / 60;
    let mut out = String::from_str("expira en ");
    if hours > 0 {
        push_decimal(&mut out, hours);
        out.append("h ");
    }
    push_decimal(&mut out, minutes);
    out.append("m");
    assert(out@ =~= expiry_text(expiry_ms as nat, now_ms as nat));
    out
}

/// The millisecond count kept from a reading of the time since the Unix epoch: its low 64
/// bits, or 0 where the clock read a time before the epoch.
pub open spec fn epoch_millis_value(since_epoch_ms: Option<u128>) -> u64 {
    match since_epoch_ms {
        Some(ms) => ms as u64,
        None => 0,
    }
}

/// The millisecond count kept from a reading of the time since the Unix epoch (see
/// `epoch_millis_value`).
pub fn epoch_millis(since_epoch_ms: Option<u128>) -> (ms: u64)
    ensures
        ms == epoch_millis_value(since_epoch_ms),
{
    match since_epoch_ms {
        Some(ms) => {
            #[verifier::truncate]
            (ms as u64)
        },
        None => 0,
    }
}

/// The current time in milliseconds since the Unix epoch, truncated to 64 bits; 0 when the
/// clock reads a time before the epoch. Any value can come back: it is the clock's.
pub fn clock_millis() -> u64 {
    let t = system_time_now();
    let since_epoch_ms = match duration_since_unix_epoch(&t) {
        Some(d) => Some(duration_millis(&d)),
        None => None,
    };
    epoch_millis(since_epoch_ms)
}

/// The countdown label for an item that expires at `expiry_ms` (milliseconds since the Unix
/// epoch), measured from the current clock reading.
pub fn format_expiry(expiry_ms: u64) -> (res: String)
    ensures
        exists|now_ms: u64| res@ == expiry_text(expiry_ms as nat, now_ms as nat),
{
    let now_ms = clock_millis();
    format_expiry_at(expiry_ms, now_ms)
}

} // verus!
