//! Numbers as they are shown: sizes, counts and shares.
//!
//! Quotients are held with fifty-three significant bits and shown with a fixed number of
//! digits. Both steps take the nearest value, and of two equally near ones the even one.
use vstd::arithmetic::power2::*;
use vstd::prelude::*;

use crate::text;

verus! {

/// The least whole number of fifty-three bits.
pub const LEAST: u128 = 4503599627370496;

/// The least whole number of more than fifty-three bits.
pub const BEYOND: u128 = 9007199254740992;

/// The whole number nearest to a quotient, and of two equally near ones the even one.
pub open spec fn nearest(a: nat, b: nat) -> nat
    recommends
        b > 0,
{
    let q = a / b;
    let r = a % b;
    if 2 * r < b {
        q
    } else if 2 * r > b {
        q + 1
    } else {
        q + q % 2
    }
}

/// A quotient of at least `BEYOND`, as held.
pub open spec fn lowered(a: nat, b: nat) -> nat
    decreases a - b,
{
    if b == 0 || a < BEYOND * b {
        nearest(a, b)
    } else {
        2 * lowered(a, 2 * b)
    }
}

/// A whole number, as held.
pub open spec fn kept(n: nat) -> nat {
    lowered(n, 1)
}

/// A quotient under `BEYOND`, as held: a whole number over a power of two.
pub open spec fn raised(a: nat, b: nat) -> (nat, nat)
    decreases BEYOND * b - a,
{
    if a == 0 || a >= LEAST * b {
        (nearest(a, b), 1)
    } else {
        let v = raised(2 * a, b);
        (v.0, 2 * v.1)
    }
}

/// A quotient, as held: a whole number over a power of two.
pub open spec fn held(a: nat, b: nat) -> (nat, nat) {
    if a >= BEYOND * b {
        (lowered(a, b), 1)
    } else {
        raised(a, b)
    }
}

/// The quotient of two numbers that are held themselves.
pub open spec fn quotient(a: nat, b: nat) -> (nat, nat) {
    held(kept(a), kept(b))
}

/// A held number times a hundred.
pub open spec fn hundredfold(v: (nat, nat)) -> (nat, nat) {
    (kept(100 * v.0), v.1)
}

/// A held number with one digit behind the point.
pub open spec fn tenths_of(v: (nat, nat)) -> Seq<char> {
    let t = nearest(10 * v.0, v.1);
    text::decimal_of(t / 10) + "."@ + text::decimal_of(t % 10)
}

/// A held number with no digit behind the point.
pub open spec fn whole_of(v: (nat, nat)) -> Seq<char> {
    text::decimal_of(nearest(v.0, v.1))
}

/// What is shown differs from the quotient by at most one half.
pub proof fn nearest_is_close(a: nat, b: nat)
    requires
        b > 0,
    ensures
        2 * (nearest(a, b) * b - a) <= b,
        2 * (a - nearest(a, b) * b) <= b,
{
    let q = a / b;
    let r = a % b;
    assert(a == q * b + r && r < b) by (nonlinear_arith)
        requires
            b > 0,
            q == a / b,
            r == a % b,
    ;
    assert((q + 1) * b == q * b + b) by (nonlinear_arith);
}

/// A quotient of whole numbers is shown as it is.
pub proof fn whole_quotients_are_kept(n: nat, b: nat)
    requires
        b > 0,
    ensures
        nearest(n * b, b) == n,
{
    assert((n * b) / b == n && (n * b) % b == 0) by (nonlinear_arith)
        requires
            b > 0,
    ;
}

proof fn lemma_nearest_under(a: nat, b: nat, most: nat)
    requires
        b > 0,
        a < most * b,
    ensures
        nearest(a, b) <= most,
{
    let q = a / b;
    assert(q < most) by (nonlinear_arith)
        requires
            b > 0,
            q == a / b,
            a < most * b,
    ;
}

proof fn lemma_nearest_over(a: nat, b: nat)
    requires
        b > 0,
        a >= b,
    ensures
        nearest(a, b) >= 1,
        nearest(a, b) * b <= 2 * a,
{
    nearest_is_close(a, b);
    let q = a / b;
    assert(q >= 1) by (nonlinear_arith)
        requires
            b > 0,
            q == a / b,
            a >= b,
    ;
}

fn nearest_whole(a: u128, b: u128) -> (out: u128)
    requires
        b > 0,
    ensures
        out == nearest(a as nat, b as nat),
{
    let q: u128 = a / b;
    let r: u128 = a % b;
    proof {
        assert(r < b);
        assert(b >= 2 ==> q <= a / 2) by (nonlinear_arith)
            requires
                q == a / b,
                b > 0,
        ;
    }
    if r < b - r {
        q
    } else if r > b - r {
        q + 1
    } else {
        q + q % 2
    }
}

fn lower(a: u128, b: u128) -> (out: u128)
    requires
        0 < b <= a,
        a <= 0x1_0000_0000_0000_0000_0000,
    ensures
        out == lowered(a as nat, b as nat),
        out >= 1,
        out * b <= 2 * a,
    decreases a - b,
{
    if b >= 0x1000_0000 || a < BEYOND * b {
        proof {
            if b >= 0x1000_0000 {
                assert(a < BEYOND * b) by (nonlinear_arith)
                    requires
                        b >= 0x1000_0000,
                        a <= 0x1_0000_0000_0000_0000_0000,
                ;
            }
            lemma_nearest_over(a as nat, b as nat);
        }
        nearest_whole(a, b)
    } else {
        let half: u128 = lower(a, 2 * b);
        proof {
            assert(half <= half * (2 * b)) by (nonlinear_arith)
                requires
                    b >= 1,
            ;
            assert((2 * half) * b == half * (2 * b)) by (nonlinear_arith);
        }
        2 * half
    }
}

fn keep(n: u128) -> (out: u128)
    requires
        n <= 0x1_0000_0000_0000_0000_0000,
    ensures
        out == kept(n as nat),
        out <= 2 * n,
        n > 0 ==> out > 0,
{
    if n == 0 {
        0
    } else {
        let out: u128 = lower(n, 1);
        proof {
            assert(out * 1 == out);
        }
        out
    }
}

fn raise(a: u128, b: u128) -> (out: (u128, u128))
    requires
        0 < b <= 0x2_0000_0000_0000_0000,
        a < BEYOND * b,
    ensures
        out.0 == raised(a as nat, b as nat).0,
        out.1 == raised(a as nat, b as nat).1,
        out.0 <= BEYOND,
        out.1 > 0,
        out.1 * a <= BEYOND * b,
        a == 0 ==> out.1 == 1,
    decreases BEYOND * b - a,
{
    assert(BEYOND * b <= 0x40_0000_0000_0000_0000_0000_0000_0000) by (nonlinear_arith)
        requires
            b <= 0x2_0000_0000_0000_0000,
    ;
    assert(2 * (LEAST * b) == BEYOND * b) by (nonlinear_arith);
    if a == 0 || a >= LEAST * b {
        proof {
            lemma_nearest_under(a as nat, b as nat, BEYOND as nat);
        }
        (nearest_whole(a, b), 1)
    } else {
        let v: (u128, u128) = raise(2 * a, b);
        proof {
            assert(2 * v.1 <= v.1 * (2 * a)) by (nonlinear_arith)
                requires
                    a >= 1,
            ;
            assert((2 * v.1) * a == v.1 * (2 * a)) by (nonlinear_arith);
        }
        (v.0, 2 * v.1)
    }
}

/// The quotient of two numbers.
fn divide(a: u64, b: u64) -> (out: (u128, u128))
    requires
        b > 0,
    ensures
        out.0 == quotient(a as nat, b as nat).0,
        out.1 == quotient(a as nat, b as nat).1,
        out.0 <= 0x8_0000_0000_0000_0000,
        out.1 > 0,
{
    let x: u128 = keep(a as u128);
    let y: u128 = keep(b as u128);
    divided(x, y)
}

fn divided(x: u128, y: u128) -> (out: (u128, u128))
    requires
        x <= 0x200_0000_0000_0000_0000,
        0 < y <= 0x2_0000_0000_0000_0000,
    ensures
        out.0 == held(x as nat, y as nat).0,
        out.1 == held(x as nat, y as nat).1,
        out.0 <= BEYOND || out.0 <= 2 * x,
        out.1 > 0,
{
    assert(BEYOND * y <= 0x40_0000_0000_0000_0000_0000_0000_0000) by (nonlinear_arith)
        requires
            y <= 0x2_0000_0000_0000_0000,
    ;
    assert(y <= BEYOND * y) by (nonlinear_arith)
        requires
            y >= 0,
    ;
    if x >= BEYOND * y {
        let n: u128 = lower(x, y);
        proof {
            assert(n <= n * y) by (nonlinear_arith)
                requires
                    y >= 1,
            ;
        }
        (n, 1)
    } else {
        raise(x, y)
    }
}

/// A number in decimal.
fn decimal(n: u128) -> (out: String)
    ensures
        out@ == text::decimal_of(n as nat),
    decreases n,
{
    if n <= u64::MAX as u128 {
        text::decimal(n as u64)
    } else {
        let mut out: String = decimal(n / 10);
        out.push((48u8 + (n % 10) as u8) as char);
        out
    }
}

fn tenths(v: (u128, u128)) -> (out: String)
    requires
        v.0 <= 0x1000_0000_0000_0000_0000,
        v.1 > 0,
    ensures
        out@ == tenths_of((v.0 as nat, v.1 as nat)),
{
    let t: u128 = nearest_whole(10 * v.0, v.1);
    let mut out: String = decimal(t / 10);
    out.append(".");
    out.append(decimal(t % 10).as_str());
    out
}

/// What is shown of a number of bytes.
pub open spec fn bytes_text(n: nat) -> Seq<char> {
    if n >= 0x4000_0000 {
        tenths_of(quotient(n, 0x4000_0000)) + " GiB"@
    } else if n >= 0x10_0000 {
        tenths_of(quotient(n, 0x10_0000)) + " MiB"@
    } else {
        tenths_of(quotient(n, 1024)) + " KiB"@
    }
}

/// A number of bytes in the largest binary unit that it fills, kibibytes at least.
pub fn format_bytes(bytes: u64) -> (out: String)
    ensures
        out@ == bytes_text(bytes as nat),
{
    if bytes >= 0x4000_0000 {
        let mut out: String = tenths(divide(bytes, 0x4000_0000));
        out.append(" GiB");
        out
    } else if bytes >= 0x10_0000 {
        let mut out: String = tenths(divide(bytes, 0x10_0000));
        out.append(" MiB");
        out
    } else {
        let mut out: String = tenths(divide(bytes, 1024));
        out.append(" KiB");
        out
    }
}

/// A number of bytes in gibibytes.
pub fn format_gib(bytes: u64) -> (out: String)
    ensures
        out@ == tenths_of(quotient(bytes as nat, 0x4000_0000)),
{
    tenths(divide(bytes, 0x4000_0000))
}

/// What is shown of a count.
pub open spec fn count_text(n: nat) -> Seq<char> {
    if n >= 1_000_000 {
        tenths_of(quotient(n, 1_000_000)) + "M"@
    } else if n >= 1_000 {
        tenths_of(quotient(n, 1_000)) + "K"@
    } else {
        text::decimal_of(n)
    }
}

/// A count, in thousands or millions where it reaches them.
pub fn format_count(value: u64) -> (out: String)
    ensures
        out@ == count_text(value as nat),
{
    if value >= 1_000_000 {
        let mut out: String = tenths(divide(value, 1_000_000));
        out.append("M");
        out
    } else if value >= 1_000 {
        let mut out: String = tenths(divide(value, 1_000));
        out.append("K");
        out
    } else {
        text::decimal(value)
    }
}

/// What is shown of an estimate against what there is.
pub open spec fn estimate_text(estimate: Option<u64>, capacity: u64) -> Seq<char> {
    match estimate {
        None => "Estimating…"@,
        Some(n) => {
            let used = whole_of(quotient(n as nat, 0x10_0000));
            if capacity > 0 {
                let all = whole_of(quotient(capacity as nat, 0x10_0000));
                let share = held(kept(100 * kept(n as nat)), kept(capacity as nat));
                used + " MiB / "@ + all + " MiB - "@ + tenths_of(share) + "%"@
            } else {
                used + " MiB - --"@
            }
        },
    }
}

fn mebibytes(bytes: u64) -> (out: String)
    ensures
        out@ == whole_of(quotient(bytes as nat, 0x10_0000)),
{
    let v: (u128, u128) = divide(bytes, 0x10_0000);
    decimal(nearest_whole(v.0, v.1))
}

/// An estimate in mebibytes, with what there is and the share of it where that is known.
pub fn estimate_card_label(estimate: Option<u64>, capacity: u64) -> (out: String)
    ensures
        out@ == estimate_text(estimate, capacity),
{
    match estimate {
        None => "Estimating…".to_owned(),
        Some(n) => {
            let mut out: String = mebibytes(n);
            if capacity > 0 {
                out.append(" MiB / ");
                out.append(mebibytes(capacity).as_str());
                out.append(" MiB - ");
                let x: u128 = keep(100 * keep(n as u128));
                let share: (u128, u128) = divided(x, keep(capacity as u128));
                out.append(tenths(share).as_str());
                out.append("%");
            } else {
                out.append(" MiB - --");
            }
            out
        },
    }
}

/// What is shown of memory in use against what there is.
pub open spec fn residence_text(used: u64, total: u64) -> Seq<char> {
    if total > 0 {
        tenths_of(quotient(used as nat, 0x4000_0000)) + "/"@ + tenths_of(
            quotient(total as nat, 0x4000_0000),
        ) + "G - "@ + whole_of(hundredfold(quotient(used as nat, total as nat))) + "%"@
    } else {
        "—"@
    }
}

/// Memory in use in gibibytes, with what there is and the share of it.
pub fn residence_label(used: u64, total: u64) -> (out: String)
    ensures
        out@ == residence_text(used, total),
{
    if total > 0 {
        let mut out: String = format_gib(used);
        out.append("/");
        out.append(format_gib(total).as_str());
        out.append("G - ");
        let v: (u128, u128) = divide(used, total);
        let share: u128 = nearest_whole(keep(100 * v.0), v.1);
        out.append(decimal(share).as_str());
        out.append("%");
        out
    } else {
        "—".to_owned()
    }
}

/// A held number with two digits behind the point.
pub open spec fn hundredths_of(v: (nat, nat)) -> Seq<char> {
    let t = nearest(100 * v.0, v.1);
    text::decimal_of(t / 100) + "."@ + text::decimal_of(t / 10 % 10) + text::decimal_of(t % 10)
}

/// Some milliseconds in seconds.
pub fn format_seconds(millis: u64) -> (out: String)
    ensures
        out@ == hundredths_of(quotient(millis as nat, 1000)),
{
    let v: (u128, u128) = divide(millis, 1000);
    let t: u128 = nearest_whole(100 * v.0, v.1);
    let mut out: String = decimal(t / 100);
    out.append(".");
    out.append(decimal(t / 10 % 10).as_str());
    out.append(decimal(t % 10).as_str());
    out
}

/// What is shown of a part in hundredths of the whole.
pub open spec fn percent_text(part: u64, whole: u64) -> Seq<char> {
    whole_of(held(kept(100 * kept(part as nat)), kept(whole as nat)))
}

/// A part in hundredths of the whole.
pub fn format_percent(part: u64, whole: u64) -> (out: String)
    requires
        whole > 0,
    ensures
        out@ == percent_text(part, whole),
{
    let x: u128 = keep(100 * keep(part as u128));
    let v: (u128, u128) = divided(x, keep(whole as u128));
    decimal(nearest_whole(v.0, v.1))
}

/// What is shown of how far something has come, in hundredths.
pub open spec fn progress_text(done: u64, total: u64) -> Seq<char> {
    if total > 0 {
        whole_of(hundredfold(quotient(done as nat, total as nat)))
    } else {
        "0"@
    }
}

/// How far something has come, in hundredths.
pub fn format_progress(done: u64, total: u64) -> (out: String)
    ensures
        out@ == progress_text(done, total),
{
    if total > 0 {
        let v: (u128, u128) = divide(done, total);
        decimal(nearest_whole(keep(100 * v.0), v.1))
    } else {
        "0".to_owned()
    }
}

/// A whole number and a held one together, as held.
pub open spec fn together(n: nat, v: (nat, nat)) -> (nat, nat) {
    if n == 0 {
        v
    } else {
        held(n * v.1 + v.0, v.1)
    }
}

/// Some nanoseconds in seconds, as held.
pub open spec fn seconds_in(nanos: nat) -> (nat, nat) {
    together(nanos / 1_000_000_000, quotient(nanos % 1_000_000_000, 1_000_000_000))
}

/// How many times `n` a held number is, as held and then without its fraction.
pub open spec fn times_in(v: (nat, nat), n: nat) -> nat {
    let q = held(v.0, n * v.1);
    q.0 / q.1
}

/// A number under a hundred in two digits.
pub open spec fn two_digits(n: nat) -> Seq<char> {
    if n < 10 {
        "0"@ + text::decimal_of(n)
    } else {
        text::decimal_of(n)
    }
}

/// What is shown of a time: hours where there are any, minutes, and seconds with one digit
/// behind the point.
pub open spec fn elapsed_of(nanos: nat) -> Seq<char> {
    let v = seconds_in(nanos);
    let hours = times_in(v, 3600);
    let t = nearest(10 * (v.0 % (60 * v.1)), v.1);
    (if hours > 0 {
        text::decimal_of(hours) + ":"@
    } else {
        ""@
    }) + two_digits(times_in(v, 60) % 60) + ":"@ + two_digits(t / 10) + "."@ + text::decimal_of(
        t % 10,
    )
}

/// What `raised` gives is a quotient scaled by a power of two until it has fifty-three bits.
proof fn lemma_raised(a: nat, b: nat)
    requires
        b > 0,
        0 < a < BEYOND * b,
    ensures
        raised(a, b).1 > 0,
        raised(a, b).1 * a >= LEAST * b,
        raised(a, b).0 == nearest(raised(a, b).1 * a, b),
    decreases BEYOND * b - a,
{
    assert(2 * (LEAST * b) == BEYOND * b) by (nonlinear_arith);
    if a < LEAST * b {
        lemma_raised(2 * a, b);
        let v = raised(2 * a, b);
        assert(v.1 * (2 * a) == (2 * v.1) * a) by (nonlinear_arith);
    } else {
        assert(1 * a == a);
    }
}

/// A quotient of less than one half has nothing before the point.
proof fn lemma_small(a: nat, b: nat)
    requires
        b > 0,
        2 * a < b,
    ensures
        raised(a, b).1 > 0,
        raised(a, b).0 / raised(a, b).1 == 0,
{
    assert(b <= BEYOND * b) by (nonlinear_arith);
    if a > 0 {
        lemma_raised(a, b);
        let x = raised(a, b).0;
        let y = raised(a, b).1;
        assert(b <= LEAST * b) by (nonlinear_arith);
        lemma_nearest_over(y * a, b);
        assert(x < y) by (nonlinear_arith)
            requires
                x * b <= 2 * (y * a),
                2 * a < b,
                b > 0,
                y > 0,
        ;
        assert(x / y == 0) by (nonlinear_arith)
            requires
                x < y,
        ;
    } else {
        assert(0nat / b == 0 && 0nat % b == 0) by (nonlinear_arith)
            requires
                b > 0,
        ;
    }
}

/// A part of a second stays under one.
proof fn lemma_part(a: nat)
    requires
        0 < a < 1_000_000_000,
    ensures
        raised(a, 1_000_000_000).0 < raised(a, 1_000_000_000).1,
{
    let b: nat = 1_000_000_000;
    lemma_raised(a, b);
    let x = raised(a, b).0;
    let y = raised(a, b).1;
    nearest_is_close(y * a, b);
    assert(y > b) by (nonlinear_arith)
        requires
            y * a >= LEAST * b,
            a < b,
            b == 1_000_000_000,
            LEAST == 4503599627370496,
    ;
    assert(x < y) by (nonlinear_arith)
        requires
            2 * (x * b - y * a) <= b,
            a + 1 <= b,
            y > b,
            b > 0,
    ;
}

/// A whole number beside a quotient does not change what is nearest, where it is even.
proof fn lemma_nearest_beside(n: nat, a: nat, b: nat)
    requires
        b > 0,
        n % 2 == 0,
    ensures
        nearest(n * b + a, b) == n + nearest(a, b),
{
    assert((n * b + a) / b == n + a / b && (n * b + a) % b == a % b) by {
        vstd::arithmetic::div_mod::lemma_hoist_over_denominator(a as int, n as int, b);
        vstd::arithmetic::div_mod::lemma_mod_multiples_vanish(n as int, a as int, b as int);
        assert(n * b == b * n) by (nonlinear_arith);
    }
}

/// No multiple of a smaller power of two lies just below a power of two.
proof fn lemma_gap(n: nat, j: nat)
    requires
        n > 0,
        n * pow2(j) < LEAST,
    ensures
        (n + 1) * pow2(j) <= LEAST,
{
    lemma2_to64();
    lemma2_to64_rest();
    assert(LEAST == pow2(52));
    lemma_pow2_pos(j);
    assert(pow2(j) <= n * pow2(j)) by (nonlinear_arith)
        requires
            n >= 1,
    ;
    if j >= 52 {
        if j > 52 {
            lemma_pow2_strictly_increases(52, j);
        }
    } else {
        lemma_pow2_adds(j, (52 - j) as nat);
        let rest = pow2((52 - j) as nat);
        assert(n < rest) by (nonlinear_arith)
            requires
                n * pow2(j) < pow2(j) * rest,
                pow2(j) > 0,
        ;
        assert((n + 1) * pow2(j) <= pow2(j) * rest) by (nonlinear_arith)
            requires
                n + 1 <= rest,
        ;
    }
}

/// A whole number and a part of one together.
fn join(n: u128, a: u128, b: u128) -> (out: (u128, u128))
    requires
        0 < n <= 0x1_0000_0000_0000,
        a < b,
        a <= BEYOND,
    ensures
        out.0 == held(n as nat * b as nat + a as nat, b as nat).0,
        out.1 == held(n as nat * b as nat + a as nat, b as nat).1,
        0 < out.1 <= BEYOND,
        out.0 <= 2 * BEYOND,
{
    let ghost start = n as nat * b as nat + a as nat;
    let mut m: u128 = n;
    let mut c: u128 = a;
    let mut d: u128 = 1;
    let ghost mut j: nat = 0;
    proof {
        lemma2_to64();
        assert(start < BEYOND * b) by (nonlinear_arith)
            requires
                start == n * b + a,
                a < b,
                n <= 0x1_0000_0000_0000,
                BEYOND == 9007199254740992,
        ;
        assert(start > 0) by (nonlinear_arith)
            requires
                start == n * b + a,
                n > 0,
                b > 0,
        ;
        assert(n * 1 == n && a * 1 == a);
    }
    while m < LEAST
        invariant
            b > 0,
            n > 0,
            a < b,
            a <= BEYOND,
            n <= 0x1_0000_0000_0000,
            d == pow2(j),
            m == n * d,
            c == a * d,
            m < 2 * LEAST,
            0 < d <= m,
            m >= LEAST ==> j >= 1,
            start == n as nat * b as nat + a as nat,
            start > 0,
            raised(start, b as nat).0 == raised(m as nat * b as nat + c as nat, b as nat).0,
            raised(start, b as nat).1 == d * raised(m as nat * b as nat + c as nat, b as nat).1,
        decreases 2 * LEAST - m,
    {
        let ghost here = m as nat * b as nat + c as nat;
        proof {
            lemma_gap(n as nat, j);
            assert(here < LEAST * b && here > 0) by (nonlinear_arith)
                requires
                    here == m * b + c,
                    m == n * d,
                    c == a * d,
                    a < b,
                    n > 0,
                    d > 0,
                    b > 0,
                    (n + 1) * d <= LEAST,
            ;
            assert(2 * here == (2 * m) * b + 2 * c) by (nonlinear_arith)
                requires
                    here == m * b + c,
            ;
            let v = raised(2 * here, b as nat);
            assert(raised(here, b as nat) == (v.0, 2 * v.1));
            assert(d * (2 * v.1) == (2 * d) * v.1) by (nonlinear_arith);
            assert(c <= BEYOND * LEAST) by (nonlinear_arith)
                requires
                    c == a * d,
                    a <= BEYOND,
                    d <= LEAST,
            ;
            lemma_pow2_unfold(j + 1);
            assert(n * (2 * d) == 2 * (n * d)) by (nonlinear_arith);
            assert(a * (2 * d) == 2 * (a * d)) by (nonlinear_arith);
            j = j + 1;
        }
        m = 2 * m;
        c = 2 * c;
        d = 2 * d;
    }
    proof {
        lemma_pow2_unfold(j);
        let e = pow2((j - 1) as nat);
        assert(m == 2 * (n * e)) by (nonlinear_arith)
            requires
                m == n * d,
                d == 2 * e,
        ;
        assert(m as nat * b as nat + c as nat >= LEAST * b) by (nonlinear_arith)
            requires
                m >= LEAST,
        ;
        lemma_nearest_beside(m as nat, c as nat, b as nat);
        assert(c < d * b) by (nonlinear_arith)
            requires
                c == a * d,
                a < b,
                d > 0,
        ;
        lemma_nearest_under(c as nat, b as nat, d as nat);
        assert(d * 1 == d);
    }
    (m + nearest_whole(c, b), d)
}

/// The parts of a time as it is shown: hours, minutes and tenths of a second.
fn parts(nanos: u64) -> (out: (u128, u128, u128))
    ensures
        ({
            let v = seconds_in(nanos as nat);
            &&& out.0 == times_in(v, 3600)
            &&& out.1 == times_in(v, 60) % 60
            &&& out.2 == nearest(10 * (v.0 % (60 * v.1)), v.1)
        }),
{
    let whole: u64 = nanos / 1_000_000_000;
    let rest: u64 = nanos % 1_000_000_000;
    let part: (u128, u128) = raise(rest as u128, 1_000_000_000);
    proof {
        assert(kept(rest as nat) == rest) by {
            whole_quotients_are_kept(rest as nat, 1);
            assert(rest as nat * 1 == rest);
        }
        assert(kept(1_000_000_000) == 1_000_000_000) by {
            whole_quotients_are_kept(1_000_000_000, 1);
        }
        if rest > 0 {
            lemma_part(rest as nat);
        } else {
            assert(0nat / 1_000_000_000 == 0);
        }
        assert(part.0 < part.1);
    }
    if whole == 0 {
        proof {
            let v = seconds_in(nanos as nat);
            assert(2 * v.0 < 3600 * v.1 && 2 * v.0 < 60 * v.1);
            assert(3600 * v.1 <= BEYOND * (3600 * v.1)) by (nonlinear_arith);
            assert(60 * v.1 <= BEYOND * (60 * v.1)) by (nonlinear_arith);
            lemma_small(v.0, 3600 * v.1);
            lemma_small(v.0, 60 * v.1);
            assert(v.0 % (60 * v.1) == v.0) by (nonlinear_arith)
                requires
                    v.0 < 60 * v.1,
            ;
        }
        return (0, 0, nearest_whole(10 * part.0, part.1));
    }
    let v: (u128, u128) = join(whole as u128, part.0, part.1);
    let hours: (u128, u128) = divided(v.0, 3600 * v.1);
    let minutes: (u128, u128) = divided(v.0, 60 * v.1);
    (hours.0 / hours.1, minutes.0 / minutes.1 % 60, nearest_whole(10 * (v.0 % (60 * v.1)), v.1))
}

fn in_two_digits(n: u128) -> (out: String)
    ensures
        out@ == two_digits(n as nat),
{
    if n < 10 {
        let mut out: String = "0".to_owned();
        out.append(decimal(n).as_str());
        out
    } else {
        decimal(n)
    }
}

/// A time that has passed, in nanoseconds.
pub fn format_elapsed(nanos: u64) -> (out: String)
    ensures
        out@ == elapsed_of(nanos as nat),
{
    let p: (u128, u128, u128) = parts(nanos);
    let mut out: String = "".to_owned();
    if p.0 > 0 {
        out = decimal(p.0);
        out.append(":");
    }
    out.append(in_two_digits(p.1).as_str());
    out.append(":");
    out.append(in_two_digits(p.2 / 10).as_str());
    out.append(".");
    out.append(decimal(p.2 % 10).as_str());
    out
}

/// What is shown of a count that is held with fifty-three bits.
pub fn format_whole(n: u64) -> (out: String)
    ensures
        out@ == text::decimal_of(kept(n as nat)),
{
    decimal(keep(n as u128))
}

/// What is shown of how far something has come, in hundredths with one digit behind the
/// point.
pub open spec fn share_text(done: u64, total: u64) -> Seq<char> {
    if total > 0 {
        tenths_of(hundredfold(quotient(done as nat, total as nat)))
    } else {
        "0.0"@
    }
}

pub fn format_share(done: u64, total: u64) -> (out: String)
    ensures
        out@ == share_text(done, total),
{
    if total > 0 {
        let v: (u128, u128) = divide(done, total);
        tenths((keep(100 * v.0), v.1))
    } else {
        "0.0".to_owned()
    }
}

} // verus!
