//! Integer-only rendering of sizes, rates, percentages, durations and meter bars.
use vstd::prelude::*;
use crate::cli::{digits_of, lemma_dec_reads_back};
use crate::text::push_char;

verus! {

/// The character of decimal digit `d`.
pub open spec fn digit_char(d: nat) -> char {
    (d + 48) as char
}

/// Decimal digits of `n`, most significant first, without leading zeros.
pub open spec fn dec(n: nat) -> Seq<char>
    decreases n,
{
    if n < 10 {
        seq![digit_char(n)]
    } else {
        dec(n / 10).push(digit_char(n % 10))
    }
}

/// 1024 to the power `i`.
pub open spec fn pow1024(i: nat) -> nat
    decreases i,
{
    if i == 0 {
        1
    } else {
        1024 * pow1024((i - 1) as nat)
    }
}

/// How many times `v` is divided by 1024, starting from unit `i`, before it
/// drops under 1024 or the largest unit (EiB, the sixth) is reached.
pub open spec fn unit_steps(v: nat, i: nat) -> nat
    decreases 6 - i,
{
    if v >= 1024 && i < 6 {
        unit_steps(v / 1024, i + 1)
    } else {
        i
    }
}

/// The binary unit of scale `i`: B, KiB, MiB, GiB, TiB, PiB, EiB.
pub open spec fn unit_name(i: nat) -> Seq<char> {
    if i == 0 {
        seq!['B']
    } else {
        let p = if i == 1 {
            'K'
        } else if i == 2 {
            'M'
        } else if i == 3 {
            'G'
        } else if i == 4 {
            'T'
        } else if i == 5 {
            'P'
        } else {
            'E'
        };
        seq![p, 'i', 'B']
    }
}

/// A byte count in the largest unit that keeps it at 1024 or more: whole
/// units and one truncated decimal, such as `3.6 GiB`; plain `512 B` under
/// one KiB.
pub open spec fn spec_bytes(n: u64) -> Seq<char> {
    let i = unit_steps(n as nat, 0);
    if i == 0 {
        dec(n as nat) + seq![' ', 'B']
    } else {
        let scale = pow1024(i);
        dec(n as nat / scale) + seq!['.'] + dec((n as nat % scale) * 10 / scale) + seq![' ']
            + unit_name(i)
    }
}

/// `num` over `den` in percent, rounded down and clamped to 100; 0 when `den` is 0.
pub open spec fn spec_pct(num: u64, den: u64) -> u16 {
    if den == 0 {
        0
    } else {
        let p = sat_mul(num as nat, 100) / (den as nat);
        if p > 100 {
            100
        } else {
            p as u16
        }
    }
}

/// A product clamped to `u64::MAX`.
pub open spec fn sat_mul(a: nat, b: nat) -> nat {
    if a * b > u64::MAX {
        u64::MAX as nat
    } else {
        a * b
    }
}

/// Milli-units with one truncated decimal, such as `-1.5` for -1500.
pub open spec fn spec_milli(v: i64) -> Seq<char> {
    let a: nat = if v < 0 {
        (-(v as int)) as nat
    } else {
        v as nat
    };
    (if v < 0 {
        seq!['-']
    } else {
        Seq::<char>::empty()
    }) + dec(a / 1000) + seq!['.'] + dec((a % 1000) / 100)
}

/// Hundredths with two decimals, such as `0.08`.
pub open spec fn spec_centi(v: u64) -> Seq<char> {
    dec(v as nat / 100) + seq!['.', digit_char((v as nat % 100) / 10), digit_char(v as nat % 10)]
}

/// Seconds as days, hours and minutes, leaving out leading zero units:
/// `1d 1h 1m`, `1h 2m`, `10m`.
pub open spec fn spec_hms(secs: u64) -> Seq<char> {
    let d = secs as nat / 86400;
    let h = (secs as nat % 86400) / 3600;
    let m = (secs as nat % 3600) / 60;
    if d > 0 {
        dec(d) + seq!['d', ' '] + dec(h) + seq!['h', ' '] + dec(m) + seq!['m']
    } else if h > 0 {
        dec(h) + seq!['h', ' '] + dec(m) + seq!['m']
    } else {
        dec(m) + seq!['m']
    }
}

/// Number of full cells of a bar of `width` cells at `percent`, clamped to 100.
pub open spec fn bar_filled(percent: u16, width: nat) -> nat {
    let p: nat = if percent > 100 {
        100
    } else {
        percent as nat
    };
    p * width / 100
}

/// A meter bar: full blocks (U+2588) for the filled part, light shade
/// (U+2591) for the rest.
pub open spec fn spec_bar(percent: u16, width: nat) -> Seq<char> {
    Seq::new(
        width,
        |k: int|
            if k < bar_filled(percent, width) {
                '\u{2588}'
            } else {
                '\u{2591}'
            },
    )
}

/// The product of `x` and `y`, or `u64::MAX` where it overflows.
pub fn mul_sat(x: u64, y: u64) -> (r: u64)
    ensures
        r == sat_mul(x as nat, y as nat),
{
    match x.checked_mul(y) {
        Some(p) => p,
        None => u64::MAX,
    }
}

fn digit(d: u64) -> (c: char)
    requires
        d < 10,
    ensures
        c == digit_char(d as nat),
{
    let b: u8 = (d as u8) + 48;
    b as char
}

/// Appends the decimal digits of `n`.
pub fn push_decimal(s: &mut String, n: u64)
    ensures
        final(s)@ == old(s)@ + dec(n as nat),
    decreases n,
{
    if n >= 10 {
        push_decimal(s, n / 10);
    }
    push_char(s, digit(n % 10));
    proof {
        if n < 10 {
            assert(n % 10 == n);
        }
    }
}

fn push_unit(s: &mut String, i: usize)
    requires
        1 <= i <= 6,
    ensures
        final(s)@ == old(s)@ + unit_name(i as nat),
{
    let p = if i == 1 {
        'K'
    } else if i == 2 {
        'M'
    } else if i == 3 {
        'G'
    } else if i == 4 {
        'T'
    } else if i == 5 {
        'P'
    } else {
        'E'
    };
    push_char(s, p);
    push_char(s, 'i');
    push_char(s, 'B');
}

proof fn lemma_pow1024_bound(i: nat)
    requires
        i <= 6,
    ensures
        1 <= pow1024(i) <= 1152921504606846976,
        i <= 5 ==> pow1024(i) <= 1125899906842624,
{
    reveal_with_fuel(pow1024, 7);
}

/// A byte count for display, such as `512 B`, `1.5 KiB` or `15.9 EiB`.
pub fn bytes(n: u64) -> (r: String)
    ensures
        r@ == spec_bytes(n),
{
    let mut i: usize = 0;
    let mut v: u64 = n;
    let mut scale: u64 = 1;
    while v >= 1024 && i < 6
        invariant
            i <= 6,
            scale == pow1024(i as nat),
            v == n as nat / scale as nat,
            unit_steps(v as nat, i as nat) == unit_steps(n as nat, 0),
        decreases 6 - i,
    {
        proof {
            lemma_pow1024_bound(i as nat);
            vstd::arithmetic::div_mod::lemma_div_denominator(n as int, scale as int, 1024);
        }
        v = v / 1024;
        scale = scale * 1024;
        i = i + 1;
    }
    let mut s = String::new();
    if i == 0 {
        push_decimal(&mut s, n);
        push_char(&mut s, ' ');
        push_char(&mut s, 'B');
        return s;
    }
    proof {
        lemma_pow1024_bound(i as nat);
    }
    let whole = n / scale;
    let rem = n % scale;
    assert(rem * 10 <= u64::MAX) by (nonlinear_arith)
        requires
            rem < scale,
            scale <= 1152921504606846976,
    ;
    let tenth = rem * 10 / scale;
    push_decimal(&mut s, whole);
    push_char(&mut s, '.');
    push_decimal(&mut s, tenth);
    push_char(&mut s, ' ');
    push_unit(&mut s, i);
    s
}

/// A byte rate, such as `2.0 KiB/s`.
pub fn rate(bps: u64) -> (r: String)
    ensures
        r@ == spec_bytes(bps) + seq!['/', 's'],
{
    let mut s = bytes(bps);
    push_char(&mut s, '/');
    push_char(&mut s, 's');
    s
}

/// `num` over `den` in percent, clamped to 100; 0 for a zero denominator.
pub fn pct(num: u64, den: u64) -> (r: u16)
    ensures
        r == spec_pct(num, den),
{
    if den == 0 {
        return 0;
    }
    let p = mul_sat(num, 100) / den;
    if p > 100 {
        100
    } else {
        p as u16
    }
}

/// Milli-units (such as millidegrees) with one decimal, without floating point.
pub fn milli(v: i64) -> (r: String)
    ensures
        r@ == spec_milli(v),
{
    let neg = v < 0;
    let a: u64 = if neg {
        (-(v as i128)) as u64
    } else {
        v as u64
    };
    let whole = a / 1000;
    let tenth = (a % 1000) / 100;
    let mut s = String::new();
    if neg {
        push_char(&mut s, '-');
    }
    push_decimal(&mut s, whole);
    push_char(&mut s, '.');
    push_decimal(&mut s, tenth);
    s
}

/// Hundredths with two decimals, zero-padded: `0.08`, `2.34`, `1.00`.
pub fn centi(v: u64) -> (r: String)
    ensures
        r@ == spec_centi(v),
{
    let mut s = String::new();
    push_decimal(&mut s, v / 100);
    push_char(&mut s, '.');
    let c = v % 100;
    push_char(&mut s, digit(c / 10));
    push_char(&mut s, digit(c % 10));
    s
}

/// Seconds as `Nd Nh Nm`, dropping leading zero units.
pub fn hms(secs: u64) -> (r: String)
    ensures
        r@ == spec_hms(secs),
{
    let d = secs / 86400;
    let h = (secs % 86400) / 3600;
    let m = (secs % 3600) / 60;
    let mut s = String::new();
    if d > 0 {
        push_decimal(&mut s, d);
        push_char(&mut s, 'd');
        push_char(&mut s, ' ');
    }
    if d > 0 || h > 0 {
        push_decimal(&mut s, h);
        push_char(&mut s, 'h');
        push_char(&mut s, ' ');
    }
    push_decimal(&mut s, m);
    push_char(&mut s, 'm');
    s
}

/// A bar of `width` cells, the first `min(percent, 100) * width / 100` of
/// them full.
pub fn bar(percent: u16, width: usize) -> (r: String)
    requires
        width * 3 <= usize::MAX,
        (if percent > 100 {
            100
        } else {
            percent as int
        }) * width <= usize::MAX,
    ensures
        r@ == spec_bar(percent, width as nat),
{
    let p: usize = if percent > 100 {
        100
    } else {
        percent as usize
    };
    let filled = p * width / 100;
    let mut s = String::new();
    let mut i: usize = 0;
    while i < width
        invariant
            i <= width,
            filled == bar_filled(percent, width as nat),
            s@ == spec_bar(percent, width as nat).take(i as int),
        decreases width - i,
    {
        let c = if i < filled {
            '\u{2588}'
        } else {
            '\u{2591}'
        };
        push_char(&mut s, c);
        i = i + 1;
        assert(s@ =~= spec_bar(percent, width as nat).take(i as int));
    }
    assert(s@ =~= spec_bar(percent, width as nat));
    s
}

proof fn lemma_unit_steps(n: nat, v: nat, i: nat)
    requires
        i <= 6,
        v == n / pow1024(i),
        i > 0 ==> v >= 1,
    ensures
        i <= unit_steps(v, i) <= 6,
        unit_steps(v, i) > 0 ==> n / pow1024(unit_steps(v, i)) >= 1,
        unit_steps(v, i) < 6 ==> n / pow1024(unit_steps(v, i)) < 1024,
    decreases 6 - i,
{
    lemma_pow1024_bound(i);
    if v >= 1024 && i < 6 {
        vstd::arithmetic::div_mod::lemma_div_denominator(n as int, pow1024(i) as int, 1024);
        assert(pow1024(i) * 1024 == pow1024(i + 1));
        lemma_unit_steps(n, v / 1024, i + 1);
    }
}

/// A byte count is shown in plain bytes below 1024 and otherwise in the
/// largest unit whose whole part is at least 1 and under 1024 (EiB, the
/// last unit, holds everything above), always with exactly one decimal digit.
pub proof fn law_bytes_unit_choice(n: u64)
    ensures
        (unit_steps(n as nat, 0) == 0) == (n < 1024),
        unit_steps(n as nat, 0) <= 6,
        unit_steps(n as nat, 0) > 0 ==> ({
            let i = unit_steps(n as nat, 0);
            let scale = pow1024(i);
            &&& 1 <= n as nat / scale
            &&& (i < 6 ==> n as nat / scale < 1024)
            &&& (n as nat % scale) * 10 / scale < 10
        }),
{
    assert(pow1024(0) == 1);
    lemma_unit_steps(n as nat, n as nat, 0);
    let i = unit_steps(n as nat, 0);
    if i > 0 {
        lemma_pow1024_bound(i);
        let scale = pow1024(i);
        let r = n as nat % scale;
        assert(r < scale);
        assert(r * 10 / scale < 10) by (nonlinear_arith)
            requires
                r < scale,
                scale >= 1,
        ;
    }
}

/// A percentage never exceeds 100, a zero denominator gives 0, and a part of
/// a whole whose hundredfold fits in a `u64` gives its exact rounded-down share.
pub proof fn law_pct_bounded(num: u64, den: u64)
    ensures
        spec_pct(num, den) <= 100,
        den == 0 ==> spec_pct(num, den) == 0,
        den != 0 && num <= den && num * 100 <= u64::MAX ==> spec_pct(num, den) == (num as nat)
            * 100 / (den as nat),
{
    if den != 0 && num <= den && num * 100 <= u64::MAX {
        assert(num * 100 <= den * 100) by (nonlinear_arith)
            requires
                num <= den,
        ;
        assert((num as nat) * 100 / (den as nat) <= 100) by (nonlinear_arith)
            requires
                num * 100 <= den * 100,
                den > 0,
        ;
    }
}

/// A bar is always `width` cells long, and its filled part grows with the
/// percentage and stops growing at 100.
pub proof fn law_bar_shape(p: u16, q: u16, width: nat)
    ensures
        spec_bar(p, width).len() == width,
        bar_filled(p, width) <= width,
        p <= q ==> bar_filled(p, width) <= bar_filled(q, width),
        p >= 100 ==> bar_filled(p, width) == width,
{
    let a: nat = if p > 100 {
        100
    } else {
        p as nat
    };
    let b: nat = if q > 100 {
        100
    } else {
        q as nat
    };
    assert(a * width / 100 <= width) by (nonlinear_arith)
        requires
            a <= 100,
    ;
    if p <= q {
        assert(a * width <= b * width) by (nonlinear_arith)
            requires
                a <= b,
        ;
        vstd::arithmetic::div_mod::lemma_div_is_ordered((a * width) as int, (b * width) as int, 100);
    }
    if p >= 100 {
        assert(100 * width / 100 == width) by (nonlinear_arith);
    }
}

/// The duration text reads back as the duration: its fields are digit
/// strings whose values are the whole days, the hours within the day and
/// the minutes within the hour, each followed by its unit; days are left out
/// when there are none, and hours too when there are neither days nor hours.
pub proof fn law_hms_reads_back(secs: u64)
    ensures
        ({
            let d = secs as nat / 86400;
            let h = (secs as nat % 86400) / 3600;
            let m = (secs as nat % 3600) / 60;
            let t = spec_hms(secs);
            &&& d > 0 ==> exists|ds: Seq<char>, hs: Seq<char>, ms: Seq<char>|
                #![trigger digits_of(ds, d), digits_of(hs, h), digits_of(ms, m)]
                digits_of(ds, d) && digits_of(hs, h) && digits_of(ms, m) && t == ds + seq!['d', ' ']
                    + hs + seq!['h', ' '] + ms + seq!['m']
            &&& d == 0 && h > 0 ==> exists|hs: Seq<char>, ms: Seq<char>|
                #![trigger digits_of(hs, h), digits_of(ms, m)]
                digits_of(hs, h) && digits_of(ms, m) && t == hs + seq!['h', ' '] + ms + seq!['m']
            &&& d == 0 && h == 0 ==> exists|ms: Seq<char>|
                #![trigger digits_of(ms, m)]
                digits_of(ms, m) && t == ms + seq!['m']
        }),
{
    let d = secs as nat / 86400;
    let h = (secs as nat % 86400) / 3600;
    let m = (secs as nat % 3600) / 60;
    lemma_dec_reads_back(d);
    lemma_dec_reads_back(h);
    lemma_dec_reads_back(m);
}

} // verus!
