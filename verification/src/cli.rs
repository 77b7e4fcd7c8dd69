//! The command line: `citop [interval_ms]`.
use vstd::prelude::*;
use crate::fmt::{dec, digit_char};
use crate::text::str_eq;

verus! {

/// Refresh period when none is given, in milliseconds.
pub const DEFAULT_MS: u64 = 1000;

/// Shortest refresh period accepted, in milliseconds.
pub const MIN_MS: u64 = 100;

/// Why the arguments do not give a refresh period.
pub enum ArgError {
    /// Help was asked for.
    Help,
    /// The arguments are wrong; the message says how.
    Invalid(&'static str),
}

/// A character that is an ASCII digit.
pub open spec fn is_digit_c(c: char) -> bool {
    '0' <= c <= '9'
}

/// The value of a string of ASCII digits.
pub open spec fn char_decimal(s: Seq<char>) -> nat
    decreases s.len(),
{
    if s.len() == 0 {
        0
    } else {
        char_decimal(s.drop_last()) * 10 + ((s.last() as u32) as nat - 48) as nat
    }
}

/// `s` without a leading `+`.
pub open spec fn unsigned_part(s: Seq<char>) -> Seq<char> {
    if s.len() > 0 && s[0] == '+' {
        s.skip(1)
    } else {
        s
    }
}

/// A `u64` as `str::parse` reads it: an optional `+`, then one or more ASCII
/// digits and nothing else, with a value that fits.
pub open spec fn spec_str_u64(s: Seq<char>) -> Option<u64> {
    let d = unsigned_part(s);
    if d.len() == 0 || !(forall|k: int| 0 <= k < d.len() ==> is_digit_c(#[trigger] d[k])) {
        None
    } else if char_decimal(d) > u64::MAX {
        None
    } else {
        Some(char_decimal(d) as u64)
    }
}

proof fn lemma_char_decimal_step(s: Seq<char>, i: int)
    requires
        0 <= i < s.len(),
    ensures
        char_decimal(s.take(i + 1)) == char_decimal(s.take(i)) * 10 + ((s[i] as u32) as nat - 48) as nat,
{
    assert(s.take(i + 1).drop_last() =~= s.take(i));
}

proof fn lemma_char_decimal_mono(s: Seq<char>, j: int, k: int)
    requires
        0 <= j <= k <= s.len(),
        forall|m: int| 0 <= m < k ==> is_digit_c(#[trigger] s[m]),
    ensures
        char_decimal(s.take(j)) <= char_decimal(s.take(k)),
    decreases k - j,
{
    if j < k {
        lemma_char_decimal_mono(s, j, k - 1);
        lemma_char_decimal_step(s, k - 1);
    }
}

/// A `u64` read the way `str::parse::<u64>` reads it: an optional `+`
/// followed by decimal digits only, within range; anything else (empty, a
/// sign `-`, whitespace, other characters, overflow) is `None`.
fn parse_decimal(s: &str) -> (r: Option<u64>)
    ensures
        r == spec_str_u64(s@),
{
    let n = s.unicode_len();
    let mut start: usize = 0;
    if n > 0 && s.get_char(0) == '+' {
        start = 1;
    }
    let ghost d = s@.skip(start as int);
    assert(s@.skip(0) =~= s@);
    if start == n {
        return None;
    }
    let mut v: u64 = 0;
    let mut i: usize = start;
    assert(d.take(0) =~= Seq::<char>::empty());
    while i < n
        invariant
            start < n,
            start <= i <= n,
            n == s@.len(),
            d == s@.skip(start as int),
            d == unsigned_part(s@),
            forall|k: int| 0 <= k < i - start ==> is_digit_c(#[trigger] d[k]),
            v == char_decimal(d.take(i - start)),
        decreases n - i,
    {
        let c = s.get_char(i);
        let ghost j = i - start;
        assert(d[j] == c);
        let cu = c as u32;
        assert(is_digit_c(c) <==> 48 <= cu <= 57);
        if cu < 48 || cu > 57 {
            assert(!is_digit_c(d[j]));
            return None;
        }
        proof {
            lemma_char_decimal_step(d, j);
        }
        let dv = (cu - 48) as u64;
        let next = match v.checked_mul(10) {
            Some(m) => m.checked_add(dv),
            None => None,
        };
        match next {
            Some(x) => {
                v = x;
            },
            None => {
                proof {
                    if forall|k: int| 0 <= k < d.len() ==> is_digit_c(#[trigger] d[k]) {
                        lemma_char_decimal_mono(d, j + 1, d.len() as int);
                        assert(d.take(d.len() as int) =~= d);
                    }
                }
                return None;
            },
        }
        i = i + 1;
    }
    assert(d.take(d.len() as int) =~= d);
    Some(v)
}

/// What the arguments after the program name give, read from the first:
/// `Err(true)` for help, `Err(false)` for an argument that is not a period of
/// at least `MIN_MS`; otherwise the last period given, `ms` without any.
pub open spec fn args_from(args: Seq<Seq<char>>, ms: u64) -> Result<u64, bool>
    decreases args.len(),
{
    if args.len() == 0 {
        Ok(ms)
    } else {
        let a = args[0];
        if a == "-h"@ || a == "--help"@ {
            Err(true)
        } else {
            match spec_str_u64(a) {
                Some(v) => if v >= MIN_MS {
                    args_from(args.skip(1), v)
                } else {
                    Err(false)
                },
                None => Err(false),
            }
        }
    }
}

/// The text of each argument.
pub open spec fn arg_views(args: Seq<String>) -> Seq<Seq<char>> {
    args.map_values(|a: String| a@)
}

/// The refresh period in milliseconds from the arguments after the program
/// name: `-h` or `--help` asks for help; a number of at least `MIN_MS`
/// sets the period; anything else is invalid. Without arguments the period
/// is `DEFAULT_MS`.
pub fn parse_args(args: &Vec<String>) -> (r: Result<u64, ArgError>)
    ensures
        match args_from(arg_views(args@), DEFAULT_MS) {
            Ok(ms) => r matches Ok(v) && v == ms,
            Err(true) => r matches Err(ArgError::Help),
            Err(false) => r matches Err(ArgError::Invalid(m)) && m@
                == "interval_ms must be an integer >= 100"@,
        },
{
    let mut ms: u64 = DEFAULT_MS;
    let mut k: usize = 0;
    assert(arg_views(args@).skip(0) =~= arg_views(args@));
    while k < args.len()
        invariant
            k <= args.len(),
            args_from(arg_views(args@).skip(k as int), ms) == args_from(
                arg_views(args@),
                DEFAULT_MS,
            ),
        decreases args.len() - k,
    {
        let ghost rest = arg_views(args@).skip(k as int);
        let a = args[k].as_str();
        assert(rest[0] == a@);
        assert(rest.skip(1) =~= arg_views(args@).skip(k + 1));
        if str_eq(a, "-h") || str_eq(a, "--help") {
            return Err(ArgError::Help);
        }
        match parse_decimal(a) {
            Some(v) => {
                if v >= MIN_MS {
                    ms = v;
                } else {
                    return Err(ArgError::Invalid("interval_ms must be an integer >= 100"));
                }
            },
            None => return Err(ArgError::Invalid("interval_ms must be an integer >= 100")),
        }
        k = k + 1;
    }
    assert(arg_views(args@).skip(args.len() as int) =~= Seq::<Seq<char>>::empty());
    Ok(ms)
}

/// A key press, as far as the dashboard tells keys apart.
#[derive(Clone, Copy, PartialEq, Eq, Debug, Structural)]
pub enum Key {
    Char(char),
    Esc,
    Other,
}

/// What a key press does.
#[derive(Clone, Copy, PartialEq, Eq, Debug, Structural)]
pub enum KeyAction {
    Quit,
    Refresh,
    Ignore,
}

/// `q`, `Q`, Esc and Ctrl-C quit; `r` and `R` refresh now; other keys do nothing.
pub open spec fn spec_key_action(key: Key, ctrl: bool) -> KeyAction {
    match key {
        Key::Esc => KeyAction::Quit,
        Key::Char(c) => if c == 'q' || c == 'Q' {
            KeyAction::Quit
        } else if (c == 'c' || c == 'C') && ctrl {
            KeyAction::Quit
        } else if c == 'r' || c == 'R' {
            KeyAction::Refresh
        } else {
            KeyAction::Ignore
        },
        Key::Other => KeyAction::Ignore,
    }
}

/// What pressing `key` does, `ctrl` telling whether Control was held.
pub fn key_action(key: Key, ctrl: bool) -> (r: KeyAction)
    ensures
        r == spec_key_action(key, ctrl),
{
    match key {
        Key::Esc => KeyAction::Quit,
        Key::Char(c) => if c == 'q' || c == 'Q' {
            KeyAction::Quit
        } else if (c == 'c' || c == 'C') && ctrl {
            KeyAction::Quit
        } else if c == 'r' || c == 'R' {
            KeyAction::Refresh
        } else {
            KeyAction::Ignore
        },
        Key::Other => KeyAction::Ignore,
    }
}

/// `s` is a non-empty string of ASCII digits that reads as `n`.
pub open spec fn digits_of(s: Seq<char>, n: nat) -> bool {
    &&& s.len() > 0
    &&& forall|k: int| 0 <= k < s.len() ==> is_digit_c(#[trigger] s[k])
    &&& char_decimal(s) == n
}

/// The decimal text of `n` is a string of digits that reads back as `n`.
pub proof fn lemma_dec_reads_back(n: nat)
    ensures
        digits_of(dec(n), n),
    decreases n,
{
    let s = dec(n);
    let c = digit_char(n % 10);
    assert(c as u32 == n % 10 + 48);
    if n >= 10 {
        lemma_dec_reads_back(n / 10);
        let p = dec(n / 10);
        assert(s == p.push(c));
        assert(s.drop_last() =~= p);
        assert forall|k: int| 0 <= k < s.len() implies is_digit_c(#[trigger] s[k]) by {
            if k < p.len() {
                assert(s[k] == p[k]);
            }
        }
    } else {
        assert(s =~= seq![c]);
        assert(s.drop_last() =~= Seq::<char>::empty());
        assert(char_decimal(Seq::<char>::empty()) == 0);
    }
}

/// The period given is the period used: a single argument that is the
/// decimal text of any `v` of at least `MIN_MS` gives `Ok(v)`, with no upper
/// bound; and so does a leading `+`.
pub proof fn law_period_given_is_used(v: u64)
    requires
        v >= MIN_MS,
    ensures
        args_from(seq![dec(v as nat)], DEFAULT_MS) == Ok::<u64, bool>(v),
        args_from(seq![seq!['+'] + dec(v as nat)], DEFAULT_MS) == Ok::<u64, bool>(v),
{
    let t = dec(v as nat);
    lemma_dec_reads_back(v as nat);
    reveal_strlit("-h");
    reveal_strlit("--help");
    assert(is_digit_c(t[0]));
    assert(t != "-h"@);
    assert(t != "--help"@);
    assert(unsigned_part(t) == t);
    assert(seq![t].skip(1) =~= Seq::<Seq<char>>::empty());
    assert(spec_str_u64(t) == Some(v));
    assert(args_from(Seq::<Seq<char>>::empty(), v) == Ok::<u64, bool>(v));
    assert(seq![t][0] == t);
    let u = seq!['+'] + t;
    assert(u != "-h"@);
    assert(u != "--help"@);
    assert(unsigned_part(u) =~= t);
    assert(seq![u].skip(1) =~= Seq::<Seq<char>>::empty());
    assert(spec_str_u64(u) == Some(v));
    assert(seq![u][0] == u);
}

} // verus!
