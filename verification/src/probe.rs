//! Byte-level readers for the text files under `/proc` and `/sys`: line and
//! field splitting and overflow-checked integer parsing.
use vstd::prelude::*;
use vstd::utf8::*;
use crate::text::{lossy_utf8, utf8_lossy};

verus! {

/// An ASCII decimal digit.
pub open spec fn is_digit(b: u8) -> bool {
    48 <= b <= 57
}

/// ASCII whitespace as `u8::is_ascii_whitespace` defines it: space, tab,
/// line feed, form feed and carriage return.
pub open spec fn is_ascii_ws(b: u8) -> bool {
    b == 32 || b == 9 || b == 10 || b == 12 || b == 13
}

/// The separator of a split: line feed for lines, any ASCII whitespace for fields.
pub open spec fn is_sep(b: u8, ws: bool) -> bool {
    if ws {
        is_ascii_ws(b)
    } else {
        b == 10
    }
}

/// `s` cut at every separator, separators dropped, empty pieces kept
/// (the pieces that `<[u8]>::split` yields).
pub open spec fn pieces(s: Seq<u8>, ws: bool) -> Seq<Seq<u8>>
    decreases s.len(),
{
    if s.len() == 0 {
        seq![Seq::<u8>::empty()]
    } else {
        let prev = pieces(s.drop_last(), ws);
        if is_sep(s.last(), ws) {
            prev.push(Seq::<u8>::empty())
        } else {
            prev.update(prev.len() - 1, prev.last().push(s.last()))
        }
    }
}

/// The lines of `s`: the pieces between line feeds, a trailing empty one included.
pub open spec fn spec_lines(s: Seq<u8>) -> Seq<Seq<u8>> {
    pieces(s, false)
}

/// The non-empty members of `ss`, in order.
pub open spec fn nonempty(ss: Seq<Seq<u8>>) -> Seq<Seq<u8>>
    decreases ss.len(),
{
    if ss.len() == 0 {
        Seq::empty()
    } else if ss.last().len() > 0 {
        nonempty(ss.drop_last()).push(ss.last())
    } else {
        nonempty(ss.drop_last())
    }
}

/// The whitespace-separated fields of `s`; runs of whitespace count as one separator.
pub open spec fn spec_fields(s: Seq<u8>) -> Seq<Seq<u8>> {
    nonempty(pieces(s, true))
}

/// The contents of a list of byte slices.
pub open spec fn views(v: Seq<&[u8]>) -> Seq<Seq<u8>> {
    v.map_values(|x: &[u8]| x@)
}

/// Number of ASCII digits at the start of `s`.
pub open spec fn digit_run(s: Seq<u8>) -> nat
    decreases s.len(),
{
    if s.len() > 0 && is_digit(s[0]) {
        1 + digit_run(s.skip(1))
    } else {
        0
    }
}

/// The value of a string of decimal digits.
pub open spec fn decimal(s: Seq<u8>) -> nat
    decreases s.len(),
{
    if s.len() == 0 {
        0
    } else {
        decimal(s.drop_last()) * 10 + (s.last() - 48) as nat
    }
}

/// The leading decimal number of `s`: none without a leading digit or when it
/// does not fit in a `u64`.
pub open spec fn spec_parse_u64(s: Seq<u8>) -> Option<u64> {
    let n = digit_run(s);
    if n == 0 || decimal(s.take(n as int)) > u64::MAX {
        None
    } else {
        Some(decimal(s.take(n as int)) as u64)
    }
}

/// `s` starts with a minus sign whose number is 2^63, whose negation the
/// signed parser cannot form.
pub open spec fn negation_overflows(s: Seq<u8>) -> bool {
    s.len() > 0 && s[0] == 45 && spec_parse_u64(s.skip(1)) == Some(0x8000_0000_0000_0000u64)
}

/// The leading signed number of `s`: an optional minus sign, then the digits
/// that `spec_parse_u64` reads, taken as an `i64` by two's-complement truncation.
pub open spec fn spec_parse_i64(s: Seq<u8>) -> Option<i64> {
    if s.len() > 0 && s[0] == 45 {
        match spec_parse_u64(s.skip(1)) {
            Some(v) => Some((-((v as i64) as int)) as i64),
            None => None,
        }
    } else {
        match spec_parse_u64(s) {
            Some(v) => Some(v as i64),
            None => None,
        }
    }
}

/// Index of the first occurrence of `b` in `s`.
pub open spec fn find(s: Seq<u8>, b: u8) -> Option<nat>
    decreases s.len(),
{
    if s.len() == 0 {
        None
    } else if s[0] == b {
        Some(0)
    } else {
        match find(s.skip(1), b) {
            Some(k) => Some(k + 1),
            None => None,
        }
    }
}

/// `s` begins with `p`.
pub open spec fn starts_with(s: Seq<u8>, p: Seq<u8>) -> bool {
    p.len() <= s.len() && s.take(p.len() as int) == p
}

/// A decimal with exactly two fractional digits, such as `0.08`, in hundredths.
pub open spec fn spec_parse_centi(f: Seq<u8>) -> Option<u64> {
    match find(f, 46) {
        None => None,
        Some(dot) => match spec_parse_u64(f.take(dot as int)) {
            None => None,
            Some(whole) => if dot + 3 > f.len() {
                None
            } else {
                match spec_parse_u64(f.subrange(dot + 1 as int, dot + 3 as int)) {
                    None => None,
                    Some(cents) => if whole * 100 + cents > u64::MAX {
                        None
                    } else {
                        Some((whole * 100 + cents) as u64)
                    },
                }
            },
        }
    }
}

pub proof fn lemma_pieces_len(s: Seq<u8>, ws: bool)
    ensures
        pieces(s, ws).len() >= 1,
    decreases s.len(),
{
    if s.len() > 0 {
        lemma_pieces_len(s.drop_last(), ws);
    }
}

proof fn lemma_digit_run(s: Seq<u8>, i: int)
    requires
        0 <= i <= s.len(),
        forall|k: int| 0 <= k < i ==> is_digit(#[trigger] s[k]),
        i == s.len() || !is_digit(s[i]),
    ensures
        digit_run(s) == i,
    decreases i,
{
    if i > 0 {
        lemma_digit_run(s.skip(1), i - 1);
    }
}

proof fn lemma_decimal_step(s: Seq<u8>, i: int)
    requires
        0 <= i < s.len(),
    ensures
        decimal(s.take(i + 1)) == decimal(s.take(i)) * 10 + (s[i] - 48) as nat,
{
    assert(s.take(i + 1).drop_last() =~= s.take(i));
}

proof fn lemma_decimal_mono(s: Seq<u8>, j: int, k: int)
    requires
        0 <= j <= k <= s.len(),
        forall|m: int| 0 <= m < k ==> is_digit(#[trigger] s[m]),
    ensures
        decimal(s.take(j)) <= decimal(s.take(k)),
    decreases k - j,
{
    if j < k {
        lemma_decimal_mono(s, j, k - 1);
        lemma_decimal_step(s, k - 1);
    }
}

/// The number at the start of `s`. Reading stops at the first byte that is
/// not an ASCII digit; `None` when there is no digit or when the number
/// overflows a `u64`.
pub fn parse_u64(s: &[u8]) -> (r: Option<u64>)
    ensures
        r == spec_parse_u64(s@),
{
    let mut v: u64 = 0;
    let mut i: usize = 0;
    while i < s.len() && s[i] >= 48 && s[i] <= 57
        invariant
            i <= s.len(),
            forall|k: int| 0 <= k < i ==> is_digit(#[trigger] s@[k]),
            v == decimal(s@.take(i as int)),
        decreases s.len() - i,
    {
        proof {
            lemma_decimal_step(s@, i as int);
        }
        let d = (s[i] - 48) as u64;
        match v.checked_mul(10) {
            Some(m) => match m.checked_add(d) {
                Some(next) => {
                    v = next;
                },
                None => {
                    proof {
                        assert forall|k: int| 0 <= k < i + 1 implies is_digit(#[trigger] s@[k]) by {}
                        let n = digit_run(s@);
                        lemma_run_bound(s@, i as int + 1);
                        lemma_decimal_mono(s@, i + 1, n as int);
                    }
                    return None;
                },
            },
            None => {
                proof {
                    assert forall|k: int| 0 <= k < i + 1 implies is_digit(#[trigger] s@[k]) by {}
                    let n = digit_run(s@);
                    lemma_run_bound(s@, i as int + 1);
                    lemma_decimal_mono(s@, i + 1, n as int);
                }
                return None;
            },
        }
        i = i + 1;
    }
    proof {
        lemma_digit_run(s@, i as int);
    }
    if i == 0 {
        None
    } else {
        Some(v)
    }
}

/// A non-empty run of digits whose value fits reads as that value.
pub proof fn lemma_parse_digits(s: Seq<u8>)
    requires
        s.len() > 0,
        forall|k: int| 0 <= k < s.len() ==> is_digit(#[trigger] s[k]),
        decimal(s) <= u64::MAX,
    ensures
        spec_parse_u64(s) == Some(decimal(s) as u64),
{
    lemma_digit_run(s, s.len() as int);
    assert(s.take(s.len() as int) =~= s);
}

/// Where the first `i` bytes are digits, the digit run reaches at least `i`
/// and every byte of the run is a digit.
proof fn lemma_run_bound(s: Seq<u8>, i: int)
    requires
        0 <= i <= s.len(),
        forall|k: int| 0 <= k < i ==> is_digit(#[trigger] s[k]),
    ensures
        i <= digit_run(s) <= s.len(),
        forall|k: int| 0 <= k < digit_run(s) ==> is_digit(#[trigger] s[k]),
        digit_run(s) < s.len() ==> !is_digit(s[digit_run(s) as int]),
    decreases s.len(),
{
    if s.len() > 0 && is_digit(s[0]) {
        let t = s.skip(1);
        assert forall|k: int| 0 <= k < (if i > 0 { i - 1 } else { 0 }) implies is_digit(
            #[trigger] t[k],
        ) by {
            assert(t[k] == s[k + 1]);
        }
        lemma_run_bound(t, if i > 0 { i - 1 } else { 0 });
        assert forall|k: int| 0 <= k < digit_run(s) implies is_digit(#[trigger] s[k]) by {
            if k > 0 {
                assert(s[k] == t[k - 1]);
            }
        }
        if digit_run(s) < s.len() {
            assert(s[digit_run(s) as int] == t[digit_run(t) as int]);
        }
    }
}

/// The signed number at the start of `s`: an optional `-`, then what
/// `parse_u64` reads. The caller keeps out `-9223372036854775808`, whose
/// negation overflows.
pub fn parse_i64(s: &[u8]) -> (r: Option<i64>)
    requires
        !negation_overflows(s@),
    ensures
        r == spec_parse_i64(s@),
{
    if s.len() > 0 && s[0] == 45 {
        let rest = &s[1..s.len()];
        assert(rest@ =~= s@.skip(1));
        match parse_u64(rest) {
            Some(v) => {
                let w = v as i64;
                assert(v != 0x8000_0000_0000_0000u64 ==> w != i64::MIN) by (bit_vector)
                    requires
                        w == v as i64,
                ;
                Some(-w)
            },
            None => None,
        }
    } else {
        match parse_u64(s) {
            Some(v) => Some(v as i64),
            None => None,
        }
    }
}

/// The lines of `data`, split at each line feed; a trailing line feed leaves
/// an empty last line.
pub fn lines(data: &[u8]) -> (r: Vec<&[u8]>)
    ensures
        views(r@) == spec_lines(data@),
{
    let mut out: Vec<&[u8]> = Vec::new();
    let mut start: usize = 0;
    let mut i: usize = 0;
    assert(data@.take(0) =~= Seq::<u8>::empty());
    assert(views(out@).push(data@.subrange(0, 0)) =~= spec_lines(data@.take(0)));
    while i < data.len()
        invariant
            start <= i <= data.len(),
            views(out@).push(data@.subrange(start as int, i as int)) == pieces(
                data@.take(i as int),
                false,
            ),
        decreases data.len() - i,
    {
        let ghost before = views(out@);
        assert(data@.take(i + 1).drop_last() =~= data@.take(i as int));
        if data[i] == 10 {
            out.push(&data[start..i]);
            assert(views(out@) =~= before.push(data@.subrange(start as int, i as int)));
            start = i + 1;
            assert(data@.subrange(start as int, i + 1) =~= Seq::<u8>::empty());
        } else {
            assert(data@.subrange(start as int, i as int).push(data@[i as int]) =~= data@.subrange(
                start as int,
                i + 1,
            ));
            assert(before.push(data@.subrange(start as int, i as int)).update(
                before.len() as int,
                data@.subrange(start as int, i + 1),
            ) =~= before.push(data@.subrange(start as int, i + 1)));
        }
        i = i + 1;
    }
    out.push(&data[start..data.len()]);
    assert(data@.take(data.len() as int) =~= data@);
    proof {
        let ghost v = views(out@);
        assert(v =~= views(out@.drop_last()).push(data@.subrange(start as int, data.len() as int)));
    }
    out
}

/// The whitespace-separated fields of `line`, without empty ones.
pub fn fields(line: &[u8]) -> (r: Vec<&[u8]>)
    ensures
        views(r@) == spec_fields(line@),
{
    let mut out: Vec<&[u8]> = Vec::new();
    let mut start: usize = 0;
    let mut i: usize = 0;
    proof {
        lemma_pieces_len(line@.take(0), true);
    }
    assert(line@.take(0) =~= Seq::<u8>::empty());
    while i < line.len()
        invariant
            start <= i <= line.len(),
            pieces(line@.take(i as int), true).len() >= 1,
            views(out@) == nonempty(pieces(line@.take(i as int), true).drop_last()),
            pieces(line@.take(i as int), true).last() == line@.subrange(start as int, i as int),
        decreases line.len() - i,
    {
        let ghost prev = pieces(line@.take(i as int), true);
        assert(line@.take(i + 1).drop_last() =~= line@.take(i as int));
        let b = line[i];
        if b == 32 || b == 9 || b == 10 || b == 12 || b == 13 {
            let ghost next = prev.push(Seq::<u8>::empty());
            assert(next.drop_last() =~= prev);
            assert(prev =~= prev.drop_last().push(prev.last()));
            if i > start {
                out.push(&line[start..i]);
            }
            start = i + 1;
            assert(line@.subrange(start as int, i + 1) =~= Seq::<u8>::empty());
        } else {
            let ghost next = prev.update(prev.len() - 1, prev.last().push(b));
            assert(next.drop_last() =~= prev.drop_last());
            assert(line@.subrange(start as int, i as int).push(b) =~= line@.subrange(
                start as int,
                i + 1,
            ));
        }
        i = i + 1;
    }
    let ghost all = pieces(line@, true);
    assert(line@.take(line.len() as int) =~= line@);
    assert(all =~= all.drop_last().push(all.last()));
    if line.len() > start {
        out.push(&line[start..line.len()]);
    }
    out
}

/// Index of the first `b` in `s`.
pub fn position(s: &[u8], b: u8) -> (r: Option<usize>)
    ensures
        match r {
            Some(k) => find(s@, b) == Some(k as nat),
            None => find(s@, b) is None,
        },
{
    let mut i: usize = 0;
    while i < s.len()
        invariant
            i <= s.len(),
            forall|k: int| 0 <= k < i ==> s@[k] != b,
        decreases s.len() - i,
    {
        if s[i] == b {
            proof {
                lemma_find_at(s@, b, i as int);
            }
            return Some(i);
        }
        i = i + 1;
    }
    proof {
        lemma_find_none(s@, b);
    }
    None
}

proof fn lemma_find_at(s: Seq<u8>, b: u8, i: int)
    requires
        0 <= i < s.len(),
        s[i] == b,
        forall|k: int| 0 <= k < i ==> s[k] != b,
    ensures
        find(s, b) == Some(i as nat),
    decreases i,
{
    if i > 0 {
        let t = s.skip(1);
        assert forall|k: int| 0 <= k < i - 1 implies t[k] != b by {
            assert(t[k] == s[k + 1]);
        }
        lemma_find_at(t, b, i - 1);
    }
}

proof fn lemma_find_none(s: Seq<u8>, b: u8)
    requires
        forall|k: int| 0 <= k < s.len() ==> s[k] != b,
    ensures
        find(s, b) is None,
    decreases s.len(),
{
    if s.len() > 0 {
        let t = s.skip(1);
        assert forall|k: int| 0 <= k < t.len() implies t[k] != b by {
            assert(t[k] == s[k + 1]);
        }
        lemma_find_none(t, b);
    }
}

/// Where `find` answers, the byte is there and not before.
pub proof fn lemma_find_some(s: Seq<u8>, b: u8)
    ensures
        match find(s, b) {
            Some(k) => k < s.len() && s[k as int] == b && forall|m: int| 0 <= m < k ==> s[m] != b,
            None => forall|m: int| 0 <= m < s.len() ==> s[m] != b,
        },
    decreases s.len(),
{
    if s.len() > 0 {
        let t = s.skip(1);
        lemma_find_some(t, b);
        if s[0] != b {
            match find(t, b) {
                Some(k) => {
                    assert forall|m: int| 0 <= m < k + 1 implies s[m] != b by {
                        if m > 0 {
                            assert(s[m] == t[m - 1]);
                        }
                    }
                },
                None => {
                    assert forall|m: int| 0 <= m < s.len() implies s[m] != b by {
                        if m > 0 {
                            assert(s[m] == t[m - 1]);
                        }
                    }
                },
            }
        }
    }
}

/// `s` begins with the bytes of `p`.
pub fn has_prefix(s: &[u8], p: &[u8]) -> (r: bool)
    ensures
        r == starts_with(s@, p@),
{
    if p.len() > s.len() {
        return false;
    }
    let mut i: usize = 0;
    while i < p.len()
        invariant
            p.len() <= s.len(),
            i <= p.len(),
            forall|k: int| 0 <= k < i ==> s@[k] == p@[k],
        decreases p.len() - i,
    {
        if s[i] != p[i] {
            assert(s@.take(p.len() as int)[i as int] != p@[i as int]);
            return false;
        }
        i = i + 1;
    }
    assert(s@.take(p.len() as int) =~= p@);
    true
}

/// Two byte strings are equal.
pub fn bytes_eq(a: &[u8], b: &[u8]) -> (r: bool)
    ensures
        r == (a@ == b@),
{
    if a.len() != b.len() {
        return false;
    }
    let r = has_prefix(a, b);
    assert(a@.take(b.len() as int) =~= a@);
    r
}

/// A decimal with two fractional digits, such as `0.08` or `12.34`, in
/// hundredths: `None` without a dot, with fewer than two bytes after it, or on
/// overflow.
pub fn parse_centi(f: &[u8]) -> (r: Option<u64>)
    ensures
        r == spec_parse_centi(f@),
{
    let dot = match position(f, 46) {
        Some(d) => d,
        None => return None,
    };
    proof {
        lemma_find_some(f@, 46);
    }
    let head = &f[0..dot];
    assert(head@ =~= f@.take(dot as int));
    let whole = match parse_u64(head) {
        Some(w) => w,
        None => return None,
    };
    if f.len() < 3 || dot > f.len() - 3 {
        return None;
    }
    let frac = &f[dot + 1..dot + 3];
    let cents = match parse_u64(frac) {
        Some(c) => c,
        None => return None,
    };
    match whole.checked_mul(100) {
        Some(m) => m.checked_add(cents),
        None => None,
    }
}

/// Joins lines back with line feeds between them.
pub open spec fn join_lines(ls: Seq<Seq<u8>>) -> Seq<u8>
    decreases ls.len(),
{
    if ls.len() <= 1 {
        if ls.len() == 1 {
            ls[0]
        } else {
            Seq::empty()
        }
    } else {
        join_lines(ls.drop_last()) + seq![10u8] + ls.last()
    }
}

proof fn lemma_join_update_last(ls: Seq<Seq<u8>>, b: u8)
    requires
        ls.len() >= 1,
    ensures
        join_lines(ls.update(ls.len() - 1, ls.last().push(b))) == join_lines(ls).push(b),
{
    let u = ls.update(ls.len() - 1, ls.last().push(b));
    if ls.len() > 1 {
        assert(u.drop_last() =~= ls.drop_last());
        assert(join_lines(u) =~= join_lines(ls).push(b));
    } else {
        assert(join_lines(u) =~= join_lines(ls).push(b));
    }
}

/// Splitting into lines loses nothing: the lines joined with line feeds are
/// the input again, and no line holds a line feed.
pub proof fn law_lines_rejoin(s: Seq<u8>)
    ensures
        join_lines(spec_lines(s)) == s,
        forall|k: int, m: int|
            0 <= k < spec_lines(s).len() && 0 <= m < spec_lines(s)[k].len() ==> #[trigger] spec_lines(
                s,
            )[k][m] != 10,
    decreases s.len(),
{
    if s.len() > 0 {
        let prev = spec_lines(s.drop_last());
        law_lines_rejoin(s.drop_last());
        lemma_pieces_len(s.drop_last(), false);
        if s.last() == 10 {
            assert(prev.push(Seq::<u8>::empty()).drop_last() =~= prev);
            assert(join_lines(spec_lines(s)) =~= s.drop_last() + seq![10u8]);
            assert(s =~= s.drop_last() + seq![10u8]);
            assert forall|k: int, m: int|
                0 <= k < spec_lines(s).len() && 0 <= m < spec_lines(s)[k].len() implies #[trigger] spec_lines(
                s,
            )[k][m] != 10 by {
                assert(spec_lines(s)[k] == prev[k]);
            }
        } else {
            lemma_join_update_last(prev, s.last());
            assert(s =~= s.drop_last().push(s.last()));
            assert forall|k: int, m: int|
                0 <= k < spec_lines(s).len() && 0 <= m < spec_lines(s)[k].len() implies #[trigger] spec_lines(
                s,
            )[k][m] != 10 by {
                if k < prev.len() - 1 {
                    assert(spec_lines(s)[k] == prev[k]);
                } else {
                    assert(spec_lines(s)[k] == prev.last().push(s.last()));
                    if m < prev.last().len() {
                        assert(spec_lines(s)[k][m] == prev[k][m]);
                    }
                }
            }
        }
    }
}

proof fn lemma_nonempty_members(ss: Seq<Seq<u8>>)
    ensures
        forall|k: int| 0 <= k < nonempty(ss).len() ==> exists|j: int|
            0 <= j < ss.len() && #[trigger] nonempty(ss)[k] == ss[j],
        forall|k: int| 0 <= k < nonempty(ss).len() ==> #[trigger] nonempty(ss)[k].len() > 0,
    decreases ss.len(),
{
    if ss.len() > 0 {
        lemma_nonempty_members(ss.drop_last());
        let p = nonempty(ss.drop_last());
        assert forall|k: int| 0 <= k < nonempty(ss).len() implies exists|j: int|
            0 <= j < ss.len() && #[trigger] nonempty(ss)[k] == ss[j] by {
            if k < p.len() {
                let j = choose|j: int| 0 <= j < ss.drop_last().len() && p[k] == ss.drop_last()[j];
                assert(nonempty(ss)[k] == ss[j]);
            } else {
                assert(nonempty(ss)[k] == ss[ss.len() - 1]);
            }
        }
    }
}

proof fn lemma_pieces_no_sep(s: Seq<u8>, ws: bool)
    ensures
        forall|k: int, m: int|
            0 <= k < pieces(s, ws).len() && 0 <= m < pieces(s, ws)[k].len() ==> !is_sep(
                #[trigger] pieces(s, ws)[k][m],
                ws,
            ),
    decreases s.len(),
{
    if s.len() > 0 {
        lemma_pieces_no_sep(s.drop_last(), ws);
        lemma_pieces_len(s.drop_last(), ws);
        let prev = pieces(s.drop_last(), ws);
        assert forall|k: int, m: int|
            0 <= k < pieces(s, ws).len() && 0 <= m < pieces(s, ws)[k].len() implies !is_sep(
            #[trigger] pieces(s, ws)[k][m],
            ws,
        ) by {
            if k < prev.len() - 1 {
                assert(pieces(s, ws)[k] == prev[k]);
            } else if k == prev.len() - 1 {
                if !is_sep(s.last(), ws) {
                    if m < prev.last().len() {
                        assert(pieces(s, ws)[k][m] == prev[k][m]);
                    }
                } else {
                    assert(pieces(s, ws)[k] == prev[k]);
                }
            }
        }
    }
}

/// The first piece of `s` is what precedes its first separator, at `n`, and
/// there is a second piece exactly when `s` has a separator.
pub proof fn lemma_first_piece(s: Seq<u8>, ws: bool, n: int)
    requires
        0 <= n <= s.len(),
        forall|m: int| 0 <= m < n ==> !is_sep(#[trigger] s[m], ws),
        n == s.len() || is_sep(s[n], ws),
    ensures
        pieces(s, ws)[0] == s.take(n),
        n == s.len() ==> pieces(s, ws).len() == 1,
        n < s.len() ==> pieces(s, ws).len() >= 2,
    decreases s.len(),
{
    if s.len() > 0 {
        let d = s.drop_last();
        let prev = pieces(d, ws);
        lemma_pieces_len(d, ws);
        if n == s.len() {
            lemma_first_piece(d, ws, d.len() as int);
            assert(d.take(d.len() as int) =~= d);
            assert(s.take(n) =~= d.push(s.last()));
        } else if n == s.len() - 1 {
            lemma_first_piece(d, ws, n);
            assert(d.take(n) =~= d);
            assert(s.take(n) =~= d);
        } else {
            lemma_first_piece(d, ws, n);
            assert(d.take(n) =~= s.take(n));
        }
    }
}

proof fn lemma_pieces_concat(x: Seq<u8>, y: Seq<u8>, ws: bool)
    ensures
        pieces(x + y, ws) == pieces(x, ws).drop_last() + seq![pieces(x, ws).last() + pieces(y, ws)[0]]
            + pieces(y, ws).skip(1),
    decreases y.len(),
{
    lemma_pieces_len(x, ws);
    lemma_pieces_len(y, ws);
    let px = pieces(x, ws);
    if y.len() == 0 {
        assert(x + y =~= x);
        assert(px.last() + pieces(y, ws)[0] =~= px.last());
        assert(px.drop_last() + seq![px.last()] + pieces(y, ws).skip(1) =~= px);
    } else {
        let z = y.drop_last();
        let b = y.last();
        lemma_pieces_concat(x, z, ws);
        lemma_pieces_len(z, ws);
        let pz = pieces(z, ws);
        let p = pieces(x + z, ws);
        assert((x + y).drop_last() =~= x + z);
        assert((x + y).last() == b);
        if is_sep(b, ws) {
            assert(pieces(x + y, ws) == p.push(Seq::<u8>::empty()));
            assert(pieces(y, ws) == pz.push(Seq::<u8>::empty()));
            assert(pieces(y, ws)[0] == pz[0]);
            assert(pieces(y, ws).skip(1) =~= pz.skip(1).push(Seq::<u8>::empty()));
            assert(pieces(x + y, ws) =~= px.drop_last() + seq![px.last() + pieces(y, ws)[0]]
                + pieces(y, ws).skip(1));
        } else {
            assert(pieces(x + y, ws) == p.update(p.len() - 1, p.last().push(b)));
            assert(pieces(y, ws) == pz.update(pz.len() - 1, pz.last().push(b)));
            if pz.len() == 1 {
                assert(pieces(y, ws)[0] == pz[0].push(b));
                assert(pieces(y, ws).skip(1) =~= Seq::<Seq<u8>>::empty());
                assert(pz.skip(1) =~= Seq::<Seq<u8>>::empty());
                assert(px.last() + pz[0].push(b) =~= (px.last() + pz[0]).push(b));
                assert(pieces(x + y, ws) =~= px.drop_last() + seq![px.last() + pieces(y, ws)[0]]
                    + pieces(y, ws).skip(1));
            } else {
                assert(pieces(y, ws)[0] == pz[0]);
                assert(pieces(y, ws).skip(1) =~= pz.skip(1).update(
                    pz.len() - 2,
                    pz.last().push(b),
                ));
                assert(pieces(x + y, ws) =~= px.drop_last() + seq![px.last() + pieces(y, ws)[0]]
                    + pieces(y, ws).skip(1));
            }
        }
    }
}

proof fn lemma_nonempty_concat(p: Seq<Seq<u8>>, q: Seq<Seq<u8>>)
    ensures
        nonempty(p + q) == nonempty(p) + nonempty(q),
    decreases q.len(),
{
    if q.len() == 0 {
        assert(p + q =~= p);
        assert(nonempty(p) + nonempty(q) =~= nonempty(p));
    } else {
        lemma_nonempty_concat(p, q.drop_last());
        assert((p + q).drop_last() =~= p + q.drop_last());
        assert((p + q).last() == q.last());
        if q.last().len() > 0 {
            assert(nonempty(p) + nonempty(q) =~= (nonempty(p) + nonempty(q.drop_last())).push(q.last()));
        }
    }
}

/// A leading space changes no field.
pub proof fn lemma_fields_after_space(z: Seq<u8>)
    ensures
        spec_fields(seq![32u8] + z) == spec_fields(z),
{
    let sp = seq![32u8];
    lemma_pieces_concat(sp, z, true);
    lemma_pieces_len(z, true);
    let pz = pieces(z, true);
    assert(sp.drop_last() =~= Seq::<u8>::empty());
    assert(pieces(sp.drop_last(), true) =~= seq![Seq::<u8>::empty()]);
    assert(pieces(sp, true) =~= seq![Seq::<u8>::empty(), Seq::<u8>::empty()]);
    assert(Seq::<u8>::empty() + pz[0] =~= pz[0]);
    assert(pieces(sp + z, true) =~= seq![Seq::<u8>::empty()] + pz);
    lemma_nonempty_concat(seq![Seq::<u8>::empty()], pz);
    assert(seq![Seq::<u8>::empty()].drop_last() =~= Seq::<Seq<u8>>::empty());
    assert(nonempty(Seq::<Seq<u8>>::empty()) =~= Seq::<Seq<u8>>::empty());
    assert(nonempty(seq![Seq::<u8>::empty()]) =~= Seq::<Seq<u8>>::empty());
    assert(Seq::<Seq<u8>>::empty() + nonempty(pz) =~= nonempty(pz));
}

/// The fields of a word followed by text that is empty or starts with
/// whitespace: the word, then the fields of that text.
pub proof fn lemma_fields_after_word(w: Seq<u8>, y: Seq<u8>)
    requires
        w.len() > 0,
        forall|m: int| 0 <= m < w.len() ==> !is_ascii_ws(#[trigger] w[m]),
        y.len() == 0 || is_ascii_ws(y[0]),
    ensures
        spec_fields(w + y) == seq![w] + spec_fields(y),
{
    assert forall|m: int| 0 <= m < w.len() implies !is_sep(#[trigger] w[m], true) by {}
    lemma_first_piece(w, true, w.len() as int);
    assert(w.take(w.len() as int) =~= w);
    lemma_pieces_concat(w, y, true);
    lemma_pieces_len(y, true);
    let py = pieces(y, true);
    if y.len() == 0 {
        assert(py =~= seq![Seq::<u8>::empty()]);
    } else {
        lemma_first_piece(y, true, 0);
    }
    assert(py[0] =~= Seq::<u8>::empty());
    assert(w + py[0] =~= w);
    assert(pieces(w, true).drop_last() =~= Seq::<Seq<u8>>::empty());
    assert(pieces(w + y, true) =~= seq![w] + py.skip(1));
    assert(py =~= seq![py[0]] + py.skip(1));
    lemma_nonempty_concat(seq![w], py.skip(1));
    lemma_nonempty_concat(seq![py[0]], py.skip(1));
    assert(seq![w].drop_last() =~= Seq::<Seq<u8>>::empty());
    assert(seq![py[0]].drop_last() =~= Seq::<Seq<u8>>::empty());
    assert(nonempty(Seq::<Seq<u8>>::empty()) =~= Seq::<Seq<u8>>::empty());
    assert(seq![w].last() == w);
    assert(nonempty(seq![w]) =~= seq![w]);
    assert(nonempty(seq![py[0]]) =~= Seq::<Seq<u8>>::empty());
    assert(seq![w] + nonempty(py.skip(1)) =~= seq![w] + nonempty(py));
}

/// Every field is non-empty and holds no ASCII whitespace.
pub proof fn law_fields_are_words(s: Seq<u8>)
    ensures
        forall|k: int| 0 <= k < spec_fields(s).len() ==> #[trigger] spec_fields(s)[k].len() > 0,
        forall|k: int, m: int|
            0 <= k < spec_fields(s).len() && 0 <= m < spec_fields(s)[k].len() ==> !is_ascii_ws(
                #[trigger] spec_fields(s)[k][m],
            ),
{
    lemma_nonempty_members(pieces(s, true));
    lemma_pieces_no_sep(s, true);
    assert forall|k: int, m: int|
        0 <= k < spec_fields(s).len() && 0 <= m < spec_fields(s)[k].len() implies !is_ascii_ws(
        #[trigger] spec_fields(s)[k][m],
    ) by {
        let j = choose|j: int| 0 <= j < pieces(s, true).len() && spec_fields(s)[k] == pieces(s, true)[j];
        assert(!is_sep(pieces(s, true)[j][m], true));
    }
}

/// The number read depends on the leading digits alone: whatever follows the
/// first non-digit byte is never looked at.
pub proof fn law_parse_stops_at_non_digit(s: Seq<u8>, rest: Seq<u8>)
    requires
        s.len() > 0,
        !is_digit(s.last()),
    ensures
        spec_parse_u64(s + rest) == spec_parse_u64(s),
{
    let n = digit_run(s);
    lemma_run_bound(s, 0);
    let t = s + rest;
    if (n as int) == s.len() {
        assert(is_digit(s[s.len() - 1]));
    }
    assert forall|k: int| 0 <= k < n implies is_digit(#[trigger] t[k]) by {
        assert(t[k] == s[k]);
    }
    lemma_digit_run(t, n as int);
    lemma_digit_run(s, n as int);
    assert(t.take(n as int) =~= s.take(n as int));
}

/// Index of the first NUL or line feed in `s`, or its length.
pub open spec fn first_break(s: Seq<u8>) -> nat
    decreases s.len(),
{
    if s.len() == 0 {
        0
    } else if s[0] == 0 || s[0] == 10 {
        0
    } else {
        1 + first_break(s.skip(1))
    }
}

proof fn lemma_first_break(s: Seq<u8>, i: int)
    requires
        0 <= i <= s.len(),
        forall|k: int| 0 <= k < i ==> #[trigger] s[k] != 0 && s[k] != 10,
        i == s.len() || s[i] == 0 || s[i] == 10,
    ensures
        first_break(s) == i,
    decreases i,
{
    if i > 0 {
        let t = s.skip(1);
        assert forall|k: int| 0 <= k < i - 1 implies #[trigger] t[k] != 0 && t[k] != 10 by {
            assert(t[k] == s[k + 1]);
        }
        lemma_first_break(t, i - 1);
    }
}

/// Length of the text before the first NUL or line feed.
pub fn line_end(s: &[u8]) -> (r: usize)
    ensures
        r == first_break(s@),
        r <= s.len(),
{
    let mut i: usize = 0;
    while i < s.len() && s[i] != 0 && s[i] != 10
        invariant
            i <= s.len(),
            forall|k: int| 0 <= k < i ==> #[trigger] s@[k] != 0 && s@[k] != 10,
        decreases s.len() - i,
    {
        i = i + 1;
    }
    proof {
        lemma_first_break(s@, i as int);
    }
    i
}

/// The text of a one-line sysfs or procfs file: what precedes the first NUL
/// or line feed, decoded with invalid UTF-8 replaced.
pub fn line_text(raw: &[u8]) -> (r: String)
    ensures
        r@ == lossy_utf8(raw@.take(first_break(raw@) as int)),
        valid_utf8(raw@.take(first_break(raw@) as int)) ==> r@ == decode_utf8(
            raw@.take(first_break(raw@) as int),
        ),
{
    let end = line_end(raw);
    let head = &raw[0..end];
    assert(head@ =~= raw@.take(end as int));
    utf8_lossy(head)
}

} // verus!
