//! Character classes, whitespace trimming, decimal rendering and other small
//! string helpers shared by the parsers and the renderers.

use vstd::prelude::*;

verus! {

// ---------------------------------------------------------------------------
// character classes
// ---------------------------------------------------------------------------

/// ASCII whitespace, as `str::trim` treats it for ASCII text.
pub open spec fn is_space(c: char) -> bool {
    c == ' ' || c == '\t' || c == '\n' || c == '\r' || c == '\x0b' || c == '\x0c'
}

pub open spec fn is_ascii_digit(c: char) -> bool {
    48 <= c as int <= 57
}

pub open spec fn digit_value(c: char) -> int
    recommends
        is_ascii_digit(c),
{
    c as int - 48
}

/// ASCII upper-casing of a single character; everything else is unchanged.
pub open spec fn upper_char(c: char) -> char {
    if 97 <= c as int <= 122 {
        ((c as u8) - 32) as char
    } else {
        c
    }
}

pub fn is_space_exec(c: char) -> (r: bool)
    ensures
        r == is_space(c),
{
    c == ' ' || c == '\t' || c == '\n' || c == '\r' || c == '\x0b' || c == '\x0c'
}

pub fn is_digit_exec(c: char) -> (r: bool)
    ensures
        r == is_ascii_digit(c),
{
    let u = c as u32;
    48 <= u && u <= 57
}

pub fn upper_char_exec(c: char) -> (r: char)
    ensures
        r == upper_char(c),
{
    let u = c as u32;
    if 97 <= u && u <= 122 {
        ((c as u8) - 32) as char
    } else {
        c
    }
}

// ---------------------------------------------------------------------------
// trimming
// ---------------------------------------------------------------------------

pub open spec fn trim_left(s: Seq<char>) -> Seq<char>
    decreases s.len(),
{
    if s.len() > 0 && is_space(s[0]) {
        trim_left(s.drop_first())
    } else {
        s
    }
}

pub open spec fn trim_right(s: Seq<char>) -> Seq<char>
    decreases s.len(),
{
    if s.len() > 0 && is_space(s.last()) {
        trim_right(s.drop_last())
    } else {
        s
    }
}

/// The sequence with leading and trailing whitespace removed.
pub open spec fn trim_spec(s: Seq<char>) -> Seq<char> {
    trim_right(trim_left(s))
}

proof fn lemma_trim_left_subrange(s: Seq<char>, lo: int)
    requires
        0 <= lo <= s.len(),
        forall|j: int| 0 <= j < lo ==> is_space(s[j]),
        lo == s.len() || !is_space(s[lo]),
    ensures
        trim_left(s) == s.subrange(lo, s.len() as int),
    decreases lo,
{
    if lo == 0 {
        assert(trim_left(s) == s);
        assert(s.subrange(0, s.len() as int) =~= s);
    } else {
        assert(is_space(s[0]));
        let t = s.drop_first();
        lemma_trim_left_subrange(t, lo - 1);
        assert(t.subrange(lo - 1, t.len() as int) =~= s.subrange(lo, s.len() as int));
    }
}

proof fn lemma_trim_right_subrange(s: Seq<char>, hi: int)
    requires
        0 <= hi <= s.len(),
        forall|j: int| hi <= j < s.len() ==> is_space(s[j]),
        hi == 0 || !is_space(s[hi - 1]),
    ensures
        trim_right(s) == s.subrange(0, hi),
    decreases s.len(),
{
    if s.len() > 0 && is_space(s.last()) {
        let t = s.drop_last();
        assert(hi < s.len());
        lemma_trim_right_subrange(t, hi);
        assert(t.subrange(0, hi) =~= s.subrange(0, hi));
    } else {
        assert(hi == s.len());
        assert(s.subrange(0, hi) =~= s);
    }
}

/// Exact counterpart of `str::trim` for ASCII-whitespace boundaries.
pub fn trim(s: &str) -> (r: &str)
    ensures
        r@ == trim_spec(s@),
{
    let n = s.unicode_len();
    let mut lo: usize = 0;
    while lo < n && is_space_exec(s.get_char(lo))
        invariant
            n == s@.len(),
            0 <= lo <= n,
            forall|j: int| 0 <= j < lo ==> is_space(s@[j]),
        decreases n - lo,
    {
        lo = lo + 1;
    }
    let mut hi: usize = n;
    while hi > lo && is_space_exec(s.get_char(hi - 1))
        invariant
            n == s@.len(),
            0 <= lo <= hi <= n,
            forall|j: int| 0 <= j < lo ==> is_space(s@[j]),
            forall|j: int| hi <= j < n ==> is_space(s@[j]),
        decreases hi,
    {
        hi = hi - 1;
    }
    let r = s.substring_char(lo, hi);
    proof {
        lemma_trim_left_subrange(s@, lo as int);
        let t = s@.subrange(lo as int, s@.len() as int);
        lemma_trim_right_subrange(t, hi - lo);
        assert(t.subrange(0, hi - lo) =~= s@.subrange(lo as int, hi as int));
    }
    r
}

// ---------------------------------------------------------------------------
// decimal rendering
// ---------------------------------------------------------------------------

pub open spec fn digit_char(d: int) -> char
    recommends
        0 <= d <= 9,
{
    ((48 + d) as u8) as char
}

/// Decimal digits of a non-negative integer, most significant first.
pub open spec fn spec_dec(n: int) -> Seq<char>
    recommends
        n >= 0,
    decreases n,
{
    if n < 10 {
        seq![digit_char(n)]
    } else {
        spec_dec(n / 10).push(digit_char(n % 10))
    }
}

pub(crate) fn digit_str(d: u8) -> (r: &'static str)
    requires
        d < 10,
    ensures
        r@ == seq![digit_char(d as int)],
{
    proof {
        reveal_strlit("0");
        reveal_strlit("1");
        reveal_strlit("2");
        reveal_strlit("3");
        reveal_strlit("4");
        reveal_strlit("5");
        reveal_strlit("6");
        reveal_strlit("7");
        reveal_strlit("8");
        reveal_strlit("9");
    }
    let r = match d {
        0 => "0",
        1 => "1",
        2 => "2",
        3 => "3",
        4 => "4",
        5 => "5",
        6 => "6",
        7 => "7",
        8 => "8",
        _ => "9",
    };
    proof {
        assert(r@ =~= seq![digit_char(d as int)]);
    }
    r
}

/// Digit characters of the byte digits in `ds`, least significant first in
/// `ds`, rendered most significant first.
spec fn rev_digit_chars(ds: Seq<u8>) -> Seq<char> {
    Seq::new(ds.len(), |i: int| digit_char(ds[ds.len() - 1 - i] as int))
}

/// Appends the decimal rendering of `n` to `out`.
pub fn append_u64(out: &mut String, n: u64)
    ensures
        final(out)@ == old(out)@ + spec_dec(n as int),
{
    let ghost prefix = out@;
    let mut ds: Vec<u8> = Vec::new();
    let mut m: u64 = n;
    proof {
        assert(spec_dec(n as int) + rev_digit_chars(ds@) =~= spec_dec(n as int));
    }
    loop
        invariant_except_break
            m > 0 || ds@.len() == 0,
        invariant
            forall|k: int| 0 <= k < ds@.len() ==> ds@[k] < 10,
            spec_dec(n as int) == (if m > 0 || ds@.len() == 0 {
                spec_dec(m as int) + rev_digit_chars(ds@)
            } else {
                rev_digit_chars(ds@)
            }),
        ensures
            m == 0,
            ds@.len() > 0,
            spec_dec(n as int) == rev_digit_chars(ds@),
        decreases m, (if ds@.len() == 0 { 1int } else { 0int }),
    {
        let ghost old_ds = ds@;
        let ghost old_m = m as int;
        let d = (m % 10) as u8;
        ds.push(d);
        m = m / 10;
        proof {
            assert(rev_digit_chars(old_ds.push(d)) =~= seq![digit_char(d as int)]
                + rev_digit_chars(old_ds));
            assert(spec_dec(n as int) == spec_dec(old_m) + rev_digit_chars(old_ds));
            if old_m < 10 {
                assert(spec_dec(old_m) == seq![digit_char(old_m)]);
                assert(d as int == old_m);
                assert(m == 0);
                assert(spec_dec(n as int) =~= rev_digit_chars(ds@));
            } else {
                assert(spec_dec(old_m) == spec_dec(old_m / 10).push(digit_char(old_m % 10)));
                assert(spec_dec(old_m / 10).push(digit_char(old_m % 10)) =~= spec_dec(old_m / 10)
                    + seq![digit_char(old_m % 10)]);
                assert(m > 0);
                assert(spec_dec(n as int) =~= spec_dec(m as int) + rev_digit_chars(ds@));
            }
        }
        if m == 0 {
            break;
        }
    }
    let len = ds.len();
    let mut j: usize = len;
    while j > 0
        invariant
            len == ds@.len(),
            0 <= j <= len,
            forall|k: int| 0 <= k < ds@.len() ==> ds@[k] < 10,
            out@ == prefix + rev_digit_chars(ds@).subrange(0, len - j),
        decreases j,
    {
        j = j - 1;
        let ghost before = out@;
        out.append(digit_str(ds[j]));
        proof {
            assert(rev_digit_chars(ds@)[len - j - 1] == digit_char(ds@[j as int] as int));
            assert(before + seq![digit_char(ds@[j as int] as int)] =~= prefix + rev_digit_chars(
                ds@,
            ).subrange(0, len - j));
        }
    }
    proof {
        assert(rev_digit_chars(ds@).subrange(0, len as int) =~= rev_digit_chars(ds@));
    }
}

/// The decimal rendering of `n` as a fresh string.
pub fn u64_to_string(n: u64) -> (r: String)
    ensures
        r@ == spec_dec(n as int),
{
    let mut out = String::new();
    append_u64(&mut out, n);
    proof {
        assert(Seq::<char>::empty() + spec_dec(n as int) =~= spec_dec(n as int));
    }
    out
}

// ---------------------------------------------------------------------------
// sequence containment and suffixes
// ---------------------------------------------------------------------------

/// `pat` occurs contiguously somewhere in `s`.
pub open spec fn contains_seq(s: Seq<char>, pat: Seq<char>) -> bool {
    exists|i: int|
        0 <= i && i + pat.len() <= s.len() && #[trigger] s.subrange(i, i + pat.len()) == pat
}

pub proof fn lemma_contains_prepend(a: Seq<char>, s: Seq<char>, pat: Seq<char>)
    requires
        contains_seq(s, pat),
    ensures
        contains_seq(a + s, pat),
{
    let i = choose|i: int|
        0 <= i && i + pat.len() <= s.len() && #[trigger] s.subrange(i, i + pat.len()) == pat;
    let j = a.len() + i;
    assert((a + s).subrange(j as int, j + pat.len()) =~= s.subrange(i, i + pat.len()));
}

pub proof fn lemma_contains_append(s: Seq<char>, b: Seq<char>, pat: Seq<char>)
    requires
        contains_seq(s, pat),
    ensures
        contains_seq(s + b, pat),
{
    let i = choose|i: int|
        0 <= i && i + pat.len() <= s.len() && #[trigger] s.subrange(i, i + pat.len()) == pat;
    assert((s + b).subrange(i, i + pat.len()) =~= s.subrange(i, i + pat.len()));
}

pub proof fn lemma_contains_trans(a: Seq<char>, b: Seq<char>, pat: Seq<char>)
    requires
        contains_seq(a, b),
        contains_seq(b, pat),
    ensures
        contains_seq(a, pat),
{
    let i = choose|i: int| 0 <= i && i + b.len() <= a.len() && #[trigger] a.subrange(i, i + b.len()) == b;
    let j = choose|j: int|
        0 <= j && j + pat.len() <= b.len() && #[trigger] b.subrange(j, j + pat.len()) == pat;
    assert(a.subrange(i + j, i + j + pat.len()) =~= a.subrange(i, i + b.len()).subrange(
        j,
        j + pat.len(),
    ));
}

pub proof fn lemma_contains_self(s: Seq<char>)
    ensures
        contains_seq(s, s),
{
    assert(s.subrange(0int, 0 + s.len() as int) =~= s);
    assert(0 <= 0int && 0 + s.len() <= s.len() && s.subrange(0int, 0 + s.len() as int) == s);
}

/// `s` ends with the suffix `suf`.
pub open spec fn seq_ends_with(s: Seq<char>, suf: Seq<char>) -> bool {
    s.len() >= suf.len() && s.subrange(s.len() - suf.len(), s.len() as int) == suf
}

/// Character-wise `ends_with` over arbitrary strings.
pub fn str_ends_with(s: &str, suf: &str) -> (r: bool)
    ensures
        r == seq_ends_with(s@, suf@),
{
    let n = s.unicode_len();
    let m = suf.unicode_len();
    if m > n {
        return false;
    }
    let mut j: usize = 0;
    while j < m
        invariant
            n == s@.len(),
            m == suf@.len(),
            m <= n,
            0 <= j <= m,
            forall|k: int| 0 <= k < j ==> s@[n - m + k] == suf@[k],
        decreases m - j,
    {
        if s.get_char(n - m + j) != suf.get_char(j) {
            assert(s@.subrange(n - m, n as int) != suf@) by {
                assert(s@.subrange(n - m, n as int)[j as int] != suf@[j as int]);
            }
            return false;
        }
        j = j + 1;
    }
    proof {
        assert(s@.subrange(n - m, n as int) =~= suf@);
    }
    true
}

} // verus!
