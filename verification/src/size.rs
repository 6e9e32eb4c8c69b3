//! Parsing of human-entered size strings ("10KB", "1.5GB", "500") into byte
//! counts, and the inverse rendering of byte counts for display.
//!
//! A size string is whitespace-trimmed; its leading run of ASCII digits and
//! dots is read as a decimal magnitude (at least one digit, at most one dot),
//! and a case-insensitive `KB`/`MB`/`GB` suffix scales it by the matching
//! power of 1024. The exact product is truncated to whole bytes and saturates
//! at `u64::MAX`.

use vstd::arithmetic::div_mod::{
    lemma_div_denominator, lemma_div_is_ordered, lemma_div_is_ordered_by_denominator,
    lemma_div_multiples_vanish, lemma_div_pos_is_pos, lemma_hoist_over_denominator,
};
use vstd::arithmetic::mul::lemma_mul_upper_bound;
use vstd::prelude::*;

use crate::strutil::{
    digit_char, digit_value, is_ascii_digit, is_digit_exec, spec_dec, trim, trim_left, trim_right,
    trim_spec, upper_char, upper_char_exec,
};

verus! {

pub const KB: u64 = 1024;

pub const MB: u64 = 1048576;

pub const GB: u64 = 1073741824;

// ---------------------------------------------------------------------------
// the grammar of a size string
// ---------------------------------------------------------------------------

/// Characters that may appear in the numeric magnitude.
pub open spec fn is_num_char(c: char) -> bool {
    is_ascii_digit(c) || c == '.'
}

/// Length of the leading run of digits and dots.
pub open spec fn numeric_prefix_len(s: Seq<char>) -> int
    decreases s.len(),
{
    if s.len() > 0 && is_num_char(s[0]) {
        1 + numeric_prefix_len(s.drop_first())
    } else {
        0
    }
}

/// Index of the first dot, or the length when there is none.
pub open spec fn dot_pos(p: Seq<char>) -> int
    decreases p.len(),
{
    if p.len() == 0 {
        0
    } else if p[0] == '.' {
        0
    } else {
        1 + dot_pos(p.drop_first())
    }
}

pub open spec fn has_digit(p: Seq<char>) -> bool {
    exists|j: int| 0 <= j < p.len() && is_ascii_digit(#[trigger] p[j])
}

pub open spec fn at_most_one_dot(p: Seq<char>) -> bool {
    forall|j: int, k: int|
        0 <= j < p.len() && 0 <= k < p.len() && #[trigger] p[j] == '.' && #[trigger] p[k] == '.'
            ==> j == k
}

/// A magnitude the original float parser accepts: some digit, at most one dot.
pub open spec fn valid_magnitude(p: Seq<char>) -> bool {
    has_digit(p) && at_most_one_dot(p)
}

/// Value of a digit run, most significant digit first.
pub open spec fn digits_val(ds: Seq<char>) -> int
    decreases ds.len(),
{
    if ds.len() == 0 {
        0
    } else {
        digits_val(ds.drop_last()) * 10 + digit_value(ds.last())
    }
}

pub open spec fn pow10(k: nat) -> int
    decreases k,
{
    if k == 0 {
        1
    } else {
        10 * pow10((k - 1) as nat)
    }
}

/// Case-insensitive two-character unit suffix of the trimmed string.
pub open spec fn tier_mult(t: Seq<char>) -> int {
    if t.len() >= 2 && upper_char(t[t.len() - 2]) == 'K' && upper_char(t[t.len() - 1]) == 'B' {
        KB as int
    } else if t.len() >= 2 && upper_char(t[t.len() - 2]) == 'M' && upper_char(t[t.len() - 1])
        == 'B' {
        MB as int
    } else if t.len() >= 2 && upper_char(t[t.len() - 2]) == 'G' && upper_char(t[t.len() - 1])
        == 'B' {
        GB as int
    } else {
        1
    }
}

/// The integer digits of the magnitude `p`.
pub open spec fn int_digits(p: Seq<char>) -> Seq<char> {
    p.subrange(0, dot_pos(p))
}

/// The fraction digits of the magnitude `p` (empty when there is no dot).
pub open spec fn frac_digits(p: Seq<char>) -> Seq<char> {
    if dot_pos(p) < p.len() {
        p.subrange(dot_pos(p) + 1, p.len() as int)
    } else {
        Seq::empty()
    }
}

/// The exact magnitude of `p` scaled by `m` and truncated to an integer:
/// `floor((I.F) * m)` where `I` and `F` are the digit runs around the dot.
pub open spec fn spec_size_val(p: Seq<char>, m: int) -> int {
    digits_val(int_digits(p)) * m + digits_val(frac_digits(p)) * m / pow10(
        frac_digits(p).len() as nat,
    )
}

pub open spec fn clamp_u64(v: int) -> u64 {
    if v > u64::MAX {
        u64::MAX
    } else {
        v as u64
    }
}

/// What `parse_size` returns for any input string.
pub open spec fn spec_parse_size(s: Seq<char>) -> Option<u64> {
    let t = trim_spec(s);
    let p = t.subrange(0, numeric_prefix_len(t));
    if valid_magnitude(p) {
        Some(clamp_u64(spec_size_val(p, tier_mult(t))))
    } else {
        None
    }
}

// ---------------------------------------------------------------------------
// characterization lemmas
// ---------------------------------------------------------------------------

proof fn lemma_numeric_prefix_len_at(s: Seq<char>, i: int)
    requires
        0 <= i <= s.len(),
        forall|j: int| 0 <= j < i ==> is_num_char(#[trigger] s[j]),
        i == s.len() || !is_num_char(s[i]),
    ensures
        numeric_prefix_len(s) == i,
    decreases i,
{
    if i == 0 {
    } else {
        let t = s.drop_first();
        lemma_numeric_prefix_len_at(t, i - 1);
    }
}

proof fn lemma_dot_pos_at(p: Seq<char>, d: int)
    requires
        0 <= d <= p.len(),
        forall|j: int| 0 <= j < d ==> #[trigger] p[j] != '.',
        d == p.len() || p[d] == '.',
    ensures
        dot_pos(p) == d,
    decreases d,
{
    if d > 0 {
        let t = p.drop_first();
        lemma_dot_pos_at(t, d - 1);
    }
}

proof fn lemma_digits_val_nonneg(ds: Seq<char>)
    requires
        forall|j: int| 0 <= j < ds.len() ==> is_ascii_digit(#[trigger] ds[j]),
    ensures
        digits_val(ds) >= 0,
    decreases ds.len(),
{
    if ds.len() > 0 {
        lemma_digits_val_nonneg(ds.drop_last());
    }
}

proof fn lemma_pow10_pos(k: nat)
    ensures
        pow10(k) >= 1,
    decreases k,
{
    if k > 0 {
        lemma_pow10_pos((k - 1) as nat);
    }
}

/// Peeling the most significant digit off a digit run.
proof fn lemma_digits_val_first(ds: Seq<char>)
    requires
        ds.len() > 0,
    ensures
        digits_val(ds) == digit_value(ds[0]) * pow10((ds.len() - 1) as nat) + digits_val(
            ds.drop_first(),
        ),
    decreases ds.len(),
{
    if ds.len() == 1 {
        assert(ds.drop_last() =~= Seq::<char>::empty());
        assert(ds.drop_first() =~= Seq::<char>::empty());
        assert(digits_val(ds) == digits_val(Seq::<char>::empty()) * 10 + digit_value(ds.last()));
        assert(pow10(0) == 1);
        assert(ds.last() == ds[0]);
    } else {
        let dl = ds.drop_last();
        lemma_digits_val_first(dl);
        assert(ds.drop_first().drop_last() =~= dl.drop_first());
        let a = digit_value(ds[0]);
        let p = pow10((dl.len() - 1) as nat);
        let b = digits_val(dl.drop_first());
        assert(digits_val(ds) == (a * p + b) * 10 + digit_value(ds.last()));
        assert((a * p + b) * 10 == a * (10 * p) + b * 10) by (nonlinear_arith);
        assert(pow10((ds.len() - 1) as nat) == 10 * p);
        assert(digits_val(ds.drop_first()) == b * 10 + digit_value(ds.drop_first().last()));
        assert(ds.drop_first().last() == ds.last());
    }
}

/// The right-to-left fold that the executable code uses for the fraction.
spec fn frac_fold(s: Seq<char>, m: int) -> int
    decreases s.len(),
{
    if s.len() == 0 {
        0
    } else {
        (digit_value(s[0]) * m + frac_fold(s.drop_first(), m)) / 10
    }
}

/// The fold computes the truncated scaled fraction exactly.
proof fn lemma_frac_fold_div(s: Seq<char>, m: int)
    requires
        m >= 1,
        forall|j: int| 0 <= j < s.len() ==> is_ascii_digit(#[trigger] s[j]),
    ensures
        frac_fold(s, m) == digits_val(s) * m / pow10(s.len() as nat),
    decreases s.len(),
{
    if s.len() == 0 {
        assert(0int / 1int == 0);
    } else {
        let rest = s.drop_first();
        lemma_frac_fold_div(rest, m);
        let d0 = digit_value(s[0]);
        let q = pow10(rest.len() as nat);
        let fr = digits_val(rest);
        lemma_pow10_pos(rest.len() as nat);
        lemma_digits_val_nonneg(rest);
        lemma_digits_val_nonneg(s);
        lemma_mul_upper_bound(fr, fr, m, m);
        assert(fr * m >= 0) by (nonlinear_arith)
            requires fr >= 0 && m >= 1;
        // hoist the integer summand over the denominator
        lemma_hoist_over_denominator(fr * m, d0 * m, q as nat);
        assert(frac_fold(s, m) == ((fr * m + (d0 * m) * q) / q) / 10);
        assert((d0 * m) * q >= 0) by (nonlinear_arith)
            requires d0 >= 0 && m >= 1 && q >= 1;
        lemma_div_denominator(fr * m + (d0 * m) * q, q, 10);
        assert(frac_fold(s, m) == (fr * m + (d0 * m) * q) / (q * 10));
        lemma_digits_val_first(s);
        assert(digits_val(s) == d0 * q + fr);
        assert(digits_val(s) * m == (d0 * m) * q + fr * m) by (nonlinear_arith)
            requires digits_val(s) == d0 * q + fr;
        assert(pow10(s.len() as nat) == 10 * q);
        assert(q * 10 == 10 * q);
    }
}

/// Appending one more digit to the integer accumulator.
proof fn lemma_digits_val_push(ds: Seq<char>, c: char)
    ensures
        digits_val(ds.push(c)) == digits_val(ds) * 10 + digit_value(c),
{
    assert(ds.push(c).drop_last() =~= ds);
    assert(ds.push(c).last() == c);
}

// ---------------------------------------------------------------------------
// the parser
// ---------------------------------------------------------------------------

/// Parses a size string such as `"10KB"`, `"1.5GB"` or `"500"` into a byte
/// count, as `spec_parse_size` describes; returns `None` when the leading
/// numeric magnitude is malformed.
#[verifier::loop_isolation(false)]
pub fn parse_size(s: &str) -> (r: Option<u64>)
    ensures
        r == spec_parse_size(s@),
{
    let t = trim(s);
    let n = t.unicode_len();

    // leading run of digits and dots
    let mut plen: usize = 0;
    let mut any_digit = false;
    while plen < n && (is_digit_exec(t.get_char(plen)) || t.get_char(plen) == '.')
        invariant
            n == t@.len(),
            0 <= plen <= n,
            forall|j: int| 0 <= j < plen ==> is_num_char(#[trigger] t@[j]),
            any_digit == exists|j: int| 0 <= j < plen && is_ascii_digit(#[trigger] t@[j]),
        decreases n - plen,
    {
        if is_digit_exec(t.get_char(plen)) {
            any_digit = true;
        }
        plen = plen + 1;
    }
    proof {
        lemma_numeric_prefix_len_at(t@, plen as int);
    }
    let ghost p = t@.subrange(0, plen as int);

    if !any_digit {
        proof {
            assert(!has_digit(p)) by {
                assert(forall|j: int|
                    0 <= j < p.len() ==> !is_ascii_digit(#[trigger] p[j]) || is_ascii_digit(
                        t@[j],
                    ));
            }
        }
        return None;
    }

    // position of the first dot inside the magnitude
    let mut dp: usize = 0;
    while dp < plen && t.get_char(dp) != '.'
        invariant
            n == t@.len(),
            0 <= dp <= plen <= n,
            forall|j: int| 0 <= j < dp ==> #[trigger] t@[j] != '.',
        decreases plen - dp,
    {
        dp = dp + 1;
    }
    proof {
        assert(forall|j: int| 0 <= j < dp ==> #[trigger] p[j] != '.');
        lemma_dot_pos_at(p, dp as int);
    }

    // a second dot makes the magnitude malformed
    proof {
        assert(p.len() == plen as int);
        assert(forall|x: int| 0 <= x < plen ==> #[trigger] p[x] == t@[x]);
    }
    if dp < plen {
        let mut j: usize = dp + 1;
        while j < plen
            invariant
                n == t@.len(),
                dp < plen <= n,
                dp + 1 <= j,
                forall|k: int| dp < k < j && k < plen ==> #[trigger] t@[k] != '.',
                p == t@.subrange(0, plen as int),
                p[dp as int] == '.',
            decreases plen - j,
        {
            if t.get_char(j) == '.' {
                proof {
                    assert(p[j as int] == t@[j as int]);
                    assert(p[dp as int] == '.' && p[j as int] == '.' && dp != j);
                    assert(!at_most_one_dot(p));
                }
                return None;
            }
            j = j + 1;
        }
    }
    proof {
        assert(at_most_one_dot(p)) by {
            assert(forall|x: int|
                0 <= x < p.len() && #[trigger] p[x] == '.' ==> x == dp as int) by {
                assert(forall|x: int| 0 <= x < dp ==> #[trigger] p[x] != '.');
                assert(forall|x: int| dp < x < p.len() ==> #[trigger] p[x] != '.');
            }
        }
        assert(valid_magnitude(p)) by {
            let w = choose|j: int| 0 <= j < plen && is_ascii_digit(#[trigger] t@[j]);
            assert(p[w] == t@[w]);
            assert(is_ascii_digit(p[w]));
        }
    }

    // unit suffix on the whole trimmed string
    let mult: u64 = if n >= 2 {
        let c1 = upper_char_exec(t.get_char(n - 2));
        let c2 = upper_char_exec(t.get_char(n - 1));
        if c1 == 'K' && c2 == 'B' {
            KB
        } else if c1 == 'M' && c2 == 'B' {
            MB
        } else if c1 == 'G' && c2 == 'B' {
            GB
        } else {
            1
        }
    } else {
        1
    };
    proof {
        assert(mult as int == tier_mult(t@));
    }

    // integer part, saturating past u64::MAX
    let ilen = if dp < plen {
        dp
    } else {
        plen
    };
    proof {
        assert(int_digits(p) =~= t@.subrange(0, ilen as int));
        assert(forall|k: int|
            0 <= k < ilen ==> is_num_char(#[trigger] t@[k]) && t@[k] != '.');
    }
    let mut iv: u128 = 0;
    let mut sat = false;
    let mut i: usize = 0;
    while i < ilen
        invariant
            n == t@.len(),
            0 <= i <= ilen <= plen <= n,
            forall|k: int| 0 <= k < ilen ==> is_ascii_digit(#[trigger] t@[k]),
            !sat ==> iv == digits_val(t@.subrange(0, i as int)) && iv <= u64::MAX,
            sat ==> digits_val(t@.subrange(0, i as int)) > u64::MAX,
        decreases ilen - i,
    {
        let c = t.get_char(i);
        let d = (c as u32 - 48) as u8;
        let ghost before = t@.subrange(0, i as int);
        proof {
            assert(t@.subrange(0, i + 1) =~= before.push(t@[i as int]));
            lemma_digits_val_push(before, t@[i as int]);
            lemma_digits_val_nonneg(before);
        }
        if !sat {
            let next = iv * 10 + (d as u128);
            if next > u64::MAX as u128 {
                sat = true;
                iv = next;
            } else {
                iv = next;
            }
        } else {
            proof {
                let old_val = digits_val(before);
                assert(old_val * 10 + digit_value(t@[i as int]) > u64::MAX) by (nonlinear_arith)
                    requires old_val > u64::MAX && digit_value(t@[i as int]) >= 0;
            }
        }
        i = i + 1;
    }
    let ghost idigits = t@.subrange(0, ilen as int);
    let ghost fdigits = frac_digits(p);
    proof {
        if dp < plen {
            assert(fdigits =~= t@.subrange(dp + 1, plen as int));
            assert(forall|x: int| dp < x < plen ==> is_ascii_digit(#[trigger] t@[x])) by {
                assert(forall|x: int|
                    dp < x < plen ==> is_num_char(#[trigger] t@[x]) && t@[x] != '.');
            }
        } else {
            assert(fdigits =~= Seq::<char>::empty());
        }
        assert(forall|k: int| 0 <= k < fdigits.len() ==> is_ascii_digit(#[trigger] fdigits[k]));
    }

    if sat {
        proof {
            lemma_size_val_saturates(p, mult as int);
        }
        return Some(u64::MAX);
    }
    let mut facc: u64 = 0;
    if dp < plen {
        let mut k: usize = plen;
        while k > dp + 1
            invariant
                n == t@.len(),
                dp < plen <= n,
                dp + 1 <= k <= plen,
                fdigits == t@.subrange(dp + 1, plen as int),
                forall|x: int| dp < x < plen ==> is_ascii_digit(#[trigger] t@[x]),
                mult == KB || mult == MB || mult == GB || mult == 1,
                facc == frac_fold(t@.subrange(k as int, plen as int), mult as int),
                facc <= mult,
            decreases k,
        {
            k = k - 1;
            let c = t.get_char(k);
            proof {
                assert(is_ascii_digit(t@[k as int]));
            }
            let d = (c as u32 - 48) as u64;
            let ghost tail = t@.subrange(k + 1, plen as int);
            let ghost prev = facc as int;
            proof {
                assert(d as int * mult as int <= 9 * mult as int) by (nonlinear_arith)
                    requires d as int <= 9 && mult as int >= 1;
            }
            facc = (d * mult + facc) / 10;
            proof {
                let whole = t@.subrange(k as int, plen as int);
                assert(whole[0] == t@[k as int]);
                assert(whole.drop_first() =~= tail);
                assert(d as int == digit_value(t@[k as int]));
                assert(facc as int == (d as int * mult as int + prev) / 10);
                lemma_div_is_ordered(d as int * mult as int + prev, 10 * mult as int, 10);
                lemma_div_multiples_vanish(mult as int, 10);
            }
        }
        proof {
            assert(t@.subrange(dp + 1, plen as int) == fdigits);
        }
    }
    proof {
        assert(facc as int == frac_fold(fdigits, mult as int));
        lemma_frac_fold_div(fdigits, mult as int);
    }

    // combine, truncate, clamp
    proof {
        lemma_mul_upper_bound(iv as int, u64::MAX as int, mult as int, GB as int);
    }
    let total: u128 = iv * (mult as u128) + (facc as u128);
    proof {
        lemma_digits_val_nonneg(idigits);
        lemma_digits_val_nonneg(fdigits);
        lemma_pow10_pos(fdigits.len() as nat);
        assert(digits_val(fdigits) * mult as int >= 0) by (nonlinear_arith)
            requires digits_val(fdigits) >= 0 && mult as int >= 1;
        lemma_div_pos_is_pos(digits_val(fdigits) * mult as int, pow10(fdigits.len() as nat));
        assert(total as int == spec_size_val(p, mult as int));
    }
    if total > u64::MAX as u128 {
        Some(u64::MAX)
    } else {
        Some(total as u64)
    }
}

/// When the integer digits already exceed `u64::MAX`, the scaled value does too.
proof fn lemma_size_val_saturates(p: Seq<char>, m: int)
    requires
        m >= 1,
        digits_val(int_digits(p)) > u64::MAX,
        forall|j: int| 0 <= j < frac_digits(p).len() ==> is_ascii_digit(#[trigger] frac_digits(p)[j]),
    ensures
        spec_size_val(p, m) > u64::MAX,
        clamp_u64(spec_size_val(p, m)) == u64::MAX,
{
    let iv = digits_val(int_digits(p));
    assert(iv * m >= iv) by (nonlinear_arith)
        requires iv >= 0 && m >= 1;
    lemma_digits_val_nonneg(frac_digits(p));
    lemma_pow10_pos(frac_digits(p).len() as nat);
    assert(digits_val(frac_digits(p)) * m >= 0) by (nonlinear_arith)
        requires digits_val(frac_digits(p)) >= 0 && m >= 1;
    lemma_div_pos_is_pos(digits_val(frac_digits(p)) * m, pow10(frac_digits(p).len() as nat));
}


// ---------------------------------------------------------------------------
// formatting
// ---------------------------------------------------------------------------

/// Hundredths of a unit, rounded to nearest with ties to even.
pub open spec fn spec_hundredths(b: u64, div: u64) -> int {
    let q = (b * 100) / (div as int);
    let r = (b * 100) % (div as int);
    if 2 * r > div {
        q + 1
    } else if 2 * r == div && q % 2 == 1 {
        q + 1
    } else {
        q
    }
}

/// `"<whole>.<dd><unit>"` for one tier.
pub open spec fn spec_tier_str(b: u64, div: u64, unit: Seq<char>) -> Seq<char> {
    let h = spec_hundredths(b, div);
    spec_dec(h / 100) + seq!['.', digit_char((h % 100) / 10), digit_char(h % 10)] + unit
}

/// What `format_size` renders for any byte count.
pub open spec fn spec_format_size(b: u64) -> Seq<char> {
    if b >= GB {
        spec_tier_str(b, GB, "GB"@)
    } else if b >= MB {
        spec_tier_str(b, MB, "MB"@)
    } else if b >= KB {
        spec_tier_str(b, KB, "KB"@)
    } else {
        spec_dec(b as int) + "B"@
    }
}

/// One tier of `format_size`.
#[verifier::loop_isolation(false)]
fn format_tier(b: u64, div: u64, unit: &str) -> (r: String)
    requires
        div == KB || div == MB || div == GB,
        b >= div,
    ensures
        r@ == spec_tier_str(b, div, unit@),
{
    let p: u128 = (b as u128) * 100;
    proof {
        lemma_div_is_ordered_by_denominator(p as int, 1024, div as int);
        lemma_div_is_ordered(p as int, (u64::MAX as int) * 100, 1024);
    }
    let q: u64 = (p / (div as u128)) as u64;
    let r: u64 = (p % (div as u128)) as u64;
    let h: u64 = if 2 * r > div {
        q + 1
    } else if 2 * r == div && q % 2 == 1 {
        q + 1
    } else {
        q
    };
    proof {
        assert(h as int == spec_hundredths(b, div));
    }
    let mut out = crate::strutil::u64_to_string(h / 100);
    out.append(".");
    out.append(crate::strutil::digit_str(((h % 100) / 10) as u8));
    out.append(crate::strutil::digit_str((h % 10) as u8));
    out.append(unit);
    proof {
        reveal_strlit(".");
        assert(out@ =~= spec_tier_str(b, div, unit@));
    }
    out
}

/// Renders a byte count for display: `"X.XXGB"`, `"X.XXMB"` or `"X.XXKB"`
/// with two decimals for counts of at least one unit, else `"<n>B"`.
pub fn format_size(bytes: u64) -> (r: String)
    ensures
        r@ == spec_format_size(bytes),
{
    if bytes >= GB {
        format_tier(bytes, GB, "GB")
    } else if bytes >= MB {
        format_tier(bytes, MB, "MB")
    } else if bytes >= KB {
        format_tier(bytes, KB, "KB")
    } else {
        let mut out = crate::strutil::u64_to_string(bytes);
        out.append("B");
        out
    }
}

// ---------------------------------------------------------------------------
// the whole-unit round trip
// ---------------------------------------------------------------------------

proof fn lemma_spec_dec_digits(n: int)
    requires
        n >= 0,
    ensures
        spec_dec(n).len() >= 1,
        forall|i: int| 0 <= i < spec_dec(n).len() ==> is_ascii_digit(#[trigger] spec_dec(n)[i]),
    decreases n,
{
    if n >= 10 {
        lemma_spec_dec_digits(n / 10);
        assert(forall|i: int|
            0 <= i < spec_dec(n / 10).len() ==> #[trigger] spec_dec(n)[i] == spec_dec(n / 10)[i]);
    }
}

proof fn lemma_digits_val_spec_dec(n: int)
    requires
        n >= 0,
    ensures
        digits_val(spec_dec(n)) == n,
    decreases n,
{
    if n < 10 {
        assert(spec_dec(n) == seq![digit_char(n)]);
        assert(seq![digit_char(n)].drop_last() =~= Seq::<char>::empty());
        assert(seq![digit_char(n)].last() == digit_char(n));
        assert(digits_val(spec_dec(n)) == digits_val(Seq::<char>::empty()) * 10 + digit_value(
            digit_char(n),
        ));
        assert(digit_value(digit_char(n)) == n);
    } else {
        lemma_digits_val_spec_dec(n / 10);
        lemma_digits_val_push(spec_dec(n / 10), digit_char(n % 10));
        assert(digit_value(digit_char(n % 10)) == n % 10);
    }
}

/// Whole-unit size strings round-trip between `parse_size` and `format_size`
/// inside one unit tier: parsing `"<n><unit>"` yields exactly `n` whole
/// units, and formatting that byte count renders `"<n>.00<unit>"`.
pub proof fn lemma_size_round_trip(n: u64, unit: Seq<char>, mult: u64)
    requires
        1 <= n < 1024,
        (unit == "KB"@ && mult == KB) || (unit == "MB"@ && mult == MB) || (unit == "GB"@
            && mult == GB),
    ensures
        spec_parse_size(spec_dec(n as int) + unit) == Some((n * mult) as u64),
        spec_format_size((n * mult) as u64) == spec_dec(n as int) + seq!['.', '0', '0'] + unit,
{
    reveal_strlit("KB");
    reveal_strlit("MB");
    reveal_strlit("GB");
    let d = spec_dec(n as int);
    let s = d + unit;
    lemma_spec_dec_digits(n as int);
    assert(n * mult <= 1023 * GB) by (nonlinear_arith)
        requires n <= 1023 && mult <= GB;

    // parsing
    assert(unit.len() == 2 && unit[1] == 'B');
    assert(trim_spec(s) == s) by {
        assert(s[0] == d[0] && is_ascii_digit(d[0]));
        assert(trim_left(s) == s);
        assert(s.last() == 'B');
        assert(trim_right(s) == s);
    }
    assert(forall|j: int| 0 <= j < d.len() ==> is_num_char(#[trigger] s[j]));
    assert(s[d.len() as int] == unit[0]);
    assert(!is_num_char(unit[0]));
    lemma_numeric_prefix_len_at(s, d.len() as int);
    let p = s.subrange(0, d.len() as int);
    assert(p =~= d);
    assert(valid_magnitude(p)) by {
        assert(is_ascii_digit(p[0]));
        assert(forall|j: int| 0 <= j < p.len() ==> #[trigger] p[j] != '.');
    }
    assert(forall|j: int| 0 <= j < p.len() ==> #[trigger] p[j] != '.');
    lemma_dot_pos_at(p, p.len() as int);
    assert(int_digits(p) =~= d);
    assert(frac_digits(p) =~= Seq::<char>::empty());
    lemma_digits_val_spec_dec(n as int);
    assert(tier_mult(s) == mult as int) by {
        assert(s[s.len() - 2] == unit[0] && s[s.len() - 1] == unit[1]);
        assert(upper_char('K') == 'K' && upper_char('M') == 'M' && upper_char('G') == 'G'
            && upper_char('B') == 'B');
    }
    assert(spec_size_val(p, mult as int) == n * mult) by {
        assert(digits_val(Seq::<char>::empty()) == 0);
        assert(0int * mult == 0) by (nonlinear_arith);
        assert(pow10(0) == 1);
        assert(0int / 1 == 0);
    }
    assert(clamp_u64((n * mult) as int) == (n * mult) as u64);

    // formatting
    let b = (n * mult) as u64;
    assert(b >= mult) by (nonlinear_arith)
        requires n >= 1 && mult >= 1 && b == n * mult;
    assert(b == mult * n) by (nonlinear_arith)
        requires b == n * mult;
    assert(b * 100 == mult * (n * 100)) by (nonlinear_arith)
        requires b == n * mult;
    lemma_div_multiples_vanish(n as int * 100, mult as int);
    vstd::arithmetic::div_mod::lemma_mod_multiples_basic(n as int * 100, mult as int);
    assert(spec_hundredths(b, mult) == n * 100) by {
        assert((b * 100) / (mult as int) == n * 100);
        assert((b * 100) % (mult as int) == 0);
    }
    let h = spec_hundredths(b, mult);
    lemma_div_multiples_vanish(n as int, 100);
    vstd::arithmetic::div_mod::lemma_mod_multiples_basic(n as int, 100);
    assert(h / 100 == n && h % 100 == 0) by {
        assert(h == 100 * (n as int));
    }
    assert(h % 10 == 0) by {
        assert(h == 10 * (10 * (n as int)));
        vstd::arithmetic::div_mod::lemma_mod_multiples_basic(10 * (n as int), 10);
    }
    assert(digit_char(0) == '0');
    if mult == KB {
        assert(b < MB) by (nonlinear_arith)
            requires n < 1024 && b == n * KB;
        assert(spec_format_size(b) == spec_tier_str(b, KB, "KB"@));
    } else if mult == MB {
        assert(b >= MB);
        assert(b < GB) by (nonlinear_arith)
            requires n < 1024 && b == n * MB;
        assert(spec_format_size(b) == spec_tier_str(b, MB, "MB"@));
    } else {
        assert(b >= GB);
        assert(spec_format_size(b) == spec_tier_str(b, GB, "GB"@));
    }
    assert(spec_tier_str(b, mult, unit) == spec_dec(n as int) + seq!['.', '0', '0'] + unit);
}

} // verus!
