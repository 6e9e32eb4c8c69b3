//! Calendar dates and the `"START..END"` range syntax of the
//! modification-date filter.

use chrono::Datelike;
use vstd::prelude::*;

use crate::strutil::{trim, trim_spec};

verus! {

/// A calendar date as plain year, month and day numbers.
#[derive(Clone, Copy, PartialEq, Eq, Structural, Debug)]
pub struct Date {
    pub year: i32,
    pub month: u32,
    pub day: u32,
}

/// Chronological order on dates (years, then months, then days).
pub open spec fn spec_date_le(a: Date, b: Date) -> bool {
    if a.year != b.year {
        a.year < b.year
    } else if a.month != b.month {
        a.month < b.month
    } else {
        a.day <= b.day
    }
}

pub fn date_le(a: &Date, b: &Date) -> (r: bool)
    ensures
        r == spec_date_le(*a, *b),
{
    if a.year != b.year {
        a.year < b.year
    } else if a.month != b.month {
        a.month < b.month
    } else {
        a.day <= b.day
    }
}

/// What chrono's `NaiveDate::parse_from_str` with format `"%Y-%m-%d"` yields
/// on a given string; the result is a function of the characters alone.
pub uninterp spec fn ymd_parse(s: Seq<char>) -> Option<Date>;

/// Relies on chrono's `NaiveDate::parse_from_str` with the `"%Y-%m-%d"`
/// format: it is deterministic in its input text, never panics, and a parsed
/// `NaiveDate` always carries a month in 1..=12 and a day in 1..=31.
#[verifier::external_body]
fn parse_ymd(s: &str) -> (r: Option<Date>)
    ensures
        r == ymd_parse(s@),
        r matches Some(d) ==> 1 <= d.month <= 12 && 1 <= d.day <= 31,
{
    match chrono::NaiveDate::parse_from_str(s, "%Y-%m-%d") {
        Ok(d) => Some(Date { year: d.year(), month: d.month(), day: d.day() }),
        Err(_) => None,
    }
}

// ---------------------------------------------------------------------------
// the ".." separator
// ---------------------------------------------------------------------------

/// Index of the first `".."` in `s`, or none.
pub open spec fn sep_pos(s: Seq<char>) -> Option<int>
    decreases s.len(),
{
    if s.len() < 2 {
        None
    } else if s[0] == '.' && s[1] == '.' {
        Some(0)
    } else {
        match sep_pos(s.drop_first()) {
            Some(i) => Some(i + 1),
            None => None,
        }
    }
}

proof fn lemma_sep_pos_found(s: Seq<char>, i: int)
    requires
        0 <= i,
        i + 1 < s.len(),
        forall|j: int| 0 <= j < i ==> !(#[trigger] s[j] == '.' && s[j + 1] == '.'),
        s[i] == '.' && s[i + 1] == '.',
    ensures
        sep_pos(s) == Some(i),
    decreases i,
{
    if i == 0 {
    } else {
        lemma_sep_pos_found(s.drop_first(), i - 1);
    }
}

proof fn lemma_sep_pos_none(s: Seq<char>)
    requires
        forall|j: int| 0 <= j && j + 1 < s.len() ==> !(#[trigger] s[j] == '.' && s[j + 1] == '.'),
    ensures
        sep_pos(s) is None,
    decreases s.len(),
{
    if s.len() >= 2 {
        lemma_sep_pos_none(s.drop_first());
    }
}

/// Finds the first `".."` in `s`, as `sep_pos` describes.
#[verifier::loop_isolation(false)]
fn find_sep(s: &str) -> (r: Option<usize>)
    ensures
        match r {
            Some(i) => sep_pos(s@) == Some(i as int) && i + 2 <= s@.len(),
            None => sep_pos(s@) is None,
        },
{
    let n = s.unicode_len();
    if n < 2 {
        proof {
            lemma_sep_pos_none(s@);
        }
        return None;
    }
    let mut i: usize = 0;
    while i + 1 < n
        invariant
            0 <= i,
            i + 1 <= n,
            forall|j: int| 0 <= j < i ==> !(#[trigger] s@[j] == '.' && s@[j + 1] == '.'),
        decreases n - i,
    {
        if s.get_char(i) == '.' && s.get_char(i + 1) == '.' {
            proof {
                lemma_sep_pos_found(s@, i as int);
            }
            return Some(i);
        }
        i = i + 1;
    }
    proof {
        lemma_sep_pos_none(s@);
    }
    None
}

// ---------------------------------------------------------------------------
// the range parser
// ---------------------------------------------------------------------------

/// What `parse_date_range` returns: the text must split on a single `".."`
/// into exactly two parts, and each part, whitespace-trimmed, must parse as a
/// `YYYY-MM-DD` date. An inverted range is accepted.
pub open spec fn spec_parse_date_range(s: Seq<char>) -> Option<(Date, Date)> {
    match sep_pos(s) {
        None => None,
        Some(i) => {
            let left = s.subrange(0, i);
            let right = s.subrange(i + 2, s.len() as int);
            if sep_pos(right) is Some {
                None
            } else {
                match (ymd_parse(trim_spec(left)), ymd_parse(trim_spec(right))) {
                    (Some(a), Some(b)) => Some((a, b)),
                    _ => None,
                }
            }
        },
    }
}

/// Splits a `"START..END"` token into its two calendar dates; `None` when the
/// separator does not split the text in exactly two or either date is
/// malformed.
pub fn parse_date_range(range: &str) -> (r: Option<(Date, Date)>)
    ensures
        r == spec_parse_date_range(range@),
{
    let n = range.unicode_len();
    let i = match find_sep(range) {
        Some(i) => i,
        None => {
            return None;
        },
    };
    let left = range.substring_char(0, i);
    let right = range.substring_char(i + 2, n);
    if let Some(_) = find_sep(right) {
        return None;
    }
    let lt = trim(left);
    let rt = trim(right);
    let a = match parse_ymd(lt) {
        Some(a) => a,
        None => {
            return None;
        },
    };
    let b = match parse_ymd(rt) {
        Some(b) => b,
        None => {
            return None;
        },
    };
    Some((a, b))
}

} // verus!
