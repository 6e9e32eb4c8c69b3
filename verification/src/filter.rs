//! The per-entry filter predicate set and its fold over a traversal: hidden
//! names, extension equality, size bounds, modification-date range, and the
//! two glob patterns (one a name must match, one it must not). All predicates
//! compose with logical AND; an absent field imposes no constraint.

use vstd::prelude::*;

use crate::dates::{date_le, spec_date_le, Date};

verus! {

// ---------------------------------------------------------------------------
// glob matching, through the `glob` crate
// ---------------------------------------------------------------------------

/// Whether glob's `Pattern::new` accepts a pattern text.
pub uninterp spec fn glob_ok(pat: Seq<char>) -> bool;

/// Whether the pattern, compiled with default match options, matches a name.
pub uninterp spec fn glob_match(pat: Seq<char>, name: Seq<char>) -> bool;

/// Relies on glob's `Pattern::new`: whether a pattern compiles is a pure
/// function of the pattern text, and compiling never panics.
#[verifier::external_body]
fn glob_compiles(pat: &str) -> (r: bool)
    ensures
        r == glob_ok(pat@),
{
    glob::Pattern::new(pat).is_ok()
}

/// Relies on glob's `Pattern::new` and `Pattern::matches`: matching with the
/// default options is a pure function of the pattern and name texts alone.
#[verifier::external_body]
fn glob_matches(pat: &str, name: &str) -> (r: bool)
    requires
        glob_ok(pat@),
    ensures
        r == glob_match(pat@, name@),
{
    match glob::Pattern::new(pat) {
        Ok(p) => p.matches(name),
        Err(_) => false,
    }
}

// ---------------------------------------------------------------------------
// file-name extensions
// ---------------------------------------------------------------------------

/// Index of the last dot that separates an extension: the dot must not be the
/// leading character, so a bare dotfile name has no extension.
pub open spec fn ext_split(name: Seq<char>) -> Option<int>
    decreases name.len(),
{
    if name.len() <= 1 {
        None
    } else if name.last() == '.' {
        Some(name.len() - 1)
    } else {
        ext_split(name.drop_last())
    }
}

/// The extension of a file name: the portion after the final dot, none when
/// there is no dot past the leading character.
pub open spec fn spec_extension(name: Seq<char>) -> Option<Seq<char>> {
    match ext_split(name) {
        None => None,
        Some(i) => Some(name.subrange(i + 1, name.len() as int)),
    }
}

proof fn lemma_ext_split_found(name: Seq<char>, k: int)
    requires
        1 <= k < name.len(),
        name[k] == '.',
        forall|x: int| k < x < name.len() ==> #[trigger] name[x] != '.',
    ensures
        ext_split(name) == Some(k),
    decreases name.len(),
{
    if k == name.len() - 1 {
    } else {
        assert(name.last() != '.');
        lemma_ext_split_found(name.drop_last(), k);
    }
}

proof fn lemma_ext_split_none(name: Seq<char>)
    requires
        forall|x: int| 1 <= x < name.len() ==> #[trigger] name[x] != '.',
    ensures
        ext_split(name) is None,
    decreases name.len(),
{
    if name.len() > 1 {
        lemma_ext_split_none(name.drop_last());
    }
}

/// The extension of a file name, as `spec_extension` describes.
#[verifier::loop_isolation(false)]
pub fn extension_of(name: &str) -> (r: Option<String>)
    ensures
        match r {
            Some(e) => spec_extension(name@) == Some(e@),
            None => spec_extension(name@) is None,
        },
{
    let n = name.unicode_len();
    let mut j: usize = n;
    while j > 1
        invariant
            1 <= j <= n || (j == n && n <= 1),
            forall|x: int| j <= x < n ==> #[trigger] name@[x] != '.',
        decreases j,
    {
        if name.get_char(j - 1) == '.' {
            proof {
                lemma_ext_split_found(name@, j - 1);
            }
            let e = name.substring_char(j, n);
            return Some(e.to_owned());
        }
        j = j - 1;
    }
    proof {
        lemma_ext_split_none(name@);
    }
    None
}

// ---------------------------------------------------------------------------
// the data model
// ---------------------------------------------------------------------------

/// The coarse permission classification of an entry.
#[derive(Clone, Copy, PartialEq, Eq, Structural, Debug)]
pub enum Permission {
    ReadOnly,
    ReadWrite,
}

/// One filesystem entry as the traversal hands it to the filters: plain
/// values read from the entry's path and metadata.
pub struct EntryInfo {
    /// Base file name of the entry.
    pub name: String,
    /// Display path of the entry.
    pub path: String,
    /// Size in bytes; directories carry 0 or whatever the metadata reports.
    pub size: u64,
    pub is_dir: bool,
    pub readonly: bool,
    /// Modification date in UTC, absent when the timestamp is unreadable.
    pub modified_date: Option<Date>,
    /// Local-time rendering of the timestamp, for display only.
    pub modified_display: Option<String>,
}

/// One entry that survived all filters, ready for rendering.
pub struct FileRecord {
    pub path: String,
    pub size: u64,
    pub modified: Option<String>,
    pub is_dir: bool,
    pub permission: Permission,
}

/// The immutable filter configuration; every field is independently optional
/// and an absent field imposes no constraint.
pub struct FilterConfig {
    /// Required extension, compared exactly and without a leading dot.
    pub ext: Option<String>,
    pub min_size: Option<u64>,
    pub max_size: Option<u64>,
    /// Keep entries whose name starts with a dot.
    pub hidden: bool,
    /// Inclusive modification-date range.
    pub range: Option<(Date, Date)>,
    /// Glob the base name must match.
    pub inc_glob: Option<String>,
    /// Glob the base name must not match.
    pub exc_glob: Option<String>,
}

/// Both stored glob patterns compile.
pub open spec fn config_wf(cfg: FilterConfig) -> bool {
    &&& (cfg.inc_glob matches Some(p) ==> glob_ok(p@))
    &&& (cfg.exc_glob matches Some(p) ==> glob_ok(p@))
}

/// The configuration with globs that do not compile dropped, as the original
/// command line does silently.
pub open spec fn spec_sanitize(cfg: FilterConfig) -> FilterConfig {
    FilterConfig {
        ext: cfg.ext,
        min_size: cfg.min_size,
        max_size: cfg.max_size,
        hidden: cfg.hidden,
        range: cfg.range,
        inc_glob: match cfg.inc_glob {
            Some(p) => if glob_ok(p@) {
                Some(p)
            } else {
                None
            },
            None => None,
        },
        exc_glob: match cfg.exc_glob {
            Some(p) => if glob_ok(p@) {
                Some(p)
            } else {
                None
            },
            None => None,
        },
    }
}

fn sanitize_pattern(p: &Option<String>) -> (r: Option<String>)
    ensures
        r == (match *p {
            Some(q) => if glob_ok(q@) {
                Some(q)
            } else {
                None::<String>
            },
            None => None::<String>,
        }),
{
    match p {
        Some(q) => {
            if glob_compiles(q.as_str()) {
                Some(q.clone())
            } else {
                None
            }
        },
        None => None,
    }
}

impl FilterConfig {
    /// A configuration with every constraint absent: nothing is filtered out.
    pub open spec fn unrestricted() -> FilterConfig {
        FilterConfig {
            ext: None,
            min_size: None,
            max_size: None,
            hidden: true,
            range: None,
            inc_glob: None,
            exc_glob: None,
        }
    }

    /// Builds a configuration the way the command line does: a glob pattern
    /// that does not compile is silently dropped.
    pub fn new(
        ext: Option<String>,
        min_size: Option<u64>,
        max_size: Option<u64>,
        hidden: bool,
        range: Option<(Date, Date)>,
        inc_glob: Option<String>,
        exc_glob: Option<String>,
    ) -> (r: FilterConfig)
        ensures
            r == spec_sanitize(
                FilterConfig { ext, min_size, max_size, hidden, range, inc_glob, exc_glob },
            ),
            config_wf(r),
    {
        let inc = sanitize_pattern(&inc_glob);
        let exc = sanitize_pattern(&exc_glob);
        FilterConfig { ext, min_size, max_size, hidden, range, inc_glob: inc, exc_glob: exc }
    }
}

// ---------------------------------------------------------------------------
// the predicate set
// ---------------------------------------------------------------------------

/// An entry passes when every configured predicate accepts it: a dotted name
/// needs the hidden flag; the extension must equal the configured one; the
/// size must lie within the configured bounds; a readable modification date
/// must lie within the configured range (an unreadable one passes); the name
/// must match the required glob and must not match the rejecting glob.
pub open spec fn spec_passes(cfg: FilterConfig, e: EntryInfo) -> bool {
    &&& (e.name@.len() > 0 && e.name@[0] == '.' ==> cfg.hidden)
    &&& (cfg.ext matches Some(x) ==> spec_extension(e.name@) == Some(x@))
    &&& (cfg.min_size matches Some(m) ==> e.size >= m)
    &&& (cfg.max_size matches Some(m) ==> e.size <= m)
    &&& (cfg.range matches Some(r) ==> (e.modified_date matches Some(d) ==> spec_date_le(r.0, d)
        && spec_date_le(d, r.1)))
    &&& (cfg.inc_glob matches Some(p) ==> glob_match(p@, e.name@))
    &&& (cfg.exc_glob matches Some(p) ==> !glob_match(p@, e.name@))
}

/// Evaluates the full predicate set on one entry.
pub fn passes_filters(cfg: &FilterConfig, e: &EntryInfo) -> (r: bool)
    requires
        config_wf(*cfg),
    ensures
        r == spec_passes(*cfg, *e),
{
    let name = e.name.as_str();
    if name.unicode_len() > 0 && name.get_char(0) == '.' && !cfg.hidden {
        return false;
    }
    if let Some(x) = &cfg.ext {
        match extension_of(name) {
            Some(ex) => {
                if !x.eq(&ex) {
                    return false;
                }
            },
            None => {
                return false;
            },
        }
    }
    if let Some(m) = &cfg.min_size {
        if e.size < *m {
            return false;
        }
    }
    if let Some(m) = &cfg.max_size {
        if e.size > *m {
            return false;
        }
    }
    if let Some((start, end)) = &cfg.range {
        if let Some(d) = &e.modified_date {
            if !date_le(start, d) || !date_le(d, end) {
                return false;
            }
        }
    }
    if let Some(p) = &cfg.inc_glob {
        if !glob_matches(p.as_str(), name) {
            return false;
        }
    }
    if let Some(p) = &cfg.exc_glob {
        if glob_matches(p.as_str(), name) {
            return false;
        }
    }
    true
}

/// The record a surviving entry turns into.
pub open spec fn spec_record_of(e: EntryInfo) -> FileRecord {
    FileRecord {
        path: e.path,
        size: e.size,
        modified: e.modified_display,
        is_dir: e.is_dir,
        permission: if e.readonly {
            Permission::ReadOnly
        } else {
            Permission::ReadWrite
        },
    }
}

fn record_of(e: &EntryInfo) -> (r: FileRecord)
    ensures
        r == spec_record_of(*e),
{
    FileRecord {
        path: e.path.clone(),
        size: e.size,
        modified: match &e.modified_display {
            Some(s) => Some(s.clone()),
            None => None,
        },
        is_dir: e.is_dir,
        permission: if e.readonly {
            Permission::ReadOnly
        } else {
            Permission::ReadWrite
        },
    }
}

/// The records of the entries that pass every filter, in traversal order.
pub open spec fn spec_filter_entries(cfg: FilterConfig, entries: Seq<EntryInfo>) -> Seq<
    FileRecord,
> {
    entries.filter(|e: EntryInfo| spec_passes(cfg, e)).map_values(
        |e: EntryInfo| spec_record_of(e),
    )
}

/// Applies the predicate set to every entry in traversal order; globs that do
/// not compile are dropped first, as on the command line.
#[verifier::loop_isolation(false)]
pub fn filter_entries(cfg: &FilterConfig, entries: &Vec<EntryInfo>) -> (r: Vec<FileRecord>)
    ensures
        r@ == spec_filter_entries(spec_sanitize(*cfg), entries@),
{
    let clean = FilterConfig {
        ext: match &cfg.ext {
            Some(x) => Some(x.clone()),
            None => None,
        },
        min_size: cfg.min_size,
        max_size: cfg.max_size,
        hidden: cfg.hidden,
        range: cfg.range,
        inc_glob: sanitize_pattern(&cfg.inc_glob),
        exc_glob: sanitize_pattern(&cfg.exc_glob),
    };
    proof {
        assert(clean == spec_sanitize(*cfg));
    }
    let ghost pred = |e: EntryInfo| spec_passes(clean, e);
    let mut out: Vec<FileRecord> = Vec::new();
    let mut i: usize = 0;
    proof {
        reveal(Seq::filter);
        assert(entries@.take(0int) =~= Seq::<EntryInfo>::empty());
        assert(out@ =~= spec_filter_entries(clean, entries@.take(0int)));
    }
    while i < entries.len()
        invariant
            0 <= i <= entries@.len(),
            out@ == spec_filter_entries(clean, entries@.take(i as int)),
        decreases entries@.len() - i,
    {
        let e = &entries[i];
        let ghost prefix = entries@.take(i as int);
        if passes_filters(&clean, e) {
            out.push(record_of(e));
        }
        proof {
            reveal(Seq::filter);
            assert(entries@.take(i + 1).drop_last() =~= prefix);
            assert(entries@.take(i + 1).last() == entries@[i as int]);
            let f = |x: EntryInfo| spec_record_of(x);
            if spec_passes(clean, entries@[i as int]) {
                assert(entries@.take(i + 1).filter(pred) == prefix.filter(pred).push(
                    entries@[i as int],
                ));
                assert(prefix.filter(pred).push(entries@[i as int]).map_values(f)
                    =~= prefix.filter(pred).map_values(f).push(f(entries@[i as int])));
            } else {
                assert(entries@.take(i + 1).filter(pred) == prefix.filter(pred));
            }
        }
        i = i + 1;
    }
    proof {
        assert(entries@.take(entries@.len() as int) =~= entries@);
    }
    out
}

// ---------------------------------------------------------------------------
// the subset law
// ---------------------------------------------------------------------------

/// `a` appears inside `b` in order, possibly with gaps.
pub open spec fn is_subsequence_of<A>(a: Seq<A>, b: Seq<A>) -> bool
    decreases b.len(),
{
    if a.len() == 0 {
        true
    } else if b.len() == 0 {
        false
    } else if a.last() == b.last() {
        is_subsequence_of(a.drop_last(), b.drop_last())
    } else {
        is_subsequence_of(a, b.drop_last())
    }
}

proof fn lemma_subsequence_shrink<A>(a: Seq<A>, b: Seq<A>)
    requires
        is_subsequence_of(a, b),
        a.len() > 0,
    ensures
        is_subsequence_of(a.drop_last(), b),
    decreases b.len(),
{
    let a2 = a.drop_last();
    if a2.len() == 0 {
    } else {
        let b2 = b.drop_last();
        if a.last() == b.last() {
            if a2.last() == b.last() {
                lemma_subsequence_shrink(a2, b2);
            }
        } else {
            lemma_subsequence_shrink(a, b2);
            if a2.last() == b.last() {
                lemma_subsequence_shrink(a2, b2);
            }
        }
    }
}

proof fn lemma_subsequence_extend<A>(a: Seq<A>, b: Seq<A>, x: A)
    requires
        is_subsequence_of(a, b),
    ensures
        is_subsequence_of(a, b.push(x)),
{
    if a.len() > 0 {
        assert(b.push(x).drop_last() =~= b);
        if a.last() == x {
            lemma_subsequence_shrink(a, b);
        }
    }
}

proof fn lemma_filter_subsequence<A>(s: Seq<A>, pred: spec_fn(A) -> bool)
    ensures
        is_subsequence_of(s.filter(pred), s),
    decreases s.len(),
{
    reveal(Seq::filter);
    if s.len() == 0 {
    } else {
        let s2 = s.drop_last();
        let x = s.last();
        lemma_filter_subsequence(s2, pred);
        if pred(x) {
            assert(s.filter(pred) == s2.filter(pred).push(x));
            assert(s2.filter(pred).push(x).drop_last() =~= s2.filter(pred));
        } else {
            assert(s.filter(pred) == s2.filter(pred));
            assert(s2.push(x) =~= s);
            lemma_subsequence_extend(s2.filter(pred), s2, x);
        }
    }
}

proof fn lemma_subsequence_map<A, B>(a: Seq<A>, b: Seq<A>, f: spec_fn(A) -> B)
    requires
        is_subsequence_of(a, b),
    ensures
        is_subsequence_of(a.map_values(f), b.map_values(f)),
    decreases b.len(), a.len(),
{
    if a.len() == 0 {
        assert(a.map_values(f).len() == 0);
    } else {
        let ma = a.map_values(f);
        let mb = b.map_values(f);
        assert(a.drop_last().map_values(f) =~= ma.drop_last());
        assert(b.drop_last().map_values(f) =~= mb.drop_last());
        if a.last() == b.last() {
            lemma_subsequence_map(a.drop_last(), b.drop_last(), f);
            assert(ma.last() == mb.last());
        } else {
            lemma_subsequence_map(a, b.drop_last(), f);
            if ma.last() == mb.last() {
                lemma_subsequence_shrink(ma, mb.drop_last());
            }
        }
    }
}

/// Law: whatever the configuration, the surviving records are a subsequence —
/// a subset, in unchanged traversal order — of the records of an unfiltered
/// traversal of the same entries.
pub proof fn lemma_filter_results_subsequence(cfg: FilterConfig, entries: Seq<EntryInfo>)
    ensures
        is_subsequence_of(
            spec_filter_entries(cfg, entries),
            entries.map_values(|e: EntryInfo| spec_record_of(e)),
        ),
{
    let pred = |e: EntryInfo| spec_passes(cfg, e);
    let f = |e: EntryInfo| spec_record_of(e);
    lemma_filter_subsequence(entries, pred);
    lemma_subsequence_map(entries.filter(pred), entries, f);
}

proof fn lemma_filter_all_true<A>(s: Seq<A>, pred: spec_fn(A) -> bool)
    requires
        forall|i: int| 0 <= i < s.len() ==> pred(#[trigger] s[i]),
    ensures
        s.filter(pred) == s,
    decreases s.len(),
{
    reveal(Seq::filter);
    if s.len() > 0 {
        lemma_filter_all_true(s.drop_last(), pred);
        assert(s.filter(pred) == s.drop_last().filter(pred).push(s.last()));
        assert(s.drop_last().push(s.last()) =~= s);
    }
}

/// Law: the unrestricted configuration filters nothing out; its result is
/// exactly the record of every entry, in traversal order.
pub proof fn lemma_unrestricted_keeps_all(entries: Seq<EntryInfo>)
    ensures
        spec_filter_entries(FilterConfig::unrestricted(), entries) == entries.map_values(
            |e: EntryInfo| spec_record_of(e),
        ),
{
    let pred = |e: EntryInfo| spec_passes(FilterConfig::unrestricted(), e);
    assert(forall|i: int| 0 <= i < entries.len() ==> pred(#[trigger] entries[i]));
    lemma_filter_all_true(entries, pred);
}

} // verus!
