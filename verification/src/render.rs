//! Rendering of the surviving records: a structured JSON document built and
//! escaped character by character, and decorated one-line text with an icon,
//! a painted path, the byte count, the permission class and the timestamp.

use colored::Colorize;
use vstd::prelude::*;

use crate::filter::{FileRecord, Permission};
use crate::strutil::{
    append_u64, contains_seq, digit_char, lemma_contains_append, lemma_contains_prepend,
    lemma_contains_self, lemma_contains_trans, seq_ends_with, spec_dec, str_ends_with,
};

verus! {

// ---------------------------------------------------------------------------
// icons and base names
// ---------------------------------------------------------------------------

/// Index after the last `'/'` in a path, 0 when there is none.
pub open spec fn base_start(p: Seq<char>) -> int
    decreases p.len(),
{
    if p.len() == 0 {
        0
    } else if p.last() == '/' {
        p.len() as int
    } else {
        base_start(p.drop_last())
    }
}

/// The last path component: everything after the final separator.
pub open spec fn spec_base_name(p: Seq<char>) -> Seq<char> {
    p.subrange(base_start(p), p.len() as int)
}

proof fn lemma_base_start_found(p: Seq<char>, k: int)
    requires
        0 <= k < p.len(),
        p[k] == '/',
        forall|x: int| k < x < p.len() ==> #[trigger] p[x] != '/',
    ensures
        base_start(p) == k + 1,
    decreases p.len(),
{
    if k == p.len() - 1 {
    } else {
        lemma_base_start_found(p.drop_last(), k);
    }
}

proof fn lemma_base_start_none(p: Seq<char>)
    requires
        forall|x: int| 0 <= x < p.len() ==> #[trigger] p[x] != '/',
    ensures
        base_start(p) == 0,
    decreases p.len(),
{
    if p.len() > 0 {
        lemma_base_start_none(p.drop_last());
    }
}

/// The last path component, as `spec_base_name` describes.
#[verifier::loop_isolation(false)]
pub fn base_name_of(p: &str) -> (r: &str)
    ensures
        r@ == spec_base_name(p@),
{
    let n = p.unicode_len();
    let mut j: usize = n;
    while j > 0
        invariant
            0 <= j <= n,
            forall|x: int| j <= x < n ==> #[trigger] p@[x] != '/',
        decreases j,
    {
        if p.get_char(j - 1) == '/' {
            proof {
                lemma_base_start_found(p@, j - 1);
            }
            return p.substring_char(j, n);
        }
        j = j - 1;
    }
    proof {
        lemma_base_start_none(p@);
        assert(p@.subrange(0, n as int) =~= p@);
    }
    p.substring_char(0, n)
}

/// The classification icon of an entry: a folder for directories, a
/// language-specific icon for recognized extensions, a parcel otherwise.
pub open spec fn spec_file_icon(is_dir: bool, name: Seq<char>) -> Seq<char> {
    if is_dir {
        "\u{1f4c1}"@
    } else if seq_ends_with(name, ".rs"@) {
        "\u{1f980}"@
    } else if seq_ends_with(name, ".md"@) {
        "\u{1f4c4}"@
    } else if seq_ends_with(name, ".toml"@) {
        "\u{2699}\u{fe0f}"@
    } else {
        "\u{1f4e6}"@
    }
}

/// Picks the icon for an entry, as `spec_file_icon` describes.
pub fn file_icon(is_dir: bool, name: &str) -> (r: &'static str)
    ensures
        r@ == spec_file_icon(is_dir, name@),
{
    if is_dir {
        "\u{1f4c1}"
    } else if str_ends_with(name, ".rs") {
        "\u{1f980}"
    } else if str_ends_with(name, ".md") {
        "\u{1f4c4}"
    } else if str_ends_with(name, ".toml") {
        "\u{2699}\u{fe0f}"
    } else {
        "\u{1f4e6}"
    }
}

// ---------------------------------------------------------------------------
// JSON escaping
// ---------------------------------------------------------------------------

pub open spec fn hex_digit(d: int) -> char
    recommends
        0 <= d < 16,
{
    if d < 10 {
        digit_char(d)
    } else {
        ((97 + d - 10) as u8) as char
    }
}

/// A character that needs no escaping inside a JSON string.
pub open spec fn plain_json_char(c: char) -> bool {
    c != '"' && c != '\\' && (c as int) >= 32
}

/// How one character is written inside a JSON string.
pub open spec fn json_escape_char(c: char) -> Seq<char> {
    if c == '"' {
        seq!['\\', '"']
    } else if c == '\\' {
        seq!['\\', '\\']
    } else if c == '\x08' {
        seq!['\\', 'b']
    } else if c == '\t' {
        seq!['\\', 't']
    } else if c == '\n' {
        seq!['\\', 'n']
    } else if c == '\x0c' {
        seq!['\\', 'f']
    } else if c == '\r' {
        seq!['\\', 'r']
    } else if (c as int) < 32 {
        seq!['\\', 'u', '0', '0', hex_digit((c as int) / 16), hex_digit((c as int) % 16)]
    } else {
        seq![c]
    }
}

/// A string escaped for a JSON document, character by character.
pub open spec fn json_escape(s: Seq<char>) -> Seq<char>
    decreases s.len(),
{
    if s.len() == 0 {
        Seq::empty()
    } else {
        json_escape_char(s[0]) + json_escape(s.drop_first())
    }
}

proof fn lemma_json_escape_concat(a: Seq<char>, b: Seq<char>)
    ensures
        json_escape(a + b) == json_escape(a) + json_escape(b),
    decreases a.len(),
{
    if a.len() == 0 {
        assert(a + b =~= b);
        assert(json_escape(a) + json_escape(b) =~= json_escape(b));
    } else {
        lemma_json_escape_concat(a.drop_first(), b);
        assert((a + b).drop_first() =~= a.drop_first() + b);
        assert((a + b)[0] == a[0]);
        assert(json_escape_char(a[0]) + (json_escape(a.drop_first()) + json_escape(b))
            =~= (json_escape_char(a[0]) + json_escape(a.drop_first())) + json_escape(b));
    }
}

proof fn lemma_json_escape_plain(s: Seq<char>)
    requires
        forall|i: int| 0 <= i < s.len() ==> plain_json_char(#[trigger] s[i]),
    ensures
        json_escape(s) == s,
    decreases s.len(),
{
    if s.len() > 0 {
        lemma_json_escape_plain(s.drop_first());
        assert(json_escape_char(s[0]) =~= seq![s[0]]);
        assert(seq![s[0]] + s.drop_first() =~= s);
    }
}

fn hex_digit_str(d: u8) -> (r: &'static str)
    requires
        d < 16,
    ensures
        r@ == seq![hex_digit(d as int)],
{
    if d < 10 {
        crate::strutil::digit_str(d)
    } else {
        proof {
            reveal_strlit("a");
            reveal_strlit("b");
            reveal_strlit("c");
            reveal_strlit("d");
            reveal_strlit("e");
            reveal_strlit("f");
        }
        let r = match d {
            10 => "a",
            11 => "b",
            12 => "c",
            13 => "d",
            14 => "e",
            _ => "f",
        };
        proof {
            assert(r@ =~= seq![hex_digit(d as int)]);
        }
        r
    }
}

/// Appends `json_escape_char(c)` for a character that needs escaping.
fn append_escape(out: &mut String, c: char)
    requires
        !plain_json_char(c),
    ensures
        final(out)@ == old(out)@ + json_escape_char(c),
{
    proof {
        reveal_strlit("\\\"");
        reveal_strlit("\\\\");
        reveal_strlit("\\b");
        reveal_strlit("\\t");
        reveal_strlit("\\n");
        reveal_strlit("\\f");
        reveal_strlit("\\r");
        reveal_strlit("\\u00");
    }
    if c == '"' {
        out.append("\\\"");
    } else if c == '\\' {
        out.append("\\\\");
    } else if c == '\x08' {
        out.append("\\b");
    } else if c == '\t' {
        out.append("\\t");
    } else if c == '\n' {
        out.append("\\n");
    } else if c == '\x0c' {
        out.append("\\f");
    } else if c == '\r' {
        out.append("\\r");
    } else {
        let ghost before = out@;
        out.append("\\u00");
        let u = c as u32;
        out.append(hex_digit_str((u / 16) as u8));
        out.append(hex_digit_str((u % 16) as u8));
        proof {
            assert(out@ =~= before + json_escape_char(c));
        }
        return;
    }
    proof {
        assert(out@ =~= old(out)@ + json_escape_char(c));
    }
}

/// Appends `s`, escaped for a JSON string, to `out`.
#[verifier::loop_isolation(false)]
pub fn append_json_escaped(out: &mut String, s: &str)
    ensures
        final(out)@ == old(out)@ + json_escape(s@),
{
    let n = s.unicode_len();
    let mut rs: usize = 0;
    let mut i: usize = 0;
    proof {
        assert(s@.subrange(0, 0int) =~= Seq::<char>::empty());
        assert(old(out)@ + json_escape(s@.subrange(0, 0int)) =~= old(out)@);
    }
    while i < n
        invariant
            0 <= rs <= i <= n,
            out@ == old(out)@ + json_escape(s@.subrange(0, rs as int)),
            forall|j: int| rs <= j < i ==> plain_json_char(#[trigger] s@[j]),
        decreases n - i,
    {
        let c = s.get_char(i);
        if c == '"' || c == '\\' || (c as u32) < 32 {
            let run = s.substring_char(rs, i);
            out.append(run);
            proof {
                assert(s@.subrange(0, i as int) =~= s@.subrange(0, rs as int) + s@.subrange(
                    rs as int,
                    i as int,
                ));
                lemma_json_escape_concat(
                    s@.subrange(0, rs as int),
                    s@.subrange(rs as int, i as int),
                );
                lemma_json_escape_plain(s@.subrange(rs as int, i as int));
                assert(out@ =~= old(out)@ + json_escape(s@.subrange(0, i as int)));
            }
            append_escape(out, c);
            proof {
                assert(s@.subrange(0, i + 1) =~= s@.subrange(0, i as int) + seq![s@[i as int]]);
                lemma_json_escape_concat(s@.subrange(0, i as int), seq![s@[i as int]]);
                assert(seq![s@[i as int]].drop_first() =~= Seq::<char>::empty());
                assert(json_escape(seq![s@[i as int]]) =~= json_escape_char(s@[i as int]));
                assert(out@ =~= old(out)@ + json_escape(s@.subrange(0, i + 1)));
            }
            rs = i + 1;
            i = i + 1;
        } else {
            i = i + 1;
        }
    }
    let run = s.substring_char(rs, n);
    out.append(run);
    proof {
        assert(s@.subrange(0, n as int) =~= s@.subrange(0, rs as int) + s@.subrange(
            rs as int,
            n as int,
        ));
        lemma_json_escape_concat(s@.subrange(0, rs as int), s@.subrange(rs as int, n as int));
        lemma_json_escape_plain(s@.subrange(rs as int, n as int));
        assert(s@.subrange(0, n as int) =~= s@);
        assert(out@ =~= old(out)@ + json_escape(s@));
    }
}


// ---------------------------------------------------------------------------
// the JSON document
// ---------------------------------------------------------------------------

pub open spec fn spec_perm_str(p: Permission) -> Seq<char> {
    if p is ReadOnly {
        "r--"@
    } else {
        "rw-"@
    }
}

pub open spec fn spec_bool_str(b: bool) -> Seq<char> {
    if b {
        "true"@
    } else {
        "false"@
    }
}

/// The `"path"` key with a record's escaped path value.
pub open spec fn spec_path_field(r: FileRecord) -> Seq<char> {
    "\"path\": \""@ + json_escape(r.path@) + "\""@
}

/// The `"size"` key with a record's byte count.
pub open spec fn spec_size_field(r: FileRecord) -> Seq<char> {
    "\"size\": "@ + spec_dec(r.size as int)
}

pub open spec fn spec_modified_field(m: Option<String>) -> Seq<char> {
    "\"modified\": "@ + match m {
        Some(s) => seq!['"'] + json_escape(s@) + seq!['"'],
        None => "null"@,
    }
}

/// One record as an indented JSON object.
pub open spec fn spec_json_entry(r: FileRecord) -> Seq<char> {
    "  {\n    "@ + spec_path_field(r) + ",\n    "@ + spec_size_field(r) + ",\n    "@
        + spec_modified_field(r.modified) + ",\n    \"is_dir\": "@ + spec_bool_str(r.is_dir)
        + ",\n    \"permissions\": \""@ + spec_perm_str(r.permission) + "\"\n  }"@
}

/// The records joined with `",\n"`.
pub open spec fn spec_json_entries(rs: Seq<FileRecord>) -> Seq<char>
    decreases rs.len(),
{
    if rs.len() == 0 {
        Seq::empty()
    } else if rs.len() == 1 {
        spec_json_entry(rs[0])
    } else {
        spec_json_entry(rs[0]) + ",\n"@ + spec_json_entries(rs.drop_first())
    }
}

/// The whole document: a pretty-printed array of entry objects.
pub open spec fn spec_render_json(rs: Seq<FileRecord>) -> Seq<char> {
    if rs.len() == 0 {
        "[]"@
    } else {
        "[\n"@ + spec_json_entries(rs) + "\n]"@
    }
}

fn append_quoted(out: &mut String, s: &str)
    ensures
        final(out)@ == old(out)@ + seq!['"'] + json_escape(s@) + seq!['"'],
{
    proof {
        reveal_strlit("\"");
    }
    out.append("\"");
    append_json_escaped(out, s);
    out.append("\"");
    proof {
        assert(out@ =~= old(out)@ + seq!['"'] + json_escape(s@) + seq!['"']);
    }
}

/// Appends one record as an indented JSON object.
#[verifier::rlimit(100)]
fn append_json_entry(out: &mut String, r: &FileRecord)
    ensures
        final(out)@ == old(out)@ + spec_json_entry(*r),
{
    out.append("  {\n    ");
    out.append("\"path\": ");
    append_quoted(out, r.path.as_str());
    out.append(",\n    ");
    out.append("\"size\": ");
    append_u64(out, r.size);
    out.append(",\n    ");
    out.append("\"modified\": ");
    match &r.modified {
        Some(m) => {
            append_quoted(out, m.as_str());
        },
        None => {
            out.append("null");
        },
    }
    out.append(",\n    \"is_dir\": ");
    if r.is_dir {
        out.append("true");
    } else {
        out.append("false");
    }
    out.append(",\n    \"permissions\": \"");
    match r.permission {
        Permission::ReadOnly => {
            out.append("r--");
        },
        Permission::ReadWrite => {
            out.append("rw-");
        },
    }
    out.append("\"\n  }");
    proof {
        assert(("\"path\": "@ + (seq!['"'] + json_escape(r.path@) + seq!['"']))
            =~= spec_path_field(*r)) by {
            reveal_strlit("\"path\": ");
            reveal_strlit("\"path\": \"");
            reveal_strlit("\"");
        }
        assert(("\"size\": "@ + spec_dec(r.size as int)) =~= spec_size_field(*r));
        assert(out@ =~= old(out)@ + spec_json_entry(*r));
    }
}

proof fn lemma_json_entries_push(rs: Seq<FileRecord>, x: FileRecord)
    requires
        rs.len() >= 1,
    ensures
        spec_json_entries(rs.push(x)) == spec_json_entries(rs) + ",\n"@ + spec_json_entry(x),
    decreases rs.len(),
{
    let w = rs.push(x);
    assert(w.drop_first() =~= rs.drop_first().push(x));
    assert(w[0] == rs[0]);
    if rs.len() == 1 {
        assert(w.drop_first() =~= seq![x]);
        assert(spec_json_entries(seq![x]) == spec_json_entry(x));
        assert(spec_json_entries(w) =~= spec_json_entries(rs) + ",\n"@ + spec_json_entry(x));
    } else {
        lemma_json_entries_push(rs.drop_first(), x);
        assert(spec_json_entries(w) == spec_json_entry(w[0]) + ",\n"@ + spec_json_entries(
            w.drop_first(),
        ));
        assert(spec_json_entry(rs[0]) + ",\n"@ + (spec_json_entries(rs.drop_first()) + ",\n"@
            + spec_json_entry(x)) =~= (spec_json_entry(rs[0]) + ",\n"@ + spec_json_entries(
            rs.drop_first(),
        )) + ",\n"@ + spec_json_entry(x));
    }
}

/// Serializes the records as an indented JSON array with the fields `path`,
/// `size`, `modified`, `is_dir` and `permissions` per record, in order.
#[verifier::loop_isolation(false)]
pub fn render_json(records: &Vec<FileRecord>) -> (out: String)
    ensures
        out@ == spec_render_json(records@),
{
    if records.len() == 0 {
        let mut out = String::new();
        out.append("[]");
        proof {
            assert(out@ =~= "[]"@);
        }
        return out;
    }
    let mut out = String::new();
    out.append("[\n");
    append_json_entry(&mut out, &records[0]);
    proof {
        assert(records@.take(1int) =~= seq![records@[0int]]);
        assert(spec_json_entries(records@.take(1int)) == spec_json_entry(records@[0int]));
        assert(out@ =~= "[\n"@ + spec_json_entries(records@.take(1int)));
    }
    let mut i: usize = 1;
    while i < records.len()
        invariant
            1 <= i <= records@.len(),
            out@ == "[\n"@ + spec_json_entries(records@.take(i as int)),
        decreases records@.len() - i,
    {
        out.append(",\n");
        append_json_entry(&mut out, &records[i]);
        proof {
            assert(records@.take(i + 1) =~= records@.take(i as int).push(records@[i as int]));
            lemma_json_entries_push(records@.take(i as int), records@[i as int]);
            assert(out@ =~= "[\n"@ + spec_json_entries(records@.take(i + 1)));
        }
        i = i + 1;
    }
    out.append("\n]");
    proof {
        assert(records@.take(records@.len() as int) =~= records@);
        assert(out@ =~= "[\n"@ + spec_json_entries(records@) + "\n]"@);
    }
    out
}

proof fn lemma_entry_has_path(r: FileRecord)
    ensures
        contains_seq(spec_json_entry(r), spec_path_field(r)),
{
    let a = "  {\n    "@;
    let pfield = spec_path_field(r);
    let tail = ",\n    "@ + spec_size_field(r) + ",\n    "@ + spec_modified_field(r.modified)
        + ",\n    \"is_dir\": "@ + spec_bool_str(r.is_dir) + ",\n    \"permissions\": \""@
        + spec_perm_str(r.permission) + "\"\n  }"@;
    lemma_contains_self(pfield);
    lemma_contains_append(pfield, tail, pfield);
    lemma_contains_prepend(a, pfield + tail, pfield);
    assert(a + (pfield + tail) =~= spec_json_entry(r));
}

proof fn lemma_entry_has_size(r: FileRecord)
    ensures
        contains_seq(spec_json_entry(r), spec_size_field(r)),
{
    let a = "  {\n    "@ + spec_path_field(r) + ",\n    "@;
    let sfield = spec_size_field(r);
    let tail = ",\n    "@ + spec_modified_field(r.modified) + ",\n    \"is_dir\": "@
        + spec_bool_str(r.is_dir) + ",\n    \"permissions\": \""@ + spec_perm_str(
        r.permission,
    ) + "\"\n  }"@;
    lemma_contains_self(sfield);
    lemma_contains_append(sfield, tail, sfield);
    lemma_contains_prepend(a, sfield + tail, sfield);
    assert(a + (sfield + tail) =~= spec_json_entry(r));
}

/// Law: for every record, the rendered document carries the `"path"` key with
/// that record's escaped path and the `"size"` key with its byte count.
pub proof fn lemma_json_has_keys(rs: Seq<FileRecord>, i: int)
    requires
        0 <= i < rs.len(),
    ensures
        contains_seq(spec_render_json(rs), spec_path_field(rs[i])),
        contains_seq(spec_render_json(rs), spec_size_field(rs[i])),
{
    lemma_entry_in_entries(rs, i);
    lemma_contains_prepend("[\n"@, spec_json_entries(rs), spec_json_entry(rs[i]));
    lemma_contains_append("[\n"@ + spec_json_entries(rs), "\n]"@, spec_json_entry(rs[i]));
    lemma_entry_has_path(rs[i]);
    lemma_entry_has_size(rs[i]);
    lemma_contains_trans(spec_render_json(rs), spec_json_entry(rs[i]), spec_path_field(rs[i]));
    lemma_contains_trans(spec_render_json(rs), spec_json_entry(rs[i]), spec_size_field(rs[i]));
}

proof fn lemma_entry_in_entries(rs: Seq<FileRecord>, i: int)
    requires
        0 <= i < rs.len(),
    ensures
        contains_seq(spec_json_entries(rs), spec_json_entry(rs[i])),
    decreases rs.len(),
{
    lemma_contains_self(spec_json_entry(rs[i]));
    if rs.len() == 1 {
    } else if i == 0 {
        lemma_contains_append(
            spec_json_entry(rs[0]),
            ",\n"@ + spec_json_entries(rs.drop_first()),
            spec_json_entry(rs[0]),
        );
        assert(spec_json_entry(rs[0]) + (",\n"@ + spec_json_entries(rs.drop_first()))
            =~= spec_json_entries(rs));
    } else {
        lemma_entry_in_entries(rs.drop_first(), i - 1);
        assert(rs.drop_first()[i - 1] == rs[i]);
        lemma_contains_prepend(
            spec_json_entry(rs[0]) + ",\n"@,
            spec_json_entries(rs.drop_first()),
            spec_json_entry(rs[i]),
        );
        assert((spec_json_entry(rs[0]) + ",\n"@) + spec_json_entries(rs.drop_first())
            =~= spec_json_entries(rs));
    }
}

// ---------------------------------------------------------------------------
// text lines
// ---------------------------------------------------------------------------

/// The ANSI reset sequence that colored emits after a styled span.
pub open spec fn ansi_reset() -> Seq<char> {
    "\x1b[0m"@
}

/// Relies on colored's `Colorize::blue` and `bold` and its display: the
/// rendering is the text unchanged when coloring is off, else the text,
/// with a style inserted after any reset sequence it holds, between a style
/// prefix and a reset suffix. Either way it is never shorter than the text,
/// and text free of reset sequences is kept contiguous.
#[verifier::external_body]
fn paint_dir_name(s: &str) -> (r: String)
    ensures
        r@.len() >= s@.len(),
        !contains_seq(s@, ansi_reset()) ==> exists|pre: Seq<char>, post: Seq<char>|
            r@ == pre + s@ + post,
{
    s.blue().bold().to_string()
}

/// Relies on colored's `Colorize::green` and its display, as `paint_dir_name`
/// relies on blue and bold.
#[verifier::external_body]
fn paint_file_name(s: &str) -> (r: String)
    ensures
        r@.len() >= s@.len(),
        !contains_seq(s@, ansi_reset()) ==> exists|pre: Seq<char>, post: Seq<char>|
            r@ == pre + s@ + post,
{
    s.green().to_string()
}

/// One text line: icon, painted path, byte count, permission class and
/// timestamp (or `"unknown"`).
pub open spec fn spec_entry_line(r: FileRecord, painted: Seq<char>) -> Seq<char> {
    spec_file_icon(r.is_dir, spec_base_name(r.path@)) + " "@ + painted + "  "@ + spec_dec(
        r.size as int,
    ) + " bytes  "@ + spec_perm_str(r.permission) + "   "@ + (match r.modified {
        Some(m) => m@,
        None => "unknown"@,
    })
}

/// Assembles one text line around an already painted path.
pub fn format_entry_line(r: &FileRecord, painted: &str) -> (out: String)
    ensures
        out@ == spec_entry_line(*r, painted@),
{
    let mut out = String::new();
    let name = base_name_of(r.path.as_str());
    out.append(file_icon(r.is_dir, name));
    out.append(" ");
    out.append(painted);
    out.append("  ");
    append_u64(&mut out, r.size);
    out.append(" bytes  ");
    match r.permission {
        Permission::ReadOnly => {
            out.append("r--");
        },
        Permission::ReadWrite => {
            out.append("rw-");
        },
    }
    out.append("   ");
    match &r.modified {
        Some(m) => {
            out.append(m.as_str());
        },
        None => {
            out.append("unknown");
        },
    }
    proof {
        assert(out@ =~= spec_entry_line(*r, painted@));
    }
    out
}

/// The line is `spec_entry_line` of its record, around some painted path.
pub open spec fn line_matches(line: String, r: FileRecord) -> bool {
    exists|painted: Seq<char>| line@ == spec_entry_line(r, painted)
}

proof fn lemma_sandwich_contains(pre: Seq<char>, mid: Seq<char>, post: Seq<char>)
    ensures
        contains_seq(pre + mid + post, mid),
{
    lemma_contains_self(mid);
    lemma_contains_append(mid, post, mid);
    lemma_contains_prepend(pre, mid + post, mid);
    assert(pre + (mid + post) =~= pre + mid + post);
}

proof fn lemma_entry_line_contains(r: FileRecord, painted: Seq<char>, line: Seq<char>)
    requires
        line == spec_entry_line(r, painted),
        contains_seq(painted, r.path@),
    ensures
        contains_seq(line, r.path@),
{
    let head = spec_file_icon(r.is_dir, spec_base_name(r.path@)) + " "@;
    let tailm = if r.modified is Some {
        r.modified->0@
    } else {
        "unknown"@
    };
    let tail = "  "@ + spec_dec(r.size as int) + " bytes  "@ + spec_perm_str(r.permission)
        + "   "@ + tailm;
    lemma_contains_append(painted, tail, r.path@);
    lemma_contains_prepend(head, painted + tail, r.path@);
    assert(head + (painted + tail) =~= line);
}

/// Renders one record as a decorated line, painting directories bold blue and
/// files green through the terminal-color crate. Whenever the path holds no
/// ANSI reset sequence, the line shows it verbatim.
pub fn entry_line(r: &FileRecord) -> (out: String)
    ensures
        line_matches(out, *r),
        !contains_seq(r.path@, ansi_reset()) ==> contains_seq(out@, r.path@),
{
    let painted = if r.is_dir {
        paint_dir_name(r.path.as_str())
    } else {
        paint_file_name(r.path.as_str())
    };
    let out = format_entry_line(r, painted.as_str());
    proof {
        assert(out@ == spec_entry_line(*r, painted@));
        if !contains_seq(r.path@, ansi_reset()) {
            let (pre, post) = choose|pre: Seq<char>, post: Seq<char>|
                painted@ == pre + r.path@ + post;
            lemma_sandwich_contains(pre, r.path@, post);
            lemma_entry_line_contains(*r, painted@, out@);
        }
    }
    out
}

/// Renders every record as a decorated line, in order; each line shows its
/// record's path verbatim whenever the path holds no ANSI reset sequence.
#[verifier::loop_isolation(false)]
pub fn render_text_lines(records: &Vec<FileRecord>) -> (lines: Vec<String>)
    ensures
        lines@.len() == records@.len(),
        forall|i: int|
            0 <= i < records@.len() ==> #[trigger] line_matches(lines@[i], records@[i]),
        forall|i: int|
            0 <= i < records@.len() && !contains_seq(records@[i].path@, ansi_reset())
                ==> #[trigger] contains_seq(lines@[i]@, records@[i].path@),
{
    let mut lines: Vec<String> = Vec::new();
    let mut i: usize = 0;
    while i < records.len()
        invariant
            0 <= i <= records@.len(),
            lines@.len() == i,
            forall|k: int| 0 <= k < i ==> #[trigger] line_matches(lines@[k], records@[k]),
            forall|k: int|
                0 <= k < i && !contains_seq(records@[k].path@, ansi_reset())
                    ==> #[trigger] contains_seq(lines@[k]@, records@[k].path@),
        decreases records@.len() - i,
    {
        let line = entry_line(&records[i]);
        lines.push(line);
        i = i + 1;
    }
    lines
}

} // verus!
