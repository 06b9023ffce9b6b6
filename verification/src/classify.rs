//! The line classifier: turns one raw line of input into an [`Entry`]
//! (depth, name, directory hint) or discards it, and assembles the ordered
//! entry list with the one-line-lookahead directory inference pass.
//!
//! Two notations are supported. The connector notation is classic `tree`
//! output: box-drawing prefixes in four-character groups followed by a
//! dash-pair connector. The indented-list notation is two spaces per level
//! with directory names ending in `/`.

use vstd::prelude::*;
use crate::text::{
    contains_seq, has_digit, leading_spaces, trimmed, str_contains, str_has_digit, trim_to_string,
    find_leading_spaces, occurs_at, str_starts_with, strip_slashes, strip_trailing_slashes,
};
use crate::entry::{Entry, EntryV};

verus! {

/// A `tree` summary line: holds a digit and both a directory-count and a
/// file-count marker.
pub open spec fn spec_is_stats_line(s: Seq<char>) -> bool {
    has_digit(s) && contains_seq(s, "director"@) && contains_seq(s, "file"@)
}

/// The three-character dash-pair connector starts at position `j`.
pub open spec fn connector_at(s: Seq<char>, j: int) -> bool {
    0 <= j && j + 3 <= s.len() && s[j] == '─' && s[j + 1] == '─' && s[j + 2] == ' '
}

/// Position of the first connector at or after `i`, if any.
pub open spec fn connector_from(s: Seq<char>, i: int) -> Option<int>
    recommends
        0 <= i,
    decreases s.len() - i,
{
    if i < 0 || i + 3 > s.len() {
        None
    } else if connector_at(s, i) {
        Some(i)
    } else {
        connector_from(s, i + 1)
    }
}

/// A four-character depth group: a vertical bar or a space, then three
/// spaces.
pub open spec fn chunk_ok(s: Seq<char>, i: int) -> bool {
    (s[i] == '│' || s[i] == ' ') && s[i + 1] == ' ' && s[i + 2] == ' ' && s[i + 3] == ' '
}

/// Number of consecutive depth groups starting at `i`, stopping before `j`.
pub open spec fn chunk_depth(s: Seq<char>, i: int, j: int) -> int
    decreases j - i,
{
    if i < 0 || i + 4 > j {
        0
    } else if chunk_ok(s, i) {
        1 + chunk_depth(s, i + 4, j)
    } else {
        0
    }
}

/// Connector-notation parse: depth from the prefix groups, name from
/// everything after the connector, trimmed. `None` when no connector occurs.
pub open spec fn spec_parse_tree(s: Seq<char>) -> Option<(int, Seq<char>)> {
    match connector_from(s, 0) {
        Some(j) => Some((chunk_depth(s, 0, j), trimmed(s.subrange(j + 3, s.len() as int)))),
        None => None,
    }
}

/// Indented-list parse: two leading whitespace characters per level.
pub open spec fn spec_parse_indent(s: Seq<char>) -> (int, Seq<char>) {
    (leading_spaces(s) / 2, trimmed(s))
}

pub open spec fn ends_slash(n: Seq<char>) -> bool {
    n.len() > 0 && n.last() == '/'
}

/// Classify one raw line: `None` for ignored lines (blank, a lone `.`, a
/// stats line, or an empty name), otherwise the extracted entry.
pub open spec fn spec_classify_line(s: Seq<char>) -> Option<EntryV> {
    if trimmed(s).len() == 0 || trimmed(s) == seq!['.'] || spec_is_stats_line(s) {
        None
    } else {
        match spec_parse_tree(s) {
            Some((d, n)) => if n.len() == 0 {
                None
            } else {
                Some(EntryV { depth: d, name: n, is_dir: ends_slash(n) })
            },
            None => ({
                let n = trimmed(s);
                Some(EntryV { depth: leading_spaces(s) / 2, name: n, is_dir: ends_slash(n) })
            }),
        }
    }
}

/// The classified entries of a line sequence, in order, before inference.
pub open spec fn spec_raw_entries(lines: Seq<Seq<char>>) -> Seq<EntryV> {
    lines.filter_map(|l: Seq<char>| spec_classify_line(l))
}

/// The directory inference pass: an entry not already a directory is
/// upgraded exactly when the next entry is strictly deeper.
pub open spec fn spec_infer(es: Seq<EntryV>) -> Seq<EntryV> {
    Seq::new(
        es.len(),
        |i: int|
            EntryV {
                depth: es[i].depth,
                name: es[i].name,
                is_dir: es[i].is_dir || (i + 1 < es.len() && es[i + 1].depth > es[i].depth),
            },
    )
}

/// The full pipeline from raw lines to the ordered, type-resolved entries.
pub open spec fn spec_collect_entries(lines: Seq<Seq<char>>) -> Seq<EntryV> {
    spec_infer(spec_raw_entries(lines))
}

/// Whether `s` is a `tree` summary line such as a count of directories and
/// files, which the classifier discards.
pub fn is_stats_line(s: &str) -> (r: bool)
    ensures
        r == spec_is_stats_line(s@),
{
    str_has_digit(s) && str_contains(s, "director") && str_contains(s, "file")
}

proof fn lemma_connector_from_is(s: Seq<char>, i: int, j: int)
    requires
        0 <= i <= j,
        forall|k: int| i <= k < j ==> !connector_at(s, k),
        connector_at(s, j),
    ensures
        connector_from(s, i) == Some(j),
    decreases j - i,
{
    if i < j {
        lemma_connector_from_is(s, i + 1, j);
    }
}

pub proof fn lemma_connector_from_none(s: Seq<char>, i: int)
    requires
        0 <= i,
        forall|k: int| i <= k ==> !connector_at(s, k),
    ensures
        connector_from(s, i) == None::<int>,
    decreases s.len() - i,
{
    if i + 3 <= s.len() {
        lemma_connector_from_none(s, i + 1);
    }
}

/// Connector-notation parser. Returns the depth and the trimmed name after
/// the connector, or `None` when the line holds no connector.
pub fn parse_tree_style_depth(line: &str) -> (r: Option<(usize, String)>)
    ensures
        (match (r, spec_parse_tree(line@)) {
            (Some(p), Some(q)) => p.0 as int == q.0 && p.1@ == q.1,
            (None, None) => true,
            _ => false,
        }),
{
    let n = line.unicode_len();
    let mut j: usize = 0;
    loop
        invariant
            0 <= j,
            j + 3 <= n + 3,
            n as int == line@.len(),
            forall|k: int| 0 <= k < j ==> !connector_at(line@, k),
        decreases n + 3 - j,
    {
        if j >= n || n - j < 3 {
            proof {
                assert(forall|k: int| j <= k ==> !connector_at(line@, k));
                lemma_connector_from_none(line@, j as int);
                lemma_connector_from_none(line@, 0);
            }
            return None;
        }
        if line.get_char(j) == '─' && line.get_char(j + 1) == '─' && line.get_char(j + 2) == ' ' {
            proof {
                lemma_connector_from_is(line@, 0, j as int);
            }
            // Count the four-character depth groups before the connector.
            let mut depth: usize = 0;
            let mut i: usize = 0;
            loop
                invariant
                    0 <= i <= j < n,
                    n as int == line@.len(),
                    depth <= i,
                    chunk_depth(line@, 0, j as int) == depth + chunk_depth(
                        line@,
                        i as int,
                        j as int,
                    ),
                ensures
                    depth as int == chunk_depth(line@, 0, j as int),
                decreases j - i,
            {
                if i >= j || j - i < 4 {
                    break;
                }
                let c0 = line.get_char(i);
                if !((c0 == '│' || c0 == ' ') && line.get_char(i + 1) == ' ' && line.get_char(
                    i + 2,
                ) == ' ' && line.get_char(i + 3) == ' ') {
                    break;
                }
                i = i + 4;
                depth = depth + 1;
            }
            let name = trim_to_string(line.substring_char(j + 3, n));
            return Some((depth, name));
        }
        j = j + 1;
    }
}

/// Indented-list parser: depth from the leading whitespace count, two per
/// level; name is the line trimmed.
pub fn parse_indent_list_depth(line: &str) -> (r: (usize, String))
    ensures
        r.0 as int == spec_parse_indent(line@).0,
        r.1@ == spec_parse_indent(line@).1,
{
    let lead = find_leading_spaces(line);
    let name = trim_to_string(line);
    (lead / 2, name)
}

/// Whether the (already trimmed) name ends in `/`.
fn name_ends_slash(name: &String) -> (r: bool)
    ensures
        r == ends_slash(name@),
{
    let n = name.as_str().unicode_len();
    n > 0 && name.as_str().get_char(n - 1) == '/'
}

/// Classify one raw line, or discard it.
pub fn classify_line(line: &str) -> (r: Option<Entry>)
    ensures
        r.deep_view() == spec_classify_line(line@),
{
    let t = trim_to_string(line);
    let tlen = t.as_str().unicode_len();
    if tlen == 0 {
        return None;
    }
    if tlen == 1 && t.as_str().get_char(0) == '.' {
        assert(t@ =~= seq!['.']);
        return None;
    }
    assert(t@ != seq!['.']);
    if is_stats_line(line) {
        return None;
    }
    match parse_tree_style_depth(line) {
        Some((depth, name)) => {
            if name.as_str().unicode_len() == 0 {
                None
            } else {
                let is_dir = name_ends_slash(&name);
                Some(Entry { depth, name, is_dir })
            }
        },
        None => {
            let lead = find_leading_spaces(line);
            let is_dir = name_ends_slash(&t);
            Some(Entry { depth: lead / 2, name: t, is_dir })
        },
    }
}

/// One line of a flat path list (the fallback when pasted text does not
/// look like a tree): blank lines are skipped; a trailing `/` marks a
/// directory and exactly that one character is dropped; anything else is
/// a file path taken as written.
pub open spec fn spec_classify_path_line(s: Seq<char>) -> Option<(Seq<char>, bool)> {
    if trimmed(s).len() == 0 {
        None
    } else if s.len() > 0 && s.last() == '/' {
        Some((s.take(s.len() - 1), true))
    } else {
        Some((s, false))
    }
}

/// Classify one line of a flat path list.
pub fn classify_path_line(line: &str) -> (r: Option<(String, bool)>)
    ensures
        (match (r, spec_classify_path_line(line@)) {
            (Some(p), Some(q)) => p.0@ == q.0 && p.1 == q.1,
            (None, None) => true,
            _ => false,
        }),
{
    let t = trim_to_string(line);
    if t.as_str().unicode_len() == 0 {
        return None;
    }
    let n = line.unicode_len();
    if n > 0 && line.get_char(n - 1) == '/' {
        let rel = line.substring_char(0, n - 1);
        proof {
            assert(line@.subrange(0, n as int - 1) =~= line@.take(n as int - 1));
        }
        Some((String::from_str(rel), true))
    } else {
        Some((String::from_str(line), false))
    }
}

/// The reverse direction, used when describing an existing directory: one
/// absolute path from a raw listing, turned into a path relative to
/// `prefix` (the listed root including its trailing `/`), with `/`
/// appended to directories. The root itself is described as `./`; a line
/// outside the root is dropped.
pub open spec fn spec_relative_entry(line: Seq<char>, prefix: Seq<char>, is_dir: bool) -> Option<
    Seq<char>,
> {
    if occurs_at(line, prefix, 0) {
        if is_dir {
            Some(line.skip(prefix.len() as int).push('/'))
        } else {
            Some(line.skip(prefix.len() as int))
        }
    } else if is_dir && line == strip_slashes(prefix) {
        Some(seq!['.', '/'])
    } else {
        None
    }
}

/// One line of a raw directory listing, made relative to the listed root.
pub fn relative_listing_entry(line: &str, prefix: &str, is_dir: bool) -> (r: Option<String>)
    ensures
        (match (r, spec_relative_entry(line@, prefix@, is_dir)) {
            (Some(a), Some(b)) => a@ == b,
            (None, None) => true,
            _ => false,
        }),
{
    if str_starts_with(line, prefix) {
        let m = prefix.unicode_len();
        let n = line.unicode_len();
        let rel = line.substring_char(m, n);
        proof {
            assert(line@.subrange(m as int, n as int) =~= line@.skip(m as int));
        }
        if is_dir {
            let with_slash = String::from_str(rel).concat("/");
            proof {
                reveal_strlit("/");
                assert(with_slash@ =~= line@.skip(m as int).push('/'));
            }
            Some(with_slash)
        } else {
            Some(String::from_str(rel))
        }
    } else {
        let stripped = strip_trailing_slashes(prefix);
        let line_owned = String::from_str(line);
        if is_dir && line_owned == stripped {
            let dot = String::from_str("./");
            proof {
                reveal_strlit("./");
                assert(dot@ =~= seq!['.', '/']);
            }
            Some(dot)
        } else {
            None
        }
    }
}

/// Turn the raw lines into the ordered entry list: classify each line, then
/// run the directory inference pass.
pub fn collect_entries(lines: &Vec<String>) -> (r: Vec<Entry>)
    ensures
        r.deep_view() == spec_collect_entries(lines.deep_view()),
{
    let ghost cl = |l: Seq<char>| spec_classify_line(l);
    let mut raw: Vec<Entry> = Vec::new();
    let mut li: usize = 0;
    while li < lines.len()
        invariant
            0 <= li <= lines.len(),
            raw.deep_view() == lines.deep_view().take(li as int).filter_map(cl),
            cl == (|l: Seq<char>| spec_classify_line(l)),
        decreases lines.len() - li,
    {
        let ghost prefix = lines.deep_view().take(li as int);
        let ghost prefix1 = lines.deep_view().take(li as int + 1);
        proof {
            assert(prefix1.drop_last() =~= prefix);
            assert(prefix1.last() == lines.deep_view()[li as int]);
            assert(lines.deep_view()[li as int] == lines@[li as int]@);
        }
        match classify_line(lines[li].as_str()) {
            Some(e) => {
                raw.push(e);
            },
            None => {
            },
        }
        proof {
            assert(raw.deep_view() =~= prefix1.filter_map(cl));
        }
        li = li + 1;
    }
    proof {
        assert(lines.deep_view().take(lines.len() as int) =~= lines.deep_view());
    }
    // Directory inference: upgrade an entry when its successor is deeper.
    let ghost rawv = raw.deep_view();
    let n = raw.len();
    let mut out: Vec<Entry> = Vec::new();
    let mut i: usize = 0;
    while i < n
        invariant
            0 <= i <= n,
            n == raw.len(),
            out.len() == i,
            raw.deep_view() == rawv,
            out.deep_view() =~= spec_infer(rawv).take(i as int),
        decreases n - i,
    {
        let upgrade = !raw[i].is_dir && i + 1 < n && raw[i + 1].depth > raw[i].depth;
        let e = Entry {
            depth: raw[i].depth,
            name: raw[i].name.clone(),
            is_dir: raw[i].is_dir || upgrade,
        };
        proof {
            assert(rawv[i as int] == raw@[i as int]@);
            if i + 1 < n {
                assert(rawv[i as int + 1] == raw@[i as int + 1]@);
            }
            assert(e@ == spec_infer(rawv)[i as int]);
        }
        let ghost prev_dv = out.deep_view();
        let ghost prev_seq = out@;
        out.push(e);
        proof {
            assert(out@ == prev_seq.push(e));
            assert forall|k: int| 0 <= k < i + 1 implies out.deep_view()[k] == spec_infer(rawv)[k]
                by {
                assert(out.deep_view()[k] == out@[k].deep_view());
                if k < i {
                    assert(out@[k] == prev_seq[k]);
                    assert(prev_dv[k] == prev_seq[k].deep_view());
                    assert(prev_dv[k] == spec_infer(rawv).take(i as int)[k]);
                }
            }
            assert(out.deep_view() =~= spec_infer(rawv).take(i as int + 1));
        }
        i = i + 1;
    }
    proof {
        assert(spec_infer(rawv).take(n as int) =~= spec_infer(rawv));
    }
    out
}

} // verus!
