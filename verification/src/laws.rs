//! The crate's stated laws, proved against the spec functions that the
//! executable functions are verified to implement.

use vstd::prelude::*;
use crate::entry::{EntryV, Options};
use crate::classify::{
    spec_classify_line, spec_raw_entries, spec_infer, spec_collect_entries, spec_is_stats_line,
    spec_parse_tree, connector_at, lemma_connector_from_none, ends_slash,
};
use crate::text::{
    is_space, leading_spaces, trimmed, strip_slashes, lemma_leading_spaces_is,
    lemma_trailing_spaces_is,
};
use crate::builder::{
    ActionV, BuildErrorV, spec_ensure_dir, spec_touch_file, spec_step, spec_run_from, spec_run,
    target_kind, pad_truncate, compose_path, step_stack, with_dirs, mkdir_bad_prefix,
    mkdir_bad_prefix_from,
};
use crate::fsmodel::map_get;

verus! {

/// Directory inference: an entry is a directory exactly when its line said
/// so or the immediately following entry is strictly deeper; depth and name
/// are never touched, and the last entry is never upgraded.
pub proof fn lemma_directory_inference(es: Seq<EntryV>, i: int)
    requires
        0 <= i < es.len(),
    ensures
        spec_infer(es).len() == es.len(),
        spec_infer(es)[i].is_dir == (es[i].is_dir || (i + 1 < es.len() && es[i + 1].depth
            > es[i].depth)),
        spec_infer(es)[i].depth == es[i].depth,
        spec_infer(es)[i].name == es[i].name,
        i == es.len() - 1 && !es[i].is_dir ==> !spec_infer(es)[i].is_dir,
{
}

proof fn lemma_filter_map_concat(
    a: Seq<Seq<char>>,
    b: Seq<Seq<char>>,
    f: spec_fn(Seq<char>) -> Option<EntryV>,
)
    ensures
        (a + b).filter_map(f) == a.filter_map(f) + b.filter_map(f),
    decreases b.len(),
{
    reveal(Seq::filter_map);
    if b.len() == 0 {
        assert(a + b =~= a);
        assert(b.filter_map(f) =~= Seq::<EntryV>::empty());
        assert((a + b).filter_map(f) =~= a.filter_map(f) + b.filter_map(f));
    } else {
        lemma_filter_map_concat(a, b.drop_last(), f);
        assert((a + b).drop_last() =~= a + b.drop_last());
        assert((a + b).last() == b.last());
        assert((a + b).filter_map(f) =~= a.filter_map(f) + b.filter_map(f));
    }
}

/// A stats line is ignored wherever it stands: the classified entries of
/// the input with it are those of the input without it.
pub proof fn lemma_stats_line_ignored(
    before: Seq<Seq<char>>,
    line: Seq<char>,
    after: Seq<Seq<char>>,
)
    requires
        spec_is_stats_line(line),
    ensures
        spec_collect_entries(before + seq![line] + after) == spec_collect_entries(before + after),
{
    let f = |l: Seq<char>| spec_classify_line(l);
    assert(spec_classify_line(line) is None);
    reveal_with_fuel(Seq::filter_map, 2);
    assert(seq![line].drop_last() =~= Seq::<Seq<char>>::empty());
    assert(seq![line].last() == line);
    assert(seq![line].filter_map(f) =~= Seq::<EntryV>::empty());
    lemma_filter_map_concat(before, seq![line], f);
    lemma_filter_map_concat(before + seq![line], after, f);
    lemma_filter_map_concat(before, after, f);
    assert((before + seq![line]).filter_map(f) =~= before.filter_map(f));
    assert(spec_raw_entries(before + seq![line] + after) == (before + seq![line] + after)
        .filter_map(f));
    assert(spec_raw_entries(before + seq![line] + after) =~= spec_raw_entries(before + after));
}

/// Conflict without force, directory wanted: a regular file at the target
/// makes the ensure-directory step fail with a conflict naming the path,
/// and neither the model nor the action list changes.
pub proof fn lemma_conflict_without_force(
    m: Map<Seq<Seq<char>>, bool>,
    p: Seq<Seq<char>>,
    opts: Options,
)
    requires
        p.len() > 0,
        map_get(m, p) == Some(false),
        !opts.force,
    ensures
        ({
            let st = spec_ensure_dir(m, p, opts);
            &&& st.error == Some(BuildErrorV::Conflict { path: p, expected_dir: true })
            &&& st.fs == m
            &&& st.actions == Seq::<ActionV>::empty()
        }),
{
}

/// Conflict without force, file wanted: a directory at the target makes the
/// ensure-file step fail with a conflict naming the path, and, as long as
/// the parent is already in order, neither the model nor the action list
/// changes.
pub proof fn lemma_conflict_without_force_file(
    m: Map<Seq<Seq<char>>, bool>,
    p: Seq<Seq<char>>,
    opts: Options,
)
    requires
        p.len() > 0,
        map_get(m, p) == Some(true),
        p.drop_last().len() > 0 ==> map_get(m, p.drop_last()) == Some(true),
        !opts.force,
    ensures
        ({
            let st = spec_touch_file(m, p, opts);
            &&& st.error == Some(BuildErrorV::Conflict { path: p, expected_dir: false })
            &&& st.fs == m
            &&& st.actions == Seq::<ActionV>::empty()
        }),
{
    let parent = p.drop_last();
    let sd = spec_ensure_dir(m, parent, opts);
    assert(sd.fs == m && sd.error is None && sd.actions == Seq::<ActionV>::empty());
}

/// A dry run never changes the model and never emits an action, whatever
/// the input and whatever it reports.
pub proof fn lemma_dry_run_no_mutation(
    m: Map<Seq<Seq<char>>, bool>,
    stack: Seq<Seq<char>>,
    es: Seq<EntryV>,
    opts: Options,
)
    requires
        opts.dry_run,
    ensures
        spec_run_from(m, stack, es, opts).fs == m,
        spec_run_from(m, stack, es, opts).actions == Seq::<ActionV>::empty(),
    decreases es.len(),
{
    if es.len() == 0 {
    } else {
        let st = spec_step(m, stack, es[0], opts);
        assert(st.fs == m && st.actions =~= Seq::<ActionV>::empty());
        if st.error is None {
            lemma_dry_run_no_mutation(m, step_stack(stack, es[0]), es.drop_first(), opts);
            assert(spec_run_from(m, stack, es, opts).actions =~= Seq::<ActionV>::empty());
        }
    }
}

/// `with_dirs` writes `Some(true)` at every prefix of `p` and leaves every
/// other key alone.
proof fn lemma_with_dirs(m: Map<Seq<Seq<char>>, bool>, p: Seq<Seq<char>>)
    ensures
        forall|k: Seq<Seq<char>>|
            #[trigger] map_get(with_dirs(m, p), k) == (if exists|i: int|
                1 <= i <= p.len() && #[trigger] p.take(i) == k {
                Some(true)
            } else {
                map_get(m, k)
            }),
    decreases p.len(),
{
    if p.len() == 0 {
    } else {
        let p0 = p.drop_last();
        lemma_with_dirs(m, p0);
        let wd = with_dirs(m, p);
        let wd0 = with_dirs(m, p0);
        assert(p.take(p.len() as int) =~= p);
        assert forall|i: int| 1 <= i <= p0.len() implies p0.take(i) == p.take(i) by {
            assert(p0.take(i) =~= p.take(i));
        }
        assert forall|k: Seq<Seq<char>>|
            #[trigger] map_get(wd, k) == (if exists|i: int|
                1 <= i <= p.len() && #[trigger] p.take(i) == k {
                Some(true)
            } else {
                map_get(m, k)
            }) by {
            if k == p {
                assert(p.take(p.len() as int) == k);
                assert(map_get(wd, k) == Some(true));
            } else {
                assert(map_get(wd, k) == map_get(wd0, k));
                if exists|i: int| 1 <= i <= p.len() && #[trigger] p.take(i) == k {
                    let i = choose|i: int| 1 <= i <= p.len() && #[trigger] p.take(i) == k;
                    assert(i < p.len());
                    assert(p0.take(i) == k);
                    assert(map_get(wd0, k) == Some(true));
                } else {
                    assert forall|i: int| 1 <= i <= p0.len() implies #[trigger] p0.take(i)
                        != k by {
                        assert(p.take(i) == p0.take(i));
                    }
                    assert(map_get(wd0, k) == map_get(m, k));
                }
            }
        }
    }
}

/// When the prefix probe finds nothing, no prefix is a regular file.
proof fn lemma_mkdir_bad_from_none(m: Map<Seq<Seq<char>>, bool>, p: Seq<Seq<char>>, j: int)
    requires
        1 <= j,
        mkdir_bad_prefix_from(m, p, j) is None,
    ensures
        forall|i: int| j <= i <= p.len() ==> map_get(m, #[trigger] p.take(i)) != Some(false),
    decreases p.len() - j + 1,
{
    if j <= p.len() {
        lemma_mkdir_bad_from_none(m, p, j + 1);
    }
}

/// An error-free, non-dry ensure-directory step without force: every
/// existing node keeps its kind, and afterwards a directory sits at the
/// target.
proof fn lemma_ensure_dir_props(m: Map<Seq<Seq<char>>, bool>, p: Seq<Seq<char>>, opts: Options)
    requires
        !opts.force,
        !opts.dry_run,
        spec_ensure_dir(m, p, opts).error is None,
    ensures
        ({
            let sd = spec_ensure_dir(m, p, opts);
            &&& (forall|k: Seq<Seq<char>>|
                map_get(m, k) is Some ==> #[trigger] map_get(sd.fs, k) == map_get(m, k))
            &&& target_kind(sd.fs, p) == Some(true)
        }),
{
    let sd = spec_ensure_dir(m, p, opts);
    if p.len() == 0 {
    } else {
        match map_get(m, p) {
            Some(true) => {},
            Some(false) => {
                assert(false);
            },
            None => {
                assert(mkdir_bad_prefix(m, p) is None);
                lemma_mkdir_bad_from_none(m, p, 1);
                lemma_with_dirs(m, p);
                assert(p.take(p.len() as int) =~= p);
                assert(map_get(sd.fs, p) == Some(true));
                assert forall|k: Seq<Seq<char>>| map_get(m, k) is Some implies #[trigger] map_get(
                    sd.fs,
                    k,
                ) == map_get(m, k) by {
                    if exists|i: int| 1 <= i <= p.len() && #[trigger] p.take(i) == k {
                        let i = choose|i: int| 1 <= i <= p.len() && #[trigger] p.take(i) == k;
                        assert(map_get(m, p.take(i)) != Some(false));
                        assert(map_get(m, k) == Some(true));
                    }
                }
            },
        }
    }
}

/// An error-free, non-dry ensure-file step without force: every existing
/// node keeps its kind; afterwards a regular file sits at the target and a
/// directory at its parent.
proof fn lemma_touch_file_props(m: Map<Seq<Seq<char>>, bool>, p: Seq<Seq<char>>, opts: Options)
    requires
        !opts.force,
        !opts.dry_run,
        spec_touch_file(m, p, opts).error is None,
    ensures
        ({
            let st = spec_touch_file(m, p, opts);
            &&& (forall|k: Seq<Seq<char>>|
                map_get(m, k) is Some ==> #[trigger] map_get(st.fs, k) == map_get(m, k))
            &&& p.len() > 0
            &&& target_kind(st.fs, p) == Some(false)
            &&& target_kind(st.fs, p.drop_last()) == Some(true)
        }),
{
    let st = spec_touch_file(m, p, opts);
    let parent = if p.len() > 0 {
        p.drop_last()
    } else {
        p
    };
    let sd = spec_ensure_dir(m, parent, opts);
    assert(sd.error is None);
    lemma_ensure_dir_props(m, parent, opts);
    if p.len() == 0 {
        assert(target_kind(sd.fs, p) == Some(true));
        assert(st.error is Some);
    }
    match target_kind(sd.fs, p) {
        Some(true) => {
            assert(false);
        },
        Some(false) => {
            assert(st.fs == sd.fs);
            assert forall|k: Seq<Seq<char>>| map_get(m, k) is Some implies #[trigger] map_get(
                st.fs,
                k,
            ) == map_get(m, k) by {
                assert(map_get(sd.fs, k) == map_get(m, k));
            }
        },
        None => {
            assert(p.drop_last().len() < p.len());
            assert(p != parent);
            assert(map_get(sd.fs, p) == None::<bool>);
            assert(map_get(m, p) == None::<bool>);
            assert(st.fs == sd.fs.insert(p, false));
            assert forall|k: Seq<Seq<char>>| map_get(m, k) is Some implies #[trigger] map_get(
                st.fs,
                k,
            ) == map_get(m, k) by {
                assert(k != p);
                assert(map_get(sd.fs, k) == map_get(m, k));
                assert(map_get(st.fs, k) == map_get(sd.fs, k));
            }
            if parent.len() > 0 {
                assert(map_get(st.fs, parent) == map_get(sd.fs, parent));
            }
        },
    }
}

/// One error-free, non-dry step without force: every existing node keeps
/// its kind, and the entry's target has the entry's kind afterwards.
proof fn lemma_step_props(
    m: Map<Seq<Seq<char>>, bool>,
    stack: Seq<Seq<char>>,
    e: EntryV,
    opts: Options,
)
    requires
        !opts.force,
        !opts.dry_run,
        spec_step(m, stack, e, opts).error is None,
    ensures
        ({
            let st = spec_step(m, stack, e, opts);
            let p = compose_path(
                pad_truncate(stack, e.depth),
                crate::text::strip_slashes(e.name),
            );
            &&& (forall|k: Seq<Seq<char>>|
                map_get(m, k) is Some ==> #[trigger] map_get(st.fs, k) == map_get(m, k))
            &&& (e.is_dir ==> target_kind(st.fs, p) == Some(true))
            &&& (!e.is_dir ==> p.len() > 0 && target_kind(st.fs, p) == Some(false) && target_kind(
                st.fs,
                p.drop_last(),
            ) == Some(true))
        }),
{
    let p = compose_path(pad_truncate(stack, e.depth), crate::text::strip_slashes(e.name));
    if e.is_dir {
        lemma_ensure_dir_props(m, p, opts);
    } else {
        lemma_touch_file_props(m, p, opts);
    }
}

/// An error-free, non-dry run without force never changes or removes an
/// existing node: it only adds.
proof fn lemma_run_monotone(
    m: Map<Seq<Seq<char>>, bool>,
    stack: Seq<Seq<char>>,
    es: Seq<EntryV>,
    opts: Options,
)
    requires
        !opts.force,
        !opts.dry_run,
        spec_run_from(m, stack, es, opts).error is None,
    ensures
        forall|k: Seq<Seq<char>>|
            map_get(m, k) is Some ==> #[trigger] map_get(
                spec_run_from(m, stack, es, opts).fs,
                k,
            ) == map_get(m, k),
    decreases es.len(),
{
    if es.len() == 0 {
    } else {
        let st = spec_step(m, stack, es[0], opts);
        assert(st.error is None);
        lemma_step_props(m, stack, es[0], opts);
        lemma_run_monotone(st.fs, step_stack(stack, es[0]), es.drop_first(), opts);
    }
}

/// A step whose target already has the right kind (and, for a file, whose
/// parent is already a directory) is a no-op: no error, no action, no
/// model change.
proof fn lemma_step_noop(
    m: Map<Seq<Seq<char>>, bool>,
    stack: Seq<Seq<char>>,
    e: EntryV,
    opts: Options,
)
    requires
        !opts.force,
        !opts.dry_run,
        ({
            let p = compose_path(
                pad_truncate(stack, e.depth),
                crate::text::strip_slashes(e.name),
            );
            &&& (e.is_dir ==> target_kind(m, p) == Some(true))
            &&& (!e.is_dir ==> p.len() > 0 && target_kind(m, p) == Some(false) && target_kind(
                m,
                p.drop_last(),
            ) == Some(true))
        }),
    ensures
        ({
            let st = spec_step(m, stack, e, opts);
            &&& st.fs == m
            &&& st.actions == Seq::<ActionV>::empty()
            &&& st.error is None
        }),
{
    let p = compose_path(pad_truncate(stack, e.depth), crate::text::strip_slashes(e.name));
    if !e.is_dir {
        let parent = p.drop_last();
        let sd = spec_ensure_dir(m, parent, opts);
        assert(sd.fs == m && sd.actions == Seq::<ActionV>::empty() && sd.error is None);
    }
}

/// Idempotence: an error-free, non-dry run without force, repeated on the
/// model it produced, succeeds again, changes nothing, and performs no
/// action.
pub proof fn lemma_idempotent_from(
    m: Map<Seq<Seq<char>>, bool>,
    stack: Seq<Seq<char>>,
    es: Seq<EntryV>,
    opts: Options,
)
    requires
        !opts.force,
        !opts.dry_run,
        spec_run_from(m, stack, es, opts).error is None,
    ensures
        ({
            let r = spec_run_from(m, stack, es, opts);
            let r2 = spec_run_from(r.fs, stack, es, opts);
            &&& r2.fs == r.fs
            &&& r2.actions == Seq::<ActionV>::empty()
            &&& r2.error is None
        }),
    decreases es.len(),
{
    let r = spec_run_from(m, stack, es, opts);
    if es.len() == 0 {
    } else {
        let e = es[0];
        let stack1 = step_stack(stack, e);
        let st = spec_step(m, stack, e, opts);
        assert(st.error is None);
        let r1 = spec_run_from(st.fs, stack1, es.drop_first(), opts);
        assert(r1.error is None && r.fs == r1.fs);
        lemma_step_props(m, stack, e, opts);
        lemma_run_monotone(st.fs, stack1, es.drop_first(), opts);
        let p = compose_path(pad_truncate(stack, e.depth), crate::text::strip_slashes(e.name));
        // the target facts carry through the rest of the run
        lemma_step_noop(r.fs, stack, e, opts);
        let st2 = spec_step(r.fs, stack, e, opts);
        assert(st2.fs == r.fs && st2.error is None);
        lemma_idempotent_from(st.fs, stack1, es.drop_first(), opts);
        let r2 = spec_run_from(r.fs, stack, es, opts);
        assert(r2.actions =~= Seq::<ActionV>::empty());
    }
}

/// One line of an indented-list description: two spaces per depth level,
/// then the name (with its trailing `/` for a directory).
pub open spec fn spec_render_line(e: EntryV) -> Seq<char> {
    Seq::new((2 * e.depth) as nat, |i: int| ' ') + e.name
}

/// A well-formed node of an indented-list description: a non-empty,
/// already-trimmed name that is not one of the ignored line shapes, with
/// the trailing slash exactly on directories.
pub open spec fn wf_render_entry(e: EntryV) -> bool {
    &&& e.depth >= 0
    &&& e.name.len() > 0
    &&& !is_space(e.name[0])
    &&& !is_space(e.name.last())
    &&& e.name != seq!['.']
    &&& ends_slash(e.name) == e.is_dir
    &&& (forall|j: int| !connector_at(spec_render_line(e), j))
    &&& !spec_is_stats_line(spec_render_line(e))
}

/// Classifying a rendered line gives back exactly the entry it came from.
pub proof fn lemma_classify_render_line(e: EntryV)
    requires
        wf_render_entry(e),
    ensures
        spec_classify_line(spec_render_line(e)) == Some(e),
{
    let line = spec_render_line(e);
    let d = e.depth;
    assert(line.len() == 2 * d + e.name.len());
    assert forall|j: int| 0 <= j < 2 * d implies is_space(line[j]) by {
        assert(line[j] == ' ');
    }
    assert(line[2 * d] == e.name[0]);
    lemma_leading_spaces_is(line, 2 * d);
    assert(line[line.len() - 1] == e.name[e.name.len() - 1]);
    lemma_trailing_spaces_is(line, 0);
    assert(trimmed(line) =~= e.name);
    lemma_connector_from_none(line, 0);
    assert(spec_parse_tree(line) is None);
    assert(leading_spaces(line) / 2 == d);
    let got = spec_classify_line(line);
    assert(got == Some(EntryV { depth: d, name: e.name, is_dir: ends_slash(e.name) }));
    assert(EntryV { depth: e.depth, name: e.name, is_dir: e.is_dir } == e);
}

/// The rendered lines of a well-formed entry list.
pub open spec fn spec_render(es: Seq<EntryV>) -> Seq<Seq<char>> {
    es.map_values(|e: EntryV| spec_render_line(e))
}

proof fn lemma_render_raw(es: Seq<EntryV>)
    requires
        forall|i: int| 0 <= i < es.len() ==> wf_render_entry(#[trigger] es[i]),
    ensures
        spec_raw_entries(spec_render(es)) == es,
    decreases es.len(),
{
    reveal(Seq::filter_map);
    let f = |l: Seq<char>| spec_classify_line(l);
    let lines = spec_render(es);
    if es.len() == 0 {
        assert(lines =~= Seq::<Seq<char>>::empty());
        assert(spec_raw_entries(lines) =~= es);
    } else {
        let es0 = es.drop_last();
        assert forall|i: int| 0 <= i < es0.len() implies wf_render_entry(#[trigger] es0[i]) by {
            assert(es0[i] == es[i]);
        }
        lemma_render_raw(es0);
        assert(es[es.len() - 1] == es.last());
        lemma_classify_render_line(es.last());
        assert(lines.drop_last() =~= spec_render(es0));
        assert(lines.last() == spec_render_line(es.last()));
        assert(f(lines.last()) == Some(es.last()));
        assert(spec_raw_entries(lines) =~= es);
    }
}

/// Round trip of the textual description: rendering a well-formed entry
/// list as an indented-list description and classifying it again gives
/// back exactly the same entries, provided no file entry is immediately
/// followed by a deeper entry (the shape every consistent description
/// has), so that the inference pass upgrades nothing.
pub proof fn lemma_render_parse_round_trip(es: Seq<EntryV>)
    requires
        forall|i: int| 0 <= i < es.len() ==> wf_render_entry(#[trigger] es[i]),
        forall|i: int|
            0 <= i < es.len() && !(#[trigger] es[i]).is_dir ==> !(i + 1 < es.len() && es[i
                + 1].depth > es[i].depth),
    ensures
        spec_collect_entries(spec_render(es)) == es,
{
    lemma_render_raw(es);
    assert forall|i: int| 0 <= i < es.len() implies spec_infer(es)[i] == es[i] by {
        assert(EntryV {
            depth: es[i].depth,
            name: es[i].name,
            is_dir: es[i].is_dir || (i + 1 < es.len() && es[i + 1].depth > es[i].depth),
        } == es[i]);
    }
    assert(spec_infer(es) =~= es);
}

proof fn lemma_entry_paths_len(stack: Seq<Seq<char>>, es: Seq<EntryV>)
    ensures
        crate::builder::spec_entry_paths_from(stack, es).len() == es.len(),
    decreases es.len(),
{
    if es.len() > 0 {
        lemma_entry_paths_len(step_stack(stack, es[0]), es.drop_first());
    }
}

/// Every path a description names carries the described kind once an
/// error-free, non-dry run without force is over: a directory for a
/// directory entry, a regular file for a file entry (and a directory at
/// the file's parent).
pub proof fn lemma_run_materializes(
    m: Map<Seq<Seq<char>>, bool>,
    stack: Seq<Seq<char>>,
    es: Seq<EntryV>,
    opts: Options,
    i: int,
)
    requires
        !opts.force,
        !opts.dry_run,
        spec_run_from(m, stack, es, opts).error is None,
        0 <= i < es.len(),
    ensures
        ({
            let r = spec_run_from(m, stack, es, opts);
            let p = crate::builder::spec_entry_paths_from(stack, es)[i];
            &&& (es[i].is_dir ==> target_kind(r.fs, p) == Some(true))
            &&& (!es[i].is_dir ==> target_kind(r.fs, p) == Some(false))
        }),
    decreases es.len(),
{
    let r = spec_run_from(m, stack, es, opts);
    let e = es[0];
    let st = spec_step(m, stack, e, opts);
    assert(st.error is None);
    let stack1 = step_stack(stack, e);
    let r1 = spec_run_from(st.fs, stack1, es.drop_first(), opts);
    assert(r.fs == r1.fs);
    if i == 0 {
        lemma_step_props(m, stack, e, opts);
        lemma_run_monotone(st.fs, stack1, es.drop_first(), opts);
        let p = compose_path(pad_truncate(stack, e.depth), strip_slashes(e.name));
        assert(crate::builder::spec_entry_paths_from(stack, es)[0] == p);
        if e.is_dir {
            if p.len() > 0 {
                assert(map_get(st.fs, p) == Some(true));
                assert(map_get(r.fs, p) == Some(true));
            }
        } else {
            assert(map_get(st.fs, p) == Some(false));
            assert(map_get(r.fs, p) == Some(false));
        }
    } else {
        lemma_run_materializes(st.fs, stack1, es.drop_first(), opts, i - 1);
        assert(es.drop_first()[i - 1] == es[i]);
        lemma_entry_paths_len(stack, es);
        lemma_entry_paths_len(stack1, es.drop_first());
        assert(crate::builder::spec_entry_paths_from(stack, es)[i]
            == crate::builder::spec_entry_paths_from(stack1, es.drop_first())[i - 1]);
    }
}

/// Whatever an ensure-directory step records lies on the ancestor chain
/// of its target or was already there.
proof fn lemma_ensure_dir_dom(m: Map<Seq<Seq<char>>, bool>, p: Seq<Seq<char>>, opts: Options)
    ensures
        forall|k: Seq<Seq<char>>|
            #[trigger] map_get(spec_ensure_dir(m, p, opts).fs, k) is Some ==> map_get(m, k) is Some
                || (exists|j: int| 1 <= j <= p.len() && #[trigger] p.take(j) == k),
{
    let sd = spec_ensure_dir(m, p, opts);
    if p.len() == 0 {
    } else {
        match map_get(m, p) {
            Some(true) => {},
            Some(false) => {
                if opts.force && !opts.dry_run {
                    let m1 = m.remove(p);
                    if mkdir_bad_prefix(m1, p) is None {
                        lemma_with_dirs(m1, p);
                        assert forall|k: Seq<Seq<char>>|
                            #[trigger] map_get(sd.fs, k) is Some implies map_get(m, k) is Some || (
                            exists|j: int| 1 <= j <= p.len() && #[trigger] p.take(j) == k) by {
                            if map_get(m1, k) is None {
                                assert(exists|j: int|
                                    1 <= j <= p.len() && #[trigger] p.take(j) == k);
                            }
                        }
                    }
                }
            },
            None => {
                if !opts.dry_run && mkdir_bad_prefix(m, p) is None {
                    lemma_with_dirs(m, p);
                    assert forall|k: Seq<Seq<char>>|
                        #[trigger] map_get(sd.fs, k) is Some implies map_get(m, k) is Some || (
                        exists|j: int| 1 <= j <= p.len() && #[trigger] p.take(j) == k) by {
                        if map_get(m, k) is None {
                            assert(exists|j: int| 1 <= j <= p.len() && #[trigger] p.take(j) == k);
                        }
                    }
                }
            },
        }
    }
}

/// Whatever one step records lies on the ancestor chain of its target or
/// was already there.
proof fn lemma_step_dom(
    m: Map<Seq<Seq<char>>, bool>,
    stack: Seq<Seq<char>>,
    e: EntryV,
    opts: Options,
)
    requires
        !opts.force,
    ensures
        ({
            let st = spec_step(m, stack, e, opts);
            let p = compose_path(pad_truncate(stack, e.depth), strip_slashes(e.name));
            forall|k: Seq<Seq<char>>|
                #[trigger] map_get(st.fs, k) is Some ==> map_get(m, k) is Some || (exists|j: int|
                    1 <= j <= p.len() && #[trigger] p.take(j) == k)
        }),
{
    let st = spec_step(m, stack, e, opts);
    let p = compose_path(pad_truncate(stack, e.depth), strip_slashes(e.name));
    if e.is_dir {
        lemma_ensure_dir_dom(m, p, opts);
    } else {
        let parent = if p.len() > 0 {
            p.drop_last()
        } else {
            p
        };
        lemma_ensure_dir_dom(m, parent, opts);
        let sd = spec_ensure_dir(m, parent, opts);
        assert forall|j: int| 1 <= j <= parent.len() implies parent.take(j) == p.take(j) by {
            assert(parent.take(j) =~= p.take(j));
        }
        assert forall|k: Seq<Seq<char>>| #[trigger] map_get(sd.fs, k) is Some implies map_get(
            m,
            k,
        ) is Some || (exists|j: int| 1 <= j <= p.len() && #[trigger] p.take(j) == k) by {
            if map_get(m, k) is None {
                let j = choose|j: int| 1 <= j <= parent.len() && #[trigger] parent.take(j) == k;
                assert(p.take(j) == k);
            }
        }
        if sd.error is None {
            assert(p.len() > 0 ==> p.take(p.len() as int) =~= p);
            assert forall|k: Seq<Seq<char>>| #[trigger] map_get(st.fs, k) is Some implies map_get(
                sd.fs,
                k,
            ) is Some || (exists|j: int| 1 <= j <= p.len() && #[trigger] p.take(j) == k) by {
                if map_get(sd.fs, k) is None {
                    assert(k == p);
                    assert(p.len() > 0);
                    assert(p.take(p.len() as int) == k);
                }
            }
        }
    }
}

/// Whatever a run records lies on the ancestor chain of some entry's
/// target path or was already there.
proof fn lemma_run_dom(
    m: Map<Seq<Seq<char>>, bool>,
    stack: Seq<Seq<char>>,
    es: Seq<EntryV>,
    opts: Options,
)
    requires
        !opts.force,
    ensures
        ({
            let r = spec_run_from(m, stack, es, opts);
            let paths = crate::builder::spec_entry_paths_from(stack, es);
            forall|k: Seq<Seq<char>>|
                #[trigger] map_get(r.fs, k) is Some ==> map_get(m, k) is Some || (exists|
                    i: int,
                    j: int,
                |
                    0 <= i < es.len() && 1 <= j <= paths[i].len() && #[trigger] paths[i].take(j)
                        == k)
        }),
    decreases es.len(),
{
    let r = spec_run_from(m, stack, es, opts);
    let paths = crate::builder::spec_entry_paths_from(stack, es);
    if es.len() == 0 {
    } else {
        let e = es[0];
        let st = spec_step(m, stack, e, opts);
        let stack1 = step_stack(stack, e);
        let p = compose_path(pad_truncate(stack, e.depth), strip_slashes(e.name));
        lemma_step_dom(m, stack, e, opts);
        lemma_entry_paths_len(stack, es);
        lemma_entry_paths_len(stack1, es.drop_first());
        assert(paths[0] == p);
        let tail_paths = crate::builder::spec_entry_paths_from(stack1, es.drop_first());
        assert forall|i: int| 1 <= i < es.len() implies paths[i] == tail_paths[i - 1] by {}
        if st.error is Some {
            assert(r == st);
            assert forall|k: Seq<Seq<char>>| #[trigger] map_get(r.fs, k) is Some implies map_get(
                m,
                k,
            ) is Some || (exists|i: int, j: int|
                0 <= i < es.len() && 1 <= j <= paths[i].len() && #[trigger] paths[i].take(j)
                    == k) by {
                if map_get(m, k) is None {
                    let j = choose|j: int| 1 <= j <= p.len() && #[trigger] p.take(j) == k;
                    assert(paths[0].take(j) == k);
                }
            }
        } else {
            lemma_run_dom(st.fs, stack1, es.drop_first(), opts);
            let r1 = spec_run_from(st.fs, stack1, es.drop_first(), opts);
            assert(r.fs == r1.fs);
            assert forall|k: Seq<Seq<char>>| #[trigger] map_get(r.fs, k) is Some implies map_get(
                m,
                k,
            ) is Some || (exists|i: int, j: int|
                0 <= i < es.len() && 1 <= j <= paths[i].len() && #[trigger] paths[i].take(j)
                    == k) by {
                if map_get(m, k) is None {
                    if map_get(st.fs, k) is Some {
                        let j = choose|j: int| 1 <= j <= p.len() && #[trigger] p.take(j) == k;
                        assert(paths[0].take(j) == k);
                    } else {
                        let (i, j) = choose|i: int, j: int|
                            0 <= i < es.drop_first().len() && 1 <= j <= tail_paths[i].len()
                                && #[trigger] tail_paths[i].take(j) == k;
                        assert(paths[i + 1] == tail_paths[i]);
                        assert(paths[i + 1].take(j) == k);
                    }
                }
            }
        }
    }
}

/// Materialization is exact: after an error-free, non-dry run without
/// force on an empty model, every entry's target path is recorded with the
/// entry's kind, and nothing is recorded off the entries' ancestor chains.
pub proof fn lemma_materializes_exactly(es: Seq<EntryV>, opts: Options)
    requires
        !opts.force,
        !opts.dry_run,
        spec_run(Map::empty(), es, opts).error is None,
    ensures
        ({
            let r = spec_run(Map::empty(), es, opts);
            let paths = crate::builder::spec_entry_paths(es);
            &&& (forall|i: int|
                0 <= i < es.len() ==> target_kind(r.fs, #[trigger] paths[i]) == Some(
                    (#[trigger] es[i]).is_dir,
                ))
            &&& (forall|k: Seq<Seq<char>>|
                #[trigger] map_get(r.fs, k) is Some ==> exists|i: int, j: int|
                    0 <= i < es.len() && 1 <= j <= paths[i].len() && #[trigger] paths[i].take(j)
                        == k)
        }),
{
    let m = Map::<Seq<Seq<char>>, bool>::empty();
    let r = spec_run(m, es, opts);
    let paths = crate::builder::spec_entry_paths(es);
    assert forall|i: int| 0 <= i < es.len() implies target_kind(r.fs, #[trigger] paths[i]) == Some(
        (#[trigger] es[i]).is_dir,
    ) by {
        lemma_run_materializes(m, Seq::empty(), es, opts, i);
    }
    lemma_run_dom(m, Seq::empty(), es, opts);
}

/// Idempotence of a whole run, from the empty ancestor stack: running the
/// builder again on an already-materialized model is error-free and
/// reports no action.
pub proof fn lemma_idempotent(m: Map<Seq<Seq<char>>, bool>, es: Seq<EntryV>, opts: Options)
    requires
        !opts.force,
        !opts.dry_run,
        spec_run(m, es, opts).error is None,
    ensures
        ({
            let r = spec_run(m, es, opts);
            let r2 = spec_run(r.fs, es, opts);
            &&& r2.fs == r.fs
            &&& r2.actions == Seq::<ActionV>::empty()
            &&& r2.error is None
        }),
{
    lemma_idempotent_from(m, Seq::empty(), es, opts);
}

} // verus!
