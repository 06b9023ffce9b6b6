//! The tree builder: walks the ordered entry list, reconstructs each
//! entry's path with a depth-indexed stack of ancestor names, and drives
//! the filesystem model with ensure-directory / ensure-file semantics,
//! honouring conflict, force and dry-run policy.
//!
//! The builder mutates only the [`FsModel`]; the real filesystem effects
//! are returned as an ordered list of [`Action`]s for a front end to
//! apply, and the diagnostic lines as structured [`Event`]s.

use vstd::prelude::*;
use crate::entry::{Entry, EntryV, Options};
use crate::fsmodel::{
    FsModel, map_get, subtree_removed, clone_path, prefix_of, push_dv, lemma_vec_deep_view,
};
use crate::text::{strip_slashes, strip_trailing_slashes};

verus! {

/// One filesystem mutation to perform, in order.
#[derive(Debug, Clone, PartialEq, Eq)]
pub enum Action {
    /// Create the directory and any missing ancestors.
    MkDirAll(Vec<String>),
    /// Remove a regular file.
    RemoveFile(Vec<String>),
    /// Remove a directory and everything below it.
    RemoveDirAll(Vec<String>),
    /// Create an empty regular file.
    CreateFile(Vec<String>),
}

/// Spec-level image of an [`Action`].
pub enum ActionV {
    MkDirAll(Seq<Seq<char>>),
    RemoveFile(Seq<Seq<char>>),
    RemoveDirAll(Seq<Seq<char>>),
    CreateFile(Seq<Seq<char>>),
}

impl DeepView for Action {
    type V = ActionV;

    open spec fn deep_view(&self) -> ActionV {
        match self {
            Action::MkDirAll(p) => ActionV::MkDirAll(p.deep_view()),
            Action::RemoveFile(p) => ActionV::RemoveFile(p.deep_view()),
            Action::RemoveDirAll(p) => ActionV::RemoveDirAll(p.deep_view()),
            Action::CreateFile(p) => ActionV::CreateFile(p.deep_view()),
        }
    }
}

/// One diagnostic or dry-run report line, in order of emission.
///
/// The `Would*` events are the user-facing dry-run previews; the
/// `Removing*` events are informational notices of forced removals; the
/// `*Trace` events are per-entry debug lines.
#[derive(Debug, Clone, PartialEq, Eq)]
pub enum Event {
    WouldMkdir(Vec<String>),
    WouldRemoveFile(Vec<String>),
    WouldRemoveDir(Vec<String>),
    WouldTouch(Vec<String>),
    RemovingFileForDir(Vec<String>),
    RemovingDirForFile(Vec<String>),
    MkdirTrace(Vec<String>),
    TouchTrace(Vec<String>),
}

/// Spec-level image of an [`Event`].
pub enum EventV {
    WouldMkdir(Seq<Seq<char>>),
    WouldRemoveFile(Seq<Seq<char>>),
    WouldRemoveDir(Seq<Seq<char>>),
    WouldTouch(Seq<Seq<char>>),
    RemovingFileForDir(Seq<Seq<char>>),
    RemovingDirForFile(Seq<Seq<char>>),
    MkdirTrace(Seq<Seq<char>>),
    TouchTrace(Seq<Seq<char>>),
}

impl DeepView for Event {
    type V = EventV;

    open spec fn deep_view(&self) -> EventV {
        match self {
            Event::WouldMkdir(p) => EventV::WouldMkdir(p.deep_view()),
            Event::WouldRemoveFile(p) => EventV::WouldRemoveFile(p.deep_view()),
            Event::WouldRemoveDir(p) => EventV::WouldRemoveDir(p.deep_view()),
            Event::WouldTouch(p) => EventV::WouldTouch(p.deep_view()),
            Event::RemovingFileForDir(p) => EventV::RemovingFileForDir(p.deep_view()),
            Event::RemovingDirForFile(p) => EventV::RemovingDirForFile(p.deep_view()),
            Event::MkdirTrace(p) => EventV::MkdirTrace(p.deep_view()),
            Event::TouchTrace(p) => EventV::TouchTrace(p.deep_view()),
        }
    }
}

/// The diagnostic level of an event: 0 user-facing, 1 info, 2 debug.
pub open spec fn spec_event_level(e: EventV) -> int {
    match e {
        EventV::WouldMkdir(_) => 0,
        EventV::WouldRemoveFile(_) => 0,
        EventV::WouldRemoveDir(_) => 0,
        EventV::WouldTouch(_) => 0,
        EventV::RemovingFileForDir(_) => 1,
        EventV::RemovingDirForFile(_) => 1,
        EventV::MkdirTrace(_) => 2,
        EventV::TouchTrace(_) => 2,
    }
}

impl Event {
    /// The diagnostic level of the event: 0 user-facing, 1 info, 2 debug.
    pub fn level(&self) -> (r: u8)
        ensures
            r as int == spec_event_level(self.deep_view()),
    {
        match self {
            Event::WouldMkdir(_) => 0,
            Event::WouldRemoveFile(_) => 0,
            Event::WouldRemoveDir(_) => 0,
            Event::WouldTouch(_) => 0,
            Event::RemovingFileForDir(_) => 1,
            Event::RemovingDirForFile(_) => 1,
            Event::MkdirTrace(_) => 2,
            Event::TouchTrace(_) => 2,
        }
    }
}

/// A typed failure of the builder.
#[derive(Debug, Clone, PartialEq, Eq)]
pub enum BuildError {
    /// A node of the wrong kind sits at the path and `force` was off.
    /// `expected_dir` tells which kind the input wanted there.
    Conflict { path: Vec<String>, expected_dir: bool },
    /// A directory had to be created below a path that is a regular file.
    NotADirectory { path: Vec<String> },
}

/// Spec-level image of a [`BuildError`].
pub enum BuildErrorV {
    Conflict { path: Seq<Seq<char>>, expected_dir: bool },
    NotADirectory { path: Seq<Seq<char>> },
}

impl DeepView for BuildError {
    type V = BuildErrorV;

    open spec fn deep_view(&self) -> BuildErrorV {
        match self {
            BuildError::Conflict { path, expected_dir } => BuildErrorV::Conflict {
                path: path.deep_view(),
                expected_dir: *expected_dir,
            },
            BuildError::NotADirectory { path } => BuildErrorV::NotADirectory {
                path: path.deep_view(),
            },
        }
    }
}

/// Outcome of part of a run: the model afterwards, the mutations and
/// report lines emitted, and the error that stopped it, if any.
#[verifier::ext_equal]
pub struct StepV {
    pub fs: Map<Seq<Seq<char>>, bool>,
    pub actions: Seq<ActionV>,
    pub events: Seq<EventV>,
    pub error: Option<BuildErrorV>,
}

/// The stack resized to length `d`: truncated, or padded with empty
/// placeholder names when the input depth jumps by more than one.
pub open spec fn pad_truncate(stack: Seq<Seq<char>>, d: int) -> Seq<Seq<char>>
    recommends
        d >= 0,
{
    Seq::new(d as nat, |i: int| if i < stack.len() { stack[i] } else { Seq::empty() })
}

/// The predicate that keeps non-empty path components.
pub open spec fn keeps_nonempty() -> spec_fn(Seq<char>) -> bool {
    |c: Seq<char>| c.len() > 0
}

/// The target path of an entry: every non-empty ancestor name at depth
/// below it, then its own slash-stripped name (when non-empty).
pub open spec fn compose_path(stack_at_depth: Seq<Seq<char>>, name: Seq<char>) -> Seq<Seq<char>> {
    if name.len() > 0 {
        stack_at_depth.filter(keeps_nonempty()).push(name)
    } else {
        stack_at_depth.filter(keeps_nonempty())
    }
}

/// The stack after one entry: resized to the entry's depth, and extended
/// by the entry's stripped name when the entry is a directory.
pub open spec fn step_stack(stack: Seq<Seq<char>>, e: EntryV) -> Seq<Seq<char>> {
    if e.is_dir {
        pad_truncate(stack, e.depth).push(strip_slashes(e.name))
    } else {
        pad_truncate(stack, e.depth)
    }
}

/// The stack after a whole entry sequence; it depends on the entries
/// alone, never on the filesystem.
pub open spec fn stack_after(stack: Seq<Seq<char>>, es: Seq<EntryV>) -> Seq<Seq<char>>
    decreases es.len(),
{
    if es.len() == 0 {
        stack
    } else {
        stack_after(step_stack(stack, es[0]), es.drop_first())
    }
}

/// What sits at the target path: the run's base directory for the empty
/// path, else whatever the model records.
pub open spec fn target_kind(m: Map<Seq<Seq<char>>, bool>, p: Seq<Seq<char>>) -> Option<bool> {
    if p.len() == 0 {
        Some(true)
    } else {
        map_get(m, p)
    }
}

/// `m` with `p` and every ancestor of `p` recorded as directories.
pub open spec fn with_dirs(m: Map<Seq<Seq<char>>, bool>, p: Seq<Seq<char>>) -> Map<
    Seq<Seq<char>>,
    bool,
>
    decreases p.len(),
{
    if p.len() == 0 {
        m
    } else {
        with_dirs(m, p.drop_last()).insert(p, true)
    }
}

/// The shortest prefix of `p`, of length at least `i`, that is a regular
/// file, if any: recursive directory creation would fail there.
pub open spec fn mkdir_bad_prefix_from(
    m: Map<Seq<Seq<char>>, bool>,
    p: Seq<Seq<char>>,
    i: int,
) -> Option<Seq<Seq<char>>>
    decreases p.len() - i + 1,
{
    if i < 1 || i > p.len() {
        None
    } else if map_get(m, p.take(i)) == Some(false) {
        Some(p.take(i))
    } else {
        mkdir_bad_prefix_from(m, p, i + 1)
    }
}

pub open spec fn mkdir_bad_prefix(m: Map<Seq<Seq<char>>, bool>, p: Seq<Seq<char>>) -> Option<
    Seq<Seq<char>>,
> {
    mkdir_bad_prefix_from(m, p, 1)
}

/// Ensure a directory at `p`: a no-op when one is already there; a
/// conflict when a file is there without `force`; a forced removal plus
/// recursive creation otherwise; a plain recursive creation when nothing
/// is there. Dry runs only report.
pub open spec fn spec_ensure_dir(m: Map<Seq<Seq<char>>, bool>, p: Seq<Seq<char>>, opts: Options) -> StepV {
    match target_kind(m, p) {
        Some(true) => StepV { fs: m, actions: seq![], events: seq![], error: None },
        Some(false) => {
            if opts.force {
                let ev0 = seq![EventV::RemovingFileForDir(p)];
                if opts.dry_run {
                    StepV {
                        fs: m,
                        actions: seq![],
                        events: ev0.push(EventV::WouldRemoveFile(p)),
                        error: None,
                    }
                } else {
                    let m1 = m.remove(p);
                    let acts = seq![ActionV::RemoveFile(p)];
                    match mkdir_bad_prefix(m1, p) {
                        None => StepV {
                            fs: with_dirs(m1, p),
                            actions: acts.push(ActionV::MkDirAll(p)),
                            events: ev0,
                            error: None,
                        },
                        Some(q) => StepV {
                            fs: m1,
                            actions: acts,
                            events: ev0,
                            error: Some(BuildErrorV::NotADirectory { path: q }),
                        },
                    }
                }
            } else {
                StepV {
                    fs: m,
                    actions: seq![],
                    events: seq![],
                    error: Some(BuildErrorV::Conflict { path: p, expected_dir: true }),
                }
            }
        },
        None => {
            if opts.dry_run {
                StepV { fs: m, actions: seq![], events: seq![EventV::WouldMkdir(p)], error: None }
            } else {
                match mkdir_bad_prefix(m, p) {
                    None => StepV {
                        fs: with_dirs(m, p),
                        actions: seq![ActionV::MkDirAll(p)],
                        events: seq![],
                        error: None,
                    },
                    Some(q) => StepV {
                        fs: m,
                        actions: seq![],
                        events: seq![],
                        error: Some(BuildErrorV::NotADirectory { path: q }),
                    },
                }
            }
        },
    }
}

/// Ensure a regular file at `p`: first ensure the parent directory, then
/// apply the same conflict / force / dry-run policy against a directory
/// sitting at `p`; an existing file is left untouched.
pub open spec fn spec_touch_file(m: Map<Seq<Seq<char>>, bool>, p: Seq<Seq<char>>, opts: Options) -> StepV {
    let parent = if p.len() > 0 {
        p.drop_last()
    } else {
        p
    };
    let sd = spec_ensure_dir(m, parent, opts);
    if sd.error is Some {
        sd
    } else {
        let m1 = sd.fs;
        match target_kind(m1, p) {
            Some(true) => {
                if opts.force {
                    let ev1 = sd.events.push(EventV::RemovingDirForFile(p));
                    if opts.dry_run {
                        StepV {
                            fs: m1,
                            actions: sd.actions,
                            events: ev1.push(EventV::WouldRemoveDir(p)).push(EventV::WouldTouch(p)),
                            error: None,
                        }
                    } else {
                        StepV {
                            fs: subtree_removed(m1, p).insert(p, false),
                            actions: sd.actions.push(ActionV::RemoveDirAll(p)).push(
                                ActionV::CreateFile(p),
                            ),
                            events: ev1,
                            error: None,
                        }
                    }
                } else {
                    StepV {
                        fs: m1,
                        actions: sd.actions,
                        events: sd.events,
                        error: Some(BuildErrorV::Conflict { path: p, expected_dir: false }),
                    }
                }
            },
            Some(false) => StepV { fs: m1, actions: sd.actions, events: sd.events, error: None },
            None => {
                if opts.dry_run {
                    StepV {
                        fs: m1,
                        actions: sd.actions,
                        events: sd.events.push(EventV::WouldTouch(p)),
                        error: None,
                    }
                } else {
                    StepV {
                        fs: m1.insert(p, false),
                        actions: sd.actions.push(ActionV::CreateFile(p)),
                        events: sd.events,
                        error: None,
                    }
                }
            },
        }
    }
}

/// One entry processed: resize the stack, compose the path, emit the
/// per-entry trace event, ensure a directory or a file.
pub open spec fn spec_step(
    m: Map<Seq<Seq<char>>, bool>,
    stack: Seq<Seq<char>>,
    e: EntryV,
    opts: Options,
) -> StepV {
    let stack1 = pad_truncate(stack, e.depth);
    let p = compose_path(stack1, strip_slashes(e.name));
    if e.is_dir {
        let st = spec_ensure_dir(m, p, opts);
        StepV {
            fs: st.fs,
            actions: st.actions,
            events: seq![EventV::MkdirTrace(p)] + st.events,
            error: st.error,
        }
    } else {
        let st = spec_touch_file(m, p, opts);
        StepV {
            fs: st.fs,
            actions: st.actions,
            events: seq![EventV::TouchTrace(p)] + st.events,
            error: st.error,
        }
    }
}

/// The whole walk from a given stack: strictly in order, aborting at the
/// first error with everything emitted up to that point.
pub open spec fn spec_run_from(
    m: Map<Seq<Seq<char>>, bool>,
    stack: Seq<Seq<char>>,
    es: Seq<EntryV>,
    opts: Options,
) -> StepV
    decreases es.len(),
{
    if es.len() == 0 {
        StepV { fs: m, actions: seq![], events: seq![], error: None }
    } else {
        let st = spec_step(m, stack, es[0], opts);
        if st.error is Some {
            st
        } else {
            let rest = spec_run_from(st.fs, step_stack(stack, es[0]), es.drop_first(), opts);
            StepV {
                fs: rest.fs,
                actions: st.actions + rest.actions,
                events: st.events + rest.events,
                error: rest.error,
            }
        }
    }
}

/// The whole walk, starting from an empty stack.
pub open spec fn spec_run(m: Map<Seq<Seq<char>>, bool>, es: Seq<EntryV>, opts: Options) -> StepV {
    spec_run_from(m, Seq::empty(), es, opts)
}

/// Splitting a run: the walk over `a + b` is the walk over `a` and, when
/// that did not fail, the walk over `b` from where `a` left off.
pub proof fn lemma_run_concat(
    m: Map<Seq<Seq<char>>, bool>,
    stack: Seq<Seq<char>>,
    a: Seq<EntryV>,
    b: Seq<EntryV>,
    opts: Options,
)
    ensures
        ({
            let ra = spec_run_from(m, stack, a, opts);
            let full = spec_run_from(m, stack, a + b, opts);
            &&& (ra.error is Some ==> full == ra)
            &&& (ra.error is None ==> {
                let rb = spec_run_from(ra.fs, stack_after(stack, a), b, opts);
                &&& full.fs == rb.fs
                &&& full.actions == ra.actions + rb.actions
                &&& full.events == ra.events + rb.events
                &&& full.error == rb.error
            })
        }),
    decreases a.len(),
{
    let ra = spec_run_from(m, stack, a, opts);
    let full = spec_run_from(m, stack, a + b, opts);
    if a.len() == 0 {
        assert(a + b =~= b);
        assert(stack_after(stack, a) == stack);
        let rb = spec_run_from(ra.fs, stack_after(stack, a), b, opts);
        assert(full == rb);
        assert(full.actions =~= ra.actions + rb.actions);
        assert(full.events =~= ra.events + rb.events);
    } else {
        assert((a + b)[0] == a[0]);
        assert((a + b).len() > 0);
        let st = spec_step(m, stack, a[0], opts);
        if st.error is Some {
        } else {
            assert((a + b).drop_first() =~= a.drop_first() + b);
            lemma_run_concat(st.fs, step_stack(stack, a[0]), a.drop_first(), b, opts);
            let ra1 = spec_run_from(st.fs, step_stack(stack, a[0]), a.drop_first(), opts);
            assert(stack_after(stack, a) == stack_after(step_stack(stack, a[0]), a.drop_first()));
            if ra1.error is None {
                let rb = spec_run_from(ra.fs, stack_after(stack, a), b, opts);
                assert(full.actions =~= ra.actions + rb.actions) by {
                    assert(full.actions == st.actions + (ra1.actions + rb.actions));
                    assert(ra.actions == st.actions + ra1.actions);
                }
                assert(full.events =~= ra.events + rb.events) by {
                    assert(full.events == st.events + (ra1.events + rb.events));
                    assert(ra.events == st.events + ra1.events);
                }
            }
        }
    }
}

/// Concatenation law for the stack evolution.
pub proof fn lemma_stack_after_concat(stack: Seq<Seq<char>>, a: Seq<EntryV>, b: Seq<EntryV>)
    ensures
        stack_after(stack, a + b) == stack_after(stack_after(stack, a), b),
    decreases a.len(),
{
    if a.len() == 0 {
        assert(a + b =~= b);
    } else {
        assert((a + b)[0] == a[0]);
        assert((a + b).drop_first() =~= a.drop_first() + b);
        lemma_stack_after_concat(step_stack(stack, a[0]), a.drop_first(), b);
    }
}

/// One more entry at the end of a run.
pub proof fn lemma_run_snoc(
    m: Map<Seq<Seq<char>>, bool>,
    stack: Seq<Seq<char>>,
    es: Seq<EntryV>,
    e: EntryV,
    opts: Options,
)
    ensures
        ({
            let ra = spec_run_from(m, stack, es, opts);
            let st = spec_step(ra.fs, stack_after(stack, es), e, opts);
            let full = spec_run_from(m, stack, es.push(e), opts);
            &&& (ra.error is Some ==> full == ra)
            &&& (ra.error is None ==> {
                &&& full.fs == st.fs
                &&& full.actions == ra.actions + st.actions
                &&& full.events == ra.events + st.events
                &&& full.error == st.error
            })
        }),
        stack_after(stack, es.push(e)) == step_stack(stack_after(stack, es), e),
{
    lemma_run_concat(m, stack, es, seq![e], opts);
    lemma_stack_after_concat(stack, es, seq![e]);
    assert(es + seq![e] =~= es.push(e));
    let ra = spec_run_from(m, stack, es, opts);
    let sa = stack_after(stack, es);
    assert(seq![e][0] == e);
    assert(seq![e].drop_first() =~= Seq::<EntryV>::empty());
    assert(stack_after(step_stack(sa, e), Seq::<EntryV>::empty()) == step_stack(sa, e));
    assert(stack_after(sa, seq![e]) == step_stack(sa, e));
    if ra.error is None {
        let rb = spec_run_from(ra.fs, sa, seq![e], opts);
        let st = spec_step(ra.fs, sa, e, opts);
        if st.error is None {
            let rest = spec_run_from(st.fs, step_stack(sa, e), Seq::<EntryV>::empty(), opts);
            assert(rest.actions == Seq::<ActionV>::empty());
            assert(rb.actions =~= st.actions);
            assert(rb.events =~= st.events);
        }
    }
}

/// Resize the ancestor stack to `depth`: truncate it, or pad it with
/// empty placeholder names.
fn resize_stack(stack: &mut Vec<String>, depth: usize)
    ensures
        final(stack).deep_view() == pad_truncate(old(stack).deep_view(), depth as int),
{
    let ghost dv0 = stack.deep_view();
    proof {
        lemma_vec_deep_view(stack);
    }
    if depth <= stack.len() {
        stack.truncate(depth);
        proof {
            lemma_vec_deep_view(stack);
            assert(stack.deep_view() =~= pad_truncate(dv0, depth as int));
        }
    } else {
        while stack.len() < depth
            invariant
                stack.len() <= depth,
                dv0.len() <= stack.len(),
                stack.deep_view() == pad_truncate(dv0, stack.len() as int),
            decreases depth - stack.len(),
        {
            let ghost l = stack.len() as int;
            push_dv(stack, String::new());
            proof {
                assert(stack.deep_view() =~= pad_truncate(dv0, l + 1));
            }
        }
    }
}

/// The target path of an entry whose resized ancestor stack is `stack`
/// and whose stripped name is `name`.
fn compose_target(stack: &Vec<String>, name: &String) -> (r: Vec<String>)
    ensures
        r.deep_view() == compose_path(stack.deep_view(), name@),
{
    let ghost sdv = stack.deep_view();
    let mut out: Vec<String> = Vec::new();
    proof {
        reveal(Seq::filter);
        lemma_vec_deep_view(stack);
        assert(out.deep_view() =~= sdv.take(0).filter(keeps_nonempty()));
    }
    let mut i: usize = 0;
    while i < stack.len()
        invariant
            0 <= i <= stack.len(),
            sdv == stack.deep_view(),
            sdv.len() == stack.len(),
            out.deep_view() == sdv.take(i as int).filter(keeps_nonempty()),
        decreases stack.len() - i,
    {
        proof {
            reveal(Seq::filter);
            assert(sdv.take(i as int + 1).drop_last() =~= sdv.take(i as int));
            assert(sdv.take(i as int + 1).last() == sdv[i as int]);
            lemma_vec_deep_view(stack);
            assert(sdv[i as int] == stack@[i as int]@);
        }
        if stack[i].as_str().unicode_len() > 0 {
            push_dv(&mut out, stack[i].clone());
            proof {
                assert(out.deep_view() =~= sdv.take(i as int + 1).filter(keeps_nonempty()));
            }
        } else {
            proof {
                assert(out.deep_view() =~= sdv.take(i as int + 1).filter(keeps_nonempty()));
            }
        }
        i = i + 1;
    }
    proof {
        assert(sdv.take(stack.len() as int) =~= sdv);
    }
    if name.as_str().unicode_len() > 0 {
        push_dv(&mut out, name.clone());
    }
    out
}

/// Record the whole ancestor chain of `path` as directories, shortest
/// prefix first, after probing that no prefix is a regular file; mirrors
/// recursive directory creation, which fails on a file in the chain.
pub fn mkdir_all(fs: &mut FsModel, path: &Vec<String>, acts: &mut Vec<Action>) -> (r: Result<
    (),
    BuildError,
>)
    requires
        old(fs).wf(),
    ensures
        final(fs).wf(),
        ({
            let bad = mkdir_bad_prefix(old(fs)@, path.deep_view());
            match bad {
                None => {
                    &&& r is Ok
                    &&& final(fs)@ == with_dirs(old(fs)@, path.deep_view())
                    &&& final(acts).deep_view() == old(acts).deep_view().push(
                        ActionV::MkDirAll(path.deep_view()),
                    )
                },
                Some(q) => {
                    &&& (match r {
                        Err(e) => e.deep_view() == (BuildErrorV::NotADirectory { path: q }),
                        Ok(_) => false,
                    })
                    &&& final(fs)@ == old(fs)@
                    &&& final(acts).deep_view() == old(acts).deep_view()
                },
            }
        }),
{
    let ghost m0 = fs@;
    let ghost pd = path.deep_view();
    let n = path.len();
    proof {
        lemma_vec_deep_view(path);
    }
    let mut k: usize = 0;
    while k < n
        invariant
            0 <= k <= n,
            fs.wf(),
            fs@ == m0,
            pd == path.deep_view(),
            pd.len() == n,
            n == path.len(),
            mkdir_bad_prefix(m0, pd) == mkdir_bad_prefix_from(m0, pd, k as int + 1),
        decreases n - k,
    {
        let i = k + 1;
        let kind = fs.kind_at_prefix(path, i);
        if kind == Some(false) {
            proof {
                assert(mkdir_bad_prefix_from(m0, pd, i as int) == Some(pd.take(i as int)));
            }
            return Err(BuildError::NotADirectory { path: prefix_of(path, i) });
        }
        proof {
            assert(map_get(m0, pd.take(i as int)) != Some(false));
        }
        k = i;
    }
    proof {
        assert(mkdir_bad_prefix(m0, pd) == None::<Seq<Seq<char>>>);
    }
    let mut k2: usize = 0;
    while k2 < n
        invariant
            0 <= k2 <= n,
            fs.wf(),
            pd == path.deep_view(),
            pd.len() == n,
            n == path.len(),
            fs@ == with_dirs(m0, pd.take(k2 as int)),
        decreases n - k2,
    {
        let i2 = k2 + 1;
        let pref = prefix_of(path, i2);
        fs.set_node(&pref, true);
        proof {
            assert(pd.take(i2 as int).drop_last() =~= pd.take(k2 as int));
            assert(fs@ == with_dirs(m0, pd.take(i2 as int)));
        }
        k2 = i2;
    }
    proof {
        assert(pd.take(n as int) =~= pd);
    }
    push_dv(acts, Action::MkDirAll(clone_path(path)));
    Ok(())
}

/// Ensure a directory at `path`, updating the model and appending the
/// actions and events of this step; mirrors [`spec_ensure_dir`].
pub fn ensure_dir(
    fs: &mut FsModel,
    path: &Vec<String>,
    opts: Options,
    acts: &mut Vec<Action>,
    evs: &mut Vec<Event>,
) -> (r: Result<(), BuildError>)
    requires
        old(fs).wf(),
    ensures
        final(fs).wf(),
        ({
            let st = spec_ensure_dir(old(fs)@, path.deep_view(), opts);
            &&& final(fs)@ == st.fs
            &&& final(acts).deep_view() == old(acts).deep_view() + st.actions
            &&& final(evs).deep_view() == old(evs).deep_view() + st.events
            &&& (match r {
                Ok(_) => st.error is None,
                Err(e) => st.error == Some(e.deep_view()),
            })
        }),
{
    let ghost m0 = fs@;
    let ghost pd = path.deep_view();
    let ghost acts0 = acts.deep_view();
    let ghost evs0 = evs.deep_view();
    proof {
        lemma_vec_deep_view(path);
    }
    if path.len() == 0 {
        proof {
            assert(acts.deep_view() =~= acts0 + spec_ensure_dir(m0, pd, opts).actions);
            assert(evs.deep_view() =~= evs0 + spec_ensure_dir(m0, pd, opts).events);
        }
        return Ok(());
    }
    let kind = fs.kind_at(path);
    match kind {
        Some(true) => {
            proof {
                assert(acts.deep_view() =~= acts0 + spec_ensure_dir(m0, pd, opts).actions);
                assert(evs.deep_view() =~= evs0 + spec_ensure_dir(m0, pd, opts).events);
            }
            Ok(())
        },
        Some(false) => {
            if opts.force {
                push_dv(evs, Event::RemovingFileForDir(clone_path(path)));
                if opts.dry_run {
                    push_dv(evs, Event::WouldRemoveFile(clone_path(path)));
                    proof {
                        let st = spec_ensure_dir(m0, pd, opts);
                        assert(acts.deep_view() =~= acts0 + st.actions);
                        assert(evs.deep_view() =~= evs0 + st.events);
                    }
                    Ok(())
                } else {
                    fs.remove_node(path);
                    push_dv(acts, Action::RemoveFile(clone_path(path)));
                    let ghost m1 = m0.remove(pd);
                    let res = mkdir_all(fs, path, acts);
                    proof {
                        let st = spec_ensure_dir(m0, pd, opts);
                        assert(acts.deep_view() =~= acts0 + st.actions);
                        assert(evs.deep_view() =~= evs0 + st.events);
                    }
                    match res {
                        Ok(_) => Ok(()),
                        Err(e) => Err(e),
                    }
                }
            } else {
                proof {
                    let st = spec_ensure_dir(m0, pd, opts);
                    assert(acts.deep_view() =~= acts0 + st.actions);
                    assert(evs.deep_view() =~= evs0 + st.events);
                }
                Err(BuildError::Conflict { path: clone_path(path), expected_dir: true })
            }
        },
        None => {
            if opts.dry_run {
                push_dv(evs, Event::WouldMkdir(clone_path(path)));
                proof {
                    let st = spec_ensure_dir(m0, pd, opts);
                    assert(acts.deep_view() =~= acts0 + st.actions);
                    assert(evs.deep_view() =~= evs0 + st.events);
                }
                Ok(())
            } else {
                let res = mkdir_all(fs, path, acts);
                proof {
                    let st = spec_ensure_dir(m0, pd, opts);
                    assert(acts.deep_view() =~= acts0 + st.actions);
                    assert(evs.deep_view() =~= evs0 + st.events);
                }
                match res {
                    Ok(_) => Ok(()),
                    Err(e) => Err(e),
                }
            }
        },
    }
}

/// Ensure a regular file at `path`, updating the model and appending the
/// actions and events of this step; mirrors [`spec_touch_file`].
pub fn touch_file(
    fs: &mut FsModel,
    path: &Vec<String>,
    opts: Options,
    acts: &mut Vec<Action>,
    evs: &mut Vec<Event>,
) -> (r: Result<(), BuildError>)
    requires
        old(fs).wf(),
    ensures
        final(fs).wf(),
        ({
            let st = spec_touch_file(old(fs)@, path.deep_view(), opts);
            &&& final(fs)@ == st.fs
            &&& final(acts).deep_view() == old(acts).deep_view() + st.actions
            &&& final(evs).deep_view() == old(evs).deep_view() + st.events
            &&& (match r {
                Ok(_) => st.error is None,
                Err(e) => st.error == Some(e.deep_view()),
            })
        }),
{
    let ghost m0 = fs@;
    let ghost pd = path.deep_view();
    let ghost acts0 = acts.deep_view();
    let ghost evs0 = evs.deep_view();
    proof {
        lemma_vec_deep_view(path);
    }
    let parent = if path.len() > 0 {
        prefix_of(path, path.len() - 1)
    } else {
        clone_path(path)
    };
    proof {
        if pd.len() > 0 {
            assert(parent.deep_view() =~= pd.drop_last());
        }
    }
    let ghost sd = spec_ensure_dir(m0, if pd.len() > 0 { pd.drop_last() } else { pd }, opts);
    match ensure_dir(fs, &parent, opts, acts, evs) {
        Err(e) => {
            return Err(e);
        },
        Ok(_) => {},
    }
    let kind = if path.len() == 0 {
        Some(true)
    } else {
        fs.kind_at(path)
    };
    proof {
        assert(kind == target_kind(sd.fs, pd));
    }
    match kind {
        Some(true) => {
            if opts.force {
                push_dv(evs, Event::RemovingDirForFile(clone_path(path)));
                if opts.dry_run {
                    push_dv(evs, Event::WouldRemoveDir(clone_path(path)));
                    push_dv(evs, Event::WouldTouch(clone_path(path)));
                    proof {
                        let st = spec_touch_file(m0, pd, opts);
                        assert(acts.deep_view() =~= acts0 + st.actions);
                        assert(evs.deep_view() =~= evs0 + st.events);
                    }
                    Ok(())
                } else {
                    fs.remove_subtree(path);
                    fs.set_node(path, false);
                    push_dv(acts, Action::RemoveDirAll(clone_path(path)));
                    push_dv(acts, Action::CreateFile(clone_path(path)));
                    proof {
                        let st = spec_touch_file(m0, pd, opts);
                        assert(acts.deep_view() =~= acts0 + st.actions);
                        assert(evs.deep_view() =~= evs0 + st.events);
                    }
                    Ok(())
                }
            } else {
                proof {
                    let st = spec_touch_file(m0, pd, opts);
                    assert(acts.deep_view() =~= acts0 + st.actions);
                    assert(evs.deep_view() =~= evs0 + st.events);
                }
                Err(BuildError::Conflict { path: clone_path(path), expected_dir: false })
            }
        },
        Some(false) => {
            proof {
                let st = spec_touch_file(m0, pd, opts);
                assert(acts.deep_view() =~= acts0 + st.actions);
                assert(evs.deep_view() =~= evs0 + st.events);
            }
            Ok(())
        },
        None => {
            if opts.dry_run {
                push_dv(evs, Event::WouldTouch(clone_path(path)));
                proof {
                    let st = spec_touch_file(m0, pd, opts);
                    assert(acts.deep_view() =~= acts0 + st.actions);
                    assert(evs.deep_view() =~= evs0 + st.events);
                }
                Ok(())
            } else {
                fs.set_node(path, false);
                push_dv(acts, Action::CreateFile(clone_path(path)));
                proof {
                    let st = spec_touch_file(m0, pd, opts);
                    assert(acts.deep_view() =~= acts0 + st.actions);
                    assert(evs.deep_view() =~= evs0 + st.events);
                }
                Ok(())
            }
        },
    }
}

/// The outcome of one run: the ordered filesystem mutations, the report
/// events, and the error that stopped the walk, if any. Everything
/// emitted before the error is kept, since those effects were already
/// decided when the walk stopped.
pub struct RunReport {
    pub actions: Vec<Action>,
    pub events: Vec<Event>,
    pub error: Option<BuildError>,
}

/// Walk the ordered, type-resolved entries over the filesystem model:
/// reconstruct each entry's path from the depth-indexed ancestor stack,
/// ensure a directory or an empty file there, and stop at the first
/// error. The model is left in the state the real filesystem will reach
/// once the returned actions are applied in order.
pub fn run_maketree_with_entries(entries: &Vec<Entry>, opts: Options, fs: &mut FsModel) -> (r:
    RunReport)
    requires
        old(fs).wf(),
    ensures
        final(fs).wf(),
        ({
            let rr = spec_run(old(fs)@, entries.deep_view(), opts);
            &&& final(fs)@ == rr.fs
            &&& r.actions.deep_view() == rr.actions
            &&& r.events.deep_view() == rr.events
            &&& r.error.deep_view() == rr.error
        }),
{
    let ghost m0 = fs@;
    let ghost dv = entries.deep_view();
    let mut acts: Vec<Action> = Vec::new();
    let mut evs: Vec<Event> = Vec::new();
    let mut stack: Vec<String> = Vec::new();
    proof {
        lemma_vec_deep_view(entries);
        assert(acts.deep_view() =~= Seq::<ActionV>::empty());
        assert(evs.deep_view() =~= Seq::<EventV>::empty());
        assert(stack.deep_view() =~= Seq::<Seq<char>>::empty());
        assert(dv.take(0) =~= Seq::<EntryV>::empty());
    }
    let mut i: usize = 0;
    while i < entries.len()
        invariant
            0 <= i <= entries.len(),
            fs.wf(),
            m0 == old(fs)@,
            dv == entries.deep_view(),
            dv.len() == entries.len(),
            ({
                let rr = spec_run_from(m0, Seq::empty(), dv.take(i as int), opts);
                &&& rr.error is None
                &&& fs@ == rr.fs
                &&& acts.deep_view() == rr.actions
                &&& evs.deep_view() == rr.events
                &&& stack.deep_view() == stack_after(Seq::empty(), dv.take(i as int))
            }),
        decreases entries.len() - i,
    {
        let ghost pre = spec_run_from(m0, Seq::empty(), dv.take(i as int), opts);
        let ghost spec_stack = stack_after(Seq::empty(), dv.take(i as int));
        let ghost acts_pre = acts.deep_view();
        let ghost evs_pre = evs.deep_view();
        proof {
            lemma_vec_deep_view(entries);
            assert(dv[i as int] == entries@[i as int]@);
        }
        let ghost st = spec_step(pre.fs, spec_stack, dv[i as int], opts);
        let e_depth = entries[i].depth;
        let e_is_dir = entries[i].is_dir;
        resize_stack(&mut stack, e_depth);
        let name = strip_trailing_slashes(entries[i].name.as_str());
        let path = compose_target(&stack, &name);
        let ghost pv = path.deep_view();
        proof {
            assert(pv == compose_path(
                pad_truncate(spec_stack, dv[i as int].depth),
                strip_slashes(dv[i as int].name),
            ));
        }
        let res = if e_is_dir {
            push_dv(&mut evs, Event::MkdirTrace(clone_path(&path)));
            let res = ensure_dir(fs, &path, opts, &mut acts, &mut evs);
            push_dv(&mut stack, name);
            res
        } else {
            push_dv(&mut evs, Event::TouchTrace(clone_path(&path)));
            touch_file(fs, &path, opts, &mut acts, &mut evs)
        };
        proof {
            // The step's emissions match the exec deltas.
            assert(acts.deep_view() == acts_pre + st.actions);
            assert(evs.deep_view() =~= evs_pre + st.events);
            assert(fs@ == st.fs);
            assert(stack.deep_view() == step_stack(spec_stack, dv[i as int]));
        }
        match res {
            Ok(_) => {
                proof {
                    lemma_run_snoc(m0, Seq::empty(), dv.take(i as int), dv[i as int], opts);
                    assert(dv.take(i as int).push(dv[i as int]) =~= dv.take(i as int + 1));
                }
            },
            Err(err) => {
                proof {
                    assert(st.error == Some(err.deep_view()));
                    lemma_run_concat(m0, Seq::empty(), dv.take(i as int), dv.skip(i as int), opts);
                    assert(dv.take(i as int) + dv.skip(i as int) =~= dv);
                    assert(dv.skip(i as int)[0] == dv[i as int]);
                    assert(dv.skip(i as int).len() > 0);
                    let rb = spec_run_from(pre.fs, spec_stack, dv.skip(i as int), opts);
                    assert(rb == st);
                    let rr = spec_run(m0, dv, opts);
                    assert(rr.fs == st.fs);
                    assert(rr.actions == pre.actions + st.actions);
                    assert(rr.events == pre.events + st.events);
                    assert(rr.error == st.error);
                    assert(fs@ == rr.fs);
                    assert(acts.deep_view() == rr.actions);
                    assert(evs.deep_view() == rr.events);
                }
                return RunReport { actions: acts, events: evs, error: Some(err) };
            },
        }
        i = i + 1;
    }
    proof {
        assert(dv.take(entries.len() as int) =~= dv);
    }
    RunReport { actions: acts, events: evs, error: None }
}

/// Some entry is nested or is a directory, so the text reads as a tree
/// description rather than a flat list of paths.
pub open spec fn spec_looks_like_tree(es: Seq<EntryV>) -> bool {
    exists|i: int| 0 <= i < es.len() && ((#[trigger] es[i]).depth > 0 || es[i].is_dir)
}

/// Whether the classified entries describe a tree: some entry is nested
/// or is a directory.
pub fn looks_like_tree(entries: &Vec<Entry>) -> (r: bool)
    ensures
        r == spec_looks_like_tree(entries.deep_view()),
{
    let ghost dv = entries.deep_view();
    proof {
        lemma_vec_deep_view(entries);
    }
    let mut i: usize = 0;
    while i < entries.len()
        invariant
            0 <= i <= entries.len(),
            dv == entries.deep_view(),
            dv.len() == entries.len(),
            forall|j: int| 0 <= j < i ==> !((#[trigger] dv[j]).depth > 0 || dv[j].is_dir),
        decreases entries.len() - i,
    {
        proof {
            lemma_vec_deep_view(entries);
            assert(dv[i as int] == entries@[i as int]@);
        }
        if entries[i].depth > 0 || entries[i].is_dir {
            return true;
        }
        i = i + 1;
    }
    false
}

/// The target paths of the entries, in order; they depend on the entries
/// alone, never on the filesystem.
pub open spec fn spec_entry_paths_from(stack: Seq<Seq<char>>, es: Seq<EntryV>) -> Seq<
    Seq<Seq<char>>,
>
    decreases es.len(),
{
    if es.len() == 0 {
        seq![]
    } else {
        seq![
            compose_path(pad_truncate(stack, es[0].depth), strip_slashes(es[0].name)),
        ] + spec_entry_paths_from(step_stack(stack, es[0]), es.drop_first())
    }
}

pub open spec fn spec_entry_paths(es: Seq<EntryV>) -> Seq<Seq<Seq<char>>> {
    spec_entry_paths_from(Seq::empty(), es)
}

proof fn lemma_entry_paths_concat(stack: Seq<Seq<char>>, a: Seq<EntryV>, b: Seq<EntryV>)
    ensures
        spec_entry_paths_from(stack, a + b) == spec_entry_paths_from(stack, a)
            + spec_entry_paths_from(stack_after(stack, a), b),
    decreases a.len(),
{
    if a.len() == 0 {
        assert(a + b =~= b);
        assert(spec_entry_paths_from(stack, a + b) =~= spec_entry_paths_from(stack, a)
            + spec_entry_paths_from(stack_after(stack, a), b));
    } else {
        assert((a + b)[0] == a[0]);
        assert((a + b).drop_first() =~= a.drop_first() + b);
        lemma_entry_paths_concat(step_stack(stack, a[0]), a.drop_first(), b);
        assert(spec_entry_paths_from(stack, a + b) =~= spec_entry_paths_from(stack, a)
            + spec_entry_paths_from(stack_after(stack, a), b));
    }
}

proof fn lemma_entry_paths_snoc(stack: Seq<Seq<char>>, es: Seq<EntryV>, e: EntryV)
    ensures
        spec_entry_paths_from(stack, es.push(e)) == spec_entry_paths_from(stack, es).push(
            compose_path(pad_truncate(stack_after(stack, es), e.depth), strip_slashes(e.name)),
        ),
        stack_after(stack, es.push(e)) == step_stack(stack_after(stack, es), e),
{
    lemma_entry_paths_concat(stack, es, seq![e]);
    lemma_stack_after_concat(stack, es, seq![e]);
    assert(es + seq![e] =~= es.push(e));
    let sa = stack_after(stack, es);
    assert(seq![e][0] == e);
    assert(seq![e].drop_first() =~= Seq::<EntryV>::empty());
    let t = compose_path(pad_truncate(sa, e.depth), strip_slashes(e.name));
    assert(spec_entry_paths_from(step_stack(sa, e), Seq::<EntryV>::empty()) =~= Seq::<
        Seq<Seq<char>>,
    >::empty());
    assert(spec_entry_paths_from(sa, seq![e]) =~= seq![t]);
    assert(spec_entry_paths_from(stack, es) + seq![t] =~= spec_entry_paths_from(stack, es).push(
        t,
    ));
    assert(stack_after(step_stack(sa, e), Seq::<EntryV>::empty()) == step_stack(sa, e));
    assert(stack_after(sa, seq![e]) == step_stack(sa, e));
}

/// The path each entry will be materialized at, in entry order. A front
/// end uses this to know which paths of the real filesystem to query
/// into the model before a run.
pub fn entry_paths(entries: &Vec<Entry>) -> (r: Vec<Vec<String>>)
    ensures
        r.deep_view() == spec_entry_paths(entries.deep_view()),
{
    let ghost dv = entries.deep_view();
    let mut out: Vec<Vec<String>> = Vec::new();
    let mut stack: Vec<String> = Vec::new();
    proof {
        lemma_vec_deep_view(entries);
        assert(out.deep_view() =~= Seq::<Seq<Seq<char>>>::empty());
        assert(stack.deep_view() =~= Seq::<Seq<char>>::empty());
        assert(dv.take(0) =~= Seq::<EntryV>::empty());
    }
    let mut i: usize = 0;
    while i < entries.len()
        invariant
            0 <= i <= entries.len(),
            dv == entries.deep_view(),
            dv.len() == entries.len(),
            out.deep_view() == spec_entry_paths_from(Seq::empty(), dv.take(i as int)),
            stack.deep_view() == stack_after(Seq::empty(), dv.take(i as int)),
        decreases entries.len() - i,
    {
        let ghost spec_stack = stack_after(Seq::empty(), dv.take(i as int));
        proof {
            lemma_vec_deep_view(entries);
            assert(dv[i as int] == entries@[i as int]@);
        }
        resize_stack(&mut stack, entries[i].depth);
        let name = strip_trailing_slashes(entries[i].name.as_str());
        let path = compose_target(&stack, &name);
        let e_is_dir = entries[i].is_dir;
        push_dv(&mut out, path);
        if e_is_dir {
            push_dv(&mut stack, name);
        }
        proof {
            lemma_entry_paths_snoc(Seq::empty(), dv.take(i as int), dv[i as int]);
            assert(dv.take(i as int).push(dv[i as int]) =~= dv.take(i as int + 1));
            assert(out.deep_view() =~= spec_entry_paths_from(Seq::empty(), dv.take(i as int + 1)));
            assert(stack.deep_view() == stack_after(Seq::empty(), dv.take(i as int + 1)));
        }
        i = i + 1;
    }
    proof {
        assert(dv.take(entries.len() as int) =~= dv);
    }
    out
}

} // verus!
