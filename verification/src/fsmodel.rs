//! An in-memory model of the part of the filesystem a materialization run
//! touches: a finite map from relative paths (component lists) to a node
//! kind (`true` = directory, `false` = regular file).
//!
//! A front end fills the model by querying the real filesystem for every
//! path the entry list can reach, runs the builder against the model, and
//! applies the resulting actions to the real filesystem.

use vstd::prelude::*;

verus! {

/// Spec-level image of an [`FsNode`].
pub struct FsNodeV {
    pub path: Seq<Seq<char>>,
    pub is_dir: bool,
}

/// One known node: a relative path as components, and whether it is a
/// directory.
pub struct FsNode {
    pub path: Vec<String>,
    pub is_dir: bool,
}

impl View for FsNode {
    type V = FsNodeV;

    open spec fn view(&self) -> FsNodeV {
        FsNodeV { path: self.path.deep_view(), is_dir: self.is_dir }
    }
}

impl DeepView for FsNode {
    type V = FsNodeV;

    open spec fn deep_view(&self) -> FsNodeV {
        self.view()
    }
}

/// The element-wise deep view of a sequence.
pub open spec fn seq_deep_view<T: DeepView>(s: Seq<T>) -> Seq<T::V> {
    Seq::new(s.len(), |i: int| s[i].deep_view())
}

/// A vector's deep view is the element-wise deep view of its view.
pub proof fn lemma_vec_deep_view<T: DeepView>(v: &Vec<T>)
    ensures
        v.deep_view() == seq_deep_view(v@),
        v.deep_view().len() == v@.len(),
        forall|i: int| 0 <= i < v@.len() ==> v.deep_view()[i] == (#[trigger] v@[i]).deep_view(),
{
    assert(v.deep_view() =~= seq_deep_view(v@));
}

pub proof fn lemma_seq_deep_view_push<T: DeepView>(s: Seq<T>, x: T)
    ensures
        seq_deep_view(s.push(x)) =~= seq_deep_view(s).push(x.deep_view()),
{
}

/// Push that keeps the deep view in step.
pub fn push_dv<T: DeepView>(v: &mut Vec<T>, x: T)
    ensures
        final(v).deep_view() == old(v).deep_view().push(x.deep_view()),
{
    let ghost pre_seq = v@;
    let ghost pre_dv = v.deep_view();
    proof {
        lemma_vec_deep_view(v);
    }
    v.push(x);
    proof {
        lemma_vec_deep_view(v);
        lemma_seq_deep_view_push(pre_seq, v@[pre_seq.len() as int]);
        assert(v.deep_view() =~= pre_dv.push(v@[pre_seq.len() as int].deep_view()));
    }
}

/// `p` is `q` or an ancestor of `q`, component-wise.
pub open spec fn is_prefix_of(p: Seq<Seq<char>>, q: Seq<Seq<char>>) -> bool {
    p.len() <= q.len() && q.take(p.len() as int) == p
}

/// Map lookup as an `Option`.
pub open spec fn map_get(m: Map<Seq<Seq<char>>, bool>, k: Seq<Seq<char>>) -> Option<bool> {
    if m.dom().contains(k) {
        Some(m[k])
    } else {
        None
    }
}

/// `m` without `p` and without everything below `p`.
pub open spec fn subtree_removed(m: Map<Seq<Seq<char>>, bool>, p: Seq<Seq<char>>) -> Map<
    Seq<Seq<char>>,
    bool,
> {
    Map::new(|k: Seq<Seq<char>>| m.dom().contains(k) && !is_prefix_of(p, k), |k| m[k])
}

/// The association list read as a map; a later node wins over an earlier
/// one with the same path.
pub open spec fn nodes_map(s: Seq<FsNodeV>) -> Map<Seq<Seq<char>>, bool>
    decreases s.len(),
{
    if s.len() == 0 {
        Map::empty()
    } else {
        nodes_map(s.drop_last()).insert(s.last().path, s.last().is_dir)
    }
}

/// No two nodes share a path.
pub open spec fn distinct_paths(s: Seq<FsNodeV>) -> bool {
    forall|i: int, j: int| 0 <= i < j < s.len() ==> (#[trigger] s[i]).path != (#[trigger] s[j]).path
}

pub proof fn lemma_nodes_map_dom(s: Seq<FsNodeV>)
    ensures
        forall|k: Seq<Seq<char>>|
            #[trigger] nodes_map(s).dom().contains(k) <==> exists|i: int|
                0 <= i < s.len() && (#[trigger] s[i]).path == k,
    decreases s.len(),
{
    if s.len() == 0 {
    } else {
        let s0 = s.drop_last();
        lemma_nodes_map_dom(s0);
        assert forall|k: Seq<Seq<char>>|
            #[trigger] nodes_map(s).dom().contains(k) <==> exists|i: int|
                0 <= i < s.len() && (#[trigger] s[i]).path == k by {
            if nodes_map(s).dom().contains(k) {
                if k == s.last().path {
                    assert(s[s.len() - 1].path == k);
                } else {
                    assert(nodes_map(s0).dom().contains(k));
                    let i = choose|i: int| 0 <= i < s0.len() && (#[trigger] s0[i]).path == k;
                    assert(s[i].path == k);
                }
            }
            if exists|i: int| 0 <= i < s.len() && (#[trigger] s[i]).path == k {
                let i = choose|i: int| 0 <= i < s.len() && (#[trigger] s[i]).path == k;
                if i == s.len() - 1 {
                    assert(nodes_map(s).dom().contains(k));
                } else {
                    assert(s0[i].path == k);
                    assert(nodes_map(s0).dom().contains(k));
                }
            }
        }
    }
}

pub proof fn lemma_nodes_map_get(s: Seq<FsNodeV>, i: int)
    requires
        distinct_paths(s),
        0 <= i < s.len(),
    ensures
        nodes_map(s).dom().contains(s[i].path),
        nodes_map(s)[s[i].path] == s[i].is_dir,
    decreases s.len(),
{
    if i == s.len() - 1 {
    } else {
        let s0 = s.drop_last();
        assert forall|a: int, b: int| 0 <= a < b < s0.len() implies (#[trigger] s0[a]).path != (
        #[trigger] s0[b]).path by {
            assert(s[a] == s0[a] && s[b] == s0[b]);
        }
        lemma_nodes_map_get(s0, i);
        assert(s.last().path != s[i].path);
    }
}

/// Every element of a filtered sequence occurs in the original.
proof fn lemma_filter_member(s: Seq<FsNodeV>, pred: spec_fn(FsNodeV) -> bool, j: int)
    requires
        0 <= j < s.filter(pred).len(),
    ensures
        exists|i: int| 0 <= i < s.len() && s[i] == s.filter(pred)[j],
    decreases s.len(),
{
    reveal(Seq::filter);
    if s.len() > 0 {
        let s0 = s.drop_last();
        if j < s0.filter(pred).len() {
            lemma_filter_member(s0, pred, j);
            let i = choose|i: int| 0 <= i < s0.len() && s0[i] == s0.filter(pred)[j];
            assert(s[i] == s.filter(pred)[j]);
        } else {
            assert(s[s.len() - 1] == s.filter(pred)[j]);
        }
    }
}

proof fn lemma_filter_distinct(s: Seq<FsNodeV>, pred: spec_fn(FsNodeV) -> bool)
    requires
        distinct_paths(s),
    ensures
        distinct_paths(s.filter(pred)),
        forall|j: int|
            0 <= j < s.filter(pred).len() ==> pred(#[trigger] s.filter(pred)[j]) && exists|i: int|
                0 <= i < s.len() && s[i] == s.filter(pred)[j],
    decreases s.len(),
{
    reveal(Seq::filter);
    let f = s.filter(pred);
    if s.len() == 0 {
    } else {
        let s0 = s.drop_last();
        assert forall|a: int, b: int| 0 <= a < b < s0.len() implies (#[trigger] s0[a]).path != (
        #[trigger] s0[b]).path by {
            assert(s[a] == s0[a] && s[b] == s0[b]);
        }
        lemma_filter_distinct(s0, pred);
        let f0 = s0.filter(pred);
        assert forall|j: int| 0 <= j < f.len() implies pred(#[trigger] f[j]) && exists|i: int|
            0 <= i < s.len() && s[i] == f[j] by {
            if j < f0.len() {
                let i = choose|i: int| 0 <= i < s0.len() && s0[i] == f0[j];
                assert(s[i] == f[j]);
            } else {
                assert(f[j] == s.last());
                assert(s[s.len() - 1] == f[j]);
            }
        }
        assert forall|a: int, b: int| 0 <= a < b < f.len() implies (#[trigger] f[a]).path != (
        #[trigger] f[b]).path by {
            if b < f0.len() {
            } else {
                // b is the appended last element; a's witness sits strictly
                // before the last index of s.
                lemma_filter_member(s0, pred, a);
                let i = choose|i: int| 0 <= i < s0.len() && s0[i] == f0[a];
                assert(s[i] == f[a]);
                assert(s[i].path != s[s.len() - 1].path);
            }
        }
    }
}

/// The predicate that keeps every node but the one at `k`.
pub open spec fn keeps_other_keys(k: Seq<Seq<char>>) -> spec_fn(FsNodeV) -> bool {
    |n: FsNodeV| n.path != k
}

/// The predicate that keeps every node outside the subtree at `p`.
pub open spec fn keeps_outside(p: Seq<Seq<char>>) -> spec_fn(FsNodeV) -> bool {
    |n: FsNodeV| !is_prefix_of(p, n.path)
}

/// Filtering out one key is map removal.
proof fn lemma_filter_remove_key(s: Seq<FsNodeV>, k: Seq<Seq<char>>)
    ensures
        nodes_map(s.filter(keeps_other_keys(k))) == nodes_map(s).remove(k),
    decreases s.len(),
{
    reveal(Seq::filter);
    let pred = keeps_other_keys(k);
    let f = s.filter(pred);
    if s.len() == 0 {
        assert(f =~= s);
        assert(nodes_map(f) =~= nodes_map(s).remove(k));
    } else {
        let s0 = s.drop_last();
        lemma_filter_remove_key(s0, k);
        let f0 = s0.filter(pred);
        if s.last().path == k {
            assert(f == f0);
            assert(nodes_map(f) =~= nodes_map(s).remove(k));
        } else {
            assert(f == f0.push(s.last()));
            assert(f.drop_last() =~= f0);
            assert(f.last() == s.last());
            assert(nodes_map(f) == nodes_map(f0).insert(s.last().path, s.last().is_dir));
            assert(nodes_map(f) =~= nodes_map(s).remove(k));
        }
    }
}

/// Filtering out a whole subtree is `subtree_removed`.
proof fn lemma_filter_remove_subtree(s: Seq<FsNodeV>, p: Seq<Seq<char>>)
    ensures
        nodes_map(s.filter(keeps_outside(p))) == subtree_removed(nodes_map(s), p),
    decreases s.len(),
{
    reveal(Seq::filter);
    let pred = keeps_outside(p);
    let f = s.filter(pred);
    if s.len() == 0 {
        assert(f =~= s);
        assert(nodes_map(f) =~= subtree_removed(nodes_map(s), p));
    } else {
        let s0 = s.drop_last();
        lemma_filter_remove_subtree(s0, p);
        let f0 = s0.filter(pred);
        if is_prefix_of(p, s.last().path) {
            assert(f == f0);
            assert(nodes_map(f) =~= subtree_removed(nodes_map(s), p));
        } else {
            assert(f == f0.push(s.last()));
            assert(f.drop_last() =~= f0);
            assert(f.last() == s.last());
            assert(nodes_map(f) == nodes_map(f0).insert(s.last().path, s.last().is_dir));
            assert(nodes_map(f) =~= subtree_removed(nodes_map(s), p));
        }
    }
}

/// Compare `a` against the first `k` components of `b`.
pub fn path_eq_take(a: &Vec<String>, b: &Vec<String>, k: usize) -> (r: bool)
    requires
        k <= b.len(),
    ensures
        r == (a.deep_view() == b.deep_view().take(k as int)),
{
    if a.len() != k {
        assert(a.deep_view().len() == a.len());
        return false;
    }
    let mut j: usize = 0;
    while j < k
        invariant
            0 <= j <= k <= b.len(),
            a.len() == k,
            forall|t: int| 0 <= t < j ==> a.deep_view()[t] == b.deep_view()[t],
        decreases k - j,
    {
        if !(a[j] == b[j]) {
            assert(a.deep_view()[j as int] == a@[j as int]@);
            assert(b.deep_view()[j as int] == b@[j as int]@);
            assert(a.deep_view() != b.deep_view().take(k as int)) by {
                assert(b.deep_view().take(k as int)[j as int] == b.deep_view()[j as int]);
            }
            return false;
        }
        assert(a.deep_view()[j as int] == a@[j as int]@);
        assert(b.deep_view()[j as int] == b@[j as int]@);
        j = j + 1;
    }
    assert(a.deep_view() =~= b.deep_view().take(k as int));
    true
}

/// Whole-path equality.
pub fn path_eq(a: &Vec<String>, b: &Vec<String>) -> (r: bool)
    ensures
        r == (a.deep_view() == b.deep_view()),
{
    let r = path_eq_take(a, b, b.len());
    assert(b.deep_view().take(b.len() as int) =~= b.deep_view());
    r
}

/// Whether `p` is `q` or an ancestor of `q`.
pub fn path_is_prefix(p: &Vec<String>, q: &Vec<String>) -> (r: bool)
    ensures
        r == is_prefix_of(p.deep_view(), q.deep_view()),
{
    if p.len() > q.len() {
        return false;
    }
    let r = path_eq_take(p, q, p.len());
    assert(p.deep_view().len() == p.len());
    r
}

/// Copy of a component path.
pub fn clone_path(p: &Vec<String>) -> (r: Vec<String>)
    ensures
        r@ == p@,
        r.deep_view() == p.deep_view(),
{
    let mut out: Vec<String> = Vec::new();
    let mut j: usize = 0;
    while j < p.len()
        invariant
            0 <= j <= p.len(),
            out@ =~= p@.take(j as int),
        decreases p.len() - j,
    {
        out.push(p[j].clone());
        assert(out@ =~= p@.take(j as int + 1));
        j = j + 1;
    }
    assert(out@ =~= p@);
    assert(out.deep_view() =~= p.deep_view());
    out
}

/// Copy of the first `k` components of `p`.
pub fn prefix_of(p: &Vec<String>, k: usize) -> (r: Vec<String>)
    requires
        k <= p.len(),
    ensures
        r@ == p@.take(k as int),
        r.deep_view() == p.deep_view().take(k as int),
{
    let mut out: Vec<String> = Vec::new();
    let mut j: usize = 0;
    while j < k
        invariant
            0 <= j <= k <= p.len(),
            out@ =~= p@.take(j as int),
        decreases k - j,
    {
        out.push(p[j].clone());
        assert(out@ =~= p@.take(j as int + 1));
        j = j + 1;
    }
    assert(out.deep_view() =~= p.deep_view().take(k as int));
    out
}

fn clone_node(n: &FsNode) -> (r: FsNode)
    ensures
        r@ == n@,
{
    FsNode { path: clone_path(&n.path), is_dir: n.is_dir }
}

/// The filesystem model: a finite path-to-kind map.
pub struct FsModel {
    nodes: Vec<FsNode>,
}

impl View for FsModel {
    type V = Map<Seq<Seq<char>>, bool>;

    closed spec fn view(&self) -> Map<Seq<Seq<char>>, bool> {
        nodes_map(self.nodes.deep_view())
    }
}

impl FsModel {
    /// Internal invariant: one node per path.
    pub closed spec fn wf(&self) -> bool {
        distinct_paths(self.nodes.deep_view())
    }

    /// An empty model: nothing is known to exist.
    pub fn new() -> (r: FsModel)
        ensures
            r.wf(),
            r@ == Map::<Seq<Seq<char>>, bool>::empty(),
    {
        let m = FsModel { nodes: Vec::new() };
        proof {
            assert(m.nodes.deep_view() =~= Seq::<FsNodeV>::empty());
        }
        m
    }

    /// The kind recorded for the first `k` components of `p`, if any.
    pub fn kind_at_prefix(&self, p: &Vec<String>, k: usize) -> (r: Option<bool>)
        requires
            self.wf(),
            k <= p.len(),
        ensures
            r == map_get(self@, p.deep_view().take(k as int)),
    {
        let ghost key = p.deep_view().take(k as int);
        let ghost dv = self.nodes.deep_view();
        let mut i: usize = 0;
        while i < self.nodes.len()
            invariant
                0 <= i <= self.nodes.len(),
                self.wf(),
                k <= p.len(),
                dv == self.nodes.deep_view(),
                key == p.deep_view().take(k as int),
                forall|t: int| 0 <= t < i ==> (#[trigger] dv[t]).path != key,
            decreases self.nodes.len() - i,
        {
            if path_eq_take(&self.nodes[i].path, p, k) {
                proof {
                    assert(dv[i as int] == self.nodes@[i as int]@);
                    assert(dv[i as int].path == key);
                    lemma_nodes_map_get(dv, i as int);
                }
                return Some(self.nodes[i].is_dir);
            }
            proof {
                assert(dv[i as int] == self.nodes@[i as int]@);
            }
            i = i + 1;
        }
        proof {
            lemma_nodes_map_dom(dv);
            assert(!self@.dom().contains(key));
        }
        None
    }

    /// The kind recorded for `p`, if any.
    pub fn kind_at(&self, p: &Vec<String>) -> (r: Option<bool>)
        requires
            self.wf(),
        ensures
            r == map_get(self@, p.deep_view()),
    {
        let r = self.kind_at_prefix(p, p.len());
        proof {
            assert(p.deep_view().take(p.len() as int) =~= p.deep_view());
        }
        r
    }

    /// Keep only the nodes accepted by one filtering pass; shared by the
    /// removal operations.
    fn retain_filtered(&mut self, p: &Vec<String>, subtree: bool)
        requires
            old(self).wf(),
        ensures
            final(self).wf(),
            subtree ==> final(self).nodes.deep_view() == old(self).nodes.deep_view().filter(
                keeps_outside(p.deep_view()),
            ),
            !subtree ==> final(self).nodes.deep_view() == old(self).nodes.deep_view().filter(
                keeps_other_keys(p.deep_view()),
            ),
    {
        let ghost dv = self.nodes.deep_view();
        let ghost pred = if subtree {
            keeps_outside(p.deep_view())
        } else {
            keeps_other_keys(p.deep_view())
        };
        let mut kept: Vec<FsNode> = Vec::new();
        let mut i: usize = 0;
        proof {
            reveal(Seq::filter);
        }
        while i < self.nodes.len()
            invariant
                0 <= i <= self.nodes.len(),
                dv == self.nodes.deep_view(),
                dv.len() == self.nodes.len(),
                kept.deep_view() == dv.take(i as int).filter(pred),
                pred == (if subtree {
                    keeps_outside(p.deep_view())
                } else {
                    keeps_other_keys(p.deep_view())
                }),
            decreases self.nodes.len() - i,
        {
            proof {
                reveal(Seq::filter);
                assert(dv[i as int] == self.nodes@[i as int]@);
                assert(dv.take(i as int + 1).drop_last() =~= dv.take(i as int));
                assert(dv.take(i as int + 1).last() == dv[i as int]);
            }
            let keep = if subtree {
                !path_is_prefix(p, &self.nodes[i].path)
            } else {
                !path_eq(&self.nodes[i].path, p)
            };
            if keep {
                let ghost prev_seq = kept@;
                kept.push(clone_node(&self.nodes[i]));
                proof {
                    assert(kept@ == prev_seq.push(kept@[prev_seq.len() as int]));
                    assert(kept.deep_view() =~= dv.take(i as int + 1).filter(pred)) by {
                        assert(kept.deep_view().len() == kept@.len());
                        assert forall|t: int| 0 <= t < kept@.len() implies kept.deep_view()[t]
                            == dv.take(i as int + 1).filter(pred)[t] by {
                            assert(kept.deep_view()[t] == kept@[t]@);
                            if t < prev_seq.len() {
                                assert(kept@[t] == prev_seq[t]);
                            }
                        }
                    }
                }
            } else {
                proof {
                    assert(kept.deep_view() == dv.take(i as int + 1).filter(pred));
                }
            }
            i = i + 1;
        }
        proof {
            assert(dv.take(dv.len() as int) =~= dv);
        }
        self.nodes = kept;
        proof {
            lemma_filter_distinct(dv, pred);
        }
    }

    /// Record `p` as a directory or a file, replacing what was known.
    pub fn set_node(&mut self, p: &Vec<String>, is_dir: bool)
        requires
            old(self).wf(),
        ensures
            final(self).wf(),
            final(self)@ == old(self)@.insert(p.deep_view(), is_dir),
    {
        let ghost dv = self.nodes.deep_view();
        self.retain_filtered(p, false);
        let ghost fdv = self.nodes.deep_view();
        let ghost prev_seq = self.nodes@;
        let node = FsNode { path: clone_path(p), is_dir };
        self.nodes.push(node);
        proof {
            lemma_filter_remove_key(dv, p.deep_view());
            lemma_filter_distinct(dv, keeps_other_keys(p.deep_view()));
            assert(self.nodes.deep_view() =~= fdv.push(
                FsNodeV { path: p.deep_view(), is_dir },
            )) by {
                assert(self.nodes@ == prev_seq.push(self.nodes@[prev_seq.len() as int]));
                assert forall|t: int| 0 <= t < self.nodes@.len() implies self.nodes.deep_view()[t]
                    == fdv.push(FsNodeV { path: p.deep_view(), is_dir })[t] by {
                    assert(self.nodes.deep_view()[t] == self.nodes@[t]@);
                    if t < prev_seq.len() {
                        assert(self.nodes@[t] == prev_seq[t]);
                        assert(fdv[t] == prev_seq[t]@);
                    }
                }
            }
            let ndv = fdv.push(FsNodeV { path: p.deep_view(), is_dir });
            assert(nodes_map(ndv) == nodes_map(fdv).insert(p.deep_view(), is_dir)) by {
                assert(ndv.drop_last() =~= fdv);
            }
            assert(self@ =~= old(self)@.insert(p.deep_view(), is_dir));
            // distinctness: the filtered part never holds the new key
            assert forall|a: int, b: int|
                0 <= a < b < ndv.len() implies (#[trigger] ndv[a]).path != (
            #[trigger] ndv[b]).path by {
                if b == ndv.len() - 1 {
                    assert(fdv[a] == ndv[a]);
                    assert((keeps_other_keys(p.deep_view()))(fdv[a]));
                } else {
                    assert(fdv[a] == ndv[a] && fdv[b] == ndv[b]);
                }
            }
        }
    }

    /// Forget `p` (a single node).
    pub fn remove_node(&mut self, p: &Vec<String>)
        requires
            old(self).wf(),
        ensures
            final(self).wf(),
            final(self)@ == old(self)@.remove(p.deep_view()),
    {
        let ghost dv = self.nodes.deep_view();
        self.retain_filtered(p, false);
        proof {
            lemma_filter_remove_key(dv, p.deep_view());
        }
    }

    /// Forget `p` and everything below it.
    pub fn remove_subtree(&mut self, p: &Vec<String>)
        requires
            old(self).wf(),
        ensures
            final(self).wf(),
            final(self)@ == subtree_removed(old(self)@, p.deep_view()),
    {
        let ghost dv = self.nodes.deep_view();
        self.retain_filtered(p, true);
        proof {
            lemma_filter_remove_subtree(dv, p.deep_view());
        }
    }

    /// Read access to the recorded nodes, for rendering and inspection.
    pub fn nodes(&self) -> (r: &Vec<FsNode>)
        requires
            self.wf(),
        ensures
            distinct_paths(r.deep_view()),
            forall|i: int|
                0 <= i < r.deep_view().len() ==> self@.dom().contains(
                    (#[trigger] r.deep_view()[i]).path,
                ) && self@[r.deep_view()[i].path] == r.deep_view()[i].is_dir,
            forall|k: Seq<Seq<char>>|
                #[trigger] self@.dom().contains(k) ==> exists|i: int|
                    0 <= i < r.deep_view().len() && (#[trigger] r.deep_view()[i]).path == k,
    {
        proof {
            lemma_nodes_map_dom(self.nodes.deep_view());
            assert forall|i: int| 0 <= i < self.nodes.deep_view().len() implies self@.dom()
                .contains((#[trigger] self.nodes.deep_view()[i]).path) && self@[self.nodes.deep_view()[i].path]
                == self.nodes.deep_view()[i].is_dir by {
                lemma_nodes_map_get(self.nodes.deep_view(), i);
            }
        }
        &self.nodes
    }
}

} // verus!
