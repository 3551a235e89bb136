//! An in-memory model of a directory tree: a list of entries, each a
//! component path with either directory marker or file contents. The
//! normalizer's two operations, pruning and flattening, are verified
//! functions from tree to tree; the binary mirrors their outcome onto the
//! real filesystem.
use vstd::prelude::*;

use crate::extract::{not_ignored, spec_name_ignored};

verus! {

/// What a tree entry is: a directory, or a file with its contents.
#[derive(Debug, PartialEq, Eq)]
pub enum Node {
    Dir,
    File(Vec<u8>),
}

/// One entry of a directory tree. The path is a non-empty list of name
/// components, relative to the tree's root.
#[derive(Debug, PartialEq, Eq)]
pub struct Entry {
    pub path: Vec<String>,
    pub node: Node,
}

/// The mathematical shape of a node.
pub ghost enum NodeModel {
    Dir,
    File(Seq<u8>),
}

/// The mathematical shape of an entry.
pub ghost struct EntryModel {
    pub path: Seq<Seq<char>>,
    pub node: NodeModel,
}

impl DeepView for Node {
    type V = NodeModel;

    open spec fn deep_view(&self) -> NodeModel {
        match self {
            Node::Dir => NodeModel::Dir,
            Node::File(data) => NodeModel::File(data@),
        }
    }
}

impl DeepView for Entry {
    type V = EntryModel;

    open spec fn deep_view(&self) -> EntryModel {
        EntryModel { path: self.path.deep_view(), node: self.node.deep_view() }
    }
}

/// `p` is a prefix of `q` (possibly equal to it).
pub open spec fn spec_is_prefix(p: Seq<Seq<char>>, q: Seq<Seq<char>>) -> bool {
    p.len() <= q.len() && q.take(p.len() as int) == p
}

/// `q` lies strictly under the directory `p`.
pub open spec fn spec_under(p: Seq<Seq<char>>, q: Seq<Seq<char>>) -> bool {
    p.len() < q.len() && q.take(p.len() as int) == p
}

/// String equality through views.
pub fn str_eq(a: &String, b: &String) -> (r: bool)
    ensures
        r == (a@ == b@),
{
    *a == *b
}

/// Equality of two component paths.
pub fn path_eq(a: &Vec<String>, b: &Vec<String>) -> (r: bool)
    ensures
        r == (a.deep_view() == b.deep_view()),
{
    if a.len() != b.len() {
        assert(a.deep_view().len() != b.deep_view().len());
        return false;
    }
    for j in 0..a.len()
        invariant
            a@.len() == b@.len(),
            forall|t: int| 0 <= t < j ==> a.deep_view()[t] == b.deep_view()[t],
    {
        if !str_eq(&a[j], &b[j]) {
            assert(a.deep_view()[j as int] != b.deep_view()[j as int]);
            return false;
        }
    }
    proof {
        assert(a.deep_view() =~= b.deep_view());
    }
    true
}

/// Whether `p` is a prefix of `q`.
pub fn path_is_prefix(p: &Vec<String>, q: &Vec<String>) -> (r: bool)
    ensures
        r == spec_is_prefix(p.deep_view(), q.deep_view()),
{
    if p.len() > q.len() {
        return false;
    }
    for j in 0..p.len()
        invariant
            p@.len() <= q@.len(),
            forall|t: int| 0 <= t < j ==> p.deep_view()[t] == q.deep_view()[t],
    {
        if !str_eq(&p[j], &q[j]) {
            let ghost qd = q.deep_view();
            assert(qd.take(p.deep_view().len() as int)[j as int] == qd[j as int]);
            return false;
        }
    }
    proof {
        assert(q.deep_view().take(p.deep_view().len() as int) =~= p.deep_view());
    }
    true
}

/// A copy of a component path.
pub fn clone_path(p: &Vec<String>) -> (r: Vec<String>)
    ensures
        r.deep_view() == p.deep_view(),
{
    let mut r: Vec<String> = Vec::new();
    for i in 0..p.len()
        invariant
            r@.len() == i,
            forall|t: int| 0 <= t < i ==> r.deep_view()[t] == p.deep_view()[t],
    {
        let s = &p[i];
        r.push(s.clone());
    }
    proof {
        assert(r.deep_view() =~= p.deep_view());
    }
    r
}

/// A copy of a byte vector.
pub fn clone_bytes(p: &Vec<u8>) -> (r: Vec<u8>)
    ensures
        r@ == p@,
{
    let mut r: Vec<u8> = Vec::new();
    for i in 0..p.len()
        invariant
            r@ == p@.take(i as int),
    {
        r.push(p[i]);
        assert(p@.take(i + 1) =~= p@.take(i as int).push(p@[i as int]));
    }
    assert(p@.take(p@.len() as int) =~= p@);
    r
}

/// The path `at` extended by one final component.
pub fn path_append_name(at: &Vec<String>, name: &String) -> (r: Vec<String>)
    ensures
        r.deep_view() == at.deep_view().push(name@),
{
    let mut r = clone_path(at);
    r.push(name.clone());
    proof {
        assert(r.deep_view() =~= at.deep_view().push(name@));
    }
    r
}

/// The first component index a prune pass at `p` looks at: the name of
/// `p` itself when `p` is not the root, else the first component below
/// the root.
pub open spec fn spec_prune_lo(p: Seq<Seq<char>>) -> int {
    if p.len() == 0 {
        0
    } else {
        p.len() - 1
    }
}

/// An entry at `q` falls to a prune pass rooted at `p`: it lies at or
/// under `p`, and one of the inspected components of its path — from the
/// name of `p` itself down to its own name — is an ignored name. Removing
/// a directory removes everything under it, which is why an ignored
/// component anywhere along the path suffices.
pub open spec fn spec_pruned(p: Seq<Seq<char>>, q: Seq<Seq<char>>) -> bool {
    spec_is_prefix(p, q) && exists|t: int|
        spec_prune_lo(p) <= t < q.len() && spec_name_ignored(#[trigger] q[t])
}

/// The tree after a prune pass rooted at `p`: entries that fall to the
/// pass are gone, all others stay, in order.
pub open spec fn spec_prune_at(tree: Seq<EntryModel>, p: Seq<Seq<char>>) -> Seq<EntryModel>
    decreases tree.len(),
{
    if tree.len() == 0 {
        Seq::empty()
    } else {
        let rest = spec_prune_at(tree.drop_first(), p);
        if spec_pruned(p, tree.first().path) {
            rest
        } else {
            seq![tree.first()] + rest
        }
    }
}

/// Whether the entry at `path` falls to a prune pass rooted at `at`.
pub fn entry_pruned(path: &Vec<String>, at: &Vec<String>) -> (r: bool)
    ensures
        r == spec_pruned(at.deep_view(), path.deep_view()),
{
    if !path_is_prefix(at, path) {
        return false;
    }
    let lo: usize = if at.len() == 0 {
        0
    } else {
        at.len() - 1
    };
    for t in lo..path.len()
        invariant
            lo == spec_prune_lo(at.deep_view()),
            lo <= path@.len(),
            spec_is_prefix(at.deep_view(), path.deep_view()),
            forall|t2: int|
                lo <= t2 < t ==> !spec_name_ignored(#[trigger] path.deep_view()[t2]),
    {
        if !not_ignored(&path[t]) {
            proof {
                let q = path.deep_view();
                assert(q.len() == path@.len());
                assert(spec_is_prefix(at.deep_view(), q));
                assert(spec_prune_lo(at.deep_view()) <= t < q.len() && spec_name_ignored(
                    q[t as int],
                ));
                assert(exists|t2: int|
                    spec_prune_lo(at.deep_view()) <= t2 < q.len() && spec_name_ignored(
                        #[trigger] q[t2],
                    ));
                assert(spec_pruned(at.deep_view(), q));
            }
            return true;
        }
    }
    false
}

/// Remove every entry at or under `at` whose path carries an ignored
/// name: OS metadata, version-control and IDE artifacts, compiled class
/// files. Entries elsewhere in the tree are untouched.
pub fn clean_dirs(tree: Vec<Entry>, at: &Vec<String>) -> (r: Vec<Entry>)
    ensures
        r.deep_view() == spec_prune_at(tree.deep_view(), at.deep_view()),
{
    let ghost orig = tree.deep_view();
    let ghost p = at.deep_view();
    let mut t = tree;
    let mut r: Vec<Entry> = Vec::new();
    while t.len() > 0
        invariant
            p == at.deep_view(),
            spec_prune_at(orig, p) == r.deep_view() + spec_prune_at(t.deep_view(), p),
        decreases t.len(),
    {
        let ghost tv = t.deep_view();
        let ghost rv = r.deep_view();
        let e = t.remove(0);
        proof {
            assert(t.deep_view() =~= tv.drop_first());
            assert(e.deep_view() == tv.first());
        }
        if entry_pruned(&e.path, at) {
            proof {
                assert(rv + spec_prune_at(tv, p) == r.deep_view() + spec_prune_at(
                    t.deep_view(),
                    p,
                ));
            }
        } else {
            r.push(e);
            proof {
                assert(r.deep_view() =~= rv.push(e.deep_view()));
                assert(rv + spec_prune_at(tv, p) =~= r.deep_view() + spec_prune_at(
                    t.deep_view(),
                    p,
                ));
            }
        }
    }
    proof {
        assert(spec_prune_at(t.deep_view(), p) =~= Seq::<EntryModel>::empty());
        assert(r.deep_view() + Seq::<EntryModel>::empty() =~= r.deep_view());
    }
    r
}

proof fn lemma_cons_contains(head: EntryModel, rest: Seq<EntryModel>, e: EntryModel)
    ensures
        (seq![head] + rest).contains(e) <==> (e == head || rest.contains(e)),
{
    let s = seq![head] + rest;
    if e == head {
        assert(s[0] == e);
    }
    if rest.contains(e) {
        let j = choose|j: int| 0 <= j < rest.len() && rest[j] == e;
        assert(s[j + 1] == e);
    }
    if s.contains(e) {
        let j = choose|j: int| 0 <= j < s.len() && s[j] == e;
        if j > 0 {
            assert(rest[j - 1] == e);
        }
    }
}

/// Pruning removes the entries that carry an ignored name in scope, and
/// nothing else: an entry is in the pruned tree exactly when it is in the
/// original tree and does not fall to the pass.
pub proof fn lemma_prune_exact(tree: Seq<EntryModel>, p: Seq<Seq<char>>)
    ensures
        forall|e: EntryModel|
            #![trigger spec_prune_at(tree, p).contains(e)]
            spec_prune_at(tree, p).contains(e) <==> (tree.contains(e) && !spec_pruned(p, e.path)),
    decreases tree.len(),
{
    if tree.len() == 0 {
        assert forall|e: EntryModel| !tree.contains(e) by {
            if tree.contains(e) {
                let j = choose|j: int| 0 <= j < tree.len() && tree[j] == e;
            }
        }
    } else {
        let head = tree.first();
        let rest = tree.drop_first();
        lemma_prune_exact(rest, p);
        let pt = spec_prune_at(tree, p);
        let pr = spec_prune_at(rest, p);
        assert(tree =~= seq![head] + rest);
        assert forall|e: EntryModel| pt.contains(e) <==> (tree.contains(e) && !spec_pruned(
            p,
            e.path,
        )) by {
            lemma_cons_contains(head, rest, e);
            assert(tree.contains(e) <==> (e == head || rest.contains(e)));
            assert(pr.contains(e) <==> (rest.contains(e) && !spec_pruned(p, e.path)));
            if spec_pruned(p, head.path) {
                assert(pt == pr);
                if e == head {
                    assert(spec_pruned(p, e.path));
                }
            } else {
                assert(pt == seq![head] + pr);
                lemma_cons_contains(head, pr, e);
                assert(pt.contains(e) <==> (e == head || pr.contains(e)));
                if e == head {
                    assert(!spec_pruned(p, e.path));
                    assert(tree.contains(e));
                }
            }
        }
    }
}


/// A depth-one file under `p`: it already sits directly in the target
/// directory of a flatten pass.
pub open spec fn spec_in_base(p: Seq<Seq<char>>, e: EntryModel) -> bool {
    spec_under(p, e.path) && e.path.len() == p.len() + 1 && e.node is File
}

/// A file hoisted by a flatten pass at `p`: it sits deeper than one
/// level under `p` and its own name is not ignored.
pub open spec fn spec_in_moved(p: Seq<Seq<char>>, e: EntryModel) -> bool {
    spec_under(p, e.path) && e.path.len() >= p.len() + 2 && e.node is File
        && !spec_name_ignored(e.path.last())
}

/// Where a hoisted file lands: directly in `p`, under its own name.
pub open spec fn spec_moved_entry(p: Seq<Seq<char>>, e: EntryModel) -> EntryModel {
    EntryModel { path: p.push(e.path.last()), node: e.node }
}

/// The entries a flatten pass at `p` leaves untouched: everything not
/// strictly under `p`.
pub open spec fn spec_others(tree: Seq<EntryModel>, p: Seq<Seq<char>>) -> Seq<EntryModel>
    decreases tree.len(),
{
    if tree.len() == 0 {
        Seq::empty()
    } else {
        let rest = spec_others(tree.drop_first(), p);
        if !spec_under(p, tree.first().path) {
            seq![tree.first()] + rest
        } else {
            rest
        }
    }
}

/// The depth-one files under `p`, in order.
pub open spec fn spec_base(tree: Seq<EntryModel>, p: Seq<Seq<char>>) -> Seq<EntryModel>
    decreases tree.len(),
{
    if tree.len() == 0 {
        Seq::empty()
    } else {
        let rest = spec_base(tree.drop_first(), p);
        if spec_in_base(p, tree.first()) {
            seq![tree.first()] + rest
        } else {
            rest
        }
    }
}

/// The hoisted files of one depth, in tree order, already renamed to
/// their landing paths.
pub open spec fn spec_moved_at(tree: Seq<EntryModel>, p: Seq<Seq<char>>, d: int) -> Seq<
    EntryModel,
> {
    spec_filter_map(
        tree,
        (|e: EntryModel| spec_in_moved(p, e) && e.path.len() == d),
        (|e: EntryModel| spec_moved_entry(p, e)),
    )
}

/// The longest path in the tree.
pub open spec fn spec_max_depth(tree: Seq<EntryModel>) -> int
    decreases tree.len(),
{
    if tree.len() == 0 {
        0
    } else {
        let m = spec_max_depth(tree.drop_first());
        if tree.first().path.len() > m {
            tree.first().path.len() as int
        } else {
            m
        }
    }
}

/// The hoisted files down from depth `d`, deepest first, tree order
/// within one depth: the order in which a flatten pass copies them, so
/// that the files of a directory overwrite those of its subdirectories.
pub open spec fn spec_moves_desc(tree: Seq<EntryModel>, p: Seq<Seq<char>>, d: int) -> Seq<
    EntryModel,
>
    decreases d,
{
    if d < p.len() + 2 {
        Seq::empty()
    } else {
        spec_moved_at(tree, p, d) + spec_moves_desc(tree, p, d - 1)
    }
}

/// The least index in `list` holding the given path.
pub open spec fn spec_find_path(list: Seq<EntryModel>, path: Seq<Seq<char>>) -> Option<int>
    decreases list.len(),
{
    if list.len() == 0 {
        None
    } else if list.first().path == path {
        Some(0)
    } else {
        match spec_find_path(list.drop_first(), path) {
            Some(j) => Some(j + 1),
            None => None,
        }
    }
}

/// Write `e` over the first entry that shares its path, or append it: a
/// copy into a directory overwrites a file of the same name.
pub open spec fn spec_upsert(list: Seq<EntryModel>, e: EntryModel) -> Seq<EntryModel> {
    match spec_find_path(list, e.path) {
        Some(j) => list.update(j, e),
        None => list.push(e),
    }
}

/// Apply the hoisted files one after the other; a later copy of the same
/// name wins.
pub open spec fn spec_apply_moves(base: Seq<EntryModel>, moves: Seq<EntryModel>) -> Seq<
    EntryModel,
>
    decreases moves.len(),
{
    if moves.len() == 0 {
        base
    } else {
        spec_apply_moves(spec_upsert(base, moves.first()), moves.drop_first())
    }
}

/// The tree after a flatten pass at `p`: entries elsewhere stay as they
/// are; every directory under `p` disappears; every file under `p` whose
/// name is not ignored lands directly in `p`. Copies land deepest first,
/// so of nested files sharing a name the shallowest wins, and every copy
/// overwrites a file already at depth one.
pub open spec fn spec_flatten_at(tree: Seq<EntryModel>, p: Seq<Seq<char>>) -> Seq<EntryModel> {
    spec_others(tree, p) + spec_apply_moves(
        spec_base(tree, p),
        spec_moves_desc(tree, p, spec_max_depth(tree)),
    )
}

proof fn lemma_find_path_is(list: Seq<EntryModel>, path: Seq<Seq<char>>, j: int)
    requires
        0 <= j <= list.len(),
        forall|t: int| 0 <= t < j ==> (#[trigger] list[t]).path != path,
        j == list.len() || list[j].path == path,
    ensures
        spec_find_path(list, path) == if j == list.len() {
            None::<int>
        } else {
            Some(j)
        },
    decreases j,
{
    if list.len() == 0 {
    } else if list.first().path == path {
        assert(list[0] == list.first());
    } else {
        assert(list[0] == list.first());
        assert(j > 0);
        let rest = list.drop_first();
        assert(forall|t: int| 0 <= t < j - 1 ==> (#[trigger] rest[t]).path != path) by {
            assert(forall|t: int| 0 <= t < j - 1 ==> rest[t] == list[t + 1]);
        }
        assert(j - 1 == rest.len() || rest[j - 1].path == path);
        lemma_find_path_is(rest, path, j - 1);
    }
}

/// Search `list` for an entry with the given path.
fn find_path(list: &Vec<Entry>, path: &Vec<String>) -> (r: Option<usize>)
    ensures
        match r {
            Some(j) => spec_find_path(list.deep_view(), path.deep_view()) == Some(j as int) && j
                < list@.len(),
            None => spec_find_path(list.deep_view(), path.deep_view()) is None,
        },
{
    for j in 0..list.len()
        invariant
            forall|t: int|
                0 <= t < j ==> (#[trigger] list.deep_view()[t]).path != path.deep_view(),
    {
        if path_eq(&list[j].path, path) {
            proof {
                lemma_find_path_is(list.deep_view(), path.deep_view(), j as int);
            }
            return Some(j);
        }
    }
    proof {
        lemma_find_path_is(list.deep_view(), path.deep_view(), list.deep_view().len() as int);
    }
    None
}

/// Write `e` into `tree`, overwriting the first entry with the same path
/// or appending it.
pub fn upsert_entry(tree: &mut Vec<Entry>, e: Entry)
    ensures
        final(tree).deep_view() == spec_upsert(old(tree).deep_view(), e.deep_view()),
{
    let ghost tv = tree.deep_view();
    let ghost ev = e.deep_view();
    match find_path(tree, &e.path) {
        Some(j) => {
            tree.remove(j);
            tree.insert(j, e);
            proof {
                assert(tree.deep_view() =~= tv.update(j as int, ev));
            }
        },
        None => {
            tree.push(e);
            proof {
                assert(tree.deep_view() =~= tv.push(ev));
            }
        },
    }
}

/// The tree with every entry at exactly `path` removed.
pub open spec fn spec_remove_path(tree: Seq<EntryModel>, path: Seq<Seq<char>>) -> Seq<EntryModel>
    decreases tree.len(),
{
    if tree.len() == 0 {
        Seq::empty()
    } else {
        let rest = spec_remove_path(tree.drop_first(), path);
        if tree.first().path == path {
            rest
        } else {
            seq![tree.first()] + rest
        }
    }
}

/// Delete the entry (or entries) at exactly `path`.
pub fn remove_path(tree: Vec<Entry>, path: &Vec<String>) -> (r: Vec<Entry>)
    ensures
        r.deep_view() == spec_remove_path(tree.deep_view(), path.deep_view()),
{
    let ghost orig = tree.deep_view();
    let ghost pv = path.deep_view();
    let mut t = tree;
    let mut r: Vec<Entry> = Vec::new();
    while t.len() > 0
        invariant
            pv == path.deep_view(),
            spec_remove_path(orig, pv) == r.deep_view() + spec_remove_path(t.deep_view(), pv),
        decreases t.len(),
    {
        let ghost tv = t.deep_view();
        let ghost rv = r.deep_view();
        let e = t.remove(0);
        proof {
            assert(t.deep_view() =~= tv.drop_first());
            assert(e.deep_view() == tv.first());
        }
        if path_eq(&e.path, path) {
            proof {
                assert(rv + spec_remove_path(tv, pv) == r.deep_view() + spec_remove_path(
                    t.deep_view(),
                    pv,
                ));
            }
        } else {
            r.push(e);
            proof {
                assert(r.deep_view() =~= rv.push(e.deep_view()));
                assert(rv + spec_remove_path(tv, pv) =~= r.deep_view() + spec_remove_path(
                    t.deep_view(),
                    pv,
                ));
            }
        }
    }
    proof {
        assert(spec_remove_path(t.deep_view(), pv) =~= Seq::<EntryModel>::empty());
        assert(r.deep_view() + Seq::<EntryModel>::empty() =~= r.deep_view());
    }
    r
}

/// Write a list of entries into `tree` one after the other, each
/// overwriting any earlier entry with its path.
pub open spec fn spec_insert_all(tree: Seq<EntryModel>, entries: Seq<EntryModel>) -> Seq<
    EntryModel,
>
    decreases entries.len(),
{
    if entries.len() == 0 {
        tree
    } else {
        spec_insert_all(spec_upsert(tree, entries.first()), entries.drop_first())
    }
}

/// Write each of `entries` into `tree`, in order, overwriting by path.
pub fn insert_entries(tree: Vec<Entry>, entries: Vec<Entry>) -> (r: Vec<Entry>)
    ensures
        r.deep_view() == spec_insert_all(tree.deep_view(), entries.deep_view()),
{
    let ghost t0 = tree.deep_view();
    let ghost e0 = entries.deep_view();
    let mut t = tree;
    let mut es = entries;
    while es.len() > 0
        invariant
            spec_insert_all(t0, e0) == spec_insert_all(t.deep_view(), es.deep_view()),
        decreases es.len(),
    {
        let ghost ev = es.deep_view();
        let e = es.remove(0);
        proof {
            assert(es.deep_view() =~= ev.drop_first());
            assert(e.deep_view() == ev.first());
        }
        upsert_entry(&mut t, e);
    }
    proof {
        assert(es.deep_view() =~= Seq::<EntryModel>::empty());
    }
    t
}


proof fn lemma_max_depth_push(s: Seq<EntryModel>, e: EntryModel)
    ensures
        spec_max_depth(s.push(e)) == if e.path.len() > spec_max_depth(s) {
            e.path.len() as int
        } else {
            spec_max_depth(s)
        },
    decreases s.len(),
{
    let s2 = s.push(e);
    if s.len() == 0 {
        assert(s2.first() == e);
        assert(s2.drop_first() =~= Seq::<EntryModel>::empty());
        assert(spec_max_depth(Seq::<EntryModel>::empty()) == 0);
    } else {
        assert(s2.first() == s.first());
        assert(s2.drop_first() =~= s.drop_first().push(e));
        lemma_max_depth_push(s.drop_first(), e);
    }
}

proof fn lemma_max_depth_bound(s: Seq<EntryModel>, b: int)
    requires
        0 <= b,
        forall|i: int| 0 <= i < s.len() ==> (#[trigger] s[i]).path.len() <= b,
    ensures
        spec_max_depth(s) <= b,
    decreases s.len(),
{
    if s.len() > 0 {
        assert(s[0] == s.first());
        assert(forall|i: int| 0 <= i < s.drop_first().len() ==> s.drop_first()[i] == s[i + 1]);
        lemma_max_depth_bound(s.drop_first(), b);
    }
}

/// Collapse everything under `at` into `at` itself: files at any depth
/// are hoisted to sit directly in `at` (ignored names left behind) and
/// directories under `at` are removed. Files are copied deepest first, so
/// of nested files sharing a name the shallowest wins, and every copy
/// overwrites a file already at depth one. Entries outside `at` are
/// untouched.
#[verifier::loop_isolation(false)]
pub fn flatten_dirs(tree: Vec<Entry>, at: &Vec<String>) -> (r: Vec<Entry>)
    ensures
        r.deep_view() == spec_flatten_at(tree.deep_view(), at.deep_view()),
{
    let ghost orig = tree.deep_view();
    let ghost p = at.deep_view();

    // The deepest path in the tree.
    let mut ml: usize = 0;
    for i in 0..tree.len()
        invariant
            ml == spec_max_depth(orig.take(i as int)),
    {
        proof {
            assert(orig[i as int] == tree@[i as int].deep_view());
            lemma_max_depth_push(orig.take(i as int), orig[i as int]);
            assert(orig.take(i + 1) =~= orig.take(i as int).push(orig[i as int]));
            assert(orig[i as int].path.len() == tree@[i as int].path@.len());
        }
        if tree[i].path.len() > ml {
            ml = tree[i].path.len();
        }
    }
    proof {
        assert(orig.take(orig.len() as int) =~= orig);
        assert(ml == spec_max_depth(orig));
    }

    // The hoisted files, deepest first, tree order within one depth.
    let mut moved: Vec<Entry> = Vec::new();
    let mut d = ml;
    while d >= 2 && d - 2 >= at.len()
        invariant
            d <= ml,
            spec_moves_desc(orig, p, ml as int) == moved.deep_view() + spec_moves_desc(
                orig,
                p,
                d as int,
            ),
        decreases d,
    {
        let ghost pred_d = (|e: EntryModel| spec_in_moved(p, e) && e.path.len() == d as int);
        let ghost mapf = (|e: EntryModel| spec_moved_entry(p, e));
        let ghost before = moved.deep_view();
        for j in 0..tree.len()
            invariant
                moved.deep_view() == before + spec_filter_map(orig.take(j as int), pred_d, mapf),
        {
            let e = &tree[j];
            proof {
                assert(orig[j as int] == tree@[j as int].deep_view());
                lemma_filter_map_push(orig.take(j as int), pred_d, mapf, orig[j as int]);
                assert(orig.take(j + 1) =~= orig.take(j as int).push(orig[j as int]));
            }
            let ghost em = orig[j as int];
            let is_file = match &e.node {
                Node::File(_) => true,
                Node::Dir => false,
            };
            let picked = e.path.len() == d && is_file && path_is_prefix(at, &e.path)
                && not_ignored(&e.path[e.path.len() - 1]);
            proof {
                if em.path.len() >= 1 {
                    assert(em.path.last() == e.path.deep_view()[e.path@.len() - 1]);
                }
                if picked {
                    assert(spec_under(p, em.path));
                    assert(pred_d(em));
                } else {
                    assert(!pred_d(em));
                }
            }
            if picked {
                let data = match &e.node {
                    Node::File(data) => clone_bytes(data),
                    Node::Dir => Vec::new(),
                };
                let np = path_append_name(at, &e.path[e.path.len() - 1]);
                let ne = Entry { path: np, node: Node::File(data) };
                let ghost mv = moved.deep_view();
                proof {
                    assert(ne.deep_view() == mapf(em));
                }
                moved.push(ne);
                proof {
                    assert(moved.deep_view() =~= mv.push(mapf(em)));
                    assert(mv.push(mapf(em)) =~= mv + seq![mapf(em)]);
                }
            } else {
                proof {
                    assert(spec_filter_map(orig.take(j as int), pred_d, mapf)
                        + Seq::<EntryModel>::empty() =~= spec_filter_map(
                        orig.take(j as int),
                        pred_d,
                        mapf,
                    ));
                }
            }
        }
        proof {
            assert(orig.take(orig.len() as int) =~= orig);
            assert(moved.deep_view() == before + spec_moved_at(orig, p, d as int));
            assert(spec_moves_desc(orig, p, d as int) == spec_moved_at(orig, p, d as int)
                + spec_moves_desc(orig, p, d as int - 1));
        }
        d = d - 1;
    }
    proof {
        assert(spec_moves_desc(orig, p, d as int) == Seq::<EntryModel>::empty());
        assert(moved.deep_view() + Seq::<EntryModel>::empty() =~= moved.deep_view());
        assert(moved.deep_view() == spec_moves_desc(orig, p, spec_max_depth(orig)));
    }

    // Partition what stays: entries outside `at`, and its depth-one files.
    let mut t = tree;
    let mut others: Vec<Entry> = Vec::new();
    let mut base: Vec<Entry> = Vec::new();
    while t.len() > 0
        invariant
            spec_others(orig, p) == others.deep_view() + spec_others(t.deep_view(), p),
            spec_base(orig, p) == base.deep_view() + spec_base(t.deep_view(), p),
        decreases t.len(),
    {
        let ghost tv = t.deep_view();
        let ghost ov = others.deep_view();
        let ghost bv = base.deep_view();
        let e = t.remove(0);
        proof {
            assert(t.deep_view() =~= tv.drop_first());
            assert(e.deep_view() == tv.first());
        }
        let under = e.path.len() > at.len() && path_is_prefix(at, &e.path);
        let is_file = match &e.node {
            Node::File(_) => true,
            Node::Dir => false,
        };
        if !under {
            others.push(e);
            proof {
                assert(others.deep_view() =~= ov.push(tv.first()));
                assert(ov + spec_others(tv, p) =~= others.deep_view() + spec_others(
                    t.deep_view(),
                    p,
                ));
            }
        } else if e.path.len() == at.len() + 1 && is_file {
            base.push(e);
            proof {
                assert(base.deep_view() =~= bv.push(tv.first()));
                assert(bv + spec_base(tv, p) =~= base.deep_view() + spec_base(t.deep_view(), p));
            }
        } else {
            proof {
                assert(!spec_in_base(p, tv.first()));
                assert(spec_others(tv, p) == spec_others(t.deep_view(), p));
                assert(spec_base(tv, p) == spec_base(t.deep_view(), p));
            }
        }
    }
    proof {
        assert(spec_others(t.deep_view(), p) =~= Seq::<EntryModel>::empty());
        assert(spec_base(t.deep_view(), p) =~= Seq::<EntryModel>::empty());
        assert(others.deep_view() + Seq::<EntryModel>::empty() =~= others.deep_view());
        assert(base.deep_view() + Seq::<EntryModel>::empty() =~= base.deep_view());
    }

    // Apply the copies, later ones overwriting earlier ones.
    let ghost base0 = base.deep_view();
    let ghost moved0 = moved.deep_view();
    while moved.len() > 0
        invariant
            spec_apply_moves(base0, moved0) == spec_apply_moves(
                base.deep_view(),
                moved.deep_view(),
            ),
        decreases moved.len(),
    {
        let ghost bv = base.deep_view();
        let ghost mv = moved.deep_view();
        let e = moved.remove(0);
        proof {
            assert(moved.deep_view() =~= mv.drop_first());
            assert(e.deep_view() == mv.first());
        }
        match find_path(&base, &e.path) {
            Some(j) => {
                base.remove(j);
                base.insert(j, e);
                proof {
                    assert(base.deep_view() =~= bv.update(j as int, mv.first()));
                    assert(base.deep_view() == spec_upsert(bv, mv.first()));
                }
            },
            None => {
                base.push(e);
                proof {
                    assert(base.deep_view() =~= bv.push(mv.first()));
                    assert(base.deep_view() == spec_upsert(bv, mv.first()));
                }
            },
        }
    }
    proof {
        assert(moved.deep_view() =~= Seq::<EntryModel>::empty());
        assert(spec_apply_moves(base.deep_view(), moved.deep_view()) == base.deep_view());
    }
    let mut r = others;
    let ghost rv = r.deep_view();
    r.append(&mut base);
    proof {
        assert(r.deep_view() =~= rv + spec_apply_moves(base0, moved0));
    }
    r
}

proof fn lemma_base_all(tree: Seq<EntryModel>, p: Seq<Seq<char>>)
    requires
        p.len() == 0,
        forall|i: int|
            0 <= i < tree.len() ==> (#[trigger] tree[i]).path.len() == 1 && tree[i].node is File,
    ensures
        spec_base(tree, p) == tree,
    decreases tree.len(),
{
    if tree.len() > 0 {
        let head = tree.first();
        let rest = tree.drop_first();
        assert(tree[0] == head);
        assert(head.path.take(0) =~= p);
        assert(spec_under(p, head.path));
        assert(spec_in_base(p, head));
        assert(forall|i: int| 0 <= i < rest.len() ==> rest[i] == tree[i + 1]);
        lemma_base_all(rest, p);
        assert(spec_base(tree, p) =~= seq![head] + rest);
        assert(seq![head] + rest =~= tree);
    }
}

/// Flattening an already-flat directory is a no-op: when every entry is
/// a file sitting directly in the root, a flatten pass at the root
/// returns the tree unchanged.
pub proof fn lemma_flatten_flat_noop(tree: Seq<EntryModel>)
    requires
        forall|i: int|
            0 <= i < tree.len() ==> (#[trigger] tree[i]).path.len() == 1 && tree[i].node is File,
    ensures
        spec_flatten_at(tree, Seq::empty()) == tree,
{
    let p = Seq::<Seq<char>>::empty();
    lemma_max_depth_bound(tree, 1);
    assert(spec_moves_desc(tree, p, spec_max_depth(tree)) == Seq::<EntryModel>::empty());
    lemma_others_empty(tree, p);
    lemma_base_all(tree, p);
    assert(spec_apply_moves(spec_base(tree, p), Seq::<EntryModel>::empty()) == spec_base(
        tree,
        p,
    ));
    assert(spec_flatten_at(tree, p) =~= tree);
}

proof fn lemma_others_empty(tree: Seq<EntryModel>, p: Seq<Seq<char>>)
    requires
        p.len() == 0,
        forall|i: int| 0 <= i < tree.len() ==> (#[trigger] tree[i]).path.len() >= 1,
    ensures
        spec_others(tree, p) == Seq::<EntryModel>::empty(),
    decreases tree.len(),
{
    if tree.len() > 0 {
        let head = tree.first();
        let rest = tree.drop_first();
        assert(head == tree[0]);
        assert(head.path.take(0) =~= p);
        assert(spec_under(p, head.path));
        assert(forall|i: int| 0 <= i < rest.len() ==> rest[i] == tree[i + 1]);
        lemma_others_empty(rest, p);
    }
}



/// Keep the elements satisfying `p`, each mapped through `f`, in order.
pub open spec fn spec_filter_map<A, B>(s: Seq<A>, p: spec_fn(A) -> bool, f: spec_fn(A) -> B) -> Seq<
    B,
>
    decreases s.len(),
{
    if s.len() == 0 {
        Seq::empty()
    } else {
        (if p(s.first()) {
            seq![f(s.first())]
        } else {
            Seq::<B>::empty()
        }) + spec_filter_map(s.drop_first(), p, f)
    }
}

/// Appending one element extends a filtered map by at most one element.
pub proof fn lemma_filter_map_push<A, B>(s: Seq<A>, p: spec_fn(A) -> bool, f: spec_fn(A) -> B, e: A)
    ensures
        spec_filter_map(s.push(e), p, f) == spec_filter_map(s, p, f) + (if p(e) {
            seq![f(e)]
        } else {
            Seq::<B>::empty()
        }),
    decreases s.len(),
{
    let s2 = s.push(e);
    if s.len() == 0 {
        assert(s2.len() == 1);
        assert(s2.first() == e);
        assert(s2.drop_first() =~= Seq::<A>::empty());
        assert(spec_filter_map(Seq::<A>::empty(), p, f) == Seq::<B>::empty());
        assert(spec_filter_map(s, p, f) == Seq::<B>::empty());
        if p(e) {
            assert(spec_filter_map(s2, p, f) =~= spec_filter_map(s, p, f) + seq![f(e)]);
        } else {
            assert(spec_filter_map(s2, p, f) =~= spec_filter_map(s, p, f));
        }
    } else {
        assert(s2.first() == s.first());
        assert(s2.drop_first() =~= s.drop_first().push(e));
        lemma_filter_map_push(s.drop_first(), p, f, e);
        if p(s.first()) {
            assert(spec_filter_map(s2, p, f) =~= spec_filter_map(s, p, f) + (if p(e) {
                seq![f(e)]
            } else {
                Seq::<B>::empty()
            }));
        } else {
            assert(spec_filter_map(s2, p, f) =~= spec_filter_map(s, p, f) + (if p(e) {
                seq![f(e)]
            } else {
                Seq::<B>::empty()
            }));
        }
    }
}


/// The sum of `f` over the elements of `s`.
pub open spec fn spec_sum_map<A>(s: Seq<A>, f: spec_fn(A) -> nat) -> nat
    decreases s.len(),
{
    if s.len() == 0 {
        0
    } else {
        f(s.first()) + spec_sum_map(s.drop_first(), f)
    }
}

/// Appending one element adds its value to the sum.
pub proof fn lemma_sum_map_push<A>(s: Seq<A>, f: spec_fn(A) -> nat, e: A)
    ensures
        spec_sum_map(s.push(e), f) == spec_sum_map(s, f) + f(e),
    decreases s.len(),
{
    let s2 = s.push(e);
    if s.len() == 0 {
        assert(s2.first() == e);
        assert(s2.drop_first() =~= Seq::<A>::empty());
        assert(spec_sum_map(Seq::<A>::empty(), f) == 0);
        assert(spec_sum_map(s, f) == 0);
    } else {
        assert(s2.first() == s.first());
        assert(s2.drop_first() =~= s.drop_first().push(e));
        lemma_sum_map_push(s.drop_first(), f, e);
    }
}


/// The concatenation of `f` over the elements of `s`, in order.
pub open spec fn spec_concat_map<A, B>(s: Seq<A>, f: spec_fn(A) -> Seq<B>) -> Seq<B>
    decreases s.len(),
{
    if s.len() == 0 {
        Seq::empty()
    } else {
        f(s.first()) + spec_concat_map(s.drop_first(), f)
    }
}

/// Appending one element appends its image to the concatenation.
pub proof fn lemma_concat_map_push<A, B>(s: Seq<A>, f: spec_fn(A) -> Seq<B>, e: A)
    ensures
        spec_concat_map(s.push(e), f) == spec_concat_map(s, f) + f(e),
    decreases s.len(),
{
    let s2 = s.push(e);
    if s.len() == 0 {
        assert(s2.first() == e);
        assert(s2.drop_first() =~= Seq::<A>::empty());
        assert(spec_concat_map(Seq::<A>::empty(), f) == Seq::<B>::empty());
        assert(spec_concat_map(s, f) == Seq::<B>::empty());
        assert(spec_concat_map(s2, f) =~= spec_concat_map(s, f) + f(e));
    } else {
        assert(s2.first() == s.first());
        assert(s2.drop_first() =~= s.drop_first().push(e));
        lemma_concat_map_push(s.drop_first(), f, e);
        assert(spec_concat_map(s2, f) =~= spec_concat_map(s, f) + f(e));
    }
}

/// The student folders: directory entries sitting directly in the root.
pub open spec fn spec_top_dirs(tree: Seq<EntryModel>) -> Seq<EntryModel> {
    spec_filter_map(tree, |e: EntryModel| e.path.len() == 1 && e.node is Dir, |e: EntryModel| e)
}

} // verus!
