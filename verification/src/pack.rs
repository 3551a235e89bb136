//! The feedback packager: bundle each student folder's loose feedback
//! entries into a per-student archive, delete the bundled entries, and
//! finally bundle everything left under the root into one distributable
//! archive.
use vstd::prelude::*;

use crate::archive::{spec_entry_tuples, spec_zip_build, zip_build, ZipEntry};
use crate::errors::Error;
use crate::extract::{has_zip_ext, name_stem, spec_has_zip_ext};
use crate::fstree::{
    clone_bytes, clone_path, lemma_filter_map_push, spec_filter_map, spec_find_path, spec_under,
    spec_upsert, str_eq, upsert_entry, Entry, EntryModel, Node, NodeModel,
};
use crate::text::{chars_eq, chars_to_string, extend_str, str_chars, spec_stem, stem_of};

verus! {

/// What the packager plans to delete: a path, and whether it is a
/// directory (removed with its contents) or a single file.
pub struct DeleteItem {
    pub path: Vec<String>,
    pub is_dir: bool,
}

/// The work planned for one student folder: the feedback archive to
/// create inside it, and the loose entries to delete afterwards.
pub struct StudentPlan {
    pub zip_path: Vec<String>,
    pub zip_bytes: Vec<u8>,
    pub deletions: Vec<DeleteItem>,
}

/// The packager's whole plan: per-student work in folder order, then the
/// outer distributable archive.
pub struct PackagePlan {
    pub students: Vec<StudentPlan>,
    pub outer_zip: Vec<u8>,
}

/// The mathematical shape of a planned deletion.
pub ghost struct DeleteItemModel {
    pub path: Seq<Seq<char>>,
    pub is_dir: bool,
}

/// The mathematical shape of one student's plan.
pub ghost struct StudentPlanModel {
    pub zip_path: Seq<Seq<char>>,
    pub zip_bytes: Seq<u8>,
    pub deletions: Seq<DeleteItemModel>,
}

impl DeepView for DeleteItem {
    type V = DeleteItemModel;

    open spec fn deep_view(&self) -> DeleteItemModel {
        DeleteItemModel { path: self.path.deep_view(), is_dir: self.is_dir }
    }
}

impl DeepView for StudentPlan {
    type V = StudentPlanModel;

    open spec fn deep_view(&self) -> StudentPlanModel {
        StudentPlanModel {
            zip_path: self.zip_path.deep_view(),
            zip_bytes: self.zip_bytes@,
            deletions: self.deletions.deep_view(),
        }
    }
}

/// The feedback archive's file name: the configured base name's stem
/// with the archive extension.
pub open spec fn spec_zip_file_name(name: Seq<char>) -> Seq<char> {
    spec_stem(name) + ".zip"@
}

/// The data a node contributes to an archive: a file's contents, nothing
/// for a directory.
pub open spec fn spec_node_data(n: NodeModel) -> Seq<u8> {
    match n {
        NodeModel::File(d) => d,
        NodeModel::Dir => Seq::empty(),
    }
}

/// The names of the student folders, in tree order.
pub open spec fn spec_top_names(tree: Seq<EntryModel>) -> Seq<Seq<char>> {
    spec_filter_map(
        tree,
        (|e: EntryModel| e.path.len() == 1 && e.node is Dir),
        (|e: EntryModel| e.path.first()),
    )
}

/// The relative archive name of an entry: its path components starting
/// at `skip`, joined with slashes.
pub open spec fn spec_join(c: Seq<Seq<char>>) -> Seq<char>
    decreases c.len(),
{
    if c.len() == 0 {
        Seq::empty()
    } else if c.len() == 1 {
        c.first()
    } else {
        c.first() + seq!['/'] + spec_join(c.drop_first())
    }
}

proof fn lemma_join_push(c: Seq<Seq<char>>, x: Seq<char>)
    ensures
        spec_join(c.push(x)) == if c.len() == 0 {
            x
        } else {
            spec_join(c) + seq!['/'] + x
        },
    decreases c.len(),
{
    let c2 = c.push(x);
    if c.len() == 0 {
        assert(c2.first() == x);
    } else if c.len() == 1 {
        assert(c2.first() == c.first());
        assert(c2.drop_first() =~= Seq::<Seq<char>>::empty().push(x));
        lemma_join_push(Seq::<Seq<char>>::empty(), x);
        assert(spec_join(c2) =~= c.first() + seq!['/'] + x);
        assert(spec_join(c) == c.first());
    } else {
        assert(c2.first() == c.first());
        assert(c2.drop_first() =~= c.drop_first().push(x));
        lemma_join_push(c.drop_first(), x);
        assert(spec_join(c2) =~= spec_join(c) + seq!['/'] + x);
    }
}

/// Join the path components from `skip` on with slashes.
fn join_rel(path: &Vec<String>, skip: usize) -> (r: String)
    requires
        skip <= path@.len(),
    ensures
        r@ == spec_join(path.deep_view().skip(skip as int)),
{
    let ghost pd = path.deep_view();
    let mut out: Vec<char> = Vec::new();
    for t in skip..path.len()
        invariant
            pd == path.deep_view(),
            skip <= t,
            out@ == spec_join(pd.subrange(skip as int, t as int)),
    {
        proof {
            assert(pd.subrange(skip as int, t + 1) =~= pd.subrange(skip as int, t as int).push(
                pd[t as int],
            ));
            lemma_join_push(pd.subrange(skip as int, t as int), pd[t as int]);
        }
        if t > skip {
            out.push('/');
        }
        extend_str(&mut out, path[t].as_str());
        proof {
            assert(out@ =~= spec_join(pd.subrange(skip as int, t + 1)));
        }
    }
    proof {
        assert(pd.subrange(skip as int, pd.len() as int) =~= pd.skip(skip as int));
    }
    chars_to_string(&out)
}

/// A feedback entry of the student folder named `s`: anything under the
/// folder whose extension is not the archive extension.
pub open spec fn spec_in_feedback(s: Seq<char>, path: Seq<Seq<char>>) -> bool {
    spec_under(seq![s], path) && !spec_has_zip_ext(path.last())
}

/// The per-student archive contents: every feedback entry of the folder,
/// named relative to it, in tree order.
pub open spec fn spec_student_arch(tree: Seq<EntryModel>, s: Seq<char>) -> Seq<
    (Seq<char>, bool, Seq<u8>),
> {
    spec_filter_map(
        tree,
        (|e: EntryModel| spec_in_feedback(s, e.path)),
        (|e: EntryModel| (spec_join(e.path.skip(1)), e.node is Dir, spec_node_data(e.node))),
    )
}

/// A topmost feedback entry: one the deletion pass visits directly,
/// because every directory above it (inside the folder) survives the
/// pass by carrying the archive extension.
pub open spec fn spec_is_topmost_del(s: Seq<char>, path: Seq<Seq<char>>) -> bool {
    spec_in_feedback(s, path) && (forall|t: int|
        1 <= t < path.len() - 1 ==> spec_has_zip_ext(#[trigger] path[t]))
}

/// The deletions planned for the student folder named `s`, in tree order.
pub open spec fn spec_student_dels(tree: Seq<EntryModel>, s: Seq<char>) -> Seq<DeleteItemModel> {
    spec_filter_map(
        tree,
        (|e: EntryModel| spec_is_topmost_del(s, e.path)),
        (|e: EntryModel| DeleteItemModel { path: e.path, is_dir: e.node is Dir }),
    )
}

/// An entry the deletion pass removes, directly or with a deleted
/// directory above it.
pub open spec fn spec_pack_removed(s: Seq<char>, path: Seq<Seq<char>>) -> bool {
    spec_under(seq![s], path) && (exists|t: int|
        1 <= t < path.len() && !spec_has_zip_ext(#[trigger] path[t]))
}

/// The entries the deletion pass leaves in place.
pub open spec fn spec_pack_kept(tree: Seq<EntryModel>, s: Seq<char>) -> Seq<EntryModel> {
    spec_filter_map(
        tree,
        (|e: EntryModel| !spec_pack_removed(s, e.path)),
        (|e: EntryModel| e),
    )
}

/// One student folder's effect on the tree: the removed entries gone,
/// the new feedback archive written at its place in the folder.
pub open spec fn spec_student_tree(
    tree: Seq<EntryModel>,
    s: Seq<char>,
    zname: Seq<char>,
    zbytes: Seq<u8>,
) -> Seq<EntryModel> {
    spec_upsert(
        spec_pack_kept(tree, s),
        EntryModel { path: seq![s, zname], node: NodeModel::File(zbytes) },
    )
}

/// The per-student work, folder by folder: each student's plan, and the
/// tree as it stands after all folders are processed.
pub open spec fn spec_pack_fold(
    tree: Seq<EntryModel>,
    students: Seq<Seq<char>>,
    zname: Seq<char>,
) -> (Seq<StudentPlanModel>, Seq<EntryModel>)
    decreases students.len(),
{
    if students.len() == 0 {
        (Seq::empty(), tree)
    } else {
        let s = students.first();
        let arch = spec_student_arch(tree, s);
        let zbytes = spec_zip_build(arch)->0;
        let plan = StudentPlanModel {
            zip_path: seq![s, zname],
            zip_bytes: zbytes,
            deletions: spec_student_dels(tree, s),
        };
        let t2 = spec_student_tree(tree, s, zname, zbytes);
        let rec = spec_pack_fold(t2, students.drop_first(), zname);
        (seq![plan] + rec.0, rec.1)
    }
}

/// Every per-student archive build succeeds, folder by folder.
pub open spec fn spec_pack_students_ok(
    tree: Seq<EntryModel>,
    students: Seq<Seq<char>>,
    zname: Seq<char>,
) -> bool
    decreases students.len(),
{
    if students.len() == 0 {
        true
    } else {
        let s = students.first();
        let arch = spec_student_arch(tree, s);
        spec_zip_build(arch) is Some && spec_pack_students_ok(
            spec_student_tree(tree, s, zname, spec_zip_build(arch)->0),
            students.drop_first(),
            zname,
        )
    }
}

/// The whole packaging run succeeds: every per-student build and the
/// outer build are accepted by the archive writer.
pub open spec fn spec_pack_ok(
    tree: Seq<EntryModel>,
    students: Seq<Seq<char>>,
    zname: Seq<char>,
) -> bool {
    spec_pack_students_ok(tree, students, zname) && spec_zip_build(
        spec_outer_arch(spec_pack_fold(tree, students, zname).1),
    ) is Some
}

/// The outer archive's contents: every entry of the processed tree whose
/// name's stem is not the outer archive's own, named from the root.
pub open spec fn spec_outer_arch(tree: Seq<EntryModel>) -> Seq<(Seq<char>, bool, Seq<u8>)> {
    spec_filter_map(
        tree,
        (|e: EntryModel| e.path.len() >= 1 && spec_stem(e.path.last()) != "feedbacks"@),
        (|e: EntryModel| (spec_join(e.path), e.node is Dir, spec_node_data(e.node))),
    )
}

/// Whether the entry at `path` is a feedback entry of folder `s`.
fn in_feedback(path: &Vec<String>, s: &String) -> (r: bool)
    ensures
        r == spec_in_feedback(s@, path.deep_view()),
{
    if path.len() < 2 {
        proof {
            assert(seq![s@].len() == 1);
            assert(!spec_under(seq![s@], path.deep_view()));
        }
        return false;
    }
    if !str_eq(&path[0], s) {
        proof {
            let pd = path.deep_view();
            assert(pd.take(1)[0] == pd[0]);
            assert(pd[0] == path@[0]@);
            assert(!spec_under(seq![s@], pd));
        }
        return false;
    }
    proof {
        assert(path.deep_view().take(1) =~= seq![s@]);
        assert(path.deep_view().last() == path.deep_view()[path@.len() - 1]);
    }
    !has_zip_ext(&path[path.len() - 1])
}

/// Whether the entry at `path` is a topmost deletion of folder `s`.
fn is_topmost_del(path: &Vec<String>, s: &String) -> (r: bool)
    ensures
        r == spec_is_topmost_del(s@, path.deep_view()),
{
    if !in_feedback(path, s) {
        return false;
    }
    let hi = path.len() - 1;
    for t in 1..hi
        invariant
            hi == path@.len() - 1,
            path@.len() >= 2,
            forall|t2: int|
                1 <= t2 < t ==> spec_has_zip_ext(#[trigger] path.deep_view()[t2]),
    {
        if !has_zip_ext(&path[t]) {
            proof {
                assert(path.deep_view()[t as int] == path@[t as int]@);
                assert(!spec_has_zip_ext(path.deep_view()[t as int]));
            }
            return false;
        }
    }
    true
}

/// Whether the deletion pass removes the entry at `path`.
fn pack_removed(path: &Vec<String>, s: &String) -> (r: bool)
    ensures
        r == spec_pack_removed(s@, path.deep_view()),
{
    if path.len() < 2 {
        proof {
            assert(seq![s@].len() == 1);
            assert(!spec_under(seq![s@], path.deep_view()));
        }
        return false;
    }
    if !str_eq(&path[0], s) {
        proof {
            let pd = path.deep_view();
            assert(pd.take(1)[0] == pd[0]);
            assert(pd[0] == path@[0]@);
            assert(!spec_under(seq![s@], pd));
        }
        return false;
    }
    proof {
        assert(path.deep_view().take(1) =~= seq![s@]);
    }
    for t in 1..path.len()
        invariant
            path@.len() >= 2,
            spec_under(seq![s@], path.deep_view()),
            forall|t2: int|
                1 <= t2 < t ==> spec_has_zip_ext(#[trigger] path.deep_view()[t2]),
    {
        if !has_zip_ext(&path[t]) {
            proof {
                let pd = path.deep_view();
                assert(pd[t as int] == path@[t as int]@);
                assert(1 <= t < pd.len() && !spec_has_zip_ext(pd[t as int]));
                assert(exists|t2: int|
                    1 <= t2 < pd.len() && !spec_has_zip_ext(#[trigger] pd[t2]));
                assert(spec_pack_removed(s@, pd));
            }
            return true;
        }
    }
    false
}

/// Collect the per-student archive contents of folder `s`.
fn student_arch(tree: &Vec<Entry>, s: &String) -> (r: Vec<ZipEntry>)
    ensures
        spec_entry_tuples(r.deep_view()) == spec_student_arch(tree.deep_view(), s@),
{
    let ghost tv = tree.deep_view();
    let ghost pred = (|e: EntryModel| spec_in_feedback(s@, e.path));
    let ghost mapf = (|e: EntryModel|
        (spec_join(e.path.skip(1)), e.node is Dir, spec_node_data(e.node)));
    let mut r: Vec<ZipEntry> = Vec::new();
    for j in 0..tree.len()
        invariant
            tv == tree.deep_view(),
            pred == (|e: EntryModel| spec_in_feedback(s@, e.path)),
            mapf == (|e: EntryModel|
                (spec_join(e.path.skip(1)), e.node is Dir, spec_node_data(e.node))),
            spec_entry_tuples(r.deep_view()) == spec_filter_map(tv.take(j as int), pred, mapf),
    {
        let e = &tree[j];
        proof {
            assert(tv[j as int] == tree@[j as int].deep_view());
            lemma_filter_map_push(tv.take(j as int), pred, mapf, tv[j as int]);
            assert(tv.take(j + 1) =~= tv.take(j as int).push(tv[j as int]));
        }
        let ghost em = tv[j as int];
        proof {
            if em.path.len() > 0 {
                assert(em.path.last() == e.path.deep_view()[e.path@.len() - 1]);
            }
            if em.path.len() >= 2 {
                assert(em.path.take(1)[0] == em.path[0]);
                assert(e.path.deep_view()[0] == em.path[0]);
            }
        }
        if in_feedback(&e.path, s) {
            proof {
                assert(em.path.take(1) =~= seq![s@]);
                assert(pred(em));
            }
            let name = join_rel(&e.path, 1);
            let (is_dir, data) = match &e.node {
                Node::Dir => (true, Vec::new()),
                Node::File(d) => (false, clone_bytes(d)),
            };
            let ghost rv = r.deep_view();
            r.push(ZipEntry { name, is_dir, data });
            proof {
                assert(spec_entry_tuples(r.deep_view()) =~= spec_entry_tuples(rv).push(mapf(em)));
                assert(spec_entry_tuples(rv).push(mapf(em)) =~= spec_entry_tuples(rv) + seq![
                    mapf(em),
                ]);
            }
        } else {
            proof {
                assert(!pred(em));
                assert(spec_filter_map(tv.take(j as int), pred, mapf)
                    + Seq::<(Seq<char>, bool, Seq<u8>)>::empty() =~= spec_filter_map(
                    tv.take(j as int),
                    pred,
                    mapf,
                ));
            }
        }
    }
    proof {
        assert(tv.take(tv.len() as int) =~= tv);
    }
    r
}

/// Collect the planned deletions of folder `s`.
fn student_dels(tree: &Vec<Entry>, s: &String) -> (r: Vec<DeleteItem>)
    ensures
        r.deep_view() == spec_student_dels(tree.deep_view(), s@),
{
    let ghost tv = tree.deep_view();
    let ghost pred = (|e: EntryModel| spec_is_topmost_del(s@, e.path));
    let ghost mapf = (|e: EntryModel| DeleteItemModel { path: e.path, is_dir: e.node is Dir });
    let mut r: Vec<DeleteItem> = Vec::new();
    for j in 0..tree.len()
        invariant
            tv == tree.deep_view(),
            pred == (|e: EntryModel| spec_is_topmost_del(s@, e.path)),
            mapf == (|e: EntryModel| DeleteItemModel { path: e.path, is_dir: e.node is Dir }),
            r.deep_view() == spec_filter_map(tv.take(j as int), pred, mapf),
    {
        let e = &tree[j];
        proof {
            assert(tv[j as int] == tree@[j as int].deep_view());
            lemma_filter_map_push(tv.take(j as int), pred, mapf, tv[j as int]);
            assert(tv.take(j + 1) =~= tv.take(j as int).push(tv[j as int]));
        }
        let ghost em = tv[j as int];
        if is_topmost_del(&e.path, s) {
            let it = DeleteItem {
                path: clone_path(&e.path),
                is_dir: match &e.node {
                    Node::Dir => true,
                    Node::File(_) => false,
                },
            };
            let ghost rv = r.deep_view();
            r.push(it);
            proof {
                assert(pred(em));
                assert(it.deep_view() == mapf(em));
                assert(r.deep_view() =~= rv.push(mapf(em)));
                assert(rv.push(mapf(em)) =~= rv + seq![mapf(em)]);
            }
        } else {
            proof {
                assert(!pred(em));
                assert(spec_filter_map(tv.take(j as int), pred, mapf)
                    + Seq::<DeleteItemModel>::empty() =~= spec_filter_map(
                    tv.take(j as int),
                    pred,
                    mapf,
                ));
            }
        }
    }
    proof {
        assert(tv.take(tv.len() as int) =~= tv);
    }
    r
}

/// Remove the entries the deletion pass takes from folder `s`.
fn student_cleanup(tree: Vec<Entry>, s: &String) -> (r: Vec<Entry>)
    ensures
        r.deep_view() == spec_pack_kept(tree.deep_view(), s@),
{
    let ghost orig = tree.deep_view();
    let ghost pred = (|e: EntryModel| !spec_pack_removed(s@, e.path));
    let ghost idf = (|e: EntryModel| e);
    let mut t = tree;
    let mut r: Vec<Entry> = Vec::new();
    let ghost k: int = 0;
    while t.len() > 0
        invariant
            pred == (|e: EntryModel| !spec_pack_removed(s@, e.path)),
            idf == (|e: EntryModel| e),
            0 <= k,
            k + t.len() == orig.len(),
            r.deep_view() == spec_filter_map(orig.take(k), pred, idf),
            forall|t2: int| 0 <= t2 < t.deep_view().len() ==> t.deep_view()[t2] == orig[k + t2],
        decreases t.len(),
    {
        let ghost tv = t.deep_view();
        let e = t.remove(0);
        proof {
            assert(t.deep_view() =~= tv.drop_first());
            assert(e.deep_view() == tv.first());
            assert(e.deep_view() == orig[k]);
            lemma_filter_map_push(orig.take(k), pred, idf, orig[k]);
            assert(orig.take(k + 1) =~= orig.take(k).push(orig[k]));
        }
        let ghost rv = r.deep_view();
        if !pack_removed(&e.path, s) {
            r.push(e);
            proof {
                assert(pred(orig[k]));
                assert(r.deep_view() =~= rv.push(orig[k]));
                assert(rv.push(orig[k]) =~= rv + seq![orig[k]]);
            }
        } else {
            proof {
                assert(!pred(orig[k]));
                assert(rv + Seq::<EntryModel>::empty() =~= rv);
            }
        }
        proof {
            k = k + 1;
        }
    }
    proof {
        assert(orig.take(k) =~= orig);
    }
    r
}

/// Collect the outer archive's contents from the processed tree.
fn outer_arch(tree: &Vec<Entry>) -> (r: Vec<ZipEntry>)
    ensures
        spec_entry_tuples(r.deep_view()) == spec_outer_arch(tree.deep_view()),
{
    let ghost tv = tree.deep_view();
    let ghost pred = (|e: EntryModel| e.path.len() >= 1 && spec_stem(e.path.last())
        != "feedbacks"@);
    let ghost mapf = (|e: EntryModel| (spec_join(e.path), e.node is Dir, spec_node_data(e.node)));
    let fb = str_chars("feedbacks");
    let mut r: Vec<ZipEntry> = Vec::new();
    for j in 0..tree.len()
        invariant
            tv == tree.deep_view(),
            fb@ == "feedbacks"@,
            pred == (|e: EntryModel| e.path.len() >= 1 && spec_stem(e.path.last())
                != "feedbacks"@),
            mapf == (|e: EntryModel|
                (spec_join(e.path), e.node is Dir, spec_node_data(e.node))),
            spec_entry_tuples(r.deep_view()) == spec_filter_map(tv.take(j as int), pred, mapf),
    {
        let e = &tree[j];
        proof {
            assert(tv[j as int] == tree@[j as int].deep_view());
            lemma_filter_map_push(tv.take(j as int), pred, mapf, tv[j as int]);
            assert(tv.take(j + 1) =~= tv.take(j as int).push(tv[j as int]));
        }
        let ghost em = tv[j as int];
        let keep = if e.path.len() == 0 {
            false
        } else {
            proof {
                assert(em.path.last() == e.path.deep_view()[e.path@.len() - 1]);
            }
            let last = &e.path[e.path.len() - 1];
            let st = stem_of(&str_chars(last.as_str()));
            !chars_eq(&st, &fb)
        };
        if keep {
            proof {
                assert(pred(em));
            }
            let name = join_rel(&e.path, 0);
            let (is_dir, data) = match &e.node {
                Node::Dir => (true, Vec::new()),
                Node::File(d) => (false, clone_bytes(d)),
            };
            let ghost rv = r.deep_view();
            proof {
                assert(e.path.deep_view().skip(0) =~= e.path.deep_view());
            }
            r.push(ZipEntry { name, is_dir, data });
            proof {
                assert(spec_entry_tuples(r.deep_view()) =~= spec_entry_tuples(rv).push(mapf(em)));
                assert(spec_entry_tuples(rv).push(mapf(em)) =~= spec_entry_tuples(rv) + seq![
                    mapf(em),
                ]);
            }
        } else {
            proof {
                assert(!pred(em));
                assert(spec_filter_map(tv.take(j as int), pred, mapf)
                    + Seq::<(Seq<char>, bool, Seq<u8>)>::empty() =~= spec_filter_map(
                    tv.take(j as int),
                    pred,
                    mapf,
                ));
            }
        }
    }
    proof {
        assert(tv.take(tv.len() as int) =~= tv);
    }
    r
}

/// The packager. For each directory sitting directly in the root, in
/// order: bundle everything under it except archive-extension entries
/// into a feedback archive named inside the folder, and plan the deletion
/// of the bundled entries. Then bundle everything left under the root —
/// except entries whose stem is the outer archive's own name — into one
/// outer archive. Returns the full plan; succeeds exactly when the
/// archive writer accepts every per-student bundle and the outer bundle.
#[verifier::rlimit(60)]
#[verifier::loop_isolation(false)]
pub fn zipit(name: &String, tree: Vec<Entry>) -> (r: Result<PackagePlan, Error>)
    ensures
        r is Ok <==> spec_pack_ok(
            tree.deep_view(),
            spec_top_names(tree.deep_view()),
            spec_zip_file_name(name@),
        ),
        r matches Ok(p) ==> {
            let fold = spec_pack_fold(
                tree.deep_view(),
                spec_top_names(tree.deep_view()),
                spec_zip_file_name(name@),
            );
            p.students.deep_view() == fold.0 && p.outer_zip@ == spec_zip_build(
                spec_outer_arch(fold.1),
            )->0
        },
        r matches Err(e) ==> e == Error::ArchiveWrite,
{
    let ghost tv0 = tree.deep_view();
    let st = name_stem(name);
    let mut zn_chars: Vec<char> = Vec::new();
    extend_str(&mut zn_chars, st.as_str());
    extend_str(&mut zn_chars, ".zip");
    let zname = chars_to_string(&zn_chars);
    proof {
        assert(zname@ == spec_zip_file_name(name@));
    }
    let ghost zn = zname@;

    // The student folders, from the tree as handed in.
    let ghost pred_top = (|e: EntryModel| e.path.len() == 1 && e.node is Dir);
    let ghost name_of = (|e: EntryModel| e.path.first());
    let mut students: Vec<String> = Vec::new();
    for i in 0..tree.len()
        invariant
            tv0 == tree.deep_view(),
            pred_top == (|e: EntryModel| e.path.len() == 1 && e.node is Dir),
            name_of == (|e: EntryModel| e.path.first()),
            students.deep_view() == spec_filter_map(tv0.take(i as int), pred_top, name_of),
    {
        let e = &tree[i];
        proof {
            assert(tv0[i as int] == tree@[i as int].deep_view());
            lemma_filter_map_push(tv0.take(i as int), pred_top, name_of, tv0[i as int]);
            assert(tv0.take(i + 1) =~= tv0.take(i as int).push(tv0[i as int]));
        }
        let ghost em = tv0[i as int];
        let is_dir = match &e.node {
            Node::Dir => true,
            Node::File(_) => false,
        };
        if e.path.len() == 1 && is_dir {
            let ghost sv = students.deep_view();
            let s0 = &e.path[0];
            students.push(s0.clone());
            proof {
                assert(pred_top(em));
                assert(em.path.first() == e.path.deep_view()[0]);
                assert(students.deep_view() =~= sv.push(name_of(em)));
                assert(sv.push(name_of(em)) =~= sv + seq![name_of(em)]);
            }
        } else {
            proof {
                assert(!pred_top(em));
                assert(spec_filter_map(tv0.take(i as int), pred_top, name_of)
                    + Seq::<Seq<char>>::empty() =~= spec_filter_map(
                    tv0.take(i as int),
                    pred_top,
                    name_of,
                ));
            }
        }
    }
    proof {
        assert(tv0.take(tv0.len() as int) =~= tv0);
        assert(students.deep_view() == spec_top_names(tv0));
    }

    let ghost full = spec_pack_fold(tv0, spec_top_names(tv0), zn);
    let mut t = tree;
    let mut sts = students;
    let mut plans: Vec<StudentPlan> = Vec::new();
    while sts.len() > 0
        invariant
            zn == zname@,
            zn == spec_zip_file_name(name@),
            full.0 == plans.deep_view() + spec_pack_fold(t.deep_view(), sts.deep_view(), zn).0,
            full.1 == spec_pack_fold(t.deep_view(), sts.deep_view(), zn).1,
            spec_pack_students_ok(tv0, spec_top_names(tv0), zn) <==> spec_pack_students_ok(
                t.deep_view(),
                sts.deep_view(),
                zn,
            ),
        decreases sts.len(),
    {
        let ghost sv = sts.deep_view();
        let ghost tv = t.deep_view();
        let s = sts.remove(0);
        proof {
            assert(sts.deep_view() =~= sv.drop_first());
            assert(s@ == sv.first());
        }
        let arch = student_arch(&t, &s);
        let zbytes = match zip_build(&arch) {
            Ok(b) => b,
            Err(e) => {
                proof {
                    assert(spec_zip_build(spec_student_arch(tv, sv.first())) is None);
                    assert(!spec_pack_students_ok(tv, sv, zn));
                    assert(!spec_pack_ok(tv0, spec_top_names(tv0), zn));
                }
                return Err(e);
            },
        };
        let dels = student_dels(&t, &s);
        let mut zip_path: Vec<String> = Vec::new();
        zip_path.push(s.clone());
        zip_path.push(zname.clone());
        proof {
            assert(zip_path.deep_view() =~= seq![s@, zn]);
        }
        let t2 = student_cleanup(t, &s);
        let mut t3 = t2;
        let ze = Entry { path: clone_path(&zip_path), node: Node::File(clone_bytes(&zbytes)) };
        proof {
            assert(ze.deep_view() == (EntryModel {
                path: seq![s@, zn],
                node: NodeModel::File(zbytes@),
            }));
        }
        upsert_entry(&mut t3, ze);
        let ghost pv = plans.deep_view();
        let plan = StudentPlan { zip_path, zip_bytes: zbytes, deletions: dels };
        plans.push(plan);
        proof {
            assert(spec_zip_build(spec_student_arch(tv, sv.first())) is Some);
            assert(zbytes@ == spec_zip_build(spec_student_arch(tv, sv.first()))->0);
            assert(t3.deep_view() == spec_student_tree(tv, sv.first(), zn, spec_zip_build(
                spec_student_arch(tv, sv.first()),
            )->0));
            assert(spec_pack_students_ok(tv, sv, zn) <==> spec_pack_students_ok(
                t3.deep_view(),
                sv.drop_first(),
                zn,
            ));
            assert(plan.deep_view() == spec_pack_fold(tv, sv, zn).0.first());
            assert(plans.deep_view() =~= pv.push(plan.deep_view()));
            assert(spec_pack_fold(tv, sv, zn).0 =~= seq![plan.deep_view()] + spec_pack_fold(
                t3.deep_view(),
                sv.drop_first(),
                zn,
            ).0);
            assert(pv + spec_pack_fold(tv, sv, zn).0 =~= plans.deep_view() + spec_pack_fold(
                t3.deep_view(),
                sts.deep_view(),
                zn,
            ).0);
        }
        t = t3;
    }
    proof {
        assert(sts.deep_view() =~= Seq::<Seq<char>>::empty());
        assert(spec_pack_fold(t.deep_view(), sts.deep_view(), zn).0
            == Seq::<StudentPlanModel>::empty());
        assert(plans.deep_view() + Seq::<StudentPlanModel>::empty() =~= plans.deep_view());
        assert(full.1 == t.deep_view());
        assert(spec_pack_students_ok(t.deep_view(), sts.deep_view(), zn));
        assert(spec_pack_students_ok(tv0, spec_top_names(tv0), zn));
    }
    let outer = outer_arch(&t);
    let outer_zip = match zip_build(&outer) {
        Ok(b) => b,
        Err(e) => {
            proof {
                assert(spec_zip_build(spec_outer_arch(full.1)) is None);
                assert(!spec_pack_ok(tv0, spec_top_names(tv0), zn));
            }
            return Err(e);
        },
    };
    proof {
        assert(spec_zip_build(spec_outer_arch(full.1)) is Some);
        assert(outer_zip@ == spec_zip_build(spec_outer_arch(full.1))->0);
        assert(spec_pack_ok(tv0, spec_top_names(tv0), zn));
    }
    Ok(PackagePlan { students: plans, outer_zip })
}


/// A packaging run pinned end to end on one folder, from the contracts
/// alone: when the tree holds a single student directory with exactly
/// the files it shows — no archive among them — the plan bundles exactly
/// those files (named relative to the folder), deletes exactly them, and
/// leaves the folder holding only the new feedback archive.
pub proof fn lemma_package_single_folder(code: Seq<u8>, notes: Seq<u8>)
    ensures
        ({
            let tree = seq![
                EntryModel { path: seq!["stu"@], node: NodeModel::Dir },
                EntryModel { path: seq!["stu"@, "Main.java"@], node: NodeModel::File(code) },
                EntryModel { path: seq!["stu"@, "notes.txt"@], node: NodeModel::File(notes) },
            ];
            let zname = spec_zip_file_name("feedback"@);
            let arch = seq![("Main.java"@, false, code), ("notes.txt"@, false, notes)];
            let fold = spec_pack_fold(tree, spec_top_names(tree), zname);
            &&& zname == "feedback.zip"@
            &&& spec_top_names(tree) == seq!["stu"@]
            &&& spec_student_arch(tree, "stu"@) == arch
            &&& fold.0 == seq![
                (StudentPlanModel {
                    zip_path: seq!["stu"@, "feedback.zip"@],
                    zip_bytes: spec_zip_build(arch)->0,
                    deletions: seq![
                        (DeleteItemModel { path: seq!["stu"@, "Main.java"@], is_dir: false }),
                        (DeleteItemModel { path: seq!["stu"@, "notes.txt"@], is_dir: false }),
                    ],
                }),
            ]
            &&& fold.1 == seq![
                (EntryModel { path: seq!["stu"@], node: NodeModel::Dir }),
                (EntryModel {
                    path: seq!["stu"@, "feedback.zip"@],
                    node: NodeModel::File(spec_zip_build(arch)->0),
                }),
            ]
        }),
{
    reveal_strlit("stu");
    reveal_strlit("Main.java");
    reveal_strlit("notes.txt");
    reveal_strlit("feedback");
    reveal_strlit(".zip");
    reveal_strlit("feedback.zip");
    reveal_strlit("zip");
    let s = "stu"@;
    let e0 = EntryModel { path: seq![s], node: NodeModel::Dir };
    let e1 = EntryModel { path: seq![s, "Main.java"@], node: NodeModel::File(code) };
    let e2 = EntryModel { path: seq![s, "notes.txt"@], node: NodeModel::File(notes) };
    let tree = seq![e0, e1, e2];
    let t1 = tree.drop_first();
    let t2 = t1.drop_first();
    let t3 = t2.drop_first();
    assert(tree.first() == e0);
    assert(t1 =~= seq![e1, e2]);
    assert(t1.first() == e1);
    assert(t2 =~= seq![e2]);
    assert(t2.first() == e2);
    assert(t3 =~= Seq::<EntryModel>::empty());

    // The feedback archive's name.
    assert("feedback"@.len() == 8);
    assert(forall|i: int| 1 <= i < 8 ==> "feedback"@[i] != '.') by {
        assert("feedback"@[1] == 'e' && "feedback"@[2] == 'e' && "feedback"@[3] == 'd'
            && "feedback"@[4] == 'b' && "feedback"@[5] == 'a' && "feedback"@[6] == 'c'
            && "feedback"@[7] == 'k');
    }
    assert(crate::text::spec_ext_dot("feedback"@) is None);
    let zname = spec_zip_file_name("feedback"@);
    assert(zname =~= "feedback.zip"@);

    // No entry of the folder carries the archive extension.
    crate::text::lemma_ext_dot_unique("Main.java"@, 4);
    assert(crate::text::spec_extension("Main.java"@).unwrap().len() == 4);
    assert("zip"@.len() == 3);
    assert(!spec_has_zip_ext("Main.java"@));
    crate::text::lemma_ext_dot_unique("notes.txt"@, 5);
    assert(crate::text::spec_extension("notes.txt"@).unwrap().len() == 3);
    assert(crate::text::spec_extension("notes.txt"@).unwrap()[0] == 't');
    assert("zip"@[0] == 'z');
    assert(!spec_has_zip_ext("notes.txt"@));

    // The one student folder.
    assert(e1.path.take(1) =~= seq![s]);
    assert(e2.path.take(1) =~= seq![s]);
    assert(spec_under(seq![s], e1.path));
    assert(spec_under(seq![s], e2.path));
    assert(!spec_under(seq![s], e0.path));
    assert(spec_top_names(t3) =~= Seq::<Seq<char>>::empty());
    assert(spec_top_names(t2) =~= Seq::<Seq<char>>::empty());
    assert(spec_top_names(t1) =~= Seq::<Seq<char>>::empty());
    assert(spec_top_names(tree) =~= seq![s]);

    // The archive contents: both files, named relative to the folder.
    let arch = seq![("Main.java"@, false, code), ("notes.txt"@, false, notes)];
    assert(e1.path.skip(1) =~= seq!["Main.java"@]);
    assert(e2.path.skip(1) =~= seq!["notes.txt"@]);
    assert(spec_join(seq!["Main.java"@]) == "Main.java"@);
    assert(spec_join(seq!["notes.txt"@]) == "notes.txt"@);
    assert(spec_in_feedback(s, e1.path) && spec_in_feedback(s, e2.path));
    assert(!spec_in_feedback(s, e0.path));
    assert(spec_student_arch(t3, s) =~= Seq::<(Seq<char>, bool, Seq<u8>)>::empty());
    assert(spec_student_arch(t2, s) =~= seq![("notes.txt"@, false, notes)]);
    assert(spec_student_arch(t1, s) =~= arch);
    assert(spec_student_arch(tree, s) =~= arch);

    // The deletions: exactly the two loose files.
    let d1 = DeleteItemModel { path: e1.path, is_dir: false };
    let d2 = DeleteItemModel { path: e2.path, is_dir: false };
    assert(spec_is_topmost_del(s, e1.path) && spec_is_topmost_del(s, e2.path));
    assert(!spec_is_topmost_del(s, e0.path));
    assert(spec_student_dels(t3, s) =~= Seq::<DeleteItemModel>::empty());
    assert(spec_student_dels(t2, s) =~= seq![d2]);
    assert(spec_student_dels(t1, s) =~= seq![d1, d2]);
    assert(spec_student_dels(tree, s) =~= seq![d1, d2]);

    // The folder afterwards: only the new feedback archive beside it.
    let zbytes = spec_zip_build(arch)->0;
    let ze = EntryModel { path: seq![s, zname], node: NodeModel::File(zbytes) };
    assert(spec_pack_removed(s, e1.path)) by {
        assert(1 <= 1 < e1.path.len() && !spec_has_zip_ext(e1.path[1]));
    }
    assert(spec_pack_removed(s, e2.path)) by {
        assert(1 <= 1 < e2.path.len() && !spec_has_zip_ext(e2.path[1]));
    }
    assert(!spec_pack_removed(s, e0.path));
    assert(spec_pack_kept(t3, s) =~= Seq::<EntryModel>::empty());
    assert(spec_pack_kept(t2, s) =~= Seq::<EntryModel>::empty());
    assert(spec_pack_kept(t1, s) =~= Seq::<EntryModel>::empty());
    assert(spec_pack_kept(tree, s) =~= seq![e0]);
    assert(e0.path.len() == 1 && ze.path.len() == 2);
    assert(e0.path != ze.path);
    assert(spec_find_path(seq![e0], ze.path) is None) by {
        assert(seq![e0].first() == e0);
        assert(seq![e0].drop_first() =~= Seq::<EntryModel>::empty());
        assert(spec_find_path(Seq::<EntryModel>::empty(), ze.path) is None);
    }
    assert(spec_student_tree(tree, s, zname, zbytes) =~= seq![e0, ze]) by {
        assert(spec_pack_kept(tree, s) == seq![e0]);
        assert(spec_upsert(seq![e0], ze) == seq![e0].push(ze));
        assert(seq![e0].push(ze) =~= seq![e0, ze]);
    }

    // Assemble the fold.
    let students = spec_top_names(tree);
    assert(students.first() == s);
    assert(students.drop_first() =~= Seq::<Seq<char>>::empty());
    let fold = spec_pack_fold(tree, students, zname);
    let plan = StudentPlanModel {
        zip_path: seq![s, zname],
        zip_bytes: zbytes,
        deletions: seq![d1, d2],
    };
    assert(spec_pack_fold(seq![e0, ze], Seq::<Seq<char>>::empty(), zname) == (
    Seq::<StudentPlanModel>::empty(), seq![e0, ze]));
    assert(fold.0 =~= seq![plan]);
    assert(fold.1 =~= seq![e0, ze]);
}

} // verus!
