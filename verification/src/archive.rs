//! Archive handling: trusted wrappers around the zip crate working on
//! in-memory bytes, conversion between archive entry names and component
//! paths, and the verified unpacker that resolves nested archives.
use vstd::prelude::*;

use crate::errors::Error;
use crate::extract::spec_is_zip_name;
use crate::extract::is_zip_file;
use crate::fstree::{
    clean_dirs, clone_bytes, clone_path, flatten_dirs, insert_entries, remove_path, Entry,
    EntryModel, Node, NodeModel, spec_flatten_at, spec_insert_all, spec_prune_at,
    spec_remove_path,
};
use crate::text::{chars_to_string, str_chars, sub_chars};

verus! {

/// A raw archive entry as the zip reader reports it: its stored name,
/// whether it is a directory, and its decompressed contents.
pub struct ZipEntry {
    pub name: String,
    pub is_dir: bool,
    pub data: Vec<u8>,
}

/// The mathematical shape of a raw archive entry.
pub ghost struct ZipEntryModel {
    pub name: Seq<char>,
    pub is_dir: bool,
    pub data: Seq<u8>,
}

impl DeepView for ZipEntry {
    type V = ZipEntryModel;

    open spec fn deep_view(&self) -> ZipEntryModel {
        ZipEntryModel { name: self.name@, is_dir: self.is_dir, data: self.data@ }
    }
}

/// Raw entries as plain tuples, the form the trusted contracts speak of.
pub open spec fn spec_entry_tuples(s: Seq<ZipEntryModel>) -> Seq<(Seq<char>, bool, Seq<u8>)> {
    Seq::new(s.len(), |i: int| (s[i].name, s[i].is_dir, s[i].data))
}

/// What reading a ZIP container from the given bytes yields: its entries
/// (stored name, directory flag, decompressed contents) in archive order,
/// or nothing when the container cannot be fully read.
pub uninterp spec fn spec_zip_listing(bytes: Seq<u8>) -> Option<Seq<(Seq<char>, bool, Seq<u8>)>>;

/// What writing a ZIP container for the given entries yields: the
/// container bytes, with deflate compression, fixed permissions and a
/// fixed timestamp — or nothing when the writer refuses the entries.
/// Success and output alike are functions of the entries alone.
pub uninterp spec fn spec_zip_build(entries: Seq<(Seq<char>, bool, Seq<u8>)>) -> Option<Seq<u8>>;

/// Relies on the zip crate's `ZipArchive`: `new` parses the central
/// directory of an in-memory container, and `by_index` hands out each
/// entry's name, directory flag and decompressed contents, all a function
/// of the bytes alone.
#[verifier::external_body]
fn zip_list(bytes: &Vec<u8>) -> (r: Result<Vec<ZipEntry>, Error>)
    ensures
        match r {
            Ok(v) => spec_zip_listing(bytes@) == Some(spec_entry_tuples(v.deep_view())),
            Err(e) => spec_zip_listing(bytes@) is None && e == Error::InvalidArchive,
        },
{
    let cursor = std::io::Cursor::new(bytes.as_slice());
    let mut archive = zip::ZipArchive::new(cursor).map_err(|_| Error::InvalidArchive)?;
    let mut out = Vec::new();
    for i in 0..archive.len() {
        let mut f = archive.by_index(i).map_err(|_| Error::InvalidArchive)?;
        let name = f.name().to_string();
        let is_dir = f.is_dir();
        let mut data = Vec::new();
        std::io::Read::read_to_end(&mut f, &mut data).map_err(|_| Error::InvalidArchive)?;
        out.push(ZipEntry { name, is_dir, data });
    }
    Ok(out)
}

/// Relies on the zip crate's `ZipWriter`: `add_directory`, `start_file`
/// and `finish` write the given entries into an in-memory container with
/// deflate compression, fixed Unix permissions and the writer's fixed
/// default timestamp. Both whether the writer accepts the entries and
/// what it emits are functions of the entries alone.
#[verifier::external_body]
pub(crate) fn zip_build(entries: &Vec<ZipEntry>) -> (r: Result<Vec<u8>, Error>)
    ensures
        r is Ok <==> spec_zip_build(spec_entry_tuples(entries.deep_view())) is Some,
        r matches Ok(b) ==> b@ == spec_zip_build(spec_entry_tuples(entries.deep_view()))->0,
        r matches Err(e) ==> e == Error::ArchiveWrite,
{
    let options = zip::write::SimpleFileOptions::DEFAULT.compression_method(
        zip::CompressionMethod::Deflated,
    ).unix_permissions(0o755);
    let mut writer = zip::ZipWriter::new(std::io::Cursor::new(Vec::new()));
    for e in entries {
        if e.is_dir {
            writer.add_directory(e.name.as_str(), options).map_err(|_| Error::ArchiveWrite)?;
        } else {
            writer.start_file(e.name.as_str(), options).map_err(|_| Error::ArchiveWrite)?;
            std::io::Write::write_all(&mut writer, &e.data).map_err(|_| Error::ArchiveWrite)?;
        }
    }
    let cursor = writer.finish().map_err(|_| Error::ArchiveWrite)?;
    Ok(cursor.into_inner())
}

/// The first `/` at or after `from`, or the end of the name.
pub open spec fn spec_next_slash(s: Seq<char>, from: int) -> int
    decreases s.len() - from when 0 <= from <= s.len()
{
    if from < 0 || from >= s.len() {
        s.len() as int
    } else if s[from] == '/' {
        from
    } else {
        spec_next_slash(s, from + 1)
    }
}

proof fn lemma_next_slash_bounds(s: Seq<char>, from: int)
    requires
        0 <= from <= s.len(),
    ensures
        from <= spec_next_slash(s, from) <= s.len(),
    decreases s.len() - from,
{
    if from < s.len() && s[from] != '/' {
        lemma_next_slash_bounds(s, from + 1);
    }
}

/// The components of a stored archive name: the stretches between
/// slashes, empty stretches dropped.
pub open spec fn spec_split_from(s: Seq<char>, from: int) -> Seq<Seq<char>>
    decreases s.len() - from when 0 <= from via spec_split_from_dec
{
    if from < 0 || from >= s.len() {
        Seq::empty()
    } else {
        let i = spec_next_slash(s, from);
        let head = s.subrange(from, i);
        let rest = if i >= s.len() {
            Seq::<Seq<char>>::empty()
        } else {
            spec_split_from(s, i + 1)
        };
        if head.len() > 0 {
            seq![head] + rest
        } else {
            rest
        }
    }
}

#[via_fn]
proof fn spec_split_from_dec(s: Seq<char>, from: int) {
    if 0 <= from < s.len() {
        lemma_next_slash_bounds(s, from);
    }
}

/// The component path a stored archive name denotes.
pub open spec fn spec_split(s: Seq<char>) -> Seq<Seq<char>> {
    spec_split_from(s, 0)
}

proof fn lemma_next_slash_is(s: Seq<char>, from: int, i: int)
    requires
        0 <= from <= i <= s.len(),
        forall|t: int| from <= t < i ==> s[t] != '/',
        i == s.len() || s[i] == '/',
    ensures
        spec_next_slash(s, from) == i,
    decreases i - from,
{
    if from < i {
        lemma_next_slash_is(s, from + 1, i);
    }
}

/// Split a stored archive name into its path components.
pub(crate) fn split_name(name: &String) -> (r: Vec<String>)
    ensures
        r.deep_view() == spec_split(name@),
{
    let cs = str_chars(name.as_str());
    let n = cs.len();
    let mut r: Vec<String> = Vec::new();
    let mut from: usize = 0;
    while from < n
        invariant
            n == cs@.len(),
            from <= n,
            spec_split(cs@) == r.deep_view() + spec_split_from(cs@, from as int),
        decreases n - from,
    {
        let ghost rv = r.deep_view();
        let mut i = from;
        while i < n && cs[i] != '/'
            invariant
                from <= i <= n,
                n == cs@.len(),
                forall|t: int| from <= t < i ==> cs@[t] != '/',
            decreases n - i,
        {
            i = i + 1;
        }
        proof {
            lemma_next_slash_is(cs@, from as int, i as int);
        }
        if i > from {
            let head = sub_chars(&cs, from, i);
            r.push(chars_to_string(&head));
            proof {
                assert(r.deep_view() =~= rv.push(head@));
                assert(rv + spec_split_from(cs@, from as int) =~= r.deep_view() + (if i < n {
                    spec_split_from(cs@, i + 1)
                } else {
                    Seq::<Seq<char>>::empty()
                }));
            }
        } else {
            proof {
                assert(rv + spec_split_from(cs@, from as int) =~= rv + (if i < n {
                    spec_split_from(cs@, i + 1)
                } else {
                    Seq::<Seq<char>>::empty()
                }));
            }
        }
        if i == n {
            from = n;
            proof {
                assert(spec_split_from(cs@, n as int) =~= Seq::<Seq<char>>::empty());
            }
        } else {
            from = i + 1;
        }
    }
    proof {
        assert(spec_split_from(cs@, from as int) =~= Seq::<Seq<char>>::empty());
        assert(r.deep_view() + Seq::<Seq<char>>::empty() =~= r.deep_view());
    }
    r
}

/// A safe component path: non-empty, and free of the two special names
/// that would let an entry escape or rename its extraction root.
pub open spec fn spec_comps_safe(c: Seq<Seq<char>>) -> bool {
    c.len() > 0 && forall|j: int| 0 <= j < c.len() ==> (#[trigger] c[j]) != "."@ && c[j] != ".."@
}

/// Whether one component is one of the two special names.
fn comp_special(c: &String) -> (r: bool)
    ensures
        r == (c@ == "."@ || c@ == ".."@),
{
    let cs = str_chars(c.as_str());
    proof {
        reveal_strlit(".");
        reveal_strlit("..");
    }
    if cs.len() == 1 && cs[0] == '.' {
        proof {
            assert(cs@ =~= "."@);
        }
        true
    } else if cs.len() == 2 && cs[0] == '.' && cs[1] == '.' {
        proof {
            assert(cs@ =~= ".."@);
        }
        true
    } else {
        proof {
            if c@ == "."@ {
                assert(cs@.len() == 1 && cs@[0] == '.');
            }
            if c@ == ".."@ {
                assert(cs@.len() == 2 && cs@[0] == '.' && cs@[1] == '.');
            }
        }
        false
    }
}

/// Whether a component path is safe to materialise.
fn comps_safe(c: &Vec<String>) -> (r: bool)
    ensures
        r == spec_comps_safe(c.deep_view()),
{
    if c.len() == 0 {
        return false;
    }
    for j in 0..c.len()
        invariant
            c@.len() > 0,
            forall|t: int|
                0 <= t < j ==> (#[trigger] c.deep_view()[t]) != "."@ && c.deep_view()[t] != ".."@,
    {
        if comp_special(&c[j]) {
            proof {
                assert(c.deep_view()[j as int] == c@[j as int]@);
                assert(!spec_comps_safe(c.deep_view()));
            }
            return false;
        }
    }
    true
}

/// Every entry of a listing has a safe component path.
pub open spec fn spec_listing_safe(l: Seq<(Seq<char>, bool, Seq<u8>)>) -> bool {
    forall|i: int| 0 <= i < l.len() ==> spec_comps_safe(spec_split((#[trigger] l[i]).0))
}

/// The tree entries a listing denotes, rooted at `parent`.
pub open spec fn spec_listing_entries(
    parent: Seq<Seq<char>>,
    l: Seq<(Seq<char>, bool, Seq<u8>)>,
) -> Seq<EntryModel> {
    Seq::new(
        l.len(),
        |i: int|
            EntryModel {
                path: parent + spec_split(l[i].0),
                node: if l[i].1 {
                    NodeModel::Dir
                } else {
                    NodeModel::File(l[i].2)
                },
            },
    )
}

/// Turn a raw listing into tree entries under `parent`, refusing unsafe
/// names.
fn listing_to_entries(parent: &Vec<String>, l: Vec<ZipEntry>) -> (r: Result<Vec<Entry>, Error>)
    ensures
        match r {
            Ok(v) => spec_listing_safe(spec_entry_tuples(l.deep_view())) && v.deep_view()
                == spec_listing_entries(parent.deep_view(), spec_entry_tuples(l.deep_view())),
            Err(e) => !spec_listing_safe(spec_entry_tuples(l.deep_view())) && e
                == Error::InvalidArchive,
        },
{
    let ghost l0 = spec_entry_tuples(l.deep_view());
    let ghost full = spec_listing_entries(parent.deep_view(), l0);
    let mut rest = l;
    let mut out: Vec<Entry> = Vec::new();
    let ghost k: int = 0;
    while rest.len() > 0
        invariant
            l0 == spec_entry_tuples(l.deep_view()),
            full == spec_listing_entries(parent.deep_view(), l0),
            k + rest.len() == l0.len(),
            0 <= k,
            out.deep_view().len() == k,
            forall|t: int| 0 <= t < k ==> out.deep_view()[t] == full[t],
            forall|t: int| 0 <= t < k ==> spec_comps_safe(spec_split((#[trigger] l0[t]).0)),
            forall|t: int| 0 <= t < rest.deep_view().len() ==> rest.deep_view()[t]
                == l.deep_view()[k + t],
        decreases rest.len(),
    {
        let ghost rv = rest.deep_view();
        let ze = rest.remove(0);
        proof {
            assert(rest.deep_view() =~= rv.drop_first());
            assert(ze.deep_view() == rv.first());
            assert(ze.deep_view() == l.deep_view()[k]);
        }
        let ZipEntry { name, is_dir, data } = ze;
        let comps = split_name(&name);
        if !comps_safe(&comps) {
            proof {
                assert(l0[k] == (name@, is_dir, data@));
                assert(!spec_comps_safe(spec_split(l0[k].0)));
            }
            return Err(Error::InvalidArchive);
        }
        let mut path = clone_path(parent);
        let mut comps_m = comps;
        path.append(&mut comps_m);
        let node = if is_dir {
            Node::Dir
        } else {
            Node::File(data)
        };
        let e = Entry { path, node };
        proof {
            assert(l0[k] == (name@, is_dir, data@));
            assert(e.path.deep_view() =~= parent.deep_view() + spec_split(name@));
            assert(e.deep_view() == full[k]);
        }
        let ghost ov = out.deep_view();
        out.push(e);
        proof {
            assert(out.deep_view() =~= ov.push(e.deep_view()));
            k = k + 1;
        }
    }
    proof {
        assert(out.deep_view() =~= full);
    }
    Ok(out)
}

/// An entry whose own name marks it as an archive.
pub open spec fn spec_entry_is_zip(e: EntryModel) -> bool {
    e.path.len() > 0 && spec_is_zip_name(e.path.last())
}

/// The least index of an archive-named entry.
pub open spec fn spec_first_zip(tree: Seq<EntryModel>) -> Option<int>
    decreases tree.len(),
{
    if tree.len() == 0 {
        None
    } else if spec_entry_is_zip(tree.first()) {
        Some(0)
    } else {
        match spec_first_zip(tree.drop_first()) {
            Some(j) => Some(j + 1),
            None => None,
        }
    }
}

proof fn lemma_first_zip_is(tree: Seq<EntryModel>, j: int)
    requires
        0 <= j <= tree.len(),
        forall|t: int| 0 <= t < j ==> !spec_entry_is_zip(#[trigger] tree[t]),
        j == tree.len() || spec_entry_is_zip(tree[j]),
    ensures
        spec_first_zip(tree) == if j == tree.len() {
            None::<int>
        } else {
            Some(j)
        },
    decreases j,
{
    if tree.len() == 0 {
    } else if spec_entry_is_zip(tree.first()) {
        assert(tree[0] == tree.first());
        assert(j == 0);
    } else {
        assert(tree[0] == tree.first());
        assert(j > 0);
        let rest = tree.drop_first();
        assert(forall|t: int| 0 <= t < j - 1 ==> !spec_entry_is_zip(#[trigger] rest[t])) by {
            assert(forall|t: int| 0 <= t < j - 1 ==> rest[t] == tree[t + 1]);
        }
        assert(j - 1 == rest.len() || rest[j - 1] == tree[j]);
        lemma_first_zip_is(rest, j - 1);
    }
}

/// Find the first archive-named entry in the tree.
fn find_first_zip(tree: &Vec<Entry>) -> (r: Option<usize>)
    ensures
        match r {
            Some(i) => spec_first_zip(tree.deep_view()) == Some(i as int) && i < tree@.len()
                && spec_entry_is_zip(tree.deep_view()[i as int]),
            None => spec_first_zip(tree.deep_view()) is None,
        },
{
    for i in 0..tree.len()
        invariant
            forall|t: int| 0 <= t < i ==> !spec_entry_is_zip(#[trigger] tree.deep_view()[t]),
    {
        let e = &tree[i];
        if e.path.len() > 0 && is_zip_file(&e.path[e.path.len() - 1]) {
            proof {
                assert(tree.deep_view()[i as int].path.last() == e.path.deep_view()[e.path@.len()
                    - 1]);
                assert(spec_entry_is_zip(tree.deep_view()[i as int]));
                lemma_first_zip_is(tree.deep_view(), i as int);
            }
            return Some(i);
        }
        proof {
            if tree.deep_view()[i as int].path.len() > 0 {
                assert(tree.deep_view()[i as int].path.last() == e.path.deep_view()[e.path@.len()
                    - 1]);
            }
            assert(!spec_entry_is_zip(tree.deep_view()[i as int]));
        }
    }
    proof {
        lemma_first_zip_is(tree.deep_view(), tree.deep_view().len() as int);
    }
    None
}

/// The tree an archive's own listing denotes, rooted at the extraction
/// target, when the archive is readable and its names are safe.
pub open spec fn spec_initial_tree(b: Seq<u8>) -> Option<Seq<EntryModel>> {
    match spec_zip_listing(b) {
        None => None,
        Some(l) => if spec_listing_safe(l) {
            Some(spec_listing_entries(Seq::empty(), l))
        } else {
            None
        },
    }
}

/// One round of nested-archive resolution: take the first archive-named
/// entry, extract it into its parent directory (overwriting by path),
/// delete the archive entry, prune the parent, and flatten it when asked
/// to. `None` when the entry is a directory, unreadable, or has unsafe
/// names.
pub open spec fn spec_unzip_step(tree: Seq<EntryModel>, flatten: bool) -> Option<
    Seq<EntryModel>,
> {
    match spec_first_zip(tree) {
        None => Some(tree),
        Some(i) => {
            let e = tree[i];
            match e.node {
                NodeModel::Dir => None,
                NodeModel::File(data) => {
                    match spec_zip_listing(data) {
                        None => None,
                        Some(l) => if !spec_listing_safe(l) {
                            None
                        } else {
                            let parent = e.path.drop_last();
                            let t1 = spec_insert_all(tree, spec_listing_entries(parent, l));
                            let t2 = spec_remove_path(t1, e.path);
                            let t3 = spec_prune_at(t2, parent);
                            if flatten {
                                Some(spec_flatten_at(t3, parent))
                            } else {
                                Some(t3)
                            }
                        },
                    }
                },
            }
        },
    }
}

/// The tree after up to `n` resolution rounds, stopping early once no
/// archive-named entry remains; `None` once a round fails.
pub open spec fn spec_unzip_reach(tree: Seq<EntryModel>, flatten: bool, n: nat) -> Option<
    Seq<EntryModel>,
>
    decreases n,
{
    if n == 0 || spec_first_zip(tree) is None {
        Some(tree)
    } else {
        match spec_unzip_step(tree, flatten) {
            None => None,
            Some(t2) => spec_unzip_reach(t2, flatten, (n - 1) as nat),
        }
    }
}

proof fn lemma_reach_extend(tree: Seq<EntryModel>, flatten: bool, n: nat)
    ensures
        match spec_unzip_reach(tree, flatten, n) {
            None => spec_unzip_reach(tree, flatten, n + 1) is None,
            Some(t) => spec_unzip_reach(tree, flatten, n + 1) == (if spec_first_zip(t) is None {
                Some(t)
            } else {
                spec_unzip_step(t, flatten)
            }),
        },
    decreases n,
{
    if n == 0 {
        assert(spec_unzip_reach(tree, flatten, 0) == Some(tree));
        if spec_first_zip(tree) is None {
            assert(spec_unzip_reach(tree, flatten, 1) == Some(tree));
        } else {
            match spec_unzip_step(tree, flatten) {
                None => {
                    assert(spec_unzip_reach(tree, flatten, 1) is None);
                },
                Some(t2) => {
                    assert(spec_unzip_reach(t2, flatten, 0) == Some(t2));
                    assert(spec_unzip_reach(tree, flatten, 1) == Some(t2));
                },
            }
        }
    } else {
        if spec_first_zip(tree) is None {
            assert(spec_unzip_reach(tree, flatten, n) == Some(tree));
            assert(spec_unzip_reach(tree, flatten, n + 1) == Some(tree));
        } else {
            match spec_unzip_step(tree, flatten) {
                None => {
                    assert(spec_unzip_reach(tree, flatten, n) is None);
                    assert(spec_unzip_reach(tree, flatten, n + 1) is None);
                },
                Some(t2) => {
                    lemma_reach_extend(t2, flatten, (n - 1) as nat);
                    assert(spec_unzip_reach(tree, flatten, n) == spec_unzip_reach(
                        t2,
                        flatten,
                        (n - 1) as nat,
                    ));
                    assert(spec_unzip_reach(tree, flatten, n + 1) == spec_unzip_reach(
                        t2,
                        flatten,
                        n,
                    ));
                    assert(spec_unzip_reach(t2, flatten, ((n - 1) as nat) + 1)
                        == spec_unzip_reach(t2, flatten, n));
                },
            }
        }
    }
}

/// The most nested-archive rounds one call resolves; deeper nesting is
/// treated as a malformed archive rather than unpacked without bound.
pub const MAX_UNZIP_ROUNDS: u64 = 4096;

/// A successful unpack: in single mode, the archive's own listing as a
/// tree; otherwise a tree reached from it by resolution rounds, with no
/// archive-named entry left.
pub open spec fn spec_unzip_ok(b: Seq<u8>, single: bool, flatten: bool, out: Seq<EntryModel>) -> bool {
    match spec_initial_tree(b) {
        None => false,
        Some(t0) => if single {
            out == t0
        } else {
            exists|n: nat|
                #[trigger] spec_unzip_reach(t0, flatten, n) == Some(out) && spec_first_zip(out)
                    is None
        },
    }
}

/// A failed unpack: the archive itself is unreadable or unsafe, or some
/// resolution round fails, or archives stay nested beyond the round
/// bound.
pub open spec fn spec_unzip_err(b: Seq<u8>, single: bool, flatten: bool) -> bool {
    match spec_initial_tree(b) {
        None => true,
        Some(t0) => !single && ((exists|n: nat| #[trigger] spec_unzip_reach(t0, flatten, n) is None)
            || (match spec_unzip_reach(t0, flatten, MAX_UNZIP_ROUNDS as nat) {
                Some(t) => spec_first_zip(t) is Some,
                None => true,
            })),
    }
}

/// Unpack an in-memory archive into a directory tree. In single mode the
/// archive is extracted once and returned as is. Otherwise every
/// archive-named entry is itself extracted into its parent directory,
/// deleted, and the parent pruned — and flattened when `flatten` is set —
/// until no archive-named entry remains.
///
/// Fails with `InvalidArchive` when the outer container cannot be read,
/// when an entry name is unsafe, when a nested archive-named entry is a
/// directory or unreadable, or when nesting exceeds the round bound.
pub fn unzip(archive: &Vec<u8>, single: bool, flatten: bool) -> (r: Result<Vec<Entry>, Error>)
    ensures
        r matches Ok(t) ==> spec_unzip_ok(archive@, single, flatten, t.deep_view()),
        r matches Err(e) ==> e == Error::InvalidArchive && spec_unzip_err(
            archive@,
            single,
            flatten,
        ),
{
    let l = match zip_list(archive) {
        Ok(l) => l,
        Err(_) => {
            return Err(Error::InvalidArchive);
        },
    };
    let root: Vec<String> = Vec::new();
    proof {
        assert(root.deep_view() =~= Seq::<Seq<char>>::empty());
    }
    let mut tree = match listing_to_entries(&root, l) {
        Ok(v) => v,
        Err(_) => {
            return Err(Error::InvalidArchive);
        },
    };
    let ghost t0 = tree.deep_view();
    proof {
        assert(spec_initial_tree(archive@) == Some(t0));
    }
    if single {
        return Ok(tree);
    }
    let mut rounds: u64 = 0;
    while rounds < MAX_UNZIP_ROUNDS
        invariant
            !single,
            spec_initial_tree(archive@) == Some(t0),
            rounds <= MAX_UNZIP_ROUNDS,
            spec_unzip_reach(t0, flatten, rounds as nat) == Some(tree.deep_view()),
        decreases MAX_UNZIP_ROUNDS - rounds,
    {
        let ghost tv = tree.deep_view();
        let i = match find_first_zip(&tree) {
            None => {
                proof {
                    assert(spec_unzip_reach(t0, flatten, rounds as nat) == Some(tree.deep_view())
                        && spec_first_zip(tree.deep_view()) is None);
                    assert(spec_unzip_ok(archive@, single, flatten, tree.deep_view()));
                }
                return Ok(tree);
            },
            Some(i) => i,
        };
        proof {
            assert(tv[i as int] == tree@[i as int].deep_view());
        }
        let ghost e = tv[i as int];
        let data = match &tree[i].node {
            Node::File(d) => clone_bytes(d),
            Node::Dir => {
                proof {
                    assert(e.node is Dir);
                    assert(spec_unzip_step(tv, flatten) is None);
                    lemma_reach_extend(t0, flatten, rounds as nat);
                    assert(spec_unzip_reach(t0, flatten, (rounds as nat) + 1) is None);
                    assert(spec_unzip_err(archive@, single, flatten));
                }
                return Err(Error::InvalidArchive);
            },
        };
        proof {
            assert(e.node == NodeModel::File(data@));
        }
        let zip_path = clone_path(&tree[i].path);
        let mut parent = clone_path(&zip_path);
        parent.pop();
        proof {
            assert(zip_path.deep_view() == e.path);
            assert(e.path.len() > 0);
            assert(parent.deep_view() =~= e.path.drop_last());
        }
        let nested = match zip_list(&data) {
            Ok(l2) => l2,
            Err(_) => {
                proof {
                    assert(spec_zip_listing(data@) is None);
                    assert(spec_unzip_step(tv, flatten) is None);
                    lemma_reach_extend(t0, flatten, rounds as nat);
                    assert(spec_unzip_reach(t0, flatten, (rounds as nat) + 1) is None);
                    assert(spec_unzip_err(archive@, single, flatten));
                }
                return Err(Error::InvalidArchive);
            },
        };
        let ghost ntup = spec_entry_tuples(nested.deep_view());
        proof {
            assert(spec_zip_listing(data@) == Some(ntup));
        }
        let new_entries = match listing_to_entries(&parent, nested) {
            Ok(v) => v,
            Err(_) => {
                proof {
                    assert(!spec_listing_safe(ntup));
                    assert(spec_unzip_step(tv, flatten) is None);
                    lemma_reach_extend(t0, flatten, rounds as nat);
                    assert(spec_unzip_reach(t0, flatten, (rounds as nat) + 1) is None);
                    assert(spec_unzip_err(archive@, single, flatten));
                }
                return Err(Error::InvalidArchive);
            },
        };
        proof {
            assert(spec_listing_safe(ntup));
            assert(new_entries.deep_view() == spec_listing_entries(e.path.drop_last(), ntup));
        }
        let t1 = insert_entries(tree, new_entries);
        let t2 = remove_path(t1, &zip_path);
        let t3 = clean_dirs(t2, &parent);
        proof {
            assert(t1.deep_view() == spec_insert_all(tv, spec_listing_entries(
                e.path.drop_last(),
                ntup,
            )));
            assert(t2.deep_view() == spec_remove_path(t1.deep_view(), e.path));
            assert(t3.deep_view() == spec_prune_at(t2.deep_view(), e.path.drop_last()));
        }
        tree = if flatten {
            flatten_dirs(t3, &parent)
        } else {
            t3
        };
        proof {
            assert(spec_unzip_step(tv, flatten) == Some(tree.deep_view()));
            lemma_reach_extend(t0, flatten, rounds as nat);
            assert(spec_unzip_reach(t0, flatten, (rounds as nat) + 1) == Some(tree.deep_view()));
        }
        rounds = rounds + 1;
    }
    match find_first_zip(&tree) {
        None => {
            proof {
                assert(spec_unzip_reach(t0, flatten, rounds as nat) == Some(tree.deep_view())
                    && spec_first_zip(tree.deep_view()) is None);
                assert(spec_unzip_ok(archive@, single, flatten, tree.deep_view()));
            }
            Ok(tree)
        },
        Some(_) => {
            proof {
                assert(rounds == MAX_UNZIP_ROUNDS);
                assert(spec_unzip_err(archive@, single, flatten));
            }
            Err(Error::InvalidArchive)
        },
    }
}

} // verus!
