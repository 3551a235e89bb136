//! The table filler: validate the table path, load its records, match
//! each record's identifier to a student folder, recompute the awarded
//! rating from the folder's scanned deductions, stamp the fixed feedback
//! note, and write the surviving records back out. Records whose
//! identifier has no folder are left out of the output entirely.
use vstd::prelude::*;

use crate::archive::{spec_split, split_name};
use crate::counter::{spec_folder_deduction, sum_deduction};
use crate::errors::Error;
use crate::extract::{extract_id, spec_extract_id};
use crate::fstree::{
    lemma_filter_map_push, spec_filter_map, str_eq, Entry, EntryModel, Node,
};
use crate::record::{Record, RecordModel};
use crate::scan::clip64;
use crate::table::{read_table, spec_read_table, spec_write_table, write_table};
use crate::text::{has_extension, str_chars, spec_has_extension};

verus! {

/// The note written into every filled record's feedback field.
pub open spec fn spec_feedback_note() -> Seq<char> {
    "Bewertung siehe Feedbackdateien."@
}

/// A valid table path: it exists, is a regular file, and its final
/// component carries the recognised table extension.
pub open spec fn spec_table_path_ok(path: Seq<char>, exists_: bool, is_file: bool) -> bool {
    let comps = spec_split(path);
    exists_ && is_file && comps.len() > 0 && spec_has_extension(comps.last(), "csv"@)
}

/// The student folders carrying the given identifier, in tree order.
pub open spec fn spec_dirs_with_id(tree: Seq<EntryModel>, id: Seq<char>) -> Seq<Seq<char>> {
    spec_filter_map(
        tree,
        (|e: EntryModel| e.path.len() == 1 && e.node is Dir && spec_extract_id(e.path.first())
            == Some(id)),
        (|e: EntryModel| e.path.first()),
    )
}

/// The folder a record's identifier maps to: the last folder carrying
/// it, when any does.
pub open spec fn spec_find_dir(tree: Seq<EntryModel>, id: Seq<char>) -> Option<Seq<char>> {
    let ds = spec_dirs_with_id(tree, id);
    if ds.len() > 0 {
        Some(ds.last())
    } else {
        None
    }
}

/// A record after filling: the rating recomputed from the folder's
/// deductions against the record's own maximum, clamped at zero, and the
/// fixed feedback note written in.
pub open spec fn spec_filled_record(tree: Seq<EntryModel>, r: RecordModel) -> RecordModel {
    let dir = spec_find_dir(tree, r.id)->0;
    let ded = spec_folder_deduction(tree, dir);
    let pts: nat = if ded * 10 >= r.best_rating {
        0
    } else {
        (r.best_rating - ded * 10) as nat
    };
    RecordModel { rating: Some(pts as u64), feedback: spec_feedback_note(), ..r }
}

/// The filled table's records: those whose identifier has a folder, in
/// table order, each recomputed.
pub open spec fn spec_fill_records(records: Seq<RecordModel>, tree: Seq<EntryModel>) -> Seq<
    RecordModel,
> {
    spec_filter_map(
        records,
        (|r: RecordModel| spec_find_dir(tree, r.id) is Some),
        (|r: RecordModel| spec_filled_record(tree, r)),
    )
}

/// Find the folder matching an identifier: the last directory sitting in
/// the root whose name carries that identifier.
fn find_dir(tree: &Vec<Entry>, id: &String) -> (r: Option<String>)
    ensures
        match r {
            Some(d) => spec_find_dir(tree.deep_view(), id@) == Some(d@),
            None => spec_find_dir(tree.deep_view(), id@) is None,
        },
{
    let ghost tv = tree.deep_view();
    let ghost pred = (|e: EntryModel| e.path.len() == 1 && e.node is Dir && spec_extract_id(
        e.path.first(),
    ) == Some(id@));
    let ghost name_of = (|e: EntryModel| e.path.first());
    let mut found: Option<String> = None;
    for i in 0..tree.len()
        invariant
            tv == tree.deep_view(),
            pred == (|e: EntryModel| e.path.len() == 1 && e.node is Dir && spec_extract_id(
                e.path.first(),
            ) == Some(id@)),
            name_of == (|e: EntryModel| e.path.first()),
            ({
                let ds = spec_filter_map(tv.take(i as int), pred, name_of);
                match found {
                    Some(d) => ds.len() > 0 && d@ == ds.last(),
                    None => ds.len() == 0,
                }
            }),
    {
        let e = &tree[i];
        proof {
            assert(tv[i as int] == tree@[i as int].deep_view());
            lemma_filter_map_push(tv.take(i as int), pred, name_of, tv[i as int]);
            assert(tv.take(i + 1) =~= tv.take(i as int).push(tv[i as int]));
        }
        let ghost em = tv[i as int];
        let is_dir = match &e.node {
            Node::Dir => true,
            Node::File(_) => false,
        };
        if e.path.len() == 1 && is_dir {
            let dname = &e.path[0];
            proof {
                assert(em.path.first() == e.path.deep_view()[0]);
            }
            let matched = match extract_id(dname) {
                Some(got) => str_eq(&got, id),
                None => false,
            };
            if matched {
                proof {
                    assert(pred(em));
                    assert(spec_filter_map(tv.take(i + 1), pred, name_of).last()
                        == name_of(em));
                }
                found = Some(dname.clone());
            } else {
                proof {
                    assert(!pred(em));
                    assert(spec_filter_map(tv.take(i as int), pred, name_of)
                        + Seq::<Seq<char>>::empty() =~= spec_filter_map(
                        tv.take(i as int),
                        pred,
                        name_of,
                    ));
                }
            }
        } else {
            proof {
                assert(!pred(em));
                assert(spec_filter_map(tv.take(i as int), pred, name_of)
                    + Seq::<Seq<char>>::empty() =~= spec_filter_map(
                    tv.take(i as int),
                    pred,
                    name_of,
                ));
            }
        }
    }
    proof {
        assert(tv.take(tv.len() as int) =~= tv);
    }
    found
}

/// Fill the loaded records against the tree: keep exactly those whose
/// identifier has a matching folder, in order, each with its rating
/// recomputed and the feedback note written in.
pub fn fill_records(records: Vec<Record>, tree: &Vec<Entry>) -> (r: Vec<Record>)
    ensures
        r.deep_view() == spec_fill_records(records.deep_view(), tree.deep_view()),
{
    let ghost rd = records.deep_view();
    let ghost tv = tree.deep_view();
    let ghost pred = (|r: RecordModel| spec_find_dir(tv, r.id) is Some);
    let ghost getf = (|r: RecordModel| spec_filled_record(tv, r));
    let mut rest = records;
    let mut out: Vec<Record> = Vec::new();
    let ghost k: int = 0;
    while rest.len() > 0
        invariant
            tv == tree.deep_view(),
            pred == (|r: RecordModel| spec_find_dir(tv, r.id) is Some),
            getf == (|r: RecordModel| spec_filled_record(tv, r)),
            0 <= k,
            k + rest.len() == rd.len(),
            out.deep_view() == spec_filter_map(rd.take(k), pred, getf),
            forall|t: int| 0 <= t < rest.deep_view().len() ==> rest.deep_view()[t] == rd[k + t],
        decreases rest.len(),
    {
        let ghost rv = rest.deep_view();
        let rec = rest.remove(0);
        proof {
            assert(rest.deep_view() =~= rv.drop_first());
            assert(rec.deep_view() == rv.first());
            assert(rec.deep_view() == rd[k]);
            lemma_filter_map_push(rd.take(k), pred, getf, rd[k]);
            assert(rd.take(k + 1) =~= rd.take(k).push(rd[k]));
        }
        match find_dir(tree, &rec.id) {
            Some(dir) => {
                let ded = sum_deduction(tree, &dir);
                let pts: u64 = if ded > u64::MAX / 10 {
                    proof {
                        assert(ded * 10 > u64::MAX) by (nonlinear_arith)
                            requires
                                ded > u64::MAX / 10,
                                u64::MAX / 10 == (u64::MAX as int) / 10,
                        ;
                    }
                    0
                } else {
                    proof {
                        assert(ded * 10 <= u64::MAX) by (nonlinear_arith)
                            requires
                                ded <= u64::MAX / 10,
                                u64::MAX / 10 == (u64::MAX as int) / 10,
                        ;
                    }
                    let dh = ded * 10;
                    if dh >= rec.best_rating {
                        0
                    } else {
                        rec.best_rating - dh
                    }
                };
                proof {
                    let d = spec_folder_deduction(tv, dir@);
                    assert(ded as nat == clip64(d));
                    if d > u64::MAX {
                        assert(ded == u64::MAX);
                        assert(d * 10 >= d);
                        assert(pts == 0);
                    } else {
                        assert(ded == d);
                    }
                    assert(pts as nat == (if d * 10 >= rec.best_rating {
                        0
                    } else {
                        (rec.best_rating - d * 10) as nat
                    }));
                }
                let mut filled = rec;
                filled.rating = Some(pts);
                let mut fb_chars: Vec<char> = Vec::new();
                crate::text::extend_str(&mut fb_chars, "Bewertung siehe Feedbackdateien.");
                filled.feedback = crate::text::chars_to_string(&fb_chars);
                let ghost ov = out.deep_view();
                proof {
                    assert(pred(rd[k]));
                    assert(filled.deep_view() == getf(rd[k]));
                }
                out.push(filled);
                proof {
                    assert(out.deep_view() =~= ov.push(getf(rd[k])));
                    assert(ov.push(getf(rd[k])) =~= ov + seq![getf(rd[k])]);
                    k = k + 1;
                }
            },
            None => {
                proof {
                    assert(!pred(rd[k]));
                    assert(out.deep_view() + Seq::<RecordModel>::empty() =~= out.deep_view());
                    k = k + 1;
                }
            },
        }
    }
    proof {
        assert(rd.take(k) =~= rd);
    }
    out
}

/// The filler. Checks the table path (as the caller observed it: whether
/// it exists and is a regular file) and its extension; loads the table's
/// parseable records; and returns the filled table text. Fails exactly
/// when the path check fails.
pub fn fill_table(
    table_path: &String,
    table_exists: bool,
    table_is_file: bool,
    table_text: &String,
    tree: &Vec<Entry>,
) -> (r: Result<String, Error>)
    ensures
        r is Ok <==> spec_table_path_ok(table_path@, table_exists, table_is_file),
        r matches Err(e) ==> e == Error::InvalidTablePath,
        r matches Ok(out) ==> out@ == spec_write_table(
            spec_fill_records(spec_read_table(table_text@), tree.deep_view()),
        ),
{
    let comps = split_name(table_path);
    let ext_ok = if comps.len() == 0 {
        false
    } else {
        let last = &comps[comps.len() - 1];
        let lc = str_chars(last.as_str());
        proof {
            assert(comps.deep_view().last() == comps@[comps@.len() - 1]@);
        }
        has_extension(&lc, &str_chars("csv"))
    };
    if !table_exists || !table_is_file || !ext_ok {
        return Err(Error::InvalidTablePath);
    }
    let records = read_table(table_text);
    let filled = fill_records(records, tree);
    Ok(write_table(&filled))
}

/// A record whose identifier matches no student folder is excluded from
/// the filled table: every record of the output carries an identifier
/// some folder matches.
pub proof fn lemma_fill_excludes_unmatched(records: Seq<RecordModel>, tree: Seq<EntryModel>)
    ensures
        forall|j: int|
            0 <= j < spec_fill_records(records, tree).len() ==> spec_find_dir(
                tree,
                #[trigger] spec_fill_records(records, tree)[j].id,
            ) is Some,
    decreases records.len(),
{
    let pred = (|r: RecordModel| spec_find_dir(tree, r.id) is Some);
    let getf = (|r: RecordModel| spec_filled_record(tree, r));
    let out = spec_fill_records(records, tree);
    if records.len() > 0 {
        let rest = records.drop_first();
        lemma_fill_excludes_unmatched(rest, tree);
        let out_rest = spec_fill_records(rest, tree);
        assert forall|j: int| 0 <= j < out.len() implies spec_find_dir(
            tree,
            #[trigger] out[j].id,
        ) is Some by {
            if pred(records.first()) {
                assert(out == seq![getf(records.first())] + out_rest);
                if j == 0 {
                    assert(out[0] == getf(records.first()));
                    assert(getf(records.first()).id == records.first().id);
                } else {
                    assert(out[j] == out_rest[j - 1]);
                }
            } else {
                assert(out == out_rest);
                assert(out[j] == out_rest[j]);
            }
        }
    }
}

} // verus!
