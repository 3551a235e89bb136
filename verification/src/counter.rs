//! The submission counter: one line of `name,points` per student folder,
//! points counted down from a configurable maximum by the deductions the
//! scanner finds in recognised source files.
use vstd::prelude::*;

use crate::extract::{
    extract_name, is_counted_source, name_stem, spec_extract_name, spec_is_counted_source,
};
use crate::text::spec_stem;
use crate::fstree::{
    lemma_filter_map_push, lemma_concat_map_push, lemma_sum_map_push, spec_concat_map,
    spec_filter_map, spec_sum_map, spec_top_dirs, spec_under, str_eq, Entry, EntryModel, Node,
    NodeModel,
};
use crate::scan::{
    calculate_deduction, clip64, lemma_clip_add, lemma_clip_add_right, sat_add, spec_magnitudes,
    spec_sum,
};
use crate::text::{chars_to_string, dec_digits, extend_chars, extend_str, spec_dec, DIGITS};

verus! {

/// The deduction a single entry contributes: the scanner total of a file,
/// zero for a directory.
pub open spec fn spec_file_deduction(e: EntryModel) -> nat {
    match e.node {
        NodeModel::File(data) => spec_sum(spec_magnitudes(data)),
        NodeModel::Dir => 0,
    }
}

/// A counted source file of the folder named `f`: a file anywhere under
/// it whose name carries the counted extension.
pub open spec fn spec_counted_file(f: Seq<char>, e: EntryModel) -> bool {
    spec_under(seq![f], e.path) && e.node is File && spec_is_counted_source(e.path.last())
}

/// The total deduction, in tenths, recorded in the counted source files
/// of the folder named `f`.
pub open spec fn spec_folder_deduction(tree: Seq<EntryModel>, f: Seq<char>) -> nat {
    spec_sum_map(
        tree,
        |e: EntryModel|
            if spec_counted_file(f, e) {
                spec_file_deduction(e)
            } else {
                0
            },
    )
}

/// Points awarded: the maximum minus the deduction, clamped at zero.
pub open spec fn spec_points(mp: nat, ded: nat) -> nat {
    if ded >= mp {
        0
    } else {
        (mp - ded) as nat
    }
}

/// A tenths total rendered the way the counter writes points: the whole
/// part alone when the tenth digit is zero, else with one decimal.
pub open spec fn spec_format_tenths(t: nat) -> Seq<char> {
    if t % 10 == 0 {
        spec_dec(t / 10)
    } else {
        spec_dec(t / 10) + seq!['.'] + seq![DIGITS@[(t % 10) as int]]
    }
}

/// The result line of one student folder: display name, comma, points,
/// newline — or nothing when the folder name yields no display name.
pub open spec fn spec_count_row(tree: Seq<EntryModel>, e: EntryModel, mp: nat) -> Seq<char> {
    match spec_extract_name(spec_stem(e.path.last())) {
        None => Seq::empty(),
        Some(nm) => nm + seq![','] + spec_format_tenths(
            spec_points(mp, spec_folder_deduction(tree, e.path.last())),
        ) + seq!['\n'],
    }
}

/// The maximum in tenths that a configured maximum denotes.
pub open spec fn spec_max_tenths(m: Option<u8>) -> nat {
    (match m {
        Some(v) => v as nat,
        None => 25,
    }) * 10
}

/// The whole result file: one line per student folder, in tree order.
pub open spec fn spec_count_text(tree: Seq<EntryModel>, mp: nat) -> Seq<char> {
    spec_concat_map(spec_top_dirs(tree), (|e: EntryModel| spec_count_row(tree, e, mp)))
}

/// Render a tenths total.
fn format_tenths(t: u64) -> (r: Vec<char>)
    ensures
        r@ == spec_format_tenths(t as nat),
{
    let mut r = dec_digits(t / 10);
    if t % 10 != 0 {
        r.push('.');
        r.push(DIGITS[(t % 10) as usize]);
        assert(r@ =~= spec_dec(t as nat / 10) + seq!['.'] + seq![DIGITS@[(t as nat % 10) as int]]);
    }
    r
}

/// The saturated total deduction of the folder named `fname`, summed
/// over its counted source files.
pub fn sum_deduction(tree: &Vec<Entry>, fname: &String) -> (r: u64)
    ensures
        r as nat == clip64(spec_folder_deduction(tree.deep_view(), fname@)),
{
    let ghost tv = tree.deep_view();
    let ghost df = (|e: EntryModel|
        if spec_counted_file(fname@, e) {
            spec_file_deduction(e)
        } else {
            0
        });
    let mut acc: u64 = 0;
    for j in 0..tree.len()
        invariant
            tv == tree.deep_view(),
            df == (|e: EntryModel|
                if spec_counted_file(fname@, e) {
                    spec_file_deduction(e)
                } else {
                    0
                }),
            acc as nat == clip64(spec_sum_map(tv.take(j as int), df)),
    {
        let e = &tree[j];
        proof {
            assert(tv[j as int] == tree@[j as int].deep_view());
            lemma_sum_map_push(tv.take(j as int), df, tv[j as int]);
            assert(tv.take(j + 1) =~= tv.take(j as int).push(tv[j as int]));
        }
        let ghost before = spec_sum_map(tv.take(j as int), df);
        let counted = e.path.len() >= 2 && str_eq(&e.path[0], fname) && is_counted_source(
            &e.path[e.path.len() - 1],
        );
        proof {
            let em = tv[j as int];
            if counted && em.node is File {
                assert(em.path.take(1) =~= seq![fname@]);
                assert(spec_counted_file(fname@, em));
            }
            if em.path.len() >= 1 {
                assert(em.path.last() == e.path.deep_view()[e.path@.len() - 1]);
            }
            if !(counted && em.node is File) {
                if spec_counted_file(fname@, em) {
                    assert(em.path.len() >= 2);
                    assert(em.path.take(1)[0] == em.path[0]);
                    assert(e.path.deep_view()[0] == em.path[0]);
                }
                assert(!spec_counted_file(fname@, em));
                assert(df(em) == 0);
            }
        }
        match &e.node {
            Node::File(data) => {
                if counted {
                    let fd = calculate_deduction(data);
                    proof {
                        let em = tv[j as int];
                        assert(spec_file_deduction(em) == spec_sum(spec_magnitudes(data@)));
                        lemma_clip_add(before, df(em));
                        lemma_clip_add_right(clip64(before) as nat, df(em));
                    }
                    acc = sat_add(acc, fd);
                }
            },
            Node::Dir => {
            },
        }
    }
    proof {
        assert(tv.take(tv.len() as int) =~= tv);
    }
    acc
}

/// The counter: for every directory sitting directly in the root of the
/// tree, extract a display name from the folder name's stem (skipping the
/// folder when there is none), subtract the folder's scanned deductions
/// from the maximum (default 25 points), clamp at zero, and emit one
/// `name,points` line. Returns the whole result file.
pub fn count(tree: &Vec<Entry>, max_points: Option<u8>) -> (r: String)
    ensures
        r@ == spec_count_text(tree.deep_view(), spec_max_tenths(max_points)),
{
    let mp: u64 = match max_points {
        Some(m) => (m as u64) * 10,
        None => 250,
    };
    let ghost mpn = spec_max_tenths(max_points);
    let ghost tv = tree.deep_view();
    let ghost pred = (|e: EntryModel| e.path.len() == 1 && e.node is Dir);
    let ghost idf = (|e: EntryModel| e);
    let ghost rowf = (|e: EntryModel| spec_count_row(tv, e, mpn));
    let mut out: Vec<char> = Vec::new();
    proof {
        assert(mp == mpn);
    }
    for i in 0..tree.len()
        invariant
            tv == tree.deep_view(),
            mp == mpn,
            mpn <= 2550,
            pred == (|e: EntryModel| e.path.len() == 1 && e.node is Dir),
            idf == (|e: EntryModel| e),
            rowf == (|e: EntryModel| spec_count_row(tv, e, mpn)),
            out@ == spec_concat_map(spec_filter_map(tv.take(i as int), pred, idf), rowf),
    {
        let e = &tree[i];
        proof {
            assert(tv[i as int] == tree@[i as int].deep_view());
            lemma_filter_map_push(tv.take(i as int), pred, idf, tv[i as int]);
            assert(tv.take(i + 1) =~= tv.take(i as int).push(tv[i as int]));
        }
        let is_dir = match &e.node {
            Node::Dir => true,
            Node::File(_) => false,
        };
        if e.path.len() == 1 && is_dir {
            let ghost em = tv[i as int];
            proof {
                assert(pred(em));
                assert(idf(em) == em);
                assert(spec_filter_map(tv.take(i as int), pred, idf) + seq![em]
                    =~= spec_filter_map(tv.take(i as int), pred, idf).push(em));
                lemma_concat_map_push(
                    spec_filter_map(tv.take(i as int), pred, idf),
                    rowf,
                    em,
                );
            }
            let fname = &e.path[0];
            proof {
                assert(em.path.last() == fname@);
            }
            let stem = name_stem(fname);
            match extract_name(&stem) {
                None => {
                    proof {
                        assert(rowf(em) =~= Seq::<char>::empty());
                        assert(out@ + Seq::<char>::empty() =~= out@);
                    }
                },
                Some(nm) => {
                    let ded = sum_deduction(tree, fname);
                    let pts: u64 = if ded >= mp {
                        0
                    } else {
                        mp - ded
                    };
                    proof {
                        let d = spec_folder_deduction(tv, fname@);
                        assert(ded as nat == clip64(d));
                        if d > u64::MAX {
                            assert(ded == u64::MAX);
                            assert(pts == 0);
                        }
                        assert(pts as nat == spec_points(mpn, d));
                    }
                    let ghost before = out@;
                    extend_str(&mut out, nm.as_str());
                    out.push(',');
                    let ft = format_tenths(pts);
                    extend_chars(&mut out, &ft);
                    out.push('\n');
                    proof {
                        assert(out@ =~= before + rowf(em));
                    }
                },
            }
        } else {
            proof {
                assert(!pred(tv[i as int]));
                assert(spec_filter_map(tv.take(i as int), pred, idf) + Seq::<EntryModel>::empty()
                    =~= spec_filter_map(tv.take(i as int), pred, idf));
            }
        }
    }
    proof {
        assert(tv.take(tv.len() as int) =~= tv);
    }
    chars_to_string(&out)
}

} // verus!
