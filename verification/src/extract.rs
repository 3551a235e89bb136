//! Name classification and extraction rules: the ignored-name list, the
//! archive-name test, the counted-source test, the numeric identifier
//! embedded in a directory name, and the display name of a folder.
use vstd::prelude::*;

use crate::text::{
    contains_ci, ends_with, has_extension, spec_contains_ci, spec_ends_with, spec_has_extension,
    spec_is_digit, str_chars, chars_to_string, stem_of, spec_stem, sub_chars,
};

verus! {

/// A name is ignored when it contains one of these, case-insensitively:
/// OS metadata folders, version-control folders, IDE artifacts, and
/// compiled class files.
pub open spec fn spec_name_ignored(name: Seq<char>) -> bool {
    ||| spec_contains_ci(name, "__macosx"@)
    ||| spec_contains_ci(name, ".git"@)
    ||| spec_contains_ci(name, ".idea"@)
    ||| spec_contains_ci(name, ".ds_store"@)
    ||| spec_contains_ci(name, ".iml"@)
    ||| spec_contains_ci(name, ".class"@)
}

/// Whether an entry name survives pruning.
pub fn not_ignored(name: &String) -> (r: bool)
    ensures
        r == !spec_name_ignored(name@),
{
    let cs = str_chars(name.as_str());
    let r = contains_ci(&cs, &str_chars("__macosx")) || contains_ci(&cs, &str_chars(".git"))
        || contains_ci(&cs, &str_chars(".idea")) || contains_ci(&cs, &str_chars(".ds_store"))
        || contains_ci(&cs, &str_chars(".iml")) || contains_ci(&cs, &str_chars(".class"));
    !r
}

/// A name denotes an archive when it ends in `.zip`.
pub open spec fn spec_is_zip_name(name: Seq<char>) -> bool {
    spec_ends_with(name, ".zip"@)
}

/// Whether the name ends in the archive extension.
pub fn is_zip_file(name: &String) -> (r: bool)
    ensures
        r == spec_is_zip_name(name@),
{
    let cs = str_chars(name.as_str());
    ends_with(&cs, &str_chars(".zip"))
}

/// A name whose extension equals `zip` exactly; the packager keeps such
/// entries out of feedback bundles.
pub open spec fn spec_has_zip_ext(name: Seq<char>) -> bool {
    spec_has_extension(name, "zip"@)
}

/// Whether the name's extension is exactly `zip`.
pub fn has_zip_ext(name: &String) -> (r: bool)
    ensures
        r == spec_has_zip_ext(name@),
{
    let cs = str_chars(name.as_str());
    has_extension(&cs, &str_chars("zip"))
}

/// A recognised source file, whose deductions are counted.
pub open spec fn spec_is_counted_source(name: Seq<char>) -> bool {
    spec_has_extension(name, "java"@)
}

/// Whether the file name has a counted source extension.
pub fn is_counted_source(name: &String) -> (r: bool)
    ensures
        r == spec_is_counted_source(name@),
{
    let cs = str_chars(name.as_str());
    has_extension(&cs, &str_chars("java"))
}

/// The least position at or after `i` holding a digit.
pub open spec fn spec_first_digit(s: Seq<char>, i: int) -> Option<int>
    decreases s.len() - i when 0 <= i
{
    if i < 0 || i >= s.len() {
        None
    } else if spec_is_digit(s[i]) {
        Some(i)
    } else {
        spec_first_digit(s, i + 1)
    }
}

/// The end of the digit run that starts at `q`.
pub open spec fn spec_digit_run_end(s: Seq<char>, q: int) -> int
    decreases s.len() - q,
{
    if 0 <= q < s.len() && spec_is_digit(s[q]) {
        spec_digit_run_end(s, q + 1)
    } else {
        q
    }
}

/// The first maximal run of digits in `s`: the numeric identifier a
/// directory name carries, when it carries one.
pub open spec fn spec_extract_id(s: Seq<char>) -> Option<Seq<char>> {
    match spec_first_digit(s, 0) {
        Some(i) => Some(s.subrange(i, spec_digit_run_end(s, i))),
        None => None,
    }
}

/// A display-name character: neither a digit nor an underscore.
pub open spec fn spec_is_name_char(c: char) -> bool {
    !spec_is_digit(c) && c != '_'
}

/// The least position at or after `i` holding a display-name character.
pub open spec fn spec_first_name_char(s: Seq<char>, i: int) -> Option<int>
    decreases s.len() - i when 0 <= i
{
    if i < 0 || i >= s.len() {
        None
    } else if spec_is_name_char(s[i]) {
        Some(i)
    } else {
        spec_first_name_char(s, i + 1)
    }
}

/// The end of the display-name run that starts at `q`.
pub open spec fn spec_name_run_end(s: Seq<char>, q: int) -> int
    decreases s.len() - q,
{
    if 0 <= q < s.len() && spec_is_name_char(s[q]) {
        spec_name_run_end(s, q + 1)
    } else {
        q
    }
}

/// The first maximal run of display-name characters in `s`: the student
/// name a folder name carries, when it carries one.
pub open spec fn spec_extract_name(s: Seq<char>) -> Option<Seq<char>> {
    match spec_first_name_char(s, 0) {
        Some(i) => Some(s.subrange(i, spec_name_run_end(s, i))),
        None => None,
    }
}

pub(crate) proof fn lemma_first_digit_is(s: Seq<char>, k: int, i: int)
    requires
        0 <= k <= i <= s.len(),
        forall|t: int| k <= t < i ==> !spec_is_digit(#[trigger] s[t]),
        i == s.len() || spec_is_digit(s[i]),
    ensures
        spec_first_digit(s, k) == if i == s.len() {
            None::<int>
        } else {
            Some(i)
        },
    decreases i - k,
{
    if k < i {
        lemma_first_digit_is(s, k + 1, i);
    }
}

proof fn lemma_digit_run_end_is(s: Seq<char>, q: int, j: int)
    requires
        0 <= q <= j <= s.len(),
        forall|t: int| q <= t < j ==> spec_is_digit(#[trigger] s[t]),
        j == s.len() || !spec_is_digit(s[j]),
    ensures
        spec_digit_run_end(s, q) == j,
    decreases j - q,
{
    if q < j {
        lemma_digit_run_end_is(s, q + 1, j);
    }
}

proof fn lemma_first_name_char_is(s: Seq<char>, k: int, i: int)
    requires
        0 <= k <= i <= s.len(),
        forall|t: int| k <= t < i ==> !spec_is_name_char(#[trigger] s[t]),
        i == s.len() || spec_is_name_char(s[i]),
    ensures
        spec_first_name_char(s, k) == if i == s.len() {
            None::<int>
        } else {
            Some(i)
        },
    decreases i - k,
{
    if k < i {
        lemma_first_name_char_is(s, k + 1, i);
    }
}

proof fn lemma_name_run_end_is(s: Seq<char>, q: int, j: int)
    requires
        0 <= q <= j <= s.len(),
        forall|t: int| q <= t < j ==> spec_is_name_char(#[trigger] s[t]),
        j == s.len() || !spec_is_name_char(s[j]),
    ensures
        spec_name_run_end(s, q) == j,
    decreases j - q,
{
    if q < j {
        lemma_name_run_end_is(s, q + 1, j);
    }
}

fn is_digit_char(c: char) -> (r: bool)
    ensures
        r == spec_is_digit(c),
{
    let u = c as u32;
    48 <= u && u <= 57
}

fn is_name_char(c: char) -> (r: bool)
    ensures
        r == spec_is_name_char(c),
{
    !is_digit_char(c) && c != '_'
}

/// The numeric identifier embedded in a name: its first maximal digit run.
pub fn extract_id(name: &String) -> (r: Option<String>)
    ensures
        match r {
            Some(id) => spec_extract_id(name@) == Some(id@),
            None => spec_extract_id(name@) is None,
        },
{
    let cs = str_chars(name.as_str());
    let n = cs.len();
    let mut i: usize = 0;
    while i < n && !is_digit_char(cs[i])
        invariant
            n == cs@.len(),
            0 <= i <= n,
            forall|t: int| 0 <= t < i ==> !spec_is_digit(#[trigger] cs@[t]),
        decreases n - i,
    {
        i = i + 1;
    }
    proof {
        lemma_first_digit_is(cs@, 0, i as int);
    }
    if i == n {
        return None;
    }
    let mut j = i;
    while j < n && is_digit_char(cs[j])
        invariant
            n == cs@.len(),
            i <= j <= n,
            forall|t: int| i <= t < j ==> spec_is_digit(#[trigger] cs@[t]),
        decreases n - j,
    {
        j = j + 1;
    }
    proof {
        lemma_digit_run_end_is(cs@, i as int, j as int);
    }
    let run = sub_chars(&cs, i, j);
    Some(chars_to_string(&run))
}

/// The display name embedded in a folder name: its first maximal run of
/// characters that are neither digits nor underscores.
pub fn extract_name(name: &String) -> (r: Option<String>)
    ensures
        match r {
            Some(nm) => spec_extract_name(name@) == Some(nm@),
            None => spec_extract_name(name@) is None,
        },
{
    let cs = str_chars(name.as_str());
    let n = cs.len();
    let mut i: usize = 0;
    while i < n && !is_name_char(cs[i])
        invariant
            n == cs@.len(),
            0 <= i <= n,
            forall|t: int| 0 <= t < i ==> !spec_is_name_char(#[trigger] cs@[t]),
        decreases n - i,
    {
        i = i + 1;
    }
    proof {
        lemma_first_name_char_is(cs@, 0, i as int);
    }
    if i == n {
        return None;
    }
    let mut j = i;
    while j < n && is_name_char(cs[j])
        invariant
            n == cs@.len(),
            i <= j <= n,
            forall|t: int| i <= t < j ==> spec_is_name_char(#[trigger] cs@[t]),
        decreases n - j,
    {
        j = j + 1;
    }
    proof {
        lemma_name_run_end_is(cs@, i as int, j as int);
    }
    let run = sub_chars(&cs, i, j);
    Some(chars_to_string(&run))
}

/// The stem of a file or folder name: the part before its extension.
pub fn name_stem(name: &String) -> (r: String)
    ensures
        r@ == spec_stem(name@),
{
    let cs = str_chars(name.as_str());
    let st = stem_of(&cs);
    chars_to_string(&st)
}

} // verus!
