//! Character-level helpers: conversions between `String` and `Vec<char>`,
//! case-insensitive substring search, name classification (extension, stem,
//! digit runs) and decimal formatting over exact integers.
use vstd::prelude::*;

verus! {

/// The ten decimal digit characters, indexable by value.
pub const DIGITS: [char; 10] = ['0', '1', '2', '3', '4', '5', '6', '7', '8', '9'];

pub open spec fn spec_is_digit(c: char) -> bool {
    48 <= c as u32 <= 57
}

pub open spec fn spec_digit_val(c: char) -> nat {
    (c as u32 - 48) as nat
}

/// ASCII lowering, applied character by character; other characters are kept.
pub open spec fn spec_lower(c: char) -> u32 {
    if 65 <= c as u32 <= 90 {
        (c as u32 + 32) as u32
    } else {
        c as u32
    }
}

/// Executable ASCII lowering of a single character, as a code point.
pub fn lower_code(c: char) -> (r: u32)
    ensures
        r == spec_lower(c),
{
    let u = c as u32;
    if 65 <= u && u <= 90 {
        u + 32
    } else {
        u
    }
}

/// The characters of `s`, as a vector.
pub fn str_chars(s: &str) -> (r: Vec<char>)
    ensures
        r@ == s@,
{
    let n = s.unicode_len();
    let mut r: Vec<char> = Vec::new();
    for i in 0..n
        invariant
            n == s@.len(),
            r@ == s@.take(i as int),
    {
        r.push(s.get_char(i));
        assert(s@.take(i + 1) =~= s@.take(i as int).push(s@[i as int]));
    }
    assert(s@.take(n as int) =~= s@);
    r
}

/// Relies on `core::iter::Iterator::collect` for `String`: collecting
/// characters yields the string made of exactly those characters.
#[verifier::external_body]
pub fn chars_to_string(v: &Vec<char>) -> (r: String)
    ensures
        r@ == v@,
{
    v.iter().collect()
}

/// Case-insensitive (ASCII) equality of two equally long stretches.
pub open spec fn spec_ci_eq(a: Seq<char>, b: Seq<char>) -> bool {
    a.len() == b.len() && (forall|j: int|
        0 <= j < b.len() ==> spec_lower(a[j]) == spec_lower(#[trigger] b[j]))
}

/// `needle` occurs in `hay`, compared case-insensitively (ASCII).
pub open spec fn spec_contains_ci(hay: Seq<char>, needle: Seq<char>) -> bool {
    exists|k: int|
        0 <= k && k + needle.len() <= hay.len() && spec_ci_eq(
            #[trigger] hay.subrange(k, k + needle.len() as int),
            needle,
        )
}

/// Case-insensitive comparison of `needle` against the stretch of `hay`
/// that starts at `k`.
fn ci_eq_at(hay: &Vec<char>, needle: &Vec<char>, k: usize) -> (r: bool)
    requires
        k + needle@.len() <= hay@.len(),
    ensures
        r == spec_ci_eq(hay@.subrange(k as int, k + needle@.len() as int), needle@),
{
    assert(hay@.len() == hay.len());
    let ghost sub = hay@.subrange(k as int, k + needle@.len() as int);
    for j in 0..needle.len()
        invariant
            hay@.len() <= usize::MAX,
            k + needle@.len() <= hay@.len(),
            sub == hay@.subrange(k as int, k + needle@.len() as int),
            forall|t: int| 0 <= t < j ==> spec_lower(sub[t]) == spec_lower(#[trigger] needle@[t]),
    {
        proof {
            assert(sub[j as int] == hay@[k + j]);
        }
        if lower_code(hay[k + j]) != lower_code(needle[j]) {
            return false;
        }
    }
    true
}

/// Case-insensitive substring search.
pub fn contains_ci(hay: &Vec<char>, needle: &Vec<char>) -> (r: bool)
    ensures
        r == spec_contains_ci(hay@, needle@),
{
    if needle.len() > hay.len() {
        assert(!spec_contains_ci(hay@, needle@));
        return false;
    }
    let last = hay.len() - needle.len();
    let mut k: usize = 0;
    while k <= last
        invariant
            hay@.len() <= usize::MAX,
            needle@.len() <= hay@.len(),
            last == hay@.len() - needle@.len(),
            k <= last + 1,
            forall|k2: int|
                0 <= k2 < k ==> !spec_ci_eq(
                    #[trigger] hay@.subrange(k2, k2 + needle@.len() as int),
                    needle@,
                ),
        decreases last + 1 - k,
    {
        if ci_eq_at(hay, needle, k) {
            assert(spec_contains_ci(hay@, needle@));
            return true;
        }
        k = k + 1;
    }
    assert forall|k2: int| 0 <= k2 && k2 + needle@.len() <= hay@.len() implies !spec_ci_eq(
        #[trigger] hay@.subrange(k2, k2 + needle@.len() as int),
        needle@,
    ) by {
        assert(k2 <= last);
    }
    false
}

/// Exact (case-sensitive) containment of `needle` in `hay`.
pub open spec fn spec_ends_with(s: Seq<char>, suffix: Seq<char>) -> bool {
    s.len() >= suffix.len() && s.subrange(s.len() - suffix.len(), s.len() as int) == suffix
}

/// Whether `s` ends with `suffix`.
pub fn ends_with(s: &Vec<char>, suffix: &Vec<char>) -> (r: bool)
    ensures
        r == spec_ends_with(s@, suffix@),
{
    if suffix.len() > s.len() {
        return false;
    }
    assert(s@.len() == s.len());
    let off = s.len() - suffix.len();
    for j in 0..suffix.len()
        invariant
            s@.len() <= usize::MAX,
            off + suffix@.len() == s@.len(),
            forall|t: int| 0 <= t < j ==> s@[off + t] == #[trigger] suffix@[t],
    {
        if s[off + j] != suffix[j] {
            assert(s@.subrange(off as int, s@.len() as int)[j as int] == s@[off + j]);
            return false;
        }
    }
    assert(s@.subrange(off as int, s@.len() as int) =~= suffix@);
    true
}

/// The index of the last `'.'` that can begin an extension: the last dot
/// at a positive index. `None` when the name has no extension, matching
/// how a path's final component is split into stem and extension.
pub open spec fn spec_ext_dot(name: Seq<char>) -> Option<int> {
    if exists|i: int| 1 <= i < name.len() && name[i] == '.' {
        Some(choose|i: int|
            1 <= i < name.len() && name[i] == '.' && (forall|j: int|
                i < j < name.len() ==> name[j] != '.'))
    } else {
        None
    }
}

/// The extension of a file name: what follows the last dot, when the dot
/// is not the leading character.
pub open spec fn spec_extension(name: Seq<char>) -> Option<Seq<char>> {
    match spec_ext_dot(name) {
        Some(i) => Some(name.subrange(i + 1, name.len() as int)),
        None => None,
    }
}

/// The stem of a file name: what precedes the extension dot, or the whole
/// name when there is none.
pub open spec fn spec_stem(name: Seq<char>) -> Seq<char> {
    match spec_ext_dot(name) {
        Some(i) => name.subrange(0, i),
        None => name,
    }
}

pub(crate) proof fn lemma_ext_dot_unique(name: Seq<char>, i: int)
    requires
        1 <= i < name.len(),
        name[i] == '.',
        forall|j: int| i < j < name.len() ==> name[j] != '.',
    ensures
        spec_ext_dot(name) == Some(i),
{
    let w = choose|w: int|
        1 <= w < name.len() && name[w] == '.' && (forall|j: int| w < j < name.len() ==> name[j] != '.');
    assert(!(w < i) && !(i < w));
}

/// The position of the extension dot, executably.
pub fn ext_dot(name: &Vec<char>) -> (r: Option<usize>)
    ensures
        match r {
            Some(i) => spec_ext_dot(name@) == Some(i as int) && 1 <= i < name@.len(),
            None => spec_ext_dot(name@) is None,
        },
{
    let mut i = name.len();
    while i > 1
        invariant
            i <= name@.len(),
            forall|j: int| i <= j < name@.len() ==> name@[j] != '.',
        decreases i,
    {
        i = i - 1;
        if name[i] == '.' {
            proof {
                lemma_ext_dot_unique(name@, i as int);
            }
            return Some(i);
        }
    }
    assert(forall|j: int| 1 <= j < name@.len() ==> name@[j] != '.');
    None
}

/// The stem of a file name, executably.
pub fn stem_of(name: &Vec<char>) -> (r: Vec<char>)
    ensures
        r@ == spec_stem(name@),
{
    let mut r: Vec<char> = Vec::new();
    let upto = match ext_dot(name) {
        Some(i) => i,
        None => name.len(),
    };
    for t in 0..upto
        invariant
            upto <= name@.len(),
            r@ == name@.take(t as int),
    {
        r.push(name[t]);
        assert(name@.take(t + 1) =~= name@.take(t as int).push(name@[t as int]));
    }
    assert(name@.take(name@.len() as int) =~= name@);
    assert(forall|i: int| 0 <= i < name@.len() ==> name@.take(name@.len() as int)[i] == name@[i]);
    r
}

/// Whether the name's extension equals `ext` exactly.
pub open spec fn spec_has_extension(name: Seq<char>, ext: Seq<char>) -> bool {
    spec_extension(name) == Some(ext)
}

/// Extension comparison, executably.
pub fn has_extension(name: &Vec<char>, ext: &Vec<char>) -> (r: bool)
    ensures
        r == spec_has_extension(name@, ext@),
{
    match ext_dot(name) {
        None => false,
        Some(i) => {
            assert(name@.len() == name.len());
            let tail_len = name.len() - i - 1;
            if tail_len != ext.len() {
                assert(spec_extension(name@).unwrap().len() == tail_len);
                false
            } else {
                for j in 0..tail_len
                    invariant
                        spec_ext_dot(name@) == Some(i as int),
                        1 <= i,
                        i + 1 + tail_len == name@.len(),
                        name@.len() <= usize::MAX,
                        tail_len == ext@.len(),
                        forall|t: int| 0 <= t < j ==> name@[i + 1 + t] == #[trigger] ext@[t],
                {
                    if name[i + 1 + j] != ext[j] {
                        proof {
                            let tail = name@.subrange(i + 1, name@.len() as int);
                            assert(tail[j as int] == name@[i + 1 + j]);
                        }
                        return false;
                    }
                }
                proof {
                    let tail = name@.subrange(i + 1, name@.len() as int);
                    assert(tail =~= ext@);
                }
                true
            }
        },
    }
}

/// Saturating decimal accumulation: `acc * 10 + d`, capped at `u64::MAX`.
pub open spec fn spec_push_digit(acc: nat, d: nat) -> nat {
    if acc * 10 + d > u64::MAX {
        u64::MAX as nat
    } else {
        acc * 10 + d
    }
}

/// The value of a run of digit characters, accumulated with saturation.
pub open spec fn spec_digits_val(s: Seq<char>) -> nat
    decreases s.len(),
{
    if s.len() == 0 {
        0
    } else {
        spec_push_digit(spec_digits_val(s.drop_last()), spec_digit_val(s.last()))
    }
}

/// One saturating accumulation step, executably.
pub fn push_digit(acc: u64, c: char) -> (r: u64)
    requires
        spec_is_digit(c),
    ensures
        r == spec_push_digit(acc as nat, spec_digit_val(c)),
{
    let d = c as u32 as u64 - 48;
    if acc > (u64::MAX - d) / 10 {
        proof {
            assert(acc * 10 + d > u64::MAX) by (nonlinear_arith)
                requires
                    acc > (u64::MAX - d) / 10,
                    d <= 9,
                    (u64::MAX - d) / 10 == ((u64::MAX - d) as int) / 10,
            ;
        }
        u64::MAX
    } else {
        proof {
            assert(acc * 10 + d <= u64::MAX) by (nonlinear_arith)
                requires
                    acc <= (u64::MAX - d) / 10,
                    d <= 9,
                    (u64::MAX - d) / 10 == ((u64::MAX - d) as int) / 10,
            ;
        }
        acc * 10 + d
    }
}

/// The value of a digit vector, executably, saturating at `u64::MAX`.
pub fn digits_val(s: &Vec<char>) -> (r: u64)
    requires
        forall|i: int| 0 <= i < s@.len() ==> spec_is_digit(#[trigger] s@[i]),
    ensures
        r == spec_digits_val(s@),
{
    let mut acc: u64 = 0;
    for i in 0..s.len()
        invariant
            forall|t: int| 0 <= t < s@.len() ==> spec_is_digit(#[trigger] s@[t]),
            acc == spec_digits_val(s@.take(i as int)),
    {
        acc = push_digit(acc, s[i]);
        assert(s@.take(i + 1).drop_last() =~= s@.take(i as int));
        assert(s@.take(i + 1).last() == s@[i as int]);
    }
    assert(s@.take(s@.len() as int) =~= s@);
    acc
}

/// The decimal digits of `n`, most significant first.
pub open spec fn spec_dec(n: nat) -> Seq<char>
    decreases n,
{
    if n < 10 {
        seq![DIGITS@[n as int]]
    } else {
        spec_dec(n / 10).push(DIGITS@[(n % 10) as int])
    }
}

/// Decimal rendering of `n`, executably.
pub fn dec_digits(n: u64) -> (r: Vec<char>)
    ensures
        r@ == spec_dec(n as nat),
    decreases n,
{
    if n < 10 {
        let mut r: Vec<char> = Vec::new();
        r.push(DIGITS[n as usize]);
        assert(r@ =~= seq![DIGITS@[n as int]]);
        r
    } else {
        let mut r = dec_digits(n / 10);
        r.push(DIGITS[(n % 10) as usize]);
        r
    }
}

/// The subrange `[from, to)` of a character vector.
pub fn sub_chars(s: &Vec<char>, from: usize, to: usize) -> (r: Vec<char>)
    requires
        from <= to <= s@.len(),
    ensures
        r@ == s@.subrange(from as int, to as int),
{
    let mut r: Vec<char> = Vec::new();
    for t in from..to
        invariant
            from <= t <= to <= s@.len(),
            r@ == s@.subrange(from as int, t as int),
    {
        r.push(s[t]);
        assert(s@.subrange(from as int, t + 1) =~= s@.subrange(from as int, t as int).push(
            s@[t as int],
        ));
    }
    r
}

/// Equality of two character vectors.
pub fn chars_eq(a: &Vec<char>, b: &Vec<char>) -> (r: bool)
    ensures
        r == (a@ == b@),
{
    if a.len() != b.len() {
        return false;
    }
    for j in 0..a.len()
        invariant
            a@.len() == b@.len(),
            forall|t: int| 0 <= t < j ==> a@[t] == b@[t],
    {
        if a[j] != b[j] {
            return false;
        }
    }
    proof {
        assert(a@ =~= b@);
    }
    true
}


/// The decimal rendering consists of digit characters.
pub proof fn lemma_dec_is_digits(n: nat)
    ensures
        spec_dec(n).len() >= 1,
        forall|i: int| 0 <= i < spec_dec(n).len() ==> spec_is_digit(#[trigger] spec_dec(n)[i]),
    decreases n,
{
    assert(forall|k: int| 0 <= k < 10 ==> spec_is_digit(#[trigger] DIGITS@[k])) by {
        assert(DIGITS@[0] == '0' && DIGITS@[1] == '1' && DIGITS@[2] == '2' && DIGITS@[3] == '3'
            && DIGITS@[4] == '4' && DIGITS@[5] == '5' && DIGITS@[6] == '6' && DIGITS@[7] == '7'
            && DIGITS@[8] == '8' && DIGITS@[9] == '9');
    }
    if n < 10 {
    } else {
        lemma_dec_is_digits(n / 10);
        assert(forall|i: int|
            0 <= i < spec_dec(n / 10).len() ==> spec_dec(n)[i] == #[trigger] spec_dec(n / 10)[i]);
        assert(spec_dec(n).last() == DIGITS@[(n % 10) as int]);
    }
}

/// A digit character of the rendering table has its digit's value.
pub proof fn lemma_digit_char_val(k: nat)
    requires
        k < 10,
    ensures
        spec_digit_val(DIGITS@[k as int]) == k,
        spec_is_digit(DIGITS@[k as int]),
{
    assert(DIGITS@[0] == '0' && DIGITS@[1] == '1' && DIGITS@[2] == '2' && DIGITS@[3] == '3'
        && DIGITS@[4] == '4' && DIGITS@[5] == '5' && DIGITS@[6] == '6' && DIGITS@[7] == '7'
        && DIGITS@[8] == '8' && DIGITS@[9] == '9');
}

/// Parsing the decimal rendering of a representable number gives the
/// number back.
pub proof fn lemma_dec_val(n: nat)
    requires
        n <= u64::MAX,
    ensures
        spec_digits_val(spec_dec(n)) == n,
    decreases n,
{
    if n < 10 {
        lemma_digit_char_val(n);
        assert(spec_dec(n).drop_last() =~= Seq::<char>::empty());
        assert(spec_digits_val(Seq::<char>::empty()) == 0);
        assert(spec_dec(n).last() == DIGITS@[n as int]);
    } else {
        lemma_dec_val(n / 10);
        lemma_digit_char_val(n % 10);
        assert(spec_dec(n).drop_last() =~= spec_dec(n / 10));
        assert(spec_dec(n).last() == DIGITS@[(n % 10) as int]);
        assert(spec_push_digit(n / 10, n % 10) == n);
    }
}

/// Append the characters of `src` to `dst`.
pub fn extend_chars(dst: &mut Vec<char>, src: &Vec<char>)
    ensures
        final(dst)@ == old(dst)@ + src@,
{
    let ghost base = dst@;
    for i in 0..src.len()
        invariant
            dst@ == base + src@.take(i as int),
    {
        dst.push(src[i]);
        assert(src@.take(i + 1) =~= src@.take(i as int).push(src@[i as int]));
    }
    assert(base + src@.take(src@.len() as int) =~= base + src@);
}

/// Append the characters of a string slice to `dst`.
pub fn extend_str(dst: &mut Vec<char>, src: &str)
    ensures
        final(dst)@ == old(dst)@ + src@,
{
    let cs = str_chars(src);
    extend_chars(dst, &cs);
}

} // verus!
