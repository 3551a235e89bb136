//! The submission record: one row of the grading table, with the
//! field encodings the table format prescribes — a prefixed numeric
//! identifier, and ratings written with a decimal comma and two digits,
//! an empty rating standing for "ungraded".
use vstd::prelude::*;

use crate::extract::{extract_id, spec_extract_id, spec_digit_run_end};
use crate::text::{
    chars_to_string, dec_digits, extend_str, spec_dec, spec_digits_val, spec_is_digit, str_chars,
    DIGITS,
};
use crate::scan::clip64;

verus! {

/// One row of the grading table. Ratings are held in hundredths of a
/// point, exactly; `None` for the rating means ungraded.
#[derive(Debug, PartialEq, Eq)]
pub struct Record {
    pub id: String,
    pub name: String,
    pub id_number: String,
    pub email: String,
    pub status: String,
    pub rating: Option<u64>,
    pub best_rating: u64,
    pub rating_changeable: String,
    pub last_change_submission: String,
    pub last_change_rating: String,
    pub feedback: String,
}

/// The mathematical shape of a record.
pub ghost struct RecordModel {
    pub id: Seq<char>,
    pub name: Seq<char>,
    pub id_number: Seq<char>,
    pub email: Seq<char>,
    pub status: Seq<char>,
    pub rating: Option<u64>,
    pub best_rating: u64,
    pub rating_changeable: Seq<char>,
    pub last_change_submission: Seq<char>,
    pub last_change_rating: Seq<char>,
    pub feedback: Seq<char>,
}

impl DeepView for Record {
    type V = RecordModel;

    open spec fn deep_view(&self) -> RecordModel {
        RecordModel {
            id: self.id@,
            name: self.name@,
            id_number: self.id_number@,
            email: self.email@,
            status: self.status@,
            rating: self.rating,
            best_rating: self.best_rating,
            rating_changeable: self.rating_changeable@,
            last_change_submission: self.last_change_submission@,
            last_change_rating: self.last_change_rating@,
            feedback: self.feedback@,
        }
    }
}

/// The identifier as the table writes it: the fixed participant prefix,
/// then the numeric identifier.
pub open spec fn spec_id_out(id: Seq<char>) -> Seq<char> {
    "Teilnehmer/in"@ + id
}

/// Render an identifier for the table.
pub fn serialize_id(id: &String) -> (r: String)
    ensures
        r@ == spec_id_out(id@),
{
    let mut out: Vec<char> = Vec::new();
    extend_str(&mut out, "Teilnehmer/in");
    extend_str(&mut out, id.as_str());
    chars_to_string(&out)
}

/// The identifier a table cell denotes: its first maximal digit run,
/// when it has one.
pub open spec fn spec_id_in(cell: Seq<char>) -> Option<Seq<char>> {
    spec_extract_id(cell)
}

/// Read an identifier from a table cell.
pub fn deserialize_id(cell: &String) -> (r: Option<String>)
    ensures
        match r {
            Some(id) => spec_id_in(cell@) == Some(id@),
            None => spec_id_in(cell@) is None,
        },
{
    extract_id(cell)
}

/// A rating in hundredths rendered for the table: the whole part, a
/// comma, and exactly two further digits.
pub open spec fn spec_rating_out(h: u64) -> Seq<char> {
    spec_dec(h as nat / 100) + seq![','] + seq![
        DIGITS@[((h as nat % 100) / 10) as int],
        DIGITS@[(h as nat % 10) as int],
    ]
}

/// The optional rating cell: empty means ungraded.
pub open spec fn spec_opt_rating_out(r: Option<u64>) -> Seq<char> {
    match r {
        None => Seq::empty(),
        Some(h) => spec_rating_out(h),
    }
}

/// Render a rating in hundredths.
pub fn serialize_rating(h: u64) -> (r: Vec<char>)
    ensures
        r@ == spec_rating_out(h),
{
    let mut out = dec_digits(h / 100);
    out.push(',');
    out.push(DIGITS[((h % 100) / 10) as usize]);
    out.push(DIGITS[(h % 10) as usize]);
    proof {
        assert(out@ =~= spec_rating_out(h));
    }
    out
}

/// The value, in hundredths, a rating cell denotes: a run of digits,
/// optionally followed by a decimal comma (or dot) and one or two more
/// digits. Anything else — the malformed row is dropped. The digits
/// accumulate with saturation.
pub open spec fn spec_parse_rating(s: Seq<char>) -> Option<u64> {
    let d = spec_digit_run_end(s, 0);
    if d == 0 {
        None
    } else if d == s.len() {
        Some(clip64(spec_digits_val(s) * 100) as u64)
    } else if s[d] == ',' || s[d] == '.' {
        let frac = s.subrange(d + 1, s.len() as int);
        if frac.len() == 1 && spec_is_digit(frac[0]) {
            Some(
                clip64(
                    (spec_digits_val(s.subrange(0, d)) * 100 + (frac[0] as u32 - 48) * 10) as nat,
                ) as u64,
            )
        } else if frac.len() == 2 && spec_is_digit(frac[0]) && spec_is_digit(frac[1]) {
            Some(
                clip64(
                    (spec_digits_val(s.subrange(0, d)) * 100 + (frac[0] as u32 - 48) * 10 + (
                    frac[1] as u32 - 48)) as nat,
                ) as u64,
            )
        } else {
            None
        }
    } else {
        None
    }
}

/// A shared form of the digit-run lemma.
pub proof fn lemma_digit_run_end_is_pub(s: Seq<char>, q: int, j: int)
    requires
        0 <= q <= j <= s.len(),
        forall|t: int| q <= t < j ==> spec_is_digit(#[trigger] s[t]),
        j == s.len() || !spec_is_digit(s[j]),
    ensures
        spec_digit_run_end(s, q) == j,
    decreases j - q,
{
    if q < j {
        lemma_digit_run_end_is_pub(s, q + 1, j);
    }
}

fn is_digit_c(c: char) -> (r: bool)
    ensures
        r == spec_is_digit(c),
{
    let u = c as u32;
    48 <= u && u <= 57
}

/// Parse a rating cell into hundredths.
pub fn parse_rating(cell: &String) -> (r: Option<u64>)
    ensures
        r == spec_parse_rating(cell@),
{
    let cs = str_chars(cell.as_str());
    let n = cs.len();
    let mut d: usize = 0;
    let mut whole: u64 = 0;
    while d < n && is_digit_c(cs[d])
        invariant
            n == cs@.len(),
            0 <= d <= n,
            forall|t: int| 0 <= t < d ==> spec_is_digit(#[trigger] cs@[t]),
            whole == spec_digits_val(cs@.subrange(0, d as int)),
        decreases n - d,
    {
        proof {
            assert(cs@.subrange(0, d + 1).drop_last() =~= cs@.subrange(0, d as int));
            assert(cs@.subrange(0, d + 1).last() == cs@[d as int]);
        }
        whole = crate::text::push_digit(whole, cs[d]);
        d = d + 1;
    }
    proof {
        lemma_digit_run_end_is_pub(cs@, 0, d as int);
    }
    if d == 0 {
        return None;
    }
    let whole100: u64 = if whole > u64::MAX / 100 {
        proof {
            assert(whole * 100 > u64::MAX) by (nonlinear_arith)
                requires
                    whole > u64::MAX / 100,
                    u64::MAX / 100 == (u64::MAX as int) / 100,
            ;
        }
        u64::MAX
    } else {
        proof {
            assert(whole * 100 <= u64::MAX) by (nonlinear_arith)
                requires
                    whole <= u64::MAX / 100,
                    u64::MAX / 100 == (u64::MAX as int) / 100,
            ;
        }
        whole * 100
    };
    if d == n {
        proof {
            assert(cs@.subrange(0, n as int) =~= cs@);
        }
        return Some(whole100);
    }
    let sep = cs[d];
    if sep != ',' && sep != '.' {
        return None;
    }
    let fl = n - d - 1;
    if fl == 1 && {
        let c = cs[d + 1];
        is_digit_c(c)
    } {
        let f0 = (cs[d + 1] as u32 - 48) as u64 * 10;
        proof {
            let frac = cs@.subrange(d + 1, n as int);
            assert(frac[0] == cs@[d + 1]);
            assert(frac.len() == 1);
        }
        Some(sat_add_clip(whole100, f0, Ghost(spec_digits_val(cs@.subrange(0, d as int)))))
    } else if fl == 2 && {
        let c0 = cs[d + 1];
        let c1 = cs[d + 2];
        is_digit_c(c0) && is_digit_c(c1)
    } {
        let f = (cs[d + 1] as u32 - 48) as u64 * 10 + (cs[d + 2] as u32 - 48) as u64;
        proof {
            let frac = cs@.subrange(d + 1, n as int);
            assert(frac[0] == cs@[d + 1]);
            assert(frac[1] == cs@[d + 2]);
            assert(frac.len() == 2);
        }
        Some(sat_add_clip(whole100, f, Ghost(spec_digits_val(cs@.subrange(0, d as int)))))
    } else {
        proof {
            let frac = cs@.subrange(d + 1, n as int);
            if frac.len() == 1 {
                assert(frac[0] == cs@[d + 1]);
            }
            if frac.len() == 2 {
                assert(frac[0] == cs@[d + 1]);
                assert(frac[1] == cs@[d + 2]);
            }
        }
        None
    }
}

/// Add a sub-hundred fraction onto a saturated whole, keeping the
/// saturation exact.
fn sat_add_clip(whole100: u64, frac: u64, w: Ghost<nat>) -> (r: u64)
    requires
        frac < 100,
        whole100 == clip64(w@ * 100),
    ensures
        r == clip64((w@ * 100 + frac) as nat),
{
    if whole100 > u64::MAX - frac {
        proof {
            let x = w@ * 100;
            if x > u64::MAX {
                assert(x + frac > u64::MAX);
            } else {
                assert(whole100 == x);
                assert(x + frac > u64::MAX);
            }
            assert(clip64((x + frac) as nat) == u64::MAX as nat);
        }
        u64::MAX
    } else {
        proof {
            let x = w@ * 100;
            if x > u64::MAX {
                assert(whole100 == u64::MAX);
                assert(frac == 0);
                assert(clip64((x + frac) as nat) == u64::MAX as nat);
            } else {
                assert(whole100 == x);
                assert(clip64((x + frac) as nat) == x + frac);
            }
        }
        whole100 + frac
    }
}


/// Writing a rating and reading it back gives the same hundredths.
pub proof fn lemma_rating_round_trip(h: u64)
    ensures
        spec_parse_rating(spec_rating_out(h)) == Some(h),
{
    let s = spec_rating_out(h);
    let dd = spec_dec(h as nat / 100);
    let dl = dd.len() as int;
    crate::text::lemma_dec_is_digits(h as nat / 100);
    crate::text::lemma_dec_val(h as nat / 100);
    crate::text::lemma_digit_char_val(((h as nat % 100) / 10) as nat);
    crate::text::lemma_digit_char_val((h as nat % 10) as nat);
    assert(s.len() == dl + 3);
    assert(forall|t: int| 0 <= t < dl ==> s[t] == #[trigger] dd[t]);
    assert(s[dl] == ',');
    assert(!spec_is_digit(','));
    lemma_digit_run_end_is_pub(s, 0, dl);
    assert(spec_digit_run_end(s, 0) == dl);
    assert(dl >= 1);
    assert(s.subrange(0, dl) =~= dd);
    let frac = s.subrange(dl + 1, s.len() as int);
    assert(frac.len() == 2);
    assert(frac[0] == DIGITS@[((h as nat % 100) / 10) as int]);
    assert(frac[1] == DIGITS@[(h as nat % 10) as int]);
    assert(spec_is_digit(frac[0]) && spec_is_digit(frac[1]));
    assert((frac[0] as u32 - 48) == (h as nat % 100) / 10);
    assert((frac[1] as u32 - 48) == h as nat % 10);
    assert(spec_digits_val(s.subrange(0, dl)) == h as nat / 100);
    let total = (h as nat / 100) * 100 + ((h as nat % 100) / 10) * 10 + (h as nat % 10);
    assert(total == h) by (nonlinear_arith)
        requires
            total == (h as nat / 100) * 100 + ((h as nat % 100) / 10) * 10 + (h as nat % 10),
    ;
    assert(clip64(total) == h as nat);
}

/// Writing an identifier with its prefix and extracting it back gives
/// the identifier, provided it is a non-empty run of digits.
pub proof fn lemma_id_round_trip(id: Seq<char>)
    requires
        id.len() > 0,
        forall|i: int| 0 <= i < id.len() ==> spec_is_digit(#[trigger] id[i]),
    ensures
        spec_id_in(spec_id_out(id)) == Some(id),
{
    reveal_strlit("Teilnehmer/in");
    let p = "Teilnehmer/in"@;
    let s = spec_id_out(id);
    assert(p.len() == 13);
    assert(p[0] == 'T' && p[1] == 'e' && p[2] == 'i' && p[3] == 'l' && p[4] == 'n' && p[5] == 'e'
        && p[6] == 'h' && p[7] == 'm' && p[8] == 'e' && p[9] == 'r' && p[10] == '/' && p[11]
        == 'i' && p[12] == 'n');
    assert(forall|t: int| 0 <= t < 13 ==> !spec_is_digit(#[trigger] p[t])) by {
        assert(!spec_is_digit('T') && !spec_is_digit('e') && !spec_is_digit('i') && !spec_is_digit(
            'l',
        ) && !spec_is_digit('n') && !spec_is_digit('h') && !spec_is_digit('m') && !spec_is_digit(
            'r',
        ) && !spec_is_digit('/'));
    }
    assert(forall|t: int| 0 <= t < 13 ==> s[t] == #[trigger] p[t]);
    assert(forall|t: int| 13 <= t < s.len() ==> s[t] == #[trigger] id[t - 13]);
    assert(forall|t: int| 0 <= t < 13 ==> !spec_is_digit(#[trigger] s[t]));
    assert(spec_is_digit(s[13]));
    crate::extract::lemma_first_digit_is(s, 0, 13);
    assert(forall|t: int| 13 <= t < s.len() ==> spec_is_digit(#[trigger] s[t]));
    lemma_digit_run_end_is_pub(s, 13, s.len() as int);
    assert(s.subrange(13, s.len() as int) =~= id);
}

} // verus!
