//! The grading table: a comma-delimited text with a header row, quoted
//! fields, doubled quotes, and one record per line. The writer emits the
//! canonical layout; the reader is lenient the way spreadsheet exports
//! need it to be, and drops rows it cannot make a record of.
use vstd::prelude::*;

use crate::fstree::{lemma_concat_map_push, lemma_filter_map_push, spec_concat_map, spec_filter_map, str_eq};
use crate::record::{
    parse_rating, serialize_id, serialize_rating, spec_id_in, spec_id_out, spec_opt_rating_out,
    spec_parse_rating, deserialize_id, Record, RecordModel,
};
use crate::text::{chars_to_string, extend_chars, str_chars};

verus! {

/// Whether a field must be quoted: it holds a delimiter, a quote, or a
/// line break.
pub open spec fn spec_needs_quote(f: Seq<char>) -> bool {
    exists|i: int|
        0 <= i < f.len() && ((#[trigger] f[i]) == ',' || f[i] == '"' || f[i] == '\n' || f[i]
            == '\r')
}

/// The field's characters with every quote doubled.
pub open spec fn spec_double_quotes(f: Seq<char>) -> Seq<char>
    decreases f.len(),
{
    if f.len() == 0 {
        Seq::empty()
    } else {
        (if f.first() == '"' {
            seq!['"', '"']
        } else {
            seq![f.first()]
        }) + spec_double_quotes(f.drop_first())
    }
}

/// A field as written: quoted with doubled quotes when necessary, bare
/// otherwise.
pub open spec fn spec_esc_field(f: Seq<char>) -> Seq<char> {
    if spec_needs_quote(f) {
        seq!['"'] + spec_double_quotes(f) + seq!['"']
    } else {
        f
    }
}

/// The fields of one row, escaped and joined with commas.
pub open spec fn spec_row_body(fields: Seq<Seq<char>>) -> Seq<char>
    decreases fields.len(),
{
    if fields.len() == 0 {
        Seq::empty()
    } else if fields.len() == 1 {
        spec_esc_field(fields.first())
    } else {
        spec_esc_field(fields.first()) + seq![','] + spec_row_body(fields.drop_first())
    }
}

/// One written row: its body and the line terminator.
pub open spec fn spec_write_row(fields: Seq<Seq<char>>) -> Seq<char> {
    spec_row_body(fields) + seq!['\n']
}

/// The canonical header of the table.
pub open spec fn spec_header_fields() -> Seq<Seq<char>> {
    seq![
        "ID"@,
        "Vollständiger Name"@,
        "ID-Nummer"@,
        "E-Mail-Adresse"@,
        "Status"@,
        "Bewertung"@,
        "Bestwertung"@,
        "Bewertung kann geändert werden"@,
        "Zuletzt geändert (Abgabe)"@,
        "Zuletzt geändert (Bewertung)"@,
        "Feedback als Kommentar"@,
    ]
}

/// The cells a record writes, in header order.
pub open spec fn spec_record_fields(r: RecordModel) -> Seq<Seq<char>> {
    seq![
        spec_id_out(r.id),
        r.name,
        r.id_number,
        r.email,
        r.status,
        spec_opt_rating_out(r.rating),
        spec_opt_rating_out(Some(r.best_rating)),
        r.rating_changeable,
        r.last_change_submission,
        r.last_change_rating,
        r.feedback,
    ]
}

/// The whole table as written: the canonical header, then one row per
/// record, in order.
pub open spec fn spec_write_table(records: Seq<RecordModel>) -> Seq<char> {
    spec_write_row(spec_header_fields()) + spec_concat_map(
        records,
        (|r: RecordModel| spec_write_row(spec_record_fields(r))),
    )
}

/// Escape one field into the output.
fn emit_field(out: &mut Vec<char>, f: &Vec<char>)
    ensures
        final(out)@ == old(out)@ + spec_esc_field(f@),
{
    let mut needs = false;
    for i in 0..f.len()
        invariant
            needs == (exists|t: int|
                0 <= t < i && ((#[trigger] f@[t]) == ',' || f@[t] == '"' || f@[t] == '\n'
                    || f@[t] == '\r')),
    {
        let c = f[i];
        if c == ',' || c == '"' || c == '\n' || c == '\r' {
            needs = true;
        }
    }
    proof {
        assert(needs == spec_needs_quote(f@));
    }
    if !needs {
        extend_chars(out, f);
    } else {
        let ghost base = out@;
        out.push('"');
        for i in 0..f.len()
            invariant
                out@ == base + seq!['"'] + spec_double_quotes(f@.take(i as int)),
        {
            proof {
                let pre = f@.take(i as int);
                let pre2 = f@.take(i + 1);
                assert(pre2 =~= pre.push(f@[i as int]));
                lemma_double_quotes_push(pre, f@[i as int]);
            }
            let c = f[i];
            if c == '"' {
                out.push('"');
                out.push('"');
            } else {
                out.push(c);
            }
            proof {
                assert(out@ =~= base + seq!['"'] + spec_double_quotes(f@.take(i + 1)));
            }
        }
        out.push('"');
        proof {
            assert(f@.take(f@.len() as int) =~= f@);
            assert(out@ =~= base + spec_esc_field(f@));
        }
    }
}

proof fn lemma_double_quotes_push(f: Seq<char>, c: char)
    ensures
        spec_double_quotes(f.push(c)) == spec_double_quotes(f) + (if c == '"' {
            seq!['"', '"']
        } else {
            seq![c]
        }),
    decreases f.len(),
{
    let f2 = f.push(c);
    if f.len() == 0 {
        assert(f2.first() == c);
        assert(f2.drop_first() =~= Seq::<char>::empty());
        assert(spec_double_quotes(Seq::<char>::empty()) == Seq::<char>::empty());
        assert(spec_double_quotes(f) == Seq::<char>::empty());
        assert(spec_double_quotes(f2) =~= spec_double_quotes(f) + (if c == '"' {
            seq!['"', '"']
        } else {
            seq![c]
        }));
    } else {
        assert(f2.first() == f.first());
        assert(f2.drop_first() =~= f.drop_first().push(c));
        lemma_double_quotes_push(f.drop_first(), c);
        assert(spec_double_quotes(f2) =~= spec_double_quotes(f) + (if c == '"' {
            seq!['"', '"']
        } else {
            seq![c]
        }));
    }
}

/// Write one row of cells into the output.
fn emit_row(out: &mut Vec<char>, fields: &Vec<Vec<char>>)
    ensures
        final(out)@ == old(out)@ + spec_write_row(fields.deep_view()),
{
    let ghost base = out@;
    let ghost fd = fields.deep_view();
    for i in 0..fields.len()
        invariant
            fd == fields.deep_view(),
            out@ == base + spec_row_body(fd.take(i as int)) + (if i > 0 && i < fd.len() {
                seq![',']
            } else {
                Seq::<char>::empty()
            }),
    {
        proof {
            lemma_row_body_push(fd.take(i as int), fd[i as int]);
            assert(fd.take(i + 1) =~= fd.take(i as int).push(fd[i as int]));
            assert(fd[i as int] =~= fields@[i as int]@);
        }
        emit_field(out, &fields[i]);
        if i + 1 < fields.len() {
            out.push(',');
            proof {
                assert(out@ =~= base + spec_row_body(fd.take(i + 1)) + seq![',']);
            }
        } else {
            proof {
                assert(out@ =~= base + spec_row_body(fd.take(i + 1)));
            }
        }
    }
    out.push('\n');
    proof {
        assert(fd.take(fd.len() as int) =~= fd);
        if fd.len() == 0 {
            assert(spec_row_body(fd) == Seq::<char>::empty());
        }
        assert(out@ =~= base + spec_write_row(fd));
    }
}

proof fn lemma_row_body_push(fields: Seq<Seq<char>>, f: Seq<char>)
    ensures
        spec_row_body(fields.push(f)) == if fields.len() == 0 {
            spec_esc_field(f)
        } else {
            spec_row_body(fields) + seq![','] + spec_esc_field(f)
        },
    decreases fields.len(),
{
    let f2 = fields.push(f);
    if fields.len() == 0 {
        assert(f2.first() == f);
    } else if fields.len() == 1 {
        assert(f2.first() == fields.first());
        assert(f2.drop_first() =~= Seq::<Seq<char>>::empty().push(f));
        lemma_row_body_push(Seq::<Seq<char>>::empty(), f);
        assert(spec_row_body(f2) =~= spec_row_body(fields) + seq![','] + spec_esc_field(f));
    } else {
        assert(f2.first() == fields.first());
        assert(f2.drop_first() =~= fields.drop_first().push(f));
        lemma_row_body_push(fields.drop_first(), f);
        assert(spec_row_body(f2) =~= spec_row_body(fields) + seq![','] + spec_esc_field(f));
    }
}

/// The cells of one record, in header order.
fn record_fields(r: &Record) -> (out: Vec<Vec<char>>)
    ensures
        out.deep_view() == spec_record_fields(r.deep_view()),
{
    let mut out: Vec<Vec<char>> = Vec::new();
    let idc = serialize_id(&r.id);
    out.push(str_chars(idc.as_str()));
    out.push(str_chars(r.name.as_str()));
    out.push(str_chars(r.id_number.as_str()));
    out.push(str_chars(r.email.as_str()));
    out.push(str_chars(r.status.as_str()));
    match r.rating {
        Some(h) => {
            out.push(serialize_rating(h));
        },
        None => {
            out.push(Vec::new());
        },
    }
    out.push(serialize_rating(r.best_rating));
    out.push(str_chars(r.rating_changeable.as_str()));
    out.push(str_chars(r.last_change_submission.as_str()));
    out.push(str_chars(r.last_change_rating.as_str()));
    out.push(str_chars(r.feedback.as_str()));
    proof {
        assert(out.deep_view() =~~= spec_record_fields(r.deep_view()));
    }
    out
}

/// The canonical header, as cells.
fn header_fields() -> (out: Vec<Vec<char>>)
    ensures
        out.deep_view() == spec_header_fields(),
{
    let mut out: Vec<Vec<char>> = Vec::new();
    out.push(str_chars("ID"));
    out.push(str_chars("Vollständiger Name"));
    out.push(str_chars("ID-Nummer"));
    out.push(str_chars("E-Mail-Adresse"));
    out.push(str_chars("Status"));
    out.push(str_chars("Bewertung"));
    out.push(str_chars("Bestwertung"));
    out.push(str_chars("Bewertung kann geändert werden"));
    out.push(str_chars("Zuletzt geändert (Abgabe)"));
    out.push(str_chars("Zuletzt geändert (Bewertung)"));
    out.push(str_chars("Feedback als Kommentar"));
    proof {
        assert(out.deep_view() =~~= spec_header_fields());
    }
    out
}

/// Serialize records to table text: the canonical header row, then one
/// row per record, fields quoted exactly where the format requires it.
pub fn write_table(records: &Vec<Record>) -> (r: String)
    ensures
        r@ == spec_write_table(records.deep_view()),
{
    let ghost rd = records.deep_view();
    let ghost rowf = (|r: RecordModel| spec_write_row(spec_record_fields(r)));
    let mut out: Vec<char> = Vec::new();
    let hdr = header_fields();
    emit_row(&mut out, &hdr);
    for i in 0..records.len()
        invariant
            rd == records.deep_view(),
            rowf == (|r: RecordModel| spec_write_row(spec_record_fields(r))),
            out@ == spec_write_row(spec_header_fields()) + spec_concat_map(
                rd.take(i as int),
                rowf,
            ),
    {
        proof {
            lemma_concat_map_push(rd.take(i as int), rowf, rd[i as int]);
            assert(rd.take(i + 1) =~= rd.take(i as int).push(rd[i as int]));
            assert(rd[i as int] == records@[i as int].deep_view());
        }
        let fs = record_fields(&records[i]);
        emit_row(&mut out, &fs);
    }
    proof {
        assert(rd.take(rd.len() as int) =~= rd);
    }
    chars_to_string(&out)
}

/// How a field ended: at a delimiter, at a record end, or at the end of
/// the text.
pub ghost enum SepKind {
    Comma,
    Newline,
    Eof,
}

/// Parse an unquoted stretch from position `i`: everything up to the
/// next delimiter or record end, quotes taken literally.
pub open spec fn spec_pf_unquoted(s: Seq<char>, i: int, acc: Seq<char>) -> (Seq<char>, int, SepKind)
    decreases s.len() - i when i <= s.len()
{
    if i < 0 || i >= s.len() {
        (acc, s.len() as int, SepKind::Eof)
    } else if s[i] == ',' {
        (acc, i + 1, SepKind::Comma)
    } else if s[i] == '\n' {
        (acc, i + 1, SepKind::Newline)
    } else if s[i] == '\r' {
        (acc, if i + 2 <= s.len() && s[i + 1] == '\n' {
            i + 2
        } else {
            i + 1
        }, SepKind::Newline)
    } else {
        spec_pf_unquoted(s, i + 1, acc.push(s[i]))
    }
}

/// Parse the inside of a quoted field from position `i`. A doubled quote
/// is a literal quote; a closing quote before a delimiter or record end
/// ends the field; a closing quote before any other character falls back
/// to unquoted parsing, the way spreadsheet readers tolerate it.
pub open spec fn spec_pf_quoted(s: Seq<char>, i: int, acc: Seq<char>) -> (Seq<char>, int, SepKind)
    decreases s.len() - i when i <= s.len()
{
    if i < 0 || i >= s.len() {
        (acc, s.len() as int, SepKind::Eof)
    } else if s[i] == '"' {
        if i + 1 >= s.len() {
            (acc, s.len() as int, SepKind::Eof)
        } else if s[i + 1] == '"' {
            spec_pf_quoted(s, i + 2, acc.push('"'))
        } else if s[i + 1] == ',' {
            (acc, i + 2, SepKind::Comma)
        } else if s[i + 1] == '\n' {
            (acc, i + 2, SepKind::Newline)
        } else if s[i + 1] == '\r' {
            (acc, if i + 3 <= s.len() && s[i + 2] == '\n' {
                i + 3
            } else {
                i + 2
            }, SepKind::Newline)
        } else {
            spec_pf_unquoted(s, i + 1, acc)
        }
    } else {
        spec_pf_quoted(s, i + 1, acc.push(s[i]))
    }
}

/// Parse one field starting at `i`.
pub open spec fn spec_parse_field(s: Seq<char>, i: int) -> (Seq<char>, int, SepKind) {
    if 0 <= i < s.len() && s[i] == '"' {
        spec_pf_quoted(s, i + 1, Seq::empty())
    } else {
        spec_pf_unquoted(s, i, Seq::empty())
    }
}

proof fn lemma_pf_unquoted_next(s: Seq<char>, i: int, acc: Seq<char>)
    requires
        0 <= i <= s.len(),
    ensures
        ({
            let (_, n, sep) = spec_pf_unquoted(s, i, acc);
            i <= n <= s.len() && (sep != SepKind::Eof ==> n > i) && (sep == SepKind::Eof ==> n
                == s.len())
        }),
    decreases s.len() - i,
{
    if i < s.len() && s[i] != ',' && s[i] != '\n' && s[i] != '\r' {
        lemma_pf_unquoted_next(s, i + 1, acc.push(s[i]));
    }
}

proof fn lemma_pf_quoted_next(s: Seq<char>, i: int, acc: Seq<char>)
    requires
        0 <= i <= s.len(),
    ensures
        ({
            let (_, n, sep) = spec_pf_quoted(s, i, acc);
            i <= n <= s.len() && (sep != SepKind::Eof ==> n > i) && (sep == SepKind::Eof ==> n
                == s.len())
        }),
    decreases s.len() - i,
{
    if i < s.len() {
        if s[i] == '"' {
            if i + 1 < s.len() {
                if s[i + 1] == '"' {
                    lemma_pf_quoted_next(s, i + 2, acc.push('"'));
                } else if s[i + 1] != ',' && s[i + 1] != '\n' && s[i + 1] != '\r' {
                    lemma_pf_unquoted_next(s, i + 1, acc);
                }
            }
        } else {
            lemma_pf_quoted_next(s, i + 1, acc.push(s[i]));
        }
    }
}

proof fn lemma_parse_field_next(s: Seq<char>, i: int)
    requires
        0 <= i <= s.len(),
    ensures
        ({
            let (_, n, sep) = spec_parse_field(s, i);
            i <= n <= s.len() && (sep != SepKind::Eof ==> n > i) && (sep == SepKind::Eof ==> n
                == s.len())
        }),
{
    if 0 <= i < s.len() && s[i] == '"' {
        lemma_pf_quoted_next(s, i + 1, Seq::empty());
    } else {
        lemma_pf_unquoted_next(s, i, Seq::empty());
    }
}

/// Parse one record starting at `i`: fields separated by commas, ended
/// by a record end or the end of the text.
pub open spec fn spec_parse_record(s: Seq<char>, i: int) -> (Seq<Seq<char>>, int)
    decreases s.len() - i when 0 <= i <= s.len() via spec_parse_record_dec
{
    let (f, n, sep) = spec_parse_field(s, i);
    if sep == SepKind::Comma {
        let (fs, n2) = spec_parse_record(s, n);
        (seq![f] + fs, n2)
    } else {
        (seq![f], n)
    }
}

#[via_fn]
proof fn spec_parse_record_dec(s: Seq<char>, i: int) {
    lemma_parse_field_next(s, i);
}

proof fn lemma_parse_record_next(s: Seq<char>, i: int)
    requires
        0 <= i <= s.len(),
    ensures
        ({
            let (_, n) = spec_parse_record(s, i);
            i <= n <= s.len() && (i < s.len() ==> n > i)
        }),
    decreases s.len() - i,
{
    let (f, n, sep) = spec_parse_field(s, i);
    lemma_parse_field_next(s, i);
    if sep == SepKind::Comma {
        lemma_parse_record_next(s, n);
    }
}

/// Parse every record of the text, skipping blank lines.
pub open spec fn spec_parse_records(s: Seq<char>, i: int) -> Seq<Seq<Seq<char>>>
    decreases s.len() - i when 0 <= i <= s.len() via spec_parse_records_dec
{
    if i >= s.len() {
        Seq::empty()
    } else if s[i] == '\n' || s[i] == '\r' {
        spec_parse_records(s, i + 1)
    } else {
        let (fields, n) = spec_parse_record(s, i);
        seq![fields] + spec_parse_records(s, n)
    }
}

#[via_fn]
proof fn spec_parse_records_dec(s: Seq<char>, i: int) {
    if 0 <= i < s.len() && s[i] != '\n' && s[i] != '\r' {
        lemma_parse_record_next(s, i);
    }
}

/// Parse one field, executably.
fn parse_field(s: &Vec<char>, i: usize) -> (r: (Vec<char>, usize, u8))
    requires
        i <= s@.len(),
    ensures
        ({
            let (f, n, sep) = spec_parse_field(s@, i as int);
            r.0@ == f && r.1 as int == n && r.2 == spec_sep_code(sep) && i <= r.1 <= s@.len()
        }),
{
    proof {
        lemma_parse_field_next(s@, i as int);
    }
    let n = s.len();
    let mut acc: Vec<char> = Vec::new();
    let mut pos = i;
    let quoted = pos < n && s[pos] == '"';
    if quoted {
        pos = pos + 1;
        loop
            invariant_except_break
                i + 1 <= pos <= n,
                n == s@.len(),
                spec_parse_field(s@, i as int) == spec_pf_quoted(s@, pos as int, acc@),
            ensures
                i <= pos <= n,
                n == s@.len(),
                spec_parse_field(s@, i as int) == spec_pf_unquoted(s@, pos as int, acc@),
            decreases n - pos,
        {
            if pos >= n {
                return (acc, n, 2);
            }
            let c = s[pos];
            if c == '"' {
                if n - pos < 2 {
                    return (acc, n, 2);
                }
                let c2 = s[pos + 1];
                if c2 == '"' {
                    acc.push('"');
                    pos = pos + 2;
                } else if c2 == ',' {
                    return (acc, pos + 2, 0);
                } else if c2 == '\n' {
                    return (acc, pos + 2, 1);
                } else if c2 == '\r' {
                    if n - pos >= 3 && s[pos + 2] == '\n' {
                        return (acc, pos + 3, 1);
                    } else {
                        return (acc, pos + 2, 1);
                    }
                } else {
                    proof {
                        assert(spec_pf_quoted(s@, pos as int, acc@) == spec_pf_unquoted(
                            s@,
                            pos + 1,
                            acc@,
                        ));
                    }
                    pos = pos + 1;
                    break;
                }
            } else {
                acc.push(c);
                pos = pos + 1;
            }
        }
    } else {
        proof {
            assert(spec_parse_field(s@, i as int) == spec_pf_unquoted(s@, pos as int, acc@));
        }
    }
    loop
        invariant
            i <= pos <= n,
            n == s@.len(),
            spec_parse_field(s@, i as int) == spec_pf_unquoted(s@, pos as int, acc@),
        decreases n - pos,
    {
        if pos >= n {
            return (acc, n, 2);
        }
        let c = s[pos];
        if c == ',' {
            return (acc, pos + 1, 0);
        } else if c == '\n' {
            return (acc, pos + 1, 1);
        } else if c == '\r' {
            if n - pos >= 2 && s[pos + 1] == '\n' {
                return (acc, pos + 2, 1);
            } else {
                return (acc, pos + 1, 1);
            }
        } else {
            acc.push(c);
            pos = pos + 1;
        }
    }
}

/// The code an executable parse reports for a separator kind.
pub open spec fn spec_sep_code(sep: SepKind) -> u8 {
    match sep {
        SepKind::Comma => 0,
        SepKind::Newline => 1,
        SepKind::Eof => 2,
    }
}

/// Parse one record, executably.
fn parse_record(s: &Vec<char>, i: usize) -> (r: (Vec<String>, usize))
    requires
        i <= s@.len(),
    ensures
        ({
            let (fs, n) = spec_parse_record(s@, i as int);
            r.0.deep_view() == fs && r.1 as int == n && i <= r.1 <= s@.len()
        }),
{
    let mut fields: Vec<String> = Vec::new();
    let mut pos = i;
    loop
        invariant
            i <= pos <= s@.len(),
            ({
                let full = spec_parse_record(s@, i as int);
                let cur = spec_parse_record(s@, pos as int);
                full.0 == fields.deep_view() + cur.0 && full.1 == cur.1
            }),
        decreases s@.len() - pos,
    {
        proof {
            lemma_parse_field_next(s@, pos as int);
            lemma_parse_record_next(s@, pos as int);
        }
        let (f, n, sep) = parse_field(s, pos);
        let ghost fields0 = fields.deep_view();
        fields.push(chars_to_string(&f));
        proof {
            assert(fields.deep_view() =~= fields0.push(f@));
        }
        if sep == 0 {
            proof {
                let cur = spec_parse_record(s@, pos as int);
                let nxt = spec_parse_record(s@, n as int);
                assert(cur.0 =~= seq![f@] + nxt.0);
                assert(fields0.push(f@) =~= fields0 + seq![f@]);
                assert(fields0 + cur.0 =~= fields.deep_view() + nxt.0);
                lemma_parse_record_next(s@, n as int);
            }
            pos = n;
        } else {
            proof {
                let cur = spec_parse_record(s@, pos as int);
                assert(cur.0 =~= seq![f@]);
                assert(fields0.push(f@) =~= fields0 + seq![f@]);
            }
            return (fields, n);
        }
    }
}

/// Parse all records, executably.
fn parse_records(s: &Vec<char>) -> (r: Vec<Vec<String>>)
    ensures
        r.deep_view() == spec_parse_records(s@, 0),
{
    let mut rows: Vec<Vec<String>> = Vec::new();
    let mut pos: usize = 0;
    let n = s.len();
    while pos < n
        invariant
            pos <= n,
            n == s@.len(),
            spec_parse_records(s@, 0) == rows.deep_view() + spec_parse_records(s@, pos as int),
        decreases n - pos,
    {
        let c = s[pos];
        if c == '\n' || c == '\r' {
            pos = pos + 1;
        } else {
            proof {
                lemma_parse_record_next(s@, pos as int);
            }
            let (fields, next) = parse_record(s, pos);
            let ghost rows0 = rows.deep_view();
            let ghost rest = spec_parse_records(s@, next as int);
            rows.push(fields);
            proof {
                assert(rows.deep_view() =~= rows0.push(fields.deep_view()));
                assert(spec_parse_records(s@, pos as int) == seq![fields.deep_view()] + rest);
                assert(rows0 + (seq![fields.deep_view()] + rest) =~= rows.deep_view() + rest);
            }
            pos = next;
        }
    }
    proof {
        assert(spec_parse_records(s@, pos as int) =~= Seq::<Seq<Seq<char>>>::empty());
        assert(rows.deep_view() + Seq::<Seq<Seq<char>>>::empty() =~= rows.deep_view());
    }
    rows
}

/// The first cell of `row` equal to `name`.
pub open spec fn spec_find_field(row: Seq<Seq<char>>, name: Seq<char>) -> Option<int>
    decreases row.len(),
{
    if row.len() == 0 {
        None
    } else if row.first() == name {
        Some(0)
    } else {
        match spec_find_field(row.drop_first(), name) {
            Some(j) => Some(j + 1),
            None => None,
        }
    }
}

proof fn lemma_find_field_is(row: Seq<Seq<char>>, name: Seq<char>, j: int)
    requires
        0 <= j <= row.len(),
        forall|t: int| 0 <= t < j ==> (#[trigger] row[t]) != name,
        j == row.len() || row[j] == name,
    ensures
        spec_find_field(row, name) == if j == row.len() {
            None::<int>
        } else {
            Some(j)
        },
    decreases j,
{
    if row.len() == 0 {
    } else if row.first() == name {
        assert(row[0] == row.first());
        assert(j == 0);
    } else {
        assert(row[0] == row.first());
        assert(j > 0);
        let rest = row.drop_first();
        assert(forall|t: int| 0 <= t < j - 1 ==> (#[trigger] rest[t]) != name) by {
            assert(forall|t: int| 0 <= t < j - 1 ==> rest[t] == row[t + 1]);
        }
        assert(j - 1 == rest.len() || rest[j - 1] == row[j]);
        lemma_find_field_is(rest, name, j - 1);
    }
}

/// Find a header cell by name.
fn find_field(row: &Vec<String>, name: &str) -> (r: Option<usize>)
    ensures
        match r {
            Some(j) => spec_find_field(row.deep_view(), name@) == Some(j as int) && j < row@.len(),
            None => spec_find_field(row.deep_view(), name@) is None,
        },
{
    let nc = str_chars(name);
    let ns = chars_to_string(&nc);
    for j in 0..row.len()
        invariant
            ns@ == name@,
            forall|t: int| 0 <= t < j ==> (#[trigger] row.deep_view()[t]) != name@,
    {
        if str_eq(&row[j], &ns) {
            proof {
                assert(row.deep_view()[j as int] == name@);
                lemma_find_field_is(row.deep_view(), name@, j as int);
            }
            return Some(j);
        }
        proof {
            assert(row.deep_view()[j as int] != name@);
        }
    }
    proof {
        lemma_find_field_is(row.deep_view(), name@, row.deep_view().len() as int);
    }
    None
}

/// The column positions of the table's fields in a header row, when all
/// are present.
pub ghost struct ColIdx {
    pub id: int,
    pub name: int,
    pub id_number: int,
    pub email: int,
    pub status: int,
    pub rating: int,
    pub best_rating: int,
    pub rating_changeable: int,
    pub last_change_submission: int,
    pub last_change_rating: int,
    pub feedback: int,
}

/// Locate every needed column in the header.
pub open spec fn spec_cols(hdr: Seq<Seq<char>>) -> Option<ColIdx> {
    let id = spec_find_field(hdr, "ID"@);
    let name = spec_find_field(hdr, "Vollständiger Name"@);
    let id_number = spec_find_field(hdr, "ID-Nummer"@);
    let email = spec_find_field(hdr, "E-Mail-Adresse"@);
    let status = spec_find_field(hdr, "Status"@);
    let rating = spec_find_field(hdr, "Bewertung"@);
    let best_rating = spec_find_field(hdr, "Bestwertung"@);
    let rating_changeable = spec_find_field(hdr, "Bewertung kann geändert werden"@);
    let last_change_submission = spec_find_field(hdr, "Zuletzt geändert (Abgabe)"@);
    let last_change_rating = spec_find_field(hdr, "Zuletzt geändert (Bewertung)"@);
    let feedback = spec_find_field(hdr, "Feedback als Kommentar"@);
    if id is Some && name is Some && id_number is Some && email is Some && status is Some
        && rating is Some && best_rating is Some && rating_changeable is Some
        && last_change_submission is Some && last_change_rating is Some && feedback is Some {
        Some(
            ColIdx {
                id: id->0,
                name: name->0,
                id_number: id_number->0,
                email: email->0,
                status: status->0,
                rating: rating->0,
                best_rating: best_rating->0,
                rating_changeable: rating_changeable->0,
                last_change_submission: last_change_submission->0,
                last_change_rating: last_change_rating->0,
                feedback: feedback->0,
            },
        )
    } else {
        None
    }
}

/// The record a data row denotes, when its identifier and ratings parse
/// and it has as many cells as the header.
pub open spec fn spec_row_record(cols: ColIdx, hdr_len: int, row: Seq<Seq<char>>) -> Option<
    RecordModel,
> {
    if row.len() != hdr_len {
        None
    } else {
        let idc = spec_id_in(row[cols.id]);
        let rating = if row[cols.rating].len() == 0 {
            Some(None::<u64>)
        } else {
            match spec_parse_rating(row[cols.rating]) {
                Some(h) => Some(Some(h)),
                None => None,
            }
        };
        let best = spec_parse_rating(row[cols.best_rating]);
        if idc is Some && rating is Some && best is Some {
            Some(
                RecordModel {
                    id: idc->0,
                    name: row[cols.name],
                    id_number: row[cols.id_number],
                    email: row[cols.email],
                    status: row[cols.status],
                    rating: rating->0,
                    best_rating: best->0,
                    rating_changeable: row[cols.rating_changeable],
                    last_change_submission: row[cols.last_change_submission],
                    last_change_rating: row[cols.last_change_rating],
                    feedback: row[cols.feedback],
                },
            )
        } else {
            None
        }
    }
}

/// The records a table text denotes: the parseable data rows, in order.
/// An empty table, or one whose header lacks a needed column, denotes no
/// records.
pub open spec fn spec_read_table(s: Seq<char>) -> Seq<RecordModel> {
    let rows = spec_parse_records(s, 0);
    if rows.len() == 0 {
        Seq::empty()
    } else {
        match spec_cols(rows.first()) {
            None => Seq::empty(),
            Some(cols) => spec_filter_map(
                rows.drop_first(),
                (|row: Seq<Seq<char>>| spec_row_record(cols, rows.first().len() as int, row)
                    is Some),
                (|row: Seq<Seq<char>>| spec_row_record(cols, rows.first().len() as int, row)->0),
            ),
        }
    }
}

/// Deserialize a table text into its parseable records, dropping rows
/// with a malformed identifier or rating and rows of the wrong width.
pub fn read_table(text: &String) -> (r: Vec<Record>)
    ensures
        r.deep_view() == spec_read_table(text@),
{
    let cs = str_chars(text.as_str());
    let rows = parse_records(&cs);
    let ghost rowsd = rows.deep_view();
    if rows.len() == 0 {
        proof {
            assert(rowsd =~= spec_parse_records(text@, 0));
        }
        return Vec::new();
    }
    let mut rest = rows;
    let hdr = rest.remove(0);
    proof {
        assert(rest.deep_view() =~= rowsd.drop_first());
        assert(hdr.deep_view() == rowsd.first());
    }
    let hdr_len = hdr.len();
    let c_id = find_field(&hdr, "ID");
    let c_name = find_field(&hdr, "Vollständiger Name");
    let c_id_number = find_field(&hdr, "ID-Nummer");
    let c_email = find_field(&hdr, "E-Mail-Adresse");
    let c_status = find_field(&hdr, "Status");
    let c_rating = find_field(&hdr, "Bewertung");
    let c_best = find_field(&hdr, "Bestwertung");
    let c_changeable = find_field(&hdr, "Bewertung kann geändert werden");
    let c_lcs = find_field(&hdr, "Zuletzt geändert (Abgabe)");
    let c_lcr = find_field(&hdr, "Zuletzt geändert (Bewertung)");
    let c_feedback = find_field(&hdr, "Feedback als Kommentar");
    let (
        i_id,
        i_name,
        i_id_number,
        i_email,
        i_status,
        i_rating,
        i_best,
        i_changeable,
        i_lcs,
        i_lcr,
        i_feedback,
    ) = match (
        c_id,
        c_name,
        c_id_number,
        c_email,
        c_status,
        c_rating,
        c_best,
        c_changeable,
        c_lcs,
        c_lcr,
        c_feedback,
    ) {
        (
            Some(a0),
            Some(a1),
            Some(a2),
            Some(a3),
            Some(a4),
            Some(a5),
            Some(a6),
            Some(a7),
            Some(a8),
            Some(a9),
            Some(a10),
        ) => (a0, a1, a2, a3, a4, a5, a6, a7, a8, a9, a10),
        _ => {
            proof {
                assert(spec_cols(rowsd.first()) is None);
            }
            return Vec::new();
        },
    };
    let ghost cols = spec_cols(rowsd.first())->0;
    proof {
        assert(spec_cols(rowsd.first()) is Some);
        assert(cols.id == i_id as int);
    }
    let ghost pred = (|row: Seq<Seq<char>>| spec_row_record(cols, rowsd.first().len() as int, row)
        is Some);
    let ghost getf = (|row: Seq<Seq<char>>| spec_row_record(cols, rowsd.first().len() as int, row)
        ->0);
    let mut out: Vec<Record> = Vec::new();
    let ghost k: int = 0;
    while rest.len() > 0
        invariant
            pred == (|row: Seq<Seq<char>>| spec_row_record(
                cols,
                rowsd.first().len() as int,
                row,
            ) is Some),
            getf == (|row: Seq<Seq<char>>| spec_row_record(
                cols,
                rowsd.first().len() as int,
                row,
            )->0),
            0 <= k,
            k + rest.len() == rowsd.drop_first().len(),
            rowsd.len() >= 1,
            hdr_len == rowsd.first().len(),
            cols == spec_cols(rowsd.first())->0,
            spec_cols(rowsd.first()) is Some,
            cols.id == i_id as int && cols.name == i_name as int && cols.id_number
                == i_id_number as int && cols.email == i_email as int && cols.status
                == i_status as int && cols.rating == i_rating as int && cols.best_rating
                == i_best as int && cols.rating_changeable == i_changeable as int
                && cols.last_change_submission == i_lcs as int && cols.last_change_rating
                == i_lcr as int && cols.feedback == i_feedback as int,
            i_id < hdr_len && i_name < hdr_len && i_id_number < hdr_len && i_email < hdr_len
                && i_status < hdr_len && i_rating < hdr_len && i_best < hdr_len && i_changeable
                < hdr_len && i_lcs < hdr_len && i_lcr < hdr_len && i_feedback < hdr_len,
            out.deep_view() == spec_filter_map(rowsd.drop_first().take(k), pred, getf),
            forall|t: int|
                0 <= t < rest.deep_view().len() ==> rest.deep_view()[t] == rowsd.drop_first()[k
                    + t],
        decreases rest.len(),
    {
        let ghost rv = rest.deep_view();
        let row = rest.remove(0);
        proof {
            assert(rest.deep_view() =~= rv.drop_first());
            assert(row.deep_view() == rv.first());
            assert(row.deep_view() == rowsd.drop_first()[k]);
            lemma_filter_map_push(rowsd.drop_first().take(k), pred, getf, rowsd.drop_first()[k]);
            assert(rowsd.drop_first().take(k + 1) =~= rowsd.drop_first().take(k).push(
                rowsd.drop_first()[k],
            ));
        }
        let ghost rowd = row.deep_view();
        if row.len() != hdr_len {
            proof {
                assert(spec_row_record(cols, rowsd.first().len() as int, rowd) is None);
                assert(!pred(rowd));
                assert(out.deep_view() + Seq::<RecordModel>::empty() =~= out.deep_view());
                k = k + 1;
            }
            continue;
        }
        let idc = deserialize_id(&row[i_id]);
        let rating_cell = &row[i_rating];
        let rating: Option<Option<u64>> = if rating_cell.as_str().is_empty() {
            Some(None)
        } else {
            match parse_rating(rating_cell) {
                Some(h) => Some(Some(h)),
                None => None,
            }
        };
        let best = parse_rating(&row[i_best]);
        proof {
            assert(rowd[cols.id] == row@[i_id as int]@);
            assert(rowd[cols.rating] == row@[i_rating as int]@);
            assert(rowd[cols.best_rating] == row@[i_best as int]@);
            assert(row@[i_rating as int]@.len() == 0 <==> rating_cell@.len() == 0);
        }
        match (idc, rating, best) {
            (Some(idv), Some(rv2), Some(bv)) => {
                let rec = Record {
                    id: idv,
                    name: row[i_name].clone(),
                    id_number: row[i_id_number].clone(),
                    email: row[i_email].clone(),
                    status: row[i_status].clone(),
                    rating: rv2,
                    best_rating: bv,
                    rating_changeable: row[i_changeable].clone(),
                    last_change_submission: row[i_lcs].clone(),
                    last_change_rating: row[i_lcr].clone(),
                    feedback: row[i_feedback].clone(),
                };
                let ghost ov = out.deep_view();
                proof {
                    assert(rowd[cols.name] == row@[i_name as int]@);
                    assert(rowd[cols.id_number] == row@[i_id_number as int]@);
                    assert(rowd[cols.email] == row@[i_email as int]@);
                    assert(rowd[cols.status] == row@[i_status as int]@);
                    assert(rowd[cols.rating_changeable] == row@[i_changeable as int]@);
                    assert(rowd[cols.last_change_submission] == row@[i_lcs as int]@);
                    assert(rowd[cols.last_change_rating] == row@[i_lcr as int]@);
                    assert(rowd[cols.feedback] == row@[i_feedback as int]@);
                    assert(pred(rowd));
                    assert(rec.deep_view() == getf(rowd));
                }
                out.push(rec);
                proof {
                    assert(out.deep_view() =~= ov.push(getf(rowd)));
                    assert(ov.push(getf(rowd)) =~= ov + seq![getf(rowd)]);
                    k = k + 1;
                }
            },
            _ => {
                proof {
                    assert(spec_row_record(cols, rowsd.first().len() as int, rowd) is None);
                    assert(!pred(rowd));
                    assert(out.deep_view() + Seq::<RecordModel>::empty() =~= out.deep_view());
                    k = k + 1;
                }
            },
        }
    }
    proof {
        assert(rowsd.drop_first().take(k) =~= rowsd.drop_first());
        assert(rowsd == spec_parse_records(text@, 0));
    }
    out
}


proof fn lemma_region_elem(s: Seq<char>, i: int, r: Seq<char>, t: int)
    requires
        0 <= i,
        i + r.len() <= s.len(),
        s.subrange(i, i + r.len() as int) == r,
        0 <= t < r.len(),
    ensures
        s[i + t] == r[t],
{
    assert(s.subrange(i, i + r.len() as int)[t] == s[i + t]);
}

proof fn lemma_region_sub(s: Seq<char>, i: int, r: Seq<char>, a: int, b: int)
    requires
        0 <= i,
        i + r.len() <= s.len(),
        s.subrange(i, i + r.len() as int) == r,
        0 <= a <= b <= r.len(),
    ensures
        s.subrange(i + a, i + b) == r.subrange(a, b),
{
    assert forall|t2: int| 0 <= t2 < b - a implies s.subrange(i + a, i + b)[t2] == r.subrange(
        a,
        b,
    )[t2] by {
        lemma_region_elem(s, i, r, a + t2);
        assert(s.subrange(i + a, i + b)[t2] == s[i + a + t2]);
        assert(r.subrange(a, b)[t2] == r[a + t2]);
    }
    assert(s.subrange(i + a, i + b) =~= r.subrange(a, b));
}

proof fn lemma_pf_unquoted_run(s: Seq<char>, i: int, j: int, acc: Seq<char>)
    requires
        0 <= i <= j <= s.len(),
        forall|t: int| i <= t < j ==> (#[trigger] s[t]) != ',' && s[t] != '\n' && s[t] != '\r',
    ensures
        spec_pf_unquoted(s, i, acc) == spec_pf_unquoted(s, j, acc + s.subrange(i, j)),
    decreases j - i,
{
    if i == j {
        assert(acc + s.subrange(i, j) =~= acc);
    } else {
        lemma_pf_unquoted_run(s, i + 1, j, acc.push(s[i]));
        assert(acc.push(s[i]) + s.subrange(i + 1, j) =~= acc + s.subrange(i, j));
    }
}

proof fn lemma_pf_quoted_run(s: Seq<char>, i: int, f: Seq<char>, acc: Seq<char>)
    requires
        0 <= i,
        i + spec_double_quotes(f).len() <= s.len(),
        s.subrange(i, i + spec_double_quotes(f).len() as int) == spec_double_quotes(f),
    ensures
        spec_pf_quoted(s, i, acc) == spec_pf_quoted(
            s,
            i + spec_double_quotes(f).len() as int,
            acc + f,
        ),
    decreases f.len(),
{
    let d = spec_double_quotes(f);
    let dl = d.len() as int;
    if f.len() == 0 {
        assert(acc + f =~= acc);
    } else {
        let c = f.first();
        let f2 = f.drop_first();
        let d2 = spec_double_quotes(f2);
        let head: Seq<char> = if c == '"' {
            seq!['"', '"']
        } else {
            seq![c]
        };
        assert(d == head + d2);
        let hl = head.len() as int;
        assert(d[0] == head[0]);
        lemma_region_sub(s, i, d, hl, dl);
        assert(d.subrange(hl, dl) =~= d2);
        assert(s.subrange(i + hl, i + dl) == d2);
        if c == '"' {
            lemma_region_elem(s, i, d, 0);
            lemma_region_elem(s, i, d, 1);
            assert(d[1] == head[1]);
            assert(s[i] == '"' && s[i + 1] == '"');
            assert(spec_pf_quoted(s, i, acc) == spec_pf_quoted(s, i + 2, acc.push('"')));
            lemma_pf_quoted_run(s, i + 2, f2, acc.push('"'));
            assert(acc.push('"') + f2 =~= acc + f);
        } else {
            lemma_region_elem(s, i, d, 0);
            assert(s[i] == c);
            assert(s[i] != '"');
            assert(spec_pf_quoted(s, i, acc) == spec_pf_quoted(s, i + 1, acc.push(c)));
            lemma_pf_quoted_run(s, i + 1, f2, acc.push(c));
            assert(acc.push(c) + f2 =~= acc + f);
        }
    }
}

proof fn lemma_parse_field_esc(s: Seq<char>, i: int, f: Seq<char>, d: char)
    requires
        d == ',' || d == '\n',
        0 <= i,
        i + spec_esc_field(f).len() + 1 <= s.len(),
        s.subrange(i, i + spec_esc_field(f).len() as int) == spec_esc_field(f),
        s[i + spec_esc_field(f).len() as int] == d,
    ensures
        spec_parse_field(s, i) == (f, i + spec_esc_field(f).len() + 1, if d == ',' {
            SepKind::Comma
        } else {
            SepKind::Newline
        }),
{
    let e = spec_esc_field(f);
    let el = e.len() as int;
    if spec_needs_quote(f) {
        let dq = spec_double_quotes(f);
        let dl = dq.len() as int;
        assert(e == seq!['"'] + dq + seq!['"']);
        assert(el == dl + 2);
        lemma_region_elem(s, i, e, 0);
        assert(e[0] == '"');
        assert(s[i] == '"');
        assert(spec_parse_field(s, i) == spec_pf_quoted(s, i + 1, Seq::empty()));
        lemma_region_sub(s, i, e, 1, 1 + dl);
        assert(e.subrange(1, 1 + dl) =~= dq);
        lemma_pf_quoted_run(s, i + 1, f, Seq::empty());
        assert(Seq::empty() + f =~= f);
        lemma_region_elem(s, i, e, 1 + dl);
        assert(e[1 + dl] == '"');
        assert(s[i + 1 + dl] == '"');
        assert(s[i + 1 + dl + 1] == d);
        assert(i + 1 + dl + 1 < s.len());
        if d == ',' {
            assert(spec_pf_quoted(s, i + 1 + dl, f) == (f, i + 1 + dl + 2, SepKind::Comma));
        } else {
            assert(spec_pf_quoted(s, i + 1 + dl, f) == (f, i + 1 + dl + 2, SepKind::Newline));
        }
    } else {
        assert(e == f);
        let fl = f.len() as int;
        assert(forall|t: int|
            0 <= t < fl ==> (#[trigger] f[t]) != ',' && f[t] != '"' && f[t] != '\n' && f[t]
                != '\r');
        if fl > 0 {
            lemma_region_elem(s, i, e, 0);
            assert(s[i] == f[0]);
            assert(s[i] != '"');
        } else {
            assert(s[i] == d);
            assert(s[i] != '"');
        }
        assert(spec_parse_field(s, i) == spec_pf_unquoted(s, i, Seq::empty()));
        assert forall|t: int| i <= t < i + fl implies (#[trigger] s[t]) != ',' && s[t] != '\n'
            && s[t] != '\r' by {
            lemma_region_elem(s, i, e, t - i);
        }
        lemma_pf_unquoted_run(s, i, i + fl, Seq::empty());
        assert(s.subrange(i, i + fl) == e) by {
            lemma_region_sub(s, i, e, 0, fl);
            assert(e.subrange(0, fl) =~= e);
        }
        assert(Seq::empty() + s.subrange(i, i + fl) =~= f);
        assert(s[i + fl] == d);
        if d == ',' {
            assert(spec_pf_unquoted(s, i + fl, f) == (f, i + fl + 1, SepKind::Comma));
        } else {
            assert(spec_pf_unquoted(s, i + fl, f) == (f, i + fl + 1, SepKind::Newline));
        }
    }
}

proof fn lemma_parse_row(s: Seq<char>, i: int, fields: Seq<Seq<char>>)
    requires
        fields.len() >= 1,
        0 <= i,
        i + spec_write_row(fields).len() <= s.len(),
        s.subrange(i, i + spec_write_row(fields).len() as int) == spec_write_row(fields),
    ensures
        spec_parse_record(s, i) == (fields, i + spec_write_row(fields).len()),
    decreases fields.len(),
{
    let row = spec_write_row(fields);
    let rl = row.len() as int;
    let f0 = fields.first();
    let e0 = spec_esc_field(f0);
    let el = e0.len() as int;
    if fields.len() == 1 {
        assert(spec_row_body(fields) == e0);
        assert(row == e0 + seq!['\n']);
        assert(rl == el + 1);
        lemma_region_sub(s, i, row, 0, el);
        assert(row.subrange(0, el) =~= e0);
        lemma_region_elem(s, i, row, el);
        assert(row[el] == '\n');
        lemma_parse_field_esc(s, i, f0, '\n');
        assert(spec_parse_record(s, i) == (seq![f0], i + el + 1));
        assert(seq![f0] =~= fields);
    } else {
        let rest = fields.drop_first();
        let rowr = spec_write_row(rest);
        let rrl = rowr.len() as int;
        assert(spec_row_body(fields) == e0 + seq![','] + spec_row_body(rest));
        assert(row =~= e0 + seq![','] + rowr) by {
            assert(row == (e0 + seq![','] + spec_row_body(rest)) + seq!['\n']);
        }
        assert(rl == el + 1 + rrl);
        lemma_region_sub(s, i, row, 0, el);
        assert(row.subrange(0, el) =~= e0);
        lemma_region_elem(s, i, row, el);
        assert(row[el] == ',');
        lemma_parse_field_esc(s, i, f0, ',');
        let i2 = i + el + 1;
        lemma_region_sub(s, i, row, el + 1, rl);
        assert(row.subrange(el + 1, rl) =~= rowr);
        lemma_parse_row(s, i2, rest);
        assert(spec_parse_field(s, i) == (f0, i2, SepKind::Comma));
        assert(spec_parse_record(s, i2) == (rest, i2 + rrl));
        assert(spec_parse_record(s, i).0 =~= seq![f0] + rest);
        assert(seq![f0] + rest =~= fields);
        assert(spec_parse_record(s, i).1 == i + rl);
    }
}


proof fn lemma_cols_canonical()
    ensures
        spec_header_fields().len() == 11,
        spec_cols(spec_header_fields()) == Some(
            ColIdx {
                id: 0,
                name: 1,
                id_number: 2,
                email: 3,
                status: 4,
                rating: 5,
                best_rating: 6,
                rating_changeable: 7,
                last_change_submission: 8,
                last_change_rating: 9,
                feedback: 10,
            },
        ),
{
    reveal_strlit("ID");
    reveal_strlit("Vollständiger Name");
    reveal_strlit("ID-Nummer");
    reveal_strlit("E-Mail-Adresse");
    reveal_strlit("Status");
    reveal_strlit("Bewertung");
    reveal_strlit("Bestwertung");
    reveal_strlit("Bewertung kann geändert werden");
    reveal_strlit("Zuletzt geändert (Abgabe)");
    reveal_strlit("Zuletzt geändert (Bewertung)");
    reveal_strlit("Feedback als Kommentar");
    let hdr = spec_header_fields();
    assert("ID"@.len() == 2);
    assert("Vollständiger Name"@.len() == 18);
    assert("ID-Nummer"@.len() == 9);
    assert("E-Mail-Adresse"@.len() == 14);
    assert("Status"@.len() == 6);
    assert("Bewertung"@.len() == 9);
    assert("Bestwertung"@.len() == 11);
    assert("Bewertung kann geändert werden"@.len() == 30);
    assert("Zuletzt geändert (Abgabe)"@.len() == 25);
    assert("Zuletzt geändert (Bewertung)"@.len() == 28);
    assert("Feedback als Kommentar"@.len() == 22);
    assert("ID-Nummer"@[0] == 'I' && "Bewertung"@[0] == 'B');
    lemma_find_field_is(hdr, "ID"@, 0);
    lemma_find_field_is(hdr, "Vollständiger Name"@, 1);
    lemma_find_field_is(hdr, "ID-Nummer"@, 2);
    lemma_find_field_is(hdr, "E-Mail-Adresse"@, 3);
    lemma_find_field_is(hdr, "Status"@, 4);
    lemma_find_field_is(hdr, "Bewertung"@, 5);
    lemma_find_field_is(hdr, "Bestwertung"@, 6);
    lemma_find_field_is(hdr, "Bewertung kann geändert werden"@, 7);
    lemma_find_field_is(hdr, "Zuletzt geändert (Abgabe)"@, 8);
    lemma_find_field_is(hdr, "Zuletzt geändert (Bewertung)"@, 9);
    lemma_find_field_is(hdr, "Feedback als Kommentar"@, 10);
}

/// A well-formed record: its identifier is a non-empty run of digits,
/// as every identifier the table reader accepts is.
pub open spec fn spec_wf_record(r: RecordModel) -> bool {
    r.id.len() > 0 && (forall|i: int|
        0 <= i < r.id.len() ==> crate::text::spec_is_digit(#[trigger] r.id[i]))
}

proof fn lemma_row_record_round(r: RecordModel)
    requires
        spec_wf_record(r),
    ensures
        ({
            let cols = spec_cols(spec_header_fields())->0;
            spec_row_record(cols, 11, spec_record_fields(r)) == Some(r)
        }),
{
    lemma_cols_canonical();
    let cols = spec_cols(spec_header_fields())->0;
    let row = spec_record_fields(r);
    assert(row.len() == 11);
    crate::record::lemma_id_round_trip(r.id);
    assert(row[0] == spec_id_out(r.id));
    assert(spec_id_in(row[cols.id]) == Some(r.id));
    match r.rating {
        None => {
            assert(row[cols.rating].len() == 0);
        },
        Some(h) => {
            crate::record::lemma_rating_round_trip(h);
            assert(row[cols.rating] == crate::record::spec_rating_out(h));
            crate::text::lemma_dec_is_digits(h as nat / 100);
            assert(row[cols.rating].len() > 0);
        },
    }
    crate::record::lemma_rating_round_trip(r.best_rating);
    assert(row[cols.best_rating] == crate::record::spec_rating_out(r.best_rating));
    let got = spec_row_record(cols, 11, row)->0;
    assert(got.id == r.id && got.name == r.name && got.id_number == r.id_number && got.email
        == r.email && got.status == r.status && got.rating == r.rating && got.best_rating
        == r.best_rating && got.rating_changeable == r.rating_changeable
        && got.last_change_submission == r.last_change_submission && got.last_change_rating
        == r.last_change_rating && got.feedback == r.feedback);
}

/// Serializing a record into the table format and reading the table back
/// yields the record again, field for field — decimal-comma ratings and
/// the identifier prefix included.
proof fn lemma_data_row_starts(r: RecordModel)
    requires
        spec_wf_record(r),
    ensures
        spec_write_row(spec_record_fields(r)).len() > 0,
        spec_write_row(spec_record_fields(r))[0] == 'T',
{
    reveal_strlit("Teilnehmer/in");
    let rf = spec_record_fields(r);
    let idout = spec_id_out(r.id);
    assert(!spec_needs_quote(idout)) by {
        if spec_needs_quote(idout) {
            let w = choose|w: int|
                0 <= w < idout.len() && ((#[trigger] idout[w]) == ',' || idout[w] == '"'
                    || idout[w] == '\n' || idout[w] == '\r');
            if w < 13 {
                assert(idout[w] == "Teilnehmer/in"@[w]);
                assert("Teilnehmer/in"@[0] == 'T' && "Teilnehmer/in"@[1] == 'e'
                    && "Teilnehmer/in"@[2] == 'i' && "Teilnehmer/in"@[3] == 'l'
                    && "Teilnehmer/in"@[4] == 'n' && "Teilnehmer/in"@[5] == 'e'
                    && "Teilnehmer/in"@[6] == 'h' && "Teilnehmer/in"@[7] == 'm'
                    && "Teilnehmer/in"@[8] == 'e' && "Teilnehmer/in"@[9] == 'r'
                    && "Teilnehmer/in"@[10] == '/' && "Teilnehmer/in"@[11] == 'i'
                    && "Teilnehmer/in"@[12] == 'n');
            } else {
                assert(idout[w] == r.id[w - 13]);
                assert(crate::text::spec_is_digit(r.id[w - 13]));
            }
        }
    }
    assert(spec_esc_field(rf[0]) == idout);
    assert(spec_write_row(rf)[0] == 'T') by {
        assert(spec_row_body(rf)[0] == spec_esc_field(rf.first())[0]);
        assert(idout[0] == "Teilnehmer/in"@[0]);
    }
}

/// The rows the records of a table write, in order.
pub open spec fn spec_rows_of(rs: Seq<RecordModel>) -> Seq<Seq<Seq<char>>> {
    spec_filter_map(rs, (|r: RecordModel| true), (|r: RecordModel| spec_record_fields(r)))
}

proof fn lemma_parse_data_rows(text: Seq<char>, p: int, rs: Seq<RecordModel>)
    requires
        forall|i: int| 0 <= i < rs.len() ==> spec_wf_record(#[trigger] rs[i]),
        0 <= p,
        p + spec_concat_map(rs, |r: RecordModel| spec_write_row(spec_record_fields(r))).len()
            == text.len(),
        text.subrange(p, text.len() as int) == spec_concat_map(
            rs,
            |r: RecordModel| spec_write_row(spec_record_fields(r)),
        ),
    ensures
        spec_parse_records(text, p) == spec_rows_of(rs),
    decreases rs.len(),
{
    let rowf = (|r: RecordModel| spec_write_row(spec_record_fields(r)));
    let region = spec_concat_map(rs, rowf);
    if rs.len() == 0 {
        assert(p == text.len());
        assert(spec_parse_records(text, p) =~= Seq::<Seq<Seq<char>>>::empty());
        assert(spec_rows_of(rs) =~= Seq::<Seq<Seq<char>>>::empty());
    } else {
        let r0 = rs.first();
        let rest = rs.drop_first();
        assert(rs[0] == r0);
        assert(spec_wf_record(r0));
        let drow = spec_write_row(spec_record_fields(r0));
        let dl = drow.len() as int;
        assert(region == drow + spec_concat_map(rest, rowf));
        assert(forall|t: int| 0 <= t < region.len() ==> text[p + t] == #[trigger] region[t]) by {
            assert(forall|t: int|
                0 <= t < region.len() ==> text.subrange(p, text.len() as int)[t]
                    == #[trigger] region[t]);
        }
        assert(text.subrange(p, p + dl) =~= drow) by {
            assert(forall|t: int| 0 <= t < dl ==> #[trigger] drow[t] == region[t]);
        }
        lemma_parse_row(text, p, spec_record_fields(r0));
        lemma_data_row_starts(r0);
        assert(text[p] == drow[0]);
        assert(text[p] != '\n' && text[p] != '\r');
        assert(text.subrange(p + dl, text.len() as int) =~= spec_concat_map(rest, rowf)) by {
            assert(forall|t: int|
                0 <= t < spec_concat_map(rest, rowf).len() ==> #[trigger] spec_concat_map(
                    rest,
                    rowf,
                )[t] == region[dl + t]);
        }
        assert(forall|i: int| 0 <= i < rest.len() ==> spec_wf_record(#[trigger] rest[i])) by {
            assert(forall|i: int| 0 <= i < rest.len() ==> rest[i] == rs[i + 1]);
        }
        lemma_parse_data_rows(text, p + dl, rest);
        assert(spec_parse_records(text, p) == seq![spec_record_fields(r0)] + spec_rows_of(rest));
        assert(spec_rows_of(rs) == seq![spec_record_fields(r0)] + spec_rows_of(rest));
    }
}

proof fn lemma_filter_rows(rs: Seq<RecordModel>)
    requires
        forall|i: int| 0 <= i < rs.len() ==> spec_wf_record(#[trigger] rs[i]),
    ensures
        ({
            let cols = spec_cols(spec_header_fields())->0;
            let pred = (|row: Seq<Seq<char>>| spec_row_record(cols, 11, row) is Some);
            let getf = (|row: Seq<Seq<char>>| spec_row_record(cols, 11, row)->0);
            spec_filter_map(spec_rows_of(rs), pred, getf) == rs
        }),
    decreases rs.len(),
{
    lemma_cols_canonical();
    let cols = spec_cols(spec_header_fields())->0;
    let pred = (|row: Seq<Seq<char>>| spec_row_record(cols, 11, row) is Some);
    let getf = (|row: Seq<Seq<char>>| spec_row_record(cols, 11, row)->0);
    let rows = spec_rows_of(rs);
    if rs.len() == 0 {
        assert(rows =~= Seq::<Seq<Seq<char>>>::empty());
        assert(spec_filter_map(rows, pred, getf) =~= Seq::<RecordModel>::empty());
    } else {
        let r0 = rs.first();
        let rest = rs.drop_first();
        assert(rs[0] == r0);
        assert(forall|i: int| 0 <= i < rest.len() ==> spec_wf_record(#[trigger] rest[i])) by {
            assert(forall|i: int| 0 <= i < rest.len() ==> rest[i] == rs[i + 1]);
        }
        lemma_filter_rows(rest);
        lemma_row_record_round(r0);
        assert(rows == seq![spec_record_fields(r0)] + spec_rows_of(rest));
        assert(rows.first() == spec_record_fields(r0));
        assert(rows.drop_first() =~= spec_rows_of(rest));
        assert(pred(spec_record_fields(r0)));
        assert(getf(spec_record_fields(r0)) == r0);
        assert(spec_filter_map(rows, pred, getf) =~= rs) by {
            assert(spec_filter_map(rows, pred, getf) == seq![r0] + spec_filter_map(
                spec_rows_of(rest),
                pred,
                getf,
            ));
        }
    }
}

/// Serializing records into the table format and reading the table back
/// yields them again, field for field — decimal-comma ratings and the
/// identifier prefix included. A record is well formed when its
/// identifier is a non-empty run of digits, as every identifier the
/// reader accepts is.
pub proof fn lemma_table_round_trip(rs: Seq<RecordModel>)
    requires
        forall|i: int| 0 <= i < rs.len() ==> spec_wf_record(#[trigger] rs[i]),
    ensures
        spec_read_table(spec_write_table(rs)) == rs,
{
    let hdr = spec_header_fields();
    let rowf = (|r: RecordModel| spec_write_row(spec_record_fields(r)));
    let text = spec_write_table(rs);
    let hrow = spec_write_row(hdr);
    let hl = hrow.len() as int;
    lemma_cols_canonical();
    assert(text == hrow + spec_concat_map(rs, rowf));
    assert(text.subrange(0, hl) =~= hrow);
    lemma_parse_row(text, 0, hdr);
    // The text opens with a header character, not a line break.
    reveal_strlit("ID");
    assert(hdr[0] == "ID"@);
    assert(!spec_needs_quote("ID"@)) by {
        assert("ID"@[0] == 'I' && "ID"@[1] == 'D');
        if spec_needs_quote("ID"@) {
            let w = choose|w: int|
                0 <= w < "ID"@.len() && (("ID"@[w]) == ',' || "ID"@[w] == '"' || "ID"@[w] == '\n'
                    || "ID"@[w] == '\r');
        }
    }
    assert(spec_esc_field(hdr[0]) == "ID"@);
    assert(hrow[0] == 'I') by {
        assert(spec_row_body(hdr)[0] == spec_esc_field(hdr.first())[0]);
    }
    assert(text[0] == 'I');
    assert(text[0] != '\n' && text[0] != '\r');
    // Parse: the header row, then one row per record.
    assert(text.subrange(hl, text.len() as int) =~= spec_concat_map(rs, rowf)) by {
        assert(forall|t: int|
            0 <= t < spec_concat_map(rs, rowf).len() ==> #[trigger] spec_concat_map(rs, rowf)[t]
                == text[hl + t]);
    }
    lemma_parse_data_rows(text, hl, rs);
    assert(spec_parse_records(text, 0) == seq![hdr] + spec_rows_of(rs));
    // Read the table back.
    let rows = spec_parse_records(text, 0);
    assert(rows.first() == hdr);
    assert(rows.drop_first() =~= spec_rows_of(rs));
    lemma_filter_rows(rs);
    assert(hdr.len() == 11);
    assert(spec_read_table(text) == rs);
}

} // verus!
