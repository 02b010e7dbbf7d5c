//! The parser: turns the raw text of the semicolon-delimited dataset into
//! the ordered sequence of records that survive field validation. The first
//! line names the fields; every later line is a candidate row, and a row
//! that misses a field or fails a numeric reading is dropped silently.

use vstd::prelude::*;

use crate::numbers::{is_float_text, is_float_text_exec, parse_u32, parse_u32_text};
use crate::records::{rec_views, DataRecord, RecordModel};
use crate::text::{
    normalize, normalize_text, split_char, split_on, str_views, strip_cr, strip_cr_text,
};

verus! {

pub open spec fn name_date() -> Seq<char> {
    "Datum"@
}

pub open spec fn name_new_cases() -> Seq<char> {
    "Sch\u{e4}tzer_Neuerkrankungen"@
}

pub open spec fn name_new_cases_lower() -> Seq<char> {
    "UG_PI_Neuerkrankungen"@
}

pub open spec fn name_new_cases_upper() -> Seq<char> {
    "OG_PI_Neuerkrankungen"@
}

pub open spec fn name_new_cases_avg() -> Seq<char> {
    "Sch\u{e4}tzer_Neuerkrankungen_ma4"@
}

pub open spec fn name_new_cases_avg_lower() -> Seq<char> {
    "UG_PI_Neuerkrankungen_ma4"@
}

pub open spec fn name_new_cases_avg_upper() -> Seq<char> {
    "OG_PI_Neuerkrankungen_ma4"@
}

pub open spec fn name_r_value() -> Seq<char> {
    "Sch\u{e4}tzer_Reproduktionszahl_R"@
}

pub open spec fn name_r_value_lower() -> Seq<char> {
    "UG_PI_Reproduktionszahl_R"@
}

pub open spec fn name_r_value_upper() -> Seq<char> {
    "OG_PI_Reproduktionszahl_R"@
}

pub open spec fn name_r_value_avg() -> Seq<char> {
    "Sch\u{e4}tzer_7_Tage_R_Wert"@
}

pub open spec fn name_r_value_avg_lower() -> Seq<char> {
    "UG_PI_7_Tage_R_Wert"@
}

pub open spec fn name_r_value_avg_upper() -> Seq<char> {
    "OG_PI_7_Tage_R_Wert"@
}

/// The first index at or after `i` whose header field equals `name`, or the
/// header's length where no field does.
pub open spec fn index_of_name(h: Seq<Seq<char>>, name: Seq<char>, i: int) -> int
    decreases h.len() - i,
{
    if i < 0 || i >= h.len() {
        h.len() as int
    } else if h[i] == name {
        i
    } else {
        index_of_name(h, name, i + 1)
    }
}

proof fn lemma_index_of_name_bounds(h: Seq<Seq<char>>, name: Seq<char>, i: int)
    requires
        0 <= i <= h.len(),
    ensures
        i <= index_of_name(h, name, i) <= h.len(),
    decreases h.len() - i,
{
    if i < h.len() && h[i] != name {
        lemma_index_of_name_bounds(h, name, i + 1);
    }
}

proof fn lemma_index_of_name(h: Seq<Seq<char>>, name: Seq<char>, i: int, k: int)
    requires
        0 <= i <= k <= h.len(),
        forall|j: int| i <= j < k ==> h[j] != name,
        k == h.len() || h[k] == name,
    ensures
        index_of_name(h, name, i) == k,
    decreases k - i,
{
    if i < k {
        lemma_index_of_name(h, name, i + 1, k);
    }
}

/// The text that the row `f` holds for the header field `name`: the entry
/// of `f` in the position where `name` first stands in the header, or
/// `None` where the header lacks `name` or the row is too short.
pub open spec fn field_of(h: Seq<Seq<char>>, f: Seq<Seq<char>>, name: Seq<char>) -> Option<
    Seq<char>,
> {
    let i = index_of_name(h, name, 0);
    if i < h.len() && i < f.len() {
        Some(f[i])
    } else {
        None
    }
}

/// The unsigned-integer reading of the row's entry for `name`.
pub open spec fn int_field(h: Seq<Seq<char>>, f: Seq<Seq<char>>, name: Seq<char>) -> Option<u32> {
    match field_of(h, f, name) {
        Some(t) => parse_u32(t),
        None => None,
    }
}

/// The row's entry for `name`, kept only where it reads as a
/// floating-point field text.
pub open spec fn float_field(h: Seq<Seq<char>>, f: Seq<Seq<char>>, name: Seq<char>) -> Option<
    Seq<char>,
> {
    match field_of(h, f, name) {
        Some(t) => if is_float_text(t) {
            Some(t)
        } else {
            None
        },
        None => None,
    }
}

/// The record that the row `f` yields under the header `h`, or `None`
/// where any required field is missing or malformed.
pub open spec fn row_record(h: Seq<Seq<char>>, f: Seq<Seq<char>>) -> Option<RecordModel> {
    let date = field_of(h, f, name_date());
    let nc = int_field(h, f, name_new_cases());
    let ncl = int_field(h, f, name_new_cases_lower());
    let ncu = int_field(h, f, name_new_cases_upper());
    let nca = int_field(h, f, name_new_cases_avg());
    let ncal = int_field(h, f, name_new_cases_avg_lower());
    let ncau = int_field(h, f, name_new_cases_avg_upper());
    let rv = float_field(h, f, name_r_value());
    let rvl = float_field(h, f, name_r_value_lower());
    let rvu = float_field(h, f, name_r_value_upper());
    let rva = float_field(h, f, name_r_value_avg());
    let rval = float_field(h, f, name_r_value_avg_lower());
    let rvau = float_field(h, f, name_r_value_avg_upper());
    if date is Some && nc is Some && ncl is Some && ncu is Some && nca is Some && ncal is Some
        && ncau is Some && rv is Some && rvl is Some && rvu is Some && rva is Some && rval is Some
        && rvau is Some {
        Some(
            RecordModel {
                date: date.unwrap(),
                new_cases: nc.unwrap(),
                new_cases_lower: ncl.unwrap(),
                new_cases_upper: ncu.unwrap(),
                new_cases_avg: nca.unwrap(),
                new_cases_avg_lower: ncal.unwrap(),
                new_cases_avg_upper: ncau.unwrap(),
                r_value: rv.unwrap(),
                r_value_lower: rvl.unwrap(),
                r_value_upper: rvu.unwrap(),
                r_value_avg: rva.unwrap(),
                r_value_avg_lower: rval.unwrap(),
                r_value_avg_upper: rvau.unwrap(),
            },
        )
    } else {
        None
    }
}

/// The records yielded by the rows in order, each row split on semicolons,
/// rows that yield none left out.
pub open spec fn parse_rows(h: Seq<Seq<char>>, rows: Seq<Seq<char>>) -> Seq<RecordModel>
    decreases rows.len(),
{
    if rows.len() == 0 {
        Seq::empty()
    } else {
        let init = parse_rows(h, rows.drop_last());
        match row_record(h, split_on(rows.last(), ';')) {
            Some(r) => init.push(r),
            None => init,
        }
    }
}

/// The records of a sequence of lines: the first line is the header, every
/// later line a candidate row.
pub open spec fn parse_lines(lines: Seq<Seq<char>>) -> Seq<RecordModel> {
    if lines.len() == 0 {
        Seq::empty()
    } else {
        parse_rows(split_on(lines[0], ';'), lines.drop_first())
    }
}

/// The lines of a text: split on newlines, each with any trailing carriage
/// return removed.
pub open spec fn lines_of(t: Seq<char>) -> Seq<Seq<char>> {
    split_on(t, '\n').map_values(|l: Seq<char>| strip_cr(l))
}

/// The records of a text already normalized.
pub open spec fn spec_records(t: Seq<char>) -> Seq<RecordModel> {
    parse_lines(lines_of(t))
}

/// The records of the raw file text: the whole text is period-normalized
/// first, then read line by line.
pub open spec fn spec_parse(text: Seq<char>) -> Seq<RecordModel> {
    spec_records(normalize(text))
}

/// Looks `name` up in the header fields.
fn find_name(header: &Vec<String>, name: &str) -> (r: usize)
    ensures
        r as int == index_of_name(str_views(header@), name@, 0),
        r <= header.len(),
{
    let mut i: usize = 0;
    let n = header.len();
    while i < n
        invariant
            n == header.len(),
            i <= n,
            forall|j: int| 0 <= j < i ==> str_views(header@)[j] != name@,
        decreases n - i,
    {
        if crate::text::str_eq(header[i].as_str(), name) {
            proof {
                assert(str_views(header@)[i as int] == name@);
                lemma_index_of_name(str_views(header@), name@, 0, i as int);
            }
            return i;
        }
        proof {
            assert(str_views(header@)[i as int] != name@);
        }
        i += 1;
    }
    proof {
        lemma_index_of_name(str_views(header@), name@, 0, n as int);
    }
    n
}

/// The view of an optional owned string.
pub open spec fn opt_str_view(r: Option<String>) -> Option<Seq<char>> {
    match r {
        Some(s) => Some(s@),
        None => None,
    }
}

/// Hands out a copy of the row's entry for `name`.
fn text_field(header: &Vec<String>, fields: &Vec<String>, name: &str) -> (r: Option<String>)
    ensures
        opt_str_view(r) == field_of(str_views(header@), str_views(fields@), name@),
{
    let idx = find_name(header, name);
    if idx < header.len() && idx < fields.len() {
        let t = fields[idx].clone();
        proof {
            assert(str_views(fields@)[idx as int] == t@);
        }
        Some(t)
    } else {
        None
    }
}

/// Reads the row's entry for `name` as an unsigned integer.
fn int_field_exec(header: &Vec<String>, fields: &Vec<String>, name: &str) -> (r: Option<u32>)
    ensures
        r == int_field(str_views(header@), str_views(fields@), name@),
{
    match text_field(header, fields, name) {
        Some(t) => parse_u32_text(t.as_str()),
        None => None,
    }
}

/// Keeps the row's entry for `name` where it is a floating-point text.
fn float_field_exec(header: &Vec<String>, fields: &Vec<String>, name: &str) -> (r: Option<String>)
    ensures
        opt_str_view(r) == float_field(str_views(header@), str_views(fields@), name@),
{
    match text_field(header, fields, name) {
        Some(t) => if is_float_text_exec(t.as_str()) {
            Some(t)
        } else {
            None
        },
        None => None,
    }
}

/// The view of an optional record.
pub open spec fn opt_rec_view(r: Option<DataRecord>) -> Option<RecordModel> {
    match r {
        Some(d) => Some(d@),
        None => None,
    }
}

/// Builds the record of one row, or `None` where a field is missing or
/// malformed.
fn row_record_exec(header: &Vec<String>, fields: &Vec<String>) -> (r: Option<DataRecord>)
    ensures
        opt_rec_view(r) == row_record(str_views(header@), str_views(fields@)),
{
    let date = match text_field(header, fields, "Datum") {
        Some(v) => v,
        None => {
            return None;
        },
    };
    let nc = match int_field_exec(header, fields, "Sch\u{e4}tzer_Neuerkrankungen") {
        Some(v) => v,
        None => {
            return None;
        },
    };
    let ncl = match int_field_exec(header, fields, "UG_PI_Neuerkrankungen") {
        Some(v) => v,
        None => {
            return None;
        },
    };
    let ncu = match int_field_exec(header, fields, "OG_PI_Neuerkrankungen") {
        Some(v) => v,
        None => {
            return None;
        },
    };
    let nca = match int_field_exec(header, fields, "Sch\u{e4}tzer_Neuerkrankungen_ma4") {
        Some(v) => v,
        None => {
            return None;
        },
    };
    let ncal = match int_field_exec(header, fields, "UG_PI_Neuerkrankungen_ma4") {
        Some(v) => v,
        None => {
            return None;
        },
    };
    let ncau = match int_field_exec(header, fields, "OG_PI_Neuerkrankungen_ma4") {
        Some(v) => v,
        None => {
            return None;
        },
    };
    let rv = match float_field_exec(header, fields, "Sch\u{e4}tzer_Reproduktionszahl_R") {
        Some(v) => v,
        None => {
            return None;
        },
    };
    let rvl = match float_field_exec(header, fields, "UG_PI_Reproduktionszahl_R") {
        Some(v) => v,
        None => {
            return None;
        },
    };
    let rvu = match float_field_exec(header, fields, "OG_PI_Reproduktionszahl_R") {
        Some(v) => v,
        None => {
            return None;
        },
    };
    let rva = match float_field_exec(header, fields, "Sch\u{e4}tzer_7_Tage_R_Wert") {
        Some(v) => v,
        None => {
            return None;
        },
    };
    let rval = match float_field_exec(header, fields, "UG_PI_7_Tage_R_Wert") {
        Some(v) => v,
        None => {
            return None;
        },
    };
    let rvau = match float_field_exec(header, fields, "OG_PI_7_Tage_R_Wert") {
        Some(v) => v,
        None => {
            return None;
        },
    };
    Some(
        DataRecord {
            date,
            new_cases: nc,
            new_cases_lower: ncl,
            new_cases_upper: ncu,
            new_cases_avg: nca,
            new_cases_avg_lower: ncal,
            new_cases_avg_upper: ncau,
            r_value: rv,
            r_value_lower: rvl,
            r_value_upper: rvu,
            r_value_avg: rva,
            r_value_avg_lower: rval,
            r_value_avg_upper: rvau,
        },
    )
}

/// Parses the raw file text: normalizes every comma to a period, reads the
/// first line as the header, and yields the records of the rows that
/// survive validation, in their order of appearance.
pub fn parse(text: &str) -> (r: Vec<DataRecord>)
    ensures
        rec_views(r@) == spec_parse(text@),
{
    let norm = normalize_text(text);
    let raw_lines = split_char(norm.as_str(), '\n');
    let mut lines: Vec<String> = Vec::new();
    let mut k: usize = 0;
    proof {
        assert(str_views(lines@) =~= lines_of(norm@).take(0));
    }
    while k < raw_lines.len()
        invariant
            k <= raw_lines.len(),
            str_views(raw_lines@) == split_on(norm@, '\n'),
            str_views(lines@) == lines_of(norm@).take(k as int),
            lines.len() == k,
        decreases raw_lines.len() - k,
    {
        let stripped = strip_cr_text(raw_lines[k].as_str());
        let ghost prev = lines@;
        lines.push(stripped);
        proof {
            assert(str_views(raw_lines@)[k as int] == raw_lines@[k as int]@);
            assert(str_views(lines@) =~= str_views(prev).push(strip_cr(raw_lines@[k as int]@)));
            assert(str_views(lines@) =~= lines_of(norm@).take(k + 1));
        }
        k += 1;
    }
    proof {
        crate::text::lemma_split_len(norm@, '\n');
        assert(lines_of(norm@).take(lines.len() as int) =~= lines_of(norm@));
    }
    let header_fields = split_char(lines[0].as_str(), ';');
    let ghost lns = lines_of(norm@);
    let ghost h = split_on(lns[0], ';');
    let mut out: Vec<DataRecord> = Vec::new();
    let mut i: usize = 1;
    proof {
        assert(rec_views(out@) =~= parse_rows(h, lns.drop_first().take(0)));
    }
    while i < lines.len()
        invariant
            1 <= i <= lines.len(),
            lns == lines_of(norm@),
            str_views(lines@) == lns,
            h == split_on(lns[0], ';'),
            str_views(header_fields@) == h,
            rec_views(out@) == parse_rows(h, lns.drop_first().take(i - 1)),
        decreases lines.len() - i,
    {
        let fields = split_char(lines[i].as_str(), ';');
        let ghost rows = lns.drop_first();
        proof {
            assert(rows.take(i as int).drop_last() =~= rows.take(i - 1));
            assert(rows.take(i as int).last() == rows[i - 1]);
            assert(rows[i - 1] == lines@[i as int]@);
        }
        match row_record_exec(&header_fields, &fields) {
            Some(rec) => {
                let ghost prev = out@;
                out.push(rec);
                proof {
                    assert(rec_views(out@) =~= rec_views(prev).push(rec@));
                }
            },
            None => {},
        }
        proof {
            assert(rec_views(out@) =~= parse_rows(h, rows.take(i as int)));
        }
        i += 1;
    }
    proof {
        assert(lns.drop_first().take(lines@.len() - 1) =~= lns.drop_first());
        assert(rec_views(out@) == parse_lines(lns));
    }
    out
}

/// Parsing reads exactly the records of the period-normalized text, and
/// normalizing a text again changes nothing: the records of a file with
/// comma decimals are the records of the same file with period decimals.
pub proof fn lemma_parse_normalized(text: Seq<char>)
    ensures
        spec_parse(text) == spec_records(normalize(text)),
        spec_parse(normalize(text)) == spec_parse(text),
{
    assert(normalize(normalize(text)) =~= normalize(text));
}

/// A record whose displayed texts are free of newlines, as every record
/// read out of a line-split file is.
pub open spec fn record_clean(r: RecordModel) -> bool {
    !r.date.contains('\n') && !r.r_value.contains('\n')
}

proof fn lemma_row_record_clean(h: Seq<Seq<char>>, row: Seq<char>)
    requires
        !row.contains('\n'),
        row_record(h, split_on(row, ';')) is Some,
    ensures
        record_clean(row_record(h, split_on(row, ';')).unwrap()),
{
    crate::text::lemma_split_segments_free(row, ';', '\n');
    let f = split_on(row, ';');
    lemma_index_of_name_bounds(h, name_date(), 0);
    lemma_index_of_name_bounds(h, name_r_value(), 0);
    assert(!f[index_of_name(h, name_date(), 0)].contains('\n'));
    assert(!f[index_of_name(h, name_r_value(), 0)].contains('\n'));
}

proof fn lemma_parse_rows_clean(h: Seq<Seq<char>>, rows: Seq<Seq<char>>)
    requires
        forall|k: int| 0 <= k < rows.len() ==> !(#[trigger] rows[k]).contains('\n'),
    ensures
        forall|i: int|
            0 <= i < parse_rows(h, rows).len() ==> record_clean(#[trigger] parse_rows(h, rows)[i]),
    decreases rows.len(),
{
    if rows.len() > 0 {
        lemma_parse_rows_clean(h, rows.drop_last());
        let init = parse_rows(h, rows.drop_last());
        match row_record(h, split_on(rows.last(), ';')) {
            Some(r) => {
                lemma_row_record_clean(h, rows.last());
                assert forall|i: int|
                    0 <= i < parse_rows(h, rows).len() implies record_clean(
                    #[trigger] parse_rows(h, rows)[i],
                ) by {
                    if i < init.len() {
                        assert(parse_rows(h, rows)[i] == init[i]);
                    } else {
                        assert(parse_rows(h, rows)[i] == r);
                    }
                }
            },
            None => {},
        }
    }
}

/// Every record of a parse is clean: its date and reproduction-number
/// texts hold no newline, because the file was split into lines before
/// any field was read.
pub proof fn lemma_parse_records_clean(text: Seq<char>)
    ensures
        forall|i: int|
            0 <= i < spec_parse(text).len() ==> record_clean(#[trigger] spec_parse(text)[i]),
{
    let norm = normalize(text);
    crate::text::lemma_split_segments_free(norm, '\n', '\n');
    let raw = split_on(norm, '\n');
    let lns = lines_of(norm);
    assert forall|k: int| 0 <= k < lns.len() implies !(#[trigger] lns[k]).contains('\n') by {
        assert(lns[k] == strip_cr(raw[k]));
        crate::text::lemma_strip_cr_free(raw[k], '\n');
    }
    if lns.len() > 0 {
        let rows = lns.drop_first();
        assert forall|k: int| 0 <= k < rows.len() implies !(#[trigger] rows[k]).contains('\n') by {
            assert(rows[k] == lns[k + 1]);
        }
        lemma_parse_rows_clean(split_on(lns[0], ';'), rows);
    }
}

/// A header line followed by one data row that yields a record parses to
/// a sequence of exactly that one record.
pub proof fn lemma_single_data_row(lines: Seq<Seq<char>>)
    requires
        lines.len() == 2,
        row_record(split_on(lines[0], ';'), split_on(lines[1], ';')) is Some,
    ensures
        parse_lines(lines) == seq![
            row_record(split_on(lines[0], ';'), split_on(lines[1], ';')).unwrap(),
        ],
{
    assert(lines.drop_first() =~= seq![lines[1]]);
    assert(seq![lines[1]].drop_last() =~= Seq::<Seq<char>>::empty());
    assert(seq![lines[1]].last() == lines[1]);
    let h = split_on(lines[0], ';');
    assert(parse_rows(h, Seq::<Seq<char>>::empty()) == Seq::<RecordModel>::empty());
    assert(parse_lines(lines) =~= seq![row_record(h, split_on(lines[1], ';')).unwrap()]);
}

/// A row that yields no record is dropped silently: appending it to a file
/// leaves the parsed sequence unchanged, it does not turn the parse into
/// an error.
pub proof fn lemma_bad_row_dropped(lines: Seq<Seq<char>>, bad: Seq<char>)
    requires
        lines.len() >= 1,
        row_record(split_on(lines[0], ';'), split_on(bad, ';')) is None,
    ensures
        parse_lines(lines.push(bad)) == parse_lines(lines),
{
    assert(lines.push(bad)[0] == lines[0]);
    assert(lines.push(bad).drop_first() =~= lines.drop_first().push(bad));
    assert(lines.drop_first().push(bad).drop_last() =~= lines.drop_first());
    assert(lines.drop_first().push(bad).last() == bad);
}

/// A text without a newline holds a header row at most: it parses to no
/// records at all.
pub proof fn lemma_header_only(text: Seq<char>)
    requires
        forall|j: int| 0 <= j < text.len() ==> text[j] != '\n',
    ensures
        spec_parse(text) == Seq::<RecordModel>::empty(),
{
    let norm = normalize(text);
    assert forall|j: int| 0 <= j < norm.len() implies norm[j] != '\n' by {
        assert(norm[j] == (if text[j] == ',' {
            '.'
        } else {
            text[j]
        }));
    }
    crate::text::lemma_split_none(norm, '\n');
    assert(lines_of(norm).len() == 1);
    assert(lines_of(norm).drop_first() =~= Seq::<Seq<char>>::empty());
}

} // verus!
