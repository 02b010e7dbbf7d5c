//! The reporter: selects the most recent records, renders them into a
//! borderless summary table, and builds the two figure texts for the
//! plotted series. The table value comes from an outside pretty-printer;
//! the library pins down exactly which rows of text it holds.

use vstd::prelude::*;

use crate::numbers::{canonical_float, canonical_float_text, dec_string, u32_to_string, u64_to_string};
use crate::parser::record_clean;
use crate::plot::{figure_text, plot};
use crate::records::{rec_views, DataRecord, RecordModel};
use crate::text::str_views;

verus! {

/// Declares prettytable::Table, the outside pretty-printer's table value,
/// so that it can stand in signatures; the value is opaque here and is
/// described only through `table_rows`.
#[verifier::external_type_specification]
#[verifier::external_body]
pub struct ExTable(prettytable::Table);

/// The rows of text that a table holds: for each row in order, the texts
/// of its cells in order.
pub uninterp spec fn table_rows(t: prettytable::Table) -> Seq<Seq<Seq<char>>>;

/// Relies on prettytable::Table::new: a table that holds no rows yet.
#[verifier::external_body]
fn table_new() -> (t: prettytable::Table)
    ensures
        table_rows(t) == Seq::<Seq<Seq<char>>>::empty(),
{
    prettytable::Table::new()
}

/// Whether every cell text of a row is free of newlines: only such a row
/// is stored by the pretty-printer exactly as given.
pub open spec fn row_clean(row: Seq<Seq<char>>) -> bool {
    forall|i: int| 0 <= i < row.len() ==> !(#[trigger] row[i]).contains('\n')
}

/// Relies on prettytable::Table::add_row, with Row::new and Cell::new:
/// appends exactly one row and leaves the earlier rows untouched.
/// Cell::new splits its text at line endings and keeps the pieces, so
/// the stored cell texts equal the given ones only where none holds a
/// newline; a row with a newline in a text still occupies one row.
#[verifier::external_body]
fn table_add_row(t: &mut prettytable::Table, cells: &Vec<String>)
    ensures
        table_rows(*final (t)).len() == table_rows(*old(t)).len() + 1,
        table_rows(*final (t)).subrange(0, table_rows(*old(t)).len() as int) == table_rows(
            *old(t),
        ),
        row_clean(str_views(cells@)) ==> table_rows(*final (t)).last() == str_views(cells@),
{
    let mut row_cells = Vec::new();
    for c in cells.iter() {
        row_cells.push(prettytable::Cell::new(c));
    }
    t.add_row(prettytable::Row::new(row_cells));
}

/// Relies on prettytable::Table::set_format: stores the display style,
/// a borderless one without separators between content lines, and leaves
/// the rows untouched.
#[verifier::external_body]
fn table_set_no_border_line_separator(t: &mut prettytable::Table)
    ensures
        table_rows(*final (t)) == table_rows(*old(t)),
{
    t.set_format(*prettytable::format::consts::FORMAT_NO_BORDER_LINE_SEPARATOR);
}

/// Where the window of the last `limit` entries of a sequence of length
/// `len` begins.
pub open spec fn window_start(len: int, limit: int) -> int {
    if limit <= len {
        len - limit
    } else {
        0
    }
}

/// The last `min(limit, len)` records, in their original order.
pub open spec fn tail_window(s: Seq<RecordModel>, limit: int) -> Seq<RecordModel> {
    s.subrange(window_start(s.len() as int, limit), s.len() as int)
}

/// Selects the last `min(limit, len)` records of `data`, oldest first:
/// exactly the tail window of the sequence, its relative order kept.
pub fn select_recent(data: &Vec<DataRecord>, limit: usize) -> (r: Vec<DataRecord>)
    ensures
        rec_views(r@) == tail_window(rec_views(data@), limit as int),
{
    let start: usize = if limit <= data.len() {
        data.len() - limit
    } else {
        0
    };
    let mut r: Vec<DataRecord> = Vec::new();
    let mut j = start;
    proof {
        assert(rec_views(r@) =~= rec_views(data@).subrange(start as int, start as int));
    }
    while j < data.len()
        invariant
            start <= j <= data.len(),
            rec_views(r@) == rec_views(data@).subrange(start as int, j as int),
        decreases data.len() - j,
    {
        let ghost prev = r@;
        r.push(data[j].duplicate());
        proof {
            assert(rec_views(r@) =~= rec_views(prev).push(data@[j as int]@));
            assert(rec_views(r@) =~= rec_views(data@).subrange(start as int, j + 1));
        }
        j += 1;
    }
    proof {
        assert(rec_views(data@).subrange(start as int, data@.len() as int) =~= tail_window(
            rec_views(data@),
            limit as int,
        ));
    }
    r
}

/// The fixed header row of the summary table.
pub open spec fn header_cells() -> Seq<Seq<char>> {
    seq!["Date"@, "New cases"@, "R-Value"@]
}

/// The summary-table row of one record: its date, its new-case estimate
/// as decimal text, and its reproduction-number text in canonical form.
pub open spec fn stat_row(r: RecordModel) -> Seq<Seq<char>> {
    seq![r.date, dec_string(r.new_cases as int), canonical_float(r.r_value)]
}

/// The full content of the summary table over `data` and `limit`: the
/// fixed header row, then one row per record of the tail window, oldest
/// first.
pub open spec fn statistics_rows(data: Seq<RecordModel>, limit: int) -> Seq<Seq<Seq<char>>> {
    seq![header_cells()] + tail_window(data, limit).map_values(|r: RecordModel| stat_row(r))
}

/// Builds the summary table: a header row `Date`, `New cases`, `R-Value`,
/// then one row per record of the tail window, the last `min(limit, len)`
/// records in chronological order, in a borderless style without line
/// separators. The table holds exactly one row per selected record; a
/// stored text equals the intended one wherever it is free of newlines,
/// which every parsed record's texts are.
pub fn get_statistics(data: &Vec<DataRecord>, limit: usize) -> (t: prettytable::Table)
    ensures
        table_rows(t).len() == statistics_rows(rec_views(data@), limit as int).len(),
        forall|i: int|
            0 <= i < statistics_rows(rec_views(data@), limit as int).len() && row_clean(
                #[trigger] statistics_rows(rec_views(data@), limit as int)[i],
            ) ==> table_rows(t)[i] == statistics_rows(rec_views(data@), limit as int)[i],
        (forall|i: int|
            0 <= i < statistics_rows(rec_views(data@), limit as int).len() ==> row_clean(
                #[trigger] statistics_rows(rec_views(data@), limit as int)[i],
            )) ==> table_rows(t) == statistics_rows(rec_views(data@), limit as int),
{
    let mut t = table_new();
    let mut hdr: Vec<String> = Vec::new();
    hdr.push("Date".to_owned());
    hdr.push("New cases".to_owned());
    hdr.push("R-Value".to_owned());
    proof {
        assert(str_views(hdr@) =~= header_cells());
    }
    table_add_row(&mut t, &hdr);
    let window = select_recent(data, limit);
    let ghost w = tail_window(rec_views(data@), limit as int);
    let ghost rows_of = |j: int| seq![header_cells()] + w.map_values(
        |r: RecordModel| stat_row(r),
    ).take(j);
    let mut j: usize = 0;
    proof {
        assert(rows_of(0) =~= seq![header_cells()]);
        assert(table_rows(t).len() == 1);
        lemma_header_cells_clean();
        assert(table_rows(t).last() == header_cells());
    }
    while j < window.len()
        invariant
            j <= window.len(),
            rec_views(window@) == w,
            rows_of == (|j: int| seq![header_cells()] + w.map_values(
                |r: RecordModel| stat_row(r),
            ).take(j)),
            table_rows(t).len() == 1 + j,
            forall|i: int|
                0 <= i < 1 + j && row_clean(#[trigger] rows_of(j as int)[i]) ==> table_rows(t)[i]
                    == rows_of(j as int)[i],
        decreases window.len() - j,
    {
        let mut cells: Vec<String> = Vec::new();
        cells.push(window[j].date.clone());
        cells.push(u32_to_string(window[j].new_cases));
        cells.push(canonical_float_text(window[j].r_value.as_str()));
        let ghost prev = table_rows(t);
        proof {
            assert(str_views(cells@) =~= stat_row(window@[j as int]@));
            assert(window@[j as int]@ == w[j as int]);
        }
        table_add_row(&mut t, &cells);
        proof {
            assert forall|i: int|
                0 <= i < 2 + j && row_clean(#[trigger] rows_of(j + 1)[i]) implies table_rows(t)[i]
                == rows_of(j + 1)[i] by {
                if i < 1 + j {
                    assert(rows_of(j + 1)[i] == rows_of(j as int)[i]);
                    assert(table_rows(t)[i] == prev[i]);
                } else {
                    assert(rows_of(j + 1)[i] == stat_row(w[j as int]));
                    assert(table_rows(t)[i] == table_rows(t).last());
                }
            }
        }
        j += 1;
    }
    table_set_no_border_line_separator(&mut t);
    proof {
        assert(rows_of(window@.len() as int) =~= statistics_rows(rec_views(data@), limit as int));
        if forall|i: int|
            0 <= i < statistics_rows(rec_views(data@), limit as int).len() ==> row_clean(
                #[trigger] statistics_rows(rec_views(data@), limit as int)[i],
            ) {
            assert(table_rows(t) =~= statistics_rows(rec_views(data@), limit as int));
        }
    }
    t
}

/// For any sequence of records and any non-negative limit, the summary
/// table's selected rows number `min(limit, len)`, and read top to bottom
/// they present the records of the tail window in their original relative
/// order.
pub proof fn lemma_statistics_selection(data: Seq<RecordModel>, limit: int)
    requires
        0 <= limit,
    ensures
        statistics_rows(data, limit).len() == 1 + (if limit <= data.len() {
            limit
        } else {
            data.len() as int
        }),
        forall|i: int|
            0 <= i < tail_window(data, limit).len() ==> #[trigger] statistics_rows(data, limit)[1
                + i] == stat_row(data[window_start(data.len() as int, limit) + i]),
{
}

proof fn lemma_header_cells_clean()
    ensures
        row_clean(header_cells()),
{
    reveal_strlit("Date");
    reveal_strlit("New cases");
    reveal_strlit("R-Value");
    assert(!("Date"@).contains('\n'));
    assert(!("New cases"@).contains('\n'));
    assert(!("R-Value"@).contains('\n'));
}

/// Over records whose texts are free of newlines — as every parsed
/// record is — the summary table loses nothing: every row of its content
/// is clean, so `get_statistics` holds the header and the tail window
/// exactly.
pub proof fn lemma_statistics_rows_clean(data: Seq<RecordModel>, limit: int)
    requires
        0 <= limit,
        forall|i: int| 0 <= i < data.len() ==> record_clean(#[trigger] data[i]),
    ensures
        forall|i: int|
            0 <= i < statistics_rows(data, limit).len() ==> row_clean(
                #[trigger] statistics_rows(data, limit)[i],
            ),
{
    lemma_header_cells_clean();
    let w = tail_window(data, limit);
    assert forall|i: int|
        0 <= i < statistics_rows(data, limit).len() implies row_clean(
        #[trigger] statistics_rows(data, limit)[i],
    ) by {
        if i == 0 {
            assert(statistics_rows(data, limit)[0] == header_cells());
        } else {
            let r = w[i - 1];
            assert(r == data[window_start(data.len() as int, limit) + i - 1]);
            assert(record_clean(r));
            assert(statistics_rows(data, limit)[i] == stat_row(r));
            crate::numbers::lemma_dec_string_free(r.new_cases as int, '\n');
            crate::numbers::lemma_canonical_float_free(r.r_value, '\n');
            assert forall|j: int| 0 <= j < stat_row(r).len() implies !(#[trigger] stat_row(r)[
            j]).contains('\n') by {
                if j == 0 {
                    assert(stat_row(r)[0] == r.date);
                } else if j == 1 {
                    assert(stat_row(r)[1] == dec_string(r.new_cases as int));
                } else {
                    assert(stat_row(r)[2] == canonical_float(r.r_value));
                }
            }
        }
    }
}

/// The new-case series of a window: each count as decimal text.
pub open spec fn cases_series(w: Seq<RecordModel>) -> Seq<Seq<char>> {
    w.map_values(|r: RecordModel| dec_string(r.new_cases as int))
}

/// The reproduction-number series of a window: each record's field text.
pub open spec fn r_series(w: Seq<RecordModel>) -> Seq<Seq<char>> {
    w.map_values(|r: RecordModel| r.r_value)
}

/// The caption of the new-infections figure for a window of `limit` days.
pub open spec fn caption_cases(limit: int) -> Seq<char> {
    "New infections in the last "@ + dec_string(limit) + " days"@
}

/// The caption of the reproduction-number figure for a window of `limit`
/// days.
pub open spec fn caption_r(limit: int) -> Seq<char> {
    "R-value in the last "@ + dec_string(limit) + " days"@
}

fn caption_cases_text(limit: usize) -> (r: String)
    ensures
        r@ == caption_cases(limit as int),
{
    let num = u64_to_string(limit as u64);
    let mut c = "New infections in the last ".to_owned();
    c.append(num.as_str());
    c.append(" days");
    c
}

fn caption_r_text(limit: usize) -> (r: String)
    ensures
        r@ == caption_r(limit as int),
{
    let num = u64_to_string(limit as u64);
    let mut c = "R-value in the last ".to_owned();
    c.append(num.as_str());
    c.append(" days");
    c
}

/// Builds the two figure texts over the last `min(plot_limit, len)`
/// records, oldest first: the new-infections chart and the
/// reproduction-number chart, each labelled with its caption.
pub fn build_figures(data: &Vec<DataRecord>, plot_limit: usize) -> (figs: (String, String))
    ensures
        figs.0@ == figure_text(
            cases_series(tail_window(rec_views(data@), plot_limit as int)),
            caption_cases(plot_limit as int),
        ),
        figs.1@ == figure_text(
            r_series(tail_window(rec_views(data@), plot_limit as int)),
            caption_r(plot_limit as int),
        ),
{
    let window = select_recent(data, plot_limit);
    let ghost w = tail_window(rec_views(data@), plot_limit as int);
    let mut vals_cases: Vec<String> = Vec::new();
    let mut vals_r: Vec<String> = Vec::new();
    let mut j: usize = 0;
    proof {
        assert(str_views(vals_cases@) =~= cases_series(w).take(0));
        assert(str_views(vals_r@) =~= r_series(w).take(0));
    }
    while j < window.len()
        invariant
            j <= window.len(),
            rec_views(window@) == w,
            str_views(vals_cases@) == cases_series(w).take(j as int),
            str_views(vals_r@) == r_series(w).take(j as int),
        decreases window.len() - j,
    {
        let ghost prev_c = vals_cases@;
        let ghost prev_r = vals_r@;
        vals_cases.push(u32_to_string(window[j].new_cases));
        vals_r.push(window[j].r_value.clone());
        proof {
            assert(window@[j as int]@ == w[j as int]);
            assert(str_views(vals_cases@) =~= str_views(prev_c).push(
                dec_string(w[j as int].new_cases as int),
            ));
            assert(str_views(vals_r@) =~= str_views(prev_r).push(w[j as int].r_value));
            assert(str_views(vals_cases@) =~= cases_series(w).take(j + 1));
            assert(str_views(vals_r@) =~= r_series(w).take(j + 1));
        }
        j += 1;
    }
    proof {
        assert(cases_series(w).take(window@.len() as int) =~= cases_series(w));
        assert(r_series(w).take(window@.len() as int) =~= r_series(w));
    }
    let c1 = caption_cases_text(plot_limit);
    let c2 = caption_r_text(plot_limit);
    let f1 = plot(&vals_cases, c1.as_str());
    let f2 = plot(&vals_r, c2.as_str());
    (f1, f2)
}

} // verus!
