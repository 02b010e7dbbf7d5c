//! The plotter: renders a series of numeric texts as a fixed-size ASCII
//! line chart with a caption. The chart's character art comes from an
//! outside renderer; what the library guarantees is that the output is a
//! pure function of the series and the caption, and the renderer is only
//! handed series it is known to render without fault.

use vstd::prelude::*;

use crate::numbers::{float_dims, frac_digits, int_digits, is_simple_float};
use crate::text::str_views;

verus! {

/// The chart text that the renderer produces for a series of numeric
/// texts and a caption, with a vertical resolution of 10 rows and a left
/// margin of 10 columns. The output depends on the arguments alone.
pub uninterp spec fn plot_of(values: Seq<Seq<char>>, caption: Seq<char>) -> Seq<char>;

/// A series the renderer is safe on: every text is a plain signed decimal,
/// and any value's trimmed integer digits plus any value's trimmed
/// fraction digits stay within seven. Then every magnitude is below 10^7
/// and two distinct values differ by at least about 10^-7, so the
/// renderer's scaled bounds stay around 10^8, well below the 2^31 at
/// which its float-to-int casts saturate and its row indexing goes out
/// of bounds.
pub open spec fn plot_safe(values: Seq<Seq<char>>) -> bool {
    &&& forall|i: int| 0 <= i < values.len() ==> is_simple_float(#[trigger] values[i])
    &&& forall|i: int, j: int|
        0 <= i < values.len() && 0 <= j < values.len() ==> #[trigger] int_digits(values[i])
            + #[trigger] frac_digits(values[j]) <= 7
}

/// Decides whether the renderer is safe on `values`.
pub fn plot_safe_exec(values: &Vec<String>) -> (r: bool)
    ensures
        r == plot_safe(str_views(values@)),
{
    let ghost vs = str_views(values@);
    let mut max_int: usize = 0;
    let mut max_frac: usize = 0;
    let ghost mut gi: int = 0;
    let ghost mut gj: int = 0;
    let mut i: usize = 0;
    while i < values.len()
        invariant
            i <= values.len(),
            vs == str_views(values@),
            max_int <= 7,
            max_frac <= 7,
            forall|t: int| 0 <= t < i ==> is_simple_float(#[trigger] vs[t]),
            forall|t: int| 0 <= t < i ==> int_digits(#[trigger] vs[t]) <= max_int,
            forall|t: int| 0 <= t < i ==> frac_digits(#[trigger] vs[t]) <= max_frac,
            max_int > 0 ==> 0 <= gi < i && int_digits(vs[gi]) == max_int,
            max_frac > 0 ==> 0 <= gj < i && frac_digits(vs[gj]) == max_frac,
        decreases values.len() - i,
    {
        proof {
            assert(vs[i as int] == values@[i as int]@);
        }
        let (di, df) = match float_dims(values[i].as_str()) {
            Some(d) => d,
            None => {
                return false;
            },
        };
        if di > 7 {
            proof {
                assert(int_digits(vs[i as int]) + frac_digits(vs[i as int]) > 7);
            }
            return false;
        }
        if df > 7 {
            proof {
                assert(int_digits(vs[i as int]) + frac_digits(vs[i as int]) > 7);
            }
            return false;
        }
        if di > max_int {
            max_int = di;
            proof {
                gi = i as int;
            }
        }
        if df > max_frac {
            max_frac = df;
            proof {
                gj = i as int;
            }
        }
        i += 1;
    }
    if max_int + max_frac > 7 {
        proof {
            assert(int_digits(vs[gi]) + frac_digits(vs[gj]) > 7);
        }
        return false;
    }
    true
}

/// Relies on rasciigraph::plot: a pure rendering of the series to ASCII
/// art, deterministic in the series and the caption; a non-empty caption
/// is appended at the very end of the output. Each text is read as a
/// double. The renderer indexes into the series, so it needs a non-empty
/// one; and it casts scaled values to 32-bit row numbers whose saturation
/// would misalign its row indexing, so it is only handed series that
/// `plot_safe` keeps far below that range.
#[verifier::external_body]
fn ascii_plot(values: &Vec<String>, caption: &str) -> (r: String)
    requires
        values@.len() >= 1,
        plot_safe(str_views(values@)),
    ensures
        r@ == plot_of(str_views(values@), caption@),
        r@.len() > 0,
        caption@.len() > 0 ==> r@.len() >= caption@.len() && r@.subrange(
            r@.len() - caption@.len(),
            r@.len() as int,
        ) == caption@,
{
    rasciigraph::plot(
        values.iter().map(|v| v.parse().unwrap_or_default()).collect(),
        rasciigraph::Config::default().with_offset(10).with_height(10).with_caption(
            caption.to_string(),
        ),
    )
}

/// The text of a figure: the rendered chart, or the bare caption where
/// there is nothing to plot or the series is not one the renderer is
/// safe on.
pub open spec fn figure_text(values: Seq<Seq<char>>, caption: Seq<char>) -> Seq<char> {
    if values.len() == 0 || !plot_safe(values) {
        caption
    } else {
        plot_of(values, caption)
    }
}

/// Renders `values` as an ASCII line chart labelled with `caption`. An
/// empty series, or one outside the renderer's safe range, yields the
/// caption alone rather than a chart. A non-empty caption always ends
/// the output.
pub fn plot(values: &Vec<String>, caption: &str) -> (r: String)
    ensures
        r@ == figure_text(str_views(values@), caption@),
        caption@.len() > 0 ==> r@.len() >= caption@.len() && r@.subrange(
            r@.len() - caption@.len(),
            r@.len() as int,
        ) == caption@,
{
    if values.len() == 0 {
        proof {
            assert(str_views(values@) =~= Seq::<Seq<char>>::empty());
        }
        let r = caption.to_owned();
        proof {
            assert(r@.subrange(r@.len() - caption@.len(), r@.len() as int) =~= caption@);
        }
        r
    } else if plot_safe_exec(values) {
        ascii_plot(values, caption)
    } else {
        let r = caption.to_owned();
        proof {
            assert(r@.subrange(r@.len() - caption@.len(), r@.len() as int) =~= caption@);
        }
        r
    }
}

/// Plotting is deterministic: identical series and captions yield
/// identical output texts.
pub proof fn lemma_plot_deterministic(
    v1: Seq<Seq<char>>,
    c1: Seq<char>,
    v2: Seq<Seq<char>>,
    c2: Seq<char>,
)
    requires
        v1 == v2,
        c1 == c2,
    ensures
        figure_text(v1, c1) == figure_text(v2, c2),
{
}

} // verus!
