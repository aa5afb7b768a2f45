//! How a window of samples is laid out across the columns of a trace.
//!
//! A curve over `width` pixels is worth drawing at most one point per pixel
//! column. More samples than that are reduced by taking the extreme of each
//! column's share of the samples, so a peak survives being drawn on a narrow
//! surface instead of being skipped between two grid points. The shares are
//! consecutive runs of samples that together cover the whole window.

use vstd::arithmetic::div_mod::{
    lemma_div_is_ordered,
    lemma_div_plus_one,
    lemma_fundamental_div_mod_converse,
};
use vstd::prelude::*;

verus! {

/// How many points a curve `pixels` columns wide is worth drawing `len`
/// samples at: one per column, but never more than there are samples, and at
/// least two so that a curve has somewhere to go. A surface without a
/// drawable width (`pixels == 0`) or a window of fewer than two samples has
/// nothing to draw.
pub open spec fn spec_column_count(pixels: int, len: int) -> int {
    if len < 2 || pixels == 0 {
        0
    } else {
        let capped = if pixels < len {
            pixels
        } else {
            len
        };
        if capped < 2 {
            2
        } else if capped > len {
            len
        } else {
            capped
        }
    }
}

/// The half-open run of samples that column `column` of `columns` reduces,
/// out of a window of `len`: an equal share, but never empty and never past
/// the window.
pub open spec fn spec_column_span(len: int, columns: int, column: int) -> (int, int) {
    let start = column * len / columns;
    let share_end = (column + 1) * len / columns;
    let end = if share_end > start + 1 {
        share_end
    } else {
        start + 1
    };
    (
        start,
        if end < len {
            end
        } else {
            len
        },
    )
}

/// How many points a curve over `pixels` whole pixel columns is worth drawing
/// `len` samples at. `pixels` is the surface width rounded up, and 0 for a
/// surface with no drawable width.
pub fn column_count(pixels: usize, len: usize) -> (columns: usize)
    ensures
        columns == spec_column_count(pixels as int, len as int),
        columns == 0 || 2 <= columns <= len,
        len < 2 || pixels == 0 ==> columns == 0,
        len >= 2 && pixels >= 2 ==> columns == if pixels < len {
            pixels
        } else {
            len
        },
        len >= 2 && pixels == 1 ==> columns == 2,
{
    proof {
        lemma_column_count_follows_pixels(pixels as int, len as int);
    }
    if len < 2 || pixels == 0 {
        return 0;
    }
    let capped = if pixels < len {
        pixels
    } else {
        len
    };
    if capped < 2 {
        2
    } else if capped > len {
        len
    } else {
        capped
    }
}

/// The half-open run of samples that column `column` of `columns` reduces to
/// its extreme, out of a window of `len` samples.
pub fn column_span(len: usize, columns: usize, column: usize) -> (span: (usize, usize))
    requires
        columns > 0,
        column < usize::MAX,
        (column + 1) * len <= usize::MAX,
        (column * len) as int / columns as int <= len,
    ensures
        span.0 == spec_column_span(len as int, columns as int, column as int).0,
        span.1 == spec_column_span(len as int, columns as int, column as int).1,
        span.0 <= span.1 <= len,
        span.0 == (column * len) as int / columns as int,
        column < columns <= len ==> span.0 < span.1 && span.1 == ((column + 1) * len) as int
            / columns as int,
{
    proof {
        if column < columns <= len {
            lemma_column_share(len as int, columns as int, column as int);
        }
    }
    assert(column * len <= (column + 1) * len) by (nonlinear_arith);
    let start = column * len / columns;
    let share_end = (column + 1) * len / columns;
    let end = if start < len && share_end > start + 1 {
        share_end
    } else if start < len {
        start + 1
    } else {
        len
    };
    (start, if end < len {
        end
    } else {
        len
    })
}

/// Column shares of a window at least as long as there are columns tile it:
/// the first starts at sample 0, each ends where the next starts, none is
/// empty, and the last ends at the end of the window. Every sample is
/// therefore reduced into exactly one column.
pub proof fn lemma_column_spans_tile(len: int, columns: int)
    requires
        1 <= columns <= len,
    ensures
        spec_column_span(len, columns, 0).0 == 0,
        spec_column_span(len, columns, columns - 1).1 == len,
        forall|column: int|
            0 <= column < columns ==> #[trigger] spec_column_span(len, columns, column).0
                < spec_column_span(len, columns, column).1,
        forall|column: int|
            0 <= column < columns - 1 ==> #[trigger] spec_column_span(len, columns, column).1
                == spec_column_span(len, columns, column + 1).0,
{
    assert forall|column: int| 0 <= column < columns implies spec_column_span(
        len,
        columns,
        column,
    ) == (column * len / columns, (column + 1) * len / columns) && column * len / columns
        < (column + 1) * len / columns by {
        lemma_column_share(len, columns, column);
    }
    lemma_column_share(len, columns, columns - 1);
    lemma_fundamental_div_mod_converse(0 * len, columns, 0, 0);
    assert(0 * len == 0);
}

/// One point per pixel column, but never more points than samples and never
/// fewer than two: with at least two samples and a drawable width, the count
/// is `max(2, min(pixels, len))`, so it never exceeds a width of two or more
/// pixels; otherwise nothing is drawn.
pub proof fn lemma_column_count_follows_pixels(pixels: int, len: int)
    requires
        pixels >= 0,
        len >= 0,
    ensures
        len >= 2 && pixels >= 1 ==> spec_column_count(pixels, len) == {
            let fit = if pixels < len {
                pixels
            } else {
                len
            };
            if fit < 2 {
                2
            } else {
                fit
            }
        },
        len >= 2 && pixels >= 2 ==> spec_column_count(pixels, len) <= pixels,
        len >= 2 && pixels >= 2 ==> spec_column_count(pixels, len) <= len,
        len < 2 || pixels == 0 ==> spec_column_count(pixels, len) == 0,
{
}

/// Column `column` of `columns <= len` reduces samples `column * len / columns`
/// up to `(column + 1) * len / columns`: an equal share of the window, never
/// empty.
pub proof fn lemma_column_span_is_share(len: int, columns: int, column: int)
    requires
        1 <= columns <= len,
        0 <= column < columns,
    ensures
        spec_column_span(len, columns, column).0 == column * len / columns,
        spec_column_span(len, columns, column).1 == (column + 1) * len / columns,
        spec_column_span(len, columns, column).0 < spec_column_span(len, columns, column).1,
{
    lemma_column_share(len, columns, column);
}

/// Column `column`'s share ends at least one sample past its start and no
/// further than the window.
proof fn lemma_column_share(len: int, columns: int, column: int)
    requires
        1 <= columns <= len,
        0 <= column < columns,
    ensures
        column * len / columns + 1 <= (column + 1) * len / columns <= len,
        column + 1 == columns ==> (column + 1) * len / columns == len,
        spec_column_span(len, columns, column) == (
            column * len / columns,
            (column + 1) * len / columns,
        ),
{
    let low = column * len;
    assert((column + 1) * len == column * len + len) by (nonlinear_arith);
    assert((column + 1) * len <= columns * len) by (nonlinear_arith)
        requires
            column + 1 <= columns,
            len >= 0,
    ;
    assert(column * len >= 0) by (nonlinear_arith)
        requires
            column >= 0,
            len >= 0,
    ;
    lemma_div_plus_one(low, columns);
    lemma_div_is_ordered(columns + low, (column + 1) * len, columns);
    lemma_div_is_ordered((column + 1) * len, columns * len, columns);
    assert(columns * len == len * columns) by (nonlinear_arith);
    lemma_fundamental_div_mod_converse(columns * len, columns, len, 0);
}

} // verus!
