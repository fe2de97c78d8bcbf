//! The column formatter: padding a cell to a column's width on the
//! chosen side, sizing every column of a table from its rows and
//! header, and placing the caret by displayed width.
//!
//! Lengths and widths count characters, and the center padding uses
//! the same rounded-down count on both sides, as the table's
//! consumers expect.

use vstd::prelude::*;

use crate::config::Alignment;
use crate::editor::Editor;
use crate::strutil::{make_spaces, spaces};
use crate::unicode::{display_width_of, str_width, width_sum};

verus! {

/// A cell padded to a column width: unchanged on the left, padded
/// with spaces on the left for right alignment (unchanged when it is
/// already wider), and padded with the same rounded-down count of
/// spaces on both sides for centering.
pub open spec fn aligned_text(t: Seq<char>, max: int, a: Alignment) -> Seq<char> {
    match a {
        Alignment::Left => t,
        Alignment::Right => if t.len() > max {
            t
        } else {
            spaces((max - t.len()) as nat) + t
        },
        Alignment::Center => {
            let side = if t.len() as int / 2 <= max / 2 {
                (max / 2 - t.len() as int / 2) as nat
            } else {
                0 as nat
            };
            spaces(side) + t + spaces(side)
        },
    }
}

/// Pads `text` to `maximum_length` on the side the alignment names.
pub fn align_text(text: &str, maximum_length: u16, alignment: Alignment) -> (r: String)
    requires
        maximum_length >= 1,
    ensures
        r@ == aligned_text(text@, maximum_length as int, alignment),
{
    let dw = text.unicode_len();
    match alignment {
        Alignment::Right => {
            if dw > maximum_length as usize {
                text.to_owned()
            } else {
                let mut s = make_spaces(maximum_length as usize - dw);
                s.append(text);
                s
            }
        },
        Alignment::Center => {
            let half = dw / 2;
            let side: usize = if half <= (maximum_length / 2) as usize {
                (maximum_length / 2) as usize - half
            } else {
                0
            };
            let mut s = make_spaces(side);
            s.append(text);
            let pad = make_spaces(side);
            s.append(pad.as_str());
            s
        },
        Alignment::Left => text.to_owned(),
    }
}

/// The width of column `i`: the longest cell in that position over
/// all the rows, zero where no row reaches it.
pub open spec fn col_width(rows: Seq<Seq<Seq<char>>>, i: int) -> int
    decreases rows.len(),
{
    if rows.len() == 0 {
        0
    } else {
        let rest = col_width(rows.drop_first(), i);
        let cur = if 0 <= i < rows[0].len() {
            rows[0][i].len() as int
        } else {
            0
        };
        if cur >= rest {
            cur
        } else {
            rest
        }
    }
}

/// Column widths are never negative.
proof fn lemma_col_width_nonneg(rows: Seq<Seq<Seq<char>>>, i: int)
    ensures
        col_width(rows, i) >= 0,
    decreases rows.len(),
{
    if rows.len() > 0 {
        lemma_col_width_nonneg(rows.drop_first(), i);
    }
}

/// Why a table could not be formatted.
#[derive(Clone, Copy, PartialEq, Eq, Structural, Debug)]
pub enum FormatError {
    /// Some row is too short for the requested column count.
    MissingCell,
    /// A column's computed width is below one.
    EmptyColumn,
    /// A cell is too wide for a sixteen-bit width.
    CellTooWide,
}

/// Every row, the header included, reaches the requested column
/// count.
pub open spec fn rows_wide_enough(all: Seq<Seq<Seq<char>>>, ncols: int) -> bool {
    forall|j: int| 0 <= j < all.len() ==> (#[trigger] all[j]).len() >= ncols
}

/// Every requested column has a width between one and the largest
/// sixteen-bit value.
pub open spec fn widths_in_range(all: Seq<Seq<Seq<char>>>, ncols: int) -> bool {
    forall|i: int| 0 <= i < ncols ==> 1 <= #[trigger] col_width(all, i) <= 65535
}

/// Aligns all text in a column to a side depending on the longest
/// string, the header counted; rejects tables whose rows are too
/// short and columns whose width leaves the sixteen-bit range.
pub fn align_columns(
    v2: Vec<Vec<String>>,
    headers: Vec<String>,
    column_amount: usize,
    alignment: Alignment,
) -> (r: Result<(Vec<Vec<String>>, Vec<u16>), FormatError>)
    ensures
        ({
            let all = v2.deep_view().push(headers.deep_view());
            &&& (r is Ok <==> rows_wide_enough(all, column_amount as int) && widths_in_range(
                all,
                column_amount as int,
            ))
            &&& r is Ok ==> {
                let rows = (r->Ok_0).0;
                let widths = (r->Ok_0).1;
                &&& rows@.len() == v2@.len()
                &&& forall|j: int|
                    0 <= j < v2@.len() ==> (#[trigger] rows@[j])@.len() == v2@[j]@.len()
                &&& forall|j: int, i: int|
                    0 <= j < v2@.len() && 0 <= i < v2@[j]@.len() ==> (#[trigger] rows@[j]@[i])@
                        == if i < column_amount {
                        aligned_text(v2@[j]@[i]@, col_width(all, i), alignment)
                    } else {
                        v2@[j]@[i]@
                    }
                &&& widths@.len() == column_amount
                &&& forall|i: int|
                    0 <= i < column_amount ==> (#[trigger] widths@[i]) as int == col_width(all, i)
            }
            &&& r == Err::<(Vec<Vec<String>>, Vec<u16>), FormatError>(FormatError::MissingCell)
                ==> !rows_wide_enough(all, column_amount as int)
            &&& r == Err::<(Vec<Vec<String>>, Vec<u16>), FormatError>(FormatError::EmptyColumn)
                ==> exists|i: int| 0 <= i < column_amount && #[trigger] col_width(all, i) < 1
            &&& r == Err::<(Vec<Vec<String>>, Vec<u16>), FormatError>(FormatError::CellTooWide)
                ==> exists|i: int| 0 <= i < column_amount && #[trigger] col_width(all, i) > 65535
        }),
{
    let ghost all = v2.deep_view().push(headers.deep_view());
    let nrows = v2.len();
    proof {
        assert(v2.deep_view().len() == v2@.len());
        assert(headers.deep_view().len() == headers@.len());
    }
    let mut j: usize = 0;
    while j < nrows
        invariant
            all == v2.deep_view().push(headers.deep_view()),
            nrows == v2@.len(),
            v2.deep_view().len() == nrows,
            0 <= j <= nrows,
            forall|q: int| 0 <= q < j ==> (#[trigger] all[q]).len() >= column_amount,
        decreases nrows - j,
    {
        if v2[j].len() < column_amount {
            proof {
                assert(all[j as int].len() == v2.deep_view()[j as int].len());
                assert(v2.deep_view()[j as int].len() == v2@[j as int]@.len());
            }
            return Err(FormatError::MissingCell);
        }
        proof {
            assert(all[j as int].len() == v2@[j as int]@.len());
        }
        j += 1;
    }
    if headers.len() < column_amount {
        proof {
            assert(all[nrows as int].len() == headers@.len());
        }
        return Err(FormatError::MissingCell);
    }
    proof {
        assert(all[nrows as int].len() == headers@.len());
        assert(rows_wide_enough(all, column_amount as int));
    }
    let mut maximums: Vec<u16> = Vec::new();
    let mut i: usize = 0;
    while i < column_amount
        invariant
            all == v2.deep_view().push(headers.deep_view()),
            nrows == v2@.len(),
            v2.deep_view().len() == nrows,
            rows_wide_enough(all, column_amount as int),
            headers@.len() >= column_amount,
            0 <= i <= column_amount,
            maximums@.len() == i,
            forall|q: int|
                0 <= q < i ==> (#[trigger] maximums@[q]) as int == col_width(all, q),
            forall|q: int| 0 <= q < i ==> 1 <= #[trigger] col_width(all, q) <= 65535,
        decreases column_amount - i,
    {
        let w = column_max(&v2, &headers, i);
        proof {
            lemma_col_width_nonneg(all, i as int);
        }
        if w == 0 {
            proof {
                assert(col_width(all, i as int) < 1);
            }
            return Err(FormatError::EmptyColumn);
        }
        if w > 65535 {
            return Err(FormatError::CellTooWide);
        }
        maximums.push(w as u16);
        i += 1;
    }
    proof {
        assert(widths_in_range(all, column_amount as int));
    }
    let mut out: Vec<Vec<String>> = Vec::new();
    let mut j2: usize = 0;
    while j2 < nrows
        invariant
            all == v2.deep_view().push(headers.deep_view()),
            nrows == v2@.len(),
            v2.deep_view().len() == nrows,
            rows_wide_enough(all, column_amount as int),
            maximums@.len() == column_amount,
            forall|q: int|
                0 <= q < column_amount ==> (#[trigger] maximums@[q]) as int == col_width(all, q),
            forall|q: int| 0 <= q < column_amount ==> 1 <= #[trigger] col_width(all, q) <= 65535,
            0 <= j2 <= nrows,
            out@.len() == j2,
            forall|q: int| 0 <= q < j2 ==> (#[trigger] out@[q])@.len() == v2@[q]@.len(),
            forall|q: int, p: int|
                0 <= q < j2 && 0 <= p < v2@[q]@.len() ==> (#[trigger] out@[q]@[p])@ == if p
                    < column_amount {
                    aligned_text(v2@[q]@[p]@, col_width(all, p), alignment)
                } else {
                    v2@[q]@[p]@
                },
        decreases nrows - j2,
    {
        let row_len = v2[j2].len();
        let mut row: Vec<String> = Vec::new();
        let mut p: usize = 0;
        while p < row_len
            invariant
                all == v2.deep_view().push(headers.deep_view()),
                nrows == v2@.len(),
                v2.deep_view().len() == nrows,
                0 <= j2 < nrows,
                row_len == v2@[j2 as int]@.len(),
                maximums@.len() == column_amount,
                forall|q: int|
                    0 <= q < column_amount ==> (#[trigger] maximums@[q]) as int == col_width(
                        all,
                        q,
                    ),
                forall|q: int|
                    0 <= q < column_amount ==> 1 <= #[trigger] col_width(all, q) <= 65535,
                0 <= p <= row_len,
                row@.len() == p,
                forall|q: int|
                    0 <= q < p ==> (#[trigger] row@[q])@ == if q < column_amount {
                        aligned_text(v2@[j2 as int]@[q]@, col_width(all, q), alignment)
                    } else {
                        v2@[j2 as int]@[q]@
                    },
            decreases row_len - p,
        {
            if p < column_amount {
                let cell = align_text(v2[j2][p].as_str(), maximums[p], alignment);
                proof {
                    assert(cell@ == aligned_text(
                        v2@[j2 as int]@[p as int]@,
                        col_width(all, p as int),
                        alignment,
                    ));
                }
                row.push(cell);
            } else {
                row.push(v2[j2][p].clone());
                proof {
                    assert(row@[p as int]@ == v2@[j2 as int]@[p as int]@);
                }
            }
            p += 1;
        }
        out.push(row);
        j2 += 1;
    }
    Ok((out, maximums))
}

/// The longest cell of column `i` over the rows and the header.
fn column_max(v2: &Vec<Vec<String>>, headers: &Vec<String>, i: usize) -> (r: usize)
    requires
        rows_wide_enough(v2.deep_view().push(headers.deep_view()), i as int + 1),
    ensures
        r == col_width(v2.deep_view().push(headers.deep_view()), i as int),
{
    let ghost all = v2.deep_view().push(headers.deep_view());
    let nrows = v2.len();
    proof {
        assert(v2.deep_view().len() == v2@.len());
    }
    let mut acc: usize = 0;
    let mut j: usize = 0;
    proof {
        assert(all.skip(0) =~= all);
        lemma_col_width_nonneg(all, i as int);
    }
    while j < nrows
        invariant
            all == v2.deep_view().push(headers.deep_view()),
            nrows == v2@.len(),
            v2.deep_view().len() == nrows,
            rows_wide_enough(all, i as int + 1),
            0 <= j <= nrows,
            col_width(all, i as int) == if acc as int >= col_width(all.skip(j as int), i as int) {
                acc as int
            } else {
                col_width(all.skip(j as int), i as int)
            },
        decreases nrows - j,
    {
        proof {
            let rest = all.skip(j as int);
            assert(rest[0] == all[j as int]);
            assert(rest.drop_first() =~= all.skip(j as int + 1));
            assert(all[j as int] == v2.deep_view()[j as int]);
            assert(v2.deep_view()[j as int][i as int] == v2@[j as int]@[i as int]@);
            lemma_col_width_nonneg(all.skip(j as int + 1), i as int);
        }
        let l = v2[j][i].as_str().unicode_len();
        if l > acc {
            acc = l;
        }
        j += 1;
    }
    proof {
        let rest = all.skip(nrows as int);
        assert(rest.len() == 1);
        assert(rest[0] == headers.deep_view());
        assert(rest.drop_first() =~= Seq::<Seq<Seq<char>>>::empty());
        assert(col_width(rest.drop_first(), i as int) == 0);
        assert(headers.deep_view()[i as int] == headers@[i as int]@);
    }
    let hl = headers[i].as_str().unicode_len();
    let r = if hl > acc {
        hl
    } else {
        acc
    };
    r
}

/// The displayed width of everything before the cursor: the sum of
/// the widths of the clusters to its left, saturating only past the
/// largest machine value.
pub fn get_cursor_position(line_buffer: &Editor) -> (r: usize)
    requires
        line_buffer.wf(),
    ensures
        width_sum(line_buffer.cells().take(line_buffer.cursor_at())) <= usize::MAX ==> r
            == width_sum(line_buffer.cells().take(line_buffer.cursor_at())),
        r <= width_sum(line_buffer.cells().take(line_buffer.cursor_at())),
{
    let ghost cs = line_buffer.cells();
    let ghost cur = line_buffer.cursor_at();
    let n = line_buffer.pos();
    let mut sum: usize = 0;
    let mut i: usize = 0;
    proof {
        assert(cs.take(0) =~= Seq::<Seq<char>>::empty());
    }
    while i < n
        invariant
            line_buffer.wf(),
            cs == line_buffer.cells(),
            cur == line_buffer.cursor_at(),
            n == cur,
            0 <= i <= n,
            width_sum(cs.take(i as int)) <= usize::MAX ==> sum == width_sum(cs.take(i as int)),
            sum <= width_sum(cs.take(i as int)),
        decreases n - i,
    {
        let w = str_width(line_buffer.cell_at(i).as_str());
        proof {
            lemma_width_sum_push(cs.take(i as int), cs[i as int]);
            assert(cs.take(i as int).push(cs[i as int]) =~= cs.take(i as int + 1));
        }
        if w <= usize::MAX - sum {
            sum = sum + w;
        } else {
            sum = usize::MAX;
        }
        i += 1;
    }
    sum
}

/// Extending a cluster list on the right adds that cluster's width.
proof fn lemma_width_sum_push(gs: Seq<Seq<char>>, g: Seq<char>)
    ensures
        width_sum(gs.push(g)) == width_sum(gs) + display_width_of(g),
    decreases gs.len(),
{
    if gs.len() == 0 {
        assert(gs.push(g)[0] == g);
        assert(gs.push(g).drop_first() =~= Seq::<Seq<char>>::empty());
        assert(width_sum(gs.push(g)) == display_width_of(g) + width_sum(
            Seq::<Seq<char>>::empty(),
        ));
    } else {
        lemma_width_sum_push(gs.drop_first(), g);
        assert(gs.push(g)[0] == gs[0]);
        assert(gs.push(g).drop_first() =~= gs.drop_first().push(g));
        assert(width_sum(gs.push(g)) == display_width_of(gs[0]) + width_sum(
            gs.drop_first().push(g),
        ));
    }
}

/// The texts of a bracketed title row: for each pair, an opening
/// bracket (preceded by a space after the first), the pair's name,
/// and a colon, its value and a closing bracket.
/// The piece of the title row at position `q`: positions come in
/// threes, an opening bracket, a name, then the value and the closing
/// bracket.
pub open spec fn title_piece(contents: Seq<Vec<String>>, q: int) -> Seq<char> {
    if q % 3 == 0 {
        if q == 0 {
            "[ "@
        } else {
            " [ "@
        }
    } else if q % 3 == 1 {
        contents[q / 3]@[0]@
    } else {
        ": "@ + contents[q / 3]@[1]@ + " ]"@
    }
}

pub fn title_spans(contents: Vec<Vec<String>>) -> (r: Vec<String>)
    requires
        forall|i: int| 0 <= i < contents@.len() ==> (#[trigger] contents@[i])@.len() >= 2,
    ensures
        r@.len() == 3 * contents@.len(),
        forall|q: int| 0 <= q < r@.len() ==> (#[trigger] r@[q])@ == title_piece(contents@, q),
{
    let n = contents.len();
    let mut complete: Vec<String> = Vec::new();
    let mut i: usize = 0;
    while i < n
        invariant
            n == contents@.len(),
            forall|q: int| 0 <= q < n ==> (#[trigger] contents@[q])@.len() >= 2,
            0 <= i <= n,
            complete@.len() == 3 * i,
            forall|q: int|
                0 <= q < complete@.len() ==> (#[trigger] complete@[q])@ == title_piece(
                    contents@,
                    q,
                ),
        decreases n - i,
    {
        let opener: String = if i == 0 {
            "[ ".to_owned()
        } else {
            " [ ".to_owned()
        };
        complete.push(opener);
        complete.push(contents[i][0].clone());
        let mut tail = ": ".to_owned();
        tail.append(contents[i][1].as_str());
        tail.append(" ]");
        complete.push(tail);
        proof {
            let k = 3 * (i as int);
            assert(complete@[k]@ == title_piece(contents@, k)) by {
                assert(k % 3 == 0);
            }
            assert(complete@[k + 1]@ == title_piece(contents@, k + 1)) by {
                assert((k + 1) % 3 == 1 && (k + 1) / 3 == i as int);
            }
            assert(complete@[k + 2]@ == title_piece(contents@, k + 2)) by {
                assert((k + 2) % 3 == 2 && (k + 2) / 3 == i as int);
            }
        }
        i += 1;
    }
    complete
}

} // verus!
