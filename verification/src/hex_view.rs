//! What a hex grid shows for the cells of a diff: where a cell stands, which
//! colour its source gets, and the text of the drop target.

use crate::diff::HexCell;
use vstd::prelude::*;

verus! {

/// Number of cells in one row of the hex grid.
pub const HEX_GRID_WIDTH: usize = 16;

/// A colour by its red, green and blue parts.
pub type Rgb = (u8, u8, u8);

/// The text of the drop target, as a sequence of characters.
pub open spec fn drop_text(selected: bool) -> Seq<char> {
    if selected {
        "⬇ Loading dropped files here ⬇"@
    } else {
        "⬇ Load dropped files here ⬇"@
    }
}

/// The text of the drop target of one input: it says whether dropped files
/// are loaded there.
pub fn drop_select_text(selected: bool) -> (text: &'static str)
    ensures
        text@ == drop_text(selected),
{
    if selected {
        "⬇ Loading dropped files here ⬇"
    } else {
        "⬇ Load dropped files here ⬇"
    }
}

/// The colour of a source: one of six, by the source id.
pub open spec fn source_color(c: int) -> Rgb {
    let k = c % 6;
    if k == 0 {
        (255u8, 128u8, 128u8)
    } else if k == 1 {
        (255u8, 255u8, 128u8)
    } else if k == 2 {
        (128u8, 255u8, 128u8)
    } else if k == 3 {
        (128u8, 255u8, 255u8)
    } else if k == 4 {
        (128u8, 128u8, 255u8)
    } else {
        (255u8, 128u8, 255u8)
    }
}

/// The colour of a source: one of six, by the source id.
pub fn color(c: usize) -> (rgb: Rgb)
    ensures
        rgb == source_color(c as int),
{
    let hi: u8 = 255;
    let lo: u8 = 128;
    let k = c % 6;
    if k == 0 {
        (hi, lo, lo)
    } else if k == 1 {
        (hi, hi, lo)
    } else if k == 2 {
        (lo, hi, lo)
    } else if k == 3 {
        (lo, hi, hi)
    } else if k == 4 {
        (lo, lo, hi)
    } else {
        (hi, lo, hi)
    }
}

/// A part of a colour moved by half of its range.
pub open spec fn shifted(part: u8) -> u8 {
    ((part + 128) % 256) as u8
}

/// The colour that stands out against `rgb`: each part moved by half of its range.
pub fn contrast(rgb: Rgb) -> (out: Rgb)
    ensures
        out == (shifted(rgb.0), shifted(rgb.1), shifted(rgb.2)),
{
    (shift_part(rgb.0), shift_part(rgb.1), shift_part(rgb.2))
}

/// A part of a colour moved by half of its range.
fn shift_part(part: u8) -> (out: u8)
    ensures
        out == shifted(part),
{
    if part < 128 {
        part + 128
    } else {
        part - 128
    }
}

/// Number of rows that the grid needs for two streams of the given lengths.
pub fn num_rows(len0: usize, len1: usize) -> (rows: usize)
    ensures
        rows == 1 + (if len0 >= len1 {
            len0
        } else {
            len1
        }) / 16,
{
    let longest = if len0 >= len1 {
        len0
    } else {
        len1
    };
    1 + longest / HEX_GRID_WIDTH
}

/// The cell in the given row and column of the grid, if the stream reaches
/// that far.
pub fn cell_at(cells: &Vec<HexCell>, row: usize, column: usize) -> (cell: Option<HexCell>)
    ensures
        cell == (if column + row * 16 < cells@.len() {
            Some(cells@[column + row * 16])
        } else {
            None
        }),
{
    if row > cells.len() / HEX_GRID_WIDTH {
        assert(row * 16 >= cells@.len()) by (nonlinear_arith)
            requires
                row > cells@.len() / 16,
        ;
        return None;
    }
    assert(row * 16 <= cells@.len()) by (nonlinear_arith)
        requires
            row <= cells@.len() / 16,
    ;
    let start = row * HEX_GRID_WIDTH;
    if column >= cells.len() - start {
        return None;
    }
    Some(cells[start + column])
}

} // verus!
