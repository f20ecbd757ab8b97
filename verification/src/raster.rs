//! The pixel grid as a mathematical value, and what the encoder reads off
//! it: cells, the byte of a column, the width of a band, the tracks of a
//! band.

use vstd::prelude::*;
use crate::notation::EMPTY_COLUMN;
use crate::notation::weight;
use crate::Pixel;

verus! {

/// The grid that a vector of rows holds.
pub open spec fn grid(pixels: Vec<Vec<Pixel>>) -> Seq<Seq<Pixel>> {
    pixels@.map_values(|row: Vec<Pixel>| row@)
}

/// The pixel at a place of the grid, if the grid reaches there. Rows differ
/// in length, so a place may lie past the end of its row.
pub open spec fn cell(pixels: Seq<Seq<Pixel>>, row: int, column: int) -> Option<Pixel> {
    if 0 <= row < pixels.len() && 0 <= column < pixels[row].len() {
        Some(pixels[row][column])
    } else {
        None
    }
}

/// Whether the grid has a pixel at this place that is lit in `color`.
pub open spec fn lit(pixels: Seq<Seq<Pixel>>, row: int, column: int, color: u16) -> bool {
    cell(pixels, row, column) == Some(Pixel { on: true, color })
}

/// What `color` has of a column: the sum of the weights of the pixels lit in
/// it, among the first `rows` pixels from `line` down.
pub open spec fn mask(pixels: Seq<Seq<Pixel>>, line: int, column: int, rows: int, color: u16) -> int
    decreases rows,
{
    if rows <= 0 {
        0
    } else {
        mask(pixels, line, column, rows - 1, color) + if lit(
            pixels,
            line + rows - 1,
            column,
            color,
        ) {
            weight(rows - 1)
        } else {
            0
        }
    }
}

/// A mask of `rows` pixels is below the weight of the next pixel: at most
/// 63 for a whole column.
pub proof fn lemma_mask_bounds(
    pixels: Seq<Seq<Pixel>>,
    line: int,
    column: int,
    rows: int,
    color: u16,
)
    requires
        0 <= rows <= 6,
    ensures
        0 <= mask(pixels, line, column, rows, color) < weight(rows),
    decreases rows,
{
    if rows > 0 {
        lemma_mask_bounds(pixels, line, column, rows - 1, color);
    }
}

/// The colours of a column, each with its mask: the colours that light at
/// least one of its pixels.
pub open spec fn column_masks(pixels: Seq<Seq<Pixel>>, line: int, column: int, rows: int) -> Map<
    u16,
    u8,
> {
    Map::new(
        |color: u16| mask(pixels, line, column, rows, color) != 0,
        |color: u16| mask(pixels, line, column, rows, color) as u8,
    )
}

/// The byte that stands for a column on the track of `color`.
pub open spec fn column_byte(
    pixels: Seq<Seq<Pixel>>,
    line: int,
    column: int,
    rows: int,
    color: u16,
) -> u8 {
    (63 + mask(pixels, line, column, rows, color)) as u8
}

/// The length of a row; zero for a row that the grid does not have.
pub open spec fn row_length(pixels: Seq<Seq<Pixel>>, row: int) -> int {
    if 0 <= row < pixels.len() {
        pixels[row].len() as int
    } else {
        0
    }
}

/// The length of the longest of the `rows` rows from `line` down.
pub open spec fn longest(pixels: Seq<Seq<Pixel>>, line: int, rows: int) -> int
    decreases rows,
{
    if rows <= 0 {
        0
    } else {
        let above = longest(pixels, line, rows - 1);
        let this = row_length(pixels, line + rows - 1);
        if this > above {
            this
        } else {
            above
        }
    }
}

/// Whether none of the six rows from `line` down reaches `column`.
pub open spec fn column_gone(pixels: Seq<Seq<Pixel>>, line: int, column: int) -> bool {
    forall|row: int| line <= row < line + 6 ==> cell(pixels, row, column) is None
}

/// No row of a band reaches a column exactly when the longest of them ends
/// before it.
pub proof fn lemma_column_gone(pixels: Seq<Seq<Pixel>>, line: int, column: int)
    requires
        0 <= column,
    ensures
        column_gone(pixels, line, column) <==> longest(pixels, line, 6) <= column,
{
    reveal_with_fuel(longest, 7);
    if column_gone(pixels, line, column) {
        assert(cell(pixels, line, column) is None);
        assert(cell(pixels, line + 1, column) is None);
        assert(cell(pixels, line + 2, column) is None);
        assert(cell(pixels, line + 3, column) is None);
        assert(cell(pixels, line + 4, column) is None);
        assert(cell(pixels, line + 5, column) is None);
    }
}

/// The last index of a range of `extent` places from `start` on, as far as
/// the machine can count; index 0 where the range is empty and starts at 0.
pub open spec fn last_index(start: usize, extent: usize) -> usize {
    if start + extent > usize::MAX {
        (usize::MAX - 1) as usize
    } else if start + extent >= 1 {
        (start + extent - 1) as usize
    } else {
        0
    }
}

/// How many pixels a column of the band at `line` takes: six, or fewer where
/// the last row wanted comes first.
pub open spec fn rows_in_band(line: int, max_y: Option<usize>) -> int {
    match max_y {
        Some(last) => if last - line + 1 < 6 {
            last - line + 1
        } else {
            6
        },
        None => 6,
    }
}

/// Whether the band at `line` has a column at `column`: the column lies
/// within the bounds, where there are any, and it is not a whole column of
/// six that no row reaches.
pub open spec fn column_present(
    pixels: Seq<Seq<Pixel>>,
    line: int,
    column: int,
    max_x: Option<usize>,
    max_y: Option<usize>,
) -> bool {
    &&& max_x matches Some(last) ==> column <= last
    &&& max_y matches Some(last) ==> line <= last
    &&& !(rows_in_band(line, max_y) == 6 && column_gone(pixels, line, column))
}

/// How many columns the band at `line` has from `start_x` on. A band of six
/// rows ends with its longest row, or at the last column wanted if that
/// comes first; a band cut short below ends at the last column wanted; a
/// band below the last row wanted has no column.
pub open spec fn band_width(
    pixels: Seq<Seq<Pixel>>,
    line: int,
    start_x: int,
    max_x: Option<usize>,
    max_y: Option<usize>,
) -> int {
    let reach = longest(pixels, line, 6);
    let edge = if max_y matches Some(last) && last < line {
        start_x
    } else {
        match max_x {
            Some(last) => if rows_in_band(line, max_y) == 6 && reach < last + 1 {
                reach
            } else {
                last + 1
            },
            None => reach,
        }
    };
    if edge > start_x {
        edge - start_x
    } else {
        0
    }
}

/// The columns of a band are those from `start_x` up to its width.
pub proof fn lemma_band_width(
    pixels: Seq<Seq<Pixel>>,
    line: int,
    start_x: int,
    max_x: Option<usize>,
    max_y: Option<usize>,
    k: int,
)
    requires
        0 <= start_x,
        0 <= k,
        max_x is None ==> max_y is None,
    ensures
        column_present(pixels, line, start_x + k, max_x, max_y) <==> k < band_width(
            pixels,
            line,
            start_x,
            max_x,
            max_y,
        ),
{
    lemma_column_gone(pixels, line, start_x + k);
}

/// Whether `color` lights a pixel of the band in one of the columns from
/// `from` up to `to`.
pub open spec fn color_used(
    pixels: Seq<Seq<Pixel>>,
    line: int,
    rows: int,
    from: int,
    to: int,
    color: u16,
) -> bool {
    exists|column: int| from <= column < to && mask(pixels, line, column, rows, color) != 0
}

/// The tracks of a band, by colour: for each colour that lights a pixel of
/// the band, one byte for each of the band's `width` columns.
pub open spec fn band_tracks(
    pixels: Seq<Seq<Pixel>>,
    line: int,
    rows: int,
    start_x: int,
    width: int,
) -> Map<u16, Seq<u8>> {
    Map::new(
        |color: u16| color_used(pixels, line, rows, start_x, start_x + width, color),
        |color: u16|
            Seq::new(
                if width > 0 {
                    width as nat
                } else {
                    0
                },
                |k: int| column_byte(pixels, line, start_x + k, rows, color),
            ),
    )
}

/// A track filled up to `length` bytes with the byte of an empty column.
pub open spec fn filled(track: Seq<u8>, length: int) -> Seq<u8> {
    track + Seq::new(
        if length > track.len() {
            (length - track.len()) as nat
        } else {
            0
        },
        |k: int| EMPTY_COLUMN,
    )
}

/// The tracks, each filled up to `length` bytes.
pub open spec fn all_filled(tracks: Map<u16, Seq<u8>>, length: int) -> Map<u16, Seq<u8>> {
    Map::new(|color: u16| tracks.contains_key(color), |color: u16| filled(tracks[color], length))
}

/// The tracks after the masks of the column at place `index` of the band
/// were added: the track of each colour of the column is filled up to
/// `index` and gets the column's byte; a colour that is new gets a track.
/// The other tracks stay as they are, for the time being shorter.
pub open spec fn with_column(tracks: Map<u16, Seq<u8>>, column: Map<u16, u8>, index: int) -> Map<
    u16,
    Seq<u8>,
> {
    Map::new(
        |color: u16| tracks.contains_key(color) || column.contains_key(color),
        |color: u16|
            if column.contains_key(color) {
                filled(
                    if tracks.contains_key(color) {
                        tracks[color]
                    } else {
                        Seq::empty()
                    },
                    index,
                ).push((column[color] + 63) as u8)
            } else {
                tracks[color]
            },
    )
}

/// Whether `tracks` is what the first `count` columns of a band give: a
/// track for each colour that lights a pixel in them, each track with the
/// bytes of the columns up to the last one that its colour has a pixel in.
pub open spec fn tracks_so_far(
    tracks: Map<u16, Seq<u8>>,
    pixels: Seq<Seq<Pixel>>,
    line: int,
    rows: int,
    start_x: int,
    count: int,
) -> bool {
    &&& forall|color: u16| #[trigger]
        tracks.contains_key(color) <==> color_used(
            pixels,
            line,
            rows,
            start_x,
            start_x + count,
            color,
        )
    &&& forall|color: u16| #[trigger] tracks.contains_key(color) ==> tracks[color].len() <= count
    &&& forall|color: u16, column: int|
        tracks.contains_key(color) && start_x <= column < start_x + count ==> if column - start_x
            < tracks[color].len() {
            tracks[color][column - start_x] == (63 + #[trigger] mask(
                pixels,
                line,
                column,
                rows,
                color,
            )) as u8
        } else {
            mask(pixels, line, column, rows, color) == 0
        }
}

/// Adding the masks of the next column gives what one column more gives.
pub proof fn lemma_tracks_step(
    tracks: Map<u16, Seq<u8>>,
    pixels: Seq<Seq<Pixel>>,
    line: int,
    rows: int,
    start_x: int,
    count: int,
)
    requires
        0 <= count,
        0 <= rows <= 6,
        tracks_so_far(tracks, pixels, line, rows, start_x, count),
    ensures
        tracks_so_far(
            with_column(tracks, column_masks(pixels, line, start_x + count, rows), count),
            pixels,
            line,
            rows,
            start_x,
            count + 1,
        ),
{
    let column = column_masks(pixels, line, start_x + count, rows);
    let next = with_column(tracks, column, count);
    assert forall|color: u16, at: int|
        next.contains_key(color) && start_x <= at < start_x + count + 1 implies if at - start_x
            < next[color].len() {
        next[color][at - start_x] == (63 + #[trigger] mask(pixels, line, at, rows, color)) as u8
    } else {
        mask(pixels, line, at, rows, color) == 0
    } by {
        lemma_mask_bounds(pixels, line, start_x + count, rows, color);
    }
}

/// Once all columns of a band were added, the tracks need only be filled up
/// to the band's width.
pub proof fn lemma_tracks_done(
    tracks: Map<u16, Seq<u8>>,
    pixels: Seq<Seq<Pixel>>,
    line: int,
    rows: int,
    start_x: int,
    width: int,
)
    requires
        0 <= width,
        tracks_so_far(tracks, pixels, line, rows, start_x, width),
    ensures
        all_filled(tracks, width) == band_tracks(pixels, line, rows, start_x, width),
{
    let whole = all_filled(tracks, width);
    let band = band_tracks(pixels, line, rows, start_x, width);
    assert forall|color: u16| whole.contains_key(color) implies whole[color] == band[color] by {}
}

/// A row of a grid that a machine holds is no longer than the machine can
/// count.
pub proof fn lemma_row_length_fits(pixels: Vec<Vec<Pixel>>, row: int)
    ensures
        row_length(grid(pixels), row) <= usize::MAX,
{
    if 0 <= row < pixels@.len() {
        assert(pixels@[row].len() == pixels@[row]@.len());
    }
}

/// Nor is the longest row of a band.
pub proof fn lemma_longest_fits(pixels: Vec<Vec<Pixel>>, line: int)
    ensures
        longest(grid(pixels), line, 6) <= usize::MAX,
{
    reveal_with_fuel(longest, 7);
    lemma_row_length_fits(pixels, line);
    lemma_row_length_fits(pixels, line + 1);
    lemma_row_length_fits(pixels, line + 2);
    lemma_row_length_fits(pixels, line + 3);
    lemma_row_length_fits(pixels, line + 4);
    lemma_row_length_fits(pixels, line + 5);
}

} // verus!
