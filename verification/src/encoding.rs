//! What encoding means: the text of an image, from the text of a register
//! and of a track up to the whole stream.

use vstd::prelude::*;
use crate::notation::compressed;
use crate::notation::decimal;
use crate::ordered::lists_keys;
use crate::Pixel;
use crate::raster::band_tracks;
use crate::raster::band_width;
use crate::raster::last_index;
use crate::raster::rows_in_band;
use crate::SixelColor;

verus! {

/// The pieces whose number is below `below`, one after the other in
/// ascending order of their numbers.
pub open spec fn joined<T>(pieces: Map<u16, Seq<T>>, below: int) -> Seq<T>
    decreases below,
{
    if below <= 0 {
        Seq::empty()
    } else {
        joined(pieces, below - 1) + if pieces.contains_key((below - 1) as u16) {
            pieces[(below - 1) as u16]
        } else {
            Seq::empty()
        }
    }
}

/// The number up to which a walk through `keys` has come after `count` of
/// them: one past the last key taken.
pub open spec fn reached(keys: Seq<u16>, count: int) -> int {
    if count <= 0 {
        0
    } else {
        keys[count - 1] + 1
    }
}

/// Numbers that no piece has add nothing.
pub proof fn lemma_joined_gap<T>(pieces: Map<u16, Seq<T>>, from: int, to: int)
    requires
        0 <= from <= to <= 65536,
        forall|key: u16| from <= key < to ==> !pieces.contains_key(key),
    ensures
        joined(pieces, to) == joined(pieces, from),
    decreases to - from,
{
    if from < to {
        lemma_joined_gap(pieces, from, to - 1);
    }
}

/// Taking the next key of an ascending list adds its piece and nothing else.
pub proof fn lemma_joined_next<T>(pieces: Map<u16, Seq<T>>, keys: Seq<u16>, i: int)
    requires
        lists_keys(keys, pieces.dom()),
        0 <= i < keys.len(),
    ensures
        joined(pieces, reached(keys, i + 1)) == joined(pieces, reached(keys, i)) + pieces[keys[i]],
{
    let from = reached(keys, i);
    let to = keys[i] as int;
    lemma_joined_gap(pieces, from, to);
}

/// Past the last key of an ascending list nothing is added.
pub proof fn lemma_joined_all<T>(pieces: Map<u16, Seq<T>>, keys: Seq<u16>)
    requires
        lists_keys(keys, pieces.dom()),
    ensures
        joined(pieces, 65536) == joined(pieces, reached(keys, keys.len() as int)),
{
    let from = reached(keys, keys.len() as int);
    lemma_joined_gap(pieces, from, 65536);
}

/// The introducer that opens a stream: `ESC P q`.
pub open spec fn introducer_text() -> Seq<char> {
    seq!['\u{1b}', 'P', 'q']
}

/// The terminator that closes a stream: `ESC \`.
pub open spec fn terminator_text() -> Seq<char> {
    seq!['\u{1b}', '\\']
}

/// The definition of one register: `#<number>;2;<r>;<g>;<b>` for RGB,
/// `#<number>;1;<h>;<s>;<l>` for HSL.
pub open spec fn register_text(number: u16, color: SixelColor) -> Seq<char> {
    match color {
        SixelColor::Hsl(x, y, z) => seq!['#'] + decimal(number as nat) + seq![';', '1', ';']
            + decimal(x as nat) + seq![';'] + decimal(y as nat) + seq![';'] + decimal(z as nat),
        SixelColor::Rgb(x, y, z) => seq!['#'] + decimal(number as nat) + seq![';', '2', ';']
            + decimal(x as nat) + seq![';'] + decimal(y as nat) + seq![';'] + decimal(z as nat),
    }
}

/// The definition of each register, by number.
pub open spec fn register_pieces(registers: Map<u16, SixelColor>) -> Map<u16, Seq<char>> {
    Map::new(
        |number: u16| registers.contains_key(number),
        |number: u16| register_text(number, registers[number]),
    )
}

/// The definitions of all registers, in ascending order of their numbers.
pub open spec fn registers_text(registers: Map<u16, SixelColor>) -> Seq<char> {
    joined(register_pieces(registers), 65536)
}

/// One track of a band: `$` unless it is the first of its band, then the
/// colour as `#<number>`, then the bytes in run-length form.
pub open spec fn track_text(color: u16, track: Seq<u8>, first: bool) -> Seq<char> {
    (if first {
        Seq::<char>::empty()
    } else {
        seq!['$']
    }) + seq!['#'] + decimal(color as nat) + compressed(track)
}

/// Whether no track has a colour below `color`.
pub open spec fn leads(tracks: Map<u16, Seq<u8>>, color: u16) -> bool {
    forall|other: u16| other < color ==> !tracks.contains_key(other)
}

/// The text of each track, by colour.
pub open spec fn track_pieces(tracks: Map<u16, Seq<u8>>) -> Map<u16, Seq<char>> {
    Map::new(
        |color: u16| tracks.contains_key(color),
        |color: u16| track_text(color, tracks[color], leads(tracks, color)),
    )
}

/// The tracks of a band, in ascending order of their colours.
pub open spec fn tracks_text(tracks: Map<u16, Seq<u8>>) -> Seq<char> {
    joined(track_pieces(tracks), 65536)
}

/// What of the grid is encoded: the first column and row, the last column
/// and row where the encoding is cropped, and the height that the bands
/// cover.
pub struct Window {
    pub start_x: usize,
    pub start_y: usize,
    pub max_x: Option<usize>,
    pub max_y: Option<usize>,
    pub max_lines: int,
}

impl Window {
    /// The window for a grid of `grid_height` rows: from the start given
    /// (else 0), as wide and as high as given (else unbounded). The bands
    /// cover the height given, and never more than the grid has rows.
    pub open spec fn of(
        grid_height: int,
        start_x_index: Option<usize>,
        start_y_index: Option<usize>,
        width: Option<usize>,
        height: Option<usize>,
    ) -> Window {
        let start_x = match start_x_index {
            Some(x) => x,
            None => 0,
        };
        let start_y = match start_y_index {
            Some(y) => y,
            None => 0,
        };
        Window {
            start_x,
            start_y,
            max_x: match width {
                Some(width) => Some(last_index(start_x, width)),
                None => None,
            },
            max_y: match height {
                Some(height) => Some(last_index(start_y, height)),
                None => None,
            },
            max_lines: match height {
                Some(height) => if height < grid_height {
                    height as int
                } else {
                    grid_height
                },
                None => grid_height,
            },
        }
    }

    /// How many bands are written: one for every six lines begun.
    pub open spec fn band_count(self) -> int {
        (self.max_lines + 5) / 6
    }

    /// The top row of band `band`.
    pub open spec fn line(self, band: int) -> int {
        self.start_y + 6 * band
    }
}

/// The text of one band: `-` unless it is the first, then its tracks.
pub open spec fn band_text(pixels: Seq<Seq<Pixel>>, window: Window, band: int) -> Seq<char> {
    let line = window.line(band);
    let rows = rows_in_band(line, window.max_y);
    let width = band_width(pixels, line, window.start_x as int, window.max_x, window.max_y);
    (if band != 0 {
        seq!['-']
    } else {
        Seq::<char>::empty()
    }) + tracks_text(band_tracks(pixels, line, rows, window.start_x as int, width))
}

/// The text of the first `count` bands.
pub open spec fn bands_text(pixels: Seq<Seq<Pixel>>, window: Window, count: int) -> Seq<char>
    decreases count,
{
    if count <= 0 {
        Seq::empty()
    } else {
        bands_text(pixels, window, count - 1) + band_text(pixels, window, count - 1)
    }
}

/// The text of the pixels: all bands of the window.
pub open spec fn pixels_text(pixels: Seq<Seq<Pixel>>, window: Window) -> Seq<char> {
    bands_text(pixels, window, window.band_count())
}

/// The text of an image: the introducer, the registers, the pixels, the
/// terminator.
pub open spec fn image_text(
    registers: Map<u16, SixelColor>,
    pixels: Seq<Seq<Pixel>>,
    window: Window,
) -> Seq<char> {
    introducer_text() + registers_text(registers) + pixels_text(pixels, window)
        + terminator_text()
}

} // verus!
