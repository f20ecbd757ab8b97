//! The encoder: writes a pixel grid and its colour registers as a canonical
//! sixel stream, band by band.

use std::collections::BTreeMap;
use std::collections::HashMap;
use vstd::prelude::*;
use crate::encoding::bands_text;
use crate::encoding::image_text;
use crate::encoding::introducer_text;
use crate::encoding::joined;
use crate::encoding::leads;
use crate::encoding::lemma_joined_all;
use crate::encoding::lemma_joined_next;
use crate::encoding::pixels_text;
use crate::encoding::reached;
use crate::encoding::register_pieces;
use crate::encoding::registers_text;
use crate::encoding::terminator_text;
use crate::encoding::track_pieces;
use crate::encoding::tracks_text;
use crate::encoding::Window;
use crate::notation::compressed;
use crate::notation::compressed_from;
use crate::notation::decimal;
use crate::notation::EMPTY_COLUMN;
use crate::notation::lemma_run_length_is;
use crate::notation::push_decimal;
use crate::notation::run_text;
use crate::notation::weight;
use crate::ordered::ascending_keys;
use crate::ordered::entries_of;
use crate::ordered::lists_entries;
use crate::ordered::lists_keys;
use crate::Pixel;
use crate::raster::all_filled;
use crate::raster::band_width;
use crate::raster::cell;
use crate::raster::column_masks;
use crate::raster::column_present;
use crate::raster::filled;
use crate::raster::grid;
use crate::raster::lemma_band_width;
use crate::raster::lemma_longest_fits;
use crate::raster::lemma_mask_bounds;
use crate::raster::lemma_tracks_done;
use crate::raster::lemma_tracks_step;
use crate::raster::mask;
use crate::raster::rows_in_band;
use crate::raster::tracks_so_far;
use crate::raster::with_column;
use crate::SixelColor;

verus! {

/// The tracks that a map of byte vectors holds.
pub open spec fn tracks_of(tracks: Map<u16, Vec<u8>>) -> Map<u16, Seq<u8>> {
    Map::new(|color: u16| tracks.contains_key(color), |color: u16| tracks[color]@)
}

/// The encoder of one image: it reads the registers and the grid, and
/// changes neither.
pub struct SixelSerializer<'a> {
    color_registers: &'a BTreeMap<u16, SixelColor>,
    pixels: &'a Vec<Vec<Pixel>>,
}

impl<'a> SixelSerializer<'a> {
    /// The registers that are encoded.
    pub closed spec fn registers(&self) -> Map<u16, SixelColor> {
        self.color_registers@
    }

    /// The grid that is encoded.
    pub closed spec fn rows(&self) -> Seq<Seq<Pixel>> {
        grid(*self.pixels)
    }

    /// An encoder for these registers and this grid.
    pub fn new(color_registers: &'a BTreeMap<u16, SixelColor>, pixels: &'a Vec<Vec<Pixel>>) -> (serializer:
        Self)
        ensures
            serializer.registers() == color_registers@,
            serializer.rows() == grid(*pixels),
    {
        SixelSerializer { color_registers, pixels }
    }

    /// The whole image as a sixel stream.
    pub fn serialize(&self) -> (serialized_image: String)
        ensures
            serialized_image@ == image_text(
                self.registers(),
                self.rows(),
                Window::of(self.rows().len() as int, None, None, None, None),
            ),
    {
        let serialized_image = String::new();
        let serialized_image = self.serialize_empty_dcs(serialized_image);
        let serialized_image = self.serialize_color_registers(serialized_image);
        let serialized_image = self.serialize_pixels(serialized_image, None, None, None, None);
        let serialized_image = self.serialize_end_event(serialized_image);
        serialized_image
    }

    /// The rectangle of `width` by `height` pixels whose top left corner is
    /// at column `start_x_index` of row `start_y_index`, as a sixel stream
    /// with all registers.
    pub fn serialize_range(
        &self,
        start_x_index: usize,
        start_y_index: usize,
        width: usize,
        height: usize,
    ) -> (serialized_image: String)
        ensures
            serialized_image@ == image_text(
                self.registers(),
                self.rows(),
                Window::of(
                    self.rows().len() as int,
                    Some(start_x_index),
                    Some(start_y_index),
                    Some(width),
                    Some(height),
                ),
            ),
    {
        let serialized_image = String::new();
        let serialized_image = self.serialize_empty_dcs(serialized_image);
        let serialized_image = self.serialize_color_registers(serialized_image);
        let serialized_image = self.serialize_pixels(
            serialized_image,
            Some(start_x_index),
            Some(start_y_index),
            Some(width),
            Some(height),
        );
        let serialized_image = self.serialize_end_event(serialized_image);
        serialized_image
    }

    fn serialize_empty_dcs(&self, append_to: String) -> (appended: String)
        ensures
            appended@ == append_to@ + introducer_text(),
    {
        let mut appended = append_to;
        appended.push('\u{1b}');
        appended.push('P');
        appended.push('q');
        appended
    }

    fn serialize_color_registers(&self, append_to: String) -> (appended: String)
        ensures
            appended@ == append_to@ + registers_text(self.registers()),
    {
        let ghost start = append_to@;
        let mut append_to = append_to;
        let ghost pieces = register_pieces(self.color_registers@);
        let color_registers = ascending_keys(self.color_registers);
        for i in 0..color_registers.len()
            invariant
                lists_keys(color_registers@, pieces.dom()),
                pieces == register_pieces(self.color_registers@),
                append_to@ == start + joined(pieces, reached(color_registers@, i as int)),
        {
            let color_register = color_registers[i];
            proof {
                lemma_joined_next(pieces, color_registers@, i as int);
            }
            match self.color_registers.get(&color_register) {
                Some(sixel_color_code) => {
                    match *sixel_color_code {
                        SixelColor::Hsl(x, y, z) => {
                            Self::serialize_color_definition(
                                &mut append_to,
                                color_register,
                                '1',
                                x as usize,
                                y as usize,
                                z as usize,
                            );
                        },
                        SixelColor::Rgb(x, y, z) => {
                            Self::serialize_color_definition(
                                &mut append_to,
                                color_register,
                                '2',
                                x as usize,
                                y as usize,
                                z as usize,
                            );
                        },
                    }
                },
                None => {},
            }
        }
        proof {
            lemma_joined_all(pieces, color_registers@);
        }
        append_to
    }

    /// Writes `#<number>;<system>;<x>;<y>;<z>`.
    fn serialize_color_definition(
        append_to: &mut String,
        color_register: u16,
        system: char,
        x: usize,
        y: usize,
        z: usize,
    )
        ensures
            final(append_to)@ == old(append_to)@ + (seq!['#'] + decimal(color_register as nat)
                + seq![';', system, ';'] + decimal(x as nat) + seq![';'] + decimal(y as nat)
                + seq![';'] + decimal(z as nat)),
    {
        append_to.push('#');
        push_decimal(append_to, color_register as usize);
        append_to.push(';');
        append_to.push(system);
        append_to.push(';');
        push_decimal(append_to, x);
        append_to.push(';');
        push_decimal(append_to, y);
        append_to.push(';');
        push_decimal(append_to, z);
    }

    /// Writes the bands of the window that the four bounds give, each bound
    /// where it is given. A height without a width is not taken: a band that
    /// the height cuts short ends only at the last column wanted.
    fn serialize_pixels(
        &self,
        append_to: String,
        start_x_index: Option<usize>,
        start_y_index: Option<usize>,
        width: Option<usize>,
        height: Option<usize>,
    ) -> (appended: String)
        requires
            width is None ==> height is None,
        ensures
            appended@ == append_to@ + pixels_text(
                self.rows(),
                Window::of(self.rows().len() as int, start_x_index, start_y_index, width, height),
            ),
    {
        let ghost start = append_to@;
        let ghost window = Window::of(
            self.pixels.len() as int,
            start_x_index,
            start_y_index,
            width,
            height,
        );
        let ghost rows = grid(*self.pixels);
        let mut append_to = append_to;
        let start_y_index = match start_y_index {
            Some(start_y_index) => start_y_index,
            None => 0,
        };
        let start_x_index = match start_x_index {
            Some(start_x_index) => start_x_index,
            None => 0,
        };
        let max_x_index = match width {
            Some(width) => Some(start_x_index.saturating_add(width).saturating_sub(1)),
            None => None,
        };
        let max_y_index = match height {
            Some(height) => Some(start_y_index.saturating_add(height).saturating_sub(1)),
            None => None,
        };
        let max_lines = match height {
            Some(height) => if height < self.pixels.len() {
                height
            } else {
                self.pixels.len()
            },
            None => self.pixels.len(),
        };
        let mut relative_line_index: usize = 0;
        let mut color_index_to_sixel_data_string: BTreeMap<u16, Vec<u8>> = BTreeMap::new();
        let ghost mut band: int = 0;
        loop
            invariant_except_break
                relative_line_index == 6 * band,
                color_index_to_sixel_data_string@ == Map::<u16, Vec<u8>>::empty(),
            invariant
                rows == grid(*self.pixels),
                window == (Window {
                    start_x: start_x_index,
                    start_y: start_y_index,
                    max_x: max_x_index,
                    max_y: max_y_index,
                    max_lines: max_lines as int,
                }),
                max_x_index is None ==> max_y_index is None,
                max_x_index matches Some(last) ==> last < usize::MAX,
                0 <= band <= window.band_count(),
                append_to@ == start + bands_text(rows, window, band),
            ensures
                band == window.band_count(),
            decreases window.band_count() - band,
        {
            let current_line_index = start_y_index.checked_add(relative_line_index);
            let mut current_column_index = start_x_index;
            let mut relative_column_index: usize = 0;
            let ghost line = window.line(band);
            let ghost pixels_in_column = rows_in_band(line, max_y_index);
            let ghost line_length = band_width(
                rows,
                line,
                start_x_index as int,
                max_x_index,
                max_y_index,
            );
            proof {
                if current_line_index is None {
                    lemma_band_width(
                        rows,
                        line,
                        start_x_index as int,
                        max_x_index,
                        max_y_index,
                        0,
                    );
                    assert(rows.len() == self.pixels.len());
                }
            }
            loop
                invariant
                    rows == grid(*self.pixels),
                    line == start_y_index + relative_line_index,
                    current_line_index matches Some(index) ==> index == line,
                    current_line_index is None ==> line_length == 0,
                    pixels_in_column == rows_in_band(line, max_y_index),
                    line_length == band_width(
                        rows,
                        line,
                        start_x_index as int,
                        max_x_index,
                        max_y_index,
                    ),
                    max_x_index is None ==> max_y_index is None,
                    max_x_index matches Some(last) ==> last < usize::MAX,
                    current_column_index == start_x_index + relative_column_index,
                    relative_column_index <= line_length,
                    tracks_so_far(
                        tracks_of(color_index_to_sixel_data_string@),
                        rows,
                        line,
                        pixels_in_column,
                        start_x_index as int,
                        relative_column_index as int,
                    ),
                ensures
                    relative_column_index == line_length,
                decreases line_length - relative_column_index,
            {
                let sixel_column = match current_line_index {
                    Some(current_line_index) => SixelColumn::new(
                        current_line_index,
                        current_column_index,
                        max_x_index,
                        max_y_index,
                        self.pixels,
                    ),
                    None => None,
                };
                proof {
                    lemma_band_width(
                        rows,
                        line,
                        start_x_index as int,
                        max_x_index,
                        max_y_index,
                        relative_column_index as int,
                    );
                    lemma_longest_fits(*self.pixels, line);
                }
                match sixel_column {
                    Some(sixel_column) => {
                        proof {
                            lemma_tracks_step(
                                tracks_of(color_index_to_sixel_data_string@),
                                rows,
                                line,
                                pixels_in_column,
                                start_x_index as int,
                                relative_column_index as int,
                            );
                        }
                        sixel_column.serialize(
                            &mut color_index_to_sixel_data_string,
                            relative_column_index,
                        );
                        current_column_index += 1;
                        relative_column_index += 1;
                    },
                    None => {
                        // end of row
                        break ;
                    },
                }
            }
            match SixelLine::new(relative_line_index, relative_column_index, max_lines) {
                Some(sixel_line) => {
                    proof {
                        lemma_tracks_done(
                            tracks_of(color_index_to_sixel_data_string@),
                            rows,
                            line,
                            pixels_in_column,
                            start_x_index as int,
                            line_length,
                        );
                    }
                    sixel_line.serialize(&mut append_to, &mut color_index_to_sixel_data_string);
                    proof {
                        band = band + 1;
                    }
                    match relative_line_index.checked_add(6) {
                        Some(next_line_index) => {
                            relative_line_index = next_line_index;
                        },
                        None => {
                            break ;
                        },
                    }
                },
                None => {
                    break ;
                },
            }
        }
        append_to
    }

    fn serialize_end_event(&self, append_to: String) -> (appended: String)
        ensures
            appended@ == append_to@ + terminator_text(),
    {
        let mut appended = append_to;
        appended.push('\u{1b}');
        appended.push('\\');
        appended
    }
}

/// One column of a band: for each colour that lights a pixel of the column,
/// the pixels it lights, as a mask of six bits.
pub struct SixelColumn {
    color_index_to_byte: HashMap<u16, u8>,
}

impl View for SixelColumn {
    type V = Map<u16, u8>;

    closed spec fn view(&self) -> Map<u16, u8> {
        self.color_index_to_byte@
    }
}

impl SixelColumn {
    /// What holds of every column: each mask has a bit set and is one of six
    /// bits.
    pub open spec fn wf(&self) -> bool {
        forall|color: u16| #[trigger] self@.contains_key(color) ==> 1 <= self@[color] <= 63
    }

    /// The column at an absolute place of the grid, if the band has a column
    /// there: none past the last column or below the last row wanted, and
    /// none where a whole column of six meets no row of the grid.
    pub fn new(
        absolute_line_index: usize,
        absolute_column_index: usize,
        max_x_index: Option<usize>,
        max_y_index: Option<usize>,
        pixels: &Vec<Vec<Pixel>>,
    ) -> (column: Option<Self>)
        ensures
            column is Some <==> column_present(
                grid(*pixels),
                absolute_line_index as int,
                absolute_column_index as int,
                max_x_index,
                max_y_index,
            ),
            column is Some ==> column->0.wf() && column->0@ == column_masks(
                grid(*pixels),
                absolute_line_index as int,
                absolute_column_index as int,
                rows_in_band(absolute_line_index as int, max_y_index),
            ),
    {
        let mut empty_rows: usize = 0;
        let mut color_index_to_byte: HashMap<u16, u8> = HashMap::new();
        if let Some(max_x_index) = max_x_index {
            if max_x_index < absolute_column_index {
                return None;
            }
        }
        if let Some(max_y_index) = max_y_index {
            if max_y_index < absolute_line_index {
                return None;
            }
        }
        let pixels_in_column: usize = match max_y_index {
            Some(max_y_index) => {
                let below = max_y_index - absolute_line_index;
                if below < 5 {
                    below + 1
                } else {
                    6
                }
            },
            None => 6,
        };
        let ghost rows = grid(*pixels);
        let ghost line = absolute_line_index as int;
        let ghost at = absolute_column_index as int;
        for i in 0..pixels_in_column
            invariant
                pixels_in_column <= 6,
                rows == grid(*pixels),
                line == absolute_line_index,
                at == absolute_column_index,
                empty_rows <= i,
                empty_rows == i <==> forall|row: int|
                    line <= row < line + i ==> cell(rows, row, at) is None,
                forall|color: u16| #[trigger]
                    color_index_to_byte@.contains_key(color) <==> mask(rows, line, at, i as int, color)
                        != 0,
                forall|color: u16| #[trigger]
                    color_index_to_byte@.contains_key(color) ==> color_index_to_byte@[color]
                        == mask(rows, line, at, i as int, color),
        {
            let pixel_at_current_position = Self::pixel_at(
                pixels,
                absolute_line_index.checked_add(i),
                absolute_column_index,
            );
            proof {
                assert(rows.len() == pixels.len());
                assert forall|color: u16| 0 <= #[trigger] mask(rows, line, at, i as int, color)
                    < weight(i as int) by {
                    lemma_mask_bounds(rows, line, at, i as int, color);
                }
            }
            match pixel_at_current_position {
                Some(pixel) => {
                    if pixel.on {
                        let so_far: u8 = match color_index_to_byte.get(&pixel.color) {
                            Some(color_char) => *color_char,
                            None => 0,
                        };
                        let weight = Self::bit(i);
                        color_index_to_byte.insert(pixel.color, so_far + weight);
                    }
                },
                None => {
                    empty_rows += 1;
                },
            }
            proof {
                assert forall|color: u16|
                    mask(rows, line, at, i + 1, color) == mask(rows, line, at, i as int, color)
                        + if pixel_at_current_position == Some(Pixel { on: true, color }) {
                        weight(i as int)
                    } else {
                        0
                    } by {}
            }
        }
        proof {
            assert forall|color: u16| 0 <= #[trigger] mask(
                rows,
                line,
                at,
                pixels_in_column as int,
                color,
            ) < weight(pixels_in_column as int) by {
                lemma_mask_bounds(rows, line, at, pixels_in_column as int, color);
            }
        }
        let row_ended = empty_rows == 6;
        if row_ended {
            None
        } else {
            Some(SixelColumn { color_index_to_byte })
        }
    }

    /// The pixel at a place of the grid, if the grid reaches there. A row
    /// index that the machine cannot count comes as `None`: no grid has such
    /// a row.
    fn pixel_at(pixels: &Vec<Vec<Pixel>>, row_index: Option<usize>, column_index: usize) -> (pixel:
        Option<Pixel>)
        ensures
            row_index matches Some(row) ==> pixel == cell(
                grid(*pixels),
                row as int,
                column_index as int,
            ),
            row_index is None ==> pixel is None,
    {
        match row_index {
            Some(row_index) => {
                if row_index < pixels.len() {
                    let current_line = &pixels[row_index];
                    let length = current_line.len();
                    if column_index < length {
                        Some(current_line[column_index])
                    } else {
                        None
                    }
                } else {
                    None
                }
            },
            None => None,
        }
    }

    /// The weight of pixel `i` of a column.
    fn bit(i: usize) -> (mask: u8)
        requires
            i < 6,
        ensures
            mask == weight(i as int),
    {
        let shift: u8 = i as u8;
        let mask: u8 = 1u8 << shift;
        proof {
            assert(shift < 6 ==> (1u8 << shift) == (if shift == 0 {
                1u8
            } else if shift == 1 {
                2u8
            } else if shift == 2 {
                4u8
            } else if shift == 3 {
                8u8
            } else if shift == 4 {
                16u8
            } else {
                32u8
            })) by (bit_vector);
        }
        mask
    }

    /// Adds the column to the tracks of its band, as the column at place
    /// `current_index` of the band: the track of each colour of the column
    /// is filled up to that place with empty columns and gets the column's
    /// byte.
    pub fn serialize(
        &self,
        color_index_to_character_string: &mut BTreeMap<u16, Vec<u8>>,
        current_index: usize,
    )
        requires
            self.wf(),
        ensures
            tracks_of(final(color_index_to_character_string)@) == with_column(
                tracks_of(old(color_index_to_character_string)@),
                self@,
                current_index as int,
            ),
    {
        let entries = entries_of(&self.color_index_to_byte);
        let ghost before = tracks_of(color_index_to_character_string@);
        let ghost mut added: Map<u16, u8> = Map::empty();
        for i in 0..entries.len()
            invariant
                self.wf(),
                lists_entries(entries@, self@),
                tracks_of(color_index_to_character_string@) == with_column(
                    before,
                    added,
                    current_index as int,
                ),
                forall|j: int|
                    0 <= j < i ==> added.contains_key((#[trigger] entries@[j]).0)
                        && added[entries@[j].0] == entries@[j].1,
                forall|j: int|
                    i <= j < entries@.len() ==> !added.contains_key((#[trigger] entries@[j]).0),
                forall|color: u16| #[trigger]
                    added.contains_key(color) ==> self@.contains_key(color) && added[color]
                        == self@[color],
        {
            let entry = entries[i];
            let color_index = entry.0;
            let char_representation = entry.1;
            let ghost tracks = color_index_to_character_string@;
            assert(tracks_of(tracks).contains_key(color_index) <==> before.contains_key(
                color_index,
            ));
            assert(before.contains_key(color_index) ==> tracks_of(tracks)[color_index]
                == before[color_index]);
            let mut color_chars = match color_index_to_character_string.remove(&color_index) {
                Some(color_chars) => color_chars,
                None => Vec::new(),
            };
            SixelLine::pad_sixel_string(&mut color_chars, current_index);
            color_chars.push(char_representation + 0x3f);
            color_index_to_character_string.insert(color_index, color_chars);
            proof {
                let earlier = added;
                added = added.insert(color_index, char_representation);
                let now = tracks_of(color_index_to_character_string@);
                let goal = with_column(before, added, current_index as int);
                assert forall|color: u16| now.contains_key(color) <==> goal.contains_key(
                    color,
                ) by {
                    assert(tracks_of(tracks).contains_key(color) <==> before.contains_key(color)
                        || earlier.contains_key(color));
                }
                assert forall|color: u16| now.contains_key(color) implies now[color]
                    == goal[color] by {
                    if color != color_index {
                        assert(now[color] == tracks_of(tracks)[color]);
                    }
                }
            }
        }
    }
}

/// The end of a band: where it stands among the bands, and how many columns
/// it has.
pub struct SixelLine {
    relative_line_index: usize,  // line index inside cropped selection, or as part of total if not cropping
    line_length: usize,
}

impl SixelLine {
    /// The top row of the band, counted from the first row that is encoded.
    pub closed spec fn relative_line_index(&self) -> usize {
        self.relative_line_index
    }

    /// How many columns the band has.
    pub closed spec fn line_length(&self) -> usize {
        self.line_length
    }

    /// The band that starts at `relative_line_index` and has
    /// `relative_column_index` columns, if that row is still among the
    /// `max_lines` that are encoded.
    pub fn new(relative_line_index: usize, relative_column_index: usize, max_lines: usize) -> (line:
        Option<Self>)
        ensures
            line is Some <==> relative_line_index < max_lines,
            line is Some ==> line->0.relative_line_index() == relative_line_index
                && line->0.line_length() == relative_column_index,
    {
        if relative_line_index >= max_lines {
            None
        } else {
            Some(SixelLine { relative_line_index, line_length: relative_column_index })
        }
    }

    /// Writes the band: `-` unless it is the first, then each track in
    /// ascending order of its colour, filled up to the band's length. The
    /// tracks are taken: the map is empty afterwards.
    #[verifier::rlimit(30)]
    pub fn serialize(
        &self,
        append_to: &mut String,
        color_index_to_character_string: &mut BTreeMap<u16, Vec<u8>>,
    )
        ensures
            final(append_to)@ == old(append_to)@ + (if self.relative_line_index() != 0 {
                seq!['-']
            } else {
                Seq::<char>::empty()
            }) + tracks_text(
                all_filled(
                    tracks_of(old(color_index_to_character_string)@),
                    self.line_length() as int,
                ),
            ),
            final(color_index_to_character_string)@ == Map::<u16, Vec<u8>>::empty(),
    {
        let mut is_first = true;
        if self.relative_line_index != 0 {
            append_to.push('-');
        }
        let ghost start = append_to@;
        let ghost tracks = all_filled(
            tracks_of(color_index_to_character_string@),
            self.line_length as int,
        );
        let ghost pieces = track_pieces(tracks);
        let colors = ascending_keys(color_index_to_character_string);
        for i in 0..colors.len()
            invariant
                lists_keys(colors@, old(color_index_to_character_string)@.dom()),
                pieces.dom() == old(color_index_to_character_string)@.dom(),
                tracks == all_filled(
                    tracks_of(old(color_index_to_character_string)@),
                    self.line_length as int,
                ),
                pieces == track_pieces(tracks),
                is_first <==> i == 0,
                forall|j: int|
                    i <= j < colors@.len() ==> color_index_to_character_string@.contains_key(
                        #[trigger] colors@[j],
                    ) && color_index_to_character_string@[colors@[j]] == old(
                        color_index_to_character_string,
                    )@[colors@[j]],
                append_to@ == start + joined(pieces, reached(colors@, i as int)),
        {
            let color_index = colors[i];
            proof {
                lemma_joined_next(pieces, colors@, i as int);
                // the track is the first of its band exactly when its colour
                // is the first of the list
                assert(leads(tracks, color_index) <==> i == 0) by {
                    if i == 0 {
                        assert forall|other: u16| other < color_index implies !tracks.contains_key(
                            other,
                        ) by {
                            if tracks.contains_key(other) {
                                assert(colors@.contains(other));
                                let j = choose|j: int| 0 <= j < colors@.len() && colors@[j] == other;
                                assert(j > 0 ==> colors@[0] < colors@[j]);
                            }
                        }
                    } else {
                        assert(colors@[0] < colors@[i as int]);
                        assert(tracks.contains_key(colors@[0]));
                    }
                }
            }
            match color_index_to_character_string.remove(&color_index) {
                Some(sixel_chars) => {
                    let mut sixel_chars = sixel_chars;
                    if !is_first {
                        append_to.push('$');
                    }
                    is_first = false;
                    Self::pad_sixel_string(&mut sixel_chars, self.line_length);
                    Self::serialize_color_introducer(append_to, color_index);
                    Self::group_identical_characters(append_to, &sixel_chars);
                },
                None => {},
            }
        }
        proof {
            lemma_joined_all(pieces, colors@);
        }
        color_index_to_character_string.clear();
    }

    /// Writes `character_occurrences` times `character`: in short form from
    /// three on, where it is no longer than the characters themselves.
    fn serialize_one_or_more_sixel_characters(
        append_to: &mut String,
        character_occurrences: usize,
        character: char,
    )
        ensures
            final(append_to)@ == old(append_to)@ + run_text(
                character_occurrences as nat,
                character,
            ),
    {
        if character_occurrences > 2 {
            append_to.push('!');
            push_decimal(append_to, character_occurrences);
            append_to.push(character);
        } else {
            for written in 0..character_occurrences
                invariant
                    append_to@ == old(append_to)@ + Seq::new(written as nat, |i: int| character),
            {
                append_to.push(character);
            }
        }
    }

    /// Writes a track in run-length form.
    fn group_identical_characters(append_to: &mut String, sixel_chars: &Vec<u8>)
        ensures
            final(append_to)@ == old(append_to)@ + compressed(sixel_chars@),
    {
        let mut current_character: Option<u8> = None;
        let mut current_character_occurrences: usize = 0;
        let ghost track = sixel_chars@;
        for i in 0..sixel_chars.len()
            invariant
                track == sixel_chars@,
                current_character_occurrences <= i,
                current_character is None <==> i == 0,
                i > 0 ==> current_character_occurrences >= 1 && current_character == Some(
                    track[i - current_character_occurrences],
                ),
                forall|j: int|
                    i - current_character_occurrences <= j < i ==> #[trigger] track[j] == track[i
                        - current_character_occurrences],
                append_to@ + compressed_from(track, i - current_character_occurrences) == old(
                    append_to,
                )@ + compressed(track),
        {
            let character = sixel_chars[i];
            match current_character {
                None => {
                    current_character = Some(character);
                    current_character_occurrences = 1;
                },
                Some(current) => {
                    if current == character {
                        current_character_occurrences += 1;
                    } else {
                        let ghost run_start = i - current_character_occurrences;
                        proof {
                            lemma_run_length_is(
                                track,
                                run_start,
                                current_character_occurrences as int,
                            );
                        }
                        Self::serialize_one_or_more_sixel_characters(
                            append_to,
                            current_character_occurrences,
                            current as char,
                        );
                        current_character_occurrences = 1;
                        current_character = Some(character);
                    }
                },
            }
        }
        match current_character {
            Some(current) => {
                let ghost run_start = sixel_chars.len() - current_character_occurrences;
                proof {
                    lemma_run_length_is(track, run_start, current_character_occurrences as int);
                }
                Self::serialize_one_or_more_sixel_characters(
                    append_to,
                    current_character_occurrences,
                    current as char,
                );
                proof {
                    assert(compressed_from(track, track.len() as int) =~= Seq::<char>::empty());
                }
            },
            None => {},
        }
    }

    /// Writes the selector of a colour: `#` and its number.
    fn serialize_color_introducer(append_to: &mut String, color_index: u16)
        ensures
            final(append_to)@ == old(append_to)@ + seq!['#'] + decimal(color_index as nat),
    {
        append_to.push('#');
        push_decimal(append_to, color_index as usize);
    }

    /// Fills a track up to `desired_length` with the byte of an empty column.
    fn pad_sixel_string(sixel_chars: &mut Vec<u8>, desired_length: usize)
        ensures
            final(sixel_chars)@ == filled(old(sixel_chars)@, desired_length as int),
    {
        let length = sixel_chars.len();
        if length < desired_length {
            for at in length..desired_length
                invariant
                    length == old(sixel_chars)@.len(),
                    length <= at,
                    sixel_chars@ == old(sixel_chars)@ + Seq::new(
                        (at - length) as nat,
                        |k: int| EMPTY_COLUMN,
                    ),
            {
                sixel_chars.push(EMPTY_COLUMN);
            }
        }
    }
}

} // verus!
