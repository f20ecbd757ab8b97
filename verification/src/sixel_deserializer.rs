//! The decoder: a state machine that takes the events of a sixel stream one
//! by one and builds the pixel grid and the table of colour registers.

use std::collections::BTreeMap;
use vstd::prelude::*;
use crate::decoding::DecoderState;
use crate::decoding::filler;
use crate::decoding::lemma_left_by_error;
use crate::decoding::lemma_run_concat;
use crate::decoding::pad_columns;
use crate::decoding::pad_rows;
use crate::decoding::with_rows;
use crate::decoding::write_band;
use crate::decoding::write_run;
use crate::event::Event;
use crate::notation::bit_is_set;
use crate::Pixel;
use crate::raster::grid;
use crate::SixelColor;
use crate::SixelImage;

verus! {

/// The decoder. Feed it the events of a stream in order with
/// [`handle_event`](SixelDeserializer::handle_event), then take the image
/// with [`create_image`](SixelDeserializer::create_image).
#[derive(Debug, Clone)]
pub struct SixelDeserializer {
    color_registers: BTreeMap<u16, SixelColor>,
    current_color: u16,
    sixel_cursor_y: usize,
    sixel_cursor_x: usize,
    pixels: Vec<Vec<Pixel>>,
    max_height: Option<usize>,
    stop_parsing: bool,
    got_dcs: bool,
    transparent_background: bool,
}

impl View for SixelDeserializer {
    type V = DecoderState;

    closed spec fn view(&self) -> DecoderState {
        DecoderState {
            color_registers: self.color_registers@,
            current_color: self.current_color,
            cursor_y: self.sixel_cursor_y,
            cursor_x: self.sixel_cursor_x,
            pixels: grid(self.pixels),
            max_height: self.max_height,
            stop_parsing: self.stop_parsing,
            got_dcs: self.got_dcs,
            transparent_background: self.transparent_background,
        }
    }
}

impl SixelDeserializer {
    /// A decoder that has seen nothing yet.
    pub fn new() -> (deserializer: Self)
        ensures
            deserializer@ == DecoderState::initial(),
            deserializer@.wf(),
    {
        let mut pixels: Vec<Vec<Pixel>> = Vec::new();
        pixels.push(Vec::new());  // start with one empty line
        proof {
            assert(grid(pixels) =~= seq![Seq::<Pixel>::empty()]);
        }
        SixelDeserializer {
            color_registers: BTreeMap::new(),
            current_color: 0,
            sixel_cursor_y: 0,
            sixel_cursor_x: 0,
            pixels,
            max_height: None,
            stop_parsing: false,
            got_dcs: false,
            transparent_background: false,
        }
    }

    /// Sets the height in pixels past which nothing is decoded.
    pub fn max_height(self, max_height: usize) -> (deserializer: Self)
        ensures
            deserializer@ == (DecoderState { max_height: Some(max_height), ..self@ }),
    {
        let mut deserializer = self;
        deserializer.max_height = Some(max_height);
        deserializer
    }

    /// Ends decoding and hands out the image: the grid and the registers as
    /// they stand. Fails where no introducer was seen.
    pub fn create_image(self) -> (image: Result<SixelImage, &'static str>)
        ensures
            self@.got_dcs ==> image is Ok && image->Ok_0.rows() == self@.pixels
                && image->Ok_0.registers() == self@.color_registers,
            !self@.got_dcs ==> image is Err && image->Err_0@ == self@.complaint(),
    {
        if !self.got_dcs {
            return Err("Corrupted image sequence");
        }
        Ok(SixelImage { pixels: self.pixels, color_registers: self.color_registers })
    }

    /// Takes one event of the stream and changes the state to match.
    ///
    /// An error leaves the state as it was.
    pub fn handle_event(&mut self, event: Event) -> (result: Result<(), &'static str>)
        requires
            old(self)@.wf(),
        ensures
            final(self)@.wf(),
            result is Err <==> old(self)@.rejects(event),
            result is Err ==> final(self)@ == old(self)@,
            result is Ok ==> final(self)@ == old(self)@.after(event),
            result is Err ==> result->Err_0@ == old(self)@.complaint(),
    {
        if !self.got_dcs && !matches!(event, Event::Dcs { .. }) {
            return Err("Corrupted image sequence");
        }
        if self.stop_parsing {
            return Ok(());
        }
        match event {
            Event::ColorIntroducer { color_coordinate_system, color_number } => {
                match color_coordinate_system {
                    Some(color_coordinate_system) => {
                        // define a color in a register
                        let color = SixelColor::from(color_coordinate_system);
                        self.color_registers.insert(color_number, color);
                    },
                    None => {
                        // switch to register number
                        self.current_color = color_number;
                    },
                }
            },
            Event::RasterAttribute { pan: _, pad: _, ph, pv } => {
                // pan and pad are not used
                if !self.transparent_background {
                    if let Some(pv) = pv {
                        self.pad_lines_vertically(pv);
                    }
                    if let Some(ph) = ph {
                        self.pad_lines_horizontally(ph);
                    }
                }
            },
            Event::Data { byte } => {
                self.make_sure_six_lines_exist_after_cursor();
                self.add_sixel_byte(byte, 1);
                self.sixel_cursor_x = self.sixel_cursor_x.saturating_add(1);
            },
            Event::Repeat { repeat_count, byte_to_repeat } => {
                if repeat_count > 0 {
                    self.make_sure_six_lines_exist_after_cursor();
                    self.add_sixel_byte(byte_to_repeat, repeat_count);
                    self.sixel_cursor_x = self.sixel_cursor_x.saturating_add(repeat_count);
                }
            },
            Event::Dcs {
                macro_parameter: _,
                transparent_background,
                horizontal_pixel_distance: _,
            } => {
                self.got_dcs = true;
                if let Some(flag) = transparent_background {
                    if flag == 1 {
                        self.transparent_background = true;
                    }
                }
            },
            Event::GotoBeginningOfLine => {
                self.sixel_cursor_x = 0;
            },
            Event::GotoNextLine => {
                let limit = match self.max_height {
                    Some(max_height) => max_height,
                    None => usize::MAX,
                };
                // 12: the cursor moves to the top of the next band, and that
                // band is six rows high
                if limit < 12 || self.sixel_cursor_y > limit - 12 {
                    self.stop_parsing = true;
                    return Ok(());
                }
                self.sixel_cursor_y += 6;
                self.sixel_cursor_x = 0;
            },
            Event::UnknownSequence(_) => {
                return Err("Corrupted Sixel sequence");
            },
            Event::End => {},
        }
        Ok(())
    }

    /// Takes the events of a stream in order, up to the first that is an
    /// error. The error leaves the state as the events before it made it.
    pub fn handle_events(&mut self, events: &[Event]) -> (result: Result<(), &'static str>)
        requires
            old(self)@.wf(),
        ensures
            final(self)@.wf(),
            match old(self)@.run(events@) {
                Some(state) => result is Ok && final(self)@ == state,
                None => result is Err,
            },
            final(self)@ == old(self)@.left_by(events@),
            result is Err ==> result->Err_0@ == (if events@[0] is Dcs {
                "Corrupted Sixel sequence"@
            } else {
                old(self)@.complaint()
            }),
    {
        for i in 0..events.len()
            invariant
                self@.wf(),
                old(self)@.wf(),
                old(self)@.run(events@.take(i as int)) == Some(self@),
                self@.got_dcs <==> old(self)@.got_dcs || (i > 0 && events@[0] is Dcs),
        {
            proof {
                assert(events@.take(i + 1).drop_last() =~= events@.take(i as int));
            }
            let handled = self.handle_event(events[i]);
            if let Err(message) = handled {
                proof {
                    lemma_run_concat(old(self)@, events@.take(i + 1), events@.skip(i + 1));
                    lemma_left_by_error(old(self)@, events@.take(i + 1), events@.skip(i + 1));
                    assert(events@.take(i + 1) + events@.skip(i + 1) =~= events@);
                }
                return Err(message);
            }
        }
        proof {
            assert(events@.take(events@.len() as int) =~= events@);
        }
        Ok(())
    }

    fn make_sure_six_lines_exist_after_cursor(&mut self)
        requires
            old(self)@.cursor_y + 6 <= usize::MAX,
        ensures
            final(self)@ == (DecoderState {
                pixels: with_rows(old(self)@.pixels, old(self)@.cursor_y + 6),
                ..old(self)@
            }),
    {
        let lines_to_add = (self.sixel_cursor_y + 6).saturating_sub(self.pixels.len());
        let ghost before = self.pixels;
        for added in 0..lines_to_add
            invariant
                self.pixels.len() == before.len() + added,
                forall|r: int| 0 <= r < before.len() ==> self.pixels[r] == before[r],
                forall|r: int| before.len() <= r < self.pixels.len() ==> self.pixels[r]@.len() == 0,
                self@ == (DecoderState { pixels: grid(self.pixels), ..old(self)@ }),
        {
            self.pixels.push(Vec::new());
        }
        proof {
            assert(grid(self.pixels) =~= with_rows(grid(before), self.sixel_cursor_y + 6)) by {
                assert forall|r: int| 0 <= r < self.pixels.len() implies grid(self.pixels)[r]
                    == with_rows(grid(before), self.sixel_cursor_y + 6)[r] by {}
            }
        }
    }

    fn add_sixel_byte(&mut self, byte: u8, repeat_count: usize)
        requires
            old(self)@.cursor_y + 6 <= old(self)@.pixels.len(),
        ensures
            final(self)@ == (DecoderState {
                pixels: write_band(
                    old(self)@.pixels,
                    old(self)@.cursor_y as int,
                    old(self)@.cursor_x as int,
                    repeat_count as int,
                    byte,
                    old(self)@.current_color,
                ),
                ..old(self)@
            }),
    {
        let ghost before = self.pixels;
        let ghost y = self.sixel_cursor_y;
        let ghost x = self.sixel_cursor_x;
        let ghost color = self.current_color;
        let mut bits = SixelPixelIterator::new(byte);
        let mut pixel_line_index_in_sixel: usize = 0;
        loop
            invariant
                bits.byte() == byte,
                bits.position() == pixel_line_index_in_sixel,
                pixel_line_index_in_sixel <= 6,
                y == self.sixel_cursor_y,
                x == self.sixel_cursor_x,
                color == self.current_color,
                y + 6 <= before.len(),
                self.pixels.len() == before.len(),
                self@ == (DecoderState { pixels: grid(self.pixels), ..old(self)@ }),
                forall|r: int|
                    0 <= r < before.len() ==> (#[trigger] self.pixels[r])@ == if y <= r < y
                        + pixel_line_index_in_sixel {
                        write_run(
                            before[r]@,
                            x as int,
                            repeat_count as int,
                            bit_is_set(byte, r - y),
                            color,
                        )
                    } else {
                        before[r]@
                    },
            ensures
                pixel_line_index_in_sixel == 6,
                self.pixels.len() == before.len(),
                self@ == (DecoderState { pixels: grid(self.pixels), ..old(self)@ }),
                forall|r: int|
                    0 <= r < before.len() ==> (#[trigger] self.pixels[r])@ == if y <= r < y + 6 {
                        write_run(
                            before[r]@,
                            x as int,
                            repeat_count as int,
                            bit_is_set(byte, r - y),
                            color,
                        )
                    } else {
                        before[r]@
                    },
            decreases 6 - pixel_line_index_in_sixel,
        {
            match bits.next() {
                Some(bit) => {
                    let new_pixel = Pixel { on: bit, color: self.current_color };
                    let line_index = self.sixel_cursor_y + pixel_line_index_in_sixel;
                    Self::write_pixels(
                        &mut self.pixels[line_index],
                        self.sixel_cursor_x,
                        repeat_count,
                        new_pixel,
                    );
                    pixel_line_index_in_sixel += 1;
                },
                None => {
                    break ;
                },
            }
        }
        proof {
            assert(grid(self.pixels) =~= write_band(
                grid(before),
                y as int,
                x as int,
                repeat_count as int,
                byte,
                color,
            ));
        }
    }

    /// Writes `pixel` at the `repeat_count` positions from `x` on: over a
    /// pixel that is there if `pixel` is lit, at the end of the row for each
    /// position past it.
    fn write_pixels(current_line: &mut Vec<Pixel>, x: usize, repeat_count: usize, pixel: Pixel)
        ensures
            final(current_line)@ == write_run(
                old(current_line)@,
                x as int,
                repeat_count as int,
                pixel.on,
                pixel.color,
            ),
    {
        let ghost row = current_line@;
        for i in 0..repeat_count
            invariant
                current_line@ == write_run(row, x as int, i as int, pixel.on, pixel.color),
        {
            let length = current_line.len();
            let in_line = match x.checked_add(i) {
                Some(position) => position < length,
                None => false,
            };
            if in_line {
                if pixel.on {
                    current_line.set(x + i, pixel);
                }
                // the bit is off and a pixel is there already: nothing to do
            } else {
                current_line.push(pixel);
            }
        }
    }

    fn pad_lines_vertically(&mut self, pad_until: usize)
        ensures
            final(self)@ == (DecoderState {
                pixels: pad_rows(
                    old(self)@.pixels,
                    pad_until as int,
                    old(self)@.current_color,
                ),
                ..old(self)@
            }),
    {
        let empty_pixel = Pixel { on: true, color: self.current_color };
        let ghost before = self.pixels;
        if self.pixels.len() < pad_until {
            let lines_to_pad = pad_until - self.pixels.len();
            for added in 0..lines_to_pad
                invariant
                    self.pixels.len() == before.len() + added,
                    forall|r: int| 0 <= r < before.len() ==> self.pixels[r] == before[r],
                    forall|r: int|
                        before.len() <= r < self.pixels.len() ==> (#[trigger] self.pixels[r])@
                            == filler(pad_until as int, empty_pixel),
                    self@ == (DecoderState { pixels: grid(self.pixels), ..old(self)@ }),
            {
                let mut empty_line: Vec<Pixel> = Vec::new();
                for filled in 0..pad_until
                    invariant
                        empty_line@ == filler(filled as int, empty_pixel),
                {
                    empty_line.push(empty_pixel);
                }
                self.pixels.push(empty_line);
            }
        }
        proof {
            assert(grid(self.pixels) =~= pad_rows(
                grid(before),
                pad_until as int,
                self.current_color,
            ));
        }
    }

    fn pad_lines_horizontally(&mut self, pad_until: usize)
        ensures
            final(self)@ == (DecoderState {
                pixels: pad_columns(
                    old(self)@.pixels,
                    pad_until as int,
                    old(self)@.current_color,
                ),
                ..old(self)@
            }),
    {
        let empty_pixel = Pixel { on: true, color: self.current_color };
        let ghost before = self.pixels;
        let height = self.pixels.len();
        for line_index in 0..height
            invariant
                height == before.len(),
                self.pixels.len() == before.len(),
                self@ == (DecoderState { pixels: grid(self.pixels), ..old(self)@ }),
                forall|r: int|
                    0 <= r < before.len() ==> (#[trigger] self.pixels[r])@ == if r < line_index {
                        before[r]@ + filler(pad_until - before[r]@.len(), empty_pixel)
                    } else {
                        before[r]@
                    },
        {
            Self::pad_line(&mut self.pixels[line_index], pad_until, empty_pixel);
        }
        proof {
            assert(grid(self.pixels) =~= pad_columns(
                grid(before),
                pad_until as int,
                self.current_color,
            ));
        }
    }

    /// Fills a row up to `pad_until` pixels with `pixel`.
    fn pad_line(pixel_line: &mut Vec<Pixel>, pad_until: usize, pixel: Pixel)
        ensures
            final(pixel_line)@ == old(pixel_line)@ + filler(
                pad_until - old(pixel_line)@.len(),
                pixel,
            ),
    {
        let ghost row = pixel_line@;
        if pixel_line.len() < pad_until {
            let pixel_count_to_pad = pad_until - pixel_line.len();
            for added in 0..pixel_count_to_pad
                invariant
                    pixel_count_to_pad == pad_until - row.len(),
                    pixel_line@ == row + filler(added as int, pixel),
            {
                pixel_line.push(pixel);
            }
        }
    }
}

/// The six pixels of one column, handed out from the top one down.
#[derive(Debug, Clone, Copy)]
pub struct SixelPixelIterator {
    sixel_byte: u8,
    current_mask: u8,
}

impl SixelPixelIterator {
    /// The byte this iterator was made from.
    pub closed spec fn byte(&self) -> u8 {
        self.sixel_byte
    }

    /// How many of the six pixels were handed out.
    pub closed spec fn position(&self) -> int {
        if self.current_mask == 1 {
            0
        } else if self.current_mask == 2 {
            1
        } else if self.current_mask == 4 {
            2
        } else if self.current_mask == 8 {
            3
        } else if self.current_mask == 16 {
            4
        } else if self.current_mask == 32 {
            5
        } else {
            6
        }
    }

    /// The pixels of the column `sixel_byte`, a raw data byte.
    pub fn new(sixel_byte: u8) -> (iterator: Self)
        ensures
            iterator.byte() == sixel_byte,
            iterator.position() == 0,
    {
        SixelPixelIterator { sixel_byte, current_mask: 1 }
    }

    /// The next pixel down, lit or not; `None` once all six were handed out.
    pub fn next(&mut self) -> (bit: Option<bool>)
        ensures
            final(self).byte() == old(self).byte(),
            old(self).position() < 6 ==> bit == Some(
                bit_is_set(old(self).byte(), old(self).position()),
            ) && final(self).position() == old(self).position() + 1,
            old(self).position() >= 6 ==> bit is None && final(self).position() == 6,
    {
        let mask = self.current_mask;
        if mask == 1 || mask == 2 || mask == 4 || mask == 8 || mask == 16 || mask == 32 {
            let lowered: u8 = if self.sixel_byte >= 63 {
                self.sixel_byte - 63
            } else {
                0
            };
            let bit = lowered & mask == mask;
            proof {
                let m = mask;
                let p = lowered;
                assert(m == 1 ==> ((p & m == m) <==> (p / 1) % 2 == 1)) by (bit_vector);
                assert(m == 2 ==> ((p & m == m) <==> (p / 2) % 2 == 1)) by (bit_vector);
                assert(m == 4 ==> ((p & m == m) <==> (p / 4) % 2 == 1)) by (bit_vector);
                assert(m == 8 ==> ((p & m == m) <==> (p / 8) % 2 == 1)) by (bit_vector);
                assert(m == 16 ==> ((p & m == m) <==> (p / 16) % 2 == 1)) by (bit_vector);
                assert(m == 32 ==> ((p & m == m) <==> (p / 32) % 2 == 1)) by (bit_vector);
            }
            self.current_mask = mask + mask;
            Some(bit)
        } else {
            self.current_mask = 64;
            None
        }
    }
}

} // verus!
