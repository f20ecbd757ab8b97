//! Decoding, editing and re-encoding of sixel images.
//!
//! A sixel stream is decoded into a [`SixelImage`]: a grid of pixels, each
//! either off or lit in the colour of a register, and the table of colour
//! registers. The image can be written back as a canonical stream, whole or
//! cropped to a rectangle, and a rectangle of it can be erased in place.

use std::collections::BTreeMap;
use vstd::prelude::*;
use crate::decoding::color_of;
use crate::decoding::decoded;
use crate::decoding::lemma_run_begins;
use crate::decoding::lemma_run_concat;
use crate::decoding::start;
use crate::encoding::image_text;
use crate::encoding::Window;
use crate::notation::decimal;
use crate::notation::push_decimal;
use crate::raster::grid;
use crate::tokenizer::tokens;
use crate::tokenizer::Tokenizer;

pub mod canonical;
pub mod decoding;
pub mod encoding;
pub mod event;
pub mod notation;
pub mod ordered;
pub mod raster;
pub mod sixel_deserializer;
pub mod sixel_serializer;
pub mod tokenizer;

pub use event::ColorCoordinates;
pub use event::Event;
pub use sixel_deserializer::SixelDeserializer;
pub use sixel_deserializer::SixelPixelIterator;
pub use sixel_serializer::SixelColumn;
pub use sixel_serializer::SixelLine;
pub use sixel_serializer::SixelSerializer;

verus! {

/// One cell of the grid: lit or not, and the register it is drawn in.
#[derive(Clone, Copy, Debug, PartialEq, Eq, Structural)]
pub struct Pixel {
    pub on: bool,
    pub color: u16,
}

impl Pixel {
    /// A lit pixel in the colour of register `color`.
    pub fn new(color: u16) -> (pixel: Pixel)
        ensures
            pixel == (Pixel { on: true, color }),
    {
        Pixel { on: true, color }
    }

    /// The pixel as a dump of the grid shows it: the number of its register
    /// where it is lit, `x` where it is not.
    pub fn label(&self) -> (text: String)
        ensures
            text@ == if self.on {
                decimal(self.color as nat)
            } else {
                seq!['x']
            },
    {
        let mut text = String::new();
        if self.on {
            push_decimal(&mut text, self.color as usize);
        } else {
            text.push('x');
        }
        text
    }
}

/// What a colour register holds, as the stream gave it.
#[derive(Debug, Clone, Copy, PartialEq, Eq, Hash, Structural)]
pub enum SixelColor {
    /// Red, green, blue: each 0 to 100.
    Rgb(u8, u8, u8),
    /// Hue 0 to 360, saturation and lightness 0 to 100.
    Hsl(u16, u8, u8),
}

impl From<ColorCoordinates> for SixelColor {
    /// The colour as the stream gave it, each number cut to the width of
    /// its field.
    fn from(item: ColorCoordinates) -> (color: Self) {
        match item {
            ColorCoordinates::Hls(x, y, z) => SixelColor::Hsl(
                (x % 65536) as u16,
                (y % 256) as u8,
                (z % 256) as u8,
            ),
            ColorCoordinates::Rgb(x, y, z) => SixelColor::Rgb(
                (x % 256) as u8,
                (y % 256) as u8,
                (z % 256) as u8,
            ),
        }
    }
}

impl vstd::std_specs::convert::FromSpecImpl<ColorCoordinates> for SixelColor {
    open spec fn obeys_from_spec() -> bool {
        true
    }

    open spec fn from_spec(item: ColorCoordinates) -> SixelColor {
        color_of(item)
    }
}

/// A decoded image: the pixel grid and the colour registers.
#[derive(Debug, Clone)]
pub struct SixelImage {
    pub(crate) color_registers: BTreeMap<u16, SixelColor>,
    pub(crate) pixels: Vec<Vec<Pixel>>,
}

/// Whether the tokens of `input`, or of some beginning of it, hold an
/// error for a new decoder.
pub open spec fn fails(input: Seq<u8>, max_height: Option<usize>) -> bool {
    exists|n: int|
        0 <= n <= input.len() && start(max_height).run(#[trigger] tokens(input.take(n))) is None
}

/// Whether the first `n` bytes of `input` are the shortest beginning of it
/// whose tokens hold an error for a new decoder.
pub open spec fn fails_first_at(input: Seq<u8>, max_height: Option<usize>, n: int) -> bool {
    &&& 0 <= n <= input.len()
    &&& start(max_height).run(tokens(input.take(n))) is None
    &&& forall|m: int| 0 <= m < n ==> start(max_height).run(#[trigger] tokens(input.take(m))) is Some
}

/// What is said of a stream that does not decode: one thing where its first
/// token is the introducer and the error came later, another where it is
/// not, or where there is no token at all.
pub open spec fn complaint(input: Seq<u8>, max_height: Option<usize>) -> Seq<char> {
    let n = choose|n: int| fails_first_at(input, max_height, n);
    if fails(input, max_height) && tokens(input.take(n))[0] is Dcs {
        "Corrupted Sixel sequence"@
    } else {
        "Corrupted image sequence"@
    }
}

/// The grid with the pixels of a rectangle put out: those in the `height`
/// rows from row `y` on and in the `width` columns from column `x` on, as
/// far as the grid has them. A pixel keeps its colour.
pub open spec fn erased(pixels: Seq<Seq<Pixel>>, x: int, y: int, width: int, height: int) -> Seq<
    Seq<Pixel>,
> {
    Seq::new(
        pixels.len(),
        |r: int|
            Seq::new(
                pixels[r].len(),
                |c: int|
                    if y <= r < y + height && x <= c < x + width {
                        Pixel { on: false, color: pixels[r][c].color }
                    } else {
                        pixels[r][c]
                    },
            ),
    )
}

/// Erasing a rectangle puts out every pixel of it that the grid has, and
/// changes nothing else: no row is added or made longer, no pixel outside
/// the rectangle changes, and no pixel changes its colour.
pub proof fn lemma_erased(pixels: Seq<Seq<Pixel>>, x: int, y: int, width: int, height: int)
    ensures
        erased(pixels, x, y, width, height).len() == pixels.len(),
        forall|r: int|
            0 <= r < pixels.len() ==> (#[trigger] erased(pixels, x, y, width, height)[r]).len()
                == pixels[r].len(),
        forall|r: int, c: int|
            0 <= r < pixels.len() && 0 <= c < pixels[r].len() ==> {
                let pixel = #[trigger] erased(pixels, x, y, width, height)[r][c];
                &&& pixel.color == pixels[r][c].color
                &&& y <= r < y + height && x <= c < x + width ==> !pixel.on
                &&& !(y <= r < y + height && x <= c < x + width) ==> pixel == pixels[r][c]
            },
{
}

impl SixelImage {
    /// The colour registers, by number.
    pub closed spec fn registers(&self) -> Map<u16, SixelColor> {
        self.color_registers@
    }

    /// The grid, row by row. Rows differ in length.
    pub closed spec fn rows(&self) -> Seq<Seq<Pixel>> {
        grid(self.pixels)
    }

    /// Decodes a sixel stream that is there as a whole.
    ///
    /// Fails where the stream does not begin with the introducer, and where
    /// it holds bytes that form no token.
    pub fn new(bytes: &[u8]) -> (image: Result<Self, &'static str>)
        ensures
            image is Err <==> fails(bytes@, None) || decoded(tokens(bytes@), None) is None,
            image matches Ok(image) ==> decoded(tokens(bytes@), None) matches Some(state)
                && image.rows() == state.pixels && image.registers() == state.color_registers,
            image matches Err(message) ==> message@ == complaint(bytes@, None),
    {
        Self::decode(bytes, SixelDeserializer::new())
    }

    /// Decodes a sixel stream up to a height of `max_height` pixels: no band
    /// is begun that would end below it.
    pub fn new_with_max_height(bytes: &[u8], max_height: usize) -> (image: Result<
        Self,
        &'static str,
    >)
        ensures
            image is Err <==> fails(bytes@, Some(max_height)) || decoded(
                tokens(bytes@),
                Some(max_height),
            ) is None,
            image matches Ok(image) ==> decoded(tokens(bytes@), Some(max_height)) matches Some(
                state,
            ) && image.rows() == state.pixels && image.registers() == state.color_registers,
            image matches Err(message) ==> message@ == complaint(bytes@, Some(max_height)),
    {
        Self::decode(bytes, SixelDeserializer::new().max_height(max_height))
    }

    /// Gives the bytes to the tokenizer one by one and the events that come
    /// out to the decoder, up to the first error.
    fn decode(bytes: &[u8], fresh: SixelDeserializer) -> (image: Result<
        Self,
        &'static str,
    >)
        requires
            fresh@ == start(fresh@.max_height),
        ensures
            image is Err <==> fails(bytes@, fresh@.max_height) || decoded(
                tokens(bytes@),
                fresh@.max_height,
            ) is None,
            image matches Ok(image) ==> decoded(
                tokens(bytes@),
                fresh@.max_height,
            ) matches Some(state) && image.rows() == state.pixels && image.registers()
                == state.color_registers,
            image matches Err(message) ==> message@ == complaint(bytes@, fresh@.max_height),
    {
        let ghost max_height = fresh@.max_height;
        let ghost begin = start(max_height);
        let mut sixel_deserializer = fresh;
        let mut tokenizer = Tokenizer::new();
        proof {
            assert(bytes@.take(0) =~= Seq::<u8>::empty());
        }
        for i in 0..bytes.len()
            invariant
                max_height == fresh@.max_height,
                begin == start(max_height),
                begin.wf(),
                tokenizer.fed() == bytes@.take(i as int),
                sixel_deserializer@.wf(),
                begin.run(tokens(bytes@.take(i as int))) == Some(sixel_deserializer@),
                forall|n: int|
                    0 <= n <= i ==> begin.run(#[trigger] tokens(bytes@.take(n))) is Some,
                sixel_deserializer@.got_dcs <==> tokens(bytes@.take(i as int)).len() > 0,
                tokens(bytes@.take(i as int)).len() > 0 ==> tokens(bytes@.take(i as int))[0] is Dcs,
        {
            let events = tokenizer.advance(bytes[i]);
            proof {
                assert(bytes@.take(i as int).push(bytes@[i as int]) =~= bytes@.take(i + 1));
                lemma_run_concat(begin, tokens(bytes@.take(i as int)), events@);
            }
            proof {
                lemma_run_begins(sixel_deserializer@, events@);
            }
            let handled = sixel_deserializer.handle_events(events.as_slice());
            if let Err(message) = handled {
                proof {
                    assert(fails_first_at(bytes@, max_height, i + 1));
                    let n = choose|n: int| fails_first_at(bytes@, max_height, n);
                }
                return Err(message);
            }
        }
        proof {
            assert(bytes@.take(bytes@.len() as int) =~= bytes@);
        }
        sixel_deserializer.create_image()
    }

    /// Decodes a stream that was tokenized already.
    ///
    /// Fails where the first event is not the introducer, and where an event
    /// holds bytes that form no token.
    pub fn from_events(events: &[Event], max_height: Option<usize>) -> (image: Result<
        Self,
        &'static str,
    >)
        ensures
            image is Err <==> decoded(events@, max_height) is None,
            image matches Ok(image) ==> decoded(events@, max_height) matches Some(state)
                && image.rows() == state.pixels && image.registers() == state.color_registers,
            image matches Err(message) ==> message@ == (if events@.len() > 0 && events@[0] is Dcs {
                "Corrupted Sixel sequence"@
            } else {
                "Corrupted image sequence"@
            }),
    {
        let mut sixel_deserializer = match max_height {
            Some(max_height) => SixelDeserializer::new().max_height(max_height),
            None => SixelDeserializer::new(),
        };
        match sixel_deserializer.handle_events(events) {
            Ok(()) => sixel_deserializer.create_image(),
            Err(message) => Err(message),
        }
    }

    /// The size of the image in pixels, height first. The width is that of
    /// the first row.
    pub fn pixel_size(&self) -> (size: (usize, usize))
        ensures
            size.0 == self.rows().len(),
            size.1 == if self.rows().len() > 0 {
                self.rows()[0].len()
            } else {
                0
            },
    {
        let width = if self.pixels.len() > 0 {
            self.pixels[0].len()
        } else {
            0
        };
        let height = self.pixels.len();
        (height, width)
    }

    /// The whole image as a sixel stream.
    pub fn serialize(&self) -> (serialized_image: String)
        ensures
            serialized_image@ == image_text(
                self.registers(),
                self.rows(),
                Window::of(self.rows().len() as int, None, None, None, None),
            ),
    {
        let sixel_serializer = SixelSerializer::new(&self.color_registers, &self.pixels);
        let serialized_image = sixel_serializer.serialize();
        serialized_image
    }

    /// A rectangle of the image as a sixel stream; the image stays as it is.
    pub fn serialize_range(
        &self,
        start_x_index: usize,
        start_y_index: usize,
        width: usize,
        height: usize,
    ) -> (serialized_image: String)
        ensures
            serialized_image@ == image_text(
                self.registers(),
                self.rows(),
                Window::of(
                    self.rows().len() as int,
                    Some(start_x_index),
                    Some(start_y_index),
                    Some(width),
                    Some(height),
                ),
            ),
    {
        let sixel_serializer = SixelSerializer::new(&self.color_registers, &self.pixels);
        let serialized_image = sixel_serializer.serialize_range(
            start_x_index,
            start_y_index,
            width,
            height,
        );
        serialized_image
    }

    /// Puts out the pixels of a rectangle, in place. What of the rectangle
    /// lies outside the image is passed over.
    pub fn cut_out(&mut self, start_x_index: usize, start_y_index: usize, width: usize, height: usize)
        ensures
            final(self).registers() == old(self).registers(),
            final(self).rows() == erased(
                old(self).rows(),
                start_x_index as int,
                start_y_index as int,
                width as int,
                height as int,
            ),
    {
        let ghost before = self.pixels;
        let wanted = start_y_index.saturating_add(height);
        let end = if wanted < self.pixels.len() {
            wanted
        } else {
            self.pixels.len()
        };
        if start_y_index < end {
            for row_index in start_y_index..end
                invariant
                    start_y_index <= end <= before.len(),
                    end == before.len() || end == start_y_index + height,
                    end <= start_y_index + height,
                    self.pixels.len() == before.len(),
                    self.color_registers == old(self).color_registers,
                    forall|r: int|
                        0 <= r < before.len() ==> (#[trigger] self.pixels[r])@ == if start_y_index
                            <= r < row_index {
                            erased(
                                grid(before),
                                start_x_index as int,
                                start_y_index as int,
                                width as int,
                                height as int,
                            )[r]
                        } else {
                            before[r]@
                        },
            {
                Self::cut_out_of_row(&mut self.pixels[row_index], start_x_index, width);
            }
        }
        proof {
            assert(grid(self.pixels) =~= erased(
                grid(before),
                start_x_index as int,
                start_y_index as int,
                width as int,
                height as int,
            )) by {
                assert forall|r: int| 0 <= r < before.len() implies grid(self.pixels)[r] == erased(
                    grid(before),
                    start_x_index as int,
                    start_y_index as int,
                    width as int,
                    height as int,
                )[r] by {}
            }
        }
    }

    /// Puts out the pixels of a row in the `width` columns from
    /// `start_x_index` on, as far as the row has them.
    fn cut_out_of_row(row: &mut Vec<Pixel>, start_x_index: usize, width: usize)
        ensures
            final(row)@ == Seq::new(
                old(row)@.len(),
                |c: int|
                    if start_x_index <= c < start_x_index + width {
                        Pixel { on: false, color: old(row)@[c].color }
                    } else {
                        old(row)@[c]
                    },
            ),
    {
        let ghost before = row@;
        let wanted = start_x_index.saturating_add(width);
        let end = if wanted < row.len() {
            wanted
        } else {
            row.len()
        };
        if start_x_index < end {
            for column_index in start_x_index..end
                invariant
                    start_x_index <= end <= before.len(),
                    end == before.len() || end == start_x_index + width,
                    end <= start_x_index + width,
                    row@.len() == before.len(),
                    forall|c: int|
                        0 <= c < before.len() ==> #[trigger] row@[c] == if start_x_index <= c
                            < column_index {
                            Pixel { on: false, color: before[c].color }
                        } else {
                            before[c]
                        },
            {
                let pixel = row[column_index];
                row.set(column_index, Pixel { on: false, color: pixel.color });
            }
        }
    }
}

} // verus!
