//! What decoding means: the decoder's state as a mathematical value, and
//! the effect of each event on it.

use vstd::prelude::*;
use crate::event::ColorCoordinates;
use crate::event::Event;
use crate::notation::bit_is_set;
use crate::Pixel;
use crate::SixelColor;

verus! {

/// The colour that a definition stores: the numbers as given, each cut to
/// the width of its field.
pub open spec fn color_of(coordinates: ColorCoordinates) -> SixelColor {
    match coordinates {
        ColorCoordinates::Hls(x, y, z) => SixelColor::Hsl(
            (x % 65536) as u16,
            (y % 256) as u8,
            (z % 256) as u8,
        ),
        ColorCoordinates::Rgb(x, y, z) => SixelColor::Rgb(
            (x % 256) as u8,
            (y % 256) as u8,
            (z % 256) as u8,
        ),
    }
}

/// `count` copies of `pixel`.
pub open spec fn filler(count: int, pixel: Pixel) -> Seq<Pixel> {
    Seq::new(
        if count > 0 {
            count as nat
        } else {
            0
        },
        |j: int| pixel,
    )
}

/// A row after `count` columns were written from column `x` on, all with
/// the same `bit`. A position inside the row is lit in `color` where the bit
/// is set and stays as it is where it is not. Each position past the end
/// adds one pixel to the end of the row, lit or not as the bit says.
pub open spec fn write_run(row: Seq<Pixel>, x: int, count: int, bit: bool, color: u16) -> Seq<
    Pixel,
> {
    let kept = Seq::new(
        row.len(),
        |j: int|
            if bit && x <= j < x + count {
                Pixel { on: true, color }
            } else {
                row[j]
            },
    );
    let past_end = if x >= row.len() {
        count
    } else {
        x + count - row.len()
    };
    kept + filler(past_end, Pixel { on: bit, color })
}

/// Writing no column leaves the row as it is.
pub proof fn lemma_write_run_none(row: Seq<Pixel>, x: int, bit: bool, color: u16)
    requires
        0 <= x,
    ensures
        write_run(row, x, 0, bit, color) == row,
{
}

/// One column more: the next position is written over where the row
/// reaches it, and added to the end of the row where it does not.
pub proof fn lemma_write_run_step(row: Seq<Pixel>, x: int, count: int, bit: bool, color: u16)
    requires
        0 <= x,
        0 <= count,
    ensures
        ({
            let so_far = write_run(row, x, count, bit, color);
            let pixel = Pixel { on: bit, color };
            write_run(row, x, count + 1, bit, color) == if x + count < so_far.len() {
                if bit {
                    so_far.update(x + count, pixel)
                } else {
                    so_far
                }
            } else {
                so_far.push(pixel)
            }
        }),
{
}

/// The grid with empty rows added until it has `height` of them.
pub open spec fn with_rows(pixels: Seq<Seq<Pixel>>, height: int) -> Seq<Seq<Pixel>> {
    pixels + Seq::new(
        if height > pixels.len() {
            (height - pixels.len()) as nat
        } else {
            0
        },
        |r: int| Seq::<Pixel>::empty(),
    )
}

/// The grid after `count` copies of the column `byte` were written into the
/// six rows from `y` on, starting at column `x`.
pub open spec fn write_band(
    pixels: Seq<Seq<Pixel>>,
    y: int,
    x: int,
    count: int,
    byte: u8,
    color: u16,
) -> Seq<Seq<Pixel>>
    recommends
        0 <= y,
        y + 6 <= pixels.len(),
{
    Seq::new(
        pixels.len(),
        |r: int|
            if y <= r < y + 6 {
                write_run(pixels[r], x, count, bit_is_set(byte, r - y), color)
            } else {
                pixels[r]
            },
    )
}

/// The grid padded to `height` rows: each new row holds `height` lit pixels
/// (the height, not a width: a raster attribute pads to a square).
pub open spec fn pad_rows(pixels: Seq<Seq<Pixel>>, height: int, color: u16) -> Seq<Seq<Pixel>> {
    pixels + Seq::new(
        if height > pixels.len() {
            (height - pixels.len()) as nat
        } else {
            0
        },
        |r: int| filler(height, Pixel { on: true, color }),
    )
}

/// The grid with every row shorter than `width` filled up to it with lit
/// pixels.
pub open spec fn pad_columns(pixels: Seq<Seq<Pixel>>, width: int, color: u16) -> Seq<Seq<Pixel>> {
    Seq::new(
        pixels.len(),
        |r: int| pixels[r] + filler(width - pixels[r].len(), Pixel { on: true, color }),
    )
}

/// The state of a decoder.
pub struct DecoderState {
    /// The colours defined so far.
    pub color_registers: Map<u16, SixelColor>,
    /// The register that data is drawn in.
    pub current_color: u16,
    /// The top row of the band under the cursor.
    pub cursor_y: usize,
    /// The column under the cursor.
    pub cursor_x: usize,
    /// The grid, row by row; rows differ in length.
    pub pixels: Seq<Seq<Pixel>>,
    /// The height past which nothing is decoded, where one was given.
    pub max_height: Option<usize>,
    /// Set once the limit was reached: every later event is passed over.
    pub stop_parsing: bool,
    /// Whether the introducer was seen.
    pub got_dcs: bool,
    /// Whether the introducer asked for a transparent background.
    pub transparent_background: bool,
}

impl DecoderState {
    /// The state before any event: one empty row, the cursor at its start,
    /// register 0 selected, no limit.
    pub open spec fn initial() -> DecoderState {
        DecoderState {
            color_registers: Map::empty(),
            current_color: 0,
            cursor_y: 0,
            cursor_x: 0,
            pixels: seq![Seq::<Pixel>::empty()],
            max_height: None,
            stop_parsing: false,
            got_dcs: false,
            transparent_background: false,
        }
    }

    /// What holds of every state of a decoder: the grid has a row, the
    /// cursor stands on a band (a multiple of six), that band ends within
    /// what a grid can hold, and decoding has not stopped before it began.
    pub open spec fn wf(self) -> bool {
        &&& self.pixels.len() >= 1
        &&& self.cursor_y % 6 == 0
        &&& self.cursor_y + 6 <= usize::MAX
        &&& self.stop_parsing ==> self.got_dcs
    }

    /// What is said of an event that is an error in this state.
    pub open spec fn complaint(self) -> Seq<char> {
        if self.got_dcs {
            "Corrupted Sixel sequence"@
        } else {
            "Corrupted image sequence"@
        }
    }

    /// The height that the cursor's band may not pass: the limit given, or
    /// the most rows that a grid can hold.
    pub open spec fn limit(self) -> int {
        match self.max_height {
            Some(height) => height as int,
            None => usize::MAX as int,
        }
    }

    /// Whether `event` is an error in this state: anything but the
    /// introducer before the introducer, and bytes that form no token unless
    /// decoding has stopped.
    pub open spec fn rejects(self, event: Event) -> bool {
        ||| !self.got_dcs && !(event is Dcs)
        ||| !self.stop_parsing && event is UnknownSequence
    }

    /// The state after `count` copies of the column `byte` were drawn at
    /// the cursor. The rows of the band are made first; the cursor moves
    /// right by `count`, as far as the machine can count. Nothing changes
    /// where `count` is zero.
    pub open spec fn draw(self, count: usize, byte: u8) -> DecoderState {
        if count == 0 {
            self
        } else {
            DecoderState {
                pixels: write_band(
                    with_rows(self.pixels, self.cursor_y + 6),
                    self.cursor_y as int,
                    self.cursor_x as int,
                    count as int,
                    byte,
                    self.current_color,
                ),
                cursor_x: if self.cursor_x + count > usize::MAX {
                    usize::MAX
                } else {
                    (self.cursor_x + count) as usize
                },
                ..self
            }
        }
    }

    /// The grid after a raster attribute: first padded down to `pv` rows,
    /// then every row padded right to `ph` pixels, each step where the
    /// number is given. With a transparent background nothing is padded.
    pub open spec fn padded(self, ph: Option<usize>, pv: Option<usize>) -> Seq<Seq<Pixel>> {
        if self.transparent_background {
            self.pixels
        } else {
            let tall = match pv {
                Some(height) => pad_rows(self.pixels, height as int, self.current_color),
                None => self.pixels,
            };
            match ph {
                Some(width) => pad_columns(tall, width as int, self.current_color),
                None => tall,
            }
        }
    }

    /// The state after an event that is no error.
    pub open spec fn after(self, event: Event) -> DecoderState {
        if self.stop_parsing {
            self
        } else {
            match event {
                Event::ColorIntroducer { color_number, color_coordinate_system } => {
                    match color_coordinate_system {
                        Some(coordinates) => DecoderState {
                            color_registers: self.color_registers.insert(
                                color_number,
                                color_of(coordinates),
                            ),
                            ..self
                        },
                        None => DecoderState { current_color: color_number, ..self },
                    }
                },
                Event::RasterAttribute { pan, pad, ph, pv } => DecoderState {
                    pixels: self.padded(ph, pv),
                    ..self
                },
                Event::Data { byte } => self.draw(1, byte),
                Event::Repeat { repeat_count, byte_to_repeat } => self.draw(
                    repeat_count,
                    byte_to_repeat,
                ),
                Event::Dcs { macro_parameter, transparent_background, horizontal_pixel_distance } => {
                    DecoderState {
                        got_dcs: true,
                        transparent_background: self.transparent_background
                            || transparent_background == Some(1u8),
                        ..self
                    }
                },
                Event::GotoBeginningOfLine => DecoderState { cursor_x: 0, ..self },
                Event::GotoNextLine => {
                    if self.cursor_y + 12 > self.limit() {
                        DecoderState { stop_parsing: true, ..self }
                    } else {
                        DecoderState {
                            cursor_y: (self.cursor_y + 6) as usize,
                            cursor_x: 0,
                            ..self
                        }
                    }
                },
                Event::UnknownSequence(bytes) => self,
                Event::End => self,
            }
        }
    }

    /// The state after all of `events`, in order; `None` as soon as one of
    /// them is an error.
    pub open spec fn run(self, events: Seq<Event>) -> Option<DecoderState>
        decreases events.len(),
    {
        if events.len() == 0 {
            Some(self)
        } else {
            match self.run(events.drop_last()) {
                Some(state) => if state.rejects(events.last()) {
                    None
                } else {
                    Some(state.after(events.last()))
                },
                None => None,
            }
        }
    }

    /// The state that `events` leave a decoder in: the state after all of
    /// them, or, where one of them is an error, the state before the first
    /// such.
    pub open spec fn left_by(self, events: Seq<Event>) -> DecoderState
        decreases events.len(),
    {
        if events.len() == 0 {
            self
        } else {
            match self.run(events.drop_last()) {
                Some(state) => if state.rejects(events.last()) {
                    state
                } else {
                    state.after(events.last())
                },
                None => self.left_by(events.drop_last()),
            }
        }
    }
}

/// After an error no event is taken: what follows the error leaves the
/// decoder as the error found it.
pub proof fn lemma_left_by_error(state: DecoderState, first: Seq<Event>, second: Seq<Event>)
    requires
        state.run(first) is None,
    ensures
        state.left_by(first + second) == state.left_by(first),
    decreases second.len(),
{
    if second.len() == 0 {
        assert(first + second =~= first);
    } else {
        lemma_left_by_error(state, first, second.drop_last());
        lemma_run_concat(state, first, second.drop_last());
        assert((first + second).drop_last() =~= first + second.drop_last());
    }
}

/// The state of a new decoder with this limit on the height.
pub open spec fn start(max_height: Option<usize>) -> DecoderState {
    DecoderState { max_height, ..DecoderState::initial() }
}

/// What a stream of events decodes to: the state of a new decoder after all
/// of them, unless one of them is an error or there was no introducer.
pub open spec fn decoded(events: Seq<Event>, max_height: Option<usize>) -> Option<DecoderState> {
    match start(max_height).run(events) {
        Some(state) => if state.got_dcs {
            Some(state)
        } else {
            None
        },
        None => None,
    }
}

/// The events of two streams in a row: the second is run from where the
/// first has led, and an error in the first is an error of the whole.
pub proof fn lemma_run_concat(state: DecoderState, first: Seq<Event>, second: Seq<Event>)
    ensures
        state.run(first + second) == match state.run(first) {
            Some(reached) => reached.run(second),
            None => None,
        },
    decreases second.len(),
{
    if second.len() == 0 {
    } else {
        lemma_run_concat(state, first, second.drop_last());
        assert((first + second).drop_last() =~= first + second.drop_last());
    }
}

/// An event that is no error keeps a state well formed.
pub proof fn lemma_after_wf(state: DecoderState, event: Event)
    requires
        state.wf(),
        !state.rejects(event),
    ensures
        state.after(event).wf(),
{
}

/// So does a whole stream of them.
pub proof fn lemma_run_wf(state: DecoderState, events: Seq<Event>)
    requires
        state.wf(),
    ensures
        state.run(events) matches Some(reached) ==> reached.wf(),
    decreases events.len(),
{
    if events.len() > 0 {
        lemma_run_wf(state, events.drop_last());
        match state.run(events.drop_last()) {
            Some(reached) => {
            },
            None => {},
        }
    }
}

/// Under a limit on the height, the cursor never enters a band that would
/// end below the limit: it stays on the first band, or stands on a band
/// whose six rows lie within the limit.
pub proof fn lemma_cursor_within_height(state: DecoderState, events: Seq<Event>, height: usize)
    requires
        state.max_height == Some(height),
        state.cursor_y == 0 || state.cursor_y + 6 <= height,
    ensures
        state.run(events) matches Some(reached) ==> reached.max_height == Some(height) && (
        reached.cursor_y == 0 || reached.cursor_y + 6 <= height),
    decreases events.len(),
{
    if events.len() > 0 {
        lemma_cursor_within_height(state, events.drop_last(), height);
    }
}

/// Under a limit on the height the grid gets no row below the limit, but
/// for the six rows of the first band, as long as no raster attribute asks
/// for rows: the rows end with the band under the cursor.
pub proof fn lemma_rows_within_height(state: DecoderState, events: Seq<Event>, height: usize)
    requires
        state.max_height == Some(height),
        state.cursor_y == 0 || state.cursor_y + 6 <= height,
        state.pixels.len() <= state.cursor_y + 6,
        forall|i: int|
            0 <= i < events.len() ==> !(#[trigger] events[i] matches Event::RasterAttribute {
                pv: Some(_),
                ..
            }),
    ensures
        state.run(events) matches Some(reached) ==> {
            &&& reached.pixels.len() <= reached.cursor_y + 6
            &&& reached.pixels.len() <= 6 || reached.pixels.len() <= height
        },
    decreases events.len(),
{
    if events.len() > 0 {
        lemma_rows_within_height(state, events.drop_last(), height);
        lemma_cursor_within_height(state, events.drop_last(), height);
    }
}

/// Once decoding has stopped at the limit, no event changes anything, and
/// none is an error.
pub proof fn lemma_stopped_for_good(state: DecoderState, events: Seq<Event>)
    requires
        state.got_dcs,
        state.stop_parsing,
    ensures
        state.run(events) == Some(state),
    decreases events.len(),
{
    if events.len() > 0 {
        lemma_stopped_for_good(state, events.drop_last());
    }
}

/// What a stream decodes to is well formed: the grid has at least one row,
/// and the cursor has moved down by whole bands only.
pub proof fn lemma_decoded_wf(events: Seq<Event>, max_height: Option<usize>)
    ensures
        decoded(events, max_height) matches Some(state) ==> state.wf() && state.pixels.len() >= 1
            && state.cursor_y % 6 == 0,
{
    lemma_run_wf(start(max_height), events);
}

/// Events that a decoder takes without error before it has seen the
/// introducer begin with the introducer, and after any event at all the
/// decoder has seen it.
pub proof fn lemma_run_begins(state: DecoderState, events: Seq<Event>)
    requires
        state.wf(),
    ensures
        state.run(events) matches Some(reached) ==> {
            &&& reached.got_dcs <==> state.got_dcs || events.len() > 0
            &&& events.len() > 0 && !state.got_dcs ==> events[0] is Dcs
        },
    decreases events.len(),
{
    if events.len() > 0 {
        lemma_run_begins(state, events.drop_last());
    }
}

/// A stream that begins with anything but the introducer is an error, and so
/// is a stream without events.
pub proof fn lemma_needs_introducer(events: Seq<Event>, max_height: Option<usize>)
    requires
        events.len() == 0 || !(events[0] is Dcs),
    ensures
        decoded(events, max_height) is None,
    decreases events.len(),
{
    if events.len() > 1 {
        lemma_needs_introducer(events.drop_last(), max_height);
    } else if events.len() == 1 {
        assert(start(max_height).run(events.drop_last()) == Some(start(max_height)));
    }
}

/// Bytes that form no token are an error of the whole stream, unless
/// decoding had stopped at the limit before they came.
pub proof fn lemma_unknown_sequence(state: DecoderState, events: Seq<Event>, at: int)
    requires
        0 <= at < events.len(),
        events[at] is UnknownSequence,
        state.run(events.take(at)) matches Some(reached) ==> !reached.stop_parsing,
    ensures
        state.run(events) is None,
{
    assert(events.take(at + 1).drop_last() =~= events.take(at));
    lemma_run_concat(state, events.take(at + 1), events.skip(at + 1));
    assert(events.take(at + 1) + events.skip(at + 1) =~= events);
}

/// Registers may be defined in any order: two definitions of different
/// registers lead to the same state either way round.
pub proof fn lemma_definitions_commute(
    state: DecoderState,
    first: u16,
    first_color: ColorCoordinates,
    second: u16,
    second_color: ColorCoordinates,
)
    requires
        first != second,
    ensures
        ({
            let one = Event::ColorIntroducer {
                color_number: first,
                color_coordinate_system: Some(first_color),
            };
            let other = Event::ColorIntroducer {
                color_number: second,
                color_coordinate_system: Some(second_color),
            };
            state.after(one).after(other) == state.after(other).after(one)
        }),
{
    let one = Event::ColorIntroducer {
        color_number: first,
        color_coordinate_system: Some(first_color),
    };
    let other = Event::ColorIntroducer {
        color_number: second,
        color_coordinate_system: Some(second_color),
    };
    assert(state.after(one).after(other).color_registers =~= state.after(other).after(
        one,
    ).color_registers);
}

/// A register may be defined at any place of the stream: its definition
/// and an event next to it may change places, where that event defines no
/// register and does not stop decoding.
pub proof fn lemma_definition_moves(
    state: DecoderState,
    number: u16,
    color: ColorCoordinates,
    event: Event,
)
    requires
        !(event matches Event::ColorIntroducer { color_coordinate_system: Some(_), .. }),
        !state.after(event).stop_parsing,
    ensures
        ({
            let definition = Event::ColorIntroducer {
                color_number: number,
                color_coordinate_system: Some(color),
            };
            state.after(definition).after(event) == state.after(event).after(definition)
        }),
{
}

} // verus!
