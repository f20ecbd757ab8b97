//! The way back: the events that the stream of an image stands for, and
//! what a decoder makes of them.

use vstd::prelude::*;
use crate::decoding::color_of;
use crate::decoding::decoded;
use crate::decoding::DecoderState;
use crate::decoding::lemma_run_concat;
use crate::decoding::start;
use crate::decoding::with_rows;
use crate::decoding::write_run;
use crate::encoding::band_text;
use crate::encoding::bands_text;
use crate::encoding::image_text;
use crate::encoding::introducer_text;
use crate::encoding::joined;
use crate::encoding::leads;
use crate::encoding::lemma_joined_gap;
use crate::encoding::register_pieces;
use crate::encoding::register_text;
use crate::encoding::registers_text;
use crate::encoding::terminator_text;
use crate::encoding::track_pieces;
use crate::encoding::tracks_text;
use crate::encoding::Window;
use crate::event::ColorCoordinates;
use crate::event::Event;
use crate::notation::bit_is_set;
use crate::notation::compressed_from;
use crate::notation::decimal;
use crate::notation::lemma_run_is_maximal;
use crate::notation::lemma_run_length_bounds;
use crate::notation::run_length;
use crate::notation::run_text;
use crate::notation::weight;
use crate::Pixel;
use crate::raster::band_tracks;
use crate::raster::band_width;
use crate::raster::cell;
use crate::raster::color_used;
use crate::raster::lemma_mask_bounds;
use crate::raster::lit;
use crate::raster::longest;
use crate::raster::mask;
use crate::raster::row_length;
use crate::raster::rows_in_band;
use crate::SixelColor;

verus! {

/// The events that a run stands for: one `Repeat` from three columns on,
/// one `Data` for each column below that.
pub open spec fn run_events(count: nat, byte: u8) -> Seq<Event> {
    if count > 2 {
        seq![Event::Repeat { repeat_count: count as usize, byte_to_repeat: byte }]
    } else {
        Seq::new(count, |i: int| Event::Data { byte })
    }
}

/// The events that a track stands for from column `start` on, run after run.
pub open spec fn track_events_from(track: Seq<u8>, start: int) -> Seq<Event>
    decreases track.len() - start,
{
    if start < 0 || start >= track.len() {
        Seq::empty()
    } else {
        let count = run_length(track, start);
        proof {
            lemma_run_length_bounds(track, start);
        }
        run_events(count, track[start]) + track_events_from(track, start + count)
    }
}

/// A row after the columns of a track were drawn into it from its start,
/// as pixel `i` of each column has it: a pixel that was there is lit in
/// `color` where the bit is set and stays as it is where it is not; past the
/// end of the row each column adds a pixel.
pub open spec fn row_with_track(row: Seq<Pixel>, track: Seq<u8>, i: int, color: u16) -> Seq<Pixel> {
    Seq::new(
        if row.len() > track.len() {
            row.len()
        } else {
            track.len()
        },
        |k: int|
            if k < row.len() {
                if k < track.len() && bit_is_set(track[k], i) {
                    Pixel { on: true, color }
                } else {
                    row[k]
                }
            } else {
                Pixel { on: bit_is_set(track[k], i), color }
            },
    )
}

/// The grid after a track was drawn into the band at `y`.
pub open spec fn band_with_track(pixels: Seq<Seq<Pixel>>, y: int, track: Seq<u8>, color: u16) -> Seq<
    Seq<Pixel>,
> {
    Seq::new(
        pixels.len(),
        |r: int|
            if y <= r < y + 6 {
                row_with_track(pixels[r], track, r - y, color)
            } else {
                pixels[r]
            },
    )
}

/// Drawing the next run of a track goes on where the columns before it have
/// led.
pub proof fn lemma_row_with_run(
    row: Seq<Pixel>,
    track: Seq<u8>,
    i: int,
    color: u16,
    x: int,
    count: int,
)
    requires
        0 <= x,
        0 <= count,
        x + count <= track.len(),
        forall|k: int| x <= k < x + count ==> #[trigger] track[k] == track[x],
    ensures
        write_run(
            row_with_track(row, track.take(x), i, color),
            x,
            count,
            bit_is_set(track[x], i),
            color,
        ) == row_with_track(row, track.take(x + count), i, color),
{
    let before = row_with_track(row, track.take(x), i, color);
    let after = row_with_track(row, track.take(x + count), i, color);
    let drawn = write_run(before, x, count, bit_is_set(track[x], i), color);
    assert(drawn.len() == after.len());
    assert forall|k: int| 0 <= k < after.len() implies drawn[k] == after[k] by {
        if x <= k < x + count {
            assert(track[k] == track[x]);
            assert(track.take(x + count)[k] == track[k]);
        } else if k < x {
            assert(track.take(x + count)[k] == track.take(x)[k]);
        }
    }
    assert(drawn =~= after);
}

/// Whether a decoder stands in the middle of a track: it has drawn the
/// first `x` columns of `track` into its band of the grid `base`, and its
/// cursor is behind them.
pub open spec fn drawing(state: DecoderState, base: Seq<Seq<Pixel>>, track: Seq<u8>, x: int) -> bool {
    &&& state.got_dcs
    &&& !state.stop_parsing
    &&& state.cursor_y + 6 <= usize::MAX
    &&& state.cursor_x == x
    &&& 0 <= x <= track.len() <= usize::MAX
    &&& base.len() >= state.cursor_y + 6
    &&& with_rows(state.pixels, state.cursor_y + 6) == band_with_track(
        base,
        state.cursor_y as int,
        track.take(x),
        state.current_color,
    )
}

/// The state of a decoder that has drawn the first `x` columns of a track.
pub open spec fn drawn(state: DecoderState, base: Seq<Seq<Pixel>>, track: Seq<u8>, x: int) -> DecoderState {
    DecoderState {
        pixels: band_with_track(base, state.cursor_y as int, track.take(x), state.current_color),
        cursor_x: x as usize,
        ..state
    }
}

/// Drawing `count` equal columns of a track takes the decoder that many
/// columns on.
pub proof fn lemma_draw_columns(
    state: DecoderState,
    base: Seq<Seq<Pixel>>,
    track: Seq<u8>,
    x: int,
    count: int,
)
    requires
        drawing(state, base, track, x),
        1 <= count,
        x + count <= track.len(),
        forall|k: int| x <= k < x + count ==> #[trigger] track[k] == track[x],
    ensures
        state.draw(count as usize, track[x]) == drawn(state, base, track, x + count),
        drawing(drawn(state, base, track, x + count), base, track, x + count),
{
    let y = state.cursor_y as int;
    let color = state.current_color;
    let after = band_with_track(base, y, track.take(x + count), color);
    let next = state.draw(count as usize, track[x]);
    assert forall|r: int| 0 <= r < base.len() implies next.pixels[r] == after[r] by {
        if y <= r < y + 6 {
            lemma_row_with_run(base[r], track, r - y, color, x, count);
        }
    }
    assert(next.pixels =~= after);
    assert(with_rows(after, y + 6) =~= after);
}

/// The events of a run take the decoder to the end of the run.
pub proof fn lemma_run_events(state: DecoderState, base: Seq<Seq<Pixel>>, track: Seq<u8>, x: int)
    requires
        drawing(state, base, track, x),
        x < track.len(),
    ensures
        state.run(run_events(run_length(track, x), track[x])) == Some(
            drawn(state, base, track, x + run_length(track, x)),
        ),
        drawing(
            drawn(state, base, track, x + run_length(track, x)),
            base,
            track,
            x + run_length(track, x),
        ),
{
    let count = run_length(track, x);
    let events = run_events(count, track[x]);
    lemma_run_length_bounds(track, x);
    lemma_run_is_maximal(track, x);
    if count > 2 {
        lemma_draw_columns(state, base, track, x, count as int);
        assert(events.drop_last() =~= Seq::<Event>::empty());
        assert(state.run(events.drop_last()) == Some(state));
    } else if count == 1 {
        lemma_draw_columns(state, base, track, x, 1);
        assert(events.drop_last() =~= Seq::<Event>::empty());
        assert(state.run(events.drop_last()) == Some(state));
    } else {
        lemma_draw_columns(state, base, track, x, 1);
        let middle = drawn(state, base, track, x + 1);
        assert(track[x + 1] == track[x]);
        lemma_draw_columns(middle, base, track, x + 1, 1);
        assert(drawn(middle, base, track, x + 2) == drawn(state, base, track, x + 2));
        let first = events.drop_last();
        assert(first.drop_last() =~= Seq::<Event>::empty());
        assert(state.run(first.drop_last()) == Some(state));
        assert(first.last() == Event::Data { byte: track[x] });
        assert(state.run(first) == Some(middle));
    }
}

/// The events of a track from column `x` on take the decoder to the end of
/// the track.
pub proof fn lemma_track_events_from(
    state: DecoderState,
    base: Seq<Seq<Pixel>>,
    track: Seq<u8>,
    x: int,
)
    requires
        drawing(state, base, track, x),
    ensures
        state.run(track_events_from(track, x)) == Some(
            if x < track.len() {
                drawn(state, base, track, track.len() as int)
            } else {
                state
            },
        ),
        x < track.len() ==> drawing(
            drawn(state, base, track, track.len() as int),
            base,
            track,
            track.len() as int,
        ),
    decreases track.len() - x,
{
    if x < track.len() {
        let count = run_length(track, x);
        lemma_run_length_bounds(track, x);
        lemma_run_events(state, base, track, x);
        let next = drawn(state, base, track, x + count);
        lemma_track_events_from(next, base, track, x + count);
        lemma_run_concat(state, run_events(count, track[x]), track_events_from(track, x + count));
        assert(drawn(next, base, track, track.len() as int) == drawn(
            state,
            base,
            track,
            track.len() as int,
        ));
        if x + count == track.len() {
            assert(track.take(track.len() as int) =~= track);
        }
    }
}

/// The byte of a column tells which of its pixels are lit: pixel `i` is lit
/// in a colour exactly when bit `i` of the colour's byte is set.
pub proof fn lemma_mask_bit(pixels: Seq<Seq<Pixel>>, line: int, column: int, color: u16, i: int)
    requires
        0 <= i < 6,
    ensures
        0 <= mask(pixels, line, column, 6, color) <= 63,
        lit(pixels, line + i, column, color) <==> (mask(pixels, line, column, 6, color) / weight(i))
            % 2 == 1,
{
    reveal_with_fuel(mask, 7);
    lemma_mask_bounds(pixels, line, column, 6, color);
}

/// Whether the tracks tell all that is lit in a band of `width` columns:
/// each track has a byte for each column, and a pixel is lit in a colour
/// exactly when the colour has a track and the bit of its byte there is set.
pub open spec fn faithful(
    tracks: Map<u16, Seq<u8>>,
    pixels: Seq<Seq<Pixel>>,
    line: int,
    width: int,
) -> bool {
    &&& forall|color: u16| #[trigger] tracks.contains_key(color) ==> tracks[color].len() == width
    &&& forall|color: u16, row: int, column: int|
        line <= row < line + 6 && 0 <= column < width ==> (#[trigger] lit(
            pixels,
            row,
            column,
            color,
        ) <==> tracks.contains_key(color) && bit_is_set(tracks[color][column], row - line))
}

/// The tracks of a band are faithful.
pub proof fn lemma_band_tracks_faithful(pixels: Seq<Seq<Pixel>>, line: int, width: int)
    requires
        0 <= width,
    ensures
        faithful(band_tracks(pixels, line, 6, 0, width), pixels, line, width),
{
    let tracks = band_tracks(pixels, line, 6, 0, width);
    assert forall|color: u16, row: int, column: int|
        line <= row < line + 6 && 0 <= column < width implies (#[trigger] lit(
        pixels,
        row,
        column,
        color,
    ) <==> tracks.contains_key(color) && bit_is_set(tracks[color][column], row - line)) by {
        lemma_mask_bit(pixels, line, column, color, row - line);
        if mask(pixels, line, column, 6, color) != 0 {
            assert(color_used(pixels, line, 6, 0, 0 + width, color));
        }
    }
}

/// The event that selects a register.
pub open spec fn select(color: u16) -> Event {
    Event::ColorIntroducer { color_number: color, color_coordinate_system: None }
}

/// The events that a track of a band stands for: back to the first column
/// unless the track is the first of its band, the selection of its colour,
/// and its runs.
pub open spec fn track_events(color: u16, track: Seq<u8>, first: bool) -> Seq<Event> {
    (if first {
        Seq::<Event>::empty()
    } else {
        seq![Event::GotoBeginningOfLine]
    }) + seq![select(color)] + track_events_from(track, 0)
}

/// The events of each track, by colour.
pub open spec fn track_event_pieces(tracks: Map<u16, Seq<u8>>) -> Map<u16, Seq<Event>> {
    Map::new(
        |color: u16| tracks.contains_key(color),
        |color: u16| track_events(color, tracks[color], leads(tracks, color)),
    )
}

/// Whether a track has a colour below `below`.
pub open spec fn any_below(tracks: Map<u16, Seq<u8>>, below: int) -> bool
    decreases below,
{
    below > 0 && (tracks.contains_key((below - 1) as u16) || any_below(tracks, below - 1))
}

/// The highest colour below `below` that has a track, and `otherwise` where
/// none has.
pub open spec fn highest_below(tracks: Map<u16, Seq<u8>>, below: int, otherwise: u16) -> u16
    decreases below,
{
    if below <= 0 {
        otherwise
    } else if tracks.contains_key((below - 1) as u16) {
        (below - 1) as u16
    } else {
        highest_below(tracks, below - 1, otherwise)
    }
}

/// The lowest colour that has a track.
pub open spec fn lowest(tracks: Map<u16, Seq<u8>>) -> u16 {
    choose|color: u16| tracks.contains_key(color) && leads(tracks, color)
}

/// A colour has none below it exactly when no track has a colour below it.
pub proof fn lemma_any_below(tracks: Map<u16, Seq<u8>>, below: int)
    requires
        0 <= below <= 65536,
    ensures
        any_below(tracks, below) <==> exists|color: u16| color < below && tracks.contains_key(color),
    decreases below,
{
    if below > 0 {
        lemma_any_below(tracks, below - 1);
        if any_below(tracks, below) {
            if tracks.contains_key((below - 1) as u16) {
                assert(((below - 1) as u16) < below);
            } else {
                let color = choose|color: u16| color < below - 1 && tracks.contains_key(color);
                assert(color < below && tracks.contains_key(color));
            }
        }
        if exists|color: u16| color < below && tracks.contains_key(color) {
            let color = choose|color: u16| color < below && tracks.contains_key(color);
            if color != below - 1 {
                assert(color < below - 1 && tracks.contains_key(color));
            }
        }
    }
}

/// A pixel of a band as the tracks of the colours below `below` leave it:
/// lit as it is in the grid if it is lit there in one of these colours, and
/// else unlit, in the colour `ground`.
pub open spec fn painted_pixel(
    pixels: Seq<Seq<Pixel>>,
    row: int,
    column: int,
    below: int,
    ground: u16,
) -> Pixel {
    match cell(pixels, row, column) {
        Some(pixel) => if pixel.on && pixel.color < below {
            pixel
        } else {
            Pixel { on: false, color: ground }
        },
        None => Pixel { on: false, color: ground },
    }
}

/// The grid `base` with the band at `line` as the tracks of the colours
/// below `below` leave it.
pub open spec fn painted_band(
    pixels: Seq<Seq<Pixel>>,
    base: Seq<Seq<Pixel>>,
    line: int,
    width: int,
    below: int,
    ground: u16,
) -> Seq<Seq<Pixel>> {
    Seq::new(
        base.len(),
        |r: int|
            if line <= r < line + 6 {
                Seq::new(
                    if width > 0 {
                        width as nat
                    } else {
                        0
                    },
                    |k: int| painted_pixel(pixels, r, k, below, ground),
                )
            } else {
                base[r]
            },
    )
}

/// The state of a decoder at the top of a band after the tracks of the
/// colours below `below`: as it was while there was no track, and else with
/// the band painted, the cursor at its end and the last colour selected.
pub open spec fn after_tracks(
    state: DecoderState,
    pixels: Seq<Seq<Pixel>>,
    tracks: Map<u16, Seq<u8>>,
    width: int,
    below: int,
) -> DecoderState {
    if any_below(tracks, below) {
        DecoderState {
            pixels: painted_band(
                pixels,
                with_rows(state.pixels, state.cursor_y + 6),
                state.cursor_y as int,
                width,
                below,
                lowest(tracks),
            ),
            cursor_x: width as usize,
            current_color: highest_below(tracks, below, state.current_color),
            ..state
        }
    } else {
        state
    }
}

/// Whether a decoder stands at the top of a band that nothing was drawn in:
/// past the introducer, not stopped, at the first column, and with no pixel
/// in the six rows of the band.
pub open spec fn at_fresh_band(state: DecoderState) -> bool {
    &&& state.got_dcs
    &&& !state.stop_parsing
    &&& state.cursor_y + 6 <= usize::MAX
    &&& state.cursor_x == 0
    &&& forall|r: int|
        state.cursor_y <= r < state.cursor_y + 6 && r < state.pixels.len()
            ==> (#[trigger] state.pixels[r]).len() == 0
}

/// A track drawn over what the tracks of the colours below it left paints
/// the pixels lit in its colour and leaves the others: over a band that
/// nothing was drawn in it sets every pixel, the unlit ones in its own
/// colour.
pub proof fn lemma_track_paints(
    pixels: Seq<Seq<Pixel>>,
    tracks: Map<u16, Seq<u8>>,
    line: int,
    width: int,
    color: u16,
    row: int,
)
    requires
        faithful(tracks, pixels, line, width),
        1 <= width,
        tracks.contains_key(color),
        line <= row < line + 6,
    ensures
        row_with_track(
            if leads(tracks, color) {
                Seq::<Pixel>::empty()
            } else {
                Seq::new(
                    width as nat,
                    |k: int| painted_pixel(pixels, row, k, color as int, lowest(tracks)),
                )
            },
            tracks[color],
            row - line,
            color,
        ) == Seq::new(
            width as nat,
            |k: int| painted_pixel(pixels, row, k, color + 1, lowest(tracks)),
        ),
{
    let track = tracks[color];
    let ground = lowest(tracks);
    let first = leads(tracks, color);
    let under = if first {
        Seq::<Pixel>::empty()
    } else {
        Seq::new(width as nat, |k: int| painted_pixel(pixels, row, k, color as int, ground))
    };
    let drawn = row_with_track(under, track, row - line, color);
    let painted = Seq::new(width as nat, |k: int| painted_pixel(pixels, row, k, color + 1, ground));
    lemma_lowest(tracks, color);
    assert(first ==> ground == color);
    assert forall|k: int| 0 <= k < width implies drawn[k] == painted[k] by {
        assert(lit(pixels, row, k, color) <==> bit_is_set(track[k], row - line));
        match cell(pixels, row, k) {
            Some(pixel) => {
                if pixel.on {
                    assert(lit(pixels, row, k, pixel.color));
                    assert(tracks.contains_key(pixel.color));
                }
            },
            None => {},
        }
    }
    assert(drawn =~= painted);
}

/// A colour without a track lights no pixel of the band: what the tracks
/// below it left is what the tracks up to it leave.
pub proof fn lemma_no_track_paints(
    pixels: Seq<Seq<Pixel>>,
    tracks: Map<u16, Seq<u8>>,
    line: int,
    width: int,
    color: u16,
    row: int,
    column: int,
    ground: u16,
)
    requires
        faithful(tracks, pixels, line, width),
        !tracks.contains_key(color),
        line <= row < line + 6,
        0 <= column < width,
    ensures
        painted_pixel(pixels, row, column, color + 1, ground) == painted_pixel(
            pixels,
            row,
            column,
            color as int,
            ground,
        ),
{
    assert(!lit(pixels, row, column, color));
}

/// The events of one track take a decoder from what the tracks of the
/// colours below it left to what the tracks up to it leave.
pub proof fn lemma_track_events(
    state: DecoderState,
    pixels: Seq<Seq<Pixel>>,
    tracks: Map<u16, Seq<u8>>,
    width: int,
    color: u16,
)
    requires
        at_fresh_band(state),
        faithful(tracks, pixels, state.cursor_y as int, width),
        1 <= width <= usize::MAX,
        tracks.contains_key(color),
    ensures
        after_tracks(state, pixels, tracks, width, color as int).run(
            track_events(color, tracks[color], leads(tracks, color)),
        ) == Some(after_tracks(state, pixels, tracks, width, color + 1)),
{
    let line = state.cursor_y as int;
    let base = with_rows(state.pixels, line + 6);
    let ground = lowest(tracks);
    let before = after_tracks(state, pixels, tracks, width, color as int);
    let after = after_tracks(state, pixels, tracks, width, color + 1);
    let track = tracks[color];
    let first = leads(tracks, color);
    lemma_any_below(tracks, color as int);
    assert(first <==> !any_below(tracks, color as int)) by {
        if !first {
            let other = choose|other: u16| other < color && tracks.contains_key(other);
            assert(other < color as int && tracks.contains_key(other));
        }
    }
    let selected = DecoderState { cursor_x: 0, current_color: color, ..before };
    let head = (if first {
        Seq::<Event>::empty()
    } else {
        seq![Event::GotoBeginningOfLine]
    }) + seq![select(color)];
    assert(before.run(head) == Some(selected)) by {
        if first {
            assert(head =~= seq![select(color)]);
            assert(head.drop_last() =~= Seq::<Event>::empty());
            assert(before.run(head.drop_last()) == Some(before));
        } else {
            assert(head =~= seq![Event::GotoBeginningOfLine, select(color)]);
            let start = head.drop_last();
            assert(start =~= seq![Event::GotoBeginningOfLine]);
            assert(start.drop_last() =~= Seq::<Event>::empty());
            assert(before.run(start.drop_last()) == Some(before));
            assert(before.run(start) == Some(DecoderState { cursor_x: 0, ..before }));
        }
    }
    let under = with_rows(before.pixels, line + 6);
    assert(under =~= if first {
        base
    } else {
        before.pixels
    });
    assert(track.take(0) =~= Seq::<u8>::empty());
    assert(band_with_track(under, line, Seq::<u8>::empty(), color) =~= under) by {
        assert forall|r: int| 0 <= r < under.len() implies band_with_track(
            under,
            line,
            Seq::<u8>::empty(),
            color,
        )[r] == under[r] by {
            if line <= r < line + 6 {
                assert(row_with_track(under[r], Seq::<u8>::empty(), r - line, color) =~= under[r]);
            }
        }
    }
    assert(drawing(selected, under, track, 0));
    lemma_track_events_from(selected, under, track, 0);
    let done = drawn(selected, under, track, width);
    assert(track.take(width) =~= track);
    assert(done.pixels =~= after.pixels) by {
        assert forall|r: int| 0 <= r < under.len() implies done.pixels[r] == after.pixels[r] by {
            if line <= r < line + 6 {
                lemma_track_paints(pixels, tracks, line, width, color, r);
                if first {
                    assert(under[r] =~= Seq::<Pixel>::empty());
                } else {
                    assert(under[r] =~= Seq::new(
                        width as nat,
                        |k: int| painted_pixel(pixels, r, k, color as int, ground),
                    ));
                }
            }
        }
    }
    assert(done == after);
    lemma_run_concat(before, head, track_events_from(track, 0));
}

/// The events of the tracks of the colours below `below` paint the band.
pub proof fn lemma_tracks_events(
    state: DecoderState,
    pixels: Seq<Seq<Pixel>>,
    tracks: Map<u16, Seq<u8>>,
    width: int,
    below: int,
)
    requires
        at_fresh_band(state),
        faithful(tracks, pixels, state.cursor_y as int, width),
        1 <= width <= usize::MAX,
        0 <= below <= 65536,
    ensures
        state.run(joined(track_event_pieces(tracks), below)) == Some(
            after_tracks(state, pixels, tracks, width, below),
        ),
    decreases below,
{
    let pieces = track_event_pieces(tracks);
    if below > 0 {
        let color = (below - 1) as u16;
        let line = state.cursor_y as int;
        let before = after_tracks(state, pixels, tracks, width, below - 1);
        let after = after_tracks(state, pixels, tracks, width, below);
        lemma_tracks_events(state, pixels, tracks, width, below - 1);
        if tracks.contains_key(color) {
            lemma_track_events(state, pixels, tracks, width, color);
            lemma_run_concat(state, joined(pieces, below - 1), pieces[color]);
        } else {
            assert(joined(pieces, below) =~= joined(pieces, below - 1));
            if any_below(tracks, below - 1) {
                assert(after.pixels =~= before.pixels) by {
                    assert forall|r: int| 0 <= r < before.pixels.len() implies after.pixels[r]
                        == before.pixels[r] by {
                        if line <= r < line + 6 {
                            assert forall|k: int| 0 <= k < width implies painted_pixel(
                                pixels,
                                r,
                                k,
                                below,
                                lowest(tracks),
                            ) == painted_pixel(pixels, r, k, below - 1, lowest(tracks)) by {
                                lemma_no_track_paints(
                                    pixels,
                                    tracks,
                                    line,
                                    width,
                                    color,
                                    r,
                                    k,
                                    lowest(tracks),
                                );
                            }
                            assert(after.pixels[r] =~= before.pixels[r]);
                        }
                    }
                }
            }
        }
    } else {
        assert(joined(pieces, below) =~= Seq::<Event>::empty());
    }
}

/// Where a colour has a track, the lowest colour with a track is one.
pub proof fn lemma_lowest(tracks: Map<u16, Seq<u8>>, color: u16)
    requires
        tracks.contains_key(color),
    ensures
        tracks.contains_key(lowest(tracks)),
        leads(tracks, lowest(tracks)),
        lowest(tracks) <= color,
    decreases color,
{
    if leads(tracks, color) {
    } else {
        let other = choose|other: u16| other < color && tracks.contains_key(other);
        lemma_lowest(tracks, other);
    }
    let least = lowest(tracks);
    if color < least {
        assert(!tracks.contains_key(color));
    }
}

/// The tracks of band `band` of a window.
pub open spec fn window_tracks(pixels: Seq<Seq<Pixel>>, window: Window, band: int) -> Map<
    u16,
    Seq<u8>,
> {
    let line = window.line(band);
    band_tracks(
        pixels,
        line,
        rows_in_band(line, window.max_y),
        window.start_x as int,
        band_width(pixels, line, window.start_x as int, window.max_x, window.max_y),
    )
}

/// The events that a band stands for: on to the next band unless it is the
/// first, then its tracks in ascending order of their colours.
pub open spec fn band_events(pixels: Seq<Seq<Pixel>>, window: Window, band: int) -> Seq<Event> {
    (if band != 0 {
        seq![Event::GotoNextLine]
    } else {
        Seq::<Event>::empty()
    }) + joined(track_event_pieces(window_tracks(pixels, window, band)), 65536)
}

/// The events that the first `count` bands stand for.
pub open spec fn bands_events(pixels: Seq<Seq<Pixel>>, window: Window, count: int) -> Seq<Event>
    decreases count,
{
    if count <= 0 {
        Seq::empty()
    } else {
        bands_events(pixels, window, count - 1) + band_events(pixels, window, count - 1)
    }
}

/// The window that holds a whole grid.
pub open spec fn whole(pixels: Seq<Seq<Pixel>>) -> Window {
    Window::of(pixels.len() as int, None, None, None, None)
}

/// Whether a band of the whole grid has a lit pixel.
pub open spec fn band_is_lit(pixels: Seq<Seq<Pixel>>, band: int) -> bool {
    exists|color: u16| window_tracks(pixels, whole(pixels), band).contains_key(color)
}

/// How many rows a decoder has after the events of the first `bands` bands
/// of a grid: the one row it begins with, or all rows down to the end of
/// the last band that has a lit pixel.
pub open spec fn decoded_height(pixels: Seq<Seq<Pixel>>, bands: int) -> int
    decreases bands,
{
    if bands <= 0 {
        1
    } else if band_is_lit(pixels, bands - 1) {
        6 * bands
    } else {
        decoded_height(pixels, bands - 1)
    }
}

/// A row of a grid as a decoder has it after the events of its band: as
/// long as the band is wide, with the lit pixels as they are and the others
/// unlit in the lowest colour of the band; empty where the band has no lit
/// pixel.
pub open spec fn decoded_row(pixels: Seq<Seq<Pixel>>, row: int) -> Seq<Pixel> {
    let band = row / 6;
    if band_is_lit(pixels, band) {
        Seq::new(
            if longest(pixels, 6 * band, 6) > 0 {
                longest(pixels, 6 * band, 6) as nat
            } else {
                0
            },
            |k: int|
                painted_pixel(
                    pixels,
                    row,
                    k,
                    65536,
                    lowest(window_tracks(pixels, whole(pixels), band)),
                ),
        )
    } else {
        Seq::empty()
    }
}

/// The grid that a decoder has after the events of the first `bands` bands
/// of a grid.
pub open spec fn decoded_grid(pixels: Seq<Seq<Pixel>>, bands: int) -> Seq<Seq<Pixel>> {
    Seq::new(
        decoded_height(pixels, bands) as nat,
        |r: int|
            if r / 6 < bands {
                decoded_row(pixels, r)
            } else {
                Seq::empty()
            },
    )
}

/// The rows that a decoder has reach down to the end of every band with a
/// lit pixel, and no further than the bands it has seen.
pub proof fn lemma_decoded_height(pixels: Seq<Seq<Pixel>>, bands: int, band: int)
    requires
        0 <= bands,
    ensures
        1 <= decoded_height(pixels, bands),
        decoded_height(pixels, bands) == 1 || decoded_height(pixels, bands) <= 6 * bands,
        0 <= band < bands && band_is_lit(pixels, band) ==> 6 * band + 6 <= decoded_height(
            pixels,
            bands,
        ),
    decreases bands,
{
    if bands > 0 {
        lemma_decoded_height(pixels, bands - 1, band);
    }
}

/// Whether a decoder stands between the bands of a grid, after `count` of
/// them: not stopped, with no limit, on the last band it has seen, and with
/// the grid that these bands give.
pub open spec fn between_bands(
    state: DecoderState,
    begin: DecoderState,
    pixels: Seq<Seq<Pixel>>,
    count: int,
) -> bool {
    &&& state.got_dcs
    &&& !state.stop_parsing
    &&& state.max_height == begin.max_height
    &&& state.color_registers == begin.color_registers
    &&& state.cursor_y == if count <= 0 {
        0
    } else {
        6 * (count - 1)
    }
    &&& count <= 0 ==> state.cursor_x == 0
    &&& state.pixels == decoded_grid(pixels, count)
}

/// The events of the first `count` bands of a grid give a decoder the grid
/// of these bands.
pub proof fn lemma_bands_events(begin: DecoderState, pixels: Seq<Seq<Pixel>>, count: int)
    requires
        begin.got_dcs,
        !begin.stop_parsing,
        begin.max_height is None,
        begin.cursor_y == 0,
        begin.cursor_x == 0,
        begin.pixels == seq![Seq::<Pixel>::empty()],
        pixels.len() + 12 <= usize::MAX,
        forall|r: int| 0 <= r < pixels.len() ==> (#[trigger] pixels[r]).len() <= usize::MAX,
        0 <= count <= whole(pixels).band_count(),
    ensures
        begin.run(bands_events(pixels, whole(pixels), count)) matches Some(state) && between_bands(
            state,
            begin,
            pixels,
            count,
        ),
    decreases count,
{
    let window = whole(pixels);
    if count <= 0 {
        assert(decoded_grid(pixels, 0) =~= begin.pixels);
    } else {
        let band = count - 1;
        lemma_bands_events(begin, pixels, band);
        let before = begin.run(bands_events(pixels, window, band))->0;
        let line = 6 * band;
        let tracks = window_tracks(pixels, window, band);
        let width = longest(pixels, line, 6);
        let top = if band != 0 {
            DecoderState { cursor_y: line as usize, cursor_x: 0, ..before }
        } else {
            before
        };
        let head = if band != 0 {
            seq![Event::GotoNextLine]
        } else {
            Seq::<Event>::empty()
        };
        assert(before.run(head) == Some(top)) by {
            if band != 0 {
                assert(head.drop_last() =~= Seq::<Event>::empty());
                assert(before.run(head.drop_last()) == Some(before));
            }
        }
        lemma_decoded_height(pixels, band, 0);
        assert(at_fresh_band(top)) by {
            assert forall|r: int| top.cursor_y <= r < top.cursor_y + 6 && r < top.pixels.len()
                implies (#[trigger] top.pixels[r]).len() == 0 by {
                assert(r / 6 >= band);
            }
        }
        lemma_longest_bound(pixels, line, 6);
        lemma_band_tracks_faithful(pixels, line, width);
        let after = if width >= 1 {
            lemma_tracks_events(top, pixels, tracks, width, 65536);
            after_tracks(top, pixels, tracks, width, 65536)
        } else {
            lemma_no_tracks(top, tracks);
            top
        };
        let body = joined(track_event_pieces(tracks), 65536);
        assert(top.run(body) == Some(after));
        lemma_run_concat(before, head, body);
        lemma_run_concat(begin, bands_events(pixels, window, band), band_events(pixels, window, band));
        lemma_any_below(tracks, 65536);
        assert(any_below(tracks, 65536) <==> band_is_lit(pixels, band)) by {
            if band_is_lit(pixels, band) {
                let color = choose|color: u16| tracks.contains_key(color);
                assert(color < 65536 && tracks.contains_key(color));
            }
        }
        assert(after.pixels =~= decoded_grid(pixels, count)) by {
            if band_is_lit(pixels, band) {
                assert(width >= 1) by {
                    let color = choose|color: u16| tracks.contains_key(color);
                    assert(color_used(pixels, line, 6, 0, 0 + width, color));
                }
                assert forall|r: int| 0 <= r < 6 * count implies after.pixels[r] == decoded_grid(
                    pixels,
                    count,
                )[r] by {
                    if r < line {
                        lemma_decoded_height(pixels, band, r / 6);
                        if r >= decoded_height(pixels, band) {
                            assert(!band_is_lit(pixels, r / 6));
                        }
                    } else {
                        assert(r / 6 == band);
                        assert(after.pixels[r] =~= decoded_row(pixels, r));
                    }
                }
            } else {
                assert forall|r: int| 0 <= r < decoded_height(pixels, count) implies after.pixels[r]
                    == decoded_grid(pixels, count)[r] by {
                    if r / 6 >= band {
                        assert(r / 6 == band);
                    }
                }
            }
        }
    }
}

/// No row is longer than the longest.
pub proof fn lemma_longest_bound(pixels: Seq<Seq<Pixel>>, line: int, rows: int)
    requires
        forall|r: int| 0 <= r < pixels.len() ==> (#[trigger] pixels[r]).len() <= usize::MAX,
    ensures
        0 <= longest(pixels, line, rows) <= usize::MAX,
    decreases rows,
{
    if rows > 0 {
        lemma_longest_bound(pixels, line, rows - 1);
    }
}

/// Where a band is no column wide, no colour has a track, and there is no
/// event to take.
pub proof fn lemma_no_tracks(state: DecoderState, tracks: Map<u16, Seq<u8>>)
    requires
        forall|color: u16| !tracks.contains_key(color),
    ensures
        state.run(joined(track_event_pieces(tracks), 65536)) == Some(state),
{
    lemma_joined_gap(track_event_pieces(tracks), 0, 65536);
    assert(joined(track_event_pieces(tracks), 0) =~= Seq::<Event>::empty());
}

/// The event that defines a register with a colour.
pub open spec fn definition(number: u16, color: SixelColor) -> Event {
    Event::ColorIntroducer {
        color_number: number,
        color_coordinate_system: Some(
            match color {
                SixelColor::Hsl(x, y, z) => ColorCoordinates::Hls(
                    x as usize,
                    y as usize,
                    z as usize,
                ),
                SixelColor::Rgb(x, y, z) => ColorCoordinates::Rgb(
                    x as usize,
                    y as usize,
                    z as usize,
                ),
            },
        ),
    }
}

/// The definition of each register, by number.
pub open spec fn definition_pieces(registers: Map<u16, SixelColor>) -> Map<u16, Seq<Event>> {
    Map::new(
        |number: u16| registers.contains_key(number),
        |number: u16| seq![definition(number, registers[number])],
    )
}

/// The registers whose number is below `below`.
pub open spec fn registers_below(registers: Map<u16, SixelColor>, below: int) -> Map<
    u16,
    SixelColor,
> {
    Map::new(
        |number: u16| number < below && registers.contains_key(number),
        |number: u16| registers[number],
    )
}

/// The definitions of the registers below `below` give a decoder these
/// registers and change nothing else.
pub proof fn lemma_definitions(state: DecoderState, registers: Map<u16, SixelColor>, below: int)
    requires
        state.got_dcs,
        !state.stop_parsing,
        state.color_registers == Map::<u16, SixelColor>::empty(),
        0 <= below <= 65536,
    ensures
        state.run(joined(definition_pieces(registers), below)) == Some(
            DecoderState { color_registers: registers_below(registers, below), ..state },
        ),
    decreases below,
{
    let pieces = definition_pieces(registers);
    if below <= 0 {
        assert(joined(pieces, below) =~= Seq::<Event>::empty());
        assert(registers_below(registers, below) =~= state.color_registers);
    } else {
        let number = (below - 1) as u16;
        lemma_definitions(state, registers, below - 1);
        let before = DecoderState {
            color_registers: registers_below(registers, below - 1),
            ..state
        };
        if registers.contains_key(number) {
            let piece = pieces[number];
            assert(piece.drop_last() =~= Seq::<Event>::empty());
            assert(before.run(piece.drop_last()) == Some(before));
            assert(color_of(definition(number, registers[number])->color_coordinate_system->0)
                == registers[number]);
            assert(before.color_registers.insert(number, registers[number]) =~= registers_below(
                registers,
                below,
            ));
            lemma_run_concat(state, joined(pieces, below - 1), piece);
        } else {
            assert(joined(pieces, below) =~= joined(pieces, below - 1));
            assert(registers_below(registers, below) =~= registers_below(registers, below - 1));
        }
    }
}

/// The events that the stream of an image stands for: the introducer, the
/// definitions of the registers, the bands, the terminator.
pub open spec fn image_events(
    registers: Map<u16, SixelColor>,
    pixels: Seq<Seq<Pixel>>,
    window: Window,
) -> Seq<Event> {
    seq![
        Event::Dcs {
            macro_parameter: None,
            transparent_background: None,
            horizontal_pixel_distance: None,
        },
    ] + joined(definition_pieces(registers), 65536) + bands_events(
        pixels,
        window,
        window.band_count(),
    ) + seq![Event::End]
}

/// The grid that the events of a whole grid decode to.
pub open spec fn normal_form(pixels: Seq<Seq<Pixel>>) -> Seq<Seq<Pixel>> {
    decoded_grid(pixels, whole(pixels).band_count())
}

/// A decoder makes of the events of an image the registers of the image
/// and the normal form of its grid.
pub proof fn lemma_image_events(registers: Map<u16, SixelColor>, pixels: Seq<Seq<Pixel>>)
    requires
        pixels.len() + 12 <= usize::MAX,
        forall|r: int| 0 <= r < pixels.len() ==> (#[trigger] pixels[r]).len() <= usize::MAX,
    ensures
        decoded(image_events(registers, pixels, whole(pixels)), None) matches Some(state)
            && state.color_registers == registers && state.pixels == normal_form(pixels),
{
    let window = whole(pixels);
    let introducer = seq![
        Event::Dcs {
            macro_parameter: None,
            transparent_background: None,
            horizontal_pixel_distance: None,
        },
    ];
    let definitions = joined(definition_pieces(registers), 65536);
    let bands = bands_events(pixels, window, window.band_count());
    let terminator = seq![Event::End];
    let begin = start(None);
    let introduced = DecoderState { got_dcs: true, ..begin };
    assert(begin.run(introducer) == Some(introduced)) by {
        assert(introducer.drop_last() =~= Seq::<Event>::empty());
        assert(begin.run(introducer.drop_last()) == Some(begin));
    }
    lemma_definitions(introduced, registers, 65536);
    let defined = DecoderState { color_registers: registers, ..introduced };
    assert(registers_below(registers, 65536) =~= registers);
    lemma_run_concat(begin, introducer, definitions);
    lemma_bands_events(defined, pixels, window.band_count());
    lemma_run_concat(begin, introducer + definitions, bands);
    let drawn = defined.run(bands)->0;
    assert(drawn.run(terminator) == Some(drawn)) by {
        assert(terminator.drop_last() =~= Seq::<Event>::empty());
        assert(drawn.run(terminator.drop_last()) == Some(drawn));
    }
    lemma_run_concat(begin, introducer + definitions + bands, terminator);
}

/// Two grids that are lit alike in a column have the same mask there.
pub proof fn lemma_mask_alike(
    pixels: Seq<Seq<Pixel>>,
    others: Seq<Seq<Pixel>>,
    line: int,
    column: int,
    rows: int,
    color: u16,
)
    requires
        forall|r: int|
            line <= r < line + rows ==> (lit(pixels, r, column, color) <==> lit(
                others,
                r,
                column,
                color,
            )),
    ensures
        mask(pixels, line, column, rows, color) == mask(others, line, column, rows, color),
    decreases rows,
{
    if rows > 0 {
        lemma_mask_alike(pixels, others, line, column, rows - 1, color);
    }
}

/// The normal form of a grid has the tracks of the grid in every band.
pub proof fn lemma_normal_form_tracks(pixels: Seq<Seq<Pixel>>, band: int)
    requires
        0 <= band < whole(pixels).band_count(),
    ensures
        window_tracks(normal_form(pixels), whole(normal_form(pixels)), band) == window_tracks(
            pixels,
            whole(pixels),
            band,
        ),
{
    let normal = normal_form(pixels);
    let bands = whole(pixels).band_count();
    let line = 6 * band;
    let width = longest(pixels, line, 6);
    let tracks = window_tracks(pixels, whole(pixels), band);
    let others = window_tracks(normal, whole(normal), band);
    lemma_decoded_height(pixels, bands, band);
    reveal_with_fuel(longest, 7);
    if band_is_lit(pixels, band) {
        let color = choose|color: u16| tracks.contains_key(color);
        assert(color_used(pixels, line, 6, 0, 0 + width, color));
        assert(width >= 1);
        assert forall|r: int| line <= r < line + 6 implies (#[trigger] normal[r]).len()
            == width by {
            assert(r / 6 == band);
        }
        assert(longest(normal, line, 6) == width);
        assert forall|r: int, column: int, color: u16| line <= r < line + 6 implies (lit(
            pixels,
            r,
            column,
            color,
        ) <==> lit(normal, r, column, color)) by {
            assert(r / 6 == band);
            if 0 <= column < width {
                assert(normal[r][column] == painted_pixel(
                    pixels,
                    r,
                    column,
                    65536,
                    lowest(tracks),
                ));
            } else {
                lemma_longest_reaches(pixels, line, r, column);
            }
        }
        assert forall|column: int, color: u16|
            mask(pixels, line, column, 6, color) == mask(normal, line, column, 6, color) by {
            lemma_mask_alike(pixels, normal, line, column, 6, color);
        }
        assert forall|color: u16| tracks.contains_key(color) <==> others.contains_key(color) by {
            if tracks.contains_key(color) {
                let at = choose|at: int|
                    0 <= at < 0 + width && mask(pixels, line, at, 6, color) != 0;
                assert(mask(normal, line, at, 6, color) != 0);
            }
            if others.contains_key(color) {
                let at = choose|at: int|
                    0 <= at < 0 + width && mask(normal, line, at, 6, color) != 0;
                assert(mask(pixels, line, at, 6, color) != 0);
            }
        }
        assert forall|color: u16| tracks.contains_key(color) implies tracks[color]
            == others[color] by {
            assert(tracks[color] =~= others[color]);
        }
        assert(tracks =~= others);
    } else {
        assert forall|r: int| line <= r < line + 6 implies row_length(normal, r) == 0 by {
            if r < normal.len() {
                assert(r / 6 == band);
            }
        }
        assert(longest(normal, line, 6) == 0);
        assert forall|color: u16| !others.contains_key(color) by {}
        assert(tracks =~= others);
    }
}

/// No row of a band reaches a column at or past the end of its longest row.
pub proof fn lemma_longest_reaches(pixels: Seq<Seq<Pixel>>, line: int, row: int, column: int)
    requires
        line <= row < line + 6,
        column < 0 || longest(pixels, line, 6) <= column,
    ensures
        cell(pixels, row, column) is None,
{
    reveal_with_fuel(longest, 7);
}

/// The bands of the normal form of a grid are written as the bands of the
/// grid.
pub proof fn lemma_normal_form_bands(pixels: Seq<Seq<Pixel>>, count: int)
    requires
        0 <= count <= whole(pixels).band_count(),
    ensures
        bands_text(normal_form(pixels), whole(normal_form(pixels)), count) == bands_text(
            pixels,
            whole(pixels),
            count,
        ),
    decreases count,
{
    if count > 0 {
        lemma_normal_form_bands(pixels, count - 1);
        lemma_normal_form_tracks(pixels, count - 1);
    }
}

/// Decoding what was encoded and encoding it again gives the same stream:
/// a decoder that takes the events of the stream of an image has an image
/// with the same stream. This holds of an image whose last band has a lit
/// pixel, and of an image of one band or none; a band without a lit pixel at
/// the end of an image is written as a line break and leaves no row in the
/// decoder.
pub proof fn lemma_round_trip(registers: Map<u16, SixelColor>, pixels: Seq<Seq<Pixel>>)
    requires
        pixels.len() + 12 <= usize::MAX,
        forall|r: int| 0 <= r < pixels.len() ==> (#[trigger] pixels[r]).len() <= usize::MAX,
        whole(pixels).band_count() <= 1 || band_is_lit(pixels, whole(pixels).band_count() - 1),
    ensures
        decoded(image_events(registers, pixels, whole(pixels)), None) matches Some(state)
            && image_text(state.color_registers, state.pixels, whole(state.pixels)) == image_text(
            registers,
            pixels,
            whole(pixels),
        ),
{
    lemma_image_events(registers, pixels);
    let normal = normal_form(pixels);
    let bands = whole(pixels).band_count();
    lemma_decoded_height(pixels, bands, bands - 1);
    if bands == 0 {
        assert(whole(normal).band_count() == 1);
        let tracks = window_tracks(normal, whole(normal), 0);
        reveal_with_fuel(longest, 7);
        assert(longest(normal, 0, 6) == 0);
        assert forall|color: u16| !tracks.contains_key(color) by {}
        lemma_joined_gap(track_pieces(tracks), 0, 65536);
        assert(joined(track_pieces(tracks), 0) =~= Seq::<char>::empty());
        assert(band_text(normal, whole(normal), 0) =~= Seq::<char>::empty());
        assert(bands_text(normal, whole(normal), 1) =~= bands_text(normal, whole(normal), 0));
    } else {
        assert(whole(normal).band_count() == bands);
        lemma_normal_form_bands(pixels, bands);
    }
}

/// How the encoder writes an event. It writes no parameter of the
/// introducer, and neither raster attributes nor bytes that form no token.
pub open spec fn event_text(event: Event) -> Seq<char> {
    match event {
        Event::ColorIntroducer { color_number, color_coordinate_system } => {
            match color_coordinate_system {
                Some(ColorCoordinates::Hls(x, y, z)) => seq!['#'] + decimal(color_number as nat)
                    + seq![';', '1', ';'] + decimal(x as nat) + seq![';'] + decimal(y as nat)
                    + seq![';'] + decimal(z as nat),
                Some(ColorCoordinates::Rgb(x, y, z)) => seq!['#'] + decimal(color_number as nat)
                    + seq![';', '2', ';'] + decimal(x as nat) + seq![';'] + decimal(y as nat)
                    + seq![';'] + decimal(z as nat),
                None => seq!['#'] + decimal(color_number as nat),
            }
        },
        Event::RasterAttribute { pan, pad, ph, pv } => Seq::empty(),
        Event::Data { byte } => seq![byte as char],
        Event::Repeat { repeat_count, byte_to_repeat } => seq!['!'] + decimal(repeat_count as nat)
            + seq![byte_to_repeat as char],
        Event::Dcs { macro_parameter, transparent_background, horizontal_pixel_distance } => {
            introducer_text()
        },
        Event::GotoBeginningOfLine => seq!['$'],
        Event::GotoNextLine => seq!['-'],
        Event::UnknownSequence(bytes) => Seq::empty(),
        Event::End => terminator_text(),
    }
}

/// How the encoder writes a stream of events: each as `event_text` has it,
/// one after the other.
pub open spec fn events_text(events: Seq<Event>) -> Seq<char>
    decreases events.len(),
{
    if events.len() == 0 {
        Seq::empty()
    } else {
        events_text(events.drop_last()) + event_text(events.last())
    }
}

/// Two streams in a row are written one after the other.
pub proof fn lemma_events_text_concat(first: Seq<Event>, second: Seq<Event>)
    ensures
        events_text(first + second) == events_text(first) + events_text(second),
    decreases second.len(),
{
    if second.len() == 0 {
        assert(first + second =~= first);
        assert(events_text(first) + events_text(second) =~= events_text(first));
    } else {
        lemma_events_text_concat(first, second.drop_last());
        assert((first + second).drop_last() =~= first + second.drop_last());
        assert((first + second).last() == second.last());
        assert(events_text(first + second) =~= events_text(first) + events_text(second));
    }
}

/// One event is written as `event_text` has it.
pub proof fn lemma_event_text(event: Event)
    ensures
        events_text(seq![event]) == event_text(event),
{
    let events = seq![event];
    assert(events.drop_last() =~= Seq::<Event>::empty());
    assert(events_text(events.drop_last()) =~= Seq::<char>::empty());
    assert(events.last() == event);
    assert(events_text(events) =~= event_text(event));
}

/// The events of a run are written as the run.
pub proof fn lemma_run_events_text(count: nat, byte: u8)
    requires
        count <= usize::MAX,
    ensures
        events_text(run_events(count, byte)) == run_text(count, byte as char),
    decreases count,
{
    let events = run_events(count, byte);
    if count > 2 {
        lemma_event_text(events[0]);
        assert(events =~= seq![events[0]]);
    } else if count == 0 {
        assert(run_text(count, byte as char) =~= Seq::<char>::empty());
    } else {
        let before = run_events((count - 1) as nat, byte);
        lemma_run_events_text((count - 1) as nat, byte);
        assert(events.drop_last() =~= before);
        assert(events_text(events) =~= run_text(count, byte as char));
    }
}

/// The events of a track are written as the track in run-length form.
pub proof fn lemma_track_events_text(track: Seq<u8>, start: int)
    requires
        track.len() <= usize::MAX,
    ensures
        events_text(track_events_from(track, start)) == compressed_from(track, start),
    decreases track.len() - start,
{
    if 0 <= start < track.len() {
        let count = run_length(track, start);
        lemma_run_length_bounds(track, start);
        lemma_run_events_text(count, track[start]);
        lemma_track_events_text(track, start + count);
        lemma_events_text_concat(
            run_events(count, track[start]),
            track_events_from(track, start + count),
        );
    }
}

/// Pieces of events, joined, are written as their texts, joined.
pub proof fn lemma_joined_text(
    events: Map<u16, Seq<Event>>,
    texts: Map<u16, Seq<char>>,
    below: int,
)
    requires
        forall|number: u16| events.contains_key(number) <==> texts.contains_key(number),
        forall|number: u16|
            events.contains_key(number) ==> events_text(#[trigger] events[number])
                == texts[number],
    ensures
        events_text(joined(events, below)) == joined(texts, below),
    decreases below,
{
    if below > 0 {
        lemma_joined_text(events, texts, below - 1);
        let number = (below - 1) as u16;
        if events.contains_key(number) {
            lemma_events_text_concat(joined(events, below - 1), events[number]);
        } else {
            assert(joined(events, below) =~= joined(events, below - 1));
            assert(joined(texts, below) =~= joined(texts, below - 1));
        }
    }
}

/// The events of the tracks of a band are written as the tracks.
pub proof fn lemma_tracks_events_text(tracks: Map<u16, Seq<u8>>)
    requires
        forall|color: u16| tracks.contains_key(color) ==> (#[trigger] tracks[color]).len()
            <= usize::MAX,
    ensures
        events_text(joined(track_event_pieces(tracks), 65536)) == tracks_text(tracks),
{
    let events = track_event_pieces(tracks);
    let texts = track_pieces(tracks);
    assert forall|color: u16| events.contains_key(color) implies events_text(
        #[trigger] events[color],
    ) == texts[color] by {
        let track = tracks[color];
        let head = if leads(tracks, color) {
            Seq::<Event>::empty()
        } else {
            seq![Event::GotoBeginningOfLine]
        };
        lemma_track_events_text(track, 0);
        lemma_event_text(select(color));
        lemma_event_text(Event::GotoBeginningOfLine);
        lemma_events_text_concat(head, seq![select(color)]);
        lemma_events_text_concat(head + seq![select(color)], track_events_from(track, 0));
        assert(events_text(events[color]) =~= texts[color]);
    }
    lemma_joined_text(events, texts, 65536);
}

/// The events of the registers are written as the registers.
pub proof fn lemma_definitions_text(registers: Map<u16, SixelColor>)
    ensures
        events_text(joined(definition_pieces(registers), 65536)) == registers_text(registers),
{
    let events = definition_pieces(registers);
    let texts = register_pieces(registers);
    assert forall|number: u16| events.contains_key(number) implies events_text(
        #[trigger] events[number],
    ) == texts[number] by {
        lemma_event_text(definition(number, registers[number]));
        match registers[number] {
            SixelColor::Hsl(x, y, z) => {
                assert(event_text(definition(number, registers[number])) == register_text(
                    number,
                    registers[number],
                ));
            },
            SixelColor::Rgb(x, y, z) => {
                assert(event_text(definition(number, registers[number])) == register_text(
                    number,
                    registers[number],
                ));
            },
        }
    }
    lemma_joined_text(events, texts, 65536);
}

/// Whether no band of a window is wider than a machine can count.
pub open spec fn countable(pixels: Seq<Seq<Pixel>>, window: Window) -> bool {
    &&& forall|r: int| 0 <= r < pixels.len() ==> (#[trigger] pixels[r]).len() <= usize::MAX
    &&& window.max_x matches Some(last) ==> last < usize::MAX
    &&& window.max_x is None ==> window.max_y is None
}

/// The events of the bands are written as the bands.
pub proof fn lemma_bands_events_text(pixels: Seq<Seq<Pixel>>, window: Window, count: int)
    requires
        countable(pixels, window),
    ensures
        events_text(bands_events(pixels, window, count)) == bands_text(pixels, window, count),
    decreases count,
{
    if count > 0 {
        let band = count - 1;
        lemma_bands_events_text(pixels, window, band);
        let line = window.line(band);
        let tracks = window_tracks(pixels, window, band);
        lemma_longest_bound(pixels, line, 6);
        lemma_tracks_events_text(tracks);
        let head = if band != 0 {
            seq![Event::GotoNextLine]
        } else {
            Seq::<Event>::empty()
        };
        lemma_event_text(Event::GotoNextLine);
        lemma_events_text_concat(head, joined(track_event_pieces(tracks), 65536));
        assert(events_text(band_events(pixels, window, band)) =~= band_text(pixels, window, band));
        lemma_events_text_concat(
            bands_events(pixels, window, band),
            band_events(pixels, window, band),
        );
    }
}

/// The stream of an image is what its events are written as.
pub proof fn lemma_image_events_text(
    registers: Map<u16, SixelColor>,
    pixels: Seq<Seq<Pixel>>,
    window: Window,
)
    requires
        countable(pixels, window),
    ensures
        events_text(image_events(registers, pixels, window)) == image_text(
            registers,
            pixels,
            window,
        ),
{
    let introducer = seq![
        Event::Dcs {
            macro_parameter: None,
            transparent_background: None,
            horizontal_pixel_distance: None,
        },
    ];
    let definitions = joined(definition_pieces(registers), 65536);
    let bands = bands_events(pixels, window, window.band_count());
    let terminator = seq![Event::End];
    lemma_event_text(introducer[0]);
    lemma_event_text(Event::End);
    assert(introducer =~= seq![introducer[0]]);
    lemma_definitions_text(registers);
    lemma_bands_events_text(pixels, window, window.band_count());
    lemma_events_text_concat(introducer, definitions);
    lemma_events_text_concat(introducer + definitions, bands);
    lemma_events_text_concat(introducer + definitions + bands, terminator);
}

} // verus!
