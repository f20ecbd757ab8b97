//! The events that drive the decoder: one value per token of a sixel stream.

use vstd::prelude::*;

verus! {

/// The three numbers of a colour definition, as they stand in the stream,
/// tagged with the coordinate system they were given in.
#[derive(Clone, Copy, Debug, PartialEq, Eq, Structural)]
pub enum ColorCoordinates {
    /// Hue, lightness and saturation (system `1`).
    Hls(usize, usize, usize),
    /// Red, green and blue (system `2`).
    Rgb(usize, usize, usize),
}

/// One token of a sixel stream.
#[derive(Clone, Copy, Debug, PartialEq, Eq)]
pub enum Event {
    /// `#n` selects register `n`; `#n;s;a;b;c` defines it.
    ColorIntroducer { color_number: u16, color_coordinate_system: Option<ColorCoordinates> },
    /// `"pan;pad;ph;pv`: the extent the stream asks for.
    RasterAttribute { pan: usize, pad: usize, ph: Option<usize>, pv: Option<usize> },
    /// One column of six pixels, as the raw byte (not yet lowered by 63).
    Data { byte: u8 },
    /// `!n` before a data byte: the column `n` times.
    Repeat { repeat_count: usize, byte_to_repeat: u8 },
    /// The introducer `ESC P .. q` that opens the stream.
    Dcs {
        macro_parameter: Option<u8>,
        transparent_background: Option<u8>,
        horizontal_pixel_distance: Option<usize>,
    },
    /// `$`: back to the first column of the same band.
    GotoBeginningOfLine,
    /// `-`: on to the next band.
    GotoNextLine,
    /// Bytes that form no token.
    UnknownSequence([Option<u8>; 5]),
    /// The terminator `ESC \`.
    End,
}

} // verus!
