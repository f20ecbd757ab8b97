//! The way to the tokenizer of the `sixel_tokenizer` crate. Nothing in this
//! file is proved: each contract states what that crate's source shows. The
//! tokenizer is a state machine that hands out events byte by byte; what it
//! hands out is a function of the bytes it was given since it was made.

use sixel_tokenizer::ColorCoordinateSystem;
use sixel_tokenizer::Parser;
use sixel_tokenizer::SixelEvent;
use vstd::prelude::*;
use crate::event::ColorCoordinates;
use crate::event::Event;

verus! {

/// `sixel_tokenizer::Parser`, the tokenizer's state machine.
#[verifier::external_type_specification]
#[verifier::external_body]
pub struct ExParser(Parser);

/// `sixel_tokenizer::SixelEvent`, one token as the tokenizer hands it out.
#[verifier::external_type_specification]
#[verifier::external_body]
pub struct ExSixelEvent(SixelEvent);

/// `sixel_tokenizer::ColorCoordinateSystem`, the numbers of a colour
/// definition as the tokenizer hands them out.
#[verifier::external_type_specification]
#[verifier::external_body]
pub struct ExColorCoordinateSystem(ColorCoordinateSystem);

/// The events that a new `Parser` hands out, in order, while it is given
/// `input` byte by byte through `Parser::advance`.
pub uninterp spec fn tokens(input: Seq<u8>) -> Seq<Event>;

/// The numbers of a `ColorCoordinateSystem`, variant for variant.
#[verifier::external_body]
fn coordinates_of(coordinates: ColorCoordinateSystem) -> ColorCoordinates {
    match coordinates {
        ColorCoordinateSystem::HLS(x, y, z) => ColorCoordinates::Hls(x, y, z),
        ColorCoordinateSystem::RGB(x, y, z) => ColorCoordinates::Rgb(x, y, z),
    }
}

/// The fields of a `SixelEvent`, variant for variant.
#[verifier::external_body]
fn event_of(event: SixelEvent) -> Event {
    match event {
        SixelEvent::ColorIntroducer { color_number, color_coordinate_system } => Event::ColorIntroducer { color_number, color_coordinate_system: color_coordinate_system.map(coordinates_of) },
        SixelEvent::RasterAttribute { pan, pad, ph, pv } => Event::RasterAttribute { pan, pad, ph, pv },
        SixelEvent::Data { byte } => Event::Data { byte },
        SixelEvent::Repeat { repeat_count, byte_to_repeat } => Event::Repeat { repeat_count, byte_to_repeat },
        SixelEvent::Dcs { macro_parameter, transparent_background, horizontal_pixel_distance } => Event::Dcs { macro_parameter, transparent_background, horizontal_pixel_distance },
        SixelEvent::GotoBeginningOfLine => Event::GotoBeginningOfLine,
        SixelEvent::GotoNextLine => Event::GotoNextLine,
        SixelEvent::UnknownSequence(bytes) => Event::UnknownSequence(bytes),
        SixelEvent::End => Event::End,
    }
}

/// The tokenizer together with the bytes it was given since it was made.
/// The `Parser` itself keeps no such record: it forgets blank bytes at once
/// and starts afresh after a terminator. The record is kept beside it, and
/// only the two functions below write either field.
pub struct Tokenizer {
    parser: Parser,
    fed: Ghost<Seq<u8>>,
}

impl Tokenizer {
    /// The bytes that the tokenizer was given since it was made, in order.
    pub closed spec fn fed(&self) -> Seq<u8> {
        self.fed@
    }

    /// `Parser::new`: a tokenizer that was given no byte and has handed out
    /// no event.
    #[verifier::external_body]
    pub(crate) fn new() -> (tokenizer: Tokenizer)
        ensures
            tokenizer.fed() == Seq::<u8>::empty(),
            tokens(tokenizer.fed()) == Seq::<Event>::empty(),
    {
        Tokenizer { parser: Parser::new(), fed: Ghost(Seq::empty()) }
    }

    /// `Parser::advance`: gives the tokenizer one more byte and collects the
    /// events that it hands out for it, in order. What it hands out depends
    /// on the bytes it was given since it was made and on nothing else, so
    /// these events are what `tokens` grows by.
    #[verifier::external_body]
    pub(crate) fn advance(&mut self, byte: u8) -> (events: Vec<Event>)
        ensures
            final(self).fed() == old(self).fed().push(byte),
            tokens(final(self).fed()) == tokens(old(self).fed()) + events@,
    {
        let mut events = Vec::new();
        self.parser.advance(&byte, |event| events.push(event_of(event)));
        events
    }
}

} // verus!
