use sixel_image::{ColorCoordinates, Event, SixelColor, SixelDeserializer, SixelImage};

const CORRUPTED_IMAGE: &str = "Corrupted image sequence";
const CORRUPTED_SIXEL: &str = "Corrupted Sixel sequence";

fn dcs() -> Event {
    Event::Dcs { macro_parameter: None, transparent_background: None, horizontal_pixel_distance: None }
}

fn transparent_dcs(flag: u8) -> Event {
    Event::Dcs {
        macro_parameter: Some(0),
        transparent_background: Some(flag),
        horizontal_pixel_distance: None,
    }
}

fn select(color_number: u16) -> Event {
    Event::ColorIntroducer { color_number, color_coordinate_system: None }
}

fn define(color_number: u16, coordinates: ColorCoordinates) -> Event {
    Event::ColorIntroducer { color_number, color_coordinate_system: Some(coordinates) }
}

fn data(byte: u8) -> Event {
    Event::Data { byte }
}

fn repeat(repeat_count: usize, byte_to_repeat: u8) -> Event {
    Event::Repeat { repeat_count, byte_to_repeat }
}

fn raster(ph: Option<usize>, pv: Option<usize>) -> Event {
    Event::RasterAttribute { pan: 1, pad: 1, ph, pv }
}

fn unknown() -> Event {
    Event::UnknownSequence([Some(b'x'), None, None, None, None])
}

fn stream(body: &str) -> String {
    format!("\u{1b}Pq{}\u{1b}\\", body)
}

fn decode(events: &[Event]) -> SixelImage {
    SixelImage::from_events(events, None).unwrap()
}

#[test]
fn no_event_is_no_image() {
    assert_eq!(SixelImage::from_events(&[], None).unwrap_err(), CORRUPTED_IMAGE);
}

#[test]
fn every_event_but_the_introducer_is_an_error_at_the_start() {
    let first_events = [
        select(1),
        define(1, ColorCoordinates::Rgb(1, 2, 3)),
        raster(Some(1), Some(1)),
        data(b'~'),
        repeat(3, b'~'),
        Event::GotoBeginningOfLine,
        Event::GotoNextLine,
        unknown(),
        Event::End,
    ];
    for event in first_events {
        assert_eq!(SixelImage::from_events(&[event], None).unwrap_err(), CORRUPTED_IMAGE);
        assert_eq!(SixelImage::from_events(&[event, dcs()], None).unwrap_err(), CORRUPTED_IMAGE);
        let mut deserializer = SixelDeserializer::new();
        assert_eq!(deserializer.handle_event(event), Err(CORRUPTED_IMAGE));
        // the state is as it was: the introducer is still taken
        assert_eq!(deserializer.handle_event(dcs()), Ok(()));
    }
}

#[test]
fn the_introducer_alone_is_an_image_of_one_empty_row() {
    let image = decode(&[dcs()]);
    assert_eq!(image.pixel_size(), (1, 0));
    assert_eq!(image.serialize(), stream(""));
}

#[test]
fn create_image_needs_the_introducer() {
    assert_eq!(SixelDeserializer::new().create_image().unwrap_err(), CORRUPTED_IMAGE);
    assert_eq!(SixelDeserializer::new().max_height(100).create_image().unwrap_err(), CORRUPTED_IMAGE);
    let mut deserializer = SixelDeserializer::new();
    deserializer.handle_event(dcs()).unwrap();
    assert_eq!(deserializer.create_image().unwrap().pixel_size(), (1, 0));
}

#[test]
fn unknown_sequence_is_an_error_after_the_introducer() {
    assert_eq!(SixelImage::from_events(&[dcs(), unknown()], None).unwrap_err(), CORRUPTED_SIXEL);
    assert_eq!(
        SixelImage::from_events(&[dcs(), data(b'~'), unknown(), data(b'~')], None).unwrap_err(),
        CORRUPTED_SIXEL
    );
    let mut deserializer = SixelDeserializer::new();
    deserializer.handle_event(dcs()).unwrap();
    assert_eq!(deserializer.handle_event(unknown()), Err(CORRUPTED_SIXEL));
}

#[test]
fn an_error_leaves_the_decoder_as_it_was() {
    let mut deserializer = SixelDeserializer::new();
    deserializer.handle_events(&[dcs(), select(3), data(b'@')]).unwrap();
    assert_eq!(deserializer.handle_event(unknown()), Err(CORRUPTED_SIXEL));
    deserializer.handle_event(data(b'@')).unwrap();
    let image = deserializer.create_image().unwrap();
    assert_eq!(image.pixel_size(), (6, 2));
    assert_eq!(image.serialize(), stream("#3@@"));
}

#[test]
fn handle_events_stops_at_the_first_error() {
    let mut deserializer = SixelDeserializer::new();
    let result = deserializer.handle_events(&[dcs(), data(b'@'), unknown(), data(b'@'), data(b'@')]);
    assert_eq!(result, Err(CORRUPTED_SIXEL));
    let image = deserializer.create_image().unwrap();
    assert_eq!(image.pixel_size(), (6, 1));
}

#[test]
fn the_terminator_changes_nothing() {
    let image = decode(&[dcs(), data(b'@'), Event::End, data(b'@'), Event::End]);
    assert_eq!(image.pixel_size(), (6, 2));
    assert_eq!(image.serialize(), stream("#0@@"));
}

#[test]
fn a_second_introducer_is_taken() {
    let image = decode(&[dcs(), data(b'@'), transparent_dcs(1), raster(Some(9), Some(9))]);
    assert_eq!(image.pixel_size(), (6, 1));
}

#[test]
fn data_draws_six_pixels_and_moves_right() {
    // 'B' is 63 + 3: the two upper pixels
    let image = decode(&[dcs(), data(b'B'), data(b'?'), data(b'~')]);
    assert_eq!(image.pixel_size(), (6, 3));
    assert_eq!(image.serialize(), stream("#0B?~"));
    assert_eq!(image.serialize_range(0, 0, 3, 1), stream("#0@?@"));
    assert_eq!(image.serialize_range(0, 1, 3, 1), stream("#0@?@"));
    assert_eq!(image.serialize_range(0, 2, 3, 1), stream("#0??@"));
    assert_eq!(image.serialize_range(0, 5, 3, 1), stream("#0??@"));
}

#[test]
fn a_data_byte_below_the_first_sixel_is_an_empty_column() {
    for byte in [0u8, 10, 62, 63] {
        let image = decode(&[dcs(), data(byte)]);
        assert_eq!(image.pixel_size(), (6, 1));
        assert_eq!(image.serialize(), stream(""));
    }
}

#[test]
fn only_six_bits_of_a_data_byte_count() {
    // 63 + 64 + 1: a seventh bit and the first
    let image = decode(&[dcs(), data(128)]);
    assert_eq!(image.serialize(), stream("#0@"));
    // 255 - 63 = 192: only a seventh and an eighth bit
    let image = decode(&[dcs(), data(255)]);
    assert_eq!(image.serialize(), stream(""));
}

#[test]
fn repeat_draws_the_column_count_times() {
    let image = decode(&[dcs(), repeat(5, b'@'), data(b'~'), repeat(1, b'A'), repeat(2, b'~')]);
    assert_eq!(image.pixel_size(), (6, 9));
    assert_eq!(image.serialize(), stream("#0!5@~A~~"));
}

#[test]
fn repeat_of_zero_changes_nothing() {
    let image = decode(&[dcs(), repeat(0, b'~')]);
    assert_eq!(image.pixel_size(), (1, 0));
    assert_eq!(image.serialize(), stream(""));
    let image = decode(&[dcs(), data(b'~'), repeat(0, b'~'), data(b'@')]);
    assert_eq!(image.pixel_size(), (6, 2));
    assert_eq!(image.serialize(), stream("#0~@"));
}

#[test]
fn a_later_pass_lights_pixels_and_puts_none_out() {
    let image = decode(&[
        dcs(),
        select(1),
        data(b'~'),
        data(b'~'),
        Event::GotoBeginningOfLine,
        select(2),
        data(b'?'),
        data(b'@'),
    ]);
    assert_eq!(image.pixel_size(), (6, 2));
    // column 0 stays as the first pass drew it; in column 1 the top pixel
    // changes its colour
    assert_eq!(image.serialize(), stream("#1~}$#2?@"));
}

#[test]
fn a_pass_that_is_shorter_leaves_the_rest() {
    let image = decode(&[
        dcs(),
        select(2),
        repeat(4, b'@'),
        Event::GotoBeginningOfLine,
        select(1),
        data(b'A'),
    ]);
    assert_eq!(image.pixel_size(), (6, 4));
    assert_eq!(image.serialize(), stream("#1A!3?$#2!4@"));
}

#[test]
fn next_line_moves_down_six_rows() {
    let image = decode(&[dcs(), data(b'@'), Event::GotoNextLine, data(b'A'), data(b'A')]);
    assert_eq!(image.pixel_size(), (12, 1));
    assert_eq!(image.serialize(), stream("#0@-#0AA"));
    let image = decode(&[dcs(), Event::GotoNextLine, Event::GotoNextLine, data(b'@')]);
    assert_eq!(image.pixel_size(), (18, 0));
    assert_eq!(image.serialize(), stream("--#0@"));
}

#[test]
fn next_line_alone_adds_no_row() {
    let image = decode(&[dcs(), Event::GotoNextLine, Event::GotoNextLine]);
    assert_eq!(image.pixel_size(), (1, 0));
    assert_eq!(image.serialize(), stream(""));
}

#[test]
fn select_switches_the_colour_and_defines_nothing() {
    let image = decode(&[dcs(), select(7), data(b'@'), select(300), data(b'@')]);
    assert_eq!(image.serialize(), stream("#7@?$#300?@"));
}

#[test]
fn register_zero_is_drawn_in_without_being_defined_or_selected() {
    let image = decode(&[dcs(), data(b'~')]);
    assert_eq!(image.serialize(), stream("#0~"));
}

#[test]
fn define_stores_the_colour_and_selects_nothing() {
    let image = decode(&[
        dcs(),
        select(4),
        define(9, ColorCoordinates::Rgb(10, 20, 30)),
        define(2, ColorCoordinates::Hls(120, 50, 100)),
        data(b'@'),
    ]);
    assert_eq!(image.serialize(), stream("#2;1;120;50;100#9;2;10;20;30#4@"));
}

#[test]
fn a_second_definition_replaces_the_first() {
    let image = decode(&[
        dcs(),
        define(1, ColorCoordinates::Rgb(10, 20, 30)),
        define(1, ColorCoordinates::Hls(1, 2, 3)),
    ]);
    assert_eq!(image.serialize(), stream("#1;1;1;2;3"));
}

#[test]
fn definitions_in_any_order_give_the_same_image() {
    let one = define(1, ColorCoordinates::Rgb(10, 20, 30));
    let two = define(2, ColorCoordinates::Rgb(1, 2, 3));
    let three = define(513, ColorCoordinates::Hls(360, 100, 0));
    let forward = decode(&[dcs(), one, two, three, data(b'~')]).serialize();
    let backward = decode(&[dcs(), three, two, one, data(b'~')]).serialize();
    let after_data = decode(&[dcs(), data(b'~'), two, three, one]).serialize();
    assert_eq!(forward, stream("#1;2;10;20;30#2;2;1;2;3#513;1;360;100;0#0~"));
    assert_eq!(backward, forward);
    assert_eq!(after_data, forward);
}

#[test]
fn colour_numbers_are_cut_to_their_fields() {
    assert_eq!(SixelColor::from(ColorCoordinates::Rgb(0, 100, 255)), SixelColor::Rgb(0, 100, 255));
    assert_eq!(SixelColor::from(ColorCoordinates::Rgb(256, 300, 99999)), SixelColor::Rgb(0, 44, 159));
    assert_eq!(SixelColor::from(ColorCoordinates::Hls(360, 100, 50)), SixelColor::Hsl(360, 100, 50));
    assert_eq!(SixelColor::from(ColorCoordinates::Hls(65535, 255, 256)), SixelColor::Hsl(65535, 255, 0));
    assert_eq!(SixelColor::from(ColorCoordinates::Hls(65536 + 7, 257, 511)), SixelColor::Hsl(7, 1, 255));
    let image = decode(&[dcs(), define(5, ColorCoordinates::Rgb(300, 256, 255))]);
    assert_eq!(image.serialize(), stream("#5;2;44;0;255"));
}

#[test]
fn raster_attribute_pads_down_to_a_square_and_then_right() {
    // the rows that are added are as long as the image is to be high
    let image = decode(&[dcs(), raster(Some(3), Some(5))]);
    assert_eq!(image.pixel_size(), (5, 3));
    assert_eq!(image.serialize(), stream("#0!3^]]"));
    assert_eq!(image.serialize_range(0, 0, 9, 1), stream("#0!3@!6?"));
    assert_eq!(image.serialize_range(0, 1, 9, 1), stream("#0!5@!4?"));
    assert_eq!(image.serialize_range(0, 4, 9, 1), stream("#0!5@!4?"));
}

#[test]
fn raster_attribute_pads_in_the_selected_colour() {
    let image = decode(&[dcs(), select(12), raster(Some(2), Some(2))]);
    assert_eq!(image.pixel_size(), (2, 2));
    assert_eq!(image.serialize(), stream("#12BB"));
}

#[test]
fn raster_attribute_with_the_width_only() {
    let image = decode(&[dcs(), raster(Some(4), None)]);
    assert_eq!(image.pixel_size(), (1, 4));
    assert_eq!(image.serialize(), stream("#0!4@"));
}

#[test]
fn raster_attribute_with_the_height_only() {
    let image = decode(&[dcs(), raster(None, Some(3))]);
    assert_eq!(image.pixel_size(), (3, 0));
    assert_eq!(image.serialize(), stream("#0!3E"));
}

#[test]
fn raster_attribute_without_numbers_changes_nothing() {
    let image = decode(&[dcs(), raster(None, None)]);
    assert_eq!(image.pixel_size(), (1, 0));
    assert_eq!(image.serialize(), stream(""));
}

#[test]
fn raster_attribute_never_shrinks() {
    let image = decode(&[dcs(), repeat(5, b'~'), raster(Some(3), Some(3))]);
    assert_eq!(image.pixel_size(), (6, 5));
    assert_eq!(image.serialize(), stream("#0!5~"));
}

#[test]
fn raster_attribute_after_data_fills_the_rows_up() {
    let image = decode(&[dcs(), select(1), data(b'@'), select(2), raster(Some(3), Some(8))]);
    assert_eq!(image.pixel_size(), (8, 3));
    // rows 0 to 5 are filled up to three pixels, rows 6 and 7 are new and
    // hold eight
    assert_eq!(image.serialize(), stream("#1@??$#2?~~-#2!8B"));
}

#[test]
fn data_after_a_raster_attribute_draws_over_the_padding() {
    let image = decode(&[dcs(), raster(Some(2), Some(6)), select(1), data(b'@'), data(b'?')]);
    assert_eq!(image.pixel_size(), (6, 2));
    // row 0 had no pixel before the padding to the right: it got two; the
    // rows below were added with six
    assert_eq!(image.serialize(), stream("#0}~!4}$#1@!5?"));
}

#[test]
fn transparent_background_takes_no_padding() {
    let image = decode(&[transparent_dcs(1), raster(Some(10), Some(10))]);
    assert_eq!(image.pixel_size(), (1, 0));
    assert_eq!(image.serialize(), stream(""));
}

#[test]
fn only_flag_one_means_transparent() {
    for flag in [0u8, 2, 255] {
        let image = decode(&[transparent_dcs(flag), raster(Some(2), Some(2))]);
        assert_eq!(image.pixel_size(), (2, 2));
    }
}

#[test]
fn max_height_stops_before_a_band_that_would_pass_it() {
    let events = [
        dcs(),
        data(b'@'),
        Event::GotoNextLine,
        data(b'A'),
        Event::GotoNextLine,
        data(b'C'),
        Event::GotoNextLine,
        data(b'G'),
    ];
    let heights_and_bands = [
        (0usize, 1usize),
        (1, 1),
        (6, 1),
        (11, 1),
        (12, 2),
        (17, 2),
        (18, 3),
        (23, 3),
        (24, 4),
        (1000, 4),
    ];
    for (max_height, bands) in heights_and_bands {
        let image = SixelImage::from_events(&events, Some(max_height)).unwrap();
        assert_eq!(image.pixel_size(), (6 * bands, 1));
        let expected = ["#0@", "-#0A", "-#0C", "-#0G"][..bands].concat();
        assert_eq!(image.serialize(), stream(&expected));
    }
    let image = SixelImage::from_events(&events, None).unwrap();
    assert_eq!(image.pixel_size(), (24, 1));
}

#[test]
fn once_stopped_every_event_is_passed_over() {
    let events = [
        dcs(),
        data(b'@'),
        Event::GotoNextLine,
        define(1, ColorCoordinates::Rgb(1, 1, 1)),
        select(1),
        data(b'~'),
        Event::GotoBeginningOfLine,
        raster(Some(10), Some(10)),
        unknown(),
        transparent_dcs(1),
        Event::GotoNextLine,
        Event::End,
    ];
    let image = SixelImage::from_events(&events, Some(6)).unwrap();
    assert_eq!(image.pixel_size(), (6, 1));
    assert_eq!(image.serialize(), stream("#0@"));
}

#[test]
fn max_height_in_bytes() {
    let sample = "\u{1b}Pq#1;2;100;0;0#1~~-~~-~~#2;2;0;100;0\u{1b}\\";
    let image = SixelImage::new_with_max_height(sample.as_bytes(), 12).unwrap();
    assert_eq!(image.pixel_size(), (12, 2));
    assert_eq!(image.serialize(), "\u{1b}Pq#1;2;100;0;0#1~~-#1~~\u{1b}\\");
    let image = SixelImage::new_with_max_height(sample.as_bytes(), 18).unwrap();
    assert_eq!(image.pixel_size(), (18, 2));
    assert_eq!(image.serialize(), "\u{1b}Pq#1;2;100;0;0#2;2;0;100;0#1~~-#1~~-#1~~\u{1b}\\");
    let image = SixelImage::new_with_max_height(sample.as_bytes(), 0).unwrap();
    assert_eq!(image.pixel_size(), (6, 2));
    assert!(SixelImage::new_with_max_height("~~".as_bytes(), 12).is_err());
}

#[test]
fn the_builder_sets_the_limit() {
    let mut deserializer = SixelDeserializer::new().max_height(100).max_height(6);
    deserializer.handle_events(&[dcs(), data(b'@'), Event::GotoNextLine, data(b'@')]).unwrap();
    assert_eq!(deserializer.create_image().unwrap().pixel_size(), (6, 1));
}

#[test]
fn bytes_and_events_decode_alike() {
    let sample = "\u{1b}P0;0q\"1;1;3;2#1;2;100;50;0#1!3~$#2@-#1A\u{1b}\\";
    let from_bytes = SixelImage::new(sample.as_bytes()).unwrap();
    let from_events = decode(&[
        Event::Dcs {
            macro_parameter: Some(0),
            transparent_background: Some(0),
            horizontal_pixel_distance: None,
        },
        raster(Some(3), Some(2)),
        define(1, ColorCoordinates::Rgb(100, 50, 0)),
        select(1),
        repeat(3, b'~'),
        Event::GotoBeginningOfLine,
        select(2),
        data(b'@'),
        Event::GotoNextLine,
        select(1),
        data(b'A'),
        Event::End,
    ]);
    assert_eq!(from_bytes.pixel_size(), (12, 3));
    assert_eq!(from_bytes.pixel_size(), from_events.pixel_size());
    assert_eq!(from_bytes.serialize(), from_events.serialize());
    assert_eq!(from_bytes.serialize(), "\u{1b}Pq#1;2;100;50;0#1}~~$#2@??-#1A\u{1b}\\");
}

#[test]
fn bytes_that_are_no_stream() {
    let corrupted_image = ["", " \n\t", "~", "#1", "\u{1b}\\", "P", "q", "\u{1b}["];
    for sample in corrupted_image {
        assert_eq!(SixelImage::new(sample.as_bytes()).unwrap_err(), CORRUPTED_IMAGE, "{:?}", sample);
    }
    let corrupted_sixel = [
        "\u{1b}Pq12~",
        "\u{1b}Pq#1;2;3~",
        "\u{1b}Pq#70000~",
        "\u{1b}Pq!123456~",
        "\u{1b}Pq\"1~",
        "\u{1b}Pq(~",
    ];
    for sample in corrupted_sixel {
        assert_eq!(SixelImage::new(sample.as_bytes()).unwrap_err(), CORRUPTED_SIXEL, "{:?}", sample);
    }
}

#[test]
fn a_stream_without_terminator_decodes() {
    let image = SixelImage::new("\u{1b}Pq#3~~~".as_bytes()).unwrap();
    assert_eq!(image.pixel_size(), (6, 3));
    assert_eq!(image.serialize(), stream("#3!3~"));
}

#[test]
fn the_stream_is_decoded_up_to_its_end_only() {
    // the last token is still open when the bytes end
    let image = SixelImage::new("\u{1b}Pq~#1;2;1;1;1".as_bytes()).unwrap();
    assert_eq!(image.serialize(), stream("#0~"));
    let image = SixelImage::new("\u{1b}Pq~!5".as_bytes()).unwrap();
    assert_eq!(image.pixel_size(), (6, 1));
}

#[test]
fn the_largest_numbers_of_a_stream() {
    let image = SixelImage::new("\u{1b}Pq#65535;1;360;100;100#65535!99999~".as_bytes()).unwrap();
    assert_eq!(image.pixel_size(), (6, 99999));
    assert_eq!(image.serialize(), stream("#65535;1;360;100;100#65535!99999~"));
}
