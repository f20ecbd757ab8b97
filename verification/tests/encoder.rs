use sixel_image::{Pixel, SixelColor, SixelColumn, SixelImage, SixelLine, SixelPixelIterator, SixelSerializer};
use std::collections::BTreeMap;

const SAMPLE: &str =
    "\u{1b}Pq#0;2;0;0;0#1;2;100;100;0#2;2;0;100;0#1~~@@vv@@~~@@~~$#2??}}GG}}??}}??-#1!14@\u{1b}\\";

const SAMPLE_REGISTERS: &str = "#0;2;0;0;0#1;2;100;100;0#2;2;0;100;0";

fn stream(body: &str) -> String {
    format!("\u{1b}Pq{}\u{1b}\\", body)
}

fn cropped(body: &str) -> String {
    format!("\u{1b}Pq{}{}\u{1b}\\", SAMPLE_REGISTERS, body)
}

fn sample() -> SixelImage {
    SixelImage::new(SAMPLE.as_bytes()).unwrap()
}

fn lit(color: u16) -> Pixel {
    Pixel::new(color)
}

fn unlit(color: u16) -> Pixel {
    Pixel { on: false, color }
}

fn serialize(pixels: &Vec<Vec<Pixel>>) -> String {
    SixelSerializer::new(&BTreeMap::new(), pixels).serialize()
}

#[test]
fn a_new_pixel_is_lit() {
    assert_eq!(Pixel::new(7), Pixel { on: true, color: 7 });
    assert_eq!(Pixel::new(65535).color, 65535);
    assert!(Pixel::new(0).on);
}

#[test]
fn a_pixel_shows_as_its_register_or_as_x() {
    assert_eq!(Pixel::new(0).label(), "0");
    assert_eq!(Pixel::new(7).label(), "7");
    assert_eq!(Pixel::new(65535).label(), "65535");
    assert_eq!(Pixel { on: false, color: 7 }.label(), "x");
}

#[test]
fn the_bits_of_a_column_come_top_first() {
    // 63 + 37, and 37 is 100101 in binary
    let mut bits = SixelPixelIterator::new(100);
    assert_eq!(bits.next(), Some(true));
    assert_eq!(bits.next(), Some(false));
    assert_eq!(bits.next(), Some(true));
    assert_eq!(bits.next(), Some(false));
    assert_eq!(bits.next(), Some(false));
    assert_eq!(bits.next(), Some(true));
    assert_eq!(bits.next(), None);
    assert_eq!(bits.next(), None);
    assert_eq!(bits.next(), None);
}

#[test]
fn a_column_has_six_bits_whatever_the_byte() {
    for byte in 0..=255u8 {
        let payload = byte.saturating_sub(63);
        let mut bits = SixelPixelIterator::new(byte);
        for i in 0..6 {
            assert_eq!(bits.next(), Some(payload >> i & 1 == 1), "bit {} of byte {}", i, byte);
        }
        assert_eq!(bits.next(), None);
    }
}

#[test]
fn an_empty_image() {
    assert_eq!(serialize(&vec![]), stream(""));
    assert_eq!(serialize(&vec![vec![]]), stream(""));
    assert_eq!(SixelSerializer::new(&BTreeMap::new(), &vec![]).serialize_range(0, 0, 5, 5), stream(""));
}

#[test]
fn registers_are_written_in_ascending_order() {
    let mut color_registers = BTreeMap::new();
    color_registers.insert(300, SixelColor::Rgb(1, 2, 3));
    color_registers.insert(2, SixelColor::Hsl(360, 100, 0));
    color_registers.insert(65535, SixelColor::Hsl(0, 0, 0));
    color_registers.insert(0, SixelColor::Rgb(100, 100, 100));
    color_registers.insert(10, SixelColor::Rgb(255, 0, 9));
    let pixels = vec![];
    let serializer = SixelSerializer::new(&color_registers, &pixels);
    let expected = stream("#0;2;100;100;100#2;1;360;100;0#10;2;255;0;9#300;2;1;2;3#65535;1;0;0;0");
    assert_eq!(serializer.serialize(), expected);
    assert_eq!(serializer.serialize_range(1, 2, 3, 4), expected);
}

#[test]
fn the_largest_numbers_of_a_register() {
    let mut color_registers = BTreeMap::new();
    color_registers.insert(65535, SixelColor::Hsl(65535, 255, 255));
    let pixels = vec![];
    assert_eq!(
        SixelSerializer::new(&color_registers, &pixels).serialize(),
        stream("#65535;1;65535;255;255")
    );
}

#[test]
fn registers_come_before_the_pixels() {
    let mut color_registers = BTreeMap::new();
    color_registers.insert(1, SixelColor::Rgb(1, 2, 3));
    let pixels = vec![vec![lit(1)]];
    assert_eq!(SixelSerializer::new(&color_registers, &pixels).serialize(), stream("#1;2;1;2;3#1@"));
}

#[test]
fn a_pixel_may_be_lit_in_a_register_that_is_not_defined() {
    assert_eq!(serialize(&vec![vec![lit(7)]]), stream("#7@"));
}

#[test]
fn each_row_of_a_band_has_its_bit() {
    let weights = ["@", "A", "C", "G", "O", "_"];
    for (row, byte) in weights.iter().enumerate() {
        let mut pixels = vec![vec![unlit(0)]; 6];
        pixels[row][0] = lit(0);
        assert_eq!(serialize(&pixels), stream(&format!("#0{}", byte)));
    }
    assert_eq!(serialize(&vec![vec![lit(0)]; 6]), stream("#0~"));
}

#[test]
fn runs_from_three_on_are_written_short() {
    for (length, expected) in
        [(1usize, "#0@"), (2, "#0@@"), (3, "#0!3@"), (4, "#0!4@"), (10, "#0!10@"), (255, "#0!255@"), (1000, "#0!1000@")]
    {
        assert_eq!(serialize(&vec![vec![lit(0); length]]), stream(expected));
    }
}

#[test]
fn runs_end_where_the_byte_changes() {
    let mut row = vec![lit(0); 3];
    row.extend(vec![unlit(0); 2]);
    row.extend(vec![lit(0); 1]);
    row.extend(vec![unlit(0); 3]);
    row.extend(vec![lit(0); 2]);
    row.extend(vec![unlit(0); 1]);
    assert_eq!(serialize(&vec![row]), stream("#0!3@??@!3?@@?"));
}

#[test]
fn unlit_pixels_at_the_end_of_a_band_are_written() {
    let mut row = vec![lit(0); 1];
    row.extend(vec![unlit(0); 4]);
    assert_eq!(serialize(&vec![row]), stream("#0@!4?"));
}

#[test]
fn a_band_is_as_wide_as_its_longest_row() {
    let pixels = vec![vec![lit(0); 3], vec![lit(0); 1], vec![], vec![lit(0); 5]];
    // column 0 is in rows 0, 1 and 3, columns 1 and 2 in rows 0 and 3,
    // columns 3 and 4 in row 3 alone
    assert_eq!(serialize(&pixels), stream("#0JHHGG"));
}

#[test]
fn each_colour_of_a_band_has_its_track() {
    let pixels = vec![
        vec![lit(9), lit(2), unlit(5), lit(9)],
        vec![lit(2), lit(2), unlit(5), lit(300)],
    ];
    assert_eq!(serialize(&pixels), stream("#2AB??$#9@??@$#300!3?A"));
}

#[test]
fn a_colour_that_comes_late_in_a_band_is_filled_up_in_front() {
    let pixels = vec![vec![lit(1), lit(1), lit(1), lit(1), lit(2)]];
    assert_eq!(serialize(&pixels), stream("#1!4@?$#2!4?@"));
}

#[test]
fn bands_are_parted_by_a_line_break() {
    let pixels = vec![vec![lit(1)]; 13];
    assert_eq!(serialize(&pixels), stream("#1~-#1~-#1@"));
}

#[test]
fn a_band_without_a_lit_pixel_is_empty() {
    let mut pixels = vec![vec![unlit(1); 4]; 18];
    assert_eq!(serialize(&pixels), stream("--"));
    pixels[17][2] = lit(3);
    assert_eq!(serialize(&pixels), stream("--#3??_?"));
}

#[test]
fn a_band_of_empty_rows_between_others() {
    let mut pixels = vec![vec![]; 13];
    pixels[0] = vec![lit(1)];
    pixels[12] = vec![lit(2)];
    assert_eq!(serialize(&pixels), stream("#1@--#2@"));
}

#[test]
fn the_whole_image_is_the_range_that_holds_it() {
    let image = sample();
    assert_eq!(image.serialize(), SAMPLE);
    assert_eq!(image.serialize_range(0, 0, 14, 12), SAMPLE);
    assert_eq!(image.serialize_range(0, 0, 100, 100), SAMPLE);
    assert_eq!(image.serialize_range(0, 0, usize::MAX, usize::MAX), SAMPLE);
}

#[test]
fn a_range_leaves_the_image_as_it_is() {
    let image = sample();
    image.serialize_range(3, 3, 3, 3);
    assert_eq!(image.serialize(), SAMPLE);
    assert_eq!(image.pixel_size(), (12, 14));
}

#[test]
fn a_range_of_one_band() {
    let image = sample();
    assert_eq!(image.serialize_range(0, 0, 14, 6), cropped("#1~~@@vv@@~~@@~~$#2??}}GG}}??}}??"));
    assert_eq!(image.serialize_range(0, 6, 14, 6), cropped("#1!14@"));
    assert_eq!(image.serialize_range(0, 6, 14, 1), cropped("#1!14@"));
    assert_eq!(image.serialize_range(0, 7, 14, 1), cropped(""));
}

#[test]
fn a_range_counts_its_bands_from_its_first_row() {
    let image = sample();
    // rows 3 to 8: the lower half of the first band and the upper half of the
    // second, as one band
    assert_eq!(image.serialize_range(0, 3, 2, 6), cropped("#1NN"));
    assert_eq!(image.serialize_range(2, 3, 2, 6), cropped("#1GG$#2FF"));
    // rows 3 to 9: a second band of one row
    assert_eq!(image.serialize_range(0, 3, 2, 7), cropped("#1NN-"));
}

#[test]
fn a_range_that_is_cut_short_below_is_as_wide_as_asked() {
    let image = sample();
    assert_eq!(image.serialize_range(10, 0, 10, 3), cropped("#1@@FF!6?$#2EE!8?"));
    assert_eq!(image.serialize_range(12, 0, 100, 1), cropped("#1@@!98?"));
}

#[test]
fn a_range_of_whole_bands_ends_with_the_rows() {
    let image = sample();
    assert_eq!(image.serialize_range(12, 0, 100, 6), cropped("#1~~"));
    assert_eq!(image.serialize_range(12, 0, 100, 12), cropped("#1~~-#1@@"));
}

#[test]
fn a_range_beside_the_image() {
    let image = sample();
    assert_eq!(image.serialize_range(14, 0, 5, 6), cropped(""));
    assert_eq!(image.serialize_range(14, 0, 5, 5), cropped(""));
    assert_eq!(image.serialize_range(20, 0, 5, 12), cropped("-"));
    assert_eq!(image.serialize_range(0, 12, 5, 5), cropped(""));
    assert_eq!(image.serialize_range(0, 12, 5, 12), cropped("-"));
    // the bands cover no more rows than the image has
    assert_eq!(image.serialize_range(0, 100, 5, 13), cropped("-"));
}

#[test]
fn a_range_without_height_has_no_band() {
    let image = sample();
    assert_eq!(image.serialize_range(0, 0, 5, 0), cropped(""));
    assert_eq!(image.serialize_range(3, 3, 0, 0), cropped(""));
}

#[test]
fn a_range_without_width_has_no_column_but_at_the_left_edge() {
    let image = sample();
    assert_eq!(image.serialize_range(1, 0, 0, 1), cropped(""));
    assert_eq!(image.serialize_range(5, 0, 0, 12), cropped("-"));
    // the last column of an empty range that starts at 0 is column 0
    assert_eq!(image.serialize_range(0, 0, 0, 1), cropped("#1@"));
    assert_eq!(image.serialize_range(0, 0, 0, 12), cropped("#1~-#1@"));
}

#[test]
fn a_range_at_the_end_of_what_can_be_counted() {
    let image = sample();
    let far = usize::MAX;
    assert_eq!(image.serialize_range(far, far, far, far), cropped("-"));
    assert_eq!(image.serialize_range(far, 0, 1, 1), cropped(""));
    assert_eq!(image.serialize_range(0, far, 1, 1), cropped(""));
    assert_eq!(image.serialize_range(far - 1, far - 1, 1, 1), cropped(""));
    assert_eq!(image.serialize_range(13, 6, far, far), cropped("#1@-"));
    assert_eq!(image.serialize_range(13, 11, far, far), cropped("-"));
    assert_eq!(image.serialize_range(0, far - 3, 2, 7), cropped("-"));
}

#[test]
fn cut_out_puts_pixels_out() {
    let mut image = sample();
    image.cut_out(0, 0, 14, 6);
    assert_eq!(image.serialize(), cropped("-#1!14@"));
    assert_eq!(image.pixel_size(), (12, 14));
    image.cut_out(0, 6, 7, 1);
    assert_eq!(image.serialize(), cropped("-#1!7?!7@"));
    image.cut_out(0, 0, 14, 12);
    assert_eq!(image.serialize(), cropped("-"));
    assert_eq!(image.pixel_size(), (12, 14));
}

#[test]
fn cut_out_of_one_pixel() {
    let mut image = sample();
    image.cut_out(0, 0, 1, 1);
    assert_eq!(image.serialize(), cropped("#1}~@@vv@@~~@@~~$#2??}}GG}}??}}??-#1!14@"));
    image.cut_out(13, 6, 1, 1);
    assert_eq!(image.serialize(), cropped("#1}~@@vv@@~~@@~~$#2??}}GG}}??}}??-#1!13@?"));
}

#[test]
fn cut_out_without_area_changes_nothing() {
    let mut image = sample();
    image.cut_out(0, 0, 0, 12);
    image.cut_out(0, 0, 14, 0);
    image.cut_out(3, 3, 0, 0);
    assert_eq!(image.serialize(), SAMPLE);
}

#[test]
fn cut_out_past_the_image_is_cut_short() {
    let mut image = sample();
    image.cut_out(14, 0, 5, 5);
    image.cut_out(0, 12, 5, 5);
    image.cut_out(100, 100, 5, 5);
    image.cut_out(usize::MAX, usize::MAX, usize::MAX, usize::MAX);
    image.cut_out(usize::MAX, 0, 1, 1);
    image.cut_out(0, usize::MAX, 1, 1);
    assert_eq!(image.serialize(), SAMPLE);
    image.cut_out(12, 6, 100, 100);
    assert_eq!(image.serialize(), cropped("#1~~@@vv@@~~@@~~$#2??}}GG}}??}}??-#1!12@??"));
    image.cut_out(0, 1, usize::MAX, usize::MAX);
    // row 0 is left, and all of it is lit in register 1
    assert_eq!(image.serialize(), cropped("#1!14@-"));
    assert_eq!(image.pixel_size(), (12, 14));
}

#[test]
fn cut_out_in_rows_of_different_length() {
    let mut image = SixelImage::new("\u{1b}Pq\"1;1;2;4#0~\u{1b}\\".as_bytes()).unwrap();
    // row 0 holds two pixels, rows 1 to 3 hold four, rows 4 and 5 hold one
    assert_eq!(image.pixel_size(), (6, 2));
    assert_eq!(image.serialize(), stream("#0~NMM"));
    image.cut_out(1, 0, 2, 6);
    assert_eq!(image.serialize(), stream("#0~??M"));
    assert_eq!(image.pixel_size(), (6, 2));
}

#[test]
fn the_size_is_the_number_of_rows_and_the_length_of_the_first() {
    assert_eq!(sample().pixel_size(), (12, 14));
    let image = SixelImage::new("\u{1b}Pq\u{1b}\\".as_bytes()).unwrap();
    assert_eq!(image.pixel_size(), (1, 0));
    let image = SixelImage::new("\u{1b}Pq-~~~\u{1b}\\".as_bytes()).unwrap();
    assert_eq!(image.pixel_size(), (12, 0));
    let image = SixelImage::new("\u{1b}Pq~~~-~\u{1b}\\".as_bytes()).unwrap();
    assert_eq!(image.pixel_size(), (12, 3));
}

#[test]
fn a_column_is_gone_where_no_row_reaches_it() {
    let pixels = vec![vec![lit(1), lit(1)], vec![lit(2)], vec![unlit(3), unlit(3), unlit(3)]];
    assert!(SixelColumn::new(0, 0, None, None, &pixels).is_some());
    assert!(SixelColumn::new(0, 1, None, None, &pixels).is_some());
    // a column of unlit pixels is a column still
    assert!(SixelColumn::new(0, 2, None, None, &pixels).is_some());
    assert!(SixelColumn::new(0, 3, None, None, &pixels).is_none());
    assert!(SixelColumn::new(2, 2, None, None, &pixels).is_some());
    assert!(SixelColumn::new(3, 0, None, None, &pixels).is_none());
    assert!(SixelColumn::new(usize::MAX, 0, None, None, &pixels).is_none());
    assert!(SixelColumn::new(0, usize::MAX, None, None, &pixels).is_none());
}

#[test]
fn a_column_is_gone_past_the_bounds() {
    let pixels = vec![vec![lit(1); 3]; 3];
    assert!(SixelColumn::new(0, 2, Some(2), Some(0), &pixels).is_some());
    assert!(SixelColumn::new(0, 3, Some(2), Some(0), &pixels).is_none());
    assert!(SixelColumn::new(1, 0, Some(2), Some(0), &pixels).is_none());
    // cut short below, a column is there as far as the bound goes
    assert!(SixelColumn::new(0, 100, Some(100), Some(4), &pixels).is_some());
    assert!(SixelColumn::new(0, 100, Some(100), Some(5), &pixels).is_none());
    assert!(SixelColumn::new(7, 100, Some(100), Some(7), &pixels).is_some());
    assert!(SixelColumn::new(0, 0, Some(usize::MAX), Some(usize::MAX), &pixels).is_some());
    assert!(SixelColumn::new(0, 5, None, Some(3), &pixels).is_some());
}

#[test]
fn a_column_goes_to_the_tracks_of_its_colours() {
    let pixels = vec![
        vec![lit(1)],
        vec![lit(2)],
        vec![lit(1)],
        vec![unlit(3)],
        vec![lit(2)],
        vec![lit(1)],
        vec![lit(9)],
    ];
    let mut tracks = BTreeMap::new();
    tracks.insert(2u16, vec![b'@', b'A']);
    tracks.insert(4u16, vec![b'~']);
    tracks.insert(5u16, vec![b'~'; 7]);
    let column = SixelColumn::new(0, 0, None, None, &pixels).unwrap();
    column.serialize(&mut tracks, 4);
    let mut expected = BTreeMap::new();
    expected.insert(1u16, vec![b'?', b'?', b'?', b'?', 63 + 1 + 4 + 32]);
    expected.insert(2u16, vec![b'@', b'A', b'?', b'?', 63 + 2 + 16]);
    expected.insert(4u16, vec![b'~']);
    expected.insert(5u16, vec![b'~'; 7]);
    assert_eq!(tracks, expected);
    let cut = SixelColumn::new(0, 0, Some(0), Some(1), &pixels).unwrap();
    let mut tracks = BTreeMap::new();
    cut.serialize(&mut tracks, 0);
    let mut expected = BTreeMap::new();
    expected.insert(1u16, vec![b'@']);
    expected.insert(2u16, vec![b'A']);
    assert_eq!(tracks, expected);
}

#[test]
fn a_line_is_there_while_rows_are_left() {
    assert!(SixelLine::new(0, 0, 1).is_some());
    assert!(SixelLine::new(5, 3, 6).is_some());
    assert!(SixelLine::new(6, 3, 6).is_none());
    assert!(SixelLine::new(0, 3, 0).is_none());
    assert!(SixelLine::new(usize::MAX, usize::MAX, usize::MAX).is_none());
}

#[test]
fn a_line_writes_its_tracks_and_takes_them() {
    let mut tracks = BTreeMap::new();
    tracks.insert(2u16, vec![b'~']);
    tracks.insert(1u16, vec![b'~', b'~', b'~']);
    tracks.insert(300u16, vec![]);
    let mut text = String::from("so far");
    SixelLine::new(6, 4, 7).unwrap().serialize(&mut text, &mut tracks);
    assert_eq!(text, "so far-#1!3~?$#2~!3?$#300!4?");
    assert!(tracks.is_empty());
    let mut tracks = BTreeMap::new();
    tracks.insert(7u16, vec![b'@', b'@', b'A', b'A', b'A']);
    let mut text = String::new();
    SixelLine::new(0, 2, 1).unwrap().serialize(&mut text, &mut tracks);
    assert_eq!(text, "#7@@!3A");
    assert!(tracks.is_empty());
    let mut text = String::new();
    SixelLine::new(0, 2, 1).unwrap().serialize(&mut text, &mut tracks);
    assert_eq!(text, "");
    SixelLine::new(12, 2, 13).unwrap().serialize(&mut text, &mut tracks);
    assert_eq!(text, "-");
}

#[test]
fn canonical_streams_come_back_as_they_are() {
    let streams = [
        stream(""),
        stream("#0~"),
        stream("#0;1;0;0;0"),
        stream("#1;2;100;50;100#65535;1;360;100;100"),
        stream("#0@-#0A-#0C"),
        stream("--#5~"),
        stream("#1!3~!5?$#2!3?!5~-#1!8@$#2!8A$#3!8C"),
        stream("#0!1000~-#0!1000~"),
        stream("#7;2;1;2;3#7~?~"),
        String::from(SAMPLE),
    ];
    for sample in streams {
        let image = SixelImage::new(sample.as_bytes()).unwrap();
        assert_eq!(image.serialize(), sample);
    }
}

#[test]
fn what_was_written_once_is_written_again_the_same() {
    let streams = [
        "\u{1b}P9;1;5q\"1;1;20;20#1;2;1;1;1#1~~~~$#2!2~~?-!0~",
        "\u{1b}Pq#3~~#2~~$#1@@@@@-#1;2;0;0;0\u{1b}\\\u{1b}Pq",
        "\u{1b}Pq\"1;1;7;13#4!3~-!9N-",
        "\u{1b}Pq#0??????~",
    ];
    for sample in streams {
        let once = SixelImage::new(sample.as_bytes()).unwrap().serialize();
        let twice = SixelImage::new(once.as_bytes()).unwrap().serialize();
        assert_eq!(twice, once);
    }
}

#[test]
fn bands_without_a_lit_pixel_are_lost_on_the_way_back() {
    let pixels = vec![vec![unlit(0)]; 12];
    let written = serialize(&pixels);
    assert_eq!(written, stream("-"));
    let image = SixelImage::new(written.as_bytes()).unwrap();
    assert_eq!(image.pixel_size(), (1, 0));
    assert_eq!(image.serialize(), stream(""));
}
