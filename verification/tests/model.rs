use piet_vm::ast::{Color, Hue, Lightness};
use piet_vm::compile::RawCodel;
use piet_vm::engine::{BinaryOp, Command, UnaryOp};
use piet_vm::grid::Grid;
use piet_vm::util::{decode_utf8_char, iter_2d, parse_decimal, utf8_len, Direction, Rotation};

#[test]
fn test_iter_2d() {
    let pairs = iter_2d(2..4, 4..7);
    let expected = [(2, 4), (3, 4), (2, 5), (3, 5), (2, 6), (3, 6)];
    assert_eq!(pairs, expected);
}

fn color(hue: Hue, lightness: Lightness) -> Color {
    Color { hue, lightness }
}

#[test]
fn compare_same_color_is_nop() {
    let c = color(Hue::Blue, Lightness::Dark);
    assert_eq!(Color::compare(c, c), Command::Nop);
}

#[test]
fn compare_table_entries() {
    let red_n = color(Hue::Red, Lightness::Normal);
    let cyan_n = color(Hue::Cyan, Lightness::Normal);
    // hue delta 3, lightness delta 0
    assert_eq!(Color::compare(red_n, cyan_n), Command::Binary(BinaryOp::Greater));
    // hue delta 0, lightness delta 1
    let red_d = color(Hue::Red, Lightness::Dark);
    assert_eq!(Color::compare(red_n, red_d), Command::Push);
    // hue delta 1, lightness delta 0
    let yellow_n = color(Hue::Yellow, Lightness::Normal);
    assert_eq!(Color::compare(red_n, yellow_n), Command::Binary(BinaryOp::Add));
    // hue delta 5, lightness delta 1 (wrapping both ways)
    let magenta_l = color(Hue::Magenta, Lightness::Light);
    let red_n2 = color(Hue::Red, Lightness::Normal);
    assert_eq!(Color::compare(magenta_l, red_n2), Command::Binary(BinaryOp::Subtract));
    let red_l = color(Hue::Red, Lightness::Light);
    let magenta_n = color(Hue::Magenta, Lightness::Normal);
    assert_eq!(Color::compare(red_l, magenta_n), Command::Unary(UnaryOp::OutNum));
    // hue delta 4, lightness delta 0
    let blue_n = color(Hue::Blue, Lightness::Normal);
    assert_eq!(Color::compare(red_n, blue_n), Command::Unary(UnaryOp::Duplicate));
    // hue delta 4, lightness delta 1
    let blue_d = color(Hue::Blue, Lightness::Dark);
    assert_eq!(Color::compare(red_n, blue_d), Command::Binary(BinaryOp::Roll));
}

#[test]
fn compare_depends_only_on_deltas() {
    // Same hue delta (2) and same lightness pair in two different places on
    // the wheel give the same opcode.
    let a1 = color(Hue::Red, Lightness::Normal);
    let b1 = color(Hue::Green, Lightness::Normal);
    let a2 = color(Hue::Cyan, Lightness::Normal);
    let b2 = color(Hue::Magenta, Lightness::Normal);
    assert_eq!(Color::compare(a1, b1), Color::compare(a2, b2));
    assert_eq!(Color::compare(a1, b1), Command::Binary(BinaryOp::Divide));
}

#[test]
fn decode_black_white_and_colors() {
    assert_eq!(RawCodel::decode(0, 0, 0), Some(RawCodel::Black));
    assert_eq!(RawCodel::decode(255, 255, 255), Some(RawCodel::White));
    assert_eq!(
        RawCodel::decode(255, 0, 0),
        Some(RawCodel::Color(color(Hue::Red, Lightness::Normal)))
    );
    assert_eq!(
        RawCodel::decode(255, 192, 192),
        Some(RawCodel::Color(color(Hue::Red, Lightness::Light)))
    );
    assert_eq!(
        RawCodel::decode(192, 0, 0),
        Some(RawCodel::Color(color(Hue::Red, Lightness::Dark)))
    );
    assert_eq!(
        RawCodel::decode(0, 255, 255),
        Some(RawCodel::Color(color(Hue::Cyan, Lightness::Normal)))
    );
    assert_eq!(
        RawCodel::decode(255, 0, 255),
        Some(RawCodel::Color(color(Hue::Magenta, Lightness::Normal)))
    );
    assert_eq!(
        RawCodel::decode(255, 255, 0),
        Some(RawCodel::Color(color(Hue::Yellow, Lightness::Normal)))
    );
}

#[test]
fn decode_quantization_thresholds() {
    // 0x5F quantizes to 0x00, 0x60 to 0xC0, 0xDF to 0xC0, 0xE0 to 0xFF.
    assert_eq!(
        RawCodel::decode(0xE0, 0x5F, 0x5F),
        Some(RawCodel::Color(color(Hue::Red, Lightness::Normal)))
    );
    assert_eq!(
        RawCodel::decode(0x60, 0x5F, 0x5F),
        Some(RawCodel::Color(color(Hue::Red, Lightness::Dark)))
    );
    assert_eq!(
        RawCodel::decode(0xE0, 0xDF, 0xDF),
        Some(RawCodel::Color(color(Hue::Red, Lightness::Light)))
    );
}

#[test]
fn decode_unrecognized_is_none() {
    // Quantized channels 0xFF, 0xC0, 0x00: the middle one is neither the
    // minimum nor the maximum.
    assert_eq!(RawCodel::decode(255, 192, 0), None);
}

#[test]
fn direction_go_and_edges() {
    let size = (3, 2);
    assert_eq!(Direction::Right.go((0, 0), size), Some((1, 0)));
    assert_eq!(Direction::Right.go((2, 0), size), None);
    assert_eq!(Direction::Down.go((1, 0), size), Some((1, 1)));
    assert_eq!(Direction::Down.go((1, 1), size), None);
    assert_eq!(Direction::Left.go((0, 1), size), None);
    assert_eq!(Direction::Left.go((2, 1), size), Some((1, 1)));
    assert_eq!(Direction::Up.go((2, 0), size), None);
    assert_eq!(Direction::Up.go((2, 1), size), Some((2, 0)));
}

#[test]
fn direction_turn_and_rotate() {
    assert_eq!(Direction::Up.turn(Rotation::Clock), Direction::Right);
    assert_eq!(Direction::Right.turn(Rotation::Clock), Direction::Down);
    assert_eq!(Direction::Down.turn(Rotation::Clock), Direction::Left);
    assert_eq!(Direction::Left.turn(Rotation::Clock), Direction::Up);
    assert_eq!(Direction::Up.turn(Rotation::Counter), Direction::Left);
    let mut d = Direction::Right;
    d.rotate(Rotation::Counter);
    assert_eq!(d, Direction::Up);
}

#[test]
fn rotation_flip_and_toggle() {
    assert_eq!(Rotation::Clock.flip(), Rotation::Counter);
    assert_eq!(Rotation::Counter.flip(), Rotation::Clock);
    let mut r = Rotation::Counter;
    r.toggle();
    r.toggle();
    assert_eq!(r, Rotation::Counter);
}

#[test]
fn direction_find_max() {
    let coords = vec![(1, 5), (3, 2), (3, 4), (0, 4)];
    assert_eq!(Direction::Right.find_max(&coords), (3, 2));
    assert_eq!(Direction::Left.find_max(&coords), (0, 4));
    assert_eq!(Direction::Up.find_max(&coords), (3, 2));
    assert_eq!(Direction::Down.find_max(&coords), (1, 5));
}

#[test]
fn grid_new_put_get() {
    let mut g: Grid<u8> = Grid::new(2, 3, 7);
    assert_eq!(g.size(), (2, 3));
    assert_eq!(g.get(1, 2).copied(), Some(7));
    assert_eq!(g.get(2, 0), None);
    assert_eq!(g.get(0, 3), None);
    assert!(g.put(1, 2, 9));
    assert!(!g.put(2, 0, 9));
    assert_eq!(g.at(1, 2), 9);
    assert_eq!(g.at(0, 0), 7);
}

#[test]
fn grid_from_fn_row_major() {
    let g: Grid<usize> = Grid::from_fn(3, 2, |x, y| 10 * y + x);
    assert_eq!(g.at(2, 1), 12);
    assert_eq!(g.at(0, 0), 0);
    assert_eq!(g.at(2, 0), 2);
}

#[test]
fn iter_2d_reversed_range_is_empty() {
    assert_eq!(iter_2d(4..2, 0..3), vec![]);
    assert_eq!(iter_2d(0..2, 3..3), vec![]);
}

#[test]
fn utf8_len_follows_the_leading_byte() {
    assert_eq!(utf8_len(b'A'), Some(1));
    assert_eq!(utf8_len(0xC3), Some(2));
    assert_eq!(utf8_len(0xE2), Some(3));
    assert_eq!(utf8_len(0xF0), Some(4));
    assert_eq!(utf8_len(0x80), None);
    assert_eq!(utf8_len(0xF8), None);
}

#[test]
fn decode_utf8_char_decodes_each_length() {
    assert_eq!(decode_utf8_char([b'A', 0, 0, 0], 1), Some('A' as u32));
    assert_eq!(decode_utf8_char([0xC3, 0xA9, 0, 0], 2), Some(0xE9)); // e with acute
    assert_eq!(decode_utf8_char([0xE2, 0x82, 0xAC, 0], 3), Some(0x20AC)); // euro sign
    assert_eq!(decode_utf8_char([0xF0, 0x9D, 0x84, 0x9E], 4), Some(0x1D11E)); // clef
}

#[test]
fn decode_utf8_char_rejects_malformed_sequences() {
    assert_eq!(decode_utf8_char([0xC0, 0x80, 0, 0], 2), None); // overlong
    assert_eq!(decode_utf8_char([0xED, 0xA0, 0x80, 0], 3), None); // surrogate
    assert_eq!(decode_utf8_char([0xC3, 0x29, 0, 0], 2), None); // bad continuation
    assert_eq!(decode_utf8_char([0x80, 0, 0, 0], 1), None); // lone continuation
}

#[test]
fn parse_decimal_reads_signed_integers() {
    assert_eq!(parse_decimal(b"123"), Some(123));
    assert_eq!(parse_decimal(b"-7"), Some(-7));
    assert_eq!(parse_decimal(b"+42"), Some(42));
    assert_eq!(parse_decimal(b"0"), Some(0));
    assert_eq!(parse_decimal(b"9223372036854775807"), Some(i64::MAX));
    assert_eq!(parse_decimal(b"-9223372036854775808"), Some(i64::MIN));
}

#[test]
fn parse_decimal_rejects_malformed_or_overflowing_input() {
    assert_eq!(parse_decimal(b""), None);
    assert_eq!(parse_decimal(b"-"), None);
    assert_eq!(parse_decimal(b"12a"), None);
    assert_eq!(parse_decimal(b" 5"), None);
    assert_eq!(parse_decimal(b"9223372036854775808"), None);
    assert_eq!(parse_decimal(b"-9223372036854775809"), None);
}
