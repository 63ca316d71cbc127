use giui::style_loader::{parse_hex_color, ColorParseError};
use giui::Color;

#[test]
fn from_u32_is_rgba_big_endian() {
    let c = Color::from_u32(0x11223344);
    assert_eq!(c, Color { r: 0x11, g: 0x22, b: 0x33, a: 0x44 });
    assert_eq!(c.to_array(), [0x11, 0x22, 0x33, 0x44]);
}

#[test]
fn array_round_trip() {
    let a = [1, 2, 3, 4];
    assert_eq!(Color::from_array(a).to_array(), a);
    let c = Color { r: 9, g: 8, b: 7, a: 6 };
    assert_eq!(Color::from_array(c.to_array()), c);
}

#[test]
fn white_black_and_default() {
    assert_eq!(Color::white().to_array(), [255, 255, 255, 255]);
    assert_eq!(Color::black().to_array(), [0, 0, 0, 255]);
    assert_eq!(Color::default(), Color::white());
}

#[test]
fn parse_rgb_is_opaque() {
    assert_eq!(parse_hex_color("#ff00aa"), Ok(Color::from_array([255, 0, 170, 255])));
}

#[test]
fn parse_rgba() {
    assert_eq!(parse_hex_color("#10203040"), Ok(Color::from_array([0x10, 0x20, 0x30, 0x40])));
    assert_eq!(parse_hex_color("#FFFFFFFF"), Ok(Color::white()));
}

#[test]
fn parse_many_hashes_and_plus() {
    assert_eq!(parse_hex_color("###ff00aa"), Ok(Color::from_array([255, 0, 170, 255])));
    // a leading '+' is read by the hexadecimal parser, and counts in the length
    assert_eq!(parse_hex_color("#+ff00a"), Ok(Color::from_array([0x0f, 0xf0, 0x0a, 0xff])));
}

#[test]
fn parse_missing_hash() {
    assert_eq!(parse_hex_color("ff00aa"), Err(ColorParseError::MissingHash));
    assert_eq!(parse_hex_color(""), Err(ColorParseError::MissingHash));
}

#[test]
fn parse_invalid_hex() {
    assert_eq!(parse_hex_color("#ff00ag"), Err(ColorParseError::InvalidHex));
    assert_eq!(parse_hex_color("#"), Err(ColorParseError::InvalidHex));
    assert_eq!(parse_hex_color("#123456789"), Err(ColorParseError::InvalidHex));
}

#[test]
fn parse_wrong_length() {
    assert_eq!(parse_hex_color("#fff"), Err(ColorParseError::WrongLength));
    assert_eq!(parse_hex_color("#0000000"), Err(ColorParseError::WrongLength));
}
