use color_engine::color::alpha::{parse_alpha, parse_fraction};
use color_engine::color::number::parse_channel;
use color_engine::color::text::{split_fields, to_ascii_lower, to_chars, trim_slice};
use color_engine::{parse_color, parse_css_rgb, parse_css_rgba, parse_hex, Color, ColorParseError};

fn chars(s: &str) -> Vec<char> {
    s.chars().collect()
}

#[test]
fn hex_parse_variants() {
    assert_eq!(
        parse_color("#fff").unwrap(),
        Color::from_rgba([255, 255, 255, 255])
    );
    assert_eq!(
        parse_color("#0008").unwrap(),
        Color::from_rgba([0, 0, 0, 136])
    );
    assert_eq!(
        parse_color("#112233").unwrap(),
        Color::from_rgba([0x11, 0x22, 0x33, 255])
    );
    assert_eq!(
        parse_color("#11223344").unwrap(),
        Color::from_rgba([0x11, 0x22, 0x33, 0x44])
    );
}

#[test]
fn hex_accepts_both_cases() {
    assert_eq!(parse_hex("AbCdEf"), Ok(Color::from_rgba([0xab, 0xcd, 0xef, 255])));
    assert_eq!(parse_hex("ABCDEF01"), Ok(Color::from_rgba([0xab, 0xcd, 0xef, 0x01])));
    assert_eq!(parse_hex("F0a"), Ok(Color::from_rgba([0xff, 0x00, 0xaa, 255])));
}

#[test]
fn hex_short_form_doubles_each_digit() {
    assert_eq!(parse_hex("1234"), Ok(Color::from_rgba([0x11, 0x22, 0x33, 0x44])));
    assert_eq!(parse_hex("09af"), Ok(Color::from_rgba([0x00, 0x99, 0xaa, 0xff])));
}

#[test]
fn hex_wrong_length() {
    assert_eq!(parse_hex(""), Err(ColorParseError::InvalidLength));
    assert_eq!(parse_hex("1"), Err(ColorParseError::InvalidLength));
    assert_eq!(parse_hex("12"), Err(ColorParseError::InvalidLength));
    assert_eq!(parse_hex("12345"), Err(ColorParseError::InvalidLength));
    assert_eq!(parse_hex("1234567"), Err(ColorParseError::InvalidLength));
    assert_eq!(parse_hex("123456789"), Err(ColorParseError::InvalidLength));
    assert_eq!(parse_hex("zz"), Err(ColorParseError::InvalidLength));
    assert_eq!(parse_color("#"), Err(ColorParseError::InvalidLength));
}

#[test]
fn hex_wrong_digit() {
    assert_eq!(parse_hex("12g"), Err(ColorParseError::InvalidHex));
    assert_eq!(parse_hex("xyz1"), Err(ColorParseError::InvalidHex));
    assert_eq!(parse_hex("12345 "), Err(ColorParseError::InvalidHex));
    assert_eq!(parse_hex("1234567-"), Err(ColorParseError::InvalidHex));
}

#[test]
fn hex_length_counts_bytes() {
    // two characters, three bytes
    assert_eq!(parse_hex("\u{e9}1"), Err(ColorParseError::InvalidHex));
    // three characters, five bytes
    assert_eq!(parse_hex("\u{e9}\u{e9}1"), Err(ColorParseError::InvalidLength));
    // one character, four bytes
    assert_eq!(parse_hex("\u{1f600}"), Err(ColorParseError::InvalidHex));
    // three characters, nine bytes
    assert_eq!(parse_hex("\u{20ac}\u{20ac}\u{20ac}"), Err(ColorParseError::InvalidLength));
}

#[test]
fn blank_text_is_empty() {
    assert_eq!(parse_color(""), Err(ColorParseError::Empty));
    assert_eq!(parse_color("   "), Err(ColorParseError::Empty));
    assert_eq!(parse_color("\t\n\u{a0}\u{3000}"), Err(ColorParseError::Empty));
}

#[test]
fn white_space_is_trimmed() {
    assert_eq!(parse_color("  #fff \n"), Ok(Color::from_rgba([255, 255, 255, 255])));
    assert_eq!(parse_color("#  0008 "), Ok(Color::from_rgba([0, 0, 0, 136])));
    assert_eq!(parse_color("\u{2003}#112233\u{85}"), Ok(Color::from_rgba([0x11, 0x22, 0x33, 255])));
    assert_eq!(parse_color(" rgb( 1 , 2 ,3 ) "), Ok(Color::from_rgba([1, 2, 3, 255])));
    assert_eq!(parse_color("#ff f"), Err(ColorParseError::InvalidHex));
}

#[test]
fn rgb_function() {
    assert_eq!(parse_color("rgb(0,0,0)"), Ok(Color::from_rgba([0, 0, 0, 255])));
    assert_eq!(parse_color("rgb(255,128,7)"), Ok(Color::from_rgba([255, 128, 7, 255])));
    assert_eq!(parse_color("RGB(1,2,3)"), Ok(Color::from_rgba([1, 2, 3, 255])));
    assert_eq!(parse_color("Rgb(+1,002,3)"), Ok(Color::from_rgba([1, 2, 3, 255])));
    assert_eq!(parse_css_rgb("10, 20, 30"), Ok(Color::from_rgba([10, 20, 30, 255])));
    assert_eq!(
        parse_css_rgb("0000000000000000000000000255,0,0"),
        Ok(Color::from_rgba([255, 0, 0, 255]))
    );
}

#[test]
fn rgb_wrong_field_count() {
    assert_eq!(parse_color("rgb()"), Err(ColorParseError::InvalidFunc));
    assert_eq!(parse_color("rgb(1,2)"), Err(ColorParseError::InvalidFunc));
    assert_eq!(parse_color("rgb(1,2,3,4)"), Err(ColorParseError::InvalidFunc));
    assert_eq!(parse_color("rgba(1,2,3)"), Err(ColorParseError::InvalidFunc));
    assert_eq!(parse_color("rgba(1,2,3,4,5)"), Err(ColorParseError::InvalidFunc));
    assert_eq!(parse_css_rgb("x,y"), Err(ColorParseError::InvalidFunc));
}

#[test]
fn component_out_of_range() {
    assert_eq!(parse_color("rgb(256,0,0)"), Err(ColorParseError::OutOfRange));
    assert_eq!(parse_color("rgb(0,-1,0)"), Err(ColorParseError::OutOfRange));
    assert_eq!(parse_color("rgb(0,0,70000)"), Err(ColorParseError::OutOfRange));
    assert_eq!(parse_color("rgb(a,b,c)"), Err(ColorParseError::OutOfRange));
    assert_eq!(parse_color("rgb(1,,3)"), Err(ColorParseError::OutOfRange));
    assert_eq!(parse_color("rgb(1.5,2,3)"), Err(ColorParseError::OutOfRange));
    assert_eq!(parse_color("rgb(1,2,+)"), Err(ColorParseError::OutOfRange));
    assert_eq!(parse_color("rgb(1 2,2,3)"), Err(ColorParseError::OutOfRange));
    assert_eq!(parse_color("rgba(1,2,3,1.5)"), Err(ColorParseError::OutOfRange));
    assert_eq!(parse_color("rgba(1,2,3,256)"), Err(ColorParseError::OutOfRange));
    assert_eq!(parse_color("rgba(1,2,3,-0.5)"), Err(ColorParseError::OutOfRange));
    assert_eq!(parse_color("rgba(1,2,3,x)"), Err(ColorParseError::OutOfRange));
    assert_eq!(parse_color("rgba(300,2,3,0.5)"), Err(ColorParseError::OutOfRange));
}

#[test]
fn unknown_function() {
    assert_eq!(parse_color("hsl(1,2,3)"), Err(ColorParseError::InvalidFunc));
    assert_eq!(parse_color("rgb(1,2,3"), Err(ColorParseError::InvalidFunc));
    assert_eq!(parse_color("rgb 1,2,3)"), Err(ColorParseError::InvalidFunc));
    assert_eq!(parse_color("rgb("), Err(ColorParseError::InvalidFunc));
    assert_eq!(parse_color("rgba("), Err(ColorParseError::InvalidFunc));
    assert_eq!(parse_color("red"), Err(ColorParseError::InvalidFunc));
    assert_eq!(parse_color("fff"), Err(ColorParseError::InvalidFunc));
    assert_eq!(parse_color("rgb(1,2,3) x"), Err(ColorParseError::InvalidFunc));
}

#[test]
fn rgba_alpha_fraction() {
    assert_eq!(parse_color("rgba(1,2,3,0.5)"), Ok(Color::from_rgba([1, 2, 3, 128])));
    assert_eq!(parse_color("rgba(1,2,3,0)"), Ok(Color::from_rgba([1, 2, 3, 0])));
    assert_eq!(parse_color("rgba(1,2,3,1)"), Ok(Color::from_rgba([1, 2, 3, 255])));
    assert_eq!(parse_color("rgba(1,2,3,1.0)"), Ok(Color::from_rgba([1, 2, 3, 255])));
    assert_eq!(parse_color("RGBA(1,2,3, .25 )"), Ok(Color::from_rgba([1, 2, 3, 64])));
    assert_eq!(parse_color("rgba(1,2,3,5E-1)"), Ok(Color::from_rgba([1, 2, 3, 128])));
    assert_eq!(parse_css_rgba("9,8,7,0.1"), Ok(Color::from_rgba([9, 8, 7, 26])));
}

#[test]
fn rgba_alpha_integer() {
    assert_eq!(parse_color("rgba(1,2,3,128)"), Ok(Color::from_rgba([1, 2, 3, 128])));
    assert_eq!(parse_color("rgba(1,2,3,255)"), Ok(Color::from_rgba([1, 2, 3, 255])));
    assert_eq!(parse_color("rgba(1,2,3,2)"), Ok(Color::from_rgba([1, 2, 3, 2])));
    assert_eq!(parse_color("rgba(1,2,3,+17)"), Ok(Color::from_rgba([1, 2, 3, 17])));
}

#[test]
fn fraction_rounds_half_up() {
    assert_eq!(parse_fraction(&chars("0.1")), Some(26));
    assert_eq!(parse_fraction(&chars("0.3")), Some(77));
    assert_eq!(parse_fraction(&chars("0.5")), Some(128));
    assert_eq!(parse_fraction(&chars("0.7")), Some(179));
    assert_eq!(parse_fraction(&chars("0.9")), Some(230));
    assert_eq!(parse_fraction(&chars("0.2")), Some(51));
    assert_eq!(parse_fraction(&chars("0.25")), Some(64));
    assert_eq!(parse_fraction(&chars("0.999")), Some(255));
    assert_eq!(parse_fraction(&chars("0.998")), Some(254));
    assert_eq!(parse_fraction(&chars("0.00196")), Some(0));
    assert_eq!(parse_fraction(&chars("0.00197")), Some(1));
    assert_eq!(parse_fraction(&chars("0.0999999999999999999999999999999999999")), Some(25));
    assert_eq!(parse_fraction(&chars("0.1000000000000000000000000000000000000")), Some(26));
    assert_eq!(parse_fraction(&chars("0.0019607843137254901960784313725490196")), Some(0));
    assert_eq!(parse_fraction(&chars("0.0019607843137254901960784313725490197")), Some(1));
}

#[test]
fn fraction_forms() {
    assert_eq!(parse_fraction(&chars("1")), Some(255));
    assert_eq!(parse_fraction(&chars("1.")), Some(255));
    assert_eq!(parse_fraction(&chars(".5")), Some(128));
    assert_eq!(parse_fraction(&chars("+0.5")), Some(128));
    assert_eq!(parse_fraction(&chars("-0")), Some(0));
    assert_eq!(parse_fraction(&chars("-0.000e7")), Some(0));
    assert_eq!(parse_fraction(&chars("0001.000")), Some(255));
    assert_eq!(parse_fraction(&chars("100e-2")), Some(255));
    assert_eq!(parse_fraction(&chars("0.01e2")), Some(255));
    assert_eq!(parse_fraction(&chars("0.05e+1")), Some(128));
    assert_eq!(parse_fraction(&chars("50e-2")), Some(128));
    assert_eq!(parse_fraction(&chars("5000e-4")), Some(128));
    assert_eq!(parse_fraction(&chars("0.0005e3")), Some(128));
    assert_eq!(parse_fraction(&chars("1e-3")), Some(0));
    assert_eq!(parse_fraction(&chars("2e-3")), Some(1));
    assert_eq!(parse_fraction(&chars("1e-99999999999999999999999999999999999999")), Some(0));
    assert_eq!(parse_fraction(&chars("0e99999999999999999999999999999999999999")), Some(0));
}

#[test]
fn fraction_refused() {
    assert_eq!(parse_fraction(&chars("")), None);
    assert_eq!(parse_fraction(&chars(".")), None);
    assert_eq!(parse_fraction(&chars("+")), None);
    assert_eq!(parse_fraction(&chars("e5")), None);
    assert_eq!(parse_fraction(&chars("1e")), None);
    assert_eq!(parse_fraction(&chars("1e+")), None);
    assert_eq!(parse_fraction(&chars("1e5x")), None);
    assert_eq!(parse_fraction(&chars("1.2.3")), None);
    assert_eq!(parse_fraction(&chars("0x1")), None);
    assert_eq!(parse_fraction(&chars("inf")), None);
    assert_eq!(parse_fraction(&chars("nan")), None);
    assert_eq!(parse_fraction(&chars("1.0001")), None);
    assert_eq!(parse_fraction(&chars("1.0000000000000000000000000000000000001")), None);
    assert_eq!(parse_fraction(&chars("2")), None);
    assert_eq!(parse_fraction(&chars("10")), None);
    assert_eq!(parse_fraction(&chars("12e-1")), None);
    assert_eq!(parse_fraction(&chars("0.1e2")), None);
    assert_eq!(parse_fraction(&chars("1e1")), None);
    assert_eq!(parse_fraction(&chars("1e99999999999999999999999999999999999999")), None);
    assert_eq!(parse_fraction(&chars("-0.5")), None);
    assert_eq!(parse_fraction(&chars("-1")), None);
    assert_eq!(parse_fraction(&chars(" 1")), None);
}

#[test]
fn alpha_prefers_the_fraction() {
    assert_eq!(parse_alpha(&chars("1")), Some(255));
    assert_eq!(parse_alpha(&chars("0")), Some(0));
    assert_eq!(parse_alpha(&chars("2")), Some(2));
    assert_eq!(parse_alpha(&chars("255")), Some(255));
    assert_eq!(parse_alpha(&chars("256")), None);
    assert_eq!(parse_alpha(&chars("2.0")), None);
}

#[test]
fn channel_numbers() {
    assert_eq!(parse_channel(&chars("0")), Some(0));
    assert_eq!(parse_channel(&chars("255")), Some(255));
    assert_eq!(parse_channel(&chars("+7")), Some(7));
    assert_eq!(parse_channel(&chars("007")), Some(7));
    assert_eq!(parse_channel(&chars("256")), None);
    assert_eq!(parse_channel(&chars("")), None);
    assert_eq!(parse_channel(&chars("+")), None);
    assert_eq!(parse_channel(&chars("-0")), None);
    assert_eq!(parse_channel(&chars("++1")), None);
    assert_eq!(parse_channel(&chars("1 ")), None);
    assert_eq!(parse_channel(&chars("\u{661}")), None);
    assert_eq!(parse_channel(&chars("99999999999999999999999999")), None);
}

#[test]
fn text_helpers() {
    assert_eq!(to_chars("a\u{e9}z"), vec!['a', '\u{e9}', 'z']);
    assert_eq!(trim_slice(&chars(" \t a b \n")), &['a', ' ', 'b'][..]);
    assert_eq!(trim_slice(&chars("   ")), &[][..] as &[char]);
    assert_eq!(trim_slice(&chars("\u{1680}x\u{202f}")), &['x'][..]);
    assert_eq!(trim_slice(&chars("\u{200b}x")), &['\u{200b}', 'x'][..]);
    assert_eq!(to_ascii_lower(&chars("RgB(\u{c9}Z")), chars("rgb(\u{c9}z"));
    let s = chars("a,,b c,");
    let f = split_fields(&s);
    assert_eq!(f.len(), 4);
    assert_eq!(f[0], &['a'][..]);
    assert_eq!(f[1], &[][..] as &[char]);
    assert_eq!(f[2], &['b', ' ', 'c'][..]);
    assert_eq!(f[3], &[][..] as &[char]);
    let e = chars("");
    assert_eq!(split_fields(&e).len(), 1);
}

#[test]
fn error_messages() {
    assert_eq!(ColorParseError::Empty.to_string(), "empty color string");
    assert_eq!(ColorParseError::InvalidLength.to_string(), "invalid hex length");
    assert_eq!(ColorParseError::InvalidHex.to_string(), "invalid hex digits");
    assert_eq!(ColorParseError::InvalidFunc.to_string(), "invalid rgb()/rgba() function");
    assert_eq!(ColorParseError::OutOfRange.to_string(), "component out of range");
}

#[test]
fn hex8_round_trip_every_byte() {
    let mut v: u32 = 0;
    while v < 256 {
        let b = v as u8;
        let c = Color::from_rgba([b, b.wrapping_mul(7), b.wrapping_add(91), 255 - b]);
        assert_eq!(parse_hex(&c.into_hex8()), Ok(c));
        assert_eq!(parse_color(&c.to_string()), Ok(c));
        assert_eq!(parse_hex(&c.into_hex6()), Ok(c.with_alpha(255)));
        v += 1;
    }
}

#[test]
fn std_conversions_parse() {
    let a: Result<Color, ColorParseError> = "#0008".parse();
    assert_eq!(a, Ok(Color::from_rgba([0, 0, 0, 136])));
    assert_eq!(Color::try_from("rgb(1,2,3)"), Ok(Color::from_rgba([1, 2, 3, 255])));
    assert_eq!(Color::try_from(""), Err(ColorParseError::Empty));
    let b: Result<Color, ColorParseError> = "nothing".parse();
    assert_eq!(b, Err(ColorParseError::InvalidFunc));
}
