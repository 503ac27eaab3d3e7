use theme_colors::color::{
    color_from_hex, color_to_hex, get_contrast_color, parse_hex_color, Rgba,
};
use theme_colors::format::{color_to_format, detect_color_format, ColorFormat};

fn rgba(r: u8, g: u8, b: u8, a: u8) -> Rgba {
    Rgba { r, g, b, a }
}

#[test]
fn three_digit_form_divides_by_seventeen() {
    assert_eq!(color_to_format(rgba(255, 0, 0, 255), &ColorFormat::Hex3, ""), "#1500");
    assert_eq!(color_to_format(rgba(255, 255, 255, 255), &ColorFormat::Hex3, ""), "#151515");
    assert_eq!(color_to_format(rgba(34, 51, 170, 255), &ColorFormat::Hex3, ""), "#2310");
}

#[test]
fn hex_forms_are_lowercase_and_padded() {
    let c = rgba(0x0a, 0xbc, 0x01, 0x7f);
    assert_eq!(color_to_format(c, &ColorFormat::Hex6, ""), "#0abc01");
    assert_eq!(color_to_format(c, &ColorFormat::Hex8, ""), "#0abc017f");
    assert_eq!(color_to_hex(c), "#0abc01");
}

#[test]
fn rgb_forms() {
    let c = rgba(10, 20, 30, 127);
    assert_eq!(color_to_format(c, &ColorFormat::Rgb, ""), "rgb(10, 20, 30)");
    assert_eq!(
        color_to_format(c, &ColorFormat::Rgba, "0.49803922"),
        "rgba(10, 20, 30, 0.49803922)"
    );
}

#[test]
fn format_detection() {
    assert_eq!(detect_color_format("#abc"), ColorFormat::Hex3);
    assert_eq!(detect_color_format("  #abc\t"), ColorFormat::Hex3);
    assert_eq!(detect_color_format("#aabbcc"), ColorFormat::Hex6);
    assert_eq!(detect_color_format("#aabbccdd"), ColorFormat::Hex8);
    assert_eq!(detect_color_format("#abcd"), ColorFormat::Hex6);
    assert_eq!(detect_color_format("rgb(1,2,3)"), ColorFormat::Rgb);
    assert_eq!(detect_color_format("rgba(1,2,3,0.5)"), ColorFormat::Rgba);
    assert_eq!(detect_color_format("red"), ColorFormat::Hex6);
    assert_eq!(detect_color_format(""), ColorFormat::Hex6);
}

#[test]
fn hex_parsing() {
    assert_eq!(parse_hex_color("#fff"), Some(rgba(255, 255, 255, 255)));
    assert_eq!(parse_hex_color("##1a2B3c"), Some(rgba(0x1a, 0x2b, 0x3c, 255)));
    assert_eq!(parse_hex_color("#11223344"), Some(rgba(0x11, 0x22, 0x33, 0x44)));
    assert_eq!(parse_hex_color("#12345"), None);
    assert_eq!(parse_hex_color("#ggg"), None);
}

#[test]
fn accent_colors_from_settings() {
    assert_eq!(color_from_hex("#2646dc"), rgba(0x26, 0x46, 0xdc, 255));
    assert_eq!(color_from_hex("abc"), rgba(0xaa, 0xbb, 0xcc, 255));
    assert_eq!(color_from_hex("#zz0000"), rgba(0, 0, 0, 255));
    assert_eq!(color_from_hex("#12345678"), rgba(128, 128, 128, 255));
}

#[test]
fn contrast_colors() {
    assert_eq!(get_contrast_color(rgba(255, 255, 255, 255)), rgba(0, 0, 0, 255));
    assert_eq!(get_contrast_color(rgba(129, 129, 129, 255)), rgba(0, 0, 0, 255));
    assert_eq!(get_contrast_color(rgba(128, 128, 129, 255)), rgba(255, 255, 255, 255));
}
