use theme_colors::color::Rgba;
use theme_colors::format::{detect_color_format, ColorFormat};
use theme_colors::scanner::detect_colors_in_content;

fn rgba(r: u8, g: u8, b: u8, a: u8) -> Rgba {
    Rgba { r, g, b, a }
}

#[test]
fn three_digit_hex_on_a_line() {
    let found = detect_colors_in_content("color = #fff;");
    assert_eq!(found.len(), 1);
    let c = &found[0];
    assert_eq!(c.line, 0);
    assert_eq!(c.start_col, 8);
    assert_eq!(c.end_col, 12);
    assert_eq!(c.hex_text, "#fff");
    assert_eq!(c.id, "0_8");
    assert_eq!(c.value, rgba(255, 255, 255, 255));
    assert_eq!(detect_color_format(&c.hex_text), ColorFormat::Hex3);
}

#[test]
fn rgba_with_half_alpha() {
    let found = detect_colors_in_content("bg: rgba(10, 20, 30, 0.5)");
    assert_eq!(found.len(), 1);
    let c = &found[0];
    assert_eq!(c.value, rgba(10, 20, 30, 127));
    assert_eq!(c.start_col, 4);
    assert_eq!(c.end_col, 25);
    assert_eq!(c.hex_text, "rgba(10, 20, 30, 0.5)");
    assert_eq!(detect_color_format(&c.hex_text), ColorFormat::Rgba);
}

#[test]
fn hex_before_rgb_on_one_line() {
    let found = detect_colors_in_content("x rgb(1,2,3) y #123456");
    assert_eq!(found.len(), 2);
    assert_eq!(found[0].hex_text, "#123456");
    assert_eq!(found[0].value, rgba(0x12, 0x34, 0x56, 255));
    assert_eq!(found[1].hex_text, "rgb(1,2,3)");
    assert_eq!(found[1].value, rgba(1, 2, 3, 255));
    assert!(found[1].end_col <= found[0].start_col);
}

#[test]
fn hex_and_rgb_left_to_right() {
    let found = detect_colors_in_content("#123456 rgb(1,2,3)");
    assert_eq!(found.len(), 2);
    assert_eq!((found[0].start_col, found[0].end_col), (0, 7));
    assert_eq!((found[1].start_col, found[1].end_col), (8, 18));
    assert!(found[0].end_col <= found[1].start_col);
}

#[test]
fn each_literal_is_the_text_of_its_span() {
    let text = "a: #abc;\n\nb: rgb( 1 , 2 , 3 ) c: #AABBCCDD\nd: rgba(4,5,6,.25) #12345678\n";
    let found = detect_colors_in_content(text);
    assert_eq!(found.len(), 5);
    let lines: Vec<&str> = text.lines().collect();
    for c in &found {
        assert_eq!(c.hex_text, &lines[c.line][c.start_col..c.end_col]);
        assert_eq!(c.id, format!("{}_{}", c.line, c.start_col));
    }
    assert_eq!(found[0].line, 0);
    assert_eq!(found[1].hex_text, "#AABBCCDD");
    assert_eq!(found[1].value, rgba(0xaa, 0xbb, 0xcc, 0xdd));
    assert_eq!(found[2].hex_text, "rgb( 1 , 2 , 3 )");
    assert_eq!(found[3].hex_text, "#12345678");
    assert_eq!(found[4].value, rgba(4, 5, 6, 63));
}

#[test]
fn wrong_digit_counts_are_not_literals() {
    assert!(detect_colors_in_content("#12 #1234 #12345 #1234567 #123456789").is_empty());
    assert!(detect_colors_in_content("#fffg #fff_ #abcdefz").is_empty());
    assert!(detect_colors_in_content("").is_empty());
    assert!(detect_colors_in_content("no colors here\n").is_empty());
}

#[test]
fn hex_after_a_word_is_found() {
    let found = detect_colors_in_content("a#fff-x");
    assert_eq!(found.len(), 1);
    assert_eq!(found[0].start_col, 1);
    assert_eq!(found[0].hex_text, "#fff");
}

#[test]
fn channels_and_alpha_edge_cases() {
    let found = detect_colors_in_content(
        "rgb(300, 1, 2) rgba(1,2,3,1.5) rgba(1,2,3,1.2.3) rgba(1,2,3,0) rgb (7,8,9)",
    );
    assert_eq!(found.len(), 4);
    assert_eq!(found[0].value, rgba(0, 1, 2, 255));
    assert_eq!(found[1].value, rgba(1, 2, 3, 255));
    assert_eq!(found[2].value, rgba(1, 2, 3, 255));
    assert_eq!(found[3].value, rgba(1, 2, 3, 0));
}

#[test]
fn alpha_fraction_is_truncated() {
    let found = detect_colors_in_content("rgba(0,0,0,0.999) rgba(0,0,0,0.1) rgba(0,0,0,00.75)");
    assert_eq!(found[0].value.a, 254);
    assert_eq!(found[1].value.a, 25);
    assert_eq!(found[2].value.a, 191);
}

#[test]
fn malformed_rgb_is_skipped() {
    assert!(detect_colors_in_content("rgb(1,2) rgb(1,2,3 rgba(1,2,3,) rgb(a,b,c)").is_empty());
}

#[test]
fn crlf_lines_and_line_numbers() {
    let found = detect_colors_in_content("a #fff\r\n\r\nb #000000\n");
    assert_eq!(found.len(), 2);
    assert_eq!((found[0].line, found[0].start_col, found[0].end_col), (0, 2, 6));
    assert_eq!((found[1].line, found[1].start_col), (2, 2));
    assert_eq!(found[1].id, "2_2");
}

#[test]
fn non_ascii_text_keeps_byte_columns() {
    let found = detect_colors_in_content("é: #abc");
    assert_eq!(found.len(), 1);
    assert_eq!(found[0].start_col, 4);
    assert_eq!(found[0].hex_text, "#abc");
}

#[test]
fn rescanning_gives_the_same_literals() {
    let text = "x: #fff; y: rgb(1, 2, 3)";
    let a = detect_colors_in_content(text);
    let b = detect_colors_in_content(text);
    assert_eq!(a.len(), b.len());
    for (p, q) in a.iter().zip(b.iter()) {
        assert_eq!(p.id, q.id);
        assert_eq!(p.value, q.value);
    }
}

#[test]
fn rgb_name_is_exact_and_touches_paren() {
    assert!(detect_colors_in_content("rgb (1,2,3)").is_empty());
    assert!(detect_colors_in_content("RGB(1,2,3)").is_empty());
    assert!(detect_colors_in_content("Rgba(1,2,3,0.5)").is_empty());
    let found = detect_colors_in_content("rgb( 1 ,2, 3 )");
    assert_eq!(found.len(), 1);
    assert_eq!(found[0].value, rgba(1, 2, 3, 255));
}
