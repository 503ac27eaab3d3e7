use theme_colors::color::Rgba;
use theme_colors::format::ColorFormat;
use theme_colors::scanner::detect_colors_in_content;
use theme_colors::session::{replace_in_line, EditSession, PatchError};

fn rgba(r: u8, g: u8, b: u8, a: u8) -> Rgba {
    Rgba { r, g, b, a }
}

#[test]
fn replacing_keeps_everything_else() {
    let text = "a { color: #FFAA00; }\r\nnext\n";
    let r = replace_in_line(text, 0, 11, 7, "#ffaa00").unwrap();
    assert_eq!(r, "a { color: #ffaa00; }\r\nnext\n");
    let r = replace_in_line(text, 0, 11, 7, "rgb(1, 2, 3)").unwrap();
    assert_eq!(r, "a { color: rgb(1, 2, 3); }\r\nnext\n");
}

#[test]
fn literal_at_line_end() {
    let text = "x #abc\ny";
    assert_eq!(replace_in_line(text, 0, 2, 4, "#000000").unwrap(), "x #000000\ny");
    assert_eq!(replace_in_line(text, 0, 2, 4, "").unwrap(), "x \ny");
    assert_eq!(replace_in_line("k: rgb(1,2,3)", 0, 3, 10, "#fff").unwrap(), "k: #fff");
}

#[test]
fn trailing_newline_is_kept() {
    assert_eq!(replace_in_line("x #fff\n", 0, 2, 4, "#000").unwrap(), "x #000\n");
    assert_eq!(replace_in_line("x #fff", 0, 2, 4, "#000").unwrap(), "x #000");
}

#[test]
fn patch_errors() {
    assert_eq!(replace_in_line("a\nb", 2, 0, 1, "x"), Err(PatchError::LineNotFound));
    assert_eq!(replace_in_line("a\n", 1, 0, 0, "x"), Err(PatchError::LineNotFound));
    assert_eq!(replace_in_line("ab", 0, 2, 0, "x"), Err(PatchError::ColumnOutOfRange));
    assert_eq!(replace_in_line("é", 0, 1, 0, "x"), Err(PatchError::ColumnOutOfRange));
    assert_eq!(replace_in_line("ab\ncd", 0, 1, 2, "x"), Err(PatchError::SpanMismatch));
}

#[test]
fn edit_session_round_trip() {
    let mut s = EditSession::new("a: #FFF;\nb: rgb(1, 2, 3)\n".to_string());
    assert_eq!(s.buffer.detected_colors().len(), 2);
    let first = s.buffer.detected_colors()[0].clone();
    s.start_color_edit(first.id.clone(), "f.css".to_string(), first.value, first.hex_text.clone());
    assert_eq!(
        s.color_edit_target.as_ref().map(|t| t.original_format),
        Some(ColorFormat::Hex3)
    );
    assert_eq!(s.update_color(rgba(255, 0, 0, 255), ""), Ok(()));
    assert_eq!(s.buffer.content(), "a: #1500;\nb: rgb(1, 2, 3)\n");
    assert!(s.color_edit_target.is_none());
    assert!(s.has_unsaved_changes);
    assert_eq!(s.modified_colors, vec![("0_3".to_string(), "#1500".to_string())]);
}

#[test]
fn rescan_after_edit_has_no_stale_entries() {
    let mut s = EditSession::new("c: #fff #000\n".to_string());
    assert_eq!(s.apply_color_change(&"0_3".to_string(), "#fff", "rgb(9, 9, 9)"), Ok(()));
    assert_eq!(s.buffer.content(), "c: rgb(9, 9, 9) #000\n");
    let now = s.buffer.detected_colors();
    assert_eq!(now.len(), 2);
    assert_eq!(now[0].hex_text, "#000");
    assert_eq!(now[0].id, "0_16");
    assert_eq!(now[1].value, rgba(9, 9, 9, 255));
    let again = detect_colors_in_content(s.buffer.content());
    assert_eq!(again.len(), now.len());
    assert_eq!(
        s.apply_color_change(&"0_8".to_string(), "#000", "#111"),
        Err(PatchError::UnknownId)
    );
    assert_eq!(s.buffer.content(), "c: rgb(9, 9, 9) #000\n");
}

#[test]
fn update_without_edit_changes_nothing() {
    let mut s = EditSession::new("x #fff".to_string());
    assert_eq!(s.update_color(rgba(1, 2, 3, 255), ""), Ok(()));
    assert_eq!(s.buffer.content(), "x #fff");
    assert!(!s.has_unsaved_changes);
    s.start_color_edit("0_2".to_string(), "f".to_string(), rgba(255, 255, 255, 255), "#fff".to_string());
    s.close_color_edit();
    assert!(s.color_edit_target.is_none());
}

#[test]
fn second_edit_of_same_literal_replaces_record() {
    let mut s = EditSession::new("x #aabbcc".to_string());
    s.start_color_edit("0_2".to_string(), "f".to_string(), rgba(0xaa, 0xbb, 0xcc, 255), "#aabbcc".to_string());
    assert_eq!(s.update_color(rgba(1, 2, 3, 255), ""), Ok(()));
    s.start_color_edit("0_2".to_string(), "f".to_string(), rgba(1, 2, 3, 255), "#010203".to_string());
    assert_eq!(s.update_color(rgba(4, 5, 6, 255), ""), Ok(()));
    assert_eq!(s.buffer.content(), "x #040506");
    assert_eq!(s.modified_colors, vec![("0_2".to_string(), "#040506".to_string())]);
}

#[test]
fn rebuild_from_original_text() {
    let original = "a: #fff;\nb: #000000;\n";
    let mut s = EditSession::new(original.to_string());
    s.start_color_edit("1_3".to_string(), "f".to_string(), rgba(0, 0, 0, 255), "#000000".to_string());
    assert_eq!(s.update_color(rgba(0x12, 0x34, 0x56, 255), ""), Ok(()));
    s.rebuild_file_content(original);
    assert_eq!(s.buffer.content(), "a: #fff;\nb: #123456;\n");
    assert_eq!(s.buffer.detected_colors().len(), 2);
}

#[test]
fn rebuild_skips_unusable_records() {
    let mut s = EditSession::new("x #fff".to_string());
    s.modified_colors.push(("bad".to_string(), "#000".to_string()));
    s.modified_colors.push(("9_0".to_string(), "#000".to_string()));
    s.modified_colors.push(("0_2".to_string(), "#000".to_string()));
    s.rebuild_file_content("x #fff");
    assert_eq!(s.buffer.content(), "x #000");
}

#[test]
fn rebuild_skips_a_record_that_overruns_its_line() {
    let mut s = EditSession::new("x #fff".to_string());
    s.modified_colors.push(("0_2".to_string(), "Q".to_string()));
    s.rebuild_file_content("xy\nzzzz");
    assert_eq!(s.buffer.content(), "xy\nzzzz");
}

#[test]
fn saving_clears_the_record() {
    let mut s = EditSession::new("x #fff".to_string());
    assert_eq!(s.apply_color_change(&"0_2".to_string(), "#fff", "#000"), Ok(()));
    s.modified_colors.push(("0_2".to_string(), "#000".to_string()));
    s.has_unsaved_changes = true;
    s.mark_saved();
    assert!(s.modified_colors.is_empty());
    assert!(!s.has_unsaved_changes);
    assert_eq!(s.buffer.content(), "x #000");
}

#[test]
fn rebuild_uses_the_original_literal_length() {
    let original = "rgb(1,2,3) aaaa";
    let mut s = EditSession::new(original.to_string());
    s.start_color_edit("0_0".to_string(), "f".to_string(), rgba(1, 2, 3, 255), "rgb(1,2,3)".to_string());
    assert_eq!(s.update_color(rgba(10, 20, 30, 255), ""), Ok(()));
    assert_eq!(s.buffer.content(), "rgb(10, 20, 30) aaaa");
    s.rebuild_file_content(original);
    assert_eq!(s.buffer.content(), "rgb(10, 20, 30) aaaa");
}

#[test]
fn rebuild_keeps_a_lengthened_three_digit_edit() {
    let original = "a #fff b\n";
    let mut s = EditSession::new(original.to_string());
    s.start_color_edit("0_2".to_string(), "f".to_string(), rgba(255, 255, 255, 255), "#fff".to_string());
    assert_eq!(s.update_color(rgba(255, 255, 255, 255), ""), Ok(()));
    assert_eq!(s.buffer.content(), "a #151515 b\n");
    s.rebuild_file_content(original);
    assert_eq!(s.buffer.content(), "a #151515 b\n");
}

#[test]
fn rebuild_with_a_longer_literal_keeps_what_follows() {
    let original = "x: rgba(1,2,3,0.5); y";
    let mut s = EditSession::new(original.to_string());
    s.modified_colors.push(("0_3".to_string(), "#0a0b0c".to_string()));
    s.rebuild_file_content(original);
    assert_eq!(s.buffer.content(), "x: #0a0b0c; y");
}
