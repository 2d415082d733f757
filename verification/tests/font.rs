use rar_os::font::glyph;

#[test]
fn letters_draw_in_upper_case_and_unknown_bytes_as_question_mark() {
    assert_eq!(glyph(b'a'), glyph(b'A'));
    assert_eq!(glyph(b'A'), [14, 17, 17, 31, 17, 17, 17]);
    assert_eq!(glyph(b'0'), [14, 17, 19, 21, 25, 17, 14]);
    assert_eq!(glyph(b' '), [0; 7]);
    assert_eq!(glyph(b'?'), [14, 17, 1, 2, 4, 0, 4]);
    assert_eq!(glyph(0xff), glyph(b'?'));
    assert_eq!(glyph(b'z'), [31, 1, 2, 4, 8, 16, 31]);
}
