use blaze::sourcetext::SourceText;

#[test]
fn line_numbers_on_three_lines() {
    let text = SourceText::new("ab\ncde\nf");
    for pos in 0..=2 {
        assert_eq!(text.get_line_by_pos(pos).unwrap().0, 1);
    }
    for pos in 3..=6 {
        assert_eq!(text.get_line_by_pos(pos).unwrap().0, 2);
    }
    for pos in 7..=8 {
        assert_eq!(text.get_line_by_pos(pos).unwrap().0, 3);
    }
    assert_eq!(text.get_line_by_pos(9), None);
    assert_eq!(text.get_line_by_pos(100), None);
}

#[test]
fn columns_and_line_text() {
    let text = SourceText::new("ab\ncde\nf");
    assert_eq!(text.get_line_by_pos(0), Some((1, 1, "ab".to_string())));
    assert_eq!(text.get_line_by_pos(2), Some((1, 3, "ab".to_string())));
    assert_eq!(text.get_line_by_pos(5), Some((2, 3, "cde".to_string())));
    assert_eq!(text.get_line_by_pos(8), Some((3, 2, "f".to_string())));
}

#[test]
fn trailing_newline_ends_with_empty_line() {
    let text = SourceText::new("x\n");
    assert_eq!(text.get_line_by_pos(1), Some((1, 2, "x".to_string())));
    assert_eq!(text.get_line_by_pos(2), Some((2, 1, String::new())));
    assert_eq!(text.get_line_by_pos(3), None);
}

#[test]
fn empty_source() {
    let text = SourceText::new("");
    assert_eq!(text.get_line_by_pos(0), Some((1, 1, String::new())));
    assert_eq!(text.get_line_by_pos(1), None);
}

#[test]
fn literal_slices() {
    let text = SourceText::new("let x = 42");
    assert_eq!(text.get_literal(0, 3), "let");
    assert_eq!(text.get_literal(8, 10), "42");
    assert_eq!(text.get_literal(4, 4), "");
}

#[test]
fn offsets_are_bytes() {
    let text = SourceText::new("\u{e9}x\nb");
    assert_eq!(text.get_line_by_pos(0), Some((1, 1, "\u{e9}x".to_string())));
    assert_eq!(text.get_line_by_pos(2), Some((1, 3, "\u{e9}x".to_string())));
    assert_eq!(text.get_line_by_pos(3), Some((1, 4, "\u{e9}x".to_string())));
    assert_eq!(text.get_line_by_pos(4), Some((2, 1, "b".to_string())));
    assert_eq!(text.get_line_by_pos(5), Some((2, 2, "b".to_string())));
    assert_eq!(text.get_line_by_pos(6), None);
    assert_eq!(text.get_literal(0, 3), "\u{e9}x");
}
