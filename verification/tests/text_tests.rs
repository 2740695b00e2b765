use downlint::utils::text::{ByteRange, LspPosition, PositionEncoding, PositionError, Text, TextEditChange};

#[test]
fn utf16_round_trip_handles_emoji() {
    let text = Text::new("a\n🚀 test");
    let offset = "a\n🚀".len();
    let position = text.to_lsp_position(offset, PositionEncoding::Utf16).unwrap();
    assert_eq!(position.line, 1);
    assert_eq!(position.character, 2);
    assert_eq!(
        text.byte_offset(&LspPosition { line: position.line, character: position.character }, PositionEncoding::Utf16)
            .unwrap(),
        offset
    );
}

#[test]
fn utf8_positions_count_bytes() {
    let text = Text::new("é\nx");
    let position = text.to_lsp_position(2, PositionEncoding::Utf8).unwrap();
    assert_eq!((position.line, position.character), (0, 2));
    assert!(matches!(text.to_lsp_position(1, PositionEncoding::Utf8), Err(PositionError::NotOnCharBoundary(1))));
    assert!(matches!(
        text.byte_offset(&LspPosition { line: 5, character: 0 }, PositionEncoding::Utf8),
        Err(PositionError::InvalidLine(5))
    ));
}

#[test]
fn apply_all_works_from_the_back() {
    let text = Text::new("hello world");
    let changes = vec![
        TextEditChange { range: ByteRange::new(0, 5), replacement: "bye".to_string() },
        TextEditChange { range: ByteRange::new(6, 11), replacement: "all".to_string() },
    ];
    let result = TextEditChange::apply_all(&text, &changes);
    assert_eq!(result.as_str(), "bye all");
}

#[test]
fn apply_all_ignores_the_order_of_disjoint_changes() {
    let text = Text::new("one two three");
    let a = TextEditChange { range: ByteRange::new(0, 3), replacement: "1".to_string() };
    let b = TextEditChange { range: ByteRange::new(4, 7), replacement: "2".to_string() };
    let c = TextEditChange { range: ByteRange::new(13, 13), replacement: "!".to_string() };
    let forward = TextEditChange::apply_all(&text, &[a.clone(), b.clone(), c.clone()]);
    let backward = TextEditChange::apply_all(&text, &[c, b, a]);
    assert_eq!(forward.as_str(), "1 2 three!");
    assert_eq!(backward.as_str(), "1 2 three!");
}

#[test]
fn replace_range_and_slices() {
    let text = Text::new("ab\ncd");
    assert_eq!(text.line(1).unwrap(), "cd");
    assert_eq!(text.slice(ByteRange::new(1, 4)), "b\nc");
    let replaced = text.replace_range(ByteRange::new(1, 2), "XY");
    assert_eq!(replaced.as_str(), "aXY\ncd");
    assert_eq!(text.line_map().line_count(), 2);
}

#[test]
fn byte_range_basics() {
    let r = ByteRange::new(2, 5);
    assert_eq!(r.len(), 3);
    assert!(!r.is_empty());
    assert!(r.contains(4));
    assert!(!r.contains(5));
    assert_eq!(ByteRange::new(5, 2).len(), 0);
}

#[test]
fn positions_lead_back_to_offsets() {
    let text = Text::new("ab\r\nc🚀d\ne");
    for offset in [0usize, 1, 2, 4, 5, 9, 10, 11, 12] {
        for enc in [PositionEncoding::Utf8, PositionEncoding::Utf16] {
            let p = text.to_lsp_position(offset, enc).unwrap();
            assert_eq!(text.byte_offset(&p, enc).unwrap(), offset);
        }
    }
    for enc in [PositionEncoding::Utf8, PositionEncoding::Utf16] {
        let inside_break = text.to_lsp_position(3, enc).unwrap();
        assert_eq!((inside_break.line, inside_break.character), (0, 3));
    }
    let p = text.to_lsp_position(3, PositionEncoding::Utf8).unwrap();
    assert_eq!(text.byte_offset(&p, PositionEncoding::Utf8).unwrap(), 3);
    let q = text.to_lsp_position(3, PositionEncoding::Utf16).unwrap();
    assert!(text.byte_offset(&q, PositionEncoding::Utf16).is_err());
}

#[test]
fn replaced_text_reads_back() {
    let text = Text::new("héllo world");
    let replaced = text.replace_range(ByteRange { start: 7, end: 12 }, "🚀x");
    assert_eq!(replaced.as_str(), "héllo 🚀x");
    assert_eq!(replaced.slice(ByteRange { start: 7, end: 7 + "🚀x".len() }), "🚀x");
}

#[test]
fn position_errors_and_messages() {
    let text = Text::new("ab\n🚀");
    assert_eq!(text.byte_offset(&LspPosition { line: 5, character: 0 }, PositionEncoding::Utf16), Err(PositionError::InvalidLine(5)));
    assert_eq!(text.byte_offset(&LspPosition { line: 1, character: 1 }, PositionEncoding::Utf16), Err(PositionError::InvalidCharacter(1)));
    assert_eq!(text.to_lsp_position(4, PositionEncoding::Utf8), Err(PositionError::NotOnCharBoundary(4)));
    assert_eq!(text.to_lsp_position(99, PositionEncoding::Utf8), Err(PositionError::NotOnCharBoundary(99)));
    assert_eq!(PositionError::InvalidLine(3).message(), "invalid line 3");
    assert_eq!(PositionError::InvalidCharacter(12).message(), "invalid character 12");
    assert_eq!(PositionError::NotOnCharBoundary(5).message(), "offset 5 is not a UTF-8 boundary");
}
