use mdmath_lsp::text::{
    apply_content_changes, offset_to_position, position_to_offset, ContentChange, Position, Range,
};

#[test]
fn round_trip_position_conversion_handles_utf16() {
    let text = "alpha\nmeow 😸\nomega";
    let position = Position {
        line: 1,
        character: 5,
    };

    let offset = position_to_offset(text, position);
    assert_eq!(&text[offset..], "😸\nomega");
    assert_eq!(offset_to_position(text, offset), position);
}

#[test]
fn incremental_changes_apply_in_order() {
    let text = "abc".to_string();
    let changed = apply_content_changes(
        text,
        vec![ContentChange {
            range: Some(Range {
                start: Position {
                    line: 0,
                    character: 1,
                },
                end: Position {
                    line: 0,
                    character: 2,
                },
            }),
            text: "zz".to_string(),
        }],
    );

    assert_eq!(changed, "azzc");
}
