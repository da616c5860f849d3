use rotom::compiler::sourcemap::{Position, SourceMap};

#[test]
fn ascii_positions() {
    let src = "line1\nline2\nline3";
    let map = SourceMap::new(src);
    assert_eq!(
        map.byte_to_position(0),
        Position {
            line: 0,
            character: 0
        }
    );
    assert_eq!(
        map.byte_to_position(3),
        Position {
            line: 0,
            character: 3
        }
    );
    assert_eq!(
        map.byte_to_position(6),
        Position {
            line: 1,
            character: 0
        }
    );
    assert_eq!(
        map.byte_to_position(9),
        Position {
            line: 1,
            character: 3
        }
    );
}

#[test]
fn utf16_surrogate_pairs() {
    // 😀 (U+1F600) is 2 UTF-16 code units, 4 UTF-8 bytes.
    let src = "a😀b";
    let map = SourceMap::new(src);
    assert_eq!(
        map.byte_to_position(0),
        Position {
            line: 0,
            character: 0
        }
    ); // 'a'
    assert_eq!(
        map.byte_to_position(1),
        Position {
            line: 0,
            character: 1
        }
    ); // 'a'
    assert_eq!(
        map.byte_to_position(5),
        Position {
            line: 0,
            character: 3
        }
    ); // 'b'
    assert_eq!(
        map.byte_to_position(6),
        Position {
            line: 0,
            character: 4
        }
    ); // past end
}

#[test]
fn roundtrip_byte_position() {
    let src = "Hello\nWorld 🎉!";
    let map = SourceMap::new(src);
    // Test every valid char boundary to avoid slicing inside multi-byte chars.
    let mut offsets: Vec<usize> = src.char_indices().map(|(i, _)| i).collect();
    offsets.push(src.len());
    for offset in offsets {
        let pos = map.byte_to_position(offset);
        let back = map.position_to_byte(pos);
        // Round-trip may clamp inside a surrogate pair, so it should never
        // exceed the original offset and should land on a char boundary.
        assert!(back <= offset, "round-trip exceeded original offset");
        assert!(
            src.is_char_boundary(back),
            "round-trip landed on non-char-boundary"
        );
    }
}

#[test]
fn position_to_byte_past_end() {
    let src = "hi";
    let map = SourceMap::new(src);
    assert_eq!(
        map.position_to_byte(Position {
            line: 0,
            character: 10
        }),
        2
    );
    assert_eq!(
        map.position_to_byte(Position {
            line: 10,
            character: 0
        }),
        2
    );
}

#[test]
fn source_gives_back_the_text() {
    let text = "line1\nline2";
    let map = SourceMap::new(text);
    assert_eq!(map.source(), text);
    assert_eq!(map.line_count(), 2);
}

#[test]
fn out_of_range_offsets_give_the_origin() {
    let map = SourceMap::new("hi");
    assert_eq!(map.byte_to_position(10), Position { line: 0, character: 0 });
    assert_eq!(map.byte_to_position(2), Position { line: 0, character: 2 });
}

#[test]
fn columns_past_a_line_clamp_before_its_newline() {
    let map = SourceMap::new("ab\ncd");
    assert_eq!(map.position_to_byte(Position { line: 0, character: 10 }), 2);
    assert_eq!(map.position_to_byte(Position { line: 10, character: 0 }), 5);
    assert_eq!(map.position_to_byte(Position { line: 1, character: 1 }), 4);
    assert_eq!(map.position_to_byte(Position { line: 1, character: 9 }), 5);
}
