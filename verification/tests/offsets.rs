//! Tests of byte / code-unit offset translation.

use pilcrow::offsets::OffsetTranslator;

fn translator_for(text: &str) -> OffsetTranslator {
    OffsetTranslator::from_chars(text.chars().collect())
}

#[test]
fn ascii_offsets_are_identical() {
    let t = translator_for("hello");
    assert_eq!(t.byte_length(), 5);
    assert_eq!(t.code_unit_length(), 5);
    for b in 0..=5usize {
        assert!(t.is_boundary(b));
        assert_eq!(t.byte_to_code_unit(b), b);
        assert_eq!(t.code_unit_to_byte(b), b);
    }
}

#[test]
fn multibyte_offsets_diverge_predictably() {
    // 'a' 1 byte / 1 unit, U+00E9 2 bytes / 1 unit,
    // U+1D11E 4 bytes / 2 units, 'b' 1 byte / 1 unit
    let t = translator_for("a\u{e9}\u{1d11e}b");
    assert_eq!(t.byte_length(), 8);
    assert_eq!(t.code_unit_length(), 5);
    assert_eq!(t.byte_to_code_unit(0), 0);
    assert_eq!(t.byte_to_code_unit(1), 1);
    assert_eq!(t.byte_to_code_unit(3), 2);
    assert_eq!(t.byte_to_code_unit(7), 4);
    assert_eq!(t.byte_to_code_unit(8), 5);
    assert_eq!(t.code_unit_to_byte(0), 0);
    assert_eq!(t.code_unit_to_byte(1), 1);
    assert_eq!(t.code_unit_to_byte(2), 3);
    assert_eq!(t.code_unit_to_byte(4), 7);
    assert_eq!(t.code_unit_to_byte(5), 8);
}

#[test]
fn round_trip_holds_on_every_boundary() {
    let text = "x\u{e9}\u{1d11e}\u{4e2d}y";
    let t = translator_for(text);
    for b in 0..=text.len() {
        if t.is_boundary(b) {
            assert_eq!(t.code_unit_to_byte(t.byte_to_code_unit(b)), b);
        }
    }
}

#[test]
fn interior_bytes_are_not_boundaries() {
    let t = translator_for("a\u{e9}\u{1d11e}b");
    assert!(t.is_boundary(0));
    assert!(t.is_boundary(1));
    assert!(!t.is_boundary(2)); // inside the two-byte character
    assert!(t.is_boundary(3));
    assert!(!t.is_boundary(4)); // inside the four-byte character
    assert!(!t.is_boundary(5));
    assert!(!t.is_boundary(6));
    assert!(t.is_boundary(7));
    assert!(t.is_boundary(8));
    assert!(!t.is_boundary(9)); // past the end
}

#[test]
fn empty_text_has_one_boundary() {
    let t = translator_for("");
    assert_eq!(t.byte_length(), 0);
    assert_eq!(t.code_unit_length(), 0);
    assert!(t.is_boundary(0));
    assert!(!t.is_boundary(1));
    assert_eq!(t.byte_to_code_unit(0), 0);
    assert_eq!(t.code_unit_to_byte(0), 0);
}
