//! Tests of the style cascade.

use pilcrow::simple_styled_text::SimpleStyledTextBuf;
use pilcrow::styled_text::is_balanced;
use pilcrow::style::{resolve_at, EffectiveStyle, StyleResolver};
use pilcrow::styled_text::{
    FontFamilyId, InitialStyle, ReplacedContentMetrics, Style, StyledTextNode, StyledTextNodeBuf,
    DEFAULT_FONT_WEIGHT,
};

fn init_style() -> InitialStyle {
    InitialStyle::from_font_family(FontFamilyId(7))
}

fn italic_of(style: &EffectiveStyle) -> bool {
    match style {
        EffectiveStyle::Inline { font_italic, .. } => *font_italic,
        EffectiveStyle::Replaced { .. } => panic!("expected an inline style"),
    }
}

#[test]
fn nested_emphasis_resolves_per_span() {
    // Text("a"), Start(FontItalic(true)), Text("b"), End, Text("c")
    let mut text = SimpleStyledTextBuf::new("a".to_owned(), init_style());
    assert!(text.push_node(StyledTextNodeBuf::Start(Style::FontItalic(true))));
    assert!(text.push_node(StyledTextNodeBuf::Text("b".to_owned())));
    assert!(text.push_node(StyledTextNodeBuf::End));
    assert!(text.push_node(StyledTextNodeBuf::Text("c".to_owned())));

    assert!(!italic_of(&resolve_at(&text, 0))); // at "a"
    assert!(italic_of(&resolve_at(&text, 2))); // at "b"
    assert!(!italic_of(&resolve_at(&text, 4))); // at "c"
}

#[test]
fn innermost_override_wins() {
    let mut text = SimpleStyledTextBuf::new("".to_owned(), init_style());
    assert!(text.push_node(StyledTextNodeBuf::Start(Style::FontSize(20.0f32.to_bits()))));
    assert!(text.push_node(StyledTextNodeBuf::Start(Style::FontSize(28.0f32.to_bits()))));
    assert!(text.push_node(StyledTextNodeBuf::Text("x".to_owned())));
    match resolve_at(&text, 3) {
        EffectiveStyle::Inline { font_size, font_weight, font_family, .. } => {
            assert_eq!(font_size, 28.0f32.to_bits());
            // untouched properties are inherited unchanged
            assert_eq!(font_weight, DEFAULT_FONT_WEIGHT);
            assert_eq!(font_family, FontFamilyId(7));
        }
        EffectiveStyle::Replaced { .. } => panic!("expected an inline style"),
    }
}

#[test]
fn closing_a_scope_restores_the_outer_style() {
    let init = init_style();
    let mut resolver = StyleResolver::new(&init);
    let inherited = resolver.current();
    resolver.advance(&StyledTextNodeBuf::Start(Style::FontWeight(700)));
    match resolver.current() {
        EffectiveStyle::Inline { font_weight, .. } => assert_eq!(font_weight, 700),
        EffectiveStyle::Replaced { .. } => panic!("expected an inline style"),
    }
    resolver.advance(&StyledTextNodeBuf::End);
    assert_eq!(resolver.current(), inherited);
}

#[test]
fn replaced_content_supersedes_and_ignores_narrowing() {
    let metrics = ReplacedContentMetrics {
        width: 100.0f32.to_bits(),
        ascent: 80.0f32.to_bits(),
        descent: 0,
    };
    let init = init_style();
    let mut resolver = StyleResolver::new(&init);
    resolver.advance(&StyledTextNodeBuf::Start(Style::ReplacedContent(metrics)));
    assert_eq!(
        resolver.current(),
        EffectiveStyle::Replaced {
            width: 100.0f32.to_bits(),
            ascent: 80.0f32.to_bits(),
            descent: 0,
        },
    );
    // property overrides inside a replaced scope change nothing
    resolver.advance(&StyledTextNodeBuf::Start(Style::FontItalic(true)));
    assert!(matches!(resolver.current(), EffectiveStyle::Replaced { .. }));
}

#[test]
fn balance_is_checkable_before_typesetting() {
    let mut text = SimpleStyledTextBuf::new("a".to_owned(), init_style());
    assert!(is_balanced(&text));
    assert!(text.push_node(StyledTextNodeBuf::Start(Style::FontItalic(true))));
    assert!(!is_balanced(&text)); // an unclosed scope
    assert!(text.push_node(StyledTextNodeBuf::End));
    assert!(is_balanced(&text));

    let mut stray = SimpleStyledTextBuf::new("b".to_owned(), init_style());
    assert!(stray.push_node(StyledTextNodeBuf::End)); // a closer with no opener
    assert!(!is_balanced(&stray));
}

#[test]
fn owned_nodes_borrow_as_reference_nodes() {
    let node = StyledTextNodeBuf::Text("hi".to_owned());
    match node.borrow() {
        StyledTextNode::Text(s) => assert_eq!(s, "hi"),
        _ => panic!("expected a text node"),
    }
    assert!(matches!(
        StyledTextNodeBuf::Start(Style::FontItalic(true)).borrow(),
        StyledTextNode::Start(Style::FontItalic(true)),
    ));
    assert!(matches!(StyledTextNodeBuf::End.borrow(), StyledTextNode::End));
}

#[test]
fn initial_style_carries_documented_defaults() {
    let s = init_style();
    assert_eq!(s.font_family, FontFamilyId(7));
    assert_eq!(s.font_size, 16.0f32.to_bits());
    assert_eq!(s.font_weight, 400);
    assert!(!s.font_italic);
    assert_eq!(s.letter_spacing, 0);
    assert_eq!(s.word_spacing, 0);
}
