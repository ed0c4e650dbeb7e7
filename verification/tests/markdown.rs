//! Tests of the markdown-conversion decisions and of the small format
//! value types.

use pilcrow::format::{Color, FontFaceId, FontId, Format, Image};
use pilcrow::markdown::{
    BlockBuilder, BlockKind, BlockSelector, InlineEvent, InlineSelector, List, ListMarker,
    ParseResults, STRONG_FONT_WEIGHT,
};
use pilcrow::styled_text::{
    is_balanced, FontFamilyId, InitialStyle, ReplacedContentMetrics, Style, StyledTextNodeBuf,
};

#[test]
fn image_urls_are_registered_once_in_order() {
    let mut results = ParseResults::new();
    assert_eq!(results.image_count(), 0);
    assert_eq!(results.register_image_url("a.png".to_owned()), 0);
    assert_eq!(results.register_image_url("b.png".to_owned()), 1);
    assert_eq!(results.register_image_url("a.png".to_owned()), 0);
    assert_eq!(results.register_image_url("c.png".to_owned()), 2);
    assert_eq!(results.image_count(), 3);
    assert_eq!(results.image_url(0).as_str(), "a.png");
    assert_eq!(results.image_url(1).as_str(), "b.png");
    assert_eq!(results.image_url(2).as_str(), "c.png");
}

#[test]
fn list_markers_follow_the_innermost_list() {
    let mut lists: Vec<List> = Vec::new();
    assert_eq!(next_marker(&mut lists), None);

    lists.push(List::Unordered);
    assert_eq!(next_marker(&mut lists), Some(ListMarker::Bullet));
    assert_eq!(next_marker(&mut lists), Some(ListMarker::Bullet));

    lists.push(List::Ordered(3));
    assert_eq!(next_marker(&mut lists), Some(ListMarker::Number(3)));
    assert_eq!(next_marker(&mut lists), Some(ListMarker::Number(4)));

    lists.pop();
    assert_eq!(next_marker(&mut lists), Some(ListMarker::Bullet));
}

fn next_marker(lists: &mut Vec<List>) -> Option<ListMarker> {
    pilcrow::markdown::next_list_marker(lists)
}

#[test]
fn selectors_address_dense_slots() {
    assert_eq!(InlineSelector::Body.index(), 0);
    assert_eq!(InlineSelector::Code.index(), 1);
    assert_eq!(InlineSelector::Heading1.index(), 2);
    assert_eq!(InlineSelector::Heading2.index(), 3);
    assert_eq!(BlockSelector::Body.index(), 0);
    assert_eq!(BlockSelector::Code.index(), 1);
    assert_eq!(BlockSelector::Heading1.index(), 2);
    assert_eq!(BlockSelector::Heading2.index(), 3);
    assert_eq!(BlockSelector::Rule.index(), 4);
}

#[test]
fn block_kinds_pick_their_selectors() {
    assert_eq!(BlockKind::Heading(1).block_selector(), BlockSelector::Heading1);
    assert_eq!(BlockKind::Heading(2).block_selector(), BlockSelector::Heading2);
    assert_eq!(BlockKind::Heading(6).inline_selector(), InlineSelector::Heading2);
    assert_eq!(BlockKind::Heading(1).inline_selector(), InlineSelector::Heading1);
    assert_eq!(BlockKind::CodeBlock.block_selector(), BlockSelector::Code);
    assert_eq!(BlockKind::CodeBlock.inline_selector(), InlineSelector::Code);
    assert_eq!(BlockKind::Paragraph.block_selector(), BlockSelector::Body);
    assert_eq!(BlockKind::Item.inline_selector(), InlineSelector::Body);
    assert_eq!(BlockKind::BlockQuote.block_selector(), BlockSelector::Body);
}

#[test]
fn block_builder_encodes_events_as_styled_text() {
    let initial = InitialStyle::from_font_family(FontFamilyId(0));
    let code = FontFamilyId(1);
    let mut builder = BlockBuilder::new(initial, code);
    assert!(builder.apply(InlineEvent::Text("a".to_owned())));
    assert!(builder.apply(InlineEvent::EmphasisStart));
    assert!(builder.apply(InlineEvent::Text("b".to_owned())));
    assert!(builder.apply(InlineEvent::EmphasisEnd));
    assert!(builder.apply(InlineEvent::StrongStart));
    assert!(builder.apply(InlineEvent::StrongEnd));
    assert!(builder.apply(InlineEvent::SoftBreak));
    assert!(builder.apply(InlineEvent::Code("c".to_owned())));
    let text = builder.finish();
    assert!(is_balanced(&text));
    let nodes = text.nodes();
    assert_eq!(nodes.len(), 11);
    // the builder's empty seed span, then one encoding per event
    assert!(matches!(&nodes[0], StyledTextNodeBuf::Text(s) if s.is_empty()));
    assert!(matches!(&nodes[1], StyledTextNodeBuf::Text(s) if s == "a"));
    assert!(matches!(nodes[2], StyledTextNodeBuf::Start(Style::FontItalic(true))));
    assert!(matches!(&nodes[3], StyledTextNodeBuf::Text(s) if s == "b"));
    assert!(matches!(nodes[4], StyledTextNodeBuf::End));
    assert!(matches!(
        nodes[5],
        StyledTextNodeBuf::Start(Style::FontWeight(w)) if w == STRONG_FONT_WEIGHT,
    ));
    assert!(matches!(nodes[6], StyledTextNodeBuf::End));
    assert!(matches!(&nodes[7], StyledTextNodeBuf::Text(s) if s == " "));
    assert!(matches!(
        nodes[8],
        StyledTextNodeBuf::Start(Style::FontFamily(f)) if f == FontFamilyId(1),
    ));
    assert!(matches!(&nodes[9], StyledTextNodeBuf::Text(s) if s == "c"));
    assert!(matches!(nodes[10], StyledTextNodeBuf::End));
}

#[test]
fn image_alt_text_is_dropped_and_placeholder_kept() {
    let initial = InitialStyle::from_font_family(FontFamilyId(0));
    let metrics = ReplacedContentMetrics {
        width: 120.0f32.to_bits(),
        ascent: 90.0f32.to_bits(),
        descent: 0.0f32.to_bits(),
    };
    let mut builder = BlockBuilder::new(initial, FontFamilyId(1));
    assert!(builder.apply(InlineEvent::ImageStart(metrics)));
    assert!(builder.apply(InlineEvent::Text("a glyph chart".to_owned())));
    assert!(builder.apply(InlineEvent::ImageEnd));
    assert!(builder.apply(InlineEvent::LinkStart));
    assert!(builder.apply(InlineEvent::Text("x".to_owned())));
    assert!(builder.apply(InlineEvent::LinkEnd));
    let text = builder.finish();
    assert!(is_balanced(&text));
    let nodes = text.nodes();
    assert_eq!(nodes.len(), 5);
    assert!(matches!(&nodes[0], StyledTextNodeBuf::Text(s) if s.is_empty()));
    assert!(matches!(
        nodes[1],
        StyledTextNodeBuf::Start(Style::ReplacedContent(m)) if m == metrics,
    ));
    assert!(matches!(&nodes[2], StyledTextNodeBuf::Text(s) if s == "\u{fffc}"));
    assert!(matches!(nodes[3], StyledTextNodeBuf::End));
    assert!(matches!(&nodes[4], StyledTextNodeBuf::Text(s) if s == "x"));
}

#[test]
fn color_holds_its_channels() {
    let c = Color::new(1, 2, 3, 255);
    assert_eq!(c.r, 1);
    assert_eq!(c.g, 2);
    assert_eq!(c.b, 3);
    assert_eq!(c.a, 255);
    assert_eq!(c, Color { r: 1, g: 2, b: 3, a: 255 });
}

#[test]
fn format_accessors_expose_exactly_their_variant() {
    let font = Format::from_font(FontId(11));
    assert_eq!(font.font(), Some(FontId(11)));
    assert_eq!(font.color(), None);
    assert_eq!(font.link(), None);
    assert_eq!(font.image(), None);

    let color = Format::from_color(Color::new(9, 9, 9, 9));
    assert_eq!(color.color(), Some(Color::new(9, 9, 9, 9)));
    assert_eq!(color.font(), None);

    let link = Format::from_link(5, "https://example.test/page".to_owned());
    let payload = link.link().unwrap();
    assert_eq!(payload.0, 5);
    assert_eq!(payload.1.as_str(), "https://example.test/page");
    assert_eq!(link.image(), None);

    let image = Format::from_image(8);
    assert_eq!(image.image(), Some(8));
    assert_eq!(image.font(), None);
}

#[test]
fn identities_compare_by_value() {
    assert_eq!(FontId(4), FontId(4));
    assert_ne!(FontId(4), FontId(5));
    assert_eq!(FontFaceId(9), FontFaceId(9));
    assert_ne!(FontFaceId(9), FontFaceId(8));
    let image = Image { id: 2, alt_text: "a glyph chart".to_owned() };
    assert_eq!(image, image.clone());
}
