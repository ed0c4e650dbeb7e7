//! Tests of shaping-request serialization.

use pilcrow::shaping::StyleRun;
use pilcrow::simple_styled_text::SimpleStyledTextBuf;
use pilcrow::style::EffectiveStyle;
use pilcrow::styled_text::{
    FontFamilyId, InitialStyle, ReplacedContentMetrics, Style, StyledTextNodeBuf,
};
use pilcrow::typesetter::Typesetter;

fn init_style() -> InitialStyle {
    InitialStyle::from_font_family(FontFamilyId(3))
}

#[test]
fn buffer_is_the_utf16_encoding() {
    let text = SimpleStyledTextBuf::new("a\u{e9}\u{1d11e}".to_owned(), init_style());
    let typesetter = Typesetter::new(text, f32::INFINITY.to_bits());
    let req = typesetter.shaping_request();
    assert_eq!(req.buffer, vec![0x0061u16, 0x00E9, 0xD834, 0xDD1E]);
    assert_eq!(req.wrap_width, f32::INFINITY.to_bits());
}

#[test]
fn single_span_makes_one_exhaustive_run() {
    let text = SimpleStyledTextBuf::new("Hello world!".to_owned(), init_style());
    let typesetter = Typesetter::new(text, f32::INFINITY.to_bits());
    let req = typesetter.shaping_request();
    assert_eq!(req.runs.len(), 1);
    let run = &req.runs[0];
    assert_eq!(run.start, 0);
    assert_eq!(run.end, 12);
    assert!(!run.is_rtl);
    match run.style {
        EffectiveStyle::Inline { font_family, font_size, .. } => {
            assert_eq!(font_family, FontFamilyId(3));
            assert_eq!(font_size, 16.0f32.to_bits());
        }
        EffectiveStyle::Replaced { .. } => panic!("expected an inline style"),
    }
}

fn gap_free(runs: &[StyleRun], total: usize) {
    assert!(!runs.is_empty());
    assert_eq!(runs[0].start, 0);
    for pair in runs.windows(2) {
        assert_eq!(pair[0].end, pair[1].start);
    }
    for run in runs {
        assert!(run.start < run.end);
    }
    assert_eq!(runs[runs.len() - 1].end, total);
}

#[test]
fn style_scopes_split_runs_exhaustively() {
    // "ab" [italic "cd"] "ef"
    let mut text = SimpleStyledTextBuf::new("ab".to_owned(), init_style());
    assert!(text.push_node(StyledTextNodeBuf::Start(Style::FontItalic(true))));
    assert!(text.push_node(StyledTextNodeBuf::Text("cd".to_owned())));
    assert!(text.push_node(StyledTextNodeBuf::End));
    assert!(text.push_node(StyledTextNodeBuf::Text("ef".to_owned())));
    let typesetter = Typesetter::new(text, 100.0f32.to_bits());
    let req = typesetter.shaping_request();

    gap_free(&req.runs, 6);
    assert_eq!(req.runs.len(), 3);
    assert_eq!((req.runs[0].start, req.runs[0].end), (0, 2));
    assert_eq!((req.runs[1].start, req.runs[1].end), (2, 4));
    assert_eq!((req.runs[2].start, req.runs[2].end), (4, 6));
    let italic = |s: &EffectiveStyle| match s {
        EffectiveStyle::Inline { font_italic, .. } => *font_italic,
        EffectiveStyle::Replaced { .. } => panic!("expected an inline style"),
    };
    assert!(!italic(&req.runs[0].style));
    assert!(italic(&req.runs[1].style));
    assert!(!italic(&req.runs[2].style));
}

#[test]
fn empty_intervals_produce_no_runs() {
    // style events with no text between them emit nothing
    let mut text = SimpleStyledTextBuf::new("".to_owned(), init_style());
    assert!(text.push_node(StyledTextNodeBuf::Start(Style::FontItalic(true))));
    assert!(text.push_node(StyledTextNodeBuf::Text("xy".to_owned())));
    assert!(text.push_node(StyledTextNodeBuf::End));
    let typesetter = Typesetter::new(text, f32::INFINITY.to_bits());
    let req = typesetter.shaping_request();
    assert_eq!(req.runs.len(), 1);
    assert_eq!((req.runs[0].start, req.runs[0].end), (0, 2));
}

#[test]
fn replaced_scopes_are_submitted_as_replaced_runs() {
    let metrics = ReplacedContentMetrics { width: 50.0f32.to_bits(), ascent: 0, descent: 0 };
    let mut text = SimpleStyledTextBuf::new("a".to_owned(), init_style());
    assert!(text.push_node(StyledTextNodeBuf::Start(Style::ReplacedContent(metrics))));
    assert!(text.push_node(StyledTextNodeBuf::Text("\u{fffc}".to_owned())));
    assert!(text.push_node(StyledTextNodeBuf::End));
    let typesetter = Typesetter::new(text, f32::INFINITY.to_bits());
    let req = typesetter.shaping_request();
    gap_free(&req.runs, 2);
    assert_eq!(req.runs.len(), 2);
    assert!(matches!(req.runs[0].style, EffectiveStyle::Inline { .. }));
    assert_eq!(
        req.runs[1].style,
        EffectiveStyle::Replaced { width: 50.0f32.to_bits(), ascent: 0, descent: 0 },
    );
}

#[test]
fn empty_documents_request_nothing() {
    let text = SimpleStyledTextBuf::new("".to_owned(), init_style());
    let typesetter = Typesetter::new(text, f32::INFINITY.to_bits());
    let req = typesetter.shaping_request();
    assert!(req.buffer.is_empty());
    assert!(req.runs.is_empty());
}
