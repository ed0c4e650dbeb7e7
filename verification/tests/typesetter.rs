//! Tests of the typesetter pipeline: committing a shaping answer and
//! assembling lines from it.

use pilcrow::shaping::ShapeResult;
use pilcrow::simple_styled_text::SimpleStyledTextBuf;
use pilcrow::styled_text::{
    FontFamilyId, InitialStyle, ReplacedContentMetrics, Style, StyledText, StyledTextNodeBuf,
};
use pilcrow::typesetter::Typesetter;

fn multiline_text() -> String {
    "Lorem ipsum dolor sit amet, consectetur adipiscing elit. Mauris convallis vel lorem eu dictum. Vestibulum id odio sit amet tellus efficitur tincidunt in vitae urna. Phasellus elit neque, molestie non venenatis non, consectetur nec elit.".to_owned()
}

fn single_glyphs() -> Vec<u32> {
    vec![
    43, 72, 79, 79, 82, 3, 90, 82, 85, 79, 71, 4,
    ]
}

fn single_advances() -> Vec<f32> {
    vec![
    13.0, 6.0, 4.0, 4.0, 8.0, 3.0, 11.0, 8.0, 5.0, 4.0, 8.0, 5.0,
    ]
}

fn line1_glyphs() -> Vec<u32> {
    vec![
    47, 82, 85, 72, 80, 3, 76, 83, 86, 88, 80, 3, 71, 82, 79, 82,
    85, 3, 86, 76, 87, 3, 68, 80, 72, 87, 15, 3, 70, 82, 81, 86,
    72, 70, 87, 72, 87, 88, 85, 3, 68, 71, 76, 83, 76, 86, 70, 76,
    81, 74, 3, 72, 79, 76, 87, 17, 3, 48, 68, 88, 85, 76, 86, 3,
    70, 82, 81, 89, 68, 79, 79, 76, 86, 3, 89, 72, 79, 3, 79, 82,
    85, 72, 80, 3, 72, 88, 3, 71, 76, 70, 87, 88, 80, 17, 3, 57,
    72, 86, 87, 76, 69, 88, 79, 88, 80, 3,
    ]
}

fn line1_advances() -> Vec<f32> {
    vec![
    9.0, 8.0, 5.0, 6.0, 12.0, 3.0, 4.0, 8.0, 5.0, 8.0, 12.0, 3.0, 8.0, 8.0, 4.0, 8.0,
    5.0, 3.0, 5.0, 4.0, 5.0, 3.0, 6.0, 12.0, 6.0, 5.0, 4.0, 3.0, 6.0, 8.0, 8.0, 5.0,
    6.0, 6.0, 5.0, 6.0, 5.0, 8.0, 5.0, 3.0, 6.0, 8.0, 4.0, 8.0, 4.0, 5.0, 6.0, 4.0,
    8.0, 7.0, 3.0, 6.0, 4.0, 4.0, 5.0, 4.0, 3.0, 14.0, 6.0, 8.0, 5.0, 4.0, 5.0, 3.0,
    6.0, 8.0, 8.0, 7.0, 6.0, 4.0, 4.0, 4.0, 5.0, 3.0, 7.0, 6.0, 4.0, 3.0, 4.0, 8.0,
    5.0, 6.0, 12.0, 3.0, 6.0, 8.0, 3.0, 8.0, 4.0, 6.0, 5.0, 8.0, 12.0, 4.0, 3.0, 11.0,
    6.0, 5.0, 5.0, 4.0, 8.0, 8.0, 4.0, 8.0, 12.0, 3.0,
    ]
}

fn line2_glyphs() -> Vec<u32> {
    vec![
    76, 71, 3, 82, 71, 76, 82, 3, 86, 76, 87, 3, 68, 80, 72, 87,
    3, 87, 72, 79, 79, 88, 86, 3, 72, 3000, 3001, 2989, 70, 76, 87, 88,
    85, 3, 87, 76, 81, 70, 76, 71, 88, 81, 87, 3, 76, 81, 3, 89,
    76, 87, 68, 72, 3, 88, 85, 81, 68, 17, 3, 51, 75, 68, 86, 72,
    79, 79, 88, 86, 3, 72, 79, 76, 87, 3, 81, 72, 84, 88, 72, 15,
    3, 80, 82, 79, 72, 86, 87, 76, 72, 3, 81, 82, 81, 3, 89, 72,
    81, 72, 81, 68, 87, 76, 86, 3, 81, 82, 81, 15, 3,
    ]
}

fn line2_advances() -> Vec<f32> {
    vec![
    4.0, 8.0, 3.0, 8.0, 8.0, 4.0, 8.0, 3.0, 5.0, 4.0, 5.0, 3.0, 6.0, 12.0, 6.0, 5.0,
    3.0, 5.0, 6.0, 4.0, 4.0, 8.0, 5.0, 3.0, 6.0, 4.0, 4.0, 4.0, 6.0, 4.0, 5.0, 8.0,
    5.0, 3.0, 5.0, 4.0, 8.0, 6.0, 4.0, 8.0, 8.0, 8.0, 5.0, 3.0, 4.0, 8.0, 3.0, 7.0,
    4.0, 5.0, 6.0, 6.0, 3.0, 8.0, 5.0, 8.0, 6.0, 4.0, 3.0, 9.0, 8.0, 6.0, 5.0, 6.0,
    4.0, 4.0, 8.0, 5.0, 3.0, 6.0, 4.0, 4.0, 5.0, 3.0, 8.0, 6.0, 8.0, 8.0, 6.0, 4.0,
    3.0, 12.0, 8.0, 4.0, 6.0, 5.0, 5.0, 4.0, 6.0, 3.0, 8.0, 8.0, 8.0, 3.0, 7.0, 6.0,
    8.0, 6.0, 8.0, 6.0, 5.0, 4.0, 5.0, 3.0, 8.0, 8.0, 8.0, 4.0, 3.0,
    ]
}

fn line3_glyphs() -> Vec<u32> {
    vec![
    70, 82, 81, 86, 72, 70, 87, 72, 87, 88, 85, 3, 81, 72, 70, 3,
    72, 79, 76, 87, 17,
    ]
}

fn line3_advances() -> Vec<f32> {
    vec![
    6.0, 8.0, 8.0, 5.0, 6.0, 6.0, 5.0, 6.0, 5.0, 8.0, 5.0, 3.0, 8.0, 6.0, 6.0, 3.0,
    6.0, 4.0, 4.0, 5.0, 4.0,
    ]
}

fn init_style() -> InitialStyle {
    InitialStyle::from_font_family(FontFamilyId(1))
}

fn bits(vals: &[f32]) -> Vec<u32> {
    vals.iter().map(|v| v.to_bits()).collect()
}

fn shape_answer(glyphs: &[u32], advances: &[f32], faces: &[i32], breaks: &[i32]) -> ShapeResult {
    ShapeResult {
        glyphs: glyphs.to_vec(),
        advances: bits(advances),
        face_indices: faces.to_vec(),
        breaks: breaks.to_vec(),
    }
}

fn check_run(
    run: &pilcrow::run::Run,
    glyphs: &[u32],
    advances: &[f32],
    size: f32,
) {
    assert_eq!(run.glyphs().as_slice(), glyphs);
    assert_eq!(run.advances().as_slice(), bits(advances).as_slice());
    assert_eq!(run.size(), size.to_bits());
}

#[test]
fn test_single_line() {
    let text = SimpleStyledTextBuf::new("Hello world!".to_owned(), init_style());
    let mut typesetter = Typesetter::new(text, f32::INFINITY.to_bits());
    let faces = vec![0i32; 12];
    assert!(typesetter.commit_shaping(shape_answer(&single_glyphs(), &single_advances(), &faces, &[])));
    let line = typesetter.create_single_line();

    assert_eq!(line.runs().len(), 1);
    check_run(&line.runs()[0], &single_glyphs(), &single_advances(), 16.0);
    assert_eq!(line.string_range(), 0..12);
}

#[test]
fn test_multiline() {
    let text = SimpleStyledTextBuf::new(multiline_text(), init_style());
    let mut typesetter = Typesetter::new(text, 640.0f32.to_bits());

    let mut glyphs: Vec<u32> = Vec::new();
    let mut advances: Vec<f32> = Vec::new();
    for (g, a) in [
        (line1_glyphs(), line1_advances()),
        (line2_glyphs(), line2_advances()),
        (line3_glyphs(), line3_advances()),
    ] {
        glyphs.extend_from_slice(&g);
        advances.extend_from_slice(&a);
    }
    assert_eq!(glyphs.len(), multiline_text().len());
    let faces = vec![0i32; glyphs.len()];
    let breaks = [
        line1_glyphs().len() as i32,
        (line1_glyphs().len() + line2_glyphs().len()) as i32,
        glyphs.len() as i32,
    ];
    assert!(typesetter.commit_shaping(shape_answer(&glyphs, &advances, &faces, &breaks)));

    let line_breaks = typesetter.line_breaks().clone();
    assert_eq!(line_breaks.len(), 3);

    // the text is ASCII, so code-unit offsets equal byte offsets
    let line = typesetter.create_line(0..(line_breaks[0] as usize));
    assert_eq!(line.runs().len(), 1);
    check_run(&line.runs()[0], &line1_glyphs(), &line1_advances(), 16.0);

    let line = typesetter.create_line((line_breaks[0] as usize)..(line_breaks[1] as usize));
    assert_eq!(line.runs().len(), 1);
    check_run(&line.runs()[0], &line2_glyphs(), &line2_advances(), 16.0);

    let line = typesetter.create_line((line_breaks[1] as usize)..(line_breaks[2] as usize));
    assert_eq!(line.runs().len(), 1);
    check_run(&line.runs()[0], &line3_glyphs(), &line3_advances(), 16.0);
}

#[test]
fn wrap_breaks_are_interior_and_lines_cover_their_ranges() {
    let text = SimpleStyledTextBuf::new(multiline_text(), init_style());
    let mut typesetter = Typesetter::new(text, 640.0f32.to_bits());
    let n = multiline_text().len();
    let glyphs: Vec<u32> = (0..n as u32).collect();
    let advances = vec![8.0f32; n];
    let faces = vec![0i32; n];
    let breaks = [106i32, 215, 236];
    assert!(typesetter.commit_shaping(shape_answer(&glyphs, &advances, &faces, &breaks)));

    // at least one interior break, strictly between the ends
    let bs = typesetter.line_breaks().clone();
    assert!(bs.iter().any(|b| *b > 0 && (*b as usize) < n));

    // each sub-range yields a non-empty line with one glyph per code unit
    let mut start = 0usize;
    for b in &bs {
        let end = *b as usize;
        let line = typesetter.create_line(start..end);
        let total: usize = line.runs().iter().map(|r| r.glyphs().len()).sum();
        assert!(!line.runs().is_empty());
        assert_eq!(total, end - start);
        assert_eq!(line.string_range(), start..end);
        start = end;
    }
}

#[test]
fn empty_range_yields_empty_line() {
    let text = SimpleStyledTextBuf::new("Hello world!".to_owned(), init_style());
    let mut typesetter = Typesetter::new(text, f32::INFINITY.to_bits());
    let faces = vec![0i32; 12];
    assert!(typesetter.commit_shaping(shape_answer(&single_glyphs(), &single_advances(), &faces, &[])));
    for b in [0usize, 5, 12] {
        let line = typesetter.create_line(b..b);
        assert_eq!(line.runs().len(), 0);
        assert_eq!(line.string_range(), b..b);
    }
}

#[test]
fn create_line_is_idempotent() {
    let text = SimpleStyledTextBuf::new("Hello world!".to_owned(), init_style());
    let mut typesetter = Typesetter::new(text, f32::INFINITY.to_bits());
    let faces = [0i32, 0, 0, 1, 1, 0, 0, 0, -1, 0, 0, 0];
    assert!(typesetter.commit_shaping(shape_answer(&single_glyphs(), &single_advances(), &faces, &[])));
    let first = typesetter.create_line(2..10);
    let second = typesetter.create_line(2..10);
    assert_eq!(first, second);
}

#[test]
fn face_changes_split_runs_and_keep_them_pure() {
    let text = SimpleStyledTextBuf::new("abcdef".to_owned(), init_style());
    let mut typesetter = Typesetter::new(text, f32::INFINITY.to_bits());
    let glyphs = [10u32, 11, 12, 13, 14, 15];
    let advances = [1.0f32; 6];
    let faces = [0i32, 0, 2, 2, 2, 0];
    assert!(typesetter.commit_shaping(shape_answer(&glyphs, &advances, &faces, &[])));
    let line = typesetter.create_single_line();
    assert_eq!(line.runs().len(), 3);
    assert_eq!(line.runs()[0].glyphs().as_slice(), &[10, 11]);
    assert_eq!(line.runs()[0].face_index(), 0);
    assert_eq!(line.runs()[1].glyphs().as_slice(), &[12, 13, 14]);
    assert_eq!(line.runs()[1].face_index(), 2);
    assert_eq!(line.runs()[2].glyphs().as_slice(), &[15]);
    assert_eq!(line.runs()[2].face_index(), 0);
}

#[test]
fn unassigned_positions_produce_no_glyphs() {
    let text = SimpleStyledTextBuf::new("abcd".to_owned(), init_style());
    let mut typesetter = Typesetter::new(text, f32::INFINITY.to_bits());
    let glyphs = [1u32, 2, 3, 4];
    let advances = [1.0f32; 4];
    let faces = [0i32, -1, -1, 0];
    assert!(typesetter.commit_shaping(shape_answer(&glyphs, &advances, &faces, &[])));
    let line = typesetter.create_single_line();
    assert_eq!(line.runs().len(), 2);
    assert_eq!(line.runs()[0].glyphs().as_slice(), &[1]);
    assert_eq!(line.runs()[1].glyphs().as_slice(), &[4]);
}

#[test]
fn lines_splice_engine_output_in_order() {
    let text = SimpleStyledTextBuf::new("abcdef".to_owned(), init_style());
    let mut typesetter = Typesetter::new(text, f32::INFINITY.to_bits());
    let glyphs = [1u32, 2, 3, 4, 5, 6];
    let advances = [1.0f32, 2.0, 3.0, 4.0, 5.0, 6.0];
    let faces = [0i32, -1, 2, 2, -1, 1];
    assert!(typesetter.commit_shaping(shape_answer(&glyphs, &advances, &faces, &[])));
    let line = typesetter.create_single_line();
    let spliced_glyphs: Vec<u32> =
        line.runs().iter().flat_map(|r| r.glyphs().clone()).collect();
    let spliced_advances: Vec<u32> =
        line.runs().iter().flat_map(|r| r.advances().clone()).collect();
    assert_eq!(spliced_glyphs, vec![1, 3, 4, 6]);
    assert_eq!(spliced_advances, bits(&[1.0, 3.0, 4.0, 6.0]));
}

#[test]
fn replaced_content_spans_produce_no_runs() {
    let mut text = SimpleStyledTextBuf::new("ab".to_owned(), init_style());
    let metrics = ReplacedContentMetrics { width: 40.0f32.to_bits(), ascent: 0, descent: 0 };
    assert!(text.push_node(StyledTextNodeBuf::Start(Style::ReplacedContent(metrics))));
    assert!(text.push_node(StyledTextNodeBuf::Text("\u{fffc}".to_owned())));
    assert!(text.push_node(StyledTextNodeBuf::End));
    assert!(text.push_node(StyledTextNodeBuf::Text("cd".to_owned())));
    let mut typesetter = Typesetter::new(text, f32::INFINITY.to_bits());
    let glyphs = [1u32, 2, 0, 3, 4];
    let advances = [1.0f32, 1.0, 40.0, 1.0, 1.0];
    let faces = [0i32, 0, -1, 0, 0];
    assert!(typesetter.commit_shaping(shape_answer(&glyphs, &advances, &faces, &[])));
    let line = typesetter.create_single_line();
    // the object placeholder contributes no glyph run; text around it does
    assert_eq!(line.runs().len(), 2);
    assert_eq!(line.runs()[0].glyphs().as_slice(), &[1, 2]);
    assert_eq!(line.runs()[1].glyphs().as_slice(), &[3, 4]);
    let total: usize = line.runs().iter().map(|r| r.glyphs().len()).sum();
    assert_eq!(total, 4);
}

#[test]
fn malformed_answers_are_refused() {
    let text = SimpleStyledTextBuf::new("Hello world!".to_owned(), init_style());
    let mut typesetter = Typesetter::new(text, f32::INFINITY.to_bits());
    assert!(!typesetter.typeset_done());
    // eleven entries for a twelve-code-unit document
    let faces = vec![0i32; 11];
    let answer = shape_answer(&single_glyphs()[..11], &single_advances()[..11], &faces, &[]);
    assert!(!typesetter.commit_shaping(answer));
    assert!(!typesetter.typeset_done());
    let faces = vec![0i32; 12];
    assert!(typesetter.commit_shaping(shape_answer(&single_glyphs(), &single_advances(), &faces, &[])));
    assert!(typesetter.typeset_done());
}

#[test]
fn styled_spans_shape_at_their_own_size() {
    let mut text = SimpleStyledTextBuf::new("ab".to_owned(), init_style());
    assert!(text.push_node(StyledTextNodeBuf::Start(Style::FontSize(24.0f32.to_bits()))));
    assert!(text.push_node(StyledTextNodeBuf::Text("cd".to_owned())));
    assert!(text.push_node(StyledTextNodeBuf::End));
    let mut typesetter = Typesetter::new(text, f32::INFINITY.to_bits());
    let glyphs = [1u32, 2, 3, 4];
    let advances = [1.0f32; 4];
    let faces = [0i32; 4];
    assert!(typesetter.commit_shaping(shape_answer(&glyphs, &advances, &faces, &[])));
    let line = typesetter.create_single_line();
    assert_eq!(line.runs().len(), 2);
    assert_eq!(line.runs()[0].size(), 16.0f32.to_bits());
    assert_eq!(line.runs()[1].size(), 24.0f32.to_bits());
}

#[test]
fn text_can_be_edited_until_typeset() {
    let text = SimpleStyledTextBuf::new("ab".to_owned(), init_style());
    let mut typesetter = Typesetter::new(text, f32::INFINITY.to_bits());
    assert!(typesetter.text_mut().push_node(StyledTextNodeBuf::Text("cd".to_owned())));
    assert_eq!(typesetter.text().byte_length(), 4);
    let glyphs = [1u32, 2, 3, 4];
    let advances = [1.0f32; 4];
    let faces = [0i32; 4];
    assert!(typesetter.commit_shaping(shape_answer(&glyphs, &advances, &faces, &[])));
    let line = typesetter.create_single_line();
    assert_eq!(line.string_range(), 0..4);
    // text nodes never share a run
    assert_eq!(line.runs().len(), 2);
    assert_eq!(line.runs()[0].glyphs().as_slice(), &[1, 2]);
    assert_eq!(line.runs()[1].glyphs().as_slice(), &[3, 4]);
}

#[test]
fn boundary_checks_guard_line_requests() {
    let text = SimpleStyledTextBuf::new("a\u{e9}b".to_owned(), init_style());
    let mut typesetter = Typesetter::new(text, f32::INFINITY.to_bits());
    let glyphs = [1u32, 2, 3];
    let advances = [1.0f32; 3];
    let faces = [0i32; 3];
    assert!(typesetter.commit_shaping(shape_answer(&glyphs, &advances, &faces, &[])));
    assert!(typesetter.is_char_boundary(0));
    assert!(typesetter.is_char_boundary(1));
    assert!(!typesetter.is_char_boundary(2)); // inside the two-byte character
    assert!(typesetter.is_char_boundary(3));
    assert!(typesetter.is_char_boundary(4));
    assert!(!typesetter.is_char_boundary(5));
}

#[test]
fn byte_ranges_address_multibyte_documents() {
    // 'a' (1 byte, 1 unit), U+00E9 (2 bytes, 1 unit), U+1D11E (4 bytes, 2 units), 'b'
    let text = SimpleStyledTextBuf::new("a\u{e9}\u{1d11e}b".to_owned(), init_style());
    let mut typesetter = Typesetter::new(text, f32::INFINITY.to_bits());
    let glyphs = [10u32, 20, 30, 31, 40];
    let advances = [1.0f32; 5];
    let faces = [0i32; 5];
    assert!(typesetter.commit_shaping(shape_answer(&glyphs, &advances, &faces, &[])));
    // bytes 1..7 cover the accented letter and the astral character
    let line = typesetter.create_line(1..7);
    assert_eq!(line.string_range(), 1..7);
    let total: usize = line.runs().iter().map(|r| r.glyphs().len()).sum();
    assert_eq!(total, 3);
    assert_eq!(line.runs()[0].glyphs().as_slice(), &[20, 30, 31]);
}
