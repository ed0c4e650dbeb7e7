//! Serializing a styled document into a shaping request, and the shape of
//! a shaping engine's answer.
//!
//! The shaping engine is an external collaborator. It receives a flat
//! UTF-16 code-unit buffer, an ordered gap-free list of style runs over
//! that buffer and a wrap width; it answers with flat per-code-unit output
//! (glyph ids, advances, face assignments) and suggested line-break
//! offsets. This module builds the request — verified to serialize the
//! document exactly — and defines the value type that carries any answer
//! back into the verified world.

use vstd::prelude::*;
use vstd::string::StrSliceExecFns;
use vstd::utf8::char_is_scalar;

use crate::offsets::{unit_len, unit_width};
use crate::style::{current_style, style_stack, EffectiveStyle, StyleResolver};
use crate::styled_text::{
    all_chars, balanced, depth_after, lemma_all_chars_step, lemma_depth_step, node_chars,
    InitialStyle, NodeView, Scalar, StyledText, StyledTextNodeBuf,
};

verus! {

/// The UTF-16 encoding of one character: itself for the basic plane, a
/// surrogate pair above it.
pub open spec fn utf16_units(c: char) -> Seq<u16> {
    let u = c as u32;
    if u < 0x10000 {
        seq![u as u16]
    } else {
        seq![
            ((u - 0x10000) / 0x400 + 0xD800) as u16,
            ((u - 0x10000) % 0x400 + 0xDC00) as u16,
        ]
    }
}

/// The UTF-16 encoding of a character sequence.
pub open spec fn utf16_encode(s: Seq<char>) -> Seq<u16>
    decreases s.len(),
{
    if s.len() == 0 {
        Seq::empty()
    } else {
        utf16_units(s[0]) + utf16_encode(s.drop_first())
    }
}

/// The UTF-16 encoding has exactly `unit_len` code units.
pub proof fn lemma_utf16_len(s: Seq<char>)
    ensures
        utf16_encode(s).len() == unit_len(s),
    decreases s.len(),
{
    if s.len() > 0 {
        lemma_utf16_len(s.drop_first());
    }
}

/// Appending one character appends its code units.
pub proof fn lemma_utf16_push(s: Seq<char>, c: char)
    ensures
        utf16_encode(s.push(c)) == utf16_encode(s) + utf16_units(c),
    decreases s.len(),
{
    if s.len() == 0 {
        assert(s.push(c)[0] == c);
        assert(s.push(c).drop_first() =~= Seq::<char>::empty());
        assert(utf16_encode(s.push(c)) == utf16_units(c) + utf16_encode(Seq::<char>::empty()));
        assert(utf16_units(c) + Seq::<u16>::empty() =~= utf16_units(c));
        assert(utf16_encode(s) + utf16_units(c) =~= utf16_units(c));
    } else {
        assert(s.push(c)[0] == s[0]);
        assert(s.push(c).drop_first() =~= s.drop_first().push(c));
        lemma_utf16_push(s.drop_first(), c);
        assert(utf16_encode(s.push(c)) == utf16_units(s[0]) + (utf16_encode(s.drop_first())
            + utf16_units(c)));
        assert(utf16_units(s[0]) + (utf16_encode(s.drop_first()) + utf16_units(c)) =~= (utf16_units(
            s[0],
        ) + utf16_encode(s.drop_first())) + utf16_units(c));
    }
}

/// Encoding distributes over concatenation.
pub proof fn lemma_utf16_concat(a: Seq<char>, b: Seq<char>)
    ensures
        utf16_encode(a + b) == utf16_encode(a) + utf16_encode(b),
    decreases a.len(),
{
    if a.len() == 0 {
        assert(a + b =~= b);
        assert(utf16_encode(a) + utf16_encode(b) =~= utf16_encode(b));
    } else {
        assert((a + b).drop_first() =~= a.drop_first() + b);
        assert((a + b)[0] == a[0]);
        lemma_utf16_concat(a.drop_first(), b);
        assert(utf16_units(a[0]) + (utf16_encode(a.drop_first()) + utf16_encode(b)) =~= (
        utf16_units(a[0]) + utf16_encode(a.drop_first())) + utf16_encode(b));
    }
}

/// Appends the UTF-16 encoding of `c` to `out`.
pub fn encode_utf16_char(c: char, out: &mut Vec<u16>)
    ensures
        final(out)@ == old(out)@ + utf16_units(c),
{
    proof {
        char_is_scalar(c);
    }
    let u = c as u32;
    if u < 0x10000 {
        out.push(u as u16);
        proof {
            assert(out@ =~= old(out)@ + utf16_units(c));
        }
    } else {
        let v = u - 0x10000;
        out.push((v / 0x400 + 0xD800) as u16);
        out.push((v % 0x400 + 0xDC00) as u16);
        proof {
            assert(out@ =~= old(out)@ + utf16_units(c));
        }
    }
}

/// One run of a shaping request: a contiguous code-unit range sharing one
/// effective style, with the direction flag threaded through.
#[derive(Clone, Copy, Debug, PartialEq, Eq, Structural)]
pub struct StyleRun {
    pub start: usize,
    pub end: usize,
    pub style: EffectiveStyle,
    pub is_rtl: bool,
}

/// The mathematical value of a style run, with unbounded offsets.
pub struct StyleRunView {
    pub start: int,
    pub end: int,
    pub style: EffectiveStyle,
    pub is_rtl: bool,
}

impl View for StyleRun {
    type V = StyleRunView;

    open spec fn view(&self) -> StyleRunView {
        StyleRunView {
            start: self.start as int,
            end: self.end as int,
            style: self.style,
            is_rtl: self.is_rtl,
        }
    }
}

/// The code-unit offset of the most recent style event (scope opener or
/// closer) in `nodes` — the position where the pending style run begins.
pub open spec fn last_mark(nodes: Seq<NodeView>) -> nat
    decreases nodes.len(),
{
    if nodes.len() == 0 {
        0
    } else {
        match nodes.last() {
            NodeView::Text(_) => last_mark(nodes.drop_last()),
            NodeView::Start(_) => unit_len(all_chars(nodes)),
            NodeView::End => unit_len(all_chars(nodes)),
        }
    }
}

/// The style runs already closed by style events in `nodes`: at every
/// opener or closer, the pending range is emitted under the style in
/// effect before the event — unless the range is empty, which emits
/// nothing.
pub open spec fn emitted_runs(init: InitialStyle, nodes: Seq<NodeView>) -> Seq<StyleRunView>
    decreases nodes.len(),
{
    if nodes.len() == 0 {
        Seq::empty()
    } else {
        let prefix = nodes.drop_last();
        let prev = emitted_runs(init, prefix);
        match nodes.last() {
            NodeView::Text(_) => prev,
            _ => {
                let s = last_mark(prefix);
                let e = unit_len(all_chars(prefix));
                if s < e {
                    prev.push(
                        StyleRunView {
                            start: s as int,
                            end: e as int,
                            style: current_style(init, prefix),
                            is_rtl: false,
                        },
                    )
                } else {
                    prev
                }
            }
        }
    }
}

/// All style runs of the document: the closed ones plus the final pending
/// range, if it is not empty.
pub open spec fn style_runs_of(init: InitialStyle, nodes: Seq<NodeView>) -> Seq<StyleRunView> {
    let s = last_mark(nodes);
    let e = unit_len(all_chars(nodes));
    if s < e {
        emitted_runs(init, nodes).push(
            StyleRunView {
                start: s as int,
                end: e as int,
                style: current_style(init, nodes),
                is_rtl: false,
            },
        )
    } else {
        emitted_runs(init, nodes)
    }
}

proof fn lemma_emitted_runs_chain(init: InitialStyle, nodes: Seq<NodeView>)
    ensures
        ({
            let runs = emitted_runs(init, nodes);
            let mark = last_mark(nodes);
            &&& mark <= unit_len(all_chars(nodes))
            &&& forall|k: int|
                0 <= k < runs.len() ==> 0 <= #[trigger] runs[k].start < runs[k].end <= mark
            &&& forall|k: int|
                #![trigger runs[k]]
                0 < k < runs.len() ==> runs[k - 1].end == runs[k].start
            &&& (runs.len() > 0 ==> runs[0].start == 0 && runs.last().end == mark)
            &&& (runs.len() == 0 ==> mark == 0)
        }),
    decreases nodes.len(),
{
    if nodes.len() > 0 {
        let prefix = nodes.drop_last();
        lemma_emitted_runs_chain(init, prefix);
        let runs0 = emitted_runs(init, prefix);
        let mark0 = last_mark(prefix);
        match nodes.last() {
            NodeView::Text(_) => {
                crate::offsets::lemma_unit_len_concat(
                    all_chars(prefix),
                    crate::styled_text::node_chars(nodes.last()),
                );
                assert(all_chars(nodes) == all_chars(prefix) + crate::styled_text::node_chars(
                    nodes.last(),
                ));
            }
            _ => {
                let runs = emitted_runs(init, nodes);
                assert(all_chars(nodes) == all_chars(prefix) + crate::styled_text::node_chars(
                    nodes.last(),
                ));
                assert(all_chars(nodes) =~= all_chars(prefix));
                let e = unit_len(all_chars(prefix));
                if mark0 < e {
                    assert(runs == runs0.push(
                        StyleRunView {
                            start: mark0 as int,
                            end: e as int,
                            style: current_style(init, prefix),
                            is_rtl: false,
                        },
                    ));
                    assert(forall|k: int|
                        0 <= k < runs0.len() ==> runs[k] == #[trigger] runs0[k]);
                }
            }
        }
    }
}

/// The serialized style runs are ordered, non-overlapping and exhaustive:
/// consecutive runs touch, the first starts at the buffer's start, the
/// last ends at its end, and a non-empty buffer is fully covered.
pub proof fn lemma_style_runs_cover(init: InitialStyle, nodes: Seq<NodeView>)
    ensures
        ({
            let runs = style_runs_of(init, nodes);
            let total = unit_len(all_chars(nodes));
            &&& forall|k: int|
                0 <= k < runs.len() ==> 0 <= #[trigger] runs[k].start < runs[k].end <= total
            &&& forall|k: int|
                #![trigger runs[k]]
                0 < k < runs.len() ==> runs[k - 1].end == runs[k].start
            &&& (runs.len() > 0 ==> runs[0].start == 0 && runs.last().end == total)
            &&& (total > 0 ==> runs.len() > 0)
        }),
{
    lemma_emitted_runs_chain(init, nodes);
    let runs0 = emitted_runs(init, nodes);
    let mark = last_mark(nodes);
    let total = unit_len(all_chars(nodes));
    let runs = style_runs_of(init, nodes);
    if mark < total {
        assert(runs == runs0.push(
            StyleRunView {
                start: mark as int,
                end: total as int,
                style: current_style(init, nodes),
                is_rtl: false,
            },
        ));
        assert(forall|k: int| 0 <= k < runs0.len() ==> runs[k] == #[trigger] runs0[k]);
    }
}

/// A complete shaping request: the document's code-unit buffer, its style
/// runs, and the wrap width for line breaking.
pub struct ShapeRequest {
    pub buffer: Vec<u16>,
    pub runs: Vec<StyleRun>,
    pub wrap_width: Scalar,
}

/// The flat answer of the shaping engine: one glyph id, advance and face
/// assignment per code unit of the request's buffer, plus the suggested
/// line-break offsets for the requested wrap width. A negative face index
/// marks a code unit that produced no glyph (replaced content, or a
/// position the engine skipped).
#[derive(Clone, Debug, PartialEq)]
pub struct ShapeResult {
    pub glyphs: Vec<u32>,
    pub advances: Vec<Scalar>,
    pub face_indices: Vec<i32>,
    pub breaks: Vec<i32>,
}

impl ShapeResult {
    /// The answer addresses a buffer of `n` code units: all three
    /// per-code-unit arrays have exactly that length.
    pub open spec fn consistent_with(&self, n: nat) -> bool {
        &&& self.glyphs@.len() == n
        &&& self.advances@.len() == n
        &&& self.face_indices@.len() == n
    }

    /// Checks consistency with a buffer of `n` code units.
    pub fn check_consistent(&self, n: usize) -> (r: bool)
        ensures
            r == self.consistent_with(n as nat),
    {
        self.glyphs.len() == n && self.advances.len() == n && self.face_indices.len() == n
    }
}

/// Serializes the document into a shaping request: the buffer is exactly
/// the document text's UTF-16 encoding, and the runs are exactly the
/// style-resolver walk's emissions.
pub fn build_request<T: StyledText>(text: &T, wrap_width: Scalar) -> (req: ShapeRequest)
    requires
        balanced(text.node_seq()),
    ensures
        req.buffer@ == utf16_encode(all_chars(text.node_seq())),
        req.runs@.map_values(|r: StyleRun| r@) == style_runs_of(text.initial(), text.node_seq()),
        req.wrap_width == wrap_width,
{
    let ghost nodes = text.node_seq();
    let ghost init = text.initial();
    let init_style = text.initial_style();
    let mut resolver = StyleResolver::new(&init_style);
    let mut buffer: Vec<u16> = Vec::new();
    let mut runs: Vec<StyleRun> = Vec::new();
    let mut mark: usize = 0;
    let n = text.node_count();
    let mut i: usize = 0;
    proof {
        assert(nodes.take(0) =~= Seq::<NodeView>::empty());
        assert(all_chars(nodes.take(0)) =~= Seq::<char>::empty());
        assert(runs@.map_values(|r: StyleRun| r@) =~= emitted_runs(init, nodes.take(0)));
    }
    while i < n
        invariant
            0 <= i <= n,
            n == nodes.len(),
            nodes == text.node_seq(),
            init == text.initial(),
            balanced(nodes),
            resolver@ == style_stack(init, nodes.take(i as int)),
            buffer@ == utf16_encode(all_chars(nodes.take(i as int))),
            buffer@.len() == unit_len(all_chars(nodes.take(i as int))),
            mark == last_mark(nodes.take(i as int)),
            runs@.map_values(|r: StyleRun| r@) == emitted_runs(init, nodes.take(i as int)),
        decreases n - i,
    {
        proof {
            crate::style::lemma_well_nested_take(nodes, i as int);
            crate::style::lemma_style_stack_cascade(init, nodes.take(i as int));
            crate::style::lemma_well_nested_take(nodes, i as int + 1);
            crate::style::lemma_style_stack_cascade(init, nodes.take(i as int + 1));
            crate::style::lemma_style_stack_step(init, nodes, i as int);
            lemma_all_chars_step(nodes, i as int);
            if nodes[i as int] is End {
                assert(depth_after(nodes.take(i as int + 1)) >= 0);
                lemma_depth_step(nodes, i as int);
            }
        }
        let ghost prefix = nodes.take(i as int);
        let node = text.get(i);
        match node {
            StyledTextNodeBuf::Text(s) => {
                let ghost content = s@;
                let m = s.as_str().unicode_len();
                let mut j: usize = 0;
                while j < m
                    invariant
                        0 <= j <= m,
                        m == content.len(),
                        content == s@,
                        buffer@ == utf16_encode(all_chars(prefix) + content.take(j as int)),
                    decreases m - j,
                {
                    let c = s.as_str().get_char(j);
                    encode_utf16_char(c, &mut buffer);
                    proof {
                        assert(content.take(j + 1) =~= content.take(j as int).push(
                            content[j as int],
                        ));
                        lemma_utf16_push(all_chars(prefix) + content.take(j as int), c);
                        assert((all_chars(prefix) + content.take(j as int)).push(c) =~= all_chars(
                            prefix,
                        ) + content.take(j + 1));
                    }
                    j = j + 1;
                }
                proof {
                    assert(content.take(m as int) =~= content);
                    assert(all_chars(nodes.take(i as int + 1)) == all_chars(prefix) + content);
                    lemma_utf16_len(all_chars(nodes.take(i as int + 1)));
                    // a text node moves no mark and emits no run
                    assert(last_mark(nodes.take(i as int + 1)) == last_mark(prefix)) by {
                        assert(nodes.take(i as int + 1).drop_last() =~= prefix);
                    }
                    assert(emitted_runs(init, nodes.take(i as int + 1)) == emitted_runs(
                        init,
                        prefix,
                    )) by {
                        assert(nodes.take(i as int + 1).drop_last() =~= prefix);
                    }
                }
            }
            StyledTextNodeBuf::Start(_) | StyledTextNodeBuf::End => {
                let ghost prev_runs = runs@.map_values(|r: StyleRun| r@);
                let here = buffer.len();
                if mark < here {
                    let style = resolver.current();
                    let run = StyleRun { start: mark, end: here, style, is_rtl: false };
                    runs.push(run);
                    proof {
                        assert(runs@.map_values(|r: StyleRun| r@) =~= prev_runs.push(run@));
                    }
                }
                mark = here;
                resolver.advance(node);
                proof {
                    let ext = nodes.take(i as int + 1);
                    assert(ext.drop_last() =~= prefix);
                    assert(ext.last() == nodes[i as int]);
                    assert(all_chars(ext) == all_chars(prefix) + node_chars(nodes[i as int]));
                    assert(all_chars(prefix) + node_chars(nodes[i as int]) =~= all_chars(prefix));
                    assert(unit_len(all_chars(ext)) == buffer@.len()) by {
                        lemma_utf16_len(all_chars(prefix));
                    }
                    assert(last_mark(ext) == unit_len(all_chars(ext)));
                    assert(emitted_runs(init, ext) == ({
                        let s = last_mark(prefix);
                        let e = unit_len(all_chars(prefix));
                        if s < e {
                            emitted_runs(init, prefix).push(
                                StyleRunView {
                                    start: s as int,
                                    end: e as int,
                                    style: current_style(init, prefix),
                                    is_rtl: false,
                                },
                            )
                        } else {
                            emitted_runs(init, prefix)
                        }
                    }));
                }
            }
        }
        i = i + 1;
    }
    proof {
        assert(nodes.take(n as int) =~= nodes);
    }
    let ghost prev_runs = runs@.map_values(|r: StyleRun| r@);
    let here = buffer.len();
    proof {
        lemma_utf16_len(all_chars(nodes));
    }
    if mark < here {
        proof {
            crate::style::lemma_style_stack_cascade(init, nodes);
        }
        let style = resolver.current();
        let run = StyleRun { start: mark, end: here, style, is_rtl: false };
        runs.push(run);
        proof {
            assert(runs@.map_values(|r: StyleRun| r@) =~= prev_runs.push(run@));
        }
    }
    ShapeRequest { buffer, runs, wrap_width }
}

} // verus!
