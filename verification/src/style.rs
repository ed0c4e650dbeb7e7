//! Resolving nested style scopes into effective styles.
//!
//! Walking the document's node sequence, a stack of effective-style
//! snapshots is maintained: a scope opener clones the top, applies its one
//! property and pushes; a scope closer pops. The style in effect at any
//! position is therefore the initial style with every *enclosing* opener's
//! property applied outermost-to-innermost — the cascade law proved here
//! as [`lemma_style_cascade`].

use vstd::prelude::*;

use crate::styled_text::{
    depth_after, well_nested, FontFamilyId, InitialStyle, NodeView, Scalar, Style, StyledText,
    StyledTextNodeBuf,
};

verus! {

/// The fully cascaded style at one document position.
///
/// `Inline` carries every property a text run is shaped with. `Replaced`
/// stands for a replaced-content scope (an inline object such as an
/// image): it supersedes the whole inline style, and further property
/// overrides inside such a scope are ignored.
#[derive(Clone, Copy, Debug, PartialEq, Eq, Structural)]
pub enum EffectiveStyle {
    Inline {
        font_family: FontFamilyId,
        font_size: Scalar,
        font_weight: i32,
        font_italic: bool,
        letter_spacing: Scalar,
        word_spacing: Scalar,
    },
    Replaced { width: Scalar, ascent: Scalar, descent: Scalar },
}

/// The effective style at nesting depth zero: the initial style verbatim.
pub open spec fn initial_effective(init: InitialStyle) -> EffectiveStyle {
    EffectiveStyle::Inline {
        font_family: init.font_family,
        font_size: init.font_size,
        font_weight: init.font_weight,
        font_italic: init.font_italic,
        letter_spacing: init.letter_spacing,
        word_spacing: init.word_spacing,
    }
}

/// The override rule: each property overwrites exactly the one field it
/// names; `ReplacedContent` replaces the whole style; inside a replaced
/// scope every other property is ignored.
pub open spec fn spec_apply(base: EffectiveStyle, style: Style) -> EffectiveStyle {
    match style {
        Style::ReplacedContent(m) => EffectiveStyle::Replaced {
            width: m.width,
            ascent: m.ascent,
            descent: m.descent,
        },
        _ => match base {
            EffectiveStyle::Replaced { .. } => base,
            EffectiveStyle::Inline {
                font_family,
                font_size,
                font_weight,
                font_italic,
                letter_spacing,
                word_spacing,
            } => {
                let e = EffectiveStyle::Inline {
                    font_family,
                    font_size,
                    font_weight,
                    font_italic,
                    letter_spacing,
                    word_spacing,
                };
                match style {
                    Style::FontFamily(f) => EffectiveStyle::Inline {
                        font_family: f,
                        font_size,
                        font_weight,
                        font_italic,
                        letter_spacing,
                        word_spacing,
                    },
                    Style::FontSize(v) => EffectiveStyle::Inline {
                        font_family,
                        font_size: v,
                        font_weight,
                        font_italic,
                        letter_spacing,
                        word_spacing,
                    },
                    Style::FontWeight(v) => EffectiveStyle::Inline {
                        font_family,
                        font_size,
                        font_weight: v,
                        font_italic,
                        letter_spacing,
                        word_spacing,
                    },
                    Style::FontItalic(v) => EffectiveStyle::Inline {
                        font_family,
                        font_size,
                        font_weight,
                        font_italic: v,
                        letter_spacing,
                        word_spacing,
                    },
                    Style::LetterSpacing(v) => EffectiveStyle::Inline {
                        font_family,
                        font_size,
                        font_weight,
                        font_italic,
                        letter_spacing: v,
                        word_spacing,
                    },
                    Style::WordSpacing(v) => EffectiveStyle::Inline {
                        font_family,
                        font_size,
                        font_weight,
                        font_italic,
                        letter_spacing,
                        word_spacing: v,
                    },
                    Style::ReplacedContent(_) => e,
                }
            }
        },
    }
}

impl EffectiveStyle {
    /// Whether this is an inline (glyph-producing) style.
    pub fn is_inline(&self) -> (r: bool)
        ensures
            r == matches!(self, EffectiveStyle::Inline { .. }),
    {
        match self {
            EffectiveStyle::Inline { .. } => true,
            EffectiveStyle::Replaced { .. } => false,
        }
    }

    /// Applies one style property to this style, by the override rule.
    pub fn apply(&self, style: &Style) -> (r: EffectiveStyle)
        ensures
            r == spec_apply(*self, *style),
    {
        match style {
            Style::ReplacedContent(m) => EffectiveStyle::Replaced {
                width: m.width,
                ascent: m.ascent,
                descent: m.descent,
            },
            _ => match *self {
                EffectiveStyle::Replaced { .. } => *self,
                EffectiveStyle::Inline {
                    font_family,
                    font_size,
                    font_weight,
                    font_italic,
                    letter_spacing,
                    word_spacing,
                } => {
                    let mut r = EffectiveStyle::Inline {
                        font_family,
                        font_size,
                        font_weight,
                        font_italic,
                        letter_spacing,
                        word_spacing,
                    };
                    match style {
                        Style::FontFamily(f) => {
                            r = EffectiveStyle::Inline {
                                font_family: *f,
                                font_size,
                                font_weight,
                                font_italic,
                                letter_spacing,
                                word_spacing,
                            };
                        }
                        Style::FontSize(v) => {
                            r = EffectiveStyle::Inline {
                                font_family,
                                font_size: *v,
                                font_weight,
                                font_italic,
                                letter_spacing,
                                word_spacing,
                            };
                        }
                        Style::FontWeight(v) => {
                            r = EffectiveStyle::Inline {
                                font_family,
                                font_size,
                                font_weight: *v,
                                font_italic,
                                letter_spacing,
                                word_spacing,
                            };
                        }
                        Style::FontItalic(v) => {
                            r = EffectiveStyle::Inline {
                                font_family,
                                font_size,
                                font_weight,
                                font_italic: *v,
                                letter_spacing,
                                word_spacing,
                            };
                        }
                        Style::LetterSpacing(v) => {
                            r = EffectiveStyle::Inline {
                                font_family,
                                font_size,
                                font_weight,
                                font_italic,
                                letter_spacing: *v,
                                word_spacing,
                            };
                        }
                        Style::WordSpacing(v) => {
                            r = EffectiveStyle::Inline {
                                font_family,
                                font_size,
                                font_weight,
                                font_italic,
                                letter_spacing,
                                word_spacing: *v,
                            };
                        }
                        Style::ReplacedContent(_) => {}
                    }
                    r
                }
            },
        }
    }
}

/// The style properties of the scopes enclosing the position right after
/// `nodes`, outermost first. A closer with no matching opener leaves the
/// (empty) stack unchanged; under `well_nested` that case never arises.
pub open spec fn open_styles(nodes: Seq<NodeView>) -> Seq<Style>
    decreases nodes.len(),
{
    if nodes.len() == 0 {
        Seq::empty()
    } else {
        let prefix = open_styles(nodes.drop_last());
        match nodes.last() {
            NodeView::Start(s) => prefix.push(s),
            NodeView::End => if prefix.len() > 0 {
                prefix.drop_last()
            } else {
                prefix
            },
            NodeView::Text(_) => prefix,
        }
    }
}

/// The initial style with the given properties applied in order,
/// outermost (first) to innermost (last).
pub open spec fn cascade(init: InitialStyle, styles: Seq<Style>) -> EffectiveStyle
    decreases styles.len(),
{
    if styles.len() == 0 {
        initial_effective(init)
    } else {
        spec_apply(cascade(init, styles.drop_last()), styles.last())
    }
}

/// The resolver's stack after consuming `nodes`: one effective-style
/// snapshot per enclosing scope, plus the initial style at the bottom.
/// A closer on the bottommost entry leaves the stack unchanged; under
/// `well_nested` that case never arises.
pub open spec fn style_stack(init: InitialStyle, nodes: Seq<NodeView>) -> Seq<EffectiveStyle>
    decreases nodes.len(),
{
    if nodes.len() == 0 {
        seq![initial_effective(init)]
    } else {
        let st = style_stack(init, nodes.drop_last());
        match nodes.last() {
            NodeView::Start(s) => st.push(spec_apply(st.last(), s)),
            NodeView::End => if st.len() > 1 {
                st.drop_last()
            } else {
                st
            },
            NodeView::Text(_) => st,
        }
    }
}

/// The style in effect right after `nodes`: the top of the resolver's
/// stack.
pub open spec fn current_style(init: InitialStyle, nodes: Seq<NodeView>) -> EffectiveStyle {
    style_stack(init, nodes).last()
}

/// One step of the stack machine, for walking proofs.
pub proof fn lemma_style_stack_step(init: InitialStyle, nodes: Seq<NodeView>, i: int)
    requires
        0 <= i < nodes.len(),
    ensures
        style_stack(init, nodes.take(i + 1)) == ({
            let st = style_stack(init, nodes.take(i));
            match nodes[i] {
                NodeView::Start(s) => st.push(spec_apply(st.last(), s)),
                NodeView::End => if st.len() > 1 {
                    st.drop_last()
                } else {
                    st
                },
                NodeView::Text(_) => st,
            }
        }),
{
    assert(nodes.take(i + 1).drop_last() =~= nodes.take(i));
    assert(nodes.take(i + 1).last() == nodes[i]);
}

/// A prefix of a well-nested sequence is well-nested.
pub proof fn lemma_well_nested_take(nodes: Seq<NodeView>, i: int)
    requires
        well_nested(nodes),
        0 <= i <= nodes.len(),
    ensures
        well_nested(nodes.take(i)),
{
    assert forall|j: int| 0 <= j <= i implies #[trigger] depth_after(nodes.take(i).take(j))
        >= 0 by {
        assert(nodes.take(i).take(j) =~= nodes.take(j));
    }
}

/// The resolver's stack mirrors the cascade: while the sequence is
/// well-nested, the stack holds exactly one entry per enclosing scope,
/// and the entry at height `j` is the cascade of the outermost `j`
/// enclosing properties. In particular the top of the stack is the
/// cascade of all of them.
pub proof fn lemma_style_stack_cascade(init: InitialStyle, nodes: Seq<NodeView>)
    requires
        well_nested(nodes),
    ensures
        open_styles(nodes).len() == depth_after(nodes),
        style_stack(init, nodes).len() == depth_after(nodes) + 1,
        forall|j: int| 0 <= j <= depth_after(nodes) ==> #[trigger] style_stack(init, nodes)[j]
            == cascade(init, open_styles(nodes).take(j)),
    decreases nodes.len(),
{
    assert(depth_after(nodes.take(nodes.len() as int)) >= 0);
    assert(nodes.take(nodes.len() as int) =~= nodes);
    if nodes.len() == 0 {
        assert(style_stack(init, nodes)[0] == initial_effective(init));
        assert(open_styles(nodes).take(0) =~= Seq::<Style>::empty());
    } else {
        let prefix = nodes.drop_last();
        assert(well_nested(prefix)) by {
            assert(nodes.take(nodes.len() - 1) =~= prefix);
            lemma_well_nested_take(nodes, nodes.len() - 1);
        }
        lemma_style_stack_cascade(init, prefix);
        let d = depth_after(prefix);
        let ops = open_styles(prefix);
        let st = style_stack(init, prefix);
        match nodes.last() {
            NodeView::Start(s) => {
                assert(st.last() == st[d]);
                assert(ops.take(d) =~= ops);
                assert(st.last() == cascade(init, ops));
                let ops2 = ops.push(s);
                assert(ops2.drop_last() =~= ops);
                assert(cascade(init, ops2) == spec_apply(cascade(init, ops), s));
                assert forall|j: int| 0 <= j <= depth_after(nodes) implies #[trigger] style_stack(
                    init,
                    nodes,
                )[j] == cascade(init, open_styles(nodes).take(j)) by {
                    if j <= d {
                        assert(ops2.take(j) =~= ops.take(j));
                        assert(style_stack(init, nodes)[j] == st[j]);
                    } else {
                        assert(j == d + 1);
                        assert(ops2.take(j) =~= ops2);
                        assert(style_stack(init, nodes)[j] == spec_apply(st.last(), s));
                    }
                }
            }
            NodeView::End => {
                assert(depth_after(nodes) == d - 1);
                assert(d >= 1);
                assert(st.len() == d + 1 >= 2);
                assert(ops.len() == d >= 1);
                assert forall|j: int| 0 <= j <= depth_after(nodes) implies #[trigger] style_stack(
                    init,
                    nodes,
                )[j] == cascade(init, open_styles(nodes).take(j)) by {
                    assert(style_stack(init, nodes) == st.drop_last());
                    assert(open_styles(nodes) == ops.drop_last());
                    assert(st.drop_last()[j] == st[j]);
                    assert(ops.drop_last().take(j) =~= ops.take(j));
                }
            }
            NodeView::Text(_) => {
                assert(style_stack(init, nodes) == st);
                assert(open_styles(nodes) == ops);
            }
        }
    }
}

/// Style-cascade correctness: at any position of a well-nested node
/// sequence, the style in effect equals the initial style with each
/// enclosing style property applied in outermost-to-innermost order.
pub proof fn lemma_style_cascade(init: InitialStyle, nodes: Seq<NodeView>, i: int)
    requires
        well_nested(nodes),
        0 <= i <= nodes.len(),
    ensures
        current_style(init, nodes.take(i)) == cascade(init, open_styles(nodes.take(i))),
{
    lemma_well_nested_take(nodes, i);
    lemma_style_stack_cascade(init, nodes.take(i));
    let st = style_stack(init, nodes.take(i));
    let d = depth_after(nodes.take(i));
    assert(st.last() == st[d]);
    assert(open_styles(nodes.take(i)).take(d) =~= open_styles(nodes.take(i)));
}

/// The incremental style resolver: a stack of effective-style snapshots,
/// one per enclosing scope, consumed once per traversal.
pub struct StyleResolver {
    stack: Vec<EffectiveStyle>,
}

impl View for StyleResolver {
    type V = Seq<EffectiveStyle>;

    closed spec fn view(&self) -> Seq<EffectiveStyle> {
        self.stack@
    }
}

impl StyleResolver {
    /// A resolver positioned before the first node.
    pub fn new(init: &InitialStyle) -> (r: StyleResolver)
        ensures
            r@ =~= style_stack(*init, Seq::<NodeView>::empty()),
    {
        let mut stack: Vec<EffectiveStyle> = Vec::new();
        stack.push(EffectiveStyle::Inline {
            font_family: init.font_family,
            font_size: init.font_size,
            font_weight: init.font_weight,
            font_italic: init.font_italic,
            letter_spacing: init.letter_spacing,
            word_spacing: init.word_spacing,
        });
        StyleResolver { stack }
    }

    /// The style currently in effect.
    pub fn current(&self) -> (s: EffectiveStyle)
        requires
            self@.len() >= 1,
        ensures
            s == self@.last(),
    {
        self.stack[self.stack.len() - 1]
    }

    /// Consumes one node, updating the stack as the node dictates.
    pub fn advance(&mut self, node: &StyledTextNodeBuf)
        requires
            old(self)@.len() >= 1,
            node@ is End ==> old(self)@.len() >= 2,
        ensures
            final(self)@ == ({
                let st = old(self)@;
                match node@ {
                    NodeView::Start(s) => st.push(spec_apply(st.last(), s)),
                    NodeView::End => st.drop_last(),
                    NodeView::Text(_) => st,
                }
            }),
    {
        match node {
            StyledTextNodeBuf::Start(style) => {
                let top = self.stack[self.stack.len() - 1];
                self.stack.push(top.apply(style));
            }
            StyledTextNodeBuf::End => {
                self.stack.pop();
                proof {
                    assert(self.stack@ =~= old(self)@.drop_last());
                }
            }
            StyledTextNodeBuf::Text(_) => {}
        }
    }
}

/// The effective style at the position right before the node at
/// `node_index`: the cascade of all scopes still open at that point.
pub fn resolve_at<T: StyledText>(text: &T, node_index: usize) -> (s: EffectiveStyle)
    requires
        well_nested(text.node_seq()),
        node_index <= text.node_seq().len(),
    ensures
        s == current_style(text.initial(), text.node_seq().take(node_index as int)),
        s == cascade(
            text.initial(),
            open_styles(text.node_seq().take(node_index as int)),
        ),
{
    let ghost nodes = text.node_seq();
    let ghost init = text.initial();
    let init_style = text.initial_style();
    let mut resolver = StyleResolver::new(&init_style);
    let mut i: usize = 0;
    proof {
        assert(nodes.take(0) =~= Seq::<NodeView>::empty());
    }
    while i < node_index
        invariant
            0 <= i <= node_index,
            node_index <= nodes.len(),
            nodes == text.node_seq(),
            init == text.initial(),
            well_nested(nodes),
            resolver@ == style_stack(init, nodes.take(i as int)),
        decreases node_index - i,
    {
        proof {
            lemma_well_nested_take(nodes, i as int);
            lemma_style_stack_cascade(init, nodes.take(i as int));
            lemma_well_nested_take(nodes, i as int + 1);
            lemma_style_stack_cascade(init, nodes.take(i as int + 1));
            lemma_style_stack_step(init, nodes, i as int);
            if nodes[i as int] is End {
                assert(depth_after(nodes.take(i as int + 1)) >= 0);
                assert(depth_after(nodes.take(i as int)) >= 1) by {
                    crate::styled_text::lemma_depth_step(nodes, i as int);
                }
            }
        }
        let node = text.get(i);
        resolver.advance(node);
        i = i + 1;
    }
    proof {
        lemma_well_nested_take(nodes, node_index as int);
        lemma_style_stack_cascade(init, nodes.take(node_index as int));
        lemma_style_cascade(init, nodes, node_index as int);
    }
    resolver.current()
}

} // verus!
