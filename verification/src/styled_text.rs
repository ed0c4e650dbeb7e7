//! The styled-text document model.
//!
//! A document is an ordered sequence of nodes: text spans, style-scope
//! openers and style-scope closers. The sequence must be balanced — every
//! opener has a matching later closer at the same nesting depth, and the
//! depth never goes negative — which encodes a well-formed tree of style
//! scopes as a flat, forward-streamable token list.
//!
//! Sizes and spacings in styles are [`Scalar`] values: 32-bit quantities
//! that this crate stores, compares and passes through, but never does
//! arithmetic on. Callers that measure in floating-point points keep the
//! bit pattern of an IEEE single here.

use vstd::prelude::*;
use vstd::string::StrSliceExecFns;

use crate::offsets::byte_len;

verus! {

/// A 32-bit quantity that is opaque to this crate: stored and compared,
/// never computed with. Callers typically keep the bit pattern of an IEEE
/// single-precision value here.
pub type Scalar = u32;

/// The bit pattern of a sixteen-point size, the default font size.
pub const DEFAULT_FONT_SIZE: Scalar = 0x4180_0000;

/// The default font weight (regular).
pub const DEFAULT_FONT_WEIGHT: i32 = 400;

/// Handle to a font family (a fallback chain of faces), resolved by the
/// caller's font system.
#[derive(Clone, Copy, Debug, PartialEq, Eq, Structural, Hash)]
pub struct FontFamilyId(pub u32);

/// Size of one piece of replaced content (an inline non-text object such
/// as an image): it occupies a fixed box instead of shaped glyphs.
#[derive(Clone, Copy, Debug, PartialEq, Eq, Structural)]
pub struct ReplacedContentMetrics {
    pub width: Scalar,
    pub ascent: Scalar,
    pub descent: Scalar,
}

/// One style property, pushed by a style-scope opener. Each property
/// overrides exactly one field of the effective style; `ReplacedContent`
/// replaces the whole effective style for its scope.
#[derive(Clone, Copy, Debug, PartialEq, Eq, Structural)]
pub enum Style {
    FontFamily(FontFamilyId),
    FontSize(Scalar),
    FontWeight(i32),
    FontItalic(bool),
    LetterSpacing(Scalar),
    WordSpacing(Scalar),
    ReplacedContent(ReplacedContentMetrics),
}

/// The style in effect at nesting depth zero.
#[derive(Clone, Copy, Debug, PartialEq, Eq, Structural)]
pub struct InitialStyle {
    pub font_family: FontFamilyId,
    pub font_size: Scalar,
    pub font_weight: i32,
    pub font_italic: bool,
    pub letter_spacing: Scalar,
    pub word_spacing: Scalar,
}

impl InitialStyle {
    /// An initial style with the given family and the default values for
    /// every other property.
    pub fn from_font_family(font_family: FontFamilyId) -> (s: InitialStyle)
        ensures
            s == (InitialStyle {
                font_family,
                font_size: DEFAULT_FONT_SIZE,
                font_weight: DEFAULT_FONT_WEIGHT,
                font_italic: false,
                letter_spacing: 0,
                word_spacing: 0,
            }),
    {
        InitialStyle {
            font_family,
            font_size: DEFAULT_FONT_SIZE,
            font_weight: DEFAULT_FONT_WEIGHT,
            font_italic: false,
            letter_spacing: 0,
            word_spacing: 0,
        }
    }
}

/// One owned document node.
#[derive(Clone, Debug)]
pub enum StyledTextNodeBuf {
    Text(String),
    Start(Style),
    End,
}

/// One document node viewed by reference, borrowing its text from an
/// owning node.
#[derive(Clone, Debug)]
pub enum StyledTextNode<'a> {
    Text(&'a str),
    Start(Style),
    End,
}

/// The mathematical value of one node: text spans are their character
/// sequences.
pub enum NodeView {
    Text(Seq<char>),
    Start(Style),
    End,
}

impl View for StyledTextNodeBuf {
    type V = NodeView;

    open spec fn view(&self) -> NodeView {
        match self {
            StyledTextNodeBuf::Text(s) => NodeView::Text(s@),
            StyledTextNodeBuf::Start(style) => NodeView::Start(*style),
            StyledTextNodeBuf::End => NodeView::End,
        }
    }
}

impl<'a> View for StyledTextNode<'a> {
    type V = NodeView;

    open spec fn view(&self) -> NodeView {
        match self {
            StyledTextNode::Text(s) => NodeView::Text(s@),
            StyledTextNode::Start(style) => NodeView::Start(*style),
            StyledTextNode::End => NodeView::End,
        }
    }
}

impl StyledTextNodeBuf {
    /// This node, viewed by reference.
    pub fn borrow(&self) -> (n: StyledTextNode)
        ensures
            n@ == self@,
    {
        match self {
            StyledTextNodeBuf::Text(s) => StyledTextNode::Text(s.as_str()),
            StyledTextNodeBuf::Start(style) => StyledTextNode::Start(*style),
            StyledTextNodeBuf::End => StyledTextNode::End,
        }
    }
}

/// The characters a node contributes to the document's text: its content
/// for a text span, nothing for the style markers.
pub open spec fn node_chars(n: NodeView) -> Seq<char> {
    match n {
        NodeView::Text(s) => s,
        NodeView::Start(_) => Seq::empty(),
        NodeView::End => Seq::empty(),
    }
}

/// How a node changes the nesting depth.
pub open spec fn node_delta(n: NodeView) -> int {
    match n {
        NodeView::Text(_) => 0,
        NodeView::Start(_) => 1,
        NodeView::End => -1,
    }
}

/// The nesting depth after all the given nodes have been consumed.
pub open spec fn depth_after(nodes: Seq<NodeView>) -> int
    decreases nodes.len(),
{
    if nodes.len() == 0 {
        0
    } else {
        depth_after(nodes.drop_last()) + node_delta(nodes.last())
    }
}

/// The nesting depth never goes negative anywhere in the sequence.
pub open spec fn well_nested(nodes: Seq<NodeView>) -> bool {
    forall|i: int| 0 <= i <= nodes.len() ==> #[trigger] depth_after(nodes.take(i)) >= 0
}

/// The sequence is balanced: depth stays non-negative throughout and
/// returns to zero at the end.
pub open spec fn balanced(nodes: Seq<NodeView>) -> bool {
    well_nested(nodes) && depth_after(nodes) == 0
}

/// The document's whole text: the concatenation of all text-span contents
/// in node order.
pub open spec fn all_chars(nodes: Seq<NodeView>) -> Seq<char>
    decreases nodes.len(),
{
    if nodes.len() == 0 {
        Seq::empty()
    } else {
        all_chars(nodes.drop_last()) + node_chars(nodes.last())
    }
}

/// Consuming one more node extends the text by that node's contribution.
pub proof fn lemma_all_chars_step(nodes: Seq<NodeView>, i: int)
    requires
        0 <= i < nodes.len(),
    ensures
        all_chars(nodes.take(i + 1)) == all_chars(nodes.take(i)) + node_chars(nodes[i]),
{
    assert(nodes.take(i + 1).drop_last() =~= nodes.take(i));
    assert(nodes.take(i + 1).last() == nodes[i]);
}

/// The depth counterpart of `lemma_all_chars_step`.
pub proof fn lemma_depth_step(nodes: Seq<NodeView>, i: int)
    requires
        0 <= i < nodes.len(),
    ensures
        depth_after(nodes.take(i + 1)) == depth_after(nodes.take(i)) + node_delta(nodes[i]),
{
    assert(nodes.take(i + 1).drop_last() =~= nodes.take(i));
    assert(nodes.take(i + 1).last() == nodes[i]);
}

/// A source of styled text: anything that can hand out its nodes in order
/// and report the style in effect at depth zero. A document model, an
/// editor buffer or a test fixture can all stand behind this interface.
pub trait StyledText: Sized {
    /// The node sequence this source denotes.
    spec fn node_seq(&self) -> Seq<NodeView>;

    /// The initial style this source denotes.
    spec fn initial(&self) -> InitialStyle;

    /// Well-formedness of the source's bookkeeping; every constructor of
    /// an implementing type establishes it and every method keeps it.
    spec fn wf(&self) -> bool;

    /// How many nodes the source holds.
    fn node_count(&self) -> (n: usize)
        ensures
            n == self.node_seq().len(),
    ;

    /// The node at `index`.
    fn get(&self, index: usize) -> (node: &StyledTextNodeBuf)
        requires
            index < self.node_seq().len(),
        ensures
            node@ == self.node_seq()[index as int],
    ;

    /// The style in effect at nesting depth zero.
    fn initial_style(&self) -> (s: InitialStyle)
        ensures
            s == self.initial(),
    ;

    /// The byte length of the document's whole text.
    fn byte_length(&self) -> (n: usize)
        requires
            self.wf(),
        ensures
            n == byte_len(all_chars(self.node_seq())),
    ;
}

/// Whether the source's node sequence is balanced — the shape every
/// typesetting entry point demands. A caller holding nodes of unknown
/// provenance checks them here and treats an unbalanced sequence as its
/// own contract violation.
pub fn is_balanced<T: StyledText>(text: &T) -> (r: bool)
    ensures
        r == balanced(text.node_seq()),
{
    let ghost nodes = text.node_seq();
    let mut depth: usize = 0;
    let n = text.node_count();
    let mut i: usize = 0;
    proof {
        assert(nodes.take(0) =~= Seq::<NodeView>::empty());
    }
    while i < n
        invariant
            0 <= i <= n,
            n == nodes.len(),
            nodes == text.node_seq(),
            depth <= i,
            depth == depth_after(nodes.take(i as int)),
            forall|j: int| 0 <= j <= i ==> #[trigger] depth_after(nodes.take(j)) >= 0,
        decreases n - i,
    {
        proof {
            lemma_depth_step(nodes, i as int);
        }
        let node = text.get(i);
        match node {
            StyledTextNodeBuf::Start(_) => {
                depth = depth + 1;
            }
            StyledTextNodeBuf::End => {
                if depth == 0 {
                    proof {
                        assert(depth_after(nodes.take(i as int + 1)) < 0);
                        assert(!well_nested(nodes));
                    }
                    return false;
                }
                depth = depth - 1;
            }
            StyledTextNodeBuf::Text(_) => {}
        }
        i = i + 1;
    }
    proof {
        assert(nodes.take(n as int) =~= nodes);
    }
    depth == 0
}

/// The document's characters, collected into one vector.
pub fn collect_chars<T: StyledText>(text: &T) -> (v: Vec<char>)
    ensures
        v@ == all_chars(text.node_seq()),
{
    let ghost nodes = text.node_seq();
    let mut v: Vec<char> = Vec::new();
    let n = text.node_count();
    let mut i: usize = 0;
    while i < n
        invariant
            0 <= i <= n,
            n == nodes.len(),
            nodes == text.node_seq(),
            v@ == all_chars(nodes.take(i as int)),
        decreases n - i,
    {
        let node = text.get(i);
        match node {
            StyledTextNodeBuf::Text(s) => {
                let ghost content = s@;
                let m = s.as_str().unicode_len();
                let mut j: usize = 0;
                while j < m
                    invariant
                        0 <= j <= m,
                        m == content.len(),
                        content == s@,
                        v@ == all_chars(nodes.take(i as int)) + content.take(j as int),
                    decreases m - j,
                {
                    let c = s.as_str().get_char(j);
                    v.push(c);
                    proof {
                        assert(content.take(j + 1) =~= content.take(j as int).push(content[j as int]));
                    }
                    j = j + 1;
                }
                proof {
                    assert(content.take(m as int) =~= content);
                    lemma_all_chars_step(nodes, i as int);
                }
            }
            StyledTextNodeBuf::Start(_) => {
                proof {
                    lemma_all_chars_step(nodes, i as int);
                    assert(all_chars(nodes.take(i as int)) + node_chars(nodes[i as int]) =~= all_chars(
                        nodes.take(i as int)));
                }
            }
            StyledTextNodeBuf::End => {
                proof {
                    lemma_all_chars_step(nodes, i as int);
                    assert(all_chars(nodes.take(i as int)) + node_chars(nodes[i as int]) =~= all_chars(
                        nodes.take(i as int)));
                }
            }
        }
        i = i + 1;
    }
    proof {
        assert(nodes.take(n as int) =~= nodes);
    }
    v
}

} // verus!
