//! Decisions behind markdown-to-document conversion.
//!
//! The conversion itself is an upstream producer: a caller walks a
//! markdown parser's event stream and assembles paragraphs. The decisions
//! that walk rests on — which slot a selector addresses, what marker the
//! next list item gets, which id an image URL receives — are plain data
//! logic and live here, verified.

use vstd::prelude::*;

use crate::offsets::{byte_len, byte_width, lemma_byte_len_concat, lemma_byte_len_is_utf8_len};
use crate::simple_styled_text::SimpleStyledTextBuf;
use crate::styled_text::{
    all_chars, node_chars, FontFamilyId, InitialStyle, NodeView, ReplacedContentMetrics, Style,
    StyledText, StyledTextNodeBuf,
};

verus! {

/// The font weight strong emphasis is set in.
pub const STRONG_FONT_WEIGHT: i32 = 700;

/// Which font a span of inline content is set in.
#[derive(Clone, Copy, Debug, PartialEq, Eq, Structural)]
pub enum InlineSelector {
    Body,
    Code,
    Heading1,
    Heading2,
}

impl InlineSelector {
    /// The slot this selector addresses in a caller's font table.
    pub open spec fn index_spec(&self) -> int {
        match self {
            InlineSelector::Body => 0,
            InlineSelector::Code => 1,
            InlineSelector::Heading1 => 2,
            InlineSelector::Heading2 => 3,
        }
    }

    /// The slot this selector addresses in a caller's font table.
    pub fn index(&self) -> (i: usize)
        ensures
            i == self.index_spec(),
    {
        match self {
            InlineSelector::Body => 0,
            InlineSelector::Code => 1,
            InlineSelector::Heading1 => 2,
            InlineSelector::Heading2 => 3,
        }
    }
}

/// Which paragraph style a block-level element receives.
#[derive(Clone, Copy, Debug, PartialEq, Eq, Structural)]
pub enum BlockSelector {
    Body,
    Code,
    Heading1,
    Heading2,
    Rule,
}

impl BlockSelector {
    /// The slot this selector addresses in a caller's style table.
    pub open spec fn index_spec(&self) -> int {
        match self {
            BlockSelector::Body => 0,
            BlockSelector::Code => 1,
            BlockSelector::Heading1 => 2,
            BlockSelector::Heading2 => 3,
            BlockSelector::Rule => 4,
        }
    }

    /// The slot this selector addresses in a caller's style table.
    pub fn index(&self) -> (i: usize)
        ensures
            i == self.index_spec(),
    {
        match self {
            BlockSelector::Body => 0,
            BlockSelector::Code => 1,
            BlockSelector::Heading1 => 2,
            BlockSelector::Heading2 => 3,
            BlockSelector::Rule => 4,
        }
    }
}

/// Which block element a markdown block is, as plain values.
#[derive(Clone, Copy, Debug, PartialEq, Eq, Structural)]
pub enum BlockKind {
    Paragraph,
    Heading(u32),
    CodeBlock,
    Item,
    BlockQuote,
}

impl BlockKind {
    /// The paragraph style a block of this kind receives: the top
    /// heading level has a style of its own, every deeper level shares
    /// one, code blocks have theirs, and everything else reads as body
    /// text.
    pub fn block_selector(&self) -> (s: BlockSelector)
        ensures
            s == (match self {
                BlockKind::Heading(level) => if *level == 1 {
                    BlockSelector::Heading1
                } else {
                    BlockSelector::Heading2
                },
                BlockKind::CodeBlock => BlockSelector::Code,
                _ => BlockSelector::Body,
            }),
    {
        match self {
            BlockKind::Heading(level) => {
                if *level == 1 {
                    BlockSelector::Heading1
                } else {
                    BlockSelector::Heading2
                }
            }
            BlockKind::CodeBlock => BlockSelector::Code,
            _ => BlockSelector::Body,
        }
    }

    /// The font a block of this kind sets its running text in.
    pub fn inline_selector(&self) -> (s: InlineSelector)
        ensures
            s == (match self {
                BlockKind::Heading(level) => if *level == 1 {
                    InlineSelector::Heading1
                } else {
                    InlineSelector::Heading2
                },
                BlockKind::CodeBlock => InlineSelector::Code,
                _ => InlineSelector::Body,
            }),
    {
        match self {
            BlockKind::Heading(level) => {
                if *level == 1 {
                    InlineSelector::Heading1
                } else {
                    InlineSelector::Heading2
                }
            }
            BlockKind::CodeBlock => InlineSelector::Code,
            _ => InlineSelector::Body,
        }
    }
}

/// One span-level event inside a markdown block, as plain values. A
/// caller walking a markdown parser's stream converts each event it sees
/// into one of these and hands it to a [`BlockBuilder`].
#[derive(Clone, Debug, PartialEq)]
pub enum InlineEvent {
    /// Running text.
    Text(String),
    EmphasisStart,
    EmphasisEnd,
    StrongStart,
    StrongEnd,
    /// An atomic inline code span.
    Code(String),
    /// An inline image with the box the host measured for it.
    ImageStart(ReplacedContentMetrics),
    ImageEnd,
    LinkStart,
    LinkEnd,
    SoftBreak,
}

/// How one event changes the nesting depth of image scopes.
pub open spec fn next_image_depth(ev: InlineEvent, depth: nat) -> nat {
    match ev {
        InlineEvent::ImageStart(_) => depth + 1,
        InlineEvent::ImageEnd => (depth - 1) as nat,
        _ => depth,
    }
}

/// The styled-text nodes one event appends, at image-scope depth
/// `depth` with inline code set in `code_family`. Text inside an image
/// scope is its alternative text and is dropped; the image itself
/// occupies one object-replacement placeholder. A link keeps its text
/// in the enclosing style.
pub open spec fn event_nodes(ev: InlineEvent, depth: nat, code_family: FontFamilyId) -> Seq<
    NodeView,
> {
    match ev {
        InlineEvent::Text(s) => if depth == 0 {
            seq![NodeView::Text(s@)]
        } else {
            Seq::empty()
        },
        InlineEvent::EmphasisStart => seq![NodeView::Start(Style::FontItalic(true))],
        InlineEvent::StrongStart => seq![NodeView::Start(Style::FontWeight(STRONG_FONT_WEIGHT))],
        InlineEvent::EmphasisEnd => seq![NodeView::End],
        InlineEvent::StrongEnd => seq![NodeView::End],
        InlineEvent::Code(s) => if depth == 0 {
            seq![
                NodeView::Start(Style::FontFamily(code_family)),
                NodeView::Text(s@),
                NodeView::End,
            ]
        } else {
            seq![NodeView::Start(Style::FontFamily(code_family)), NodeView::End]
        },
        InlineEvent::ImageStart(m) => seq![
            NodeView::Start(Style::ReplacedContent(m)),
            NodeView::Text(seq!['\u{fffc}']),
        ],
        InlineEvent::ImageEnd => seq![NodeView::End],
        InlineEvent::LinkStart => Seq::empty(),
        InlineEvent::LinkEnd => Seq::empty(),
        InlineEvent::SoftBreak => seq![NodeView::Text(seq![' '])],
    }
}

/// The characters of a one-node sequence are that node's characters.
proof fn lemma_all_chars_single(nv: NodeView)
    ensures
        all_chars(seq![nv]) == node_chars(nv),
{
    assert(seq![nv].drop_last() =~= Seq::<NodeView>::empty());
    assert(seq![nv].last() == nv);
    assert(all_chars(Seq::<NodeView>::empty()) + node_chars(nv) =~= node_chars(nv));
}

/// The characters of a two-node sequence.
proof fn lemma_all_chars_pair(a: NodeView, b: NodeView)
    ensures
        all_chars(seq![a, b]) == node_chars(a) + node_chars(b),
{
    assert(seq![a, b].drop_last() =~= seq![a]);
    assert(seq![a, b].last() == b);
    lemma_all_chars_single(a);
}

/// The characters of a three-node sequence.
proof fn lemma_all_chars_triple(a: NodeView, b: NodeView, c: NodeView)
    ensures
        all_chars(seq![a, b, c]) == (node_chars(a) + node_chars(b)) + node_chars(c),
{
    assert(seq![a, b, c].drop_last() =~= seq![a, b]);
    assert(seq![a, b, c].last() == c);
    lemma_all_chars_pair(a, b);
}

/// Appending one node appends its characters, and its byte length.
proof fn lemma_nodes_append_one(nodes: Seq<NodeView>, nv: NodeView)
    ensures
        nodes.push(nv) == nodes + seq![nv],
        all_chars(nodes.push(nv)) == all_chars(nodes) + node_chars(nv),
        byte_len(all_chars(nodes.push(nv))) == byte_len(all_chars(nodes)) + byte_len(
            node_chars(nv),
        ),
{
    assert(nodes.push(nv) =~= nodes + seq![nv]);
    assert(nodes.push(nv).drop_last() =~= nodes);
    assert(nodes.push(nv).last() == nv);
    lemma_byte_len_concat(all_chars(nodes), node_chars(nv));
}

/// Builds one block's styled text from span-level events.
pub struct BlockBuilder {
    text: SimpleStyledTextBuf,
    image_depth: usize,
    code_family: FontFamilyId,
}

impl BlockBuilder {
    /// The nodes built so far.
    pub closed spec fn nodes(&self) -> Seq<NodeView> {
        self.text.node_seq()
    }

    /// The current nesting depth of image scopes.
    pub closed spec fn depth(&self) -> nat {
        self.image_depth as nat
    }

    /// The font family inline code is set in.
    pub closed spec fn code_family_spec(&self) -> FontFamilyId {
        self.code_family
    }

    /// The initial style of the block under construction.
    pub closed spec fn initial(&self) -> InitialStyle {
        self.text.initial()
    }

    /// Bookkeeping well-formedness, established by `new` and kept by
    /// every event. Every open image scope accounts for the three bytes
    /// of its placeholder, which bounds the nesting depth.
    pub closed spec fn wf(&self) -> bool {
        &&& self.text.wf()
        &&& 3 * self.depth() <= byte_len(all_chars(self.nodes()))
    }

    /// A builder for one block: a single empty text span under the
    /// block's initial style, waiting for events.
    pub fn new(initial_style: InitialStyle, code_family: FontFamilyId) -> (b: BlockBuilder)
        ensures
            b.nodes() =~= seq![NodeView::Text(Seq::<char>::empty())],
            b.depth() == 0,
            b.code_family_spec() == code_family,
            b.initial() == initial_style,
            b.wf(),
    {
        let text = SimpleStyledTextBuf::new(String::new(), initial_style);
        let b = BlockBuilder { text, image_depth: 0, code_family };
        proof {
            lemma_all_chars_single(NodeView::Text(Seq::<char>::empty()));
            assert(all_chars(b.nodes()) =~= Seq::<char>::empty());
        }
        b
    }

    /// Consumes one event, appending exactly that event's nodes.
    /// Refused — leaving the builder unchanged — exactly when the
    /// block's total byte length would outgrow the machine's address
    /// space.
    pub fn apply(&mut self, ev: InlineEvent) -> (ok: bool)
        requires
            old(self).wf(),
            ev == InlineEvent::ImageEnd ==> old(self).depth() > 0,
        ensures
            final(self).wf(),
            final(self).code_family_spec() == old(self).code_family_spec(),
            final(self).initial() == old(self).initial(),
            ok == (byte_len(all_chars(old(self).nodes())) + byte_len(
                all_chars(event_nodes(ev, old(self).depth(), old(self).code_family_spec())),
            ) <= usize::MAX),
            ok ==> final(self).nodes() == old(self).nodes() + event_nodes(
                ev,
                old(self).depth(),
                old(self).code_family_spec(),
            ) && final(self).depth() == next_image_depth(ev, old(self).depth()),
            !ok ==> final(self).nodes() == old(self).nodes() && final(self).depth() == old(
                self,
            ).depth(),
    {
        let ghost old_nodes = self.nodes();
        let ghost d = self.depth();
        let ghost cf = self.code_family;
        let ghost appended = event_nodes(ev, d, cf);
        match ev {
            InlineEvent::Text(s) => {
                if self.image_depth == 0 {
                    let ghost nv = NodeView::Text(s@);
                    proof {
                        lemma_all_chars_single(nv);
                    }
                    let pushed = self.text.push_node(StyledTextNodeBuf::Text(s));
                    proof {
                        lemma_nodes_append_one(old_nodes, nv);
                        if pushed {
                            self.text.lemma_wf_bound();
                        }
                    }
                    pushed
                } else {
                    proof {
                        assert(old_nodes + appended =~= old_nodes);
                        assert(all_chars(appended) =~= Seq::<char>::empty());
                        self.text.lemma_wf_bound();
                    }
                    true
                }
            }
            InlineEvent::EmphasisStart => self.push_marker(
                StyledTextNodeBuf::Start(Style::FontItalic(true)),
            ),
            InlineEvent::StrongStart => self.push_marker(
                StyledTextNodeBuf::Start(Style::FontWeight(STRONG_FONT_WEIGHT)),
            ),
            InlineEvent::EmphasisEnd => self.push_marker(StyledTextNodeBuf::End),
            InlineEvent::StrongEnd => self.push_marker(StyledTextNodeBuf::End),
            InlineEvent::Code(s) => {
                let ghost nv_start = NodeView::Start(Style::FontFamily(cf));
                let ghost nv_text = NodeView::Text(s@);
                proof {
                    if d == 0 {
                        lemma_all_chars_triple(nv_start, nv_text, NodeView::End);
                        assert((node_chars(nv_start) + node_chars(nv_text)) + node_chars(
                            NodeView::End,
                        ) =~= s@);
                    } else {
                        lemma_all_chars_pair(nv_start, NodeView::End);
                        assert(node_chars(nv_start) + node_chars(NodeView::End)
                            =~= Seq::<char>::empty());
                    }
                    lemma_byte_len_is_utf8_len(s@);
                }
                let content_bytes: usize = if self.image_depth == 0 {
                    s.as_str().as_bytes().len()
                } else {
                    0
                };
                match self.text.byte_length().checked_add(content_bytes) {
                    Some(_) => {
                        let family = self.code_family;
                        let opened = self.text.push_node(
                            StyledTextNodeBuf::Start(Style::FontFamily(family)),
                        );
                        proof {
                            lemma_nodes_append_one(old_nodes, nv_start);
                            assert(opened);
                        }
                        let ghost nodes1 = self.nodes();
                        if self.image_depth == 0 {
                            let pushed = self.text.push_node(StyledTextNodeBuf::Text(s));
                            proof {
                                lemma_nodes_append_one(nodes1, nv_text);
                                assert(pushed);
                            }
                        }
                        let ghost nodes2 = self.nodes();
                        let closed = self.text.push_node(StyledTextNodeBuf::End);
                        proof {
                            lemma_nodes_append_one(nodes2, NodeView::End);
                            assert(closed);
                        }
                        proof {
                            assert(self.nodes() =~= old_nodes + appended);
                        }
                        true
                    }
                    None => false,
                }
            }
            InlineEvent::ImageStart(m) => {
                let ghost nv_start = NodeView::Start(Style::ReplacedContent(m));
                let ghost nv_text = NodeView::Text(seq!['\u{fffc}']);
                proof {
                    lemma_all_chars_pair(nv_start, nv_text);
                    assert(node_chars(nv_start) + node_chars(nv_text) =~= seq!['\u{fffc}']);
                    assert(byte_len(seq!['\u{fffc}']) == 3) by {
                        assert(seq!['\u{fffc}'][0] == '\u{fffc}');
                        assert(seq!['\u{fffc}'].drop_first() =~= Seq::<char>::empty());
                        assert(byte_len(Seq::<char>::empty()) == 0);
                        assert(('\u{fffc}' as u32) == 0xFFFC);
                        assert(byte_width('\u{fffc}') == 3);
                    }
                }
                match self.text.byte_length().checked_add(3) {
                    Some(_) => {
                        let opened = self.text.push_node(
                            StyledTextNodeBuf::Start(Style::ReplacedContent(m)),
                        );
                        proof {
                            lemma_nodes_append_one(old_nodes, nv_start);
                            assert(opened);
                        }
                        let ghost nodes1 = self.nodes();
                        let placeholder: String = "\u{fffc}".to_owned();
                        proof {
                            reveal_strlit("\u{fffc}");
                            assert(placeholder@ =~= seq!['\u{fffc}']);
                        }
                        let pushed = self.text.push_node(StyledTextNodeBuf::Text(placeholder));
                        proof {
                            lemma_nodes_append_one(nodes1, nv_text);
                            assert(pushed);
                        }
                        self.image_depth = self.image_depth + 1;
                        proof {
                            assert(self.nodes() =~= old_nodes + appended);
                        }
                        true
                    }
                    None => false,
                }
            }
            InlineEvent::ImageEnd => {
                let pushed = self.push_marker(StyledTextNodeBuf::End);
                self.image_depth = self.image_depth - 1;
                pushed
            }
            InlineEvent::LinkStart => {
                proof {
                    assert(old_nodes + appended =~= old_nodes);
                    assert(all_chars(appended) =~= Seq::<char>::empty());
                    self.text.lemma_wf_bound();
                }
                true
            }
            InlineEvent::LinkEnd => {
                proof {
                    assert(old_nodes + appended =~= old_nodes);
                    assert(all_chars(appended) =~= Seq::<char>::empty());
                    self.text.lemma_wf_bound();
                }
                true
            }
            InlineEvent::SoftBreak => {
                let space: String = " ".to_owned();
                proof {
                    reveal_strlit(" ");
                    assert(space@ =~= seq![' ']);
                }
                let ghost nv = NodeView::Text(space@);
                proof {
                    lemma_all_chars_single(nv);
                    assert(byte_len(seq![' ']) == 1) by {
                        assert(seq![' '][0] == ' ');
                        assert(seq![' '].drop_first() =~= Seq::<char>::empty());
                        assert(byte_len(Seq::<char>::empty()) == 0);
                        assert((' ' as u32) == 0x20);
                        assert(byte_width(' ') == 1);
                    }
                }
                let pushed = self.text.push_node(StyledTextNodeBuf::Text(space));
                proof {
                    lemma_nodes_append_one(old_nodes, nv);
                    if pushed {
                        self.text.lemma_wf_bound();
                    }
                }
                pushed
            }
        }
    }

    /// Pushes one zero-byte marker node; such an append is never
    /// refused.
    fn push_marker(&mut self, node: StyledTextNodeBuf) -> (ok: bool)
        requires
            old(self).wf(),
            node@ is Start || node@ is End,
        ensures
            final(self).text.wf(),
            ok,
            final(self).nodes() == old(self).nodes() + seq![node@],
            final(self).image_depth == old(self).image_depth,
            final(self).code_family == old(self).code_family,
            final(self).initial() == old(self).initial(),
            all_chars(final(self).nodes()) == all_chars(old(self).nodes()),
            byte_len(all_chars(seq![node@])) == 0,
            byte_len(all_chars(old(self).nodes())) <= usize::MAX,
    {
        let ghost old_nodes = self.nodes();
        let ghost nv = node@;
        proof {
            lemma_all_chars_single(nv);
            self.text.lemma_wf_bound();
        }
        let pushed = self.text.push_node(node);
        proof {
            lemma_nodes_append_one(old_nodes, nv);
            assert(pushed);
        }
        proof {
            assert(all_chars(old_nodes) + node_chars(nv) =~= all_chars(old_nodes));
        }
        true
    }

    /// The finished block's styled text.
    pub fn finish(self) -> (text: SimpleStyledTextBuf)
        requires
            self.wf(),
        ensures
            text.node_seq() == self.nodes(),
            text.initial() == self.initial(),
            text.wf(),
    {
        self.text
    }
}

/// One open list context: ordered, carrying the number the next item
/// gets, or unordered.
#[derive(Clone, Copy, Debug, PartialEq, Eq, Structural)]
pub enum List {
    Ordered(usize),
    Unordered,
}

/// The marker owed to one list item: a bullet, or a number to be
/// rendered in front of the item.
#[derive(Clone, Copy, Debug, PartialEq, Eq, Structural)]
pub enum ListMarker {
    Bullet,
    Number(usize),
}

/// The marker for the next item of the innermost open list, advancing
/// an ordered list's numbering. An item outside any list gets no marker.
/// A numbering that has reached the largest representable number stays
/// there.
pub fn next_list_marker(lists: &mut Vec<List>) -> (m: Option<ListMarker>)
    ensures
        old(lists)@.len() == 0 ==> m is None && final(lists)@ == old(lists)@,
        old(lists)@.len() > 0 ==> match old(lists)@.last() {
            List::Unordered => m == Some(ListMarker::Bullet) && final(lists)@ == old(lists)@,
            List::Ordered(n) => m == Some(ListMarker::Number(n)) && final(lists)@ == old(
                lists,
            )@.update(
                old(lists)@.len() - 1,
                List::Ordered(if n == usize::MAX {
                    n
                } else {
                    (n + 1) as usize
                }),
            ),
        },
{
    let len = lists.len();
    if len == 0 {
        None
    } else {
        let last = lists[len - 1];
        match last {
            List::Unordered => Some(ListMarker::Bullet),
            List::Ordered(n) => {
                let next = if n == usize::MAX {
                    n
                } else {
                    n + 1
                };
                lists.set(len - 1, List::Ordered(next));
                Some(ListMarker::Number(n))
            }
        }
    }
}

/// The by-products of one markdown conversion: the distinct image URLs
/// encountered, in order of first appearance. An image's id is its
/// position in this list.
#[derive(Clone, Debug, PartialEq)]
pub struct ParseResults {
    image_urls: Vec<String>,
}

impl ParseResults {
    /// The registered URLs, in order of first appearance.
    pub closed spec fn urls(&self) -> Seq<Seq<char>> {
        self.image_urls@.map_values(|s: String| s@)
    }

    /// No URL appears twice.
    pub open spec fn wf(&self) -> bool {
        forall|i: int, j: int|
            0 <= i < j < self.urls().len() ==> #[trigger] self.urls()[i] != #[trigger] self.urls()[j]
    }

    /// An empty registry.
    pub fn new() -> (r: ParseResults)
        ensures
            r.urls() =~= Seq::<Seq<char>>::empty(),
            r.wf(),
    {
        ParseResults { image_urls: Vec::new() }
    }

    /// How many distinct image URLs were encountered.
    pub fn image_count(&self) -> (n: usize)
        ensures
            n == self.urls().len(),
    {
        self.image_urls.len()
    }

    /// The URL registered under `image_index`.
    pub fn image_url(&self, image_index: usize) -> (url: &String)
        requires
            image_index < self.urls().len(),
        ensures
            url@ == self.urls()[image_index as int],
    {
        &self.image_urls[image_index]
    }

    /// Registers a URL and hands back its id: the id of the existing
    /// entry if the URL was seen before, else the next free id, under
    /// which the URL is appended. Ids are dense and stable.
    pub fn register_image_url(&mut self, url: String) -> (id: u32)
        requires
            old(self).wf(),
            old(self).urls().len() < u32::MAX as usize,
        ensures
            final(self).wf(),
            (id as int) < final(self).urls().len(),
            final(self).urls()[id as int] == url@,
            (exists|k: int| 0 <= k < old(self).urls().len() && old(self).urls()[k] == url@)
                ==> final(self).urls() == old(self).urls(),
            !(exists|k: int| 0 <= k < old(self).urls().len() && old(self).urls()[k] == url@) ==> (
            id == old(self).urls().len() && final(self).urls() == old(self).urls().push(url@)),
    {
        let ghost prior = self.urls();
        let n = self.image_urls.len();
        let mut j: usize = 0;
        while j < n
            invariant
                0 <= j <= n,
                n == prior.len(),
                prior == self.urls(),
                self.wf(),
                n < u32::MAX as usize,
                forall|k: int| 0 <= k < j ==> #[trigger] prior[k] != url@,
            decreases n - j,
        {
            let existing: &String = &self.image_urls[j];
            if existing.eq(&url) {
                return j as u32;
            }
            j = j + 1;
        }
        self.image_urls.push(url);
        proof {
            assert(self.urls() =~= prior.push(url@));
        }
        n as u32
    }
}

} // verus!
