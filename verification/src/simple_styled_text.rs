//! An in-memory styled-text source: an owned node list plus an initial
//! style.

use vstd::prelude::*;

use crate::offsets::{byte_len, lemma_byte_len_concat, lemma_byte_len_is_utf8_len};
use crate::styled_text::{
    all_chars, node_chars, InitialStyle, NodeView, StyledText, StyledTextNodeBuf,
};

verus! {

/// A styled text held directly in memory as a vector of owned nodes.
///
/// The total byte length of the text is kept alongside the nodes, so that
/// reporting it costs nothing; nodes are appended through [`Self::push_node`],
/// which maintains that count and refuses an append whose total would not
/// fit the machine's address space.
#[derive(Clone, Debug)]
pub struct SimpleStyledTextBuf {
    nodes: Vec<StyledTextNodeBuf>,
    initial_style: InitialStyle,
    byte_total: usize,
}

impl SimpleStyledTextBuf {
    /// The node sequence this buffer holds, as mathematical values.
    pub closed spec fn nodes_view(&self) -> Seq<NodeView> {
        self.nodes@.map_values(|n: StyledTextNodeBuf| n@)
    }

    /// A buffer holding the given string as its single text span.
    pub fn new(string: String, initial_style: InitialStyle) -> (t: SimpleStyledTextBuf)
        ensures
            t.node_seq() =~= seq![NodeView::Text(string@)],
            t.initial() == initial_style,
            t.wf(),
    {
        let ghost content = string@;
        let byte_total = string.as_str().as_bytes().len();
        proof {
            lemma_byte_len_is_utf8_len(content);
            assert(byte_total == byte_len(content));
        }
        let mut nodes: Vec<StyledTextNodeBuf> = Vec::new();
        nodes.push(StyledTextNodeBuf::Text(string));
        let t = SimpleStyledTextBuf { nodes, initial_style, byte_total };
        proof {
            let s1 = seq![NodeView::Text(content)];
            assert(t.nodes_view() =~= s1);
            assert(s1.drop_last() =~= Seq::<NodeView>::empty());
            assert(all_chars(s1) == all_chars(s1.drop_last()) + node_chars(s1.last()));
            assert(all_chars(Seq::<NodeView>::empty()) == Seq::<char>::empty());
            assert(s1.last() == NodeView::Text(content));
            assert(all_chars(s1) =~= content);
        }
        t
    }

    /// A well-formed buffer's text always fits the address space.
    pub proof fn lemma_wf_bound(&self)
        requires
            self.wf(),
        ensures
            byte_len(all_chars(self.node_seq())) <= usize::MAX,
    {
    }

    /// The nodes, for read-only traversal.
    pub fn nodes(&self) -> (r: &Vec<StyledTextNodeBuf>)
        ensures
            r@.map_values(|n: StyledTextNodeBuf| n@) == self.node_seq(),
    {
        &self.nodes
    }

    /// Appends one node. Returns `false`, changing nothing, only when the
    /// document's total byte length would exceed the machine's address
    /// space.
    pub fn push_node(&mut self, node: StyledTextNodeBuf) -> (ok: bool)
        requires
            old(self).wf(),
        ensures
            final(self).wf(),
            final(self).initial() == old(self).initial(),
            ok ==> final(self).node_seq() == old(self).node_seq().push(node@),
            !ok ==> final(self).node_seq() == old(self).node_seq() && byte_len(
                all_chars(old(self).node_seq().push(node@)),
            ) > usize::MAX,
    {
        let ghost node_view = node@;
        let ghost old_nodes = self.nodes_view();
        proof {
            assert(old_nodes.push(node_view).drop_last() =~= old_nodes);
            assert(old_nodes.push(node_view).last() == node_view);
            assert(all_chars(old_nodes.push(node_view)) == all_chars(old_nodes) + node_chars(
                node_view,
            ));
            lemma_byte_len_concat(all_chars(old_nodes), node_chars(node_view));
            assert(byte_len(Seq::<char>::empty()) == 0);
        }
        let node_bytes: usize = match &node {
            StyledTextNodeBuf::Text(s) => {
                proof {
                    lemma_byte_len_is_utf8_len(s@);
                }
                s.as_str().as_bytes().len()
            }
            StyledTextNodeBuf::Start(_) => 0,
            StyledTextNodeBuf::End => 0,
        };
        match self.byte_total.checked_add(node_bytes) {
            Some(new_total) => {
                self.nodes.push(node);
                self.byte_total = new_total;
                proof {
                    assert(self.nodes_view() =~= old_nodes.push(node_view));
                }
                true
            }
            None => false,
        }
    }
}

impl StyledText for SimpleStyledTextBuf {
    open spec fn node_seq(&self) -> Seq<NodeView> {
        self.nodes_view()
    }

    closed spec fn initial(&self) -> InitialStyle {
        self.initial_style
    }

    closed spec fn wf(&self) -> bool {
        self.byte_total == byte_len(all_chars(self.nodes_view()))
    }

    fn node_count(&self) -> (n: usize) {
        self.nodes.len()
    }

    fn get(&self, index: usize) -> (node: &StyledTextNodeBuf) {
        &self.nodes[index]
    }

    fn initial_style(&self) -> (s: InitialStyle) {
        self.initial_style
    }

    fn byte_length(&self) -> (n: usize) {
        self.byte_total
    }
}

} // verus!
