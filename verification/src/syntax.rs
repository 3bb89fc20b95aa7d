//! The library's model of a concrete syntax tree.
//!
//! The external grammar-driven parser yields nodes with a kind label, a
//! half-open byte span into the original source, and named children that
//! may carry a grammar-assigned field name. This type holds exactly that
//! data as plain values; whoever drives the parser fills it in. Anonymous
//! (punctuation) children are never represented: the semantic value never
//! sees them.

use vstd::prelude::*;

verus! {

/// One node of a concrete syntax tree: a grammar kind label, a half-open
/// byte span `[start, end)` into the original source, and the node's
/// named children in source order.
#[derive(Debug, PartialEq, Eq)]
pub struct SyntaxNode {
    /// The grammar's label for this node, as UTF-8 bytes.
    pub kind: Vec<u8>,
    /// Byte offset of the first byte covered by the node.
    pub start: usize,
    /// Byte offset one past the last byte covered by the node.
    pub end: usize,
    /// The named children, in source order.
    pub slots: Vec<ChildSlot>,
}

/// A named child together with the field name the grammar assigns it,
/// if it assigns one.
#[derive(Debug, PartialEq, Eq)]
pub struct ChildSlot {
    /// The grammar-assigned field name, if any, as UTF-8 bytes.
    pub label: Option<Vec<u8>>,
    /// The child node itself.
    pub child: SyntaxNode,
}

/// Well-formedness of a node against a source of `len` bytes: every span
/// in the tree is a half-open range within the source.
pub open spec fn node_wf(n: SyntaxNode, len: int) -> bool
    decreases n,
{
    &&& 0 <= n.start <= n.end <= len
    &&& slots_wf(n.slots@, len)
}

pub open spec fn slots_wf(s: Seq<ChildSlot>, len: int) -> bool
    decreases s,
{
    s.len() == 0 || (node_wf(s[0].child, len) && slots_wf(s.drop_first(), len))
}

/// Reads `slots_wf` element-wise.
pub proof fn lemma_slots_wf_index(s: Seq<ChildSlot>, len: int)
    requires
        slots_wf(s, len),
    ensures
        forall|i: int| 0 <= i < s.len() ==> node_wf(#[trigger] s[i].child, len),
    decreases s,
{
    if s.len() > 0 {
        lemma_slots_wf_index(s.drop_first(), len);
        assert forall|i: int| 0 <= i < s.len() implies node_wf(#[trigger] s[i].child, len) by {
            if i > 0 {
                assert(s.drop_first()[i - 1] == s[i]);
            }
        }
    }
}

} // verus!
