//! The document tree that the renderer walks.
//!
//! Each node owns its children; every navigation the renderer needs
//! (parent kind, position among siblings, the next sibling's kind) is
//! derived on the way down the tree, so no back-references are required.

use vstd::prelude::*;

verus! {

#[derive(Clone, Copy, PartialEq, Eq, Structural)]
pub enum ListType {
    Bullet,
    Ordered,
}

#[derive(Clone, Copy, PartialEq, Eq, Structural)]
pub enum ListDelimType {
    Period,
    Paren,
}

/// Payload of a `List` node.
#[derive(Clone, Copy)]
pub struct ListData {
    pub list_type: ListType,
    pub delimiter: ListDelimType,
    pub tight: bool,
    pub start: u64,
}

/// Payload of a `Link` or `Image` node.
pub struct LinkData {
    pub url: Vec<u8>,
    pub title: Vec<u8>,
}

/// Payload of a `Heading` node.
#[derive(Clone, Copy)]
pub struct HeadingData {
    pub level: u8,
}

/// Payload of a `CodeBlock` node.
pub struct CodeBlockData {
    pub info: Vec<u8>,
    pub literal: Vec<u8>,
}

/// The tagged payload of a tree node.
pub enum NodeValue {
    Document,
    BlockQuote,
    List(ListData),
    Item,
    Heading(HeadingData),
    CodeBlock(CodeBlockData),
    HtmlBlock(Vec<u8>),
    ThematicBreak,
    Paragraph,
    Text(Vec<u8>),
    LineBreak,
    SoftBreak,
    Code(Vec<u8>),
    HtmlInline(Vec<u8>),
    Strong,
    Emph,
    Link(LinkData),
    Image(LinkData),
    CustomBlock,
    CustomInline,
}

/// One node of the document tree.
pub struct Node {
    pub value: NodeValue,
    pub children: Vec<Node>,
}

/// Rendering options: `width` is the wrap column (0 disables wrapping) and
/// `hardbreaks` turns every soft break into a hard line break.
pub struct RenderOptions {
    pub width: usize,
    pub hardbreaks: bool,
}

/// Block-level node kinds; all others are inline.
pub open spec fn is_block(v: NodeValue) -> bool {
    match v {
        NodeValue::Document => true,
        NodeValue::BlockQuote => true,
        NodeValue::List(_) => true,
        NodeValue::Item => true,
        NodeValue::Heading(_) => true,
        NodeValue::CodeBlock(_) => true,
        NodeValue::HtmlBlock(_) => true,
        NodeValue::ThematicBreak => true,
        NodeValue::Paragraph => true,
        NodeValue::CustomBlock => true,
        _ => false,
    }
}

/// Constraints on a single payload.
///
/// Custom nodes have no canonical textual form, so a tree holding one is
/// rejected outright rather than rendered wrongly. Heading levels follow the
/// data model. The bound on an ordered list's start keeps every computed
/// item number within `u64`, and the literal bounds keep the fence
/// computations within `usize`.
pub open spec fn wf_value(v: NodeValue, n_children: nat) -> bool {
    match v {
        NodeValue::Heading(h) => 1 <= h.level <= 6,
        NodeValue::List(nl) => nl.start + n_children <= u64::MAX,
        NodeValue::Code(lit) => lit@.len() < usize::MAX,
        NodeValue::CodeBlock(ncb) => ncb.literal@.len() < usize::MAX,
        NodeValue::CustomBlock => false,
        NodeValue::CustomInline => false,
        _ => true,
    }
}

/// Well-formedness of a whole subtree: payloads are in range, `Item` nodes
/// appear exactly as the children of `List` nodes, and the same holds
/// recursively below.
pub open spec fn wf_node(n: Node) -> bool
    decreases n,
{
    &&& wf_value(n.value, n.children.len() as nat)
    &&& (n.value is List ==> forall|i: int|
        0 <= i < n.children.len() ==> (#[trigger] n.children[i]).value is Item)
    &&& (!(n.value is List) ==> forall|i: int|
        0 <= i < n.children.len() ==> !((#[trigger] n.children[i]).value is Item))
    &&& (forall|i: int| 0 <= i < n.children.len() ==> wf_node(#[trigger] n.children[i]))
}

} // verus!
