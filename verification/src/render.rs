//! The block/inline dispatcher: per-kind entering/exiting behaviour,
//! list-marker construction, tight-list tracking, autolink classification,
//! and the top-level `format_document` entry point.
//!
//! The spec functions in this module extend the state machine of `model`
//! up to whole trees: `format_sp` is the mathematical meaning of rendering
//! one subtree, and `render_sp` of rendering a whole document.

use vstd::prelude::*;
use crate::ast::{
    Node, NodeValue, ListType, ListDelimType, ListData, LinkData, CodeBlockData, RenderOptions,
    is_block, wf_value, wf_node,
};
use crate::model::{
    St, Escaping, output_sp, lit_sp, cr_sp, blankline_sp, out_from, byte_step, flush_cr,
    clamp_tight, lemma_literal_append,
};
use crate::formatter::CommonMarkFormatter;
use crate::fence::{
    longest_run, shortest_unused, run_at, longest_backtick_sequence,
    shortest_unused_backtick_sequence,
};
use crate::scheme::{has_scheme, scheme};
use crate::chars::{is_space_b, is_space};

verus! {

/// Everything the dispatcher needs to know about a node's surroundings,
/// computed on the way down the tree.
#[derive(Clone, Copy)]
pub struct Ctx {
    /// value of the tight-list recomputation for this node.
    pub tight: bool,
    pub parent_is_item: bool,
    pub parent_is_emph: bool,
    /// payload of the parent when the parent is a `List`.
    pub parent_list: Option<ListData>,
    /// position among the siblings.
    pub index: usize,
    pub has_prev: bool,
    pub has_next: bool,
    pub next_is_cb_or_list: bool,
}

/// `n` copies of byte `c`.
pub open spec fn rep(n: nat, c: u8) -> Seq<u8> {
    Seq::new(n, |i: int| c)
}

/// Decimal digits of `n`, most significant first.
pub open spec fn dec_digits(n: nat) -> Seq<u8>
    decreases n,
{
    if n < 10 {
        seq![(48 + n) as u8]
    } else {
        dec_digits(n / 10).push((48 + (n % 10)) as u8)
    }
}

pub open spec fn delim_byte(d: ListDelimType) -> u8 {
    if d is Paren {
        41
    } else {
        46
    }
}

/// The marker written before a list item: bullets use a fixed 4-column
/// marker, ordered items the 1-based number, the delimiter, and padding that
/// keeps single-digit markers 4 columns wide.
pub open spec fn marker_bytes(list: ListData, index: nat) -> Seq<u8> {
    if list.list_type is Bullet {
        seq![32u8, 32u8, 45u8, 32u8]
    } else {
        let num = (list.start + index) as nat;
        dec_digits(num) + seq![delim_byte(list.delimiter)] + (if num < 10 {
            seq![32u8, 32u8]
        } else {
            seq![32u8]
        })
    }
}

/// `"<!-- end list -->"`.
pub open spec fn end_list_bytes() -> Seq<u8> {
    seq![60u8, 33u8, 45u8, 45u8, 32u8, 101u8, 110u8, 100u8, 32u8, 108u8, 105u8, 115u8, 116u8,
        32u8, 45u8, 45u8, 62u8]
}

/// `"mailto:"`.
pub open spec fn mailto_prefix() -> Seq<u8> {
    seq![109u8, 97u8, 105u8, 108u8, 116u8, 111u8, 58u8]
}

pub open spec fn starts_mailto(url: Seq<u8>) -> bool {
    url.len() >= 7 && url.subrange(0, 7) == mailto_prefix()
}

/// The URL with a leading `"mailto:"` stripped.
pub open spec fn stripped_url(url: Seq<u8>) -> Seq<u8> {
    if starts_mailto(url) {
        url.subrange(7, url.len() as int)
    } else {
        url
    }
}

/// A link renders as a bare autolink only when its non-empty URL starts
/// with a recognized scheme, it has no title, and its only child is a
/// single text node whose literal equals the URL (less a `mailto:` prefix).
pub open spec fn is_autolink_sp(node: Node) -> bool {
    match node.value {
        NodeValue::Link(nl) => {
            &&& nl.url@.len() > 0
            &&& has_scheme(nl.url@)
            &&& nl.title@.len() == 0
            &&& node.children.len() == 1
            &&& match node.children[0].value {
                NodeValue::Text(t) => t@ == stripped_url(nl.url@),
                _ => false,
            }
        },
        _ => false,
    }
}

/// Wrapping is available at all only with a positive width and without
/// forced hard breaks.
pub open spec fn allow_wrap(s: St) -> bool {
    s.width > 0 && !s.hardbreaks
}

/// The tight-list flag is recomputed before dispatching every node except
/// a list's first item on entry.
pub open spec fn tight_step(s: St, node: Node, ctx: Ctx, entering: bool) -> St {
    if node.value is Item && !ctx.has_prev && entering {
        s
    } else {
        St { in_tight: ctx.tight, ..s }
    }
}

/// Entering/exiting behaviour of a block quote.
pub open spec fn blockquote_sp(s: St, entering: bool) -> St {
    if entering {
        let s1 = lit_sp(s, seq![62u8, 32u8]);
        let s2 = St { begin_content: true, ..s1 };
        St { prefix: s2.prefix + seq![62u8, 32u8], ..s2 }
    } else {
        let s1 = St { prefix: s.prefix.subrange(0, s.prefix.len() - 2), ..s };
        blankline_sp(s1)
    }
}

/// Entering/exiting behaviour of a list item.
pub open spec fn item_sp(s: St, list: ListData, index: nat, entering: bool) -> St {
    let w = marker_bytes(list, index).len();
    if entering {
        let s1 = lit_sp(s, marker_bytes(list, index));
        let s2 = St { begin_content: true, ..s1 };
        St { prefix: s2.prefix + rep(w, 32), ..s2 }
    } else {
        let s1 = St { prefix: s.prefix.subrange(0, s.prefix.len() - w), ..s };
        cr_sp(s1)
    }
}

/// Entering/exiting behaviour of a heading.
pub open spec fn heading_sp(s: St, level: nat, entering: bool) -> St {
    if entering {
        let s1 = lit_sp(s, rep(level, 35) + seq![32u8]);
        St { begin_content: true, no_linebreaks: true, ..s1 }
    } else {
        blankline_sp(St { no_linebreaks: false, ..s })
    }
}

/// A code block: attached to a list marker it skips the leading blank line;
/// plain content may use the 4-space indented form, everything else the
/// fenced form with `max(3, longest backtick run + 1)` backticks, so that
/// the fence is strictly longer than any run inside the literal and the
/// content cannot close it early.
pub open spec fn code_block_sp(s: St, info: Seq<u8>, lit: Seq<u8>, first_in_item: bool) -> St {
    let sa = if !first_in_item {
        blankline_sp(s)
    } else {
        s
    };
    if info.len() == 0 && lit.len() > 0 && !is_space_b(lit[0]) && !(lit.len() >= 2 && is_space_b(
        lit[lit.len() - 1],
    ) && is_space_b(lit[lit.len() - 2])) && !first_in_item {
        let s1 = lit_sp(sa, rep(4, 32));
        let s2 = St { prefix: s1.prefix + rep(4, 32), ..s1 };
        let s3 = lit_sp(s2, lit);
        let s4 = St { prefix: s3.prefix.subrange(0, s3.prefix.len() - 4), ..s3 };
        blankline_sp(s4)
    } else {
        let ticks = if longest_run(lit) + 1 > 3 {
            longest_run(lit) + 1
        } else {
            3
        };
        let s1 = lit_sp(sa, rep(ticks, 96));
        let s2 = if info.len() > 0 {
            lit_sp(s1, seq![32u8] + info)
        } else {
            s1
        };
        let s3 = cr_sp(s2);
        let s4 = lit_sp(s3, lit);
        let s5 = cr_sp(s4);
        let s6 = lit_sp(s5, rep(ticks, 96));
        blankline_sp(s6)
    }
}

/// An inline code span, delimited by the shortest unused backtick run and
/// padded with a space against an empty literal or boundary backticks.
pub open spec fn code_sp(s: St, lit: Seq<u8>) -> St {
    let n = shortest_unused(lit);
    let s1 = lit_sp(s, rep(n, 96));
    let s2 = if lit.len() == 0 || lit[0] == 96 {
        lit_sp(s1, seq![32u8])
    } else {
        s1
    };
    let s3 = output_sp(s2, lit, allow_wrap(s), Escaping::Literal);
    let s4 = if lit.len() == 0 || lit[lit.len() - 1] == 96 {
        lit_sp(s3, seq![32u8])
    } else {
        s3
    };
    lit_sp(s4, rep(n, 96))
}

/// A link: the bare autolink form on entry (skipping the children), or the
/// bracketed form with the URL and optional title on exit.
pub open spec fn link_sp(s: St, node: Node, entering: bool) -> (St, bool) {
    match node.value {
        NodeValue::Link(nl) => {
            if is_autolink_sp(node) {
                if entering {
                    let s1 = lit_sp(s, seq![60u8]);
                    let s2 = lit_sp(s1, stripped_url(nl.url@));
                    (lit_sp(s2, seq![62u8]), false)
                } else {
                    (s, true)
                }
            } else {
                if entering {
                    (lit_sp(s, seq![91u8]), true)
                } else {
                    let s1 = lit_sp(s, seq![93u8, 40u8]);
                    let s2 = output_sp(s1, nl.url@, false, Escaping::URL);
                    let s3 = if nl.title@.len() > 0 {
                        let sa = lit_sp(s2, seq![32u8, 34u8]);
                        let sb = output_sp(sa, nl.title@, false, Escaping::Title);
                        lit_sp(sb, seq![34u8])
                    } else {
                        s2
                    };
                    (lit_sp(s3, seq![41u8]), true)
                }
            }
        },
        _ => (s, true),
    }
}

/// An image: `![` on entry; URL and optional wrap-eligible title on exit.
pub open spec fn image_sp(s: St, url: Seq<u8>, title: Seq<u8>, entering: bool) -> St {
    if entering {
        lit_sp(s, seq![33u8, 91u8])
    } else {
        let s1 = lit_sp(s, seq![93u8, 40u8]);
        let s2 = output_sp(s1, url, false, Escaping::URL);
        let s3 = if title.len() > 0 {
            let sa = output_sp(s2, seq![32u8, 34u8], allow_wrap(s), Escaping::Literal);
            let sb = output_sp(sa, title, false, Escaping::Title);
            lit_sp(sb, seq![34u8])
        } else {
            s2
        };
        lit_sp(s3, seq![41u8])
    }
}

/// One entering or exiting hook: the state after the hook and whether the
/// children are to be visited.
#[verifier::opaque]
pub open spec fn format_node_sp(s0: St, node: Node, ctx: Ctx, entering: bool) -> (St, bool) {
    let s = tight_step(s0, node, ctx, entering);
    match node.value {
        NodeValue::Document => (s, true),
        NodeValue::BlockQuote => (blockquote_sp(s, entering), true),
        NodeValue::List(_) => {
            if !entering && ctx.next_is_cb_or_list {
                (blankline_sp(lit_sp(cr_sp(s), end_list_bytes())), true)
            } else {
                (s, true)
            }
        },
        NodeValue::Item => {
            match ctx.parent_list {
                Option::Some(list) => (item_sp(s, list, ctx.index as nat, entering), true),
                Option::None => (s, true),
            }
        },
        NodeValue::Heading(h) => (heading_sp(s, h.level as nat, entering), true),
        NodeValue::CodeBlock(ncb) => {
            if entering {
                (code_block_sp(s, ncb.info@, ncb.literal@, !ctx.has_prev && ctx.parent_is_item),
                true)
            } else {
                (s, true)
            }
        },
        NodeValue::HtmlBlock(lit) => {
            if entering {
                (blankline_sp(lit_sp(blankline_sp(s), lit@)), true)
            } else {
                (s, true)
            }
        },
        NodeValue::ThematicBreak => {
            if entering {
                (blankline_sp(lit_sp(blankline_sp(s), rep(5, 45))), true)
            } else {
                (s, true)
            }
        },
        NodeValue::Paragraph => {
            if entering {
                (s, true)
            } else {
                (blankline_sp(s), true)
            }
        },
        NodeValue::Text(t) => {
            if entering {
                (output_sp(s, t@, allow_wrap(s), Escaping::Normal), true)
            } else {
                (s, true)
            }
        },
        NodeValue::LineBreak => {
            if entering {
                let s1 = if !s.hardbreaks {
                    lit_sp(s, seq![32u8, 32u8])
                } else {
                    s
                };
                (cr_sp(s1), true)
            } else {
                (s, true)
            }
        },
        NodeValue::SoftBreak => {
            if entering {
                if !s.no_linebreaks && s.width == 0 && !s.hardbreaks {
                    (cr_sp(s), true)
                } else {
                    (output_sp(s, seq![32u8], allow_wrap(s), Escaping::Literal), true)
                }
            } else {
                (s, true)
            }
        },
        NodeValue::Code(lit) => {
            if entering {
                (code_sp(s, lit@), true)
            } else {
                (s, true)
            }
        },
        NodeValue::HtmlInline(lit) => {
            if entering {
                (lit_sp(s, lit@), true)
            } else {
                (s, true)
            }
        },
        NodeValue::Strong => (lit_sp(s, seq![42u8, 42u8]), true),
        NodeValue::Emph => {
            let d: u8 = if ctx.parent_is_emph && !ctx.has_next && !ctx.has_prev {
                95
            } else {
                42
            };
            (lit_sp(s, seq![d]), true)
        },
        NodeValue::Link(_) => link_sp(s, node, entering),
        NodeValue::Image(nl) => (image_sp(s, nl.url@, nl.title@, entering), true),
        NodeValue::CustomBlock => (s, true),
        NodeValue::CustomInline => (s, true),
    }
}

/// What a node pushes onto the prefix while its children are visited.
pub open spec fn pushed_sp(node: Node, ctx: Ctx) -> Seq<u8> {
    match node.value {
        NodeValue::BlockQuote => seq![62u8, 32u8],
        NodeValue::Item => {
            match ctx.parent_list {
                Option::Some(list) => rep(marker_bytes(list, ctx.index as nat).len(), 32),
                Option::None => Seq::empty(),
            }
        },
        _ => Seq::empty(),
    }
}

/// The context a parent hands to its `i`-th child.
///
/// The tight-list value follows the ancestry rules of
/// `get_in_tight_list_item` expressed top-down: an item takes its list's
/// tightness, a block child of an item inherits the item's, any other block
/// is not tight, and an inline node inherits its parent's value.
pub open spec fn child_tight(parent: Node, pctx: Ctx, child: Node) -> bool {
    if child.value is Item {
        match parent.value {
            NodeValue::List(nl) => nl.tight,
            _ => false,
        }
    } else if is_block(child.value) {
        if parent.value is Item {
            pctx.tight
        } else {
            false
        }
    } else {
        pctx.tight
    }
}

pub open spec fn child_ctx(parent: Node, pctx: Ctx, i: int) -> Ctx {
    Ctx {
        tight: child_tight(parent, pctx, parent.children[i]),
        parent_is_item: parent.value is Item,
        parent_is_emph: parent.value is Emph,
        parent_list: match parent.value {
            NodeValue::List(nl) => Option::Some(nl),
            _ => Option::None,
        },
        index: i as usize,
        has_prev: i > 0,
        has_next: i + 1 < parent.children.len(),
        next_is_cb_or_list: i + 1 < parent.children.len() && (parent.children[i + 1].value
            is CodeBlock || parent.children[i + 1].value is List),
    }
}

/// What the dispatcher needs of a context to run without faulting: an item
/// must come with its list's payload and an in-range number.
pub open spec fn node_ctx_ok(node: Node, ctx: Ctx) -> bool {
    node.value is Item ==> match ctx.parent_list {
        Option::Some(list) => list.start + ctx.index <= u64::MAX,
        Option::None => false,
    }
}

/// Rendering one subtree: the entering hook, the children (unless
/// suppressed), the exiting hook.
pub open spec fn format_sp(s: St, node: Node, ctx: Ctx) -> St
    decreases node, 1int, 0int,
{
    let r = format_node_sp(s, node, ctx, true);
    if r.1 {
        let s2 = children_sp(r.0, node, ctx, 0);
        format_node_sp(s2, node, ctx, false).0
    } else {
        r.0
    }
}

/// Rendering the children from index `i` on.
pub open spec fn children_sp(s: St, parent: Node, pctx: Ctx, i: int) -> St
    decreases parent, 0int, parent.children.len() - i,
{
    if 0 <= i < parent.children.len() {
        let s1 = format_sp(s, parent.children[i], child_ctx(parent, pctx, i));
        children_sp(s1, parent, pctx, i + 1)
    } else {
        s
    }
}

/// The state a fresh renderer starts from.
pub open spec fn init_st(width: nat, hardbreaks: bool) -> St {
    St {
        v: Seq::empty(),
        prefix: Seq::empty(),
        column: 0,
        need_cr: 0,
        last_breakable: 0,
        begin_line: true,
        begin_content: true,
        no_linebreaks: false,
        in_tight: false,
        width: width,
        hardbreaks: hardbreaks,
    }
}

/// The context of the document root.
pub open spec fn root_ctx() -> Ctx {
    Ctx {
        tight: false,
        parent_is_item: false,
        parent_is_emph: false,
        parent_list: Option::None,
        index: 0,
        has_prev: false,
        has_next: false,
        next_is_cb_or_list: false,
    }
}

/// The buffer produced by rendering the whole tree.
pub open spec fn render_sp(root: Node, width: nat, hardbreaks: bool) -> Seq<u8> {
    format_sp(init_st(width, hardbreaks), root, root_ctx()).v
}

/// Guarantees a single trailing newline: one is appended exactly when the
/// buffer does not already end with one.
pub open spec fn terminated(b: Seq<u8>) -> Seq<u8> {
    if b.len() > 0 && b.last() == 10 {
        b
    } else {
        b.push(10)
    }
}

/// Byte output never touches the prefix.
pub proof fn lemma_out_from_prefix(s: St, buf: Seq<u8>, i: int, wrap: bool, esc: Escaping)
    ensures
        out_from(s, buf, i, wrap, esc).prefix == s.prefix,
    decreases buf.len() - i,
{
    if 0 <= i < buf.len() {
        let si = byte_step(s, buf, i, wrap, esc);
        assert(si.0.prefix == s.prefix);
        if i < si.1 <= buf.len() {
            lemma_out_from_prefix(si.0, buf, si.1, wrap, esc);
        }
    }
}

/// An output call never changes the prefix.
pub proof fn lemma_output_sp_prefix(s: St, buf: Seq<u8>, wrap: bool, esc: Escaping)
    ensures
        output_sp(s, buf, wrap, esc).prefix == s.prefix,
{
    lemma_out_from_prefix(
        flush_cr(clamp_tight(s)),
        buf,
        0,
        wrap && !s.no_linebreaks,
        esc,
    );
}

/// A node's entering hook extends the prefix by exactly what it pushes, and
/// its exiting hook removes exactly that much: the stack discipline of the
/// prefix.
#[verifier::rlimit(100)]
#[verifier::spinoff_prover]
pub proof fn lemma_format_node_prefix(s: St, node: Node, ctx: Ctx, entering: bool)
    ensures
        entering ==> format_node_sp(s, node, ctx, entering).0.prefix == s.prefix + pushed_sp(
            node,
            ctx,
        ),
        !entering ==> format_node_sp(s, node, ctx, entering).0.prefix == s.prefix.subrange(
            0,
            s.prefix.len() - pushed_sp(node, ctx).len(),
        ),
{
    reveal(format_node_sp);
    let t = tight_step(s, node, ctx, entering);
    match node.value {
        NodeValue::BlockQuote => {
            if entering {
                lemma_output_sp_prefix(t, seq![62u8, 32u8], false, Escaping::Literal);
            }
        },
        NodeValue::Item => {
            match ctx.parent_list {
                Option::Some(list) => {
                    if entering {
                        lemma_output_sp_prefix(
                            t,
                            marker_bytes(list, ctx.index as nat),
                            false,
                            Escaping::Literal,
                        );
                    }
                },
                Option::None => {
                    assert(t.prefix =~= t.prefix + pushed_sp(node, ctx));
                    assert(t.prefix =~= t.prefix.subrange(
                        0,
                        t.prefix.len() - pushed_sp(node, ctx).len(),
                    ));
                },
            }
        },
        _ => {
            lemma_format_node_prefix_flat(s, node, ctx, entering);
            assert(format_node_sp(s, node, ctx, entering).0.prefix =~= s.prefix + Seq::empty());
            assert(s.prefix =~= s.prefix.subrange(0, s.prefix.len() as int));
        },
    }
}

/// For every kind that pushes nothing onto the prefix, the hook leaves the
/// prefix unchanged.
#[verifier::rlimit(100)]
#[verifier::spinoff_prover]
proof fn lemma_format_node_prefix_flat(s: St, node: Node, ctx: Ctx, entering: bool)
    requires
        !(node.value is BlockQuote),
        !(node.value is Item),
    ensures
        format_node_sp(s, node, ctx, entering).0.prefix == s.prefix,
{
    reveal(format_node_sp);
    let t = tight_step(s, node, ctx, entering);
    match node.value {
        NodeValue::Heading(h) => {
            if entering {
                lemma_output_sp_prefix(t, rep(h.level as nat, 35) + seq![32u8], false,
                    Escaping::Literal);
            }
        },
        NodeValue::CodeBlock(ncb) => {
            if entering {
                lemma_code_block_prefix(t, ncb.info@, ncb.literal@, !ctx.has_prev
                    && ctx.parent_is_item);
            }
        },
        NodeValue::Code(lit) => {
            if entering {
                lemma_code_prefix(t, lit@);
            }
        },
        NodeValue::Link(_) => {
            lemma_link_prefix(t, node, entering);
        },
        NodeValue::Image(nl) => {
            lemma_image_prefix(t, nl.url@, nl.title@, entering);
        },
        _ => {
            lemma_other_prefix(s, node, ctx, entering);
        },
    }
}

#[verifier::rlimit(100)]
#[verifier::spinoff_prover]
proof fn lemma_link_prefix(s: St, node: Node, entering: bool)
    ensures
        link_sp(s, node, entering).0.prefix == s.prefix,
{
    match node.value {
        NodeValue::Link(nl) => {
            if is_autolink_sp(node) && entering {
                lemma_output_sp_prefix(s, seq![60u8], false, Escaping::Literal);
                let s1 = lit_sp(s, seq![60u8]);
                lemma_output_sp_prefix(s1, stripped_url(nl.url@), false, Escaping::Literal);
                let s2 = lit_sp(s1, stripped_url(nl.url@));
                lemma_output_sp_prefix(s2, seq![62u8], false, Escaping::Literal);
            } else if !is_autolink_sp(node) && !entering {
                lemma_output_sp_prefix(s, seq![93u8, 40u8], false, Escaping::Literal);
                let s1 = lit_sp(s, seq![93u8, 40u8]);
                lemma_output_sp_prefix(s1, nl.url@, false, Escaping::URL);
                let s2 = output_sp(s1, nl.url@, false, Escaping::URL);
                lemma_output_sp_prefix(s2, seq![32u8, 34u8], false, Escaping::Literal);
                let sa = lit_sp(s2, seq![32u8, 34u8]);
                lemma_output_sp_prefix(sa, nl.title@, false, Escaping::Title);
                let sb = output_sp(sa, nl.title@, false, Escaping::Title);
                lemma_output_sp_prefix(sb, seq![34u8], false, Escaping::Literal);
                let s3 = if nl.title@.len() > 0 {
                    lit_sp(sb, seq![34u8])
                } else {
                    s2
                };
                lemma_output_sp_prefix(s3, seq![41u8], false, Escaping::Literal);
            } else if !is_autolink_sp(node) && entering {
                lemma_output_sp_prefix(s, seq![91u8], false, Escaping::Literal);
            }
        },
        _ => {},
    }
}

proof fn lemma_code_block_prefix(s: St, info: Seq<u8>, lit: Seq<u8>, first_in_item: bool)
    ensures
        code_block_sp(s, info, lit, first_in_item).prefix == s.prefix,
{
    let sa = if !first_in_item {
        blankline_sp(s)
    } else {
        s
    };
    if info.len() == 0 && lit.len() > 0 && !is_space_b(lit[0]) && !(lit.len() >= 2 && is_space_b(
        lit[lit.len() - 1],
    ) && is_space_b(lit[lit.len() - 2])) && !first_in_item {
        lemma_output_sp_prefix(sa, rep(4, 32), false, Escaping::Literal);
        let s1 = lit_sp(sa, rep(4, 32));
        let s2 = St { prefix: s1.prefix + rep(4, 32), ..s1 };
        lemma_output_sp_prefix(s2, lit, false, Escaping::Literal);
        let s3 = lit_sp(s2, lit);
        assert(s3.prefix.subrange(0, s3.prefix.len() - 4) =~= s.prefix);
    } else {
        let ticks = if longest_run(lit) + 1 > 3 {
            longest_run(lit) + 1
        } else {
            3
        };
        lemma_output_sp_prefix(sa, rep(ticks, 96), false, Escaping::Literal);
        let s1 = lit_sp(sa, rep(ticks, 96));
        lemma_output_sp_prefix(s1, seq![32u8] + info, false, Escaping::Literal);
        let s2 = if info.len() > 0 {
            lit_sp(s1, seq![32u8] + info)
        } else {
            s1
        };
        let s3 = cr_sp(s2);
        lemma_output_sp_prefix(s3, lit, false, Escaping::Literal);
        let s4 = lit_sp(s3, lit);
        let s5 = cr_sp(s4);
        lemma_output_sp_prefix(s5, rep(ticks, 96), false, Escaping::Literal);
    }
}

proof fn lemma_code_prefix(s: St, lit: Seq<u8>)
    ensures
        code_sp(s, lit).prefix == s.prefix,
{
    let n = shortest_unused(lit);
    lemma_output_sp_prefix(s, rep(n, 96), false, Escaping::Literal);
    let s1 = lit_sp(s, rep(n, 96));
    lemma_output_sp_prefix(s1, seq![32u8], false, Escaping::Literal);
    let s2 = if lit.len() == 0 || lit[0] == 96 {
        lit_sp(s1, seq![32u8])
    } else {
        s1
    };
    lemma_output_sp_prefix(s2, lit, allow_wrap(s), Escaping::Literal);
    let s3 = output_sp(s2, lit, allow_wrap(s), Escaping::Literal);
    lemma_output_sp_prefix(s3, seq![32u8], false, Escaping::Literal);
    let s4 = if lit.len() == 0 || lit[lit.len() - 1] == 96 {
        lit_sp(s3, seq![32u8])
    } else {
        s3
    };
    lemma_output_sp_prefix(s4, rep(n, 96), false, Escaping::Literal);
}

proof fn lemma_image_prefix(s: St, url: Seq<u8>, title: Seq<u8>, entering: bool)
    ensures
        image_sp(s, url, title, entering).prefix == s.prefix,
{
    if entering {
        lemma_output_sp_prefix(s, seq![33u8, 91u8], false, Escaping::Literal);
    } else {
        lemma_output_sp_prefix(s, seq![93u8, 40u8], false, Escaping::Literal);
        let s1 = lit_sp(s, seq![93u8, 40u8]);
        lemma_output_sp_prefix(s1, url, false, Escaping::URL);
        let s2 = output_sp(s1, url, false, Escaping::URL);
        lemma_output_sp_prefix(s2, seq![32u8, 34u8], allow_wrap(s), Escaping::Literal);
        let sa = output_sp(s2, seq![32u8, 34u8], allow_wrap(s), Escaping::Literal);
        lemma_output_sp_prefix(sa, title, false, Escaping::Title);
        let sb = output_sp(sa, title, false, Escaping::Title);
        lemma_output_sp_prefix(sb, seq![34u8], false, Escaping::Literal);
        let s3 = if title.len() > 0 {
            lit_sp(sb, seq![34u8])
        } else {
            s2
        };
        lemma_output_sp_prefix(s3, seq![41u8], false, Escaping::Literal);
    }
}

#[verifier::rlimit(100)]
#[verifier::spinoff_prover]
proof fn lemma_other_prefix(s: St, node: Node, ctx: Ctx, entering: bool)
    requires
        !(node.value is BlockQuote),
        !(node.value is Item),
        !(node.value is Heading),
        !(node.value is CodeBlock),
        !(node.value is Code),
        !(node.value is Link),
        !(node.value is Image),
    ensures
        format_node_sp(s, node, ctx, entering).0.prefix == s.prefix,
{
    reveal(format_node_sp);
    let t = tight_step(s, node, ctx, entering);
    match node.value {
        NodeValue::List(_) => {
            lemma_output_sp_prefix(cr_sp(t), end_list_bytes(), false, Escaping::Literal);
        },
        NodeValue::HtmlBlock(lit) => {
            lemma_output_sp_prefix(blankline_sp(t), lit@, false, Escaping::Literal);
        },
        NodeValue::ThematicBreak => {
            lemma_output_sp_prefix(blankline_sp(t), rep(5, 45), false, Escaping::Literal);
        },
        NodeValue::Text(txt) => {
            lemma_output_sp_prefix(t, txt@, allow_wrap(t), Escaping::Normal);
        },
        NodeValue::LineBreak => {
            lemma_output_sp_prefix(t, seq![32u8, 32u8], false, Escaping::Literal);
        },
        NodeValue::SoftBreak => {
            lemma_output_sp_prefix(t, seq![32u8], allow_wrap(t), Escaping::Literal);
        },
        NodeValue::HtmlInline(lit) => {
            lemma_output_sp_prefix(t, lit@, false, Escaping::Literal);
        },
        NodeValue::Strong => {
            lemma_output_sp_prefix(t, seq![42u8, 42u8], false, Escaping::Literal);
        },
        NodeValue::Emph => {
            let d: u8 = if ctx.parent_is_emph && !ctx.has_next && !ctx.has_prev {
                95
            } else {
                42
            };
            lemma_output_sp_prefix(t, seq![d], false, Escaping::Literal);
        },
        _ => {},
    }
}

/// Rendering a whole subtree leaves the prefix as it found it: the net
/// effect of every balanced enter/exit pair on the prefix is zero.
#[verifier::rlimit(100)]
#[verifier::spinoff_prover]
pub proof fn lemma_format_sp_prefix(s: St, node: Node, ctx: Ctx)
    ensures
        format_sp(s, node, ctx).prefix == s.prefix,
    decreases node, 1int, 0int,
{
    reveal(format_node_sp);
    let r = format_node_sp(s, node, ctx, true);
    lemma_format_node_prefix(s, node, ctx, true);
    if r.1 {
        lemma_children_sp_prefix(r.0, node, ctx, 0);
        let s2 = children_sp(r.0, node, ctx, 0);
        lemma_format_node_prefix(s2, node, ctx, false);
        assert((s.prefix + pushed_sp(node, ctx)).subrange(
            0,
            s.prefix.len() + pushed_sp(node, ctx).len() - pushed_sp(node, ctx).len(),
        ) =~= s.prefix);
    }
}

/// Rendering a run of children leaves the prefix as it found it.
#[verifier::rlimit(100)]
#[verifier::spinoff_prover]
pub proof fn lemma_children_sp_prefix(s: St, parent: Node, pctx: Ctx, i: int)
    ensures
        children_sp(s, parent, pctx, i).prefix == s.prefix,
    decreases parent, 0int, parent.children.len() - i,
{
    if 0 <= i < parent.children.len() {
        lemma_format_sp_prefix(s, parent.children[i], child_ctx(parent, pctx, i));
        lemma_children_sp_prefix(
            format_sp(s, parent.children[i], child_ctx(parent, pctx, i)),
            parent,
            pctx,
            i + 1,
        );
    }
}

/// The inline code span law: with wrapping off (zero width), no pending
/// newline and past begin-of-line, rendering a code span over `lit` appends
/// exactly the shortest unused backtick run, one space if and only if the
/// literal is empty or starts with a backtick, the literal itself without
/// substitution, one space if and only if it is empty or ends with a
/// backtick, and the closing run of the same length.
pub proof fn lemma_code_span_bytes(s: St, lit: Seq<u8>)
    requires
        s.need_cr == 0,
        !s.begin_line,
        s.width == 0,
        forall|j: int| 0 <= j < lit.len() ==> lit[j] != 10,
    ensures
        ({
            let n = shortest_unused(lit);
            let pad1: Seq<u8> = if lit.len() == 0 || lit[0] == 96 {
                seq![32u8]
            } else {
                Seq::empty()
            };
            let pad2: Seq<u8> = if lit.len() == 0 || lit[lit.len() - 1] == 96 {
                seq![32u8]
            } else {
                Seq::empty()
            };
            code_sp(s, lit).v == s.v + rep(n, 96) + pad1 + lit + pad2 + rep(n, 96)
        }),
{
    let n = shortest_unused(lit);
    let pad1: Seq<u8> = if lit.len() == 0 || lit[0] == 96 {
        seq![32u8]
    } else {
        Seq::empty()
    };
    let pad2: Seq<u8> = if lit.len() == 0 || lit[lit.len() - 1] == 96 {
        seq![32u8]
    } else {
        Seq::empty()
    };
    assert forall|j: int| 0 <= j < rep(n, 96).len() implies rep(n, 96)[j] != 10 by {
        assert(rep(n, 96)[j] == 96);
    }
    assert forall|j: int| 0 <= j < seq![32u8].len() implies seq![32u8][j] != 10 by {
        assert(seq![32u8][j] == 32);
    }
    lemma_literal_append(s, rep(n, 96));
    let s1 = lit_sp(s, rep(n, 96));
    lemma_literal_append(s1, seq![32u8]);
    let s2 = if lit.len() == 0 || lit[0] == 96 {
        lit_sp(s1, seq![32u8])
    } else {
        s1
    };
    lemma_literal_append(s2, lit);
    let s3 = output_sp(s2, lit, allow_wrap(s), Escaping::Literal);
    lemma_literal_append(s3, seq![32u8]);
    let s4 = if lit.len() == 0 || lit[lit.len() - 1] == 96 {
        lit_sp(s3, seq![32u8])
    } else {
        s3
    };
    lemma_literal_append(s4, rep(n, 96));
    assert(code_sp(s, lit).v =~= s.v + rep(n, 96) + pad1 + lit + pad2 + rep(n, 96));
}

/// Appends `src` to `dst`.
fn extend_bytes(dst: &mut Vec<u8>, src: &Vec<u8>)
    ensures
        final(dst)@ == old(dst)@ + src@,
{
    let mut idx: usize = 0;
    while idx < src.len()
        invariant
            idx <= src@.len(),
            dst@ == old(dst)@ + src@.subrange(0, idx as int),
        decreases src@.len() - idx,
    {
        let c = src[idx];
        dst.push(c);
        idx = idx + 1;
        proof {
            assert(dst@ =~= old(dst)@ + src@.subrange(0, idx as int));
        }
    }
    proof {
        assert(old(dst)@ + src@.subrange(0, src@.len() as int) =~= old(dst)@ + src@);
    }
}

/// A vector of `n` copies of byte `c`.
fn rep_vec(n: usize, c: u8) -> (r: Vec<u8>)
    ensures
        r@ == rep(n as nat, c),
{
    let mut r: Vec<u8> = Vec::new();
    let mut idx: usize = 0;
    while idx < n
        invariant
            idx <= n,
            r@ == rep(idx as nat, c),
        decreases n - idx,
    {
        r.push(c);
        idx = idx + 1;
        proof {
            assert(r@ =~= rep(idx as nat, c));
        }
    }
    r
}

fn bytes1(a: u8) -> (r: Vec<u8>)
    ensures
        r@ == seq![a],
{
    let mut r: Vec<u8> = Vec::new();
    r.push(a);
    proof {
        assert(r@ =~= seq![a]);
    }
    r
}

fn bytes2(a: u8, b: u8) -> (r: Vec<u8>)
    ensures
        r@ == seq![a, b],
{
    let mut r: Vec<u8> = Vec::new();
    r.push(a);
    r.push(b);
    proof {
        assert(r@ =~= seq![a, b]);
    }
    r
}

/// The raw end-of-list marker, `"<!-- end list -->"`.
fn end_list_vec() -> (r: Vec<u8>)
    ensures
        r@ == end_list_bytes(),
{
    let mut r: Vec<u8> = Vec::new();
    r.push(60);
    r.push(33);
    r.push(45);
    r.push(45);
    r.push(32);
    r.push(101);
    r.push(110);
    r.push(100);
    r.push(32);
    r.push(108);
    r.push(105);
    r.push(115);
    r.push(116);
    r.push(32);
    r.push(45);
    r.push(45);
    r.push(62);
    proof {
        assert(r@ =~= end_list_bytes());
    }
    r
}

/// Decimal digits of `n`, most significant first.
fn u64_dec(n: u64) -> (r: Vec<u8>)
    ensures
        r@ == dec_digits(n as nat),
    decreases n,
{
    if n < 10 {
        let mut r: Vec<u8> = Vec::new();
        r.push(48 + n as u8);
        proof {
            assert(r@ =~= dec_digits(n as nat));
        }
        r
    } else {
        let mut r = u64_dec(n / 10);
        r.push(48 + (n % 10) as u8);
        proof {
            assert(r@ =~= dec_digits(n as nat));
        }
        r
    }
}

/// Builds a list item's marker.
fn marker_vec(list: &ListData, index: usize) -> (r: Vec<u8>)
    requires
        list.start + index <= u64::MAX,
    ensures
        r@ == marker_bytes(*list, index as nat),
{
    if matches!(list.list_type, ListType::Bullet) {
        let mut r: Vec<u8> = Vec::new();
        r.push(32);
        r.push(32);
        r.push(45);
        r.push(32);
        proof {
            assert(r@ =~= marker_bytes(*list, index as nat));
        }
        r
    } else {
        let num: u64 = list.start + index as u64;
        let mut r = u64_dec(num);
        if matches!(list.delimiter, ListDelimType::Paren) {
            r.push(41);
        } else {
            r.push(46);
        }
        if num < 10 {
            r.push(32);
            r.push(32);
        } else {
            r.push(32);
        }
        proof {
            assert(r@ =~= marker_bytes(*list, index as nat));
        }
        r
    }
}

/// The suffix of `src` from `off` on.
fn tail_from(src: &Vec<u8>, off: usize) -> (r: Vec<u8>)
    requires
        off <= src@.len(),
    ensures
        r@ == src@.subrange(off as int, src@.len() as int),
{
    let mut r: Vec<u8> = Vec::new();
    proof {
        assert(r@ =~= src@.subrange(off as int, off as int));
    }
    let mut q: usize = off;
    while q < src.len()
        invariant
            off <= q <= src@.len(),
            r@ == src@.subrange(off as int, q as int),
        decreases src@.len() - q,
    {
        let c = src[q];
        r.push(c);
        q = q + 1;
        proof {
            assert(r@ =~= src@.subrange(off as int, q as int));
        }
    }
    r
}

/// Whether the URL starts with `"mailto:"`.
fn starts_mailto_e(url: &Vec<u8>) -> (r: bool)
    ensures
        r == starts_mailto(url@),
{
    if url.len() < 7 {
        return false;
    }
    let r = url[0] == 109 && url[1] == 97 && url[2] == 105 && url[3] == 108 && url[4] == 116
        && url[5] == 111 && url[6] == 58;
    proof {
        if r {
            assert(url@.subrange(0, 7) =~= mailto_prefix());
        } else {
            if url@.subrange(0, 7) == mailto_prefix() {
                assert(url@[0] == mailto_prefix()[0]);
                assert(url@[1] == mailto_prefix()[1]);
                assert(url@[2] == mailto_prefix()[2]);
                assert(url@[3] == mailto_prefix()[3]);
                assert(url@[4] == mailto_prefix()[4]);
                assert(url@[5] == mailto_prefix()[5]);
                assert(url@[6] == mailto_prefix()[6]);
            }
        }
    }
    r
}

/// Executable block/inline classification.
fn is_block_e(v: &NodeValue) -> (r: bool)
    ensures
        r == is_block(*v),
{
    match v {
        NodeValue::Document => true,
        NodeValue::BlockQuote => true,
        NodeValue::List(_) => true,
        NodeValue::Item => true,
        NodeValue::Heading(_) => true,
        NodeValue::CodeBlock(_) => true,
        NodeValue::HtmlBlock(_) => true,
        NodeValue::ThematicBreak => true,
        NodeValue::Paragraph => true,
        NodeValue::CustomBlock => true,
        _ => false,
    }
}

/// Decides whether a link node renders as a bare autolink.
pub fn is_autolink(node: &Node) -> (r: bool)
    ensures
        r == is_autolink_sp(*node),
{
    match &node.value {
        NodeValue::Link(nl) => {
            if nl.url.len() == 0 {
                return false;
            }
            if !scheme(&nl.url) {
                return false;
            }
            if nl.title.len() > 0 {
                return false;
            }
            if node.children.len() != 1 {
                return false;
            }
            match &node.children[0].value {
                NodeValue::Text(t) => {
                    let off: usize = if starts_mailto_e(&nl.url) {
                        7
                    } else {
                        0
                    };
                    proof {
                        assert(off <= nl.url@.len());
                    }
                    if nl.url.len() - off != t.len() {
                        return false;
                    }
                    let url_len: usize = nl.url.len();
                    let mut q: usize = 0;
                    while q < t.len()
                        invariant
                            nl.url@.len() == url_len,
                            node.value matches NodeValue::Link(l) && l == *nl,
                            node.children@.len() == 1,
                            node.children@[0].value == NodeValue::Text(*t),
                            nl.url@.len() > 0,
                            has_scheme(nl.url@),
                            nl.title@.len() == 0,
                            off + t@.len() == nl.url@.len(),
                            (off == 7) == starts_mailto(nl.url@),
                            off == 0 || off == 7,
                            q <= t@.len(),
                            forall|p: int| 0 <= p < q ==> t@[p] == nl.url@[off + p],
                        decreases t@.len() - q,
                    {
                        if nl.url[off + q] != t[q] {
                            proof {
                                assert(t@[q as int] != stripped_url(nl.url@)[q as int]);
                            }
                            return false;
                        }
                        q = q + 1;
                    }
                    proof {
                        assert(t@ =~= stripped_url(nl.url@));
                    }
                    true
                },
                _ => false,
            }
        },
        _ => false,
    }
}

impl CommonMarkFormatter {
    /// Block quote: `"> "` on entry (echoed into the prefix), pop and a
    /// blank line on exit.
    fn fmt_blockquote(&mut self, entering: bool)
        requires
            old(self).inv(),
            !entering ==> old(self).prefix@.len() >= 2,
        ensures
            final(self).inv(),
            final(self).m() == blockquote_sp(old(self).m(), entering),
    {
        if entering {
            let t = bytes2(62, 32);
            self.output(&t, false, Escaping::Literal);
            self.begin_content = true;
            self.prefix.push(62);
            self.prefix.push(32);
            proof {
                assert(self.prefix@ =~= old(self).prefix@ + seq![62u8, 32u8]);
                assert(self.m() =~= blockquote_sp(old(self).m(), entering));
            }
        } else {
            let nl = self.prefix.len() - 2;
            self.prefix.truncate(nl);
            self.blankline();
            proof {
                assert(self.m() =~= blockquote_sp(old(self).m(), entering));
            }
        }
    }

    /// List item: the computed marker on entry (spaces of the same width
    /// echoed into the prefix), pop and a line break on exit.
    fn fmt_item(&mut self, list: &ListData, index: usize, entering: bool)
        requires
            old(self).inv(),
            list.start + index <= u64::MAX,
            !entering ==> old(self).prefix@.len() >= marker_bytes(*list, index as nat).len(),
        ensures
            final(self).inv(),
            final(self).m() == item_sp(old(self).m(), *list, index as nat, entering),
    {
        let marker = marker_vec(list, index);
        let w = marker.len();
        if entering {
            self.output(&marker, false, Escaping::Literal);
            self.begin_content = true;
            let sp = rep_vec(w, 32);
            extend_bytes(&mut self.prefix, &sp);
            proof {
                assert(self.m() =~= item_sp(old(self).m(), *list, index as nat, entering));
            }
        } else {
            let nl = self.prefix.len() - w;
            self.prefix.truncate(nl);
            self.cr();
            proof {
                assert(self.m() =~= item_sp(old(self).m(), *list, index as nat, entering));
            }
        }
    }

    /// Heading: `level` hashes and a space on entry, wrapping suppressed
    /// until the exit requests a blank line.
    fn fmt_heading(&mut self, level: u8, entering: bool)
        requires
            old(self).inv(),
        ensures
            final(self).inv(),
            final(self).m() == heading_sp(old(self).m(), level as nat, entering),
    {
        if entering {
            let mut h = rep_vec(level as usize, 35);
            h.push(32);
            proof {
                assert(h@ =~= rep(level as nat, 35) + seq![32u8]);
            }
            self.output(&h, false, Escaping::Literal);
            self.begin_content = true;
            self.no_linebreaks = true;
            proof {
                assert(self.m() =~= heading_sp(old(self).m(), level as nat, entering));
            }
        } else {
            self.no_linebreaks = false;
            self.blankline();
            proof {
                assert(self.m() =~= heading_sp(old(self).m(), level as nat, entering));
            }
        }
    }

    /// Code block: indented form for plain content, fenced form otherwise.
    #[verifier::rlimit(100)]
    fn fmt_code_block(&mut self, ncb: &CodeBlockData, first_in_item: bool)
        requires
            old(self).inv(),
            ncb.literal@.len() < usize::MAX,
        ensures
            final(self).inv(),
            final(self).m() == code_block_sp(old(self).m(), ncb.info@, ncb.literal@,
                first_in_item),
    {
        if !first_in_item {
            self.blankline();
        }
        let len = ncb.literal.len();
        let indented = ncb.info.len() == 0 && len > 0 && !is_space(ncb.literal[0]) && !(len >= 2
            && is_space(ncb.literal[len - 1]) && is_space(ncb.literal[len - 2]))
            && !first_in_item;
        if indented {
            let sp4 = rep_vec(4, 32);
            self.output(&sp4, false, Escaping::Literal);
            extend_bytes(&mut self.prefix, &sp4);
            self.output(&ncb.literal, false, Escaping::Literal);
            let nl = self.prefix.len() - 4;
            self.prefix.truncate(nl);
            self.blankline();
            proof {
                assert(self.m() =~= code_block_sp(old(self).m(), ncb.info@, ncb.literal@,
                    first_in_item));
            }
        } else {
            let lr = longest_backtick_sequence(&ncb.literal);
            proof {
                if lr > 0 {
                    let i0 = choose|i0: int| run_at(ncb.literal@, i0, lr as int);
                    assert(lr <= ncb.literal@.len());
                }
            }
            let ticks = if lr + 1 > 3 {
                lr + 1
            } else {
                3
            };
            let t = rep_vec(ticks, 96);
            self.output(&t, false, Escaping::Literal);
            if ncb.info.len() > 0 {
                let mut inf = bytes1(32);
                extend_bytes(&mut inf, &ncb.info);
                self.output(&inf, false, Escaping::Literal);
            }
            self.cr();
            self.output(&ncb.literal, false, Escaping::Literal);
            self.cr();
            let t2 = rep_vec(ticks, 96);
            self.output(&t2, false, Escaping::Literal);
            self.blankline();
            proof {
                assert(self.m() =~= code_block_sp(old(self).m(), ncb.info@, ncb.literal@,
                    first_in_item));
            }
        }
    }

    /// Inline code span.
    #[verifier::rlimit(100)]
    fn fmt_code(&mut self, lit: &Vec<u8>)
        requires
            old(self).inv(),
            lit@.len() < usize::MAX,
        ensures
            final(self).inv(),
            final(self).m() == code_sp(old(self).m(), lit@),
    {
        let n = shortest_unused_backtick_sequence(lit);
        let t = rep_vec(n, 96);
        self.output(&t, false, Escaping::Literal);
        if lit.len() == 0 || lit[0] == 96 {
            let sp = bytes1(32);
            self.output(&sp, false, Escaping::Literal);
        }
        let w = self.width > 0 && !self.hardbreaks;
        self.output(lit, w, Escaping::Literal);
        if lit.len() == 0 || lit[lit.len() - 1] == 96 {
            let sp = bytes1(32);
            self.output(&sp, false, Escaping::Literal);
        }
        let t2 = rep_vec(n, 96);
        self.output(&t2, false, Escaping::Literal);
        proof {
            assert(self.m() =~= code_sp(old(self).m(), lit@));
        }
    }

    /// Link: bare autolink on entry (children suppressed) or bracketed form.
    #[verifier::rlimit(100)]
    fn fmt_link(&mut self, node: &Node, entering: bool) -> (descend: bool)
        requires
            old(self).inv(),
            node.value is Link,
        ensures
            final(self).inv(),
            final(self).m() == link_sp(old(self).m(), *node, entering).0,
            descend == link_sp(old(self).m(), *node, entering).1,
    {
        match &node.value {
            NodeValue::Link(nl) => {
                let auto = is_autolink(node);
                if auto {
                    if entering {
                        let lt = bytes1(60);
                        self.output(&lt, false, Escaping::Literal);
                        let off: usize = if starts_mailto_e(&nl.url) {
                            7
                        } else {
                            0
                        };
                        let su = tail_from(&nl.url, off);
                        proof {
                            assert(su@ =~= stripped_url(nl.url@));
                        }
                        self.output(&su, false, Escaping::Literal);
                        let gt = bytes1(62);
                        self.output(&gt, false, Escaping::Literal);
                        proof {
                            assert(self.m() =~= link_sp(old(self).m(), *node, entering).0);
                        }
                        false
                    } else {
                        true
                    }
                } else {
                    if entering {
                        let lb = bytes1(91);
                        self.output(&lb, false, Escaping::Literal);
                        proof {
                            assert(self.m() =~= link_sp(old(self).m(), *node, entering).0);
                        }
                        true
                    } else {
                        let cl = bytes2(93, 40);
                        self.output(&cl, false, Escaping::Literal);
                        self.output(&nl.url, false, Escaping::URL);
                        if nl.title.len() > 0 {
                            let qt = bytes2(32, 34);
                            self.output(&qt, false, Escaping::Literal);
                            self.output(&nl.title, false, Escaping::Title);
                            let q2 = bytes1(34);
                            self.output(&q2, false, Escaping::Literal);
                        }
                        let rp = bytes1(41);
                        self.output(&rp, false, Escaping::Literal);
                        proof {
                            assert(self.m() =~= link_sp(old(self).m(), *node, entering).0);
                        }
                        true
                    }
                }
            },
            _ => {
                proof {
                    assert(false);
                }
                true
            },
        }
    }

    /// Image: `![` on entry, URL and optional title on exit.
    #[verifier::rlimit(100)]
    fn fmt_image(&mut self, nl: &LinkData, entering: bool)
        requires
            old(self).inv(),
        ensures
            final(self).inv(),
            final(self).m() == image_sp(old(self).m(), nl.url@, nl.title@, entering),
    {
        if entering {
            let ob = bytes2(33, 91);
            self.output(&ob, false, Escaping::Literal);
        } else {
            let cl = bytes2(93, 40);
            self.output(&cl, false, Escaping::Literal);
            self.output(&nl.url, false, Escaping::URL);
            if nl.title.len() > 0 {
                let qt = bytes2(32, 34);
                let w = self.width > 0 && !self.hardbreaks;
                self.output(&qt, w, Escaping::Literal);
                self.output(&nl.title, false, Escaping::Title);
                let q2 = bytes1(34);
                self.output(&q2, false, Escaping::Literal);
            }
            let rp = bytes1(41);
            self.output(&rp, false, Escaping::Literal);
        }
        proof {
            assert(self.m() =~= image_sp(old(self).m(), nl.url@, nl.title@, entering));
        }
    }

    /// One entering or exiting hook; the result says whether to descend
    /// into the children.
    pub fn format_node(&mut self, node: &Node, ctx: Ctx, entering: bool) -> (descend: bool)
        requires
            old(self).inv(),
            node_ctx_ok(*node, ctx),
            wf_value(node.value, node.children.len() as nat),
            !entering ==> old(self).prefix@.len() >= pushed_sp(*node, ctx).len(),
        ensures
            final(self).inv(),
            final(self).m() == format_node_sp(old(self).m(), *node, ctx, entering).0,
            descend == format_node_sp(old(self).m(), *node, ctx, entering).1,
    {
        if is_block_e(&node.value) {
            self.format_node_block(node, ctx, entering)
        } else {
            self.format_node_inline(node, ctx, entering)
        }
    }

    /// The block-level half of the dispatcher.
    #[verifier::rlimit(100)]
    #[verifier::spinoff_prover]
    fn format_node_block(&mut self, node: &Node, ctx: Ctx, entering: bool) -> (descend: bool)
        requires
            old(self).inv(),
            node_ctx_ok(*node, ctx),
            wf_value(node.value, node.children.len() as nat),
            is_block(node.value),
            !entering ==> old(self).prefix@.len() >= pushed_sp(*node, ctx).len(),
        ensures
            final(self).inv(),
            final(self).m() == format_node_sp(old(self).m(), *node, ctx, entering).0,
            descend == format_node_sp(old(self).m(), *node, ctx, entering).1,
    {
        let skip_tight = matches!(node.value, NodeValue::Item) && !ctx.has_prev && entering;
        if !skip_tight {
            self.in_tight_list_item = ctx.tight;
        }
        proof {
            assert(self.m() =~= tight_step(old(self).m(), *node, ctx, entering));
        }
        match &node.value {
            NodeValue::Document => {
                proof {
                    reveal(format_node_sp);
                    assert(self.m() == format_node_sp(old(self).m(), *node, ctx, entering).0);
                    assert(format_node_sp(old(self).m(), *node, ctx, entering).1);
                }
                true
            },
            NodeValue::BlockQuote => {
                self.fmt_blockquote(entering);
                proof {
                    reveal(format_node_sp);
                    assert(self.m() == format_node_sp(old(self).m(), *node, ctx, entering).0);
                    assert(format_node_sp(old(self).m(), *node, ctx, entering).1);
                }
                true
            },
            NodeValue::List(_) => {
                if !entering && ctx.next_is_cb_or_list {
                    self.cr();
                    let el = end_list_vec();
                    self.output(&el, false, Escaping::Literal);
                    self.blankline();
                }
                proof {
                    reveal(format_node_sp);
                    assert(self.m() == format_node_sp(old(self).m(), *node, ctx, entering).0);
                    assert(format_node_sp(old(self).m(), *node, ctx, entering).1);
                }
                true
            },
            NodeValue::Item => {
                match ctx.parent_list {
                    Option::Some(list) => {
                        self.fmt_item(&list, ctx.index, entering);
                    },
                    Option::None => {
                        proof {
                            assert(false);
                        }
                    },
                }
                proof {
                    reveal(format_node_sp);
                    assert(self.m() == format_node_sp(old(self).m(), *node, ctx, entering).0);
                    assert(format_node_sp(old(self).m(), *node, ctx, entering).1);
                }
                true
            },
            NodeValue::Heading(h) => {
                self.fmt_heading(h.level, entering);
                proof {
                    reveal(format_node_sp);
                    assert(self.m() == format_node_sp(old(self).m(), *node, ctx, entering).0);
                    assert(format_node_sp(old(self).m(), *node, ctx, entering).1);
                }
                true
            },
            NodeValue::CodeBlock(ncb) => {
                if entering {
                    self.fmt_code_block(ncb, !ctx.has_prev && ctx.parent_is_item);
                }
                proof {
                    reveal(format_node_sp);
                    assert(self.m() == format_node_sp(old(self).m(), *node, ctx, entering).0);
                    assert(format_node_sp(old(self).m(), *node, ctx, entering).1);
                }
                true
            },
            NodeValue::HtmlBlock(lit) => {
                if entering {
                    self.blankline();
                    self.output(lit, false, Escaping::Literal);
                    self.blankline();
                }
                proof {
                    reveal(format_node_sp);
                    assert(self.m() == format_node_sp(old(self).m(), *node, ctx, entering).0);
                    assert(format_node_sp(old(self).m(), *node, ctx, entering).1);
                }
                true
            },
            NodeValue::ThematicBreak => {
                if entering {
                    self.blankline();
                    let d = rep_vec(5, 45);
                    self.output(&d, false, Escaping::Literal);
                    self.blankline();
                }
                proof {
                    reveal(format_node_sp);
                    assert(self.m() == format_node_sp(old(self).m(), *node, ctx, entering).0);
                    assert(format_node_sp(old(self).m(), *node, ctx, entering).1);
                }
                true
            },
            NodeValue::Paragraph => {
                if !entering {
                    self.blankline();
                }
                proof {
                    reveal(format_node_sp);
                    assert(self.m() == format_node_sp(old(self).m(), *node, ctx, entering).0);
                    assert(format_node_sp(old(self).m(), *node, ctx, entering).1);
                }
                true
            },
            _ => {
                proof {
                    assert(false);
                }
                true
            },
        }
    }

    /// The inline half of the dispatcher.
    #[verifier::rlimit(100)]
    #[verifier::spinoff_prover]
    fn format_node_inline(&mut self, node: &Node, ctx: Ctx, entering: bool) -> (descend: bool)
        requires
            old(self).inv(),
            node_ctx_ok(*node, ctx),
            wf_value(node.value, node.children.len() as nat),
            !is_block(node.value),
        ensures
            final(self).inv(),
            final(self).m() == format_node_sp(old(self).m(), *node, ctx, entering).0,
            descend == format_node_sp(old(self).m(), *node, ctx, entering).1,
    {
        self.in_tight_list_item = ctx.tight;
        proof {
            assert(self.m() =~= tight_step(old(self).m(), *node, ctx, entering));
        }
        match &node.value {
            NodeValue::Text(t) => {
                if entering {
                    let w = self.width > 0 && !self.hardbreaks;
                    self.output(t, w, Escaping::Normal);
                }
                proof {
                    reveal(format_node_sp);
                    assert(self.m() == format_node_sp(old(self).m(), *node, ctx, entering).0);
                    assert(format_node_sp(old(self).m(), *node, ctx, entering).1);
                }
                true
            },
            NodeValue::LineBreak => {
                if entering {
                    if !self.hardbreaks {
                        let sp = bytes2(32, 32);
                        self.output(&sp, false, Escaping::Literal);
                    }
                    self.cr();
                }
                proof {
                    reveal(format_node_sp);
                    assert(self.m() == format_node_sp(old(self).m(), *node, ctx, entering).0);
                    assert(format_node_sp(old(self).m(), *node, ctx, entering).1);
                }
                true
            },
            NodeValue::SoftBreak => {
                if entering {
                    if !self.no_linebreaks && self.width == 0 && !self.hardbreaks {
                        self.cr();
                    } else {
                        let sp = bytes1(32);
                        let w = self.width > 0 && !self.hardbreaks;
                        self.output(&sp, w, Escaping::Literal);
                    }
                }
                proof {
                    reveal(format_node_sp);
                    assert(self.m() == format_node_sp(old(self).m(), *node, ctx, entering).0);
                    assert(format_node_sp(old(self).m(), *node, ctx, entering).1);
                }
                true
            },
            NodeValue::Code(lit) => {
                if entering {
                    self.fmt_code(lit);
                }
                proof {
                    reveal(format_node_sp);
                    assert(self.m() == format_node_sp(old(self).m(), *node, ctx, entering).0);
                    assert(format_node_sp(old(self).m(), *node, ctx, entering).1);
                }
                true
            },
            NodeValue::HtmlInline(lit) => {
                if entering {
                    self.output(lit, false, Escaping::Literal);
                }
                proof {
                    reveal(format_node_sp);
                    assert(self.m() == format_node_sp(old(self).m(), *node, ctx, entering).0);
                    assert(format_node_sp(old(self).m(), *node, ctx, entering).1);
                }
                true
            },
            NodeValue::Strong => {
                let st = bytes2(42, 42);
                self.output(&st, false, Escaping::Literal);
                proof {
                    reveal(format_node_sp);
                    assert(self.m() == format_node_sp(old(self).m(), *node, ctx, entering).0);
                    assert(format_node_sp(old(self).m(), *node, ctx, entering).1);
                }
                true
            },
            NodeValue::Emph => {
                let d: u8 = if ctx.parent_is_emph && !ctx.has_next && !ctx.has_prev {
                    95
                } else {
                    42
                };
                let dv = bytes1(d);
                self.output(&dv, false, Escaping::Literal);
                proof {
                    reveal(format_node_sp);
                    assert(self.m() == format_node_sp(old(self).m(), *node, ctx, entering).0);
                    assert(format_node_sp(old(self).m(), *node, ctx, entering).1);
                }
                true
            },
            NodeValue::Link(_) => {
                let descend = self.fmt_link(node, entering);
                proof {
                    reveal(format_node_sp);
                    assert(self.m() == format_node_sp(old(self).m(), *node, ctx, entering).0);
                    assert(descend == format_node_sp(old(self).m(), *node, ctx, entering).1);
                }
                descend
            },
            NodeValue::Image(nl) => {
                self.fmt_image(nl, entering);
                proof {
                    reveal(format_node_sp);
                    assert(self.m() == format_node_sp(old(self).m(), *node, ctx, entering).0);
                    assert(format_node_sp(old(self).m(), *node, ctx, entering).1);
                }
                true
            },
            _ => {
                proof {
                    assert(false);
                }
                true
            },
        }
    }

    /// Visits every child in order.
    pub fn format_children(&mut self, node: &Node, ctx: Ctx)
        requires
            old(self).inv(),
            wf_node(*node),
        ensures
            final(self).inv(),
            final(self).m() == children_sp(old(self).m(), *node, ctx, 0),
            final(self).prefix@ == old(self).prefix@,
        decreases *node, 0int,
    {
        let ghost s0 = self.m();
        let mut i: usize = 0;
        while i < node.children.len()
            invariant
                self.inv(),
                wf_node(*node),
                i <= node.children@.len(),
                self.prefix@ == s0.prefix,
                children_sp(s0, *node, ctx, 0) == children_sp(self.m(), *node, ctx, i as int),
            decreases node.children@.len() - i,
        {
            let child = &node.children[i];
            let cctx = child_ctx_e(node, ctx, i);
            proof {
                assert(wf_node(node.children@[i as int]));
                if child.value is Item {
                    assert(node.value is List);
                }
            }
            let ghost pre = self.m();
            self.format(child, cctx);
            proof {
                assert(cctx == child_ctx(*node, ctx, i as int));
                assert(self.m() == format_sp(pre, node.children@[i as int], child_ctx(*node, ctx,
                    i as int)));
                assert(children_sp(pre, *node, ctx, i as int) == children_sp(format_sp(pre,
                    node.children@[i as int], child_ctx(*node, ctx, i as int)), *node, ctx,
                    i as int + 1));
                assert(children_sp(pre, *node, ctx, i as int) == children_sp(self.m(), *node,
                    ctx, i as int + 1));
            }
            i = i + 1;
        }
        proof {
            assert(children_sp(self.m(), *node, ctx, i as int) == self.m());
        }
    }

    /// Renders one subtree: entering hook, children, exiting hook.
    pub fn format(&mut self, node: &Node, ctx: Ctx)
        requires
            old(self).inv(),
            wf_node(*node),
            node_ctx_ok(*node, ctx),
        ensures
            final(self).inv(),
            final(self).m() == format_sp(old(self).m(), *node, ctx),
            final(self).prefix@ == old(self).prefix@,
        decreases *node, 1int,
    {
        let ghost s0 = self.m();
        let descend = self.format_node(node, ctx, true);
        let ghost r0 = self.m();
        if descend {
            self.format_children(node, ctx);
            let ghost s2 = self.m();
            proof {
                lemma_format_node_prefix(s0, *node, ctx, true);
                assert(self.prefix@.len() >= pushed_sp(*node, ctx).len());
            }
            self.format_node(node, ctx, false);
            proof {
                assert(r0 == format_node_sp(s0, *node, ctx, true).0);
                assert(s2 == children_sp(r0, *node, ctx, 0));
                assert(self.m() == format_node_sp(s2, *node, ctx, false).0);
                assert(self.m() == format_sp(s0, *node, ctx));
            }
        } else {
            proof {
                assert(self.m() == format_sp(s0, *node, ctx));
            }
        }
        proof {
            lemma_format_sp_prefix(s0, *node, ctx);
        }
    }
}

/// Renders a whole document tree to canonical CommonMark source.
///
/// The result is exactly the byte sequence of the model rendering, with a
/// single newline appended when the buffer does not already end in one: the
/// output is never empty, always ends with a newline, and never gains more
/// than that one terminator.
pub fn format_document(root: &Node, options: &RenderOptions) -> (r: Vec<u8>)
    requires
        wf_node(*root),
        !(root.value is Item),
    ensures
        r@ == terminated(render_sp(*root, options.width as nat, options.hardbreaks)),
        r@.len() > 0,
        r@.last() == 10,
{
    let mut f = CommonMarkFormatter::new(options.width, options.hardbreaks);
    let ctx = Ctx {
        tight: false,
        parent_is_item: false,
        parent_is_emph: false,
        parent_list: Option::None,
        index: 0,
        has_prev: false,
        has_next: false,
        next_is_cb_or_list: false,
    };
    proof {
        assert(ctx == root_ctx());
        assert(f.m() =~= init_st(options.width as nat, options.hardbreaks));
    }
    f.format(root, ctx);
    if f.v.len() == 0 || f.v[f.v.len() - 1] != 10 {
        f.v.push(10);
    }
    proof {
        assert(f.v@ =~= terminated(render_sp(*root, options.width as nat, options.hardbreaks)));
    }
    f.v
}

/// Builds the context a parent hands to its `i`-th child.
fn child_ctx_e(parent: &Node, pctx: Ctx, i: usize) -> (c: Ctx)
    requires
        i < parent.children.len(),
    ensures
        c == child_ctx(*parent, pctx, i as int),
{
    let child = &parent.children[i];
    let tight: bool = if matches!(child.value, NodeValue::Item) {
        match &parent.value {
            NodeValue::List(nl) => nl.tight,
            _ => false,
        }
    } else if is_block_e(&child.value) {
        if matches!(parent.value, NodeValue::Item) {
            pctx.tight
        } else {
            false
        }
    } else {
        pctx.tight
    };
    let parent_list: Option<ListData> = match &parent.value {
        NodeValue::List(nl) => Option::Some(*nl),
        _ => Option::None,
    };
    let next_is_cb_or_list: bool = i + 1 < parent.children.len() && match &parent.children[i
        + 1].value {
        NodeValue::CodeBlock(_) => true,
        NodeValue::List(_) => true,
        _ => false,
    };
    Ctx {
        tight,
        parent_is_item: matches!(parent.value, NodeValue::Item),
        parent_is_emph: matches!(parent.value, NodeValue::Emph),
        parent_list,
        index: i,
        has_prev: i > 0,
        has_next: i + 1 < parent.children.len(),
        next_is_cb_or_list,
    }
}

} // verus!
