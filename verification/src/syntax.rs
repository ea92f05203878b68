//! A concrete syntax tree as plain values: each node's kind, byte range and children,
//! each child with the field name it fills in its parent.

use vstd::prelude::*;
use vstd::utf8::{
    decode_utf8, encode_utf8, encode_utf8_decode_utf8, encode_utf8_valid_utf8, is_char_boundary,
    is_char_boundary_iff_not_is_continuation_byte, is_char_boundary_start_end_of_seq, valid_utf8,
    valid_utf8_split,
};
use crate::text::str_eq;
use vstd::string::StringSliceAdditionalSpecFns;

verus! {

broadcast use vstd::string::group_string_axioms;

/// A node of a syntax tree: its grammar kind, the byte range of source text it covers, and
/// its children (named and anonymous) in source order.
#[derive(Debug)]
pub struct SyntaxNode {
    pub kind: String,
    pub start_byte: usize,
    pub end_byte: usize,
    pub children: Vec<SyntaxChild>,
}

/// A child of a syntax node, with the field name under which its parent holds it, if any.
#[derive(Debug)]
pub struct SyntaxChild {
    pub field: Option<String>,
    pub node: SyntaxNode,
}

/// The text of an optional string.
pub open spec fn opt_string_view(o: Option<String>) -> Option<Seq<char>> {
    match o {
        Some(x) => Some(x@),
        None => None,
    }
}

/// The text of bytes `a..b` of the UTF-8 encoding of `src`, when both ends fall on
/// character boundaries (`str::from_utf8` of that byte range succeeds exactly then).
pub open spec fn text_at(src: Seq<char>, a: int, b: int) -> Option<Seq<char>> {
    let bytes = encode_utf8(src);
    if 0 <= a <= b <= bytes.len() && is_char_boundary(bytes, a) && is_char_boundary(bytes, b) {
        Some(decode_utf8(bytes.subrange(a, b)))
    } else {
        None
    }
}

/// The source text that `node` covers.
pub open spec fn node_text_of(node: SyntaxNode, src: Seq<char>) -> Option<Seq<char>> {
    text_at(src, node.start_byte as int, node.end_byte as int)
}

proof fn lemma_boundary_in_suffix(bytes: Seq<u8>, a: int, b: int)
    requires
        valid_utf8(bytes),
        0 <= a <= b <= bytes.len(),
        is_char_boundary(bytes, a),
        is_char_boundary(bytes, b),
    ensures
        valid_utf8(bytes.subrange(a, bytes.len() as int)),
        is_char_boundary(bytes.subrange(a, bytes.len() as int), b - a),
{
    valid_utf8_split(bytes, a);
    let rest = bytes.subrange(a, bytes.len() as int);
    if b < bytes.len() {
        is_char_boundary_iff_not_is_continuation_byte(bytes, b);
        is_char_boundary_iff_not_is_continuation_byte(rest, b - a);
        assert(rest[b - a] == bytes[b]);
    } else {
        is_char_boundary_start_end_of_seq(rest);
    }
}

/// The source text that `node` covers (`Node::utf8_text`), or `None` when its byte range
/// does not cut `source` at character boundaries or lies outside it.
pub fn node_text(node: &SyntaxNode, source: &str) -> (r: Option<String>)
    ensures
        opt_string_view(r) == node_text_of(*node, source@),
{
    let a = node.start_byte;
    let b = node.end_byte;
    let n = source.as_bytes().len();
    proof {
        encode_utf8_valid_utf8(source@);
    }
    if a <= b && b <= n && source.is_char_boundary(a) && source.is_char_boundary(b) {
        let (_, rest) = source.split_at(a);
        proof {
            lemma_boundary_in_suffix(source.spec_bytes(), a as int, b as int);
            assert(rest.spec_bytes() =~= source.spec_bytes().subrange(a as int, n as int));
        }
        let (mid, _) = rest.split_at(b - a);
        proof {
            encode_utf8_decode_utf8(mid@);
            assert(rest.spec_bytes().subrange(0, b - a) =~= source.spec_bytes().subrange(
                a as int,
                b as int,
            ));
        }
        Some(String::from_str(mid))
    } else {
        None
    }
}

/// Whether `c` is held under the field `name`.
pub open spec fn has_field(c: SyntaxChild, name: Seq<char>) -> bool {
    match c.field {
        Some(f) => f@ == name,
        None => false,
    }
}

/// The first of `children[i..]` held under the field `name`.
pub open spec fn field_child_from(children: Seq<SyntaxChild>, name: Seq<char>, i: int) -> Option<
    SyntaxNode,
>
    decreases children.len() - i,
{
    if i < 0 || i >= children.len() {
        None
    } else if has_field(children[i], name) {
        Some(children[i].node)
    } else {
        field_child_from(children, name, i + 1)
    }
}

/// The first child of `node` held under the field `name` (`Node::child_by_field_name`).
pub open spec fn field_child_of(node: SyntaxNode, name: Seq<char>) -> Option<SyntaxNode> {
    field_child_from(node.children@, name, 0)
}

/// The first child of `node` held under the field `name`.
pub fn child_by_field_name<'a>(node: &'a SyntaxNode, name: &str) -> (r: Option<&'a SyntaxNode>)
    ensures
        match r {
            Some(c) => field_child_of(*node, name@) == Some(*c),
            None => field_child_of(*node, name@) is None,
        },
{
    let n = node.children.len();
    let mut i: usize = 0;
    while i < n
        invariant
            i <= n == node.children@.len(),
            field_child_of(*node, name@) == field_child_from(node.children@, name@, i as int),
        decreases n - i,
    {
        let c = &node.children[i];
        let hit = match &c.field {
            Some(f) => str_eq(f.as_str(), name),
            None => false,
        };
        if hit {
            return Some(&c.node);
        }
        i = i + 1;
    }
    None
}

/// `a` and `b` are the same tree as far as text goes: equal kinds, byte ranges and field
/// names, and children that are the same trees, in order.
pub open spec fn same_tree(a: SyntaxNode, b: SyntaxNode) -> bool
    decreases a,
{
    &&& a.kind@ == b.kind@
    &&& a.start_byte == b.start_byte
    &&& a.end_byte == b.end_byte
    &&& a.children@.len() == b.children@.len()
    &&& forall|k: int|
        #![trigger a.children@[k]]
        0 <= k < a.children@.len() ==> opt_string_view(a.children@[k].field) == opt_string_view(
            b.children@[k].field,
        ) && same_tree(a.children@[k].node, b.children@[k].node)
}

/// Trees that are the same have equal kinds and byte ranges.
pub proof fn lemma_same_tree_node(a: SyntaxNode, b: SyntaxNode)
    requires
        same_tree(a, b),
    ensures
        a.kind@ == b.kind@,
        a.start_byte == b.start_byte,
        a.end_byte == b.end_byte,
        a.children@.len() == b.children@.len(),
        forall|k: int|
            #![trigger a.children@[k]]
            0 <= k < a.children@.len() ==> opt_string_view(a.children@[k].field)
                == opt_string_view(b.children@[k].field) && same_tree(
                a.children@[k].node,
                b.children@[k].node,
            ),
{
}

/// Two optional nodes are both absent, or both present and the same tree.
pub open spec fn same_opt_tree(a: Option<SyntaxNode>, b: Option<SyntaxNode>) -> bool {
    match (a, b) {
        (None, None) => true,
        (Some(x), Some(y)) => same_tree(x, y),
        _ => false,
    }
}

/// The child held under a field is the same tree in two trees that are the same.
pub proof fn lemma_field_child_same(a: SyntaxNode, b: SyntaxNode, name: Seq<char>, i: int)
    requires
        same_tree(a, b),
        0 <= i,
    ensures
        same_opt_tree(
            field_child_from(a.children@, name, i),
            field_child_from(b.children@, name, i),
        ),
    decreases a.children@.len() - i,
{
    lemma_same_tree_node(a, b);
    if i < a.children@.len() {
        assert(a.children@[i] == a.children@[i]);
        assert(has_field(a.children@[i], name) == has_field(b.children@[i], name));
        lemma_field_child_same(a, b, name, i + 1);
    }
}

} // verus!
