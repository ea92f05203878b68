//! Declarations and imports found in a syntax tree: class-like names, function names and
//! import specifiers, in the order of a depth-first walk that visits children last-first.

use vstd::prelude::*;
use crate::paths::views;
use crate::syntax::{
    child_by_field_name, field_child_from, field_child_of, lemma_field_child_same,
    lemma_same_tree_node, node_text,
    node_text_of, opt_string_view, same_opt_tree, same_tree, SyntaxChild, SyntaxNode,
};
use crate::text::{
    chars_of, first_index, first_index_of, is_prefix, starts_with, str_eq, trim, trim_by,
    trim_end_by, trim_end_str_by, trim_str, trim_str_by, CharClass,
};

verus! {

broadcast use vstd::string::group_string_axioms;

/// The grammar family of a tree: TypeScript, TSX and JavaScript share one extraction.
#[derive(Clone, Copy, PartialEq, Eq, Debug)]
pub enum Dialect {
    TypeScript,
    CSharp,
}

/// The list an extracted name goes to.
#[derive(Clone, Copy, PartialEq, Eq, Debug)]
pub enum Bucket {
    Classes,
    Functions,
    Imports,
}

/// The contents of a string-literal node: its text without surrounding quote characters.
pub open spec fn literal_of(node: SyntaxNode, src: Seq<char>) -> Option<Seq<char>> {
    if node.kind@ == "string"@ || node.kind@ == "string_literal"@ {
        match node_text_of(node, src) {
            Some(t) => Some(trim_by(t, CharClass::Quote)),
            None => None,
        }
    } else {
        None
    }
}

/// The contents of the first string literal among `children[i..]`.
pub open spec fn first_literal_from(children: Seq<SyntaxChild>, src: Seq<char>, i: int) -> Option<
    Seq<char>,
>
    decreases children.len() - i,
{
    if i < 0 || i >= children.len() {
        None
    } else {
        match literal_of(children[i].node, src) {
            Some(t) => Some(t),
            None => first_literal_from(children, src, i + 1),
        }
    }
}

/// The namespace or type that the text of a C# `using` directive names: after `using` and an
/// optional `static`, without the trailing `;`, and the right-hand side of an alias `A = B`.
pub open spec fn using_target(text: Seq<char>) -> Option<Seq<char>> {
    let a = trim(text);
    if !is_prefix("using"@, a) {
        None
    } else {
        let rest = trim(a.skip("using"@.len() as int));
        let rest = if is_prefix("static"@, rest) {
            trim(rest.skip("static"@.len() as int))
        } else {
            rest
        };
        let rest = trim(trim_end_by(rest, CharClass::Semicolon));
        if rest.len() == 0 {
            None
        } else {
            match first_index_of(rest, '=') {
                Some(k) => Some(trim(rest.skip(k + 1))),
                None => Some(rest),
            }
        }
    }
}

/// The text of the `name` field of `node`.
pub open spec fn name_of(node: SyntaxNode, src: Seq<char>) -> Option<Seq<char>> {
    match field_child_of(node, "name"@) {
        Some(n) => node_text_of(n, src),
        None => None,
    }
}

/// `o`, tagged with the bucket it goes to.
pub open spec fn tagged(b: Bucket, o: Option<Seq<char>>) -> Option<(Bucket, Seq<char>)> {
    match o {
        Some(s) => Some((b, s)),
        None => None,
    }
}

/// What one node contributes in a TypeScript-family tree, given its parent.
pub open spec fn ts_item_of(node: SyntaxNode, parent: Option<SyntaxNode>, src: Seq<char>) -> Option<
    (Bucket, Seq<char>),
> {
    let k = node.kind@;
    if k == "class_declaration"@ || k == "interface_declaration"@ || k == "enum_declaration"@ {
        tagged(Bucket::Classes, name_of(node, src))
    } else if k == "function_declaration"@ || k == "generator_function"@ || k
        == "method_definition"@ {
        tagged(Bucket::Functions, name_of(node, src))
    } else if k == "arrow_function"@ {
        match parent {
            Some(p) => if p.kind@ == "variable_declarator"@ {
                tagged(Bucket::Functions, name_of(p, src))
            } else {
                None
            },
            None => None,
        }
    } else if k == "import_statement"@ {
        match field_child_of(node, "source"@) {
            Some(s) => tagged(Bucket::Imports, literal_of(s, src)),
            None => None,
        }
    } else if k == "call_expression"@ {
        match field_child_of(node, "function"@) {
            Some(f) => if f.kind@ == "identifier"@ && node_text_of(f, src) == Some("require"@) {
                match field_child_of(node, "arguments"@) {
                    Some(args) => tagged(
                        Bucket::Imports,
                        first_literal_from(args.children@, src, 0),
                    ),
                    None => None,
                }
            } else {
                None
            },
            None => None,
        }
    } else {
        None
    }
}

/// What one node contributes in a C# tree.
pub open spec fn cs_item_of(node: SyntaxNode, src: Seq<char>) -> Option<(Bucket, Seq<char>)> {
    let k = node.kind@;
    if k == "class_declaration"@ || k == "interface_declaration"@ || k == "struct_declaration"@
        || k == "record_declaration"@ || k == "enum_declaration"@ {
        tagged(Bucket::Classes, name_of(node, src))
    } else if k == "method_declaration"@ || k == "constructor_declaration"@ || k
        == "destructor_declaration"@ {
        tagged(Bucket::Functions, name_of(node, src))
    } else if k == "using_directive"@ {
        match node_text_of(node, src) {
            Some(t) => tagged(Bucket::Imports, using_target(t)),
            None => None,
        }
    } else {
        None
    }
}

/// What one node contributes: a name and the bucket it goes to.
pub open spec fn item_of(d: Dialect, node: SyntaxNode, parent: Option<SyntaxNode>, src: Seq<char>) -> Option<
    (Bucket, Seq<char>),
> {
    match d {
        Dialect::TypeScript => ts_item_of(node, parent, src),
        Dialect::CSharp => cs_item_of(node, src),
    }
}

/// What one node contributes to bucket `b`: nothing or one name.
pub open spec fn emit(
    d: Dialect,
    b: Bucket,
    node: SyntaxNode,
    parent: Option<SyntaxNode>,
    src: Seq<char>,
) -> Seq<Seq<char>> {
    match item_of(d, node, parent, src) {
        Some((b2, s)) => if b2 == b {
            seq![s]
        } else {
            Seq::empty()
        },
        None => Seq::empty(),
    }
}

/// The names that the subtree of `node` contributes to bucket `b`: the node first, then the
/// subtrees of its children from the last child to the first.
pub open spec fn collect(
    d: Dialect,
    b: Bucket,
    node: SyntaxNode,
    parent: Option<SyntaxNode>,
    src: Seq<char>,
) -> Seq<Seq<char>>
    decreases node, node.children@.len() + 1,
{
    emit(d, b, node, parent, src) + collect_children(
        d,
        b,
        node,
        node.children@.len() as int,
        src,
    )
}

/// The names that the subtrees of the first `k` children of `node` contribute, child `k - 1`
/// first.
pub open spec fn collect_children(
    d: Dialect,
    b: Bucket,
    node: SyntaxNode,
    k: int,
    src: Seq<char>,
) -> Seq<Seq<char>>
    decreases node, k,
{
    if k <= 0 || k > node.children@.len() {
        Seq::empty()
    } else {
        collect(d, b, node.children@[k - 1].node, Some(node), src) + collect_children(
            d,
            b,
            node,
            k - 1,
            src,
        )
    }
}

/// Number of nodes in the subtree of `node`.
pub open spec fn tree_size(node: SyntaxNode) -> nat
    decreases node, node.children@.len() + 1,
{
    1 + children_size(node, node.children@.len() as int)
}

/// Number of nodes in the subtrees of the first `k` children of `node`.
pub open spec fn children_size(node: SyntaxNode, k: int) -> nat
    decreases node, k,
{
    if k <= 0 || k > node.children@.len() {
        0
    } else {
        tree_size(node.children@[k - 1].node) + children_size(node, k - 1)
    }
}

/// The node of an optional reference.
pub open spec fn deref_opt(o: Option<&SyntaxNode>) -> Option<SyntaxNode> {
    match o {
        Some(x) => Some(*x),
        None => None,
    }
}

/// A pending subtree of the walk: a node and its parent.
pub type Frame<'a> = (&'a SyntaxNode, Option<&'a SyntaxNode>);

/// The names that the pending subtrees contribute, the top of the stack first.
pub open spec fn stack_out(d: Dialect, b: Bucket, s: Seq<Frame>, src: Seq<char>) -> Seq<Seq<char>>
    decreases s.len(),
{
    if s.len() == 0 {
        Seq::empty()
    } else {
        collect(d, b, *s.last().0, deref_opt(s.last().1), src) + stack_out(d, b, s.drop_last(), src)
    }
}

/// Number of nodes in the pending subtrees.
pub open spec fn stack_size(s: Seq<Frame>) -> nat
    decreases s.len(),
{
    if s.len() == 0 {
        0
    } else {
        tree_size(*s.last().0) + stack_size(s.drop_last())
    }
}

proof fn lemma_first_literal_same(a: SyntaxNode, b: SyntaxNode, src: Seq<char>, i: int)
    requires
        same_tree(a, b),
        0 <= i,
    ensures
        first_literal_from(a.children@, src, i) == first_literal_from(b.children@, src, i),
    decreases a.children@.len() - i,
{
    lemma_same_tree_node(a, b);
    if i < a.children@.len() {
        assert(a.children@[i] == a.children@[i]);
        lemma_same_tree_node(a.children@[i].node, b.children@[i].node);
        lemma_first_literal_same(a, b, src, i + 1);
    }
}

proof fn lemma_item_same(
    d: Dialect,
    a: SyntaxNode,
    pa: Option<SyntaxNode>,
    b: SyntaxNode,
    pb: Option<SyntaxNode>,
    src: Seq<char>,
)
    requires
        same_tree(a, b),
        same_opt_tree(pa, pb),
    ensures
        item_of(d, a, pa, src) == item_of(d, b, pb, src),
{
    lemma_same_tree_node(a, b);
    lemma_field_child_same(a, b, "name"@, 0);
    lemma_field_child_same(a, b, "source"@, 0);
    lemma_field_child_same(a, b, "function"@, 0);
    lemma_field_child_same(a, b, "arguments"@, 0);
    if pa is Some {
        lemma_same_tree_node(pa->0, pb->0);
        lemma_field_child_same(pa->0, pb->0, "name"@, 0);
        if field_child_of(pa->0, "name"@) is Some {
            lemma_same_tree_node(field_child_of(pa->0, "name"@)->0, field_child_of(pb->0, "name"@)->0);
        }
    }
    if field_child_of(a, "name"@) is Some {
        lemma_same_tree_node(field_child_of(a, "name"@)->0, field_child_of(b, "name"@)->0);
    }
    if field_child_of(a, "source"@) is Some {
        lemma_same_tree_node(field_child_of(a, "source"@)->0, field_child_of(b, "source"@)->0);
    }
    if field_child_of(a, "function"@) is Some {
        lemma_same_tree_node(field_child_of(a, "function"@)->0, field_child_of(b, "function"@)->0);
    }
    if field_child_of(a, "arguments"@) is Some {
        lemma_first_literal_same(
            field_child_of(a, "arguments"@)->0,
            field_child_of(b, "arguments"@)->0,
            src,
            0,
        );
    }
}

/// Extraction reads a tree only through its kinds, byte ranges, field names and shape: two
/// trees that are the same give the same names.
pub proof fn lemma_collect_same(
    d: Dialect,
    bk: Bucket,
    a: SyntaxNode,
    pa: Option<SyntaxNode>,
    b: SyntaxNode,
    pb: Option<SyntaxNode>,
    src: Seq<char>,
)
    requires
        same_tree(a, b),
        same_opt_tree(pa, pb),
    ensures
        collect(d, bk, a, pa, src) == collect(d, bk, b, pb, src),
    decreases a, a.children@.len() + 1,
{
    lemma_item_same(d, a, pa, b, pb, src);
    lemma_collect_children_same(d, bk, a, b, a.children@.len() as int, src);
}

proof fn lemma_collect_children_same(
    d: Dialect,
    bk: Bucket,
    a: SyntaxNode,
    b: SyntaxNode,
    k: int,
    src: Seq<char>,
)
    requires
        same_tree(a, b),
    ensures
        collect_children(d, bk, a, k, src) == collect_children(d, bk, b, k, src),
    decreases a, k,
{
    lemma_same_tree_node(a, b);
    if 0 < k <= a.children@.len() {
        assert(a.children@[k - 1] == a.children@[k - 1]);
        lemma_collect_same(
            d,
            bk,
            a.children@[k - 1].node,
            Some(a),
            b.children@[k - 1].node,
            Some(b),
            src,
        );
        lemma_collect_children_same(d, bk, a, b, k - 1, src);
    }
}

/// The text of the `name` field of `node`, if it has one.
pub open spec fn name_text_of(node: SyntaxNode, src: Seq<char>) -> Option<Seq<char>> {
    match field_child_of(node, "name"@) {
        Some(n) => node_text_of(n, src),
        None => None,
    }
}

/// `o` put in bucket `b`.
pub open spec fn in_bucket(b: Bucket, o: Option<Seq<char>>) -> Option<(Bucket, Seq<char>)> {
    match o {
        Some(s) => Some((b, s)),
        None => None,
    }
}

/// Law: what a node of a TypeScript-family tree contributes, whatever its parent unless said:
/// a class, interface or enum declaration gives its name as a class (exported or not, at any
/// depth); a function, generator or method gives its name as a function; an arrow function
/// gives the name of the variable it initialises; an import statement gives its source
/// string without quotes; a node of any other kind gives nothing unless it is a call.
pub proof fn law_ts_items(node: SyntaxNode, parent: Option<SyntaxNode>, src: Seq<char>)
    ensures
        ({
            let k = node.kind@;
            let item = item_of(Dialect::TypeScript, node, parent, src);
            &&& (k == "class_declaration"@ || k == "interface_declaration"@ || k
                == "enum_declaration"@) ==> item == in_bucket(
                Bucket::Classes,
                name_text_of(node, src),
            )
            &&& (k == "function_declaration"@ || k == "generator_function"@ || k
                == "method_definition"@) ==> item == in_bucket(
                Bucket::Functions,
                name_text_of(node, src),
            )
            &&& k == "arrow_function"@ ==> item == match parent {
                Some(p) => if p.kind@ == "variable_declarator"@ {
                    in_bucket(Bucket::Functions, name_text_of(p, src))
                } else {
                    None
                },
                None => None,
            }
            &&& k == "import_statement"@ ==> item == match field_child_of(node, "source"@) {
                Some(sn) => in_bucket(Bucket::Imports, literal_of(sn, src)),
                None => None,
            }
            &&& item matches Some((b, _)) ==> (b == Bucket::Classes <==> (k == "class_declaration"@
                || k == "interface_declaration"@ || k == "enum_declaration"@))
        }),
{
    reveal_strlit("class_declaration");
    reveal_strlit("interface_declaration");
    reveal_strlit("enum_declaration");
    reveal_strlit("function_declaration");
    reveal_strlit("generator_function");
    reveal_strlit("method_definition");
    reveal_strlit("arrow_function");
    reveal_strlit("variable_declarator");
    reveal_strlit("import_statement");
    reveal_strlit("call_expression");
    reveal_strlit("identifier");
    reveal_strlit("require");
    reveal_strlit("name");
    reveal_strlit("source");
    reveal_strlit("function");
    reveal_strlit("arguments");
    assert("class_declaration"@[0] != "method_definition"@[0]);
    assert("enum_declaration"@[0] != "import_statement"@[0]);
    assert("class_declaration"@.len() != "interface_declaration"@.len());
    assert("class_declaration"@.len() != "enum_declaration"@.len());
    assert("class_declaration"@.len() != "function_declaration"@.len());
    assert("class_declaration"@.len() != "generator_function"@.len());
    assert("class_declaration"@.len() != "arrow_function"@.len());
    assert("class_declaration"@.len() != "import_statement"@.len());
    assert("class_declaration"@.len() != "call_expression"@.len());
    assert("interface_declaration"@.len() != "enum_declaration"@.len());
    assert("interface_declaration"@.len() != "function_declaration"@.len());
    assert("interface_declaration"@.len() != "generator_function"@.len());
    assert("interface_declaration"@.len() != "method_definition"@.len());
    assert("interface_declaration"@.len() != "arrow_function"@.len());
    assert("interface_declaration"@.len() != "import_statement"@.len());
    assert("interface_declaration"@.len() != "call_expression"@.len());
    assert("enum_declaration"@.len() != "function_declaration"@.len());
    assert("enum_declaration"@.len() != "generator_function"@.len());
    assert("enum_declaration"@.len() != "method_definition"@.len());
    assert("enum_declaration"@.len() != "arrow_function"@.len());
    assert("enum_declaration"@.len() != "call_expression"@.len());
    assert("function_declaration"@.len() != "generator_function"@.len());
    assert("function_declaration"@.len() != "method_definition"@.len());
    assert("function_declaration"@.len() != "arrow_function"@.len());
    assert("function_declaration"@.len() != "import_statement"@.len());
    assert("function_declaration"@.len() != "call_expression"@.len());
    assert("generator_function"@.len() != "method_definition"@.len());
    assert("generator_function"@.len() != "arrow_function"@.len());
    assert("generator_function"@.len() != "import_statement"@.len());
    assert("generator_function"@.len() != "call_expression"@.len());
    assert("method_definition"@.len() != "arrow_function"@.len());
    assert("method_definition"@.len() != "import_statement"@.len());
    assert("method_definition"@.len() != "call_expression"@.len());
    assert("arrow_function"@.len() != "import_statement"@.len());
    assert("arrow_function"@.len() != "call_expression"@.len());
    assert("import_statement"@.len() != "call_expression"@.len());
}

/// Law: what a node of a C# tree contributes: a class, interface, struct, record or enum
/// declaration gives its name as a class; a method, constructor or destructor gives its name
/// as a function; a `using` directive gives the target of its text; other nodes give nothing.
pub proof fn law_cs_items(node: SyntaxNode, parent: Option<SyntaxNode>, src: Seq<char>)
    ensures
        ({
            let k = node.kind@;
            let item = item_of(Dialect::CSharp, node, parent, src);
            let class_kind = k == "class_declaration"@ || k == "interface_declaration"@ || k
                == "struct_declaration"@ || k == "record_declaration"@ || k == "enum_declaration"@;
            let fn_kind = k == "method_declaration"@ || k == "constructor_declaration"@ || k
                == "destructor_declaration"@;
            &&& class_kind ==> item == in_bucket(Bucket::Classes, name_text_of(node, src))
            &&& fn_kind ==> item == in_bucket(Bucket::Functions, name_text_of(node, src))
            &&& k == "using_directive"@ ==> item == match node_text_of(node, src) {
                Some(t) => in_bucket(Bucket::Imports, using_target(t)),
                None => None,
            }
            &&& !class_kind && !fn_kind && k != "using_directive"@ ==> item is None
        }),
{
    reveal_strlit("class_declaration");
    reveal_strlit("interface_declaration");
    reveal_strlit("struct_declaration");
    reveal_strlit("record_declaration");
    reveal_strlit("enum_declaration");
    reveal_strlit("method_declaration");
    reveal_strlit("constructor_declaration");
    reveal_strlit("destructor_declaration");
    reveal_strlit("using_directive");
    reveal_strlit("name");
    assert("struct_declaration"@[0] != "record_declaration"@[0]);
    assert("struct_declaration"@[0] != "method_declaration"@[0]);
    assert("record_declaration"@[0] != "method_declaration"@[0]);
    assert("class_declaration"@.len() != "interface_declaration"@.len());
    assert("class_declaration"@.len() != "struct_declaration"@.len());
    assert("class_declaration"@.len() != "record_declaration"@.len());
    assert("class_declaration"@.len() != "enum_declaration"@.len());
    assert("class_declaration"@.len() != "method_declaration"@.len());
    assert("class_declaration"@.len() != "constructor_declaration"@.len());
    assert("class_declaration"@.len() != "destructor_declaration"@.len());
    assert("class_declaration"@.len() != "using_directive"@.len());
    assert("interface_declaration"@.len() != "struct_declaration"@.len());
    assert("interface_declaration"@.len() != "record_declaration"@.len());
    assert("interface_declaration"@.len() != "enum_declaration"@.len());
    assert("interface_declaration"@.len() != "method_declaration"@.len());
    assert("interface_declaration"@.len() != "constructor_declaration"@.len());
    assert("interface_declaration"@.len() != "destructor_declaration"@.len());
    assert("interface_declaration"@.len() != "using_directive"@.len());
    assert("struct_declaration"@.len() != "enum_declaration"@.len());
    assert("struct_declaration"@.len() != "constructor_declaration"@.len());
    assert("struct_declaration"@.len() != "destructor_declaration"@.len());
    assert("struct_declaration"@.len() != "using_directive"@.len());
    assert("record_declaration"@.len() != "enum_declaration"@.len());
    assert("record_declaration"@.len() != "constructor_declaration"@.len());
    assert("record_declaration"@.len() != "destructor_declaration"@.len());
    assert("record_declaration"@.len() != "using_directive"@.len());
    assert("enum_declaration"@.len() != "method_declaration"@.len());
    assert("enum_declaration"@.len() != "constructor_declaration"@.len());
    assert("enum_declaration"@.len() != "destructor_declaration"@.len());
    assert("enum_declaration"@.len() != "using_directive"@.len());
    assert("method_declaration"@.len() != "constructor_declaration"@.len());
    assert("method_declaration"@.len() != "destructor_declaration"@.len());
    assert("method_declaration"@.len() != "using_directive"@.len());
    assert("constructor_declaration"@.len() != "destructor_declaration"@.len());
    assert("constructor_declaration"@.len() != "using_directive"@.len());
    assert("destructor_declaration"@.len() != "using_directive"@.len());
}

// ---------------------------------------------------------------- exec

/// The contents of a string-literal node, without surrounding quote characters.
pub fn string_literal_contents(node: &SyntaxNode, source: &str) -> (r: Option<String>)
    ensures
        opt_string_view(r) == literal_of(*node, source@),
{
    if str_eq(node.kind.as_str(), "string") || str_eq(node.kind.as_str(), "string_literal") {
        match node_text(node, source) {
            Some(t) => Some(String::from_str(trim_str_by(t.as_str(), CharClass::Quote))),
            None => None,
        }
    } else {
        None
    }
}

/// The contents of the first string literal among the children of `node`.
fn first_string_literal(node: &SyntaxNode, source: &str) -> (r: Option<String>)
    ensures
        opt_string_view(r) == first_literal_from(node.children@, source@, 0),
{
    let n = node.children.len();
    let mut i: usize = 0;
    while i < n
        invariant
            i <= n == node.children@.len(),
            first_literal_from(node.children@, source@, 0) == first_literal_from(
                node.children@,
                source@,
                i as int,
            ),
        decreases n - i,
    {
        match string_literal_contents(&node.children[i].node, source) {
            Some(t) => {
                return Some(t);
            },
            None => {},
        }
        i = i + 1;
    }
    None
}

/// The namespace or type named by the text of a C# `using` directive.
pub fn using_clause_target(text: &str) -> (r: Option<String>)
    ensures
        opt_string_view(r) == using_target(text@),
{
    let a = trim_str(text);
    if !starts_with(a, "using") {
        return None;
    }
    let ca = chars_of(a);
    let using_len = chars_of("using").len();
    let rest0 = trim_str(a.substring_char(using_len, ca.len()));
    assert(a@.subrange(using_len as int, ca@.len() as int) =~= a@.skip("using"@.len() as int));
    let rest1 = if starts_with(rest0, "static") {
        let cr = chars_of(rest0);
        let static_len = chars_of("static").len();
        assert(rest0@.subrange(static_len as int, cr@.len() as int) =~= rest0@.skip(
            "static"@.len() as int,
        ));
        trim_str(rest0.substring_char(static_len, cr.len()))
    } else {
        rest0
    };
    let rest2 = trim_str(trim_end_str_by(rest1, CharClass::Semicolon));
    let c2 = chars_of(rest2);
    if c2.len() == 0 {
        return None;
    }
    match first_index(&c2, '=') {
        Some(k) => {
            let l = c2.len();
            let rhs = rest2.substring_char(k + 1, l);
            assert(rest2@.subrange(k + 1, l as int) =~= rest2@.skip(k + 1));
            Some(String::from_str(trim_str(rhs)))
        },
        None => Some(String::from_str(rest2)),
    }
}

/// The namespace or type that a C# `using_directive` node imports.
pub fn csharp_using_clause(node: &SyntaxNode, source: &str) -> (r: Option<String>)
    ensures
        opt_string_view(r) == match node_text_of(*node, source@) {
            Some(t) => using_target(t),
            None => None,
        },
{
    match node_text(node, source) {
        Some(t) => using_clause_target(t.as_str()),
        None => None,
    }
}

/// The text of the `name` field of `node`.
fn name_text(node: &SyntaxNode, source: &str) -> (r: Option<String>)
    ensures
        opt_string_view(r) == name_of(*node, source@),
{
    match child_by_field_name(node, "name") {
        Some(n) => node_text(n, source),
        None => None,
    }
}

/// The tagged view of an item.
pub open spec fn item_view(r: Option<(Bucket, String)>) -> Option<(Bucket, Seq<char>)> {
    match r {
        Some((b, s)) => Some((b, s@)),
        None => None,
    }
}

fn tag(b: Bucket, o: Option<String>) -> (r: Option<(Bucket, String)>)
    ensures
        item_view(r) == tagged(b, opt_string_view(o)),
{
    match o {
        Some(s) => Some((b, s)),
        None => None,
    }
}

fn ts_item(node: &SyntaxNode, parent: Option<&SyntaxNode>, source: &str) -> (r: Option<
    (Bucket, String),
>)
    ensures
        item_view(r) == ts_item_of(*node, deref_opt(parent), source@),
{
    let k = node.kind.as_str();
    if str_eq(k, "class_declaration") || str_eq(k, "interface_declaration") || str_eq(
        k,
        "enum_declaration",
    ) {
        tag(Bucket::Classes, name_text(node, source))
    } else if str_eq(k, "function_declaration") || str_eq(k, "generator_function") || str_eq(
        k,
        "method_definition",
    ) {
        tag(Bucket::Functions, name_text(node, source))
    } else if str_eq(k, "arrow_function") {
        match parent {
            Some(p) => if str_eq(p.kind.as_str(), "variable_declarator") {
                tag(Bucket::Functions, name_text(p, source))
            } else {
                None
            },
            None => None,
        }
    } else if str_eq(k, "import_statement") {
        match child_by_field_name(node, "source") {
            Some(s) => tag(Bucket::Imports, string_literal_contents(s, source)),
            None => None,
        }
    } else if str_eq(k, "call_expression") {
        match child_by_field_name(node, "function") {
            Some(f) => {
                let is_require = str_eq(f.kind.as_str(), "identifier") && match node_text(
                    f,
                    source,
                ) {
                    Some(t) => str_eq(t.as_str(), "require"),
                    None => false,
                };
                if is_require {
                    match child_by_field_name(node, "arguments") {
                        Some(args) => tag(Bucket::Imports, first_string_literal(args, source)),
                        None => None,
                    }
                } else {
                    None
                }
            },
            None => None,
        }
    } else {
        None
    }
}

fn cs_item(node: &SyntaxNode, source: &str) -> (r: Option<(Bucket, String)>)
    ensures
        item_view(r) == cs_item_of(*node, source@),
{
    let k = node.kind.as_str();
    if str_eq(k, "class_declaration") || str_eq(k, "interface_declaration") || str_eq(
        k,
        "struct_declaration",
    ) || str_eq(k, "record_declaration") || str_eq(k, "enum_declaration") {
        tag(Bucket::Classes, name_text(node, source))
    } else if str_eq(k, "method_declaration") || str_eq(k, "constructor_declaration") || str_eq(
        k,
        "destructor_declaration",
    ) {
        tag(Bucket::Functions, name_text(node, source))
    } else if str_eq(k, "using_directive") {
        tag(Bucket::Imports, csharp_using_clause(node, source))
    } else {
        None
    }
}

fn node_item(d: Dialect, node: &SyntaxNode, parent: Option<&SyntaxNode>, source: &str) -> (r:
    Option<(Bucket, String)>)
    ensures
        item_view(r) == item_of(d, *node, deref_opt(parent), source@),
{
    match d {
        Dialect::TypeScript => ts_item(node, parent, source),
        Dialect::CSharp => cs_item(node, source),
    }
}

proof fn lemma_stack_push(d: Dialect, b: Bucket, s: Seq<Frame>, f: Frame, src: Seq<char>)
    ensures
        stack_out(d, b, s.push(f), src) == collect(d, b, *f.0, deref_opt(f.1), src) + stack_out(
            d,
            b,
            s,
            src,
        ),
        stack_size(s.push(f)) == tree_size(*f.0) + stack_size(s),
{
    assert(s.push(f).drop_last() =~= s);
}

/// The class-like names, function names and import specifiers of the tree under `root`, read
/// the way dialect `d` names them.
#[verifier::spinoff_prover]
#[verifier::rlimit(40)]
pub fn extract(d: Dialect, root: &SyntaxNode, source: &str) -> (r: (
    Vec<String>,
    Vec<String>,
    Vec<String>,
))
    ensures
        views(r.0@) == collect(d, Bucket::Classes, *root, None, source@),
        views(r.1@) == collect(d, Bucket::Functions, *root, None, source@),
        views(r.2@) == collect(d, Bucket::Imports, *root, None, source@),
{
    let mut classes: Vec<String> = Vec::new();
    let mut functions: Vec<String> = Vec::new();
    let mut imports: Vec<String> = Vec::new();
    let mut stack: Vec<Frame> = Vec::new();
    let ghost src = source@;
    proof {
        lemma_stack_push(d, Bucket::Classes, stack@, (root, None), src);
        lemma_stack_push(d, Bucket::Functions, stack@, (root, None), src);
        lemma_stack_push(d, Bucket::Imports, stack@, (root, None), src);
    }
    stack.push((root, None));
    assert(views(classes@) =~= Seq::empty());
    assert(views(functions@) =~= Seq::empty());
    assert(views(imports@) =~= Seq::empty());
    while stack.len() > 0
        invariant
            src == source@,
            views(classes@) + stack_out(d, Bucket::Classes, stack@, src) == collect(
                d,
                Bucket::Classes,
                *root,
                None,
                src,
            ),
            views(functions@) + stack_out(d, Bucket::Functions, stack@, src) == collect(
                d,
                Bucket::Functions,
                *root,
                None,
                src,
            ),
            views(imports@) + stack_out(d, Bucket::Imports, stack@, src) == collect(
                d,
                Bucket::Imports,
                *root,
                None,
                src,
            ),
        decreases stack_size(stack@),
    {
        let ghost before = stack@;
        let top = stack.pop();
        let (node, parent) = match top {
            Some(f) => f,
            None => {
                return (classes, functions, imports);
            },
        };
        let ghost rest = stack@;
        assert(before.drop_last() == rest);
        assert(before.last() == (node, parent));
        let item = node_item(d, node, parent, source);
        let ghost c0 = views(classes@);
        let ghost f0 = views(functions@);
        let ghost i0 = views(imports@);
        match item {
            Some((Bucket::Classes, s)) => {
                classes.push(s);
            },
            Some((Bucket::Functions, s)) => {
                functions.push(s);
            },
            Some((Bucket::Imports, s)) => {
                imports.push(s);
            },
            None => {},
        }
        assert(views(classes@) =~= c0 + emit(d, Bucket::Classes, *node, deref_opt(parent), src));
        assert(views(functions@) =~= f0 + emit(
            d,
            Bucket::Functions,
            *node,
            deref_opt(parent),
            src,
        ));
        assert(views(imports@) =~= i0 + emit(d, Bucket::Imports, *node, deref_opt(parent), src));
        let n = node.children.len();
        let mut i: usize = 0;
        while i < n
            invariant
                i <= n == node.children@.len(),
                src == source@,
                forall|b: Bucket|
                    #![trigger stack_out(d, b, stack@, src)]
                    stack_out(d, b, stack@, src) == collect_children(d, b, *node, i as int, src)
                        + stack_out(d, b, rest, src),
                stack_size(stack@) == children_size(*node, i as int) + stack_size(rest),
            decreases n - i,
        {
            let f: Frame = (&node.children[i].node, Some(node));
            proof {
                assert forall|b: Bucket|
                    #![trigger stack_out(d, b, stack@.push(f), src)]
                    stack_out(d, b, stack@.push(f), src) == collect_children(
                        d,
                        b,
                        *node,
                        i + 1,
                        src,
                    ) + stack_out(d, b, rest, src) by {
                    lemma_stack_push(d, b, stack@, f, src);
                }
                lemma_stack_push(d, Bucket::Classes, stack@, f, src);
            }
            stack.push(f);
            i = i + 1;
        }
        assert(stack_out(d, Bucket::Classes, stack@, src) == collect_children(
            d,
            Bucket::Classes,
            *node,
            n as int,
            src,
        ) + stack_out(d, Bucket::Classes, rest, src));
        assert(stack_out(d, Bucket::Functions, stack@, src) == collect_children(
            d,
            Bucket::Functions,
            *node,
            n as int,
            src,
        ) + stack_out(d, Bucket::Functions, rest, src));
        assert(stack_out(d, Bucket::Imports, stack@, src) == collect_children(
            d,
            Bucket::Imports,
            *node,
            n as int,
            src,
        ) + stack_out(d, Bucket::Imports, rest, src));
        assert(views(classes@) + stack_out(d, Bucket::Classes, stack@, src) =~= c0 + stack_out(
            d,
            Bucket::Classes,
            before,
            src,
        ));
        assert(views(functions@) + stack_out(d, Bucket::Functions, stack@, src) =~= f0
            + stack_out(d, Bucket::Functions, before, src));
        assert(views(imports@) + stack_out(d, Bucket::Imports, stack@, src) =~= i0 + stack_out(
            d,
            Bucket::Imports,
            before,
            src,
        ));
    }
    assert(views(classes@) =~= collect(d, Bucket::Classes, *root, None, src));
    assert(views(functions@) =~= collect(d, Bucket::Functions, *root, None, src));
    assert(views(imports@) =~= collect(d, Bucket::Imports, *root, None, src));
    (classes, functions, imports)
}

/// The classes (with interfaces and enums), functions (with methods and arrow functions bound
/// to a variable) and imports (`import ... from` sources and `require` arguments) of a
/// TypeScript, TSX or JavaScript tree.
pub fn extract_ts_like(root: &SyntaxNode, source: &str) -> (r: (Vec<String>, Vec<String>, Vec<String>))
    ensures
        views(r.0@) == collect(Dialect::TypeScript, Bucket::Classes, *root, None, source@),
        views(r.1@) == collect(Dialect::TypeScript, Bucket::Functions, *root, None, source@),
        views(r.2@) == collect(Dialect::TypeScript, Bucket::Imports, *root, None, source@),
{
    extract(Dialect::TypeScript, root, source)
}

/// The type declarations (classes, interfaces, structs, records, enums), methods (with
/// constructors and destructors) and `using` targets of a C# tree.
pub fn extract_csharp(root: &SyntaxNode, source: &str) -> (r: (Vec<String>, Vec<String>, Vec<String>))
    ensures
        views(r.0@) == collect(Dialect::CSharp, Bucket::Classes, *root, None, source@),
        views(r.1@) == collect(Dialect::CSharp, Bucket::Functions, *root, None, source@),
        views(r.2@) == collect(Dialect::CSharp, Bucket::Imports, *root, None, source@),
{
    extract(Dialect::CSharp, root, source)
}

} // verus!
