//! The tree-sitter grammars and parser: loading the grammars, parsing source text, and
//! copying the resulting tree into a [`SyntaxNode`].
//!
//! What tree-sitter computes is named, not restated: whether a parser accepts a grammar, and
//! for the parse of a text under a grammar, the number of its nodes and, for the node at each
//! pre-order position, its kind, byte range, field name, number of children and subtree size.
//! Each is a function of the grammar and the text alone. The copy into a [`SyntaxNode`] is
//! verified against these names.

use vstd::prelude::*;
use tree_sitter::{LanguageError, Parser, Tree};
use crate::syntax::{opt_string_view, same_tree, SyntaxChild, SyntaxNode};
use crate::text::str_eq;

verus! {

broadcast use vstd::string::group_string_axioms;

/// `tree_sitter::LanguageError`, why a parser refused a grammar, opaque to proofs.
#[verifier::external_type_specification]
#[verifier::external_body]
pub struct ExLanguageError(LanguageError);

/// `tree_sitter::Parser`, opaque to proofs.
#[verifier::external_type_specification]
#[verifier::external_body]
pub struct ExParser(Parser);

/// `tree_sitter::Tree`, a parsed syntax tree, opaque to proofs.
#[verifier::external_type_specification]
#[verifier::external_body]
pub struct ExTree(Tree);

/// The grammars the parser knows. JavaScript is parsed with the TypeScript grammar (accurate
/// for most `.js`); it is listed on its own because loading checks it on its own.
#[derive(Clone, Copy, PartialEq, Eq, Debug, Structural)]
pub enum Grammar {
    TypeScript,
    Tsx,
    JavaScript,
    CSharp,
}

/// The grammar file that `g` loads: JavaScript loads the TypeScript grammar, every other
/// grammar its own.
pub open spec fn grammar_file(g: Grammar) -> Grammar {
    if g == Grammar::JavaScript {
        Grammar::TypeScript
    } else {
        g
    }
}

/// Whether `Parser::set_language` accepts the grammar file `g` (its ABI version is supported
/// and it is parseable).
pub uninterp spec fn grammar_accepted(g: Grammar) -> bool;


/// Kind of the `i`-th node, in pre-order, of the parse of `src` under `g`.
pub uninterp spec fn parsed_kind(g: Grammar, src: Seq<char>, i: nat) -> Seq<char>;

/// First byte of the `i`-th node of the parse of `src` under `g`.
pub uninterp spec fn parsed_start(g: Grammar, src: Seq<char>, i: nat) -> nat;

/// Byte just past the `i`-th node of the parse of `src` under `g`.
pub uninterp spec fn parsed_end(g: Grammar, src: Seq<char>, i: nat) -> nat;

/// Field name under which its parent holds the `i`-th node of the parse of `src` under `g`.
pub uninterp spec fn parsed_field(g: Grammar, src: Seq<char>, i: nat) -> Option<Seq<char>>;

/// Number of children of the `i`-th node of the parse of `src` under `g`.
pub uninterp spec fn parsed_child_count(g: Grammar, src: Seq<char>, i: nat) -> nat;

/// Number of nodes in the subtree of the `i`-th node of the parse of `src` under `g`.
pub uninterp spec fn parsed_size(g: Grammar, src: Seq<char>, i: nat) -> nat;

/// Number of nodes (named and anonymous) of the parse of `src` under `g`: the size of the
/// subtree of the root, the node at position 0.
pub open spec fn parse_node_count(g: Grammar, src: Seq<char>) -> nat {
    parsed_size(g, src, 0)
}

/// A parser with grammar `grammar` set. Only [`grammar_parser`] makes one.
pub struct GrammarParser {
    parser: Parser,
    grammar: Grammar,
}

impl GrammarParser {
    /// The grammar set on this parser.
    pub closed spec fn grammar(&self) -> Grammar {
        self.grammar
    }
}

/// The tree-sitter parse of a text under a grammar, with the grammar and the text.
pub struct ParsedTree {
    tree: Tree,
    grammar: Grammar,
    source: String,
}

impl View for ParsedTree {
    type V = (Grammar, Seq<char>);

    closed spec fn view(&self) -> (Grammar, Seq<char>) {
        (grammar_file(self.grammar), self.source@)
    }
}

/// `Parser::new` followed by `Parser::set_language` with the grammar's `Language` (the
/// `LANGUAGE_TYPESCRIPT`, `LANGUAGE_TSX` or `LANGUAGE` constant of the grammar crates; the
/// TypeScript one for JavaScript). Claims that it succeeds exactly when the parser accepts that
/// grammar file, which `set_language` decides from the grammar alone.
#[verifier::external_body]
fn grammar_parser(g: Grammar) -> (r: Result<GrammarParser, LanguageError>)
    ensures
        r is Ok <==> grammar_accepted(grammar_file(g)),
        r matches Ok(p) ==> p.grammar() == g,
{
    let language: tree_sitter::Language = match g {
        Grammar::TypeScript | Grammar::JavaScript => tree_sitter_typescript::LANGUAGE_TYPESCRIPT.into(),
        Grammar::Tsx => tree_sitter_typescript::LANGUAGE_TSX.into(),
        Grammar::CSharp => tree_sitter_c_sharp::LANGUAGE.into(),
    };
    let mut parser = Parser::new();
    parser.set_language(&language)?;
    Ok(GrammarParser { parser, grammar: g })
}

/// `Parser::parse` of `source` with no previous tree. Claims a tree always comes back: the
/// parser has a language set (see [`grammar_parser`]) and no timeout or cancellation, the only
/// other causes of `None`. The tree is the parse of `source` under the parser's grammar file.
#[verifier::external_body]
fn parse_text(parser: &mut GrammarParser, source: &str) -> (r: Option<ParsedTree>)
    ensures
        final(parser).grammar() == old(parser).grammar(),
        r matches Some(t) && t@ == (grammar_file(old(parser).grammar()), source@),
{
    let tree = parser.parser.parse(source, None)?;
    Some(ParsedTree { tree, grammar: parser.grammar, source: source.to_string() })
}

/// `Node::kind` of the `i`-th node (reached with `TreeCursor::goto_descendant`).
#[verifier::external_body]
fn node_kind(t: &ParsedTree, i: usize) -> (r: String)
    requires
        i < parse_node_count(t@.0, t@.1),
        i <= u32::MAX,
    ensures
        r@ == parsed_kind(t@.0, t@.1, i as nat),
{
    let mut c = t.tree.walk();
    c.goto_descendant(i);
    c.node().kind().to_string()
}

/// `Node::start_byte` of the `i`-th node.
#[verifier::external_body]
fn node_start_byte(t: &ParsedTree, i: usize) -> (r: usize)
    requires
        i < parse_node_count(t@.0, t@.1),
        i <= u32::MAX,
    ensures
        r as nat == parsed_start(t@.0, t@.1, i as nat),
{
    let mut c = t.tree.walk();
    c.goto_descendant(i);
    c.node().start_byte()
}

/// `Node::end_byte` of the `i`-th node.
#[verifier::external_body]
fn node_end_byte(t: &ParsedTree, i: usize) -> (r: usize)
    requires
        i < parse_node_count(t@.0, t@.1),
        i <= u32::MAX,
    ensures
        r as nat == parsed_end(t@.0, t@.1, i as nat),
{
    let mut c = t.tree.walk();
    c.goto_descendant(i);
    c.node().end_byte()
}

/// `TreeCursor::field_name` at the `i`-th node: the field under which its parent holds it.
#[verifier::external_body]
fn node_field_name(t: &ParsedTree, i: usize) -> (r: Option<String>)
    requires
        i < parse_node_count(t@.0, t@.1),
        i <= u32::MAX,
    ensures
        opt_string_view(r) == parsed_field(t@.0, t@.1, i as nat),
{
    let mut c = t.tree.walk();
    c.goto_descendant(i);
    c.field_name().map(String::from)
}

/// `Node::child_count` of the `i`-th node.
#[verifier::external_body]
fn node_child_count(t: &ParsedTree, i: usize) -> (r: u32)
    requires
        i < parse_node_count(t@.0, t@.1),
        i <= u32::MAX,
    ensures
        r as nat == parsed_child_count(t@.0, t@.1, i as nat),
{
    let mut c = t.tree.walk();
    c.goto_descendant(i);
    c.node().child_count()
}

/// `Node::descendant_count` of the `i`-th node (the root for `i == 0`): the size of its
/// subtree, which tree-sitter counts in a `u32`.
#[verifier::external_body]
fn node_subtree_size(t: &ParsedTree, i: usize) -> (r: usize)
    requires
        i == 0 || i < parse_node_count(t@.0, t@.1),
        i <= u32::MAX,
    ensures
        r as nat == parsed_size(t@.0, t@.1, i as nat),
        r <= u32::MAX,
{
    let mut c = t.tree.walk();
    c.goto_descendant(i);
    c.node().descendant_count()
}

/// Pre-order position of the `k`-th child of the node at position `i`: the first child comes
/// right after its parent, each later child right after the subtree of the one before.
pub open spec fn child_position(g: Grammar, src: Seq<char>, i: nat, k: nat) -> nat
    decreases k,
{
    if k == 0 {
        i + 1
    } else {
        let p = child_position(g, src, i, (k - 1) as nat);
        p + parsed_size(g, src, p)
    }
}

proof fn lemma_child_position_after(g: Grammar, src: Seq<char>, i: nat, k: nat)
    ensures
        child_position(g, src, i, k) > i,
    decreases k,
{
    if k > 0 {
        lemma_child_position_after(g, src, i, (k - 1) as nat);
    }
}

/// `n` is the node at pre-order position `i` of the parse of `src` under `g`, with its whole
/// subtree: kind, byte range, children in order with their field names.
pub open spec fn matches_parse(n: SyntaxNode, g: Grammar, src: Seq<char>, i: nat) -> bool
    decreases parse_node_count(g, src) - i,
{
    &&& i < parse_node_count(g, src)
    &&& n.kind@ == parsed_kind(g, src, i)
    &&& n.start_byte == parsed_start(g, src, i)
    &&& n.end_byte == parsed_end(g, src, i)
    &&& n.children@.len() == parsed_child_count(g, src, i)
    &&& forall|k: int|
        #![trigger n.children@[k]]
        0 <= k < n.children@.len() ==> {
            let j = child_position(g, src, i, k as nat);
            &&& opt_string_view(n.children@[k].field) == parsed_field(g, src, j)
            &&& i < j < parse_node_count(g, src)
            &&& matches_parse(n.children@[k].node, g, src, j)
        }
}

/// The parse of `src` under `g` reports a consistent tree: some [`SyntaxNode`] is its copy.
pub open spec fn parse_consistent(g: Grammar, src: Seq<char>) -> bool {
    exists|n: SyntaxNode| matches_parse(n, g, src, 0)
}

/// The copy of the parse of `src` under `g`, when the parse reports a consistent tree.
pub open spec fn parsed_syntax(g: Grammar, src: Seq<char>) -> SyntaxNode {
    choose|n: SyntaxNode| matches_parse(n, g, src, 0)
}

/// Two copies of the same parse node are the same tree.
pub proof fn lemma_parse_unique(a: SyntaxNode, b: SyntaxNode, g: Grammar, src: Seq<char>, i: nat)
    requires
        matches_parse(a, g, src, i),
        matches_parse(b, g, src, i),
    ensures
        same_tree(a, b),
    decreases parse_node_count(g, src) - i,
{
    assert forall|k: int|
        #![trigger a.children@[k]]
        0 <= k < a.children@.len() implies opt_string_view(a.children@[k].field) == opt_string_view(
            b.children@[k].field,
        ) && same_tree(a.children@[k].node, b.children@[k].node) by {
        assert(b.children@[k] == b.children@[k]);
        let j = child_position(g, src, i, k as nat);
        lemma_parse_unique(a.children@[k].node, b.children@[k].node, g, src, j);
    }
}

/// A copy of the node at position `i` of `t` with its subtree; `None` when the positions that
/// tree-sitter reports do not describe a tree.
fn copy_node(t: &ParsedTree, i: usize, count: usize) -> (r: Option<SyntaxNode>)
    requires
        count == parse_node_count(t@.0, t@.1),
        i < count,
        count <= u32::MAX,
    ensures
        r matches Some(n) ==> matches_parse(n, t@.0, t@.1, i as nat),
        r is None ==> forall|n: SyntaxNode| !matches_parse(n, t@.0, t@.1, i as nat),
    decreases count - i,
{
    let ghost g = t@.0;
    let ghost src = t@.1;
    let kind = node_kind(t, i);
    let start_byte = node_start_byte(t, i);
    let end_byte = node_end_byte(t, i);
    let nc = node_child_count(t, i);
    let mut children: Vec<SyntaxChild> = Vec::new();
    let mut j: usize = i + 1;
    let mut k: u32 = 0;
    while k < nc
        invariant
            count == parse_node_count(g, src),
            count <= u32::MAX,
            i < count,
            t@ == (g, src),
            nc as nat == parsed_child_count(g, src, i as nat),
            k <= nc,
            children@.len() == k,
            k < nc ==> j as nat == child_position(g, src, i as nat, k as nat),
            forall|m: int|
                #![trigger children@[m]]
                0 <= m < k ==> {
                    let p = child_position(g, src, i as nat, m as nat);
                    &&& opt_string_view(children@[m].field) == parsed_field(g, src, p)
                    &&& i < p < count
                    &&& matches_parse(children@[m].node, g, src, p)
                },
        decreases nc - k,
    {
        proof {
            lemma_child_position_after(g, src, i as nat, k as nat);
        }
        if j >= count {
            proof {
                assert forall|n: SyntaxNode| !matches_parse(n, g, src, i as nat) by {
                    if matches_parse(n, g, src, i as nat) {
                        assert(n.children@.len() == nc);
                        assert(0 <= k < n.children@.len());
                        let c = n.children@[k as int];
                        assert(child_position(g, src, i as nat, k as nat) < count);
                    }
                }
            }
            return None;
        }
        let field = node_field_name(t, j);
        let node = match copy_node(t, j, count) {
            Some(c) => c,
            None => {
                proof {
                    assert forall|n: SyntaxNode| !matches_parse(n, g, src, i as nat) by {
                        if matches_parse(n, g, src, i as nat) {
                            assert(n.children@.len() == nc);
                            let c = n.children@[k as int];
                            assert(matches_parse(c.node, g, src, j as nat));
                        }
                    }
                }
                return None;
            },
        };
        let size = node_subtree_size(t, j);
        let ghost before = children@;
        children.push(SyntaxChild { field, node });
        assert(children@[k as int] == SyntaxChild { field, node });
        assert forall|m: int|
            #![trigger children@[m]]
            0 <= m < k + 1 implies {
                let p = child_position(g, src, i as nat, m as nat);
                &&& opt_string_view(children@[m].field) == parsed_field(g, src, p)
                &&& i < p < count
                &&& matches_parse(children@[m].node, g, src, p)
            } by {
            if m < k {
                assert(children@[m] == before[m]);
            }
        }
        if k + 1 < nc {
            if size >= count - j {
                proof {
                    assert(child_position(g, src, i as nat, (k + 1) as nat) == j + size);
                    assert forall|n: SyntaxNode| !matches_parse(n, g, src, i as nat) by {
                        if matches_parse(n, g, src, i as nat) {
                            assert(n.children@.len() == nc);
                            let c = n.children@[k + 1];
                            assert(child_position(g, src, i as nat, (k + 1) as nat) < count);
                        }
                    }
                }
                return None;
            }
            j = j + size;
        }
        k = k + 1;
    }
    let n = SyntaxNode { kind, start_byte, end_byte, children };
    assert(matches_parse(n, g, src, i as nat));
    Some(n)
}

/// A copy of `t` as a [`SyntaxNode`]; `None` when the parse reports no consistent tree.
pub fn syntax_tree(t: &ParsedTree) -> (r: Option<SyntaxNode>)
    ensures
        r matches Some(n) ==> matches_parse(n, t@.0, t@.1, 0),
        r is None <==> !parse_consistent(t@.0, t@.1),
{
    let count = node_subtree_size(t, 0);
    if count == 0 {
        return None;
    }
    let r = copy_node(t, 0, count);
    proof {
        if r is Some {
            assert(matches_parse(r->0, t@.0, t@.1, 0));
        }
    }
    r
}

/// Why source text could not be turned into a syntax tree.
#[derive(Debug)]
pub enum TreeError {
    /// The parser refused the grammar.
    Language(LanguageError),
    /// The parse reported no consistent tree.
    NoTree,
}

/// The syntax tree of `source` under grammar `g`: a copy of tree-sitter's parse with the
/// grammar file that `g` loads.
pub fn parse_source(g: Grammar, source: &str) -> (r: Result<SyntaxNode, TreeError>)
    ensures
        r matches Err(TreeError::Language(_)) <==> !grammar_accepted(grammar_file(g)),
        grammar_accepted(grammar_file(g)) ==> (r is Ok <==> parse_consistent(
            grammar_file(g),
            source@,
        )),
        r matches Ok(n) ==> matches_parse(n, grammar_file(g), source@, 0) && same_tree(
            n,
            parsed_syntax(grammar_file(g), source@),
        ),
{
    let mut parser = match grammar_parser(g) {
        Ok(p) => p,
        Err(e) => {
            return Err(TreeError::Language(e));
        },
    };
    let tree = match parse_text(&mut parser, source) {
        Some(t) => t,
        None => {
            return Err(TreeError::NoTree);
        },
    };
    match syntax_tree(&tree) {
        Some(n) => {
            proof {
                lemma_parse_unique(
                    n,
                    parsed_syntax(grammar_file(g), source@),
                    grammar_file(g),
                    source@,
                    0,
                );
            }
            Ok(n)
        },
        None => Err(TreeError::NoTree),
    }
}

/// A grammar that the parser refused, and why.
#[derive(Debug)]
pub struct GrammarError {
    pub grammar: Grammar,
    pub cause: LanguageError,
}

/// The parser accepts the TypeScript, TSX and C# grammar files (JavaScript loads the
/// TypeScript one).
pub open spec fn all_grammars_accepted() -> bool {
    &&& grammar_accepted(Grammar::TypeScript)
    &&& grammar_accepted(Grammar::Tsx)
    &&& grammar_accepted(Grammar::CSharp)
}

/// The first grammar refused when checking TypeScript, TSX, JavaScript, then C#; JavaScript,
/// which loads the TypeScript grammar, is never the first.
pub open spec fn first_refused() -> Grammar {
    if !grammar_accepted(Grammar::TypeScript) {
        Grammar::TypeScript
    } else if !grammar_accepted(Grammar::Tsx) {
        Grammar::Tsx
    } else {
        Grammar::CSharp
    }
}

/// The grammar used for a source extension: TypeScript for `ts` and `js`, TSX for `tsx`, C#
/// for `cs`.
pub open spec fn grammar_of_extension(ext: Seq<char>) -> Option<Grammar> {
    if ext == "ts"@ || ext == "js"@ {
        Some(Grammar::TypeScript)
    } else if ext == "tsx"@ {
        Some(Grammar::Tsx)
    } else if ext == "cs"@ {
        Some(Grammar::CSharp)
    } else {
        None
    }
}

/// The loaded grammars: a value exists only once the parser has accepted every grammar.
pub struct GrammarSet {
    loaded: (),
}

impl GrammarSet {
    /// A grammar set exists only when every grammar is accepted.
    #[verifier::type_invariant]
    pub open spec fn loaded_inv(self) -> bool {
        all_grammars_accepted()
    }

    /// Checks that a parser accepts each grammar, in the order TypeScript, TSX, JavaScript,
    /// C#; the first one refused is the error. JavaScript loads the TypeScript grammar, so this
    /// succeeds exactly when the TypeScript, TSX and C# grammars are accepted.
    pub fn new() -> (r: Result<GrammarSet, GrammarError>)
        ensures
            r is Ok <==> all_grammars_accepted(),
            r matches Err(e) ==> e.grammar == first_refused(),
    {
        if let Err(e) = grammar_parser(Grammar::TypeScript) {
            return Err(GrammarError { grammar: Grammar::TypeScript, cause: e });
        }
        if let Err(e) = grammar_parser(Grammar::Tsx) {
            return Err(GrammarError { grammar: Grammar::Tsx, cause: e });
        }
        if let Err(e) = grammar_parser(Grammar::JavaScript) {
            return Err(GrammarError { grammar: Grammar::JavaScript, cause: e });
        }
        if let Err(e) = grammar_parser(Grammar::CSharp) {
            return Err(GrammarError { grammar: Grammar::CSharp, cause: e });
        }
        Ok(GrammarSet { loaded: () })
    }

    /// The grammar for a source extension: `ts` and `js` use TypeScript, `tsx` uses TSX,
    /// `cs` uses C#; any other extension has none.
    pub fn language_for_extension(&self, ext: &str) -> (r: Option<Grammar>)
        ensures
            r == grammar_of_extension(ext@),
    {
        if str_eq(ext, "ts") || str_eq(ext, "js") {
            Some(Grammar::TypeScript)
        } else if str_eq(ext, "tsx") {
            Some(Grammar::Tsx)
        } else if str_eq(ext, "cs") {
            Some(Grammar::CSharp)
        } else {
            None
        }
    }
}

} // verus!
