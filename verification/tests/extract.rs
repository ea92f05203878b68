use backend::extract::{extract_csharp, extract_ts_like, string_literal_contents, using_clause_target};
use backend::grammar::{parse_source, Grammar, GrammarSet};
use backend::syntax::{child_by_field_name, node_text, SyntaxChild, SyntaxNode};

fn leaf(kind: &str, start: usize, end: usize) -> SyntaxNode {
    SyntaxNode { kind: kind.to_string(), start_byte: start, end_byte: end, children: Vec::new() }
}

#[test]
fn using_clause_targets() {
    assert_eq!(using_clause_target("using System;"), Some("System".to_string()));
    assert_eq!(using_clause_target("  using static System.Math ;  "), Some("System.Math".to_string()));
    assert_eq!(using_clause_target("using Alias = Foo.Bar;"), Some("Foo.Bar".to_string()));
    assert_eq!(using_clause_target("using System.Collections.Generic;;"), Some("System.Collections.Generic".to_string()));
    assert_eq!(using_clause_target("using ;"), None);
    assert_eq!(using_clause_target("using static;"), None);
    assert_eq!(using_clause_target("namespace X;"), None);
}

#[test]
fn string_literal_contents_strips_quotes() {
    let src = "x = 'a\"b';";
    let s = leaf("string", 4, 9);
    assert_eq!(string_literal_contents(&s, src), Some("a\"b".to_string()));
    let t = leaf("template_string", 4, 9);
    assert_eq!(string_literal_contents(&t, src), None);
    let out_of_range = leaf("string", 4, 40);
    assert_eq!(string_literal_contents(&out_of_range, src), None);
}

#[test]
fn node_text_respects_char_boundaries() {
    let src = "é=1";
    assert_eq!(node_text(&leaf("x", 0, 2), src), Some("é".to_string()));
    assert_eq!(node_text(&leaf("x", 0, 1), src), None);
    assert_eq!(node_text(&leaf("x", 2, 4), src), Some("=1".to_string()));
    assert_eq!(node_text(&leaf("x", 3, 2), src), None);
}

#[test]
fn child_by_field_name_finds_first_match() {
    let node = SyntaxNode {
        kind: "pair".to_string(),
        start_byte: 0,
        end_byte: 3,
        children: vec![
            SyntaxChild { field: None, node: leaf("a", 0, 1) },
            SyntaxChild { field: Some("name".to_string()), node: leaf("b", 1, 2) },
            SyntaxChild { field: Some("name".to_string()), node: leaf("c", 2, 3) },
        ],
    };
    assert_eq!(child_by_field_name(&node, "name").map(|n| n.kind.clone()), Some("b".to_string()));
    assert!(child_by_field_name(&node, "value").is_none());
}

#[test]
fn hand_built_require_call() {
    // require("fs") with the callee as an identifier and the string as the second argument child
    let src = "require(\"fs\")";
    let args = SyntaxNode {
        kind: "arguments".to_string(),
        start_byte: 7,
        end_byte: 13,
        children: vec![
            SyntaxChild { field: None, node: leaf("(", 7, 8) },
            SyntaxChild { field: None, node: leaf("string", 8, 12) },
            SyntaxChild { field: None, node: leaf(")", 12, 13) },
        ],
    };
    let call = SyntaxNode {
        kind: "call_expression".to_string(),
        start_byte: 0,
        end_byte: 13,
        children: vec![
            SyntaxChild { field: Some("function".to_string()), node: leaf("identifier", 0, 7) },
            SyntaxChild { field: Some("arguments".to_string()), node: args },
        ],
    };
    let (classes, functions, imports) = extract_ts_like(&call, src);
    assert!(classes.is_empty());
    assert!(functions.is_empty());
    assert_eq!(imports, vec!["fs"]);
}

#[test]
fn typescript_source_is_extracted_in_walk_order() {
    let src = "import { a } from './util';\n\
const fs = require(\"fs\");\n\
export class Service { run() { return 1; } }\n\
interface Shape {}\n\
enum Color { Red }\n\
function helper() {}\n\
const arrow = () => 2;\n";
    let g = GrammarSet::new().unwrap();
    let tree = parse_source(g.language_for_extension("ts").unwrap(), src).unwrap();
    assert_eq!(tree.kind, "program");
    let (classes, functions, imports) = extract_ts_like(&tree, src);
    assert_eq!(classes, vec!["Color", "Shape", "Service"]);
    assert_eq!(functions, vec!["arrow", "helper", "run"]);
    assert_eq!(imports, vec!["fs", "./util"]);
}

#[test]
fn tsx_arrow_component_is_a_function() {
    let src = "const App = () => <div/>;\n";
    let g = GrammarSet::new().unwrap();
    let tree = parse_source(g.language_for_extension("tsx").unwrap(), src).unwrap();
    let (classes, functions, imports) = extract_ts_like(&tree, src);
    assert!(classes.is_empty());
    assert_eq!(functions, vec!["App"]);
    assert!(imports.is_empty());
}

#[test]
fn csharp_source_is_extracted_in_walk_order() {
    let src = "using System;\n\
using static System.Math;\n\
using Alias = Foo.Bar;\n\
namespace N {\n\
  class C { void M() {} C() {} }\n\
  interface I {}\n\
  struct S {}\n\
  enum E { A }\n\
}\n";
    let g = GrammarSet::new().unwrap();
    let tree = parse_source(g.language_for_extension("cs").unwrap(), src).unwrap();
    assert_eq!(tree.kind, "compilation_unit");
    let (classes, functions, imports) = extract_csharp(&tree, src);
    assert_eq!(classes, vec!["E", "S", "I", "C"]);
    assert_eq!(functions, vec!["C", "M"]);
    assert_eq!(imports, vec!["Foo.Bar", "System.Math", "System"]);
}

#[test]
fn unknown_extension_has_no_grammar() {
    let g = GrammarSet::new().unwrap();
    assert!(g.language_for_extension("py").is_none());
    assert!(g.language_for_extension("").is_none());
    assert!(g.language_for_extension("TS").is_none());
    assert!(g.language_for_extension("jsx").is_none());
}

#[test]
fn extensions_map_to_grammars() {
    let g = GrammarSet::new().unwrap();
    assert_eq!(g.language_for_extension("ts"), Some(Grammar::TypeScript));
    assert_eq!(g.language_for_extension("js"), Some(Grammar::TypeScript));
    assert_eq!(g.language_for_extension("tsx"), Some(Grammar::Tsx));
    assert_eq!(g.language_for_extension("cs"), Some(Grammar::CSharp));
}

#[test]
fn every_grammar_parses_text() {
    for g in [Grammar::TypeScript, Grammar::Tsx, Grammar::JavaScript, Grammar::CSharp] {
        let tree = parse_source(g, "").unwrap();
        assert_eq!(tree.start_byte, 0);
        assert_eq!(tree.end_byte, 0);
    }
    let tree = parse_source(Grammar::TypeScript, "let x = 1;").unwrap();
    assert_eq!(tree.kind, "program");
    assert_eq!(tree.end_byte, 10);
    assert_eq!(tree.children.len(), 1);
    assert_eq!(tree.children[0].node.kind, "lexical_declaration");
    assert!(tree.children[0].field.is_none());
}

#[test]
fn fields_are_copied_from_the_parse() {
    let src = "function f() {}";
    let tree = parse_source(Grammar::JavaScript, src).unwrap();
    let decl = &tree.children[0].node;
    assert_eq!(decl.kind, "function_declaration");
    let name = child_by_field_name(decl, "name").unwrap();
    assert_eq!(name.kind, "identifier");
    assert_eq!((name.start_byte, name.end_byte), (9, 10));
    assert!(child_by_field_name(decl, "body").is_some());
}
