use backend::models::FileNode;
use backend::parser::{
    assemble_analysis, collect_source_paths, count_lines, enter_entry, first_error_or_nodes,
    parse_file_to_node,
    CodeParser, ParseFileError, WalkEntry,
};
use backend::grammar::GrammarSet;

fn entry(path: &str, is_file: bool) -> WalkEntry {
    WalkEntry { path: path.to_string(), is_file }
}

fn node(path: &str, imports: &[&str], line_count: usize) -> FileNode {
    FileNode {
        path: path.to_string(),
        name: String::new(),
        language: "typescript".to_string(),
        functions: Vec::new(),
        classes: Vec::new(),
        imports: imports.iter().map(|s| s.to_string()).collect(),
        line_count,
    }
}

#[test]
fn walk_skips_build_and_vendor_directories() {
    assert!(enter_entry(0, "node_modules"));
    assert!(!enter_entry(1, "node_modules"));
    assert!(!enter_entry(3, ".git"));
    assert!(!enter_entry(1, "dist"));
    assert!(!enter_entry(1, "target"));
    assert!(!enter_entry(2, "bin"));
    assert!(!enter_entry(2, "obj"));
    assert!(enter_entry(1, "src"));
    assert!(enter_entry(1, ".github"));
    assert!(enter_entry(1, "Bin"));
}

#[test]
fn source_paths_and_files_walked() {
    let entries = vec![
        entry("/r", false),
        entry("/r/a.ts", true),
        entry("/r/b.md", true),
        entry("/r/sub", false),
        entry("/r/sub/c.cs", true),
        entry("/r/d.TS", true),
        entry("/r/noext", true),
        entry("/r/e.tsx", false),
        entry("/r/f.js", true),
        entry("/r/g.tsx", true),
    ];
    let (paths, walked) = collect_source_paths(&entries);
    assert_eq!(paths, vec!["/r/a.ts", "/r/sub/c.cs", "/r/f.js", "/r/g.tsx"]);
    assert_eq!(walked, 7);
}

#[test]
fn no_entries_walked() {
    let (paths, walked) = collect_source_paths(&Vec::new());
    assert!(paths.is_empty());
    assert_eq!(walked, 0);
}

#[test]
fn line_counts() {
    assert_eq!(count_lines(""), 0);
    assert_eq!(count_lines("a"), 1);
    assert_eq!(count_lines("a\n"), 1);
    assert_eq!(count_lines("a\nb"), 2);
    assert_eq!(count_lines("\n\n"), 2);
    assert_eq!(count_lines("a\r\nb\r\n"), 2);
}

#[test]
fn parse_typescript_file() {
    let g = GrammarSet::new().unwrap();
    let src = "import x from './x';\nexport function main() {}\n";
    let n = parse_file_to_node("src/app.ts", &g, Ok(src.to_string()), Some("/repo/src/app.ts".to_string())).unwrap();
    assert_eq!(n.path, "/repo/src/app.ts");
    assert_eq!(n.name, "app.ts");
    assert_eq!(n.language, "typescript");
    assert_eq!(n.functions, vec!["main"]);
    assert!(n.classes.is_empty());
    assert_eq!(n.imports, vec!["./x"]);
    assert_eq!(n.line_count, 2);
}

#[test]
fn parse_keeps_walked_path_without_canonical_form() {
    let g = GrammarSet::new().unwrap();
    let n = parse_file_to_node("/w/Program.cs", &g, Ok("class P {}".to_string()), None).unwrap();
    assert_eq!(n.path, "/w/Program.cs");
    assert_eq!(n.name, "Program.cs");
    assert_eq!(n.language, "csharp");
    assert_eq!(n.classes, vec!["P"]);
    assert_eq!(n.line_count, 1);
}

#[test]
fn code_parser_loads_every_grammar() {
    assert!(CodeParser::new().is_ok());
    assert!(GrammarSet::new().is_ok());
}

#[test]
fn two_line_typescript_file() {
    let g = GrammarSet::new().unwrap();
    let n = parse_file_to_node("/r/a.ts", &g, Ok("let x = 1;\nlet y = 2;\n".to_string()), Some("/r/a.ts".to_string())).unwrap();
    assert_eq!(n.path, "/r/a.ts");
    assert_eq!(n.name, "a.ts");
    assert_eq!(n.language, "typescript");
    assert!(n.functions.is_empty());
    assert!(n.classes.is_empty());
    assert!(n.imports.is_empty());
    assert_eq!(n.line_count, 2);
}

#[test]
fn javascript_and_tsx_labels() {
    let p = CodeParser::new().unwrap();
    let js = p.parse_file("/w/a.js", Ok("function f() {}".to_string()), None).unwrap();
    assert_eq!(js.language, "javascript");
    assert_eq!(js.functions, vec!["f"]);
    let tsx = p.parse_file("/w/b.tsx", Ok(String::new()), None).unwrap();
    assert_eq!(tsx.language, "typescriptreact");
    assert_eq!(tsx.line_count, 0);
}

#[test]
fn missing_grammar_is_reported_before_read_failure() {
    let g = GrammarSet::new().unwrap();
    match parse_file_to_node("/w/x.py", &g, Err("denied".to_string()), None) {
        Err(ParseFileError::NoGrammar(ext)) => assert_eq!(ext, "py"),
        other => panic!("unexpected {:?}", other),
    }
    match parse_file_to_node("/w/Makefile", &g, Ok(String::new()), None) {
        Err(ParseFileError::NoGrammar(ext)) => assert_eq!(ext, ""),
        other => panic!("unexpected {:?}", other),
    }
}

#[test]
fn read_failure_is_reported() {
    let g = GrammarSet::new().unwrap();
    match parse_file_to_node("/w/a.ts", &g, Err("permission denied".to_string()), None) {
        Err(ParseFileError::Read(m)) => assert_eq!(m, "permission denied"),
        other => panic!("unexpected {:?}", other),
    }
}

#[test]
fn assemble_links_and_totals() {
    let files = vec![
        node("/r/src/a.ts", &["./b", "./lib/c", "react", "  ", "./b"], 10),
        node("/r/src/b.ts", &["./a.ts"], 5),
    ];
    let disk = vec![
        Some("/r/src/b.ts".to_string()),
        Some("/r/src/lib/c.ts".to_string()),
        Some("/r/src/b.ts".to_string()),
        Some("/r/src/a.ts".to_string()),
    ];
    let r = assemble_analysis(files, &disk, 9, 42);
    assert_eq!(r.total_files, 2);
    assert_eq!(r.total_files_walked, 9);
    assert_eq!(r.total_lines, 15);
    assert_eq!(r.analysis_time_ms, 42);
    let paths: Vec<&str> = r.graph.files.iter().map(|f| f.path.as_str()).collect();
    assert_eq!(paths, vec!["/r/src/a.ts", "/r/src/b.ts", "/r/src/lib/c.ts"]);
    let stub = &r.graph.files[2];
    assert_eq!(stub.name, "c.ts");
    assert_eq!(stub.language, "typescript");
    assert_eq!(stub.line_count, 0);
    let edges: Vec<(&str, &str, &str)> = r
        .graph
        .edges
        .iter()
        .map(|e| (e.source.as_str(), e.target.as_str(), e.edge_type.as_str()))
        .collect();
    assert_eq!(
        edges,
        vec![
            ("/r/src/a.ts", "/r/src/b.ts", "import"),
            ("/r/src/a.ts", "/r/src/lib/c.ts", "import"),
            ("/r/src/b.ts", "/r/src/a.ts", "import"),
        ]
    );
}

#[test]
fn nodes_in_order_or_first_error() {
    let ok = first_error_or_nodes(vec![Ok(node("/a.ts", &[], 1)), Ok(node("/b.ts", &[], 2))]).unwrap();
    let paths: Vec<&str> = ok.iter().map(|f| f.path.as_str()).collect();
    assert_eq!(paths, vec!["/a.ts", "/b.ts"]);
    let err = first_error_or_nodes(vec![
        Ok(node("/a.ts", &[], 1)),
        Err(ParseFileError::Read("first".to_string())),
        Err(ParseFileError::Read("second".to_string())),
    ]);
    match err {
        Err(ParseFileError::Read(m)) => assert_eq!(m, "first"),
        other => panic!("unexpected {:?}", other),
    }
    assert!(first_error_or_nodes(Vec::new()).unwrap().is_empty());
}
