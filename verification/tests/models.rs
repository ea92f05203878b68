use backend::models::{AnalysisResult, CodeGraph, Edge, FileNode};

#[test]
fn reference_stub_typescript() {
    let n = FileNode::reference_stub("/repo/lib/util.ts");
    assert_eq!(n.path, "/repo/lib/util.ts");
    assert_eq!(n.name, "util.ts");
    assert_eq!(n.language, "typescript");
    assert!(n.functions.is_empty());
    assert!(n.classes.is_empty());
    assert!(n.imports.is_empty());
    assert_eq!(n.line_count, 0);
}

#[test]
fn reference_stub_languages_by_extension() {
    assert_eq!(FileNode::reference_stub("/r/a.tsx").language, "typescriptreact");
    assert_eq!(FileNode::reference_stub("/r/a.js").language, "javascript");
    assert_eq!(FileNode::reference_stub("/r/a.cs").language, "csharp");
    assert_eq!(FileNode::reference_stub("/r/a.json").language, "reference");
    assert_eq!(FileNode::reference_stub("/r/Makefile").language, "reference");
}

#[test]
fn reference_stub_without_file_name() {
    let n = FileNode::reference_stub("/");
    assert_eq!(n.name, "");
    assert_eq!(n.path, "/");
    assert_eq!(n.language, "reference");
}

#[test]
fn reference_stub_hidden_file_has_no_extension() {
    let n = FileNode::reference_stub("/r/.ts");
    assert_eq!(n.name, ".ts");
    assert_eq!(n.language, "reference");
}

#[test]
fn code_graph_new_is_empty() {
    let g = CodeGraph::new();
    assert!(g.files.is_empty());
    assert!(g.edges.is_empty());
}

#[test]
fn analysis_result_new_keeps_fields() {
    let mut g = CodeGraph::new();
    g.edges.push(Edge {
        source: "/a.ts".to_string(),
        target: "/b.ts".to_string(),
        edge_type: "import".to_string(),
    });
    let r = AnalysisResult::new(g, 3, 7, 120, 15);
    assert_eq!(r.graph.edges.len(), 1);
    assert_eq!(r.graph.edges[0].target, "/b.ts");
    assert_eq!(r.total_files, 3);
    assert_eq!(r.total_files_walked, 7);
    assert_eq!(r.total_lines, 120);
    assert_eq!(r.analysis_time_ms, 15);
}
