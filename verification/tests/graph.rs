use backend::graph::{
    build_import_edges, candidate_paths, disk_queries, import_path_candidates, pick_on_disk,
    relative_disk_candidates, DiskProbe, FileIndex,
};
use backend::models::FileNode;

fn node(path: &str, imports: &[&str]) -> FileNode {
    FileNode {
        path: path.to_string(),
        name: String::new(),
        language: "typescript".to_string(),
        functions: Vec::new(),
        classes: Vec::new(),
        imports: imports.iter().map(|s| s.to_string()).collect(),
        line_count: 1,
    }
}

fn probe(is_file: bool, canonical: Option<&str>) -> DiskProbe {
    DiskProbe { is_file, canonical: canonical.map(|s| s.to_string()) }
}

#[test]
fn candidate_keys() {
    assert_eq!(
        candidate_paths("/r/x"),
        vec![
            "/r/x", "/r/x.ts", "/r/x.tsx", "/r/x.js", "/r/x.cs", "/r/x/index.ts",
            "/r/x/index.tsx", "/r/x/index.js", "/r/x/index.cs",
        ]
    );
}

#[test]
fn candidate_paths_on_disk() {
    assert_eq!(
        import_path_candidates("/r/src/./b.js"),
        vec![
            "/r/src/./b.js", "/r/src/./b.ts", "/r/src/./b.tsx", "/r/src/./b.js",
            "/r/src/./b.cs", "/r/src/./b.js/index.ts", "/r/src/./b.js/index.tsx",
            "/r/src/./b.js/index.js", "/r/src/./b.js/index.cs",
        ]
    );
}

#[test]
fn relative_candidates_need_a_parent() {
    let c = relative_disk_candidates("/r/src/a.ts", "./b").unwrap();
    assert_eq!(c.len(), 9);
    assert_eq!(c[0], "/r/src/./b");
    assert_eq!(c[1], "/r/src/./b.ts");
    assert_eq!(c[5], "/r/src/./b/index.ts");
    let c = relative_disk_candidates("a.ts", "./b").unwrap();
    assert_eq!(c[0], "./b");
    assert!(relative_disk_candidates("/", "./b").is_none());
}

#[test]
fn index_resolves_relative_imports_by_key() {
    let files = vec![node("/r/src/a.ts", &[]), node("/r/src/./b.ts", &[]), node("/r/src/./d/index.cs", &[])];
    let index = FileIndex::new(&files);
    assert_eq!(index.resolve("/r/src/a.ts", "./b").map(|n| n.path.as_str()), Some("/r/src/./b.ts"));
    assert_eq!(index.resolve("/r/src/a.ts", "./d").map(|n| n.path.as_str()), Some("/r/src/./d/index.cs"));
    assert!(index.resolve("/r/src/a.ts", "./zzz").is_none());
    assert!(index.resolve("/r/src/a.ts", "b").is_none());
    assert_eq!(index.node_for_normalized_path("/r/src/a.ts").map(|n| n.path.as_str()), Some("/r/src/a.ts"));
    assert!(index.node_for_normalized_path("/r/src/b.ts").is_none());
}

#[test]
fn index_keys_use_forward_slashes() {
    let files = vec![node("C:\\r\\x.ts", &[])];
    let index = FileIndex::new(&files);
    assert_eq!(index.node_for_normalized_path("C:/r/x.ts").map(|n| n.path.as_str()), Some("C:\\r\\x.ts"));
}

#[test]
fn later_file_with_same_key_wins() {
    let files = vec![node("/r/a.ts", &[]), node("/r\\a.ts", &[])];
    let index = FileIndex::new(&files);
    assert_eq!(index.node_for_normalized_path("/r/a.ts").map(|n| n.path.as_str()), Some("/r\\a.ts"));
}

#[test]
fn edges_from_index_need_no_disk() {
    let files = vec![node("/r/src/a.ts", &["./b", " ./b ", "lodash"]), node("/r/src/./b.ts", &[])];
    assert!(disk_queries(&files).is_empty());
    let (edges, stubs) = build_import_edges(&files, &Vec::new());
    assert_eq!(edges.len(), 1);
    assert_eq!(edges[0].source, "/r/src/a.ts");
    assert_eq!(edges[0].target, "/r/src/./b.ts");
    assert_eq!(edges[0].edge_type, "import");
    assert!(stubs.is_empty());
}

#[test]
fn disk_queries_list_unresolved_relative_imports() {
    let files = vec![node("/r/a.ts", &["./x", "pkg", "", "  ./y  "]), node("/r/b.ts", &["./x"])];
    let q = disk_queries(&files);
    assert_eq!(
        q,
        vec![
            ("/r/a.ts".to_string(), "./x".to_string()),
            ("/r/a.ts".to_string(), "./y".to_string()),
            ("/r/b.ts".to_string(), "./x".to_string()),
        ]
    );
}

#[test]
fn one_stub_per_unparsed_file() {
    let files = vec![node("/r/a.ts", &["./x"]), node("/r/b.ts", &["./x", "./gone"])];
    let disk = vec![Some("/r/vendor/x.js".to_string()), Some("/r/vendor/x.js".to_string()), None];
    let (edges, stubs) = build_import_edges(&files, &disk);
    assert_eq!(stubs.len(), 1);
    assert_eq!(stubs[0].path, "/r/vendor/x.js");
    assert_eq!(stubs[0].name, "x.js");
    assert_eq!(stubs[0].language, "javascript");
    let pairs: Vec<(&str, &str)> = edges.iter().map(|e| (e.source.as_str(), e.target.as_str())).collect();
    assert_eq!(pairs, vec![("/r/a.ts", "/r/vendor/x.js"), ("/r/b.ts", "/r/vendor/x.js")]);
}

#[test]
fn no_lookup_results_means_no_stubs() {
    let files = vec![node("/r/a.ts", &["./x", "./y"])];
    let (edges, stubs) = build_import_edges(&files, &Vec::new());
    assert!(edges.is_empty());
    assert!(stubs.is_empty());
}

#[test]
fn disk_target_that_is_a_parsed_file_links_to_it() {
    let files = vec![node("/r/a.ts", &["./b"]), node("/r/b.ts", &[])];
    let (edges, stubs) = build_import_edges(&files, &vec![Some("/r/b.ts".to_string())]);
    assert!(stubs.is_empty());
    assert_eq!(edges.len(), 1);
    assert_eq!(edges[0].target, "/r/b.ts");
}

#[test]
fn pick_first_file_under_root() {
    let probes = vec![probe(false, None), probe(true, Some("/other/x.ts")), probe(true, Some("/r/src/b.ts"))];
    assert_eq!(pick_on_disk(&probes, "/r"), Some("/r/src/b.ts".to_string()));
    assert_eq!(pick_on_disk(&probes, "/nowhere"), None);
    let failed = vec![probe(true, None), probe(true, Some("/r/b.ts"))];
    assert_eq!(pick_on_disk(&failed, "/r"), None);
    assert_eq!(pick_on_disk(&Vec::new(), "/r"), None);
    let prefix_only = vec![probe(true, Some("/rx/b.ts"))];
    assert_eq!(pick_on_disk(&prefix_only, "/r"), None);
}
