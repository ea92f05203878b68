//! Graph and analysis-result types: files, import edges, the graph and the run totals.

use vstd::prelude::*;
use crate::paths::{extension, extension_of, file_name, file_name_of, views};
use crate::text::str_eq;

verus! {

broadcast use vstd::string::group_string_axioms;

/// One source file (or a referenced file that was not parsed) in the graph.
#[derive(Clone, Debug)]
pub struct FileNode {
    pub path: String,
    pub name: String,
    pub language: String,
    pub functions: Vec<String>,
    pub classes: Vec<String>,
    pub imports: Vec<String>,
    pub line_count: usize,
}

/// The content of a [`FileNode`] as text and numbers.
pub struct FileNodeView {
    pub path: Seq<char>,
    pub name: Seq<char>,
    pub language: Seq<char>,
    pub functions: Seq<Seq<char>>,
    pub classes: Seq<Seq<char>>,
    pub imports: Seq<Seq<char>>,
    pub line_count: nat,
}

impl View for FileNode {
    type V = FileNodeView;

    open spec fn view(&self) -> FileNodeView {
        FileNodeView {
            path: self.path@,
            name: self.name@,
            language: self.language@,
            functions: views(self.functions@),
            classes: views(self.classes@),
            imports: views(self.imports@),
            line_count: self.line_count as nat,
        }
    }
}

/// The content of each file node in `v`.
pub open spec fn file_views(v: Seq<FileNode>) -> Seq<FileNodeView> {
    v.map_values(|f: FileNode| f@)
}

/// The language label of a known source extension.
pub open spec fn language_of_extension(ext: Seq<char>) -> Option<Seq<char>> {
    if ext == "ts"@ {
        Some("typescript"@)
    } else if ext == "tsx"@ {
        Some("typescriptreact"@)
    } else if ext == "js"@ {
        Some("javascript"@)
    } else if ext == "cs"@ {
        Some("csharp"@)
    } else {
        None
    }
}

/// The language label of `ext`, or `fallback` when `ext` is not a source extension.
pub fn language_label(ext: &str, fallback: &str) -> (r: String)
    ensures
        r@ == match language_of_extension(ext@) {
            Some(l) => l,
            None => fallback@,
        },
{
    if str_eq(ext, "ts") {
        String::from_str("typescript")
    } else if str_eq(ext, "tsx") {
        String::from_str("typescriptreact")
    } else if str_eq(ext, "js") {
        String::from_str("javascript")
    } else if str_eq(ext, "cs") {
        String::from_str("csharp")
    } else {
        String::from_str(fallback)
    }
}

/// `o`'s content, or the empty text.
pub open spec fn or_empty(o: Option<Seq<char>>) -> Seq<char> {
    match o {
        Some(x) => x,
        None => Seq::empty(),
    }
}

/// The node that stands for a referenced file that was not parsed.
pub open spec fn reference_stub_view(p: Seq<char>) -> FileNodeView {
    FileNodeView {
        path: p,
        name: or_empty(file_name_of(p)),
        language: match language_of_extension(or_empty(extension_of(p))) {
            Some(l) => l,
            None => "reference"@,
        },
        functions: Seq::empty(),
        classes: Seq::empty(),
        imports: Seq::empty(),
        line_count: 0,
    }
}

impl FileNode {
    /// Minimal node for a file that was not parsed (e.g. under a skipped directory) but is
    /// referenced by a relative import.
    pub fn reference_stub(canonical_path: &str) -> (r: FileNode)
        ensures
            r@ == reference_stub_view(canonical_path@),
    {
        let name = match file_name(canonical_path) {
            Some(n) => String::from_str(n),
            None => String::new(),
        };
        proof {
            reveal_strlit("");
        }
        let ext = match extension(canonical_path) {
            Some(e) => e,
            None => "",
        };
        let language = language_label(ext, "reference");
        let r = FileNode {
            path: String::from_str(canonical_path),
            name,
            language,
            functions: Vec::new(),
            classes: Vec::new(),
            imports: Vec::new(),
            line_count: 0,
        };
        assert(views(r.functions@) =~= Seq::empty());
        assert(views(r.classes@) =~= Seq::empty());
        assert(views(r.imports@) =~= Seq::empty());
        assert(ext@ == or_empty(extension_of(canonical_path@)));
        assert(r@ =~~= reference_stub_view(canonical_path@));
        r
    }
}

/// An import relation from the file `source` to the file `target`.
#[derive(Clone, Debug)]
pub struct Edge {
    pub source: String,
    pub target: String,
    pub edge_type: String,
}

impl View for Edge {
    type V = (Seq<char>, Seq<char>, Seq<char>);

    open spec fn view(&self) -> (Seq<char>, Seq<char>, Seq<char>) {
        (self.source@, self.target@, self.edge_type@)
    }
}

/// The content of each edge in `v`.
pub open spec fn edge_views(v: Seq<Edge>) -> Seq<(Seq<char>, Seq<char>, Seq<char>)> {
    v.map_values(|e: Edge| e@)
}

/// The files and import edges of an analysed tree.
#[derive(Clone, Debug)]
pub struct CodeGraph {
    pub files: Vec<FileNode>,
    pub edges: Vec<Edge>,
}

impl CodeGraph {
    /// An empty graph.
    pub fn new() -> (r: CodeGraph)
        ensures
            r.files@.len() == 0,
            r.edges@.len() == 0,
    {
        CodeGraph { files: Vec::new(), edges: Vec::new() }
    }
}

/// The graph of one analysis run and its totals.
#[derive(Clone, Debug)]
pub struct AnalysisResult {
    pub graph: CodeGraph,
    pub total_files: u64,
    /// Every file entry seen during the directory walk (after directory filtering), any extension.
    pub total_files_walked: u64,
    pub total_lines: u64,
    pub analysis_time_ms: u64,
}

impl AnalysisResult {
    /// A result holding exactly the given graph and totals.
    pub fn new(
        graph: CodeGraph,
        total_files: u64,
        total_files_walked: u64,
        total_lines: u64,
        analysis_time_ms: u64,
    ) -> (r: AnalysisResult)
        ensures
            r.graph == graph,
            r.total_files == total_files,
            r.total_files_walked == total_files_walked,
            r.total_lines == total_lines,
            r.analysis_time_ms == analysis_time_ms,
    {
        AnalysisResult { graph, total_files, total_files_walked, total_lines, analysis_time_ms }
    }
}

} // verus!
