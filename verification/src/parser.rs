//! Per-file analysis and assembly of the analysis result: which walked entries are parsed,
//! the node of each parsed file, and the graph with its totals.

use vstd::prelude::*;
use tree_sitter::LanguageError;
use crate::extract::{collect, extract_csharp, extract_ts_like, lemma_collect_same, Bucket, Dialect};
use crate::grammar::{
    all_grammars_accepted, first_refused, grammar_of_extension, lemma_parse_unique,
    parse_consistent, parse_source, parsed_syntax, GrammarError, GrammarSet, TreeError,
};
use crate::graph::{build_import_edges, import_edge_views, links_of, source_extensions};
use crate::models::{
    edge_views, file_views, language_label, language_of_extension, or_empty,
    reference_stub_view, AnalysisResult, CodeGraph, Edge, FileNode, FileNodeView,
};
use crate::paths::{extension, extension_of, file_name, file_name_of, opt_view, views};
use crate::syntax::{opt_string_view, same_tree, SyntaxNode};
use crate::text::{chars_of, count_char, str_eq};

verus! {

broadcast use vstd::string::group_string_axioms;

/// Directory names the walk never descends into.
pub open spec fn skip_dir_names() -> Seq<Seq<char>> {
    seq!["node_modules"@, ".git"@, "dist"@, "target"@, "bin"@, "obj"@]
}

/// Whether the walk enters the entry named `name` at `depth` (the root is always entered).
pub fn enter_entry(depth: usize, name: &str) -> (r: bool)
    ensures
        r == (depth == 0 || !skip_dir_names().contains(name@)),
{
    if depth == 0 {
        return true;
    }
    let skip = vec!["node_modules", ".git", "dist", "target", "bin", "obj"];
    assert(skip@.map_values(|e: &str| e@) =~= skip_dir_names());
    let mut i: usize = 0;
    while i < skip.len()
        invariant
            i <= skip@.len() == 6,
            depth != 0,
            skip@.map_values(|e: &str| e@) == skip_dir_names(),
            forall|k: int| 0 <= k < i ==> skip_dir_names()[k] != name@,
        decreases skip@.len() - i,
    {
        assert(skip@.map_values(|e: &str| e@)[i as int] == skip@[i as int]@);
        if str_eq(skip[i], name) {
            assert(skip_dir_names()[i as int] == name@);
            assert(skip_dir_names().len() == 6);
            assert(skip_dir_names().contains(name@));
            return false;
        }
        i = i + 1;
    }
    true
}

/// One entry met by the directory walk: its path and whether it is a regular file.
#[derive(Clone, Debug)]
pub struct WalkEntry {
    pub path: String,
    pub is_file: bool,
}

/// Whether the walked entry `e` is a source file that is parsed.
pub open spec fn is_source_entry(e: WalkEntry) -> bool {
    e.is_file && match extension_of(e.path@) {
        Some(x) => source_extensions().contains(x),
        None => false,
    }
}

/// The paths of the source files among the first `n` entries, in walk order.
pub open spec fn source_paths_of(entries: Seq<WalkEntry>, n: int) -> Seq<Seq<char>>
    decreases n,
{
    if n <= 0 {
        Seq::empty()
    } else {
        source_paths_of(entries, n - 1) + if is_source_entry(entries[n - 1]) {
            seq![entries[n - 1].path@]
        } else {
            Seq::empty()
        }
    }
}

/// Number of regular files among the first `n` entries.
pub open spec fn files_walked_of(entries: Seq<WalkEntry>, n: int) -> nat
    decreases n,
{
    if n <= 0 {
        0
    } else {
        files_walked_of(entries, n - 1) + if entries[n - 1].is_file {
            1nat
        } else {
            0nat
        }
    }
}

proof fn lemma_source_paths_bound(entries: Seq<WalkEntry>, n: int)
    requires
        0 <= n,
    ensures
        source_paths_of(entries, n).len() <= files_walked_of(entries, n),
    decreases n,
{
    if n > 0 {
        lemma_source_paths_bound(entries, n - 1);
    }
}

/// The paths of the first `n` entries are pairwise distinct.
pub open spec fn distinct_paths(entries: Seq<WalkEntry>, n: int) -> bool {
    forall|a: int, b: int|
        0 <= a < b < n ==> (#[trigger] entries[a]).path@ != (#[trigger] entries[b]).path@
}

/// Law: the source paths among the first `n` entries are exactly the paths of the regular
/// files with a source extension among them, and walk entries with distinct paths give
/// distinct source paths.
pub proof fn law_source_paths(entries: Seq<WalkEntry>, n: int)
    requires
        0 <= n <= entries.len(),
    ensures
        forall|p: Seq<char>|
            source_paths_of(entries, n).contains(p) <==> exists|i: int|
                0 <= i < n && is_source_entry(#[trigger] entries[i]) && entries[i].path@ == p,
        distinct_paths(entries, n) ==> source_paths_of(entries, n).no_duplicates(),
    decreases n,
{
    if n > 0 {
        law_source_paths(entries, n - 1);
        let prev = source_paths_of(entries, n - 1);
        let cur = source_paths_of(entries, n);
        let e = entries[n - 1];
        assert forall|p: Seq<char>| cur.contains(p) <==> exists|i: int|
            0 <= i < n && is_source_entry(#[trigger] entries[i]) && entries[i].path@ == p by {
            if cur.contains(p) {
                let k = choose|k: int| 0 <= k < cur.len() && cur[k] == p;
                if k < prev.len() {
                    assert(prev[k] == p);
                    assert(prev.contains(p));
                } else {
                    assert(is_source_entry(entries[n - 1]));
                }
            }
            if exists|i: int| 0 <= i < n && is_source_entry(#[trigger] entries[i]) && entries[i].path@ == p {
                let i = choose|i: int| 0 <= i < n && is_source_entry(#[trigger] entries[i]) && entries[i].path@ == p;
                if i < n - 1 {
                    assert(prev.contains(p));
                    let k = choose|k: int| 0 <= k < prev.len() && prev[k] == p;
                    assert(cur[k] == p);
                } else {
                    assert(cur[prev.len() as int] == p);
                }
            }
        }
        if distinct_paths(entries, n) {
            assert(distinct_paths(entries, n - 1));
            if is_source_entry(e) {
                assert(!prev.contains(e.path@)) by {
                    if prev.contains(e.path@) {
                        let i = choose|i: int|
                            0 <= i < n - 1 && is_source_entry(#[trigger] entries[i]) && entries[i].path@ == e.path@;
                        assert(entries[i].path@ != entries[n - 1].path@);
                    }
                }
                assert forall|a: int, b: int| 0 <= a < b < cur.len() implies cur[a] != cur[b] by {
                    if b == prev.len() {
                        assert(cur[a] == prev[a]);
                        assert(prev.contains(prev[a]));
                    } else {
                        assert(cur[a] == prev[a] && cur[b] == prev[b]);
                    }
                }
            } else {
                assert(cur =~= prev);
            }
        }
    } else {
        assert(source_paths_of(entries, n) =~= Seq::<Seq<char>>::empty());
    }
}

/// Law: the walked count is the number of regular-file entries among the first `n`, whatever
/// their names or extensions.
pub proof fn law_files_walked(entries: Seq<WalkEntry>, n: int)
    requires
        0 <= n <= entries.len(),
    ensures
        files_walked_of(entries, n) == entries.take(n).filter(|e: WalkEntry| e.is_file).len(),
    decreases n,
{
    reveal(Seq::filter);
    if n > 0 {
        law_files_walked(entries, n - 1);
        assert(entries.take(n).drop_last() =~= entries.take(n - 1));
        assert(entries.take(n).last() == entries[n - 1]);
    } else {
        assert(entries.take(n).len() == 0);
    }
}

proof fn lemma_files_walked_bound(entries: Seq<WalkEntry>, n: int)
    requires
        0 <= n,
    ensures
        files_walked_of(entries, n) <= n,
    decreases n,
{
    if n > 0 {
        lemma_files_walked_bound(entries, n - 1);
    }
}

/// Whether `ext` is one of the source extensions.
fn is_source_extension(ext: &str) -> (r: bool)
    ensures
        r == source_extensions().contains(ext@),
{
    let exts = crate::graph::source_extension_list();
    let mut i: usize = 0;
    while i < exts.len()
        invariant
            i <= exts@.len() == 4,
            exts@.map_values(|e: &str| e@) == source_extensions(),
            forall|k: int| 0 <= k < i ==> source_extensions()[k] != ext@,
        decreases exts@.len() - i,
    {
        assert(exts@.map_values(|e: &str| e@)[i as int] == exts@[i as int]@);
        if str_eq(exts[i], ext) {
            assert(source_extensions()[i as int] == ext@);
            return true;
        }
        i = i + 1;
    }
    false
}

/// Law: when each source file of the walk gives one parsed node, the number of parsed files
/// is at most the number of regular files walked.
pub proof fn law_parsed_within_walked(entries: Seq<WalkEntry>, files: Seq<FileNode>)
    requires
        files.len() == source_paths_of(entries, entries.len() as int).len(),
    ensures
        files.len() <= files_walked_of(entries, entries.len() as int),
{
    lemma_source_paths_bound(entries, entries.len() as int);
}

/// The source files among the walked entries, in walk order, and the number of regular files
/// walked (any extension), which is never less than the number of source files.
pub fn collect_source_paths(entries: &Vec<WalkEntry>) -> (r: (Vec<String>, u64))
    ensures
        views(r.0@) == source_paths_of(entries@, entries@.len() as int),
        r.1 == files_walked_of(entries@, entries@.len() as int),
        r.0@.len() <= r.1,
        r.1 == entries@.filter(|e: WalkEntry| e.is_file).len(),
{
    let mut out: Vec<String> = Vec::new();
    let mut walked: u64 = 0;
    let n = entries.len();
    let mut i: usize = 0;
    while i < n
        invariant
            i <= n == entries@.len(),
            views(out@) == source_paths_of(entries@, i as int),
            walked == files_walked_of(entries@, i as int),
        decreases n - i,
    {
        let e = &entries[i];
        let ghost before = out@;
        if e.is_file {
            proof {
                lemma_files_walked_bound(entries@, i as int);
            }
            walked = walked + 1;
            match extension(e.path.as_str()) {
                Some(ext) => {
                    if is_source_extension(ext) {
                        out.push(e.path.clone());
                    }
                },
                None => {},
            }
        }
        assert(views(out@) =~= source_paths_of(entries@, i + 1));
        i = i + 1;
    }
    proof {
        lemma_source_paths_bound(entries@, n as int);
        law_files_walked(entries@, n as int);
        assert(entries@.take(n as int) =~= entries@);
    }
    (out, walked)
}

/// The extraction used for a source extension.
pub open spec fn dialect_of(ext: Seq<char>) -> Option<Dialect> {
    if ext == "ts"@ || ext == "tsx"@ || ext == "js"@ {
        Some(Dialect::TypeScript)
    } else if ext == "cs"@ {
        Some(Dialect::CSharp)
    } else {
        None
    }
}

/// Number of lines of `s` (`str::lines().count()`): one per `\n`, plus one for a last line
/// that does not end in `\n`.
pub open spec fn line_count_of(s: Seq<char>) -> nat {
    count_char(s, '\n') + if s.len() > 0 && s.last() != '\n' {
        1nat
    } else {
        0nat
    }
}

proof fn lemma_count_char_bound(s: Seq<char>, c: char)
    ensures
        count_char(s, c) <= s.len(),
        s.len() > 0 && s.last() != c ==> count_char(s, c) < s.len(),
    decreases s.len(),
{
    if s.len() > 0 {
        lemma_count_char_bound(s.drop_last(), c);
    }
}

/// Number of lines of `source`.
pub fn count_lines(source: &str) -> (r: usize)
    ensures
        r == line_count_of(source@),
{
    let cs = chars_of(source);
    let n = cs.len();
    let mut count: usize = 0;
    let mut i: usize = 0;
    while i < n
        invariant
            i <= n == cs@.len(),
            cs@ == source@,
            count == count_char(cs@.take(i as int), '\n'),
        decreases n - i,
    {
        proof {
            lemma_count_char_bound(cs@.take(i as int), '\n');
            assert(cs@.take(i + 1).drop_last() =~= cs@.take(i as int));
        }
        if cs[i] == '\n' {
            count = count + 1;
        }
        i = i + 1;
    }
    assert(cs@.take(n as int) =~= cs@);
    proof {
        lemma_count_char_bound(cs@, '\n');
    }
    if n > 0 && cs[n - 1] != '\n' {
        count + 1
    } else {
        count
    }
}

/// The lists a file contributes, by bucket, for extraction `d`.
pub open spec fn bucket_of(d: Option<Dialect>, b: Bucket, tree: SyntaxNode, src: Seq<char>) -> Seq<
    Seq<char>,
> {
    match d {
        Some(d) => collect(d, b, tree, None, src),
        None => Seq::empty(),
    }
}

/// The node of the file at `path` whose text is `src` and syntax tree is `tree`, stored under
/// its canonical path when there is one.
pub open spec fn file_node_view(
    path: Seq<char>,
    canonical: Option<Seq<char>>,
    src: Seq<char>,
    tree: SyntaxNode,
) -> FileNodeView {
    let ext = or_empty(extension_of(path));
    let p = match canonical {
        Some(c) => c,
        None => path,
    };
    let d = dialect_of(ext);
    FileNodeView {
        path: p,
        name: or_empty(file_name_of(p)),
        language: match language_of_extension(ext) {
            Some(l) => l,
            None => "unknown"@,
        },
        functions: bucket_of(d, Bucket::Functions, tree, src),
        classes: bucket_of(d, Bucket::Classes, tree, src),
        imports: bucket_of(d, Bucket::Imports, tree, src),
        line_count: line_count_of(src),
    }
}

/// Law: the node of a file: it is stored under the canonical path when there is one, named
/// by the last component of that path; a `.ts`, `.tsx` or `.js` file carries the TypeScript-
/// family extraction of its tree, a `.cs` file the C# one, any other file empty lists; its
/// language is `typescript`, `typescriptreact`, `javascript` or `csharp` by extension, and
/// `unknown` otherwise.
pub proof fn law_file_node(
    path: Seq<char>,
    canonical: Option<Seq<char>>,
    src: Seq<char>,
    tree: SyntaxNode,
)
    ensures
        ({
            let v = file_node_view(path, canonical, src, tree);
            let ext = extension_of(path);
            let p = if canonical is Some {
                canonical->0
            } else {
                path
            };
            let ts_like = ext == Some("ts"@) || ext == Some("tsx"@) || ext == Some("js"@);
            &&& v.path == p
            &&& v.name == (if file_name_of(p) is Some {
                file_name_of(p)->0
            } else {
                Seq::empty()
            })
            &&& ts_like ==> v.classes == collect(Dialect::TypeScript, Bucket::Classes, tree, None, src)
                && v.functions == collect(Dialect::TypeScript, Bucket::Functions, tree, None, src)
                && v.imports == collect(Dialect::TypeScript, Bucket::Imports, tree, None, src)
            &&& ext == Some("cs"@) ==> v.classes == collect(Dialect::CSharp, Bucket::Classes, tree, None, src)
                && v.functions == collect(Dialect::CSharp, Bucket::Functions, tree, None, src)
                && v.imports == collect(Dialect::CSharp, Bucket::Imports, tree, None, src)
            &&& !ts_like && ext != Some("cs"@) ==> v.classes.len() == 0 && v.functions.len() == 0
                && v.imports.len() == 0
            &&& ext == Some("ts"@) ==> v.language == "typescript"@
            &&& ext == Some("tsx"@) ==> v.language == "typescriptreact"@
            &&& ext == Some("js"@) ==> v.language == "javascript"@
            &&& ext == Some("cs"@) ==> v.language == "csharp"@
            &&& !ts_like && ext != Some("cs"@) ==> v.language == "unknown"@
        }),
{
    reveal_strlit("ts");
    reveal_strlit("tsx");
    reveal_strlit("js");
    reveal_strlit("cs");
    assert("ts"@[0] != "js"@[0]);
    assert("ts"@[0] != "cs"@[0]);
    assert("js"@[0] != "cs"@[0]);
    assert("ts"@.len() != "tsx"@.len());
    assert("js"@.len() != "tsx"@.len());
    assert("cs"@.len() != "tsx"@.len());
}

/// The node of the file at `path` with text `source` and syntax tree `tree`; `canonical_path`
/// is the canonical form of `path`, when it could be had.
pub fn file_node_from_tree(
    path: &str,
    canonical_path: Option<String>,
    source: &str,
    tree: &SyntaxNode,
) -> (r: FileNode)
    ensures
        r@ == file_node_view(path@, opt_string_view(canonical_path), source@, *tree),
{
    proof {
        reveal_strlit("");
        reveal_strlit("ts");
        reveal_strlit("tsx");
        reveal_strlit("js");
        reveal_strlit("cs");
    }
    let ext = match extension(path) {
        Some(e) => e,
        None => "",
    };
    assert(ext@ == or_empty(extension_of(path@)));
    let (classes, functions, imports) = if str_eq(ext, "ts") || str_eq(ext, "tsx") || str_eq(
        ext,
        "js",
    ) {
        extract_ts_like(tree, source)
    } else if str_eq(ext, "cs") {
        extract_csharp(tree, source)
    } else {
        let c: Vec<String> = Vec::new();
        let f: Vec<String> = Vec::new();
        let i: Vec<String> = Vec::new();
        assert(views(c@) =~= Seq::empty());
        assert(views(f@) =~= Seq::empty());
        assert(views(i@) =~= Seq::empty());
        (c, f, i)
    };
    let language = language_label(ext, "unknown");
    let line_count = count_lines(source);
    let p = match canonical_path {
        Some(c) => c,
        None => String::from_str(path),
    };
    let name = match file_name(p.as_str()) {
        Some(n) => String::from_str(n),
        None => String::new(),
    };
    let r = FileNode { path: p, name, language, functions, classes, imports, line_count };
    assert(r@.name == file_node_view(path@, opt_string_view(canonical_path), source@, *tree).name);
    assert(r@.classes == file_node_view(path@, opt_string_view(canonical_path), source@, *tree).classes);
    assert(r@ =~~= file_node_view(path@, opt_string_view(canonical_path), source@, *tree));
    r
}

proof fn lemma_file_node_view_same(
    path: Seq<char>,
    canonical: Option<Seq<char>>,
    src: Seq<char>,
    a: SyntaxNode,
    b: SyntaxNode,
)
    requires
        same_tree(a, b),
    ensures
        file_node_view(path, canonical, src, a) == file_node_view(path, canonical, src, b),
{
    match dialect_of(or_empty(extension_of(path))) {
        Some(d) => {
            lemma_collect_same(d, Bucket::Classes, a, None, b, None, src);
            lemma_collect_same(d, Bucket::Functions, a, None, b, None, src);
            lemma_collect_same(d, Bucket::Imports, a, None, b, None, src);
        },
        None => {},
    }
}

/// Why a file could not be turned into a node.
#[derive(Debug)]
pub enum ParseFileError {
    /// No grammar for the file's extension (the extension is given).
    NoGrammar(String),
    /// The file could not be read (the reason is given).
    Read(String),
    /// The parser refused the grammar.
    Language(LanguageError),
    /// The parse reported no consistent tree.
    NoTree,
}

/// What [`parse_file_to_node`] gives for the file at `path`, given the outcome of reading it
/// and its canonical path when that could be had.
pub open spec fn parse_file_outcome(
    path: Seq<char>,
    source: Result<String, String>,
    canonical: Option<Seq<char>>,
    r: Result<FileNode, ParseFileError>,
) -> bool {
    let ext = or_empty(extension_of(path));
    match grammar_of_extension(ext) {
        None => r matches Err(ParseFileError::NoGrammar(e)) && e@ == ext,
        Some(g) => match source {
            Err(m) => r matches Err(ParseFileError::Read(m2)) && m2@ == m@,
            Ok(s) => {
                &&& r is Ok <==> parse_consistent(g, s@)
                &&& r matches Ok(n) ==> n@ == file_node_view(path, canonical, s@, parsed_syntax(g, s@))
                &&& r matches Err(e) ==> e is NoTree
            },
        },
    }
}

/// The node of the file at `path`, given the outcome of reading it (`source`) and its
/// canonical path when that could be had. The grammar is chosen by the file's extension; a
/// missing grammar is reported before a read failure. A readable file with a grammar gives
/// its node, built from tree-sitter's parse of its text.
pub fn parse_file_to_node(
    path: &str,
    grammars: &GrammarSet,
    source: Result<String, String>,
    canonical_path: Option<String>,
) -> (r: Result<FileNode, ParseFileError>)
    ensures
        parse_file_outcome(path@, source, opt_string_view(canonical_path), r),
{
    proof {
        use_type_invariant(grammars);
        reveal_strlit("");
        reveal_strlit("ts");
        reveal_strlit("tsx");
        reveal_strlit("js");
        reveal_strlit("cs");
    }
    let ext = match extension(path) {
        Some(e) => e,
        None => "",
    };
    assert(ext@ == or_empty(extension_of(path@)));
    let g = match grammars.language_for_extension(ext) {
        Some(g) => g,
        None => {
            return Err(ParseFileError::NoGrammar(String::from_str(ext)));
        },
    };
    let text = match source {
        Ok(t) => t,
        Err(m) => {
            return Err(ParseFileError::Read(m));
        },
    };
    let tree = match parse_source(g, text.as_str()) {
        Ok(t) => t,
        Err(TreeError::Language(e)) => {
            return Err(ParseFileError::Language(e));
        },
        Err(TreeError::NoTree) => {
            return Err(ParseFileError::NoTree);
        },
    };
    let ghost canon = opt_string_view(canonical_path);
    let n = file_node_from_tree(path, canonical_path, text.as_str(), &tree);
    proof {
        let p = parsed_syntax(g, text@);
        lemma_parse_unique(tree, p, g, text@, 0);
        lemma_file_node_view_same(path@, canon, text@, tree, p);
    }
    Ok(n)
}

/// High-level parser over the loaded grammars.
pub struct CodeParser {
    grammars: GrammarSet,
}

impl CodeParser {
    /// A parser with all grammars loaded: fails exactly when loading the grammars fails, with
    /// the first grammar refused.
    pub fn new() -> (r: Result<CodeParser, GrammarError>)
        ensures
            r is Ok <==> all_grammars_accepted(),
            r matches Err(e) ==> e.grammar == first_refused(),
    {
        match GrammarSet::new() {
            Ok(grammars) => Ok(CodeParser { grammars }),
            Err(e) => Err(e),
        }
    }

    /// The node of the file at `path` (see [`parse_file_to_node`]), parsed with this parser's
    /// grammars.
    pub fn parse_file(
        &self,
        path: &str,
        source: Result<String, String>,
        canonical_path: Option<String>,
    ) -> (r: Result<FileNode, ParseFileError>)
        ensures
            parse_file_outcome(path@, source, opt_string_view(canonical_path), r),
    {
        parse_file_to_node(path, &self.grammars, source, canonical_path)
    }
}

/// The parsed nodes, in the order of `results`, when every file parsed; otherwise the first
/// error, which ends the analysis of a directory.
pub fn first_error_or_nodes(results: Vec<Result<FileNode, ParseFileError>>) -> (r: Result<
    Vec<FileNode>,
    ParseFileError,
>)
    ensures
        r is Ok <==> forall|i: int| 0 <= i < results@.len() ==> (#[trigger] results@[i]) is Ok,
        r matches Ok(v) ==> v@.len() == results@.len() && forall|i: int|
            0 <= i < v@.len() ==> results@[i] == Ok::<FileNode, ParseFileError>(#[trigger] v@[i]),
        r matches Err(e) ==> exists|i: int|
            0 <= i < results@.len() && results@[i] == Err::<FileNode, ParseFileError>(e) && forall|
                j: int,
            | 0 <= j < i ==> (#[trigger] results@[j]) is Ok,
{
    let ghost all = results@;
    let mut nodes: Vec<FileNode> = Vec::new();
    for x in it: results
        invariant
            it.seq() == all,
            nodes@.len() == it.index(),
            forall|i: int| 0 <= i < it.index() ==> all[i] == Ok::<FileNode, ParseFileError>(#[trigger] nodes@[i]),
    {
        match x {
            Ok(n) => {
                nodes.push(n);
            },
            Err(e) => {
                assert(all[it.index() as int] == Err::<FileNode, ParseFileError>(e));
                assert forall|j: int| 0 <= j < it.index() implies (#[trigger] all[j]) is Ok by {
                    assert(all[j] == Ok::<FileNode, ParseFileError>(nodes@[j]));
                }
                return Err(e);
            },
        }
    }
    assert forall|i: int| 0 <= i < all.len() implies (#[trigger] all[i]) is Ok by {
        assert(all[i] == Ok::<FileNode, ParseFileError>(nodes@[i]));
    }
    Ok(nodes)
}

/// Total number of lines of the nodes in `v`.
pub open spec fn lines_total(v: Seq<FileNodeView>) -> nat
    decreases v.len(),
{
    if v.len() == 0 {
        0
    } else {
        lines_total(v.drop_last()) + v.last().line_count
    }
}

proof fn lemma_lines_total_append(a: Seq<FileNodeView>, b: Seq<FileNodeView>)
    ensures
        lines_total(a + b) == lines_total(a) + lines_total(b),
    decreases b.len(),
{
    if b.len() > 0 {
        lemma_lines_total_append(a, b.drop_last());
        assert((a + b).drop_last() =~= a + b.drop_last());
    } else {
        assert(a + b =~= a);
    }
}

proof fn lemma_lines_total_stubs(ps: Seq<Seq<char>>)
    ensures
        lines_total(ps.map_values(|p: Seq<char>| reference_stub_view(p))) == 0,
    decreases ps.len(),
{
    if ps.len() > 0 {
        lemma_lines_total_stubs(ps.drop_last());
        assert(ps.map_values(|p: Seq<char>| reference_stub_view(p)).drop_last() =~= ps.drop_last().map_values(
            |p: Seq<char>| reference_stub_view(p),
        ));
    }
}

/// The analysis result for the parsed `files`: the graph holds `files` followed by the nodes
/// for unparsed import targets, and the import edges (see [`build_import_edges`]);
/// `total_files` counts the parsed files and `total_lines` the lines of all nodes.
pub fn assemble_analysis(
    files: Vec<FileNode>,
    disk: &Vec<Option<String>>,
    total_files_walked: u64,
    analysis_time_ms: u64,
) -> (r: AnalysisResult)
    requires
        lines_total(file_views(files@)) <= u64::MAX,
    ensures
        file_views(r.graph.files@) == file_views(files@) + links_of(files@, disk@).stubs.map_values(
            |p: Seq<char>| reference_stub_view(p),
        ),
        edge_views(r.graph.edges@) == import_edge_views(links_of(files@, disk@).edges),
        r.total_files == files@.len(),
        r.total_files_walked == total_files_walked,
        r.total_lines == lines_total(file_views(files@)),
        r.analysis_time_ms == analysis_time_ms,
        r.total_files <= r.graph.files@.len(),
        r.total_lines == lines_total(file_views(r.graph.files@)),
        forall|i: int|
            files@.len() <= i < r.graph.files@.len() ==> (#[trigger] r.graph.files@[i])@.line_count
                == 0 && r.graph.files@[i]@.functions.len() == 0 && r.graph.files@[i]@.classes.len()
                == 0 && r.graph.files@[i]@.imports.len() == 0,
{
    let local_source_files = files.len() as u64;
    let (edges, reference_nodes) = build_import_edges(&files, disk);
    let ghost parsed = files@;
    let mut all = files;
    let mut refs = reference_nodes;
    let ghost ref_view = refs@;
    all.append(&mut refs);
    assert(file_views(all@) =~= file_views(parsed) + file_views(ref_view));
    proof {
        lemma_lines_total_append(file_views(parsed), file_views(ref_view));
        lemma_lines_total_stubs(links_of(parsed, disk@).stubs);
    }
    let n = all.len();
    let mut total: u64 = 0;
    let mut i: usize = 0;
    while i < n
        invariant
            i <= n == all@.len(),
            lines_total(file_views(all@)) <= u64::MAX,
            total == lines_total(file_views(all@).take(i as int)),
        decreases n - i,
    {
        proof {
            assert(file_views(all@).take(i + 1).drop_last() =~= file_views(all@).take(i as int));
            lemma_lines_total_append(file_views(all@).take(i + 1), file_views(all@).skip(i + 1));
            assert(file_views(all@).take(i + 1) + file_views(all@).skip(i + 1) =~= file_views(
                all@,
            ));
        }
        total = total + all[i].line_count as u64;
        i = i + 1;
    }
    assert(file_views(all@).take(n as int) =~= file_views(all@));
    assert forall|i: int|
        parsed.len() <= i < all@.len() implies (#[trigger] all@[i])@.line_count == 0
            && all@[i]@.functions.len() == 0 && all@[i]@.classes.len() == 0
            && all@[i]@.imports.len() == 0 by {
        assert(file_views(all@)[i] == all@[i]@);
        assert(file_views(all@)[i] == file_views(ref_view)[i - parsed.len()]);
    }
    AnalysisResult::new(
        CodeGraph { files: all, edges },
        local_source_files,
        total_files_walked,
        total,
        analysis_time_ms,
    )
}

} // verus!
