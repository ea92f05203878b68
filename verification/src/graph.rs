//! Import edges between files: resolving relative import specifiers to files of the graph
//! (or to files found on disk), de-duplicating edges and adding nodes for unparsed targets.

use vstd::prelude::*;
use vstd::hash_map::StringHashMap;
use crate::models::{
    edge_views, file_views, reference_stub_view, Edge, FileNode, FileNodeView,
};
use crate::paths::{
    join, join_of, normalize_path_key, parent, parent_of, path_key, path_starts_with,
    starts_with_path, views, with_extension, with_extension_of,
};
use crate::text::{chars_of, starts_with_char, trim, trim_str};
use crate::syntax::opt_string_view;

verus! {

broadcast use vstd::string::group_string_axioms;

/// The extensions of the source files that are parsed, in the order they are tried.
pub open spec fn source_extensions() -> Seq<Seq<char>> {
    seq!["ts"@, "tsx"@, "js"@, "cs"@]
}

/// The extensions of the source files that are parsed, in the order they are tried.
pub fn source_extension_list() -> (r: Vec<&'static str>)
    ensures
        r@.len() == 4,
        r@.map_values(|e: &str| e@) == source_extensions(),
{
    let r = vec!["ts", "tsx", "js", "cs"];
    assert(r@.map_values(|e: &str| e@) =~= source_extensions());
    r
}

/// The keys tried for an import whose joined key is `base`: the key itself, then with each
/// source extension appended, then as a directory with an `index` file of each extension.
pub open spec fn candidates_of(base: Seq<char>) -> Seq<Seq<char>> {
    seq![base] + Seq::new(4, |i: int| base + "."@ + source_extensions()[i]) + Seq::new(
        4,
        |i: int| base + "/index."@ + source_extensions()[i],
    )
}

/// The keys tried for an import whose joined key is `base`.
pub fn candidate_paths(base: &str) -> (r: Vec<String>)
    ensures
        views(r@) == candidates_of(base@),
{
    let exts = source_extension_list();
    let mut v: Vec<String> = Vec::new();
    v.push(String::from_str(base));
    let mut i: usize = 0;
    while i < 4
        invariant
            i <= 4,
            exts@.len() == 4,
            exts@.map_values(|e: &str| e@) == source_extensions(),
            views(v@) == seq![base@] + Seq::new(i as nat, |k: int| base@ + "."@ + source_extensions()[k]),
        decreases 4 - i,
    {
        let mut s = String::from_str(base);
        s.append(".");
        s.append(exts[i]);
        assert(exts@.map_values(|e: &str| e@)[i as int] == exts@[i as int]@);
        assert(exts@[i as int]@ == source_extensions()[i as int]);
        let ghost old_views = views(v@);
        assert(s@ == base@ + "."@ + source_extensions()[i as int]);
        v.push(s);
        assert(views(v@) =~= old_views.push(base@ + "."@ + source_extensions()[i as int]));
        assert(Seq::new((i + 1) as nat, |k: int| base@ + "."@ + source_extensions()[k]) =~= Seq::new(
            i as nat,
            |k: int| base@ + "."@ + source_extensions()[k],
        ).push(base@ + "."@ + source_extensions()[i as int]));
        i = i + 1;
    }
    let ghost first = views(v@);
    let mut i: usize = 0;
    while i < 4
        invariant
            i <= 4,
            exts@.len() == 4,
            exts@.map_values(|e: &str| e@) == source_extensions(),
            views(v@) == first + Seq::new(i as nat, |k: int| base@ + "/index."@ + source_extensions()[k]),
        decreases 4 - i,
    {
        let mut s = String::from_str(base);
        s.append("/index.");
        s.append(exts[i]);
        assert(exts@.map_values(|e: &str| e@)[i as int] == exts@[i as int]@);
        assert(exts@[i as int]@ == source_extensions()[i as int]);
        let ghost old_views = views(v@);
        assert(s@ == base@ + "/index."@ + source_extensions()[i as int]);
        v.push(s);
        assert(views(v@) =~= old_views.push(base@ + "/index."@ + source_extensions()[i as int]));
        assert(Seq::new((i + 1) as nat, |k: int| base@ + "/index."@ + source_extensions()[k])
            =~= Seq::new(i as nat, |k: int| base@ + "/index."@ + source_extensions()[k]).push(
            base@ + "/index."@ + source_extensions()[i as int],
        ));
        i = i + 1;
    }
    assert(views(v@) =~= candidates_of(base@));
    v
}

/// The paths tried on disk for a relative import joined to `joined`: the path itself, then
/// with each source extension, then its `index` file of each extension.
pub open spec fn import_candidates_of(joined: Seq<char>) -> Seq<Seq<char>> {
    seq![joined] + Seq::new(4, |i: int| with_extension_of(joined, source_extensions()[i]))
        + Seq::new(4, |i: int| join_of(joined, "index."@ + source_extensions()[i]))
}

proof fn lemma_source_extensions_plain()
    ensures
        forall|i: int| 0 <= i < 4 ==> !(#[trigger] source_extensions()[i]).contains('/'),
{
    reveal_strlit("ts");
    reveal_strlit("tsx");
    reveal_strlit("js");
    reveal_strlit("cs");
    assert forall|i: int| 0 <= i < 4 implies !(#[trigger] source_extensions()[i]).contains('/') by {
        let e = source_extensions()[i];
        if e.contains('/') {
            let k = choose|k: int| 0 <= k < e.len() && e[k] == '/';
            assert(e[k] == '/');
        }
    }
}

/// The paths tried on disk for a relative import joined to `joined`.
pub fn import_path_candidates(joined: &str) -> (r: Vec<String>)
    ensures
        views(r@) == import_candidates_of(joined@),
{
    let exts = source_extension_list();
    let mut v: Vec<String> = Vec::new();
    v.push(String::from_str(joined));
    let mut i: usize = 0;
    while i < 4
        invariant
            i <= 4,
            exts@.len() == 4,
            exts@.map_values(|e: &str| e@) == source_extensions(),
            views(v@) == seq![joined@] + Seq::new(
                i as nat,
                |k: int| with_extension_of(joined@, source_extensions()[k]),
            ),
        decreases 4 - i,
    {
        assert(exts@.map_values(|e: &str| e@)[i as int] == exts@[i as int]@);
        assert(exts@[i as int]@ == source_extensions()[i as int]);
        proof {
            lemma_source_extensions_plain();
        }
        let w = with_extension(joined, exts[i]);
        let ghost old_views = views(v@);
        v.push(w);
        assert(views(v@) =~= old_views.push(with_extension_of(joined@, source_extensions()[i as int])));
        assert(Seq::new((i + 1) as nat, |k: int| with_extension_of(joined@, source_extensions()[k]))
            =~= Seq::new(i as nat, |k: int| with_extension_of(joined@, source_extensions()[k])).push(
            with_extension_of(joined@, source_extensions()[i as int]),
        ));
        i = i + 1;
    }
    let ghost first = views(v@);
    let mut i: usize = 0;
    while i < 4
        invariant
            i <= 4,
            exts@.len() == 4,
            exts@.map_values(|e: &str| e@) == source_extensions(),
            views(v@) == first + Seq::new(
                i as nat,
                |k: int| join_of(joined@, "index."@ + source_extensions()[k]),
            ),
        decreases 4 - i,
    {
        assert(exts@.map_values(|e: &str| e@)[i as int] == exts@[i as int]@);
        assert(exts@[i as int]@ == source_extensions()[i as int]);
        let mut name = String::from_str("index.");
        name.append(exts[i]);
        let w = join(joined, name.as_str());
        let ghost old_views = views(v@);
        v.push(w);
        assert(views(v@) =~= old_views.push(join_of(joined@, "index."@ + source_extensions()[i as int])));
        assert(Seq::new((i + 1) as nat, |k: int| join_of(joined@, "index."@ + source_extensions()[k]))
            =~= Seq::new(i as nat, |k: int| join_of(joined@, "index."@ + source_extensions()[k])).push(
            join_of(joined@, "index."@ + source_extensions()[i as int]),
        ));
        i = i + 1;
    }
    assert(views(v@) =~= import_candidates_of(joined@));
    v
}

/// The key of each of the first `n` files mapped to its index; a later file with the same key
/// replaces an earlier one.
pub open spec fn index_map(files: Seq<FileNode>, n: int) -> Map<Seq<char>, usize>
    decreases n,
{
    if n <= 0 {
        Map::empty()
    } else {
        index_map(files, n - 1).insert(path_key(files[n - 1].path@), (n - 1) as usize)
    }
}

pub proof fn lemma_index_map_range(files: Seq<FileNode>, n: int)
    requires
        n <= usize::MAX,
    ensures
        forall|k: Seq<char>|
            #![trigger index_map(files, n)[k]]
            index_map(files, n).contains_key(k) ==> index_map(files, n)[k] < n,
    decreases n,
{
    if n > 0 {
        lemma_index_map_range(files, n - 1);
        assert forall|k: Seq<char>|
            #![trigger index_map(files, n)[k]]
            index_map(files, n).contains_key(k) implies index_map(files, n)[k] < n by {
            if k != path_key(files[n - 1].path@) {
                assert(index_map(files, n - 1).contains_key(k));
                assert(index_map(files, n)[k] == index_map(files, n - 1)[k]);
            }
        }
    }
}

/// The first of `cands[i..]` that is a key of `m`, mapped through `m`.
pub open spec fn first_hit(m: Map<Seq<char>, usize>, cands: Seq<Seq<char>>, i: int) -> Option<usize>
    decreases cands.len() - i,
{
    if i < 0 || i >= cands.len() {
        None
    } else if m.contains_key(cands[i]) {
        Some(m[cands[i]])
    } else {
        first_hit(m, cands, i + 1)
    }
}

/// The file that a relative import `spec` of the file at `from` names, found by key among
/// `files`.
pub open spec fn resolve_in_index(files: Seq<FileNode>, from: Seq<char>, spec: Seq<char>) -> Option<
    usize,
> {
    if starts_with_char(spec, '.') {
        match parent_of(from) {
            Some(base) => first_hit(
                index_map(files, files.len() as int),
                candidates_of(path_key(join_of(base, spec))),
                0,
            ),
            None => None,
        }
    } else {
        None
    }
}

/// The files of a graph, indexed by path key.
pub struct FileIndex<'a> {
    files: &'a Vec<FileNode>,
    by_path: StringHashMap<usize>,
}

impl<'a> FileIndex<'a> {
    /// The files this index was built over.
    pub closed spec fn files(&self) -> Seq<FileNode> {
        self.files@
    }

    /// The index relates exactly the keys of its files to their positions.
    pub closed spec fn wf(&self) -> bool {
        &&& self.files@.len() <= usize::MAX
        &&& self.by_path@ == index_map(self.files@, self.files@.len() as int)
    }

    /// An index over `files`.
    pub fn new(files: &'a Vec<FileNode>) -> (r: FileIndex<'a>)
        ensures
            r.wf(),
            r.files() == files@,
    {
        let mut by_path: StringHashMap<usize> = StringHashMap::new();
        let n = files.len();
        let mut i: usize = 0;
        while i < n
            invariant
                i <= n == files@.len(),
                by_path@ == index_map(files@, i as int),
            decreases n - i,
        {
            let key = normalize_path_key(files[i].path.as_str());
            by_path.insert(key, i);
            assert(by_path@ =~= index_map(files@, i + 1));
            i = i + 1;
        }
        FileIndex { files, by_path }
    }

    /// The file whose path key is `key` (the last such file).
    pub fn node_for_normalized_path(&self, key: &str) -> (r: Option<&'a FileNode>)
        requires
            self.wf(),
        ensures
            match r {
                Some(f) => index_map(self.files(), self.files().len() as int).contains_key(key@)
                    && *f == self.files()[index_map(self.files(), self.files().len() as int)[key@] as int],
                None => !index_map(self.files(), self.files().len() as int).contains_key(key@),
            },
    {
        proof {
            lemma_index_map_range(self.files@, self.files@.len() as int);
        }
        match self.by_path.get(key) {
            Some(i) => Some(&self.files[*i]),
            None => None,
        }
    }

    /// The file of the graph that the relative import `spec` of the file at `from_path` names.
    pub fn resolve(&self, from_path: &str, spec: &str) -> (r: Option<&'a FileNode>)
        requires
            self.wf(),
        ensures
            match r {
                Some(f) => exists|i: usize|
                    resolve_in_index(self.files(), from_path@, spec@) == Some(i) && i
                        < self.files().len() && *f == self.files()[i as int],
                None => resolve_in_index(self.files(), from_path@, spec@) is None,
            },
    {
        let cs = chars_of(spec);
        if cs.len() > 0 && cs[0] == '.' {
            let base = match parent(from_path) {
                Some(b) => b,
                None => {
                    return None;
                },
            };
            let joined = normalize_path_key(join(base, spec).as_str());
            let cands = candidate_paths(joined.as_str());
            let ghost m = index_map(self.files@, self.files@.len() as int);

            assert(resolve_in_index(self.files@, from_path@, spec@) == first_hit(
                m,
                candidates_of(path_key(join_of(base@, spec@))),
                0,
            ));
            proof {
                lemma_index_map_range(self.files@, self.files@.len() as int);
            }
            let n = cands.len();
            let mut i: usize = 0;
            while i < n
                invariant
                    i <= n == cands@.len(),
                    self.wf(),
                    self.files@.len() <= usize::MAX,
                    resolve_in_index(self.files@, from_path@, spec@) == first_hit(
                        m,
                        candidates_of(path_key(join_of(base@, spec@))),
                        0,
                    ),
                    m == index_map(self.files@, self.files@.len() as int),
                    views(cands@) == candidates_of(path_key(join_of(base@, spec@))),
                    first_hit(m, views(cands@), 0) == first_hit(m, views(cands@), i as int),
                decreases n - i,
            {
                match self.node_for_normalized_path(cands[i].as_str()) {
                    Some(f) => {
                        assert(views(cands@)[i as int] == cands@[i as int]@);
                        assert(first_hit(m, views(cands@), i as int) == Some(m[cands@[i as int]@]));
                        let ghost k = m[cands@[i as int]@];
                        proof {
                            lemma_index_map_range(self.files@, self.files@.len() as int);
                        }
                        assert(resolve_in_index(self.files(), from_path@, spec@) == Some(k));
                        assert(k < self.files().len() && *f == self.files()[k as int]);
                        return Some(f);
                    },
                    None => {
                        assert(views(cands@)[i as int] == cands@[i as int]@);
                    },
                }
                i = i + 1;
            }
            None
        } else {
            None
        }
    }
}

/// The targets of the edges in `e` whose source is `s`, in order.
pub open spec fn targets_of(e: Seq<(Seq<char>, Seq<char>)>, s: Seq<char>) -> Seq<Seq<char>>
    decreases e.len(),
{
    if e.len() == 0 {
        Seq::empty()
    } else {
        targets_of(e.drop_last(), s) + if e.last().0 == s {
            seq![e.last().1]
        } else {
            Seq::empty()
        }
    }
}

pub proof fn lemma_targets_of_contains(e: Seq<(Seq<char>, Seq<char>)>, s: Seq<char>, t: Seq<char>)
    ensures
        e.contains((s, t)) <==> targets_of(e, s).contains(t),
    decreases e.len(),
{
    if e.len() == 0 {
        assert(!e.contains((s, t)));
        assert(!targets_of(e, s).contains(t));
    } else {
        let d = e.drop_last();
        lemma_targets_of_contains(d, s, t);
        let td = targets_of(d, s);
        let tail: Seq<Seq<char>> = if e.last().0 == s {
            seq![e.last().1]
        } else {
            Seq::empty()
        };
        assert(targets_of(e, s) == td + tail);
        if e.contains((s, t)) {
            let k = choose|k: int| 0 <= k < e.len() && e[k] == (s, t);
            if k < e.len() - 1 {
                assert(d[k] == (s, t));
                assert(d.contains((s, t)));
                let j = choose|j: int| 0 <= j < td.len() && td[j] == t;
                assert((td + tail)[j] == t);
            } else {
                assert((td + tail)[td.len() as int] == t);
            }
        }
        if targets_of(e, s).contains(t) {
            let k = choose|k: int| 0 <= k < (td + tail).len() && (td + tail)[k] == t;
            if k < td.len() {
                assert(td[k] == t);
                assert(td.contains(t));
                let j = choose|j: int| 0 <= j < d.len() && d[j] == (s, t);
                assert(e[j] == (s, t));
            } else {
                assert(tail[k - td.len()] == t);
                assert(e[e.len() - 1] == (s, t));
            }
        }
    }
}

/// What the walk over the imports has produced so far: edges (source, target), the paths of
/// the unparsed targets met (each once), those paths by key, and how many on-disk lookups
/// have been consumed.
pub struct LinkState {
    pub edges: Seq<(Seq<char>, Seq<char>)>,
    pub stubs: Seq<Seq<char>>,
    pub stub_of: Map<Seq<char>, Seq<char>>,
    pub used: nat,
}

pub open spec fn initial_links() -> LinkState {
    LinkState { edges: Seq::empty(), stubs: Seq::empty(), stub_of: Map::empty(), used: 0 }
}

/// `st` with the edge `s -> t` added unless it is already there.
pub open spec fn add_edge(st: LinkState, s: Seq<char>, t: Seq<char>) -> LinkState {
    if st.edges.contains((s, t)) {
        st
    } else {
        LinkState { edges: st.edges.push((s, t)), ..st }
    }
}

/// The `k`-th on-disk lookup result; lookups beyond the list found nothing.
pub open spec fn disk_answer(disk: Seq<Option<String>>, k: nat) -> Option<Seq<char>> {
    if k < disk.len() {
        match disk[k as int] {
            Some(p) => Some(p@),
            None => None,
        }
    } else {
        None
    }
}

/// Whether the import `raw` of the file at `src` needs an on-disk lookup: it is relative and
/// names no file of the graph.
pub open spec fn needs_disk(files: Seq<FileNode>, src: Seq<char>, raw: Seq<char>) -> bool {
    let t = trim(raw);
    t.len() > 0 && resolve_in_index(files, src, t) is None && starts_with_char(t, '.')
}

/// One import `raw` of the file at `src`, applied to `st`.
pub open spec fn link_step(
    files: Seq<FileNode>,
    disk: Seq<Option<String>>,
    st: LinkState,
    src: Seq<char>,
    raw: Seq<char>,
) -> LinkState {
    let t = trim(raw);
    if t.len() == 0 {
        st
    } else {
        match resolve_in_index(files, src, t) {
            Some(i) => add_edge(st, src, files[i as int].path@),
            None => if starts_with_char(t, '.') {
                let st1 = LinkState { used: st.used + 1, ..st };
                match disk_answer(disk, st.used) {
                    None => st1,
                    Some(p) => {
                        let nk = path_key(p);
                        let m = index_map(files, files.len() as int);
                        if m.contains_key(nk) {
                            add_edge(st1, src, files[m[nk] as int].path@)
                        } else if st1.stub_of.contains_key(nk) {
                            add_edge(st1, src, st1.stub_of[nk])
                        } else {
                            add_edge(
                                LinkState {
                                    stubs: st1.stubs.push(p),
                                    stub_of: st1.stub_of.insert(nk, p),
                                    ..st1
                                },
                                src,
                                p,
                            )
                        }
                    },
                }
            } else {
                st
            },
        }
    }
}

/// The imports of `f`, each with the path of `f`.
pub open spec fn file_items(f: FileNode) -> Seq<(Seq<char>, Seq<char>)> {
    views(f.imports@).map_values(|x: Seq<char>| (f.path@, x))
}

/// The imports of the first `n` files, in order, each with the path of its file.
pub open spec fn import_items(files: Seq<FileNode>, n: int) -> Seq<(Seq<char>, Seq<char>)>
    decreases n,
{
    if n <= 0 {
        Seq::empty()
    } else {
        import_items(files, n - 1) + file_items(files[n - 1])
    }
}

/// The state after applying the imports `items` in order.
pub open spec fn link_fold(
    files: Seq<FileNode>,
    disk: Seq<Option<String>>,
    items: Seq<(Seq<char>, Seq<char>)>,
) -> LinkState
    decreases items.len(),
{
    if items.len() == 0 {
        initial_links()
    } else {
        link_step(files, disk, link_fold(files, disk, items.drop_last()), items.last().0, items.last().1)
    }
}

/// The state after all imports of all files.
pub open spec fn links_of(files: Seq<FileNode>, disk: Seq<Option<String>>) -> LinkState {
    link_fold(files, disk, import_items(files, files.len() as int))
}

/// The on-disk lookups that the imports `items` need, in order: (importing file, import).
pub open spec fn query_fold(files: Seq<FileNode>, items: Seq<(Seq<char>, Seq<char>)>) -> Seq<
    (Seq<char>, Seq<char>),
>
    decreases items.len(),
{
    if items.len() == 0 {
        Seq::empty()
    } else {
        query_fold(files, items.drop_last()) + if needs_disk(
            files,
            items.last().0,
            items.last().1,
        ) {
            seq![(items.last().0, trim(items.last().1))]
        } else {
            Seq::empty()
        }
    }
}

/// The on-disk lookups that all imports of all files need.
pub open spec fn queries_of(files: Seq<FileNode>) -> Seq<(Seq<char>, Seq<char>)> {
    query_fold(files, import_items(files, files.len() as int))
}

/// The edges, as (source, target, "import").
pub open spec fn import_edge_views(e: Seq<(Seq<char>, Seq<char>)>) -> Seq<
    (Seq<char>, Seq<char>, Seq<char>),
> {
    e.map_values(|p: (Seq<char>, Seq<char>)| (p.0, p.1, "import"@))
}

/// The exec edge list and its source-to-targets map hold the edges `e`.
pub open spec fn edges_match(
    edges: Seq<Edge>,
    seen: Map<Seq<char>, Vec<String>>,
    e: Seq<(Seq<char>, Seq<char>)>,
) -> bool {
    &&& edge_views(edges) == import_edge_views(e)
    &&& forall|s: Seq<char>| #[trigger]
        seen.contains_key(s) ==> views(seen[s]@) == targets_of(e, s)
    &&& forall|s: Seq<char>| !seen.contains_key(s) ==> #[trigger] targets_of(e, s) == Seq::<
        Seq<char>,
    >::empty()
}

fn contains_str(v: &Vec<String>, t: &str) -> (r: bool)
    ensures
        r == views(v@).contains(t@),
{
    let n = v.len();
    let mut i: usize = 0;
    while i < n
        invariant
            i <= n == v@.len(),
            forall|k: int| 0 <= k < i ==> views(v@)[k] != t@,
        decreases n - i,
    {
        if crate::text::str_eq(v[i].as_str(), t) {
            assert(views(v@)[i as int] == t@);
            return true;
        }
        i = i + 1;
    }
    false
}

fn clone_strings(v: &Vec<String>) -> (r: Vec<String>)
    ensures
        views(r@) == views(v@),
{
    let mut r: Vec<String> = Vec::new();
    let n = v.len();
    let mut i: usize = 0;
    while i < n
        invariant
            i <= n == v@.len(),
            views(r@) == views(v@).take(i as int),
        decreases n - i,
    {
        let ghost before = r@;
        let c = v[i].clone();
        r.push(c);
        assert(r@ =~= before.push(c));
        assert(views(r@) =~= views(before).push(v@[i as int]@));
        assert(views(r@) =~= views(v@).take(i + 1));
        i = i + 1;
    }
    assert(views(v@).take(n as int) =~= views(v@));
    r
}

fn push_edge(
    edges: &mut Vec<Edge>,
    seen: &mut StringHashMap<Vec<String>>,
    s: &str,
    t: &str,
    Ghost(e): Ghost<Seq<(Seq<char>, Seq<char>)>>,
)
    requires
        edges_match(old(edges)@, old(seen)@, e),
    ensures
        edges_match(final(edges)@, final(seen)@, if e.contains((s@, t@)) {
            e
        } else {
            e.push((s@, t@))
        }),
{
    proof {
        lemma_targets_of_contains(e, s@, t@);
    }
    let present = match seen.get(s) {
        Some(v) => contains_str(v, t),
        None => false,
    };
    if present {
        return;
    }
    let mut v2 = match seen.get(s) {
        Some(v) => clone_strings(v),
        None => Vec::new(),
    };
    let ghost old_targets = views(v2@);
    assert(old_targets == targets_of(e, s@));
    v2.push(String::from_str(t));
    seen.insert(String::from_str(s), v2);
    let ghost e2 = e.push((s@, t@));
    assert(e2.drop_last() =~= e);
    let ghost before = edges@;
    let edge = Edge {
        source: String::from_str(s),
        target: String::from_str(t),
        edge_type: String::from_str("import"),
    };
    edges.push(edge);
    assert(edges@ =~= before.push(edge));
    assert(edge_views(edges@) =~= edge_views(before).push((s@, t@, "import"@)));
    assert(import_edge_views(e2) =~= import_edge_views(e).push((s@, t@, "import"@)));
    assert(edge_views(edges@) =~= import_edge_views(e2));
    assert forall|x: Seq<char>| #[trigger] seen@.contains_key(x) implies views(seen@[x]@) == targets_of(e2, x) by {
        if x == s@ {
            assert(views(seen@[x]@) =~= old_targets.push(t@));
            assert(targets_of(e2, x) =~= targets_of(e, x).push(t@));
        } else {
            assert(targets_of(e2, x) =~= targets_of(e, x));
        }
    }
    assert forall|x: Seq<char>| !seen@.contains_key(x) implies #[trigger] targets_of(e2, x) == Seq::<Seq<char>>::empty() by {
        assert(targets_of(e2, x) =~= targets_of(e, x));
    }
}

/// The exec state holds the link state `st`.
pub open spec fn state_match(
    edges: Seq<Edge>,
    seen: Map<Seq<char>, Vec<String>>,
    stubs: Seq<FileNode>,
    stub_paths: Map<Seq<char>, String>,
    used: usize,
    disk_len: nat,
    st: LinkState,
) -> bool {
    &&& edges_match(edges, seen, st.edges)
    &&& file_views(stubs) == st.stubs.map_values(|p: Seq<char>| reference_stub_view(p))
    &&& stub_paths.dom() == st.stub_of.dom()
    &&& forall|k: Seq<char>| #[trigger]
        stub_paths.contains_key(k) ==> stub_paths[k]@ == st.stub_of[k]
    &&& used as nat == if st.used < disk_len {
        st.used
    } else {
        disk_len
    }
}

proof fn lemma_fold_push(
    files: Seq<FileNode>,
    disk: Seq<Option<String>>,
    items: Seq<(Seq<char>, Seq<char>)>,
    x: (Seq<char>, Seq<char>),
)
    ensures
        link_fold(files, disk, items.push(x)) == link_step(
            files,
            disk,
            link_fold(files, disk, items),
            x.0,
            x.1,
        ),
        query_fold(files, items.push(x)) == query_fold(files, items) + if needs_disk(
            files,
            x.0,
            x.1,
        ) {
            seq![(x.0, trim(x.1))]
        } else {
            Seq::empty()
        },
{
    assert(items.push(x).drop_last() =~= items);
}

/// The import edges between `files` and the nodes for unparsed files that they reach.
///
/// `disk[k]` is the result of the `k`-th on-disk lookup listed by [`disk_queries`]: the
/// canonical path of the file that the relative import names on disk, if any. An import
/// yields an edge when its trimmed text names a file of the graph by key, or when the lookup
/// finds a file: a file of the graph by key, or else a node for the unparsed file (one per
/// key, the first path seen). Each (source, target) pair appears once, in the order first met.
pub fn build_import_edges(files: &Vec<FileNode>, disk: &Vec<Option<String>>) -> (r: (
    Vec<Edge>,
    Vec<FileNode>,
))
    ensures
        edge_views(r.0@) == import_edge_views(links_of(files@, disk@).edges),
        file_views(r.1@) == links_of(files@, disk@).stubs.map_values(
            |p: Seq<char>| reference_stub_view(p),
        ),
{
    let index = FileIndex::new(files);
    let mut edges: Vec<Edge> = Vec::new();
    let mut seen: StringHashMap<Vec<String>> = StringHashMap::new();
    let mut stubs: Vec<FileNode> = Vec::new();
    let mut stub_paths: StringHashMap<String> = StringHashMap::new();
    let mut used: usize = 0;
    let ghost mut st = initial_links();
    let ghost dl = disk@.len();
    let nf = files.len();
    assert(edge_views(edges@) =~= import_edge_views(st.edges));
    assert(file_views(stubs@) =~= st.stubs.map_values(|p: Seq<char>| reference_stub_view(p)));
    assert(stub_paths@.dom() =~= st.stub_of.dom());
    let mut i: usize = 0;
    while i < nf
        invariant
            i <= nf == files@.len(),
            index.wf(),
            index.files() == files@,
            dl == disk@.len(),
            state_match(edges@, seen@, stubs@, stub_paths@, used, dl, st),
            st == link_fold(files@, disk@, import_items(files@, i as int)),
        decreases nf - i,
    {
        let file = &files[i];
        let ni = file.imports.len();
        let ghost base_items = import_items(files@, i as int);
        let mut j: usize = 0;
        while j < ni
            invariant
                i < nf == files@.len(),
                *file == files@[i as int],
                j <= ni == file.imports@.len(),
                index.wf(),
                index.files() == files@,
                dl == disk@.len(),
                base_items == import_items(files@, i as int),
                state_match(edges@, seen@, stubs@, stub_paths@, used, dl, st),
                st == link_fold(files@, disk@, base_items + file_items(*file).take(j as int)),
            decreases ni - j,
        {
            let ghost prefix = base_items + file_items(*file).take(j as int);
            let ghost x = file_items(*file)[j as int];
            proof {
                assert(x == (file.path@, file.imports@[j as int]@));
                assert(base_items + file_items(*file).take(j + 1) =~= prefix.push(x));
                lemma_fold_push(files@, disk@, prefix, x);
            }
            let ghost next = link_step(files@, disk@, st, x.0, x.1);
            let spec_trim = trim_str(file.imports[j].as_str());
            let tc = chars_of(spec_trim);
            if tc.len() > 0 {
                match index.resolve(file.path.as_str(), spec_trim) {
                    Some(target) => {
                        let ghost k = choose|k: usize|
                            resolve_in_index(files@, file.path@, spec_trim@) == Some(k) && k
                                < files@.len() && *target == files@[k as int];
                        push_edge(&mut edges, &mut seen, file.path.as_str(), target.path.as_str(), Ghost(st.edges));
                        proof {
                            st = next;
                        }
                    },
                    None => {
                        if tc[0] == '.' {
                            let answer: Option<&String> = if used < disk.len() {
                                match &disk[used] {
                                    Some(p) => Some(p),
                                    None => None,
                                }
                            } else {
                                None
                            };
                            if used < disk.len() {
                                used = used + 1;
                            }
                            let ghost st1 = LinkState { used: st.used + 1, ..st };
                            assert(st.used < dl ==> used == st.used + 1);
                            match answer {
                                None => {
                                    proof {
                                        st = st1;
                                    }
                                },
                                Some(p) => {
                                    let nk = normalize_path_key(p.as_str());
                                    match index.node_for_normalized_path(nk.as_str()) {
                                        Some(n) => {
                                            push_edge(&mut edges, &mut seen, file.path.as_str(), n.path.as_str(), Ghost(st1.edges));
                                            proof {
                                                st = next;
                                            }
                                        },
                                        None => {
                                            match stub_paths.get(nk.as_str()) {
                                                Some(sp) => {
                                                    push_edge(&mut edges, &mut seen, file.path.as_str(), sp.as_str(), Ghost(st1.edges));
                                                    proof {
                                                        st = next;
                                                    }
                                                },
                                                None => {
                                                    let stub = FileNode::reference_stub(p.as_str());
                                                    let ghost before_stubs = stubs@;
                                                    stubs.push(stub);
                                                    stub_paths.insert(nk, p.clone());
                                                    push_edge(&mut edges, &mut seen, file.path.as_str(), p.as_str(), Ghost(st1.edges));
                                                    proof {
                                                        let st2 = LinkState {
                                                            stubs: st1.stubs.push(p@),
                                                            stub_of: st1.stub_of.insert(nk@, p@),
                                                            ..st1
                                                        };
                                                        assert(stubs@ =~= before_stubs.push(stub));
                                                        assert(file_views(stubs@) =~= file_views(before_stubs).push(
                                                            reference_stub_view(p@),
                                                        ));
                                                        assert(st2.stubs.map_values(
                                                            |q: Seq<char>| reference_stub_view(q),
                                                        ) =~= st1.stubs.map_values(
                                                            |q: Seq<char>| reference_stub_view(q),
                                                        ).push(reference_stub_view(p@)));
                                                        assert(file_views(stubs@) =~= st2.stubs.map_values(
                                                            |q: Seq<char>| reference_stub_view(q),
                                                        ));
                                                        assert(stub_paths@.dom() =~= st2.stub_of.dom());
                                                        st = next;
                                                    }
                                                },
                                            }
                                        },
                                    }
                                },
                            }
                        } else {
                            proof {
                                st = next;
                            }
                        }
                    },
                }
            } else {
                proof {
                    st = next;
                }
            }
            j = j + 1;
        }
        proof {
            assert(file_items(*file).take(ni as int) =~= file_items(*file));
            assert(import_items(files@, i + 1) == base_items + file_items(files@[i as int]));
        }
        i = i + 1;
    }
    (edges, stubs)
}

/// The text of each query.
pub open spec fn query_views(q: Seq<(String, String)>) -> Seq<(Seq<char>, Seq<char>)> {
    q.map_values(|x: (String, String)| (x.0@, x.1@))
}

/// The on-disk lookups that the imports of `files` need, in the order that
/// [`build_import_edges`] consumes their results: (path of the importing file, trimmed import).
pub fn disk_queries(files: &Vec<FileNode>) -> (r: Vec<(String, String)>)
    ensures
        query_views(r@) == queries_of(files@),
{
    let index = FileIndex::new(files);
    let mut out: Vec<(String, String)> = Vec::new();
    let nf = files.len();
    let mut i: usize = 0;
    assert(query_views(out@) =~= query_fold(files@, import_items(files@, 0)));
    while i < nf
        invariant
            i <= nf == files@.len(),
            index.wf(),
            index.files() == files@,
            query_views(out@) == query_fold(files@, import_items(files@, i as int)),
        decreases nf - i,
    {
        let file = &files[i];
        let ni = file.imports.len();
        let ghost base_items = import_items(files@, i as int);
        let mut j: usize = 0;
        while j < ni
            invariant
                i < nf == files@.len(),
                *file == files@[i as int],
                j <= ni == file.imports@.len(),
                index.wf(),
                index.files() == files@,
                base_items == import_items(files@, i as int),
                query_views(out@) == query_fold(files@, base_items + file_items(*file).take(j as int)),
            decreases ni - j,
        {
            let ghost prefix = base_items + file_items(*file).take(j as int);
            let ghost x = file_items(*file)[j as int];
            proof {
                assert(x == (file.path@, file.imports@[j as int]@));
                assert(base_items + file_items(*file).take(j + 1) =~= prefix.push(x));
                lemma_fold_push(files@, Seq::empty(), prefix, x);
            }
            let spec_trim = trim_str(file.imports[j].as_str());
            let tc = chars_of(spec_trim);
            let needs = tc.len() > 0 && index.resolve(file.path.as_str(), spec_trim).is_none() && tc[0] == '.';
            let ghost before = out@;
            if needs {
                out.push((file.path.clone(), String::from_str(spec_trim)));
                assert(query_views(out@) =~= query_views(before).push((x.0, trim(x.1))));
            } else {
                assert(query_views(out@) =~= query_views(before));
            }
            j = j + 1;
        }
        proof {
            assert(file_items(*file).take(ni as int) =~= file_items(*file));
        }
        i = i + 1;
    }
    out
}

// ---------------------------------------------------------------- laws

/// `p` is the path of one of `files`.
pub open spec fn is_file_path(files: Seq<FileNode>, p: Seq<char>) -> bool {
    exists|i: int| 0 <= i < files.len() && files[i].path@ == p
}

/// What every state of the walk keeps.
pub open spec fn link_inv(files: Seq<FileNode>, st: LinkState) -> bool {
    let m = index_map(files, files.len() as int);
    &&& forall|a: int, b: int|
        0 <= a < b < st.edges.len() ==> #[trigger] st.edges[a] != #[trigger] st.edges[b]
    &&& forall|a: int|
        0 <= a < st.edges.len() ==> is_file_path(files, #[trigger] st.edges[a].0)
    &&& forall|a: int|
        0 <= a < st.edges.len() ==> is_file_path(files, (#[trigger] st.edges[a]).1)
            || st.stubs.contains(st.edges[a].1)
    &&& forall|a: int|
        0 <= a < st.stubs.len() ==> !m.contains_key(path_key(#[trigger] st.stubs[a]))
    &&& forall|a: int, b: int|
        0 <= a < b < st.stubs.len() ==> path_key(#[trigger] st.stubs[a]) != path_key(
            #[trigger] st.stubs[b],
        )
    &&& forall|a: int|
        0 <= a < st.stubs.len() ==> #[trigger] st.stub_of.contains_key(path_key(st.stubs[a]))
            && st.stub_of[path_key(st.stubs[a])] == st.stubs[a]
    &&& forall|k: Seq<char>|
        #[trigger] st.stub_of.contains_key(k) ==> exists|a: int|
            0 <= a < st.stubs.len() && path_key(#[trigger] st.stubs[a]) == k
}

proof fn lemma_add_edge_inv(files: Seq<FileNode>, st: LinkState, s: Seq<char>, t: Seq<char>)
    requires
        link_inv(files, st),
        is_file_path(files, s),
        is_file_path(files, t) || st.stubs.contains(t),
    ensures
        link_inv(files, add_edge(st, s, t)),
{
    if !st.edges.contains((s, t)) {
        let st2 = add_edge(st, s, t);
        assert forall|a: int, b: int| 0 <= a < b < st2.edges.len() implies #[trigger] st2.edges[a]
            != #[trigger] st2.edges[b] by {
            if b == st.edges.len() {
                assert(st.edges[a] == st2.edges[a]);
            }
        }
    }
}

#[verifier::spinoff_prover]
proof fn lemma_step_inv(
    files: Seq<FileNode>,
    disk: Seq<Option<String>>,
    st: LinkState,
    src: Seq<char>,
    raw: Seq<char>,
)
    requires
        link_inv(files, st),
        is_file_path(files, src),
        files.len() <= usize::MAX,
    ensures
        link_inv(files, link_step(files, disk, st, src, raw)),
        link_step(files, disk, st, src, raw).used == st.used + if needs_disk(files, src, raw) {
            1nat
        } else {
            0nat
        },
        disk.len() == 0 && st.stubs.len() == 0 ==> link_step(files, disk, st, src, raw).stubs.len()
            == 0,
{
    let t = trim(raw);
    let m = index_map(files, files.len() as int);
    lemma_index_map_range(files, files.len() as int);
    if t.len() > 0 {
        match resolve_in_index(files, src, t) {
            Some(i) => {
                lemma_resolve_in_range(files, src, t);
                lemma_add_edge_inv(files, st, src, files[i as int].path@);
            },
            None => if starts_with_char(t, '.') {
                let st1 = LinkState { used: st.used + 1, ..st };
                assert(st1.edges == st.edges && st1.stubs == st.stubs && st1.stub_of == st.stub_of);
                assert(link_inv(files, st1));
                match disk_answer(disk, st.used) {
                    None => {},
                    Some(p) => {
                        let nk = path_key(p);
                        if m.contains_key(nk) {
                            assert(is_file_path(files, files[m[nk] as int].path@));
                            lemma_add_edge_inv(files, st1, src, files[m[nk] as int].path@);
                        } else if st1.stub_of.contains_key(nk) {
                            let a = choose|a: int|
                                0 <= a < st1.stubs.len() && path_key(#[trigger] st1.stubs[a]) == nk;
                            assert(st1.stubs.contains(st1.stub_of[nk]));
                            lemma_add_edge_inv(files, st1, src, st1.stub_of[nk]);
                        } else {
                            let st2 = LinkState {
                                stubs: st1.stubs.push(p),
                                stub_of: st1.stub_of.insert(nk, p),
                                ..st1
                            };
                            assert forall|a: int|
                                0 <= a < st2.edges.len() implies is_file_path(
                                files,
                                (#[trigger] st2.edges[a]).1,
                            ) || st2.stubs.contains(st2.edges[a].1) by {
                                if !is_file_path(files, st2.edges[a].1) {
                                    let b = choose|b: int|
                                        0 <= b < st1.stubs.len() && st1.stubs[b] == st2.edges[a].1;
                                    assert(st2.stubs[b] == st1.stubs[b]);
                                }
                            }
                            assert forall|a: int, b: int|
                                0 <= a < b < st2.stubs.len() implies path_key(
                                #[trigger] st2.stubs[a],
                            ) != path_key(#[trigger] st2.stubs[b]) by {
                                if b == st1.stubs.len() {
                                    assert(st1.stub_of.contains_key(path_key(st1.stubs[a])));
                                }
                            }
                            assert forall|k: Seq<char>|
                                #[trigger] st2.stub_of.contains_key(k) implies exists|a: int|
                                0 <= a < st2.stubs.len() && path_key(#[trigger] st2.stubs[a]) == k by {
                                if k == nk {
                                    assert(path_key(st2.stubs[st1.stubs.len() as int]) == k);
                                } else {
                                    let a = choose|a: int|
                                        0 <= a < st1.stubs.len() && path_key(#[trigger] st1.stubs[a]) == k;
                                    assert(st2.stubs[a] == st1.stubs[a]);
                                }
                            }
                            assert forall|a: int|
                                0 <= a < st2.stubs.len() implies #[trigger] st2.stub_of.contains_key(
                                path_key(st2.stubs[a]),
                            ) && st2.stub_of[path_key(st2.stubs[a])] == st2.stubs[a] by {
                                if a < st1.stubs.len() {
                                    assert(st2.stubs[a] == st1.stubs[a]);
                                    assert(st1.stub_of.contains_key(path_key(st1.stubs[a])));
                                }
                            }
                            assert(link_inv(files, st2));
                            assert(st2.stubs[st1.stubs.len() as int] == p);
                            lemma_add_edge_inv(files, st2, src, p);
                        }
                    },
                }
            } else {
            },
        }
    }
}

proof fn lemma_resolve_in_range(files: Seq<FileNode>, src: Seq<char>, t: Seq<char>)
    requires
        files.len() <= usize::MAX,
    ensures
        resolve_in_index(files, src, t) matches Some(i) ==> i < files.len(),
{
    lemma_index_map_range(files, files.len() as int);
    if starts_with_char(t, '.') {
        match parent_of(src) {
            Some(base) => {
                lemma_first_hit_in_range(
                    files,
                    candidates_of(path_key(join_of(base, t))),
                    0,
                );
            },
            None => {},
        }
    }
}

proof fn lemma_first_hit_in_range(files: Seq<FileNode>, cands: Seq<Seq<char>>, i: int)
    requires
        files.len() <= usize::MAX,
    ensures
        first_hit(index_map(files, files.len() as int), cands, i) matches Some(k) ==> k
            < files.len(),
    decreases cands.len() - i,
{
    lemma_index_map_range(files, files.len() as int);
    if 0 <= i < cands.len() && !index_map(files, files.len() as int).contains_key(cands[i]) {
        lemma_first_hit_in_range(files, cands, i + 1);
    }
}

proof fn lemma_fold_inv(
    files: Seq<FileNode>,
    disk: Seq<Option<String>>,
    items: Seq<(Seq<char>, Seq<char>)>,
)
    requires
        files.len() <= usize::MAX,
        forall|k: int| 0 <= k < items.len() ==> is_file_path(files, #[trigger] items[k].0),
    ensures
        link_inv(files, link_fold(files, disk, items)),
        link_fold(files, disk, items).used == query_fold(files, items).len(),
        disk.len() == 0 ==> link_fold(files, disk, items).stubs.len() == 0,
    decreases items.len(),
{
    if items.len() > 0 {
        let d = items.drop_last();
        assert forall|k: int| 0 <= k < d.len() implies is_file_path(files, #[trigger] d[k].0) by {
            assert(d[k] == items[k]);
        }
        lemma_fold_inv(files, disk, d);
        assert(items[items.len() - 1] == items.last());
        lemma_step_inv(files, disk, link_fold(files, disk, d), items.last().0, items.last().1);
    } else {
        assert(link_inv(files, initial_links()));
    }
}

proof fn lemma_import_items_sources(files: Seq<FileNode>, n: int)
    requires
        n <= files.len(),
    ensures
        forall|k: int|
            0 <= k < import_items(files, n).len() ==> is_file_path(
                files,
                #[trigger] import_items(files, n)[k].0,
            ),
    decreases n,
{
    if n > 0 {
        lemma_import_items_sources(files, n - 1);
        let a = import_items(files, n - 1);
        let b = file_items(files[n - 1]);
        assert forall|k: int| 0 <= k < (a + b).len() implies is_file_path(files, #[trigger] (a
            + b)[k].0) by {
            if k >= a.len() {
                assert((a + b)[k] == b[k - a.len()]);
                assert(files[n - 1].path@ == b[k - a.len()].0);
            } else {
                assert((a + b)[k] == a[k]);
            }
        }
    }
}

/// Law: the edge list holds each (source, target) pair at most once.
pub proof fn law_edges_unique(files: Seq<FileNode>, disk: Seq<Option<String>>)
    requires
        files.len() <= usize::MAX,
    ensures
        forall|a: int, b: int|
            0 <= a < b < links_of(files, disk).edges.len() ==> #[trigger] links_of(
                files,
                disk,
            ).edges[a] != #[trigger] links_of(files, disk).edges[b],
{
    lemma_import_items_sources(files, files.len() as int);
    lemma_fold_inv(files, disk, import_items(files, files.len() as int));
}

/// Law: every edge leads from a file of the graph to a file of the graph or to one of the
/// nodes added for unparsed files.
pub proof fn law_edge_endpoints(files: Seq<FileNode>, disk: Seq<Option<String>>)
    requires
        files.len() <= usize::MAX,
    ensures
        forall|a: int|
            0 <= a < links_of(files, disk).edges.len() ==> is_file_path(
                files,
                (#[trigger] links_of(files, disk).edges[a]).0,
            ) && (is_file_path(files, links_of(files, disk).edges[a].1) || links_of(
                files,
                disk,
            ).stubs.contains(links_of(files, disk).edges[a].1)),
{
    lemma_import_items_sources(files, files.len() as int);
    lemma_fold_inv(files, disk, import_items(files, files.len() as int));
}

/// Law: a node is added for an unparsed file only when no file of the graph has its key, and
/// at most one per key.
pub proof fn law_stubs_fresh(files: Seq<FileNode>, disk: Seq<Option<String>>)
    requires
        files.len() <= usize::MAX,
    ensures
        forall|a: int|
            0 <= a < links_of(files, disk).stubs.len() ==> !index_map(
                files,
                files.len() as int,
            ).contains_key(path_key(#[trigger] links_of(files, disk).stubs[a])),
        forall|a: int, b: int|
            0 <= a < b < links_of(files, disk).stubs.len() ==> path_key(
                #[trigger] links_of(files, disk).stubs[a],
            ) != path_key(#[trigger] links_of(files, disk).stubs[b]),
{
    lemma_import_items_sources(files, files.len() as int);
    lemma_fold_inv(files, disk, import_items(files, files.len() as int));
}

/// Law: the edge walk consumes exactly one on-disk lookup result per query that
/// [`disk_queries`] lists, and without lookup results it adds no node for unparsed files.
pub proof fn law_disk_lookups(files: Seq<FileNode>, disk: Seq<Option<String>>)
    requires
        files.len() <= usize::MAX,
    ensures
        links_of(files, disk).used == queries_of(files).len(),
        disk.len() == 0 ==> links_of(files, disk).stubs.len() == 0,
{
    lemma_import_items_sources(files, files.len() as int);
    lemma_fold_inv(files, disk, import_items(files, files.len() as int));
}

/// `t` is the target of one of the edges `e`.
pub open spec fn is_target(e: Seq<(Seq<char>, Seq<char>)>, t: Seq<char>) -> bool {
    exists|b: int| 0 <= b < e.len() && (#[trigger] e[b]).1 == t
}

/// Every node added for an unparsed file is the target of some edge of `st`.
pub open spec fn stubs_reached(st: LinkState) -> bool {
    forall|a: int| 0 <= a < st.stubs.len() ==> is_target(st.edges, #[trigger] st.stubs[a])
}

proof fn lemma_add_edge_grows(st: LinkState, s: Seq<char>, t: Seq<char>)
    ensures
        add_edge(st, s, t).stubs == st.stubs,
        is_target(add_edge(st, s, t).edges, t),
        forall|x: Seq<char>| is_target(st.edges, x) ==> #[trigger] is_target(add_edge(st, s, t).edges, x),
{
    let e2 = add_edge(st, s, t).edges;
    if st.edges.contains((s, t)) {
        let b = choose|b: int| 0 <= b < st.edges.len() && st.edges[b] == (s, t);
        assert(e2[b] == (s, t));
    } else {
        assert(e2[st.edges.len() as int] == (s, t));
        assert forall|x: Seq<char>| is_target(st.edges, x) implies #[trigger] is_target(e2, x) by {
            let b = choose|b: int| 0 <= b < st.edges.len() && (#[trigger] st.edges[b]).1 == x;
            assert(e2[b] == st.edges[b]);
        }
    }
}

proof fn lemma_step_reached(
    files: Seq<FileNode>,
    disk: Seq<Option<String>>,
    st: LinkState,
    src: Seq<char>,
    raw: Seq<char>,
)
    requires
        stubs_reached(st),
    ensures
        stubs_reached(link_step(files, disk, st, src, raw)),
{
    let t = trim(raw);
    let m = index_map(files, files.len() as int);
    if t.len() > 0 {
        match resolve_in_index(files, src, t) {
            Some(i) => {
                lemma_add_edge_grows(st, src, files[i as int].path@);
            },
            None => if starts_with_char(t, '.') {
                let st1 = LinkState { used: st.used + 1, ..st };
                match disk_answer(disk, st.used) {
                    None => {},
                    Some(p) => {
                        let nk = path_key(p);
                        if m.contains_key(nk) {
                            lemma_add_edge_grows(st1, src, files[m[nk] as int].path@);
                        } else if st1.stub_of.contains_key(nk) {
                            lemma_add_edge_grows(st1, src, st1.stub_of[nk]);
                        } else {
                            let st2 = LinkState {
                                stubs: st1.stubs.push(p),
                                stub_of: st1.stub_of.insert(nk, p),
                                ..st1
                            };
                            lemma_add_edge_grows(st2, src, p);
                            let st3 = add_edge(st2, src, p);
                            assert forall|a: int| 0 <= a < st3.stubs.len() implies is_target(
                                st3.edges,
                                #[trigger] st3.stubs[a],
                            ) by {
                                if a < st1.stubs.len() {
                                    assert(st3.stubs[a] == st.stubs[a]);
                                }
                            }
                        }
                    },
                }
            } else {
            },
        }
    }
}

proof fn lemma_fold_reached(
    files: Seq<FileNode>,
    disk: Seq<Option<String>>,
    items: Seq<(Seq<char>, Seq<char>)>,
)
    ensures
        stubs_reached(link_fold(files, disk, items)),
    decreases items.len(),
{
    if items.len() > 0 {
        lemma_fold_reached(files, disk, items.drop_last());
        lemma_step_reached(
            files,
            disk,
            link_fold(files, disk, items.drop_last()),
            items.last().0,
            items.last().1,
        );
    }
}

/// Law: a node is added for an unparsed file only when an import reaches it: each such node
/// is the target of some edge.
pub proof fn law_stubs_reached(files: Seq<FileNode>, disk: Seq<Option<String>>)
    ensures
        stubs_reached(links_of(files, disk)),
{
    lemma_fold_reached(files, disk, import_items(files, files.len() as int));
}

/// Some import listed in `items` for the file at `s` is relative: its trimmed text starts
/// with `.`.
pub open spec fn relative_source(items: Seq<(Seq<char>, Seq<char>)>, s: Seq<char>) -> bool {
    exists|k: int|
        0 <= k < items.len() && (#[trigger] items[k]).0 == s && starts_with_char(
            trim(items[k].1),
            '.',
        )
}

/// Every edge of `edges` leaves a file that has a relative import in `items`.
pub open spec fn sources_relative(
    items: Seq<(Seq<char>, Seq<char>)>,
    edges: Seq<(Seq<char>, Seq<char>)>,
) -> bool {
    forall|a: int| 0 <= a < edges.len() ==> relative_source(items, (#[trigger] edges[a]).0)
}

proof fn lemma_add_edge_sources(
    items: Seq<(Seq<char>, Seq<char>)>,
    st: LinkState,
    s: Seq<char>,
    t: Seq<char>,
)
    requires
        sources_relative(items, st.edges),
        relative_source(items, s),
    ensures
        sources_relative(items, add_edge(st, s, t).edges),
{
    let e2 = add_edge(st, s, t).edges;
    assert forall|a: int| 0 <= a < e2.len() implies relative_source(items, (#[trigger] e2[a]).0) by {
        if a < st.edges.len() {
            assert(e2[a] == st.edges[a]);
        } else {
            assert(e2[a] == (s, t));
        }
    }
}

proof fn lemma_step_sources(
    files: Seq<FileNode>,
    disk: Seq<Option<String>>,
    st: LinkState,
    items: Seq<(Seq<char>, Seq<char>)>,
    x: (Seq<char>, Seq<char>),
)
    requires
        sources_relative(items, st.edges),
    ensures
        sources_relative(items.push(x), link_step(files, disk, st, x.0, x.1).edges),
{
    let items2 = items.push(x);
    let src = x.0;
    let t = trim(x.1);
    assert forall|a: int| 0 <= a < st.edges.len() implies relative_source(
        items2,
        (#[trigger] st.edges[a]).0,
    ) by {
        let k = choose|k: int|
            0 <= k < items.len() && (#[trigger] items[k]).0 == st.edges[a].0 && starts_with_char(
                trim(items[k].1),
                '.',
            );
        assert(items2[k] == items[k]);
    }
    if t.len() > 0 && starts_with_char(t, '.') {
        assert(items2[items.len() as int] == x);
        assert(relative_source(items2, src));
    }
    let m = index_map(files, files.len() as int);
    if t.len() > 0 {
        match resolve_in_index(files, src, t) {
            Some(i) => {
                lemma_add_edge_sources(items2, st, src, files[i as int].path@);
            },
            None => if starts_with_char(t, '.') {
                let st1 = LinkState { used: st.used + 1, ..st };
                match disk_answer(disk, st.used) {
                    None => {},
                    Some(p) => {
                        let nk = path_key(p);
                        if m.contains_key(nk) {
                            lemma_add_edge_sources(items2, st1, src, files[m[nk] as int].path@);
                        } else if st1.stub_of.contains_key(nk) {
                            lemma_add_edge_sources(items2, st1, src, st1.stub_of[nk]);
                        } else {
                            let st2 = LinkState {
                                stubs: st1.stubs.push(p),
                                stub_of: st1.stub_of.insert(nk, p),
                                ..st1
                            };
                            lemma_add_edge_sources(items2, st2, src, p);
                        }
                    },
                }
            } else {
            },
        }
    }
}

proof fn lemma_fold_sources(
    files: Seq<FileNode>,
    disk: Seq<Option<String>>,
    items: Seq<(Seq<char>, Seq<char>)>,
)
    ensures
        sources_relative(items, link_fold(files, disk, items).edges),
    decreases items.len(),
{
    if items.len() > 0 {
        let d = items.drop_last();
        lemma_fold_sources(files, disk, d);
        lemma_step_sources(files, disk, link_fold(files, disk, d), d, items.last());
        assert(d.push(items.last()) =~= items);
    }
}

/// Law: every edge leaves a file with a relative import: among the imports that
/// [`import_items`] lists for the edge's source file, one starts with `.` once trimmed.
pub proof fn law_edges_from_relative_imports(files: Seq<FileNode>, disk: Seq<Option<String>>)
    ensures
        sources_relative(import_items(files, files.len() as int), links_of(files, disk).edges),
{
    lemma_fold_sources(files, disk, import_items(files, files.len() as int));
}

/// `p` is the text of one of the on-disk lookup results.
pub open spec fn from_disk(disk: Seq<Option<String>>, p: Seq<char>) -> bool {
    exists|k: int| 0 <= k < disk.len() && (#[trigger] disk[k]) is Some && disk[k]->0@ == p
}

/// Every node added for an unparsed file comes from an on-disk lookup result.
pub open spec fn stubs_from_disk(disk: Seq<Option<String>>, st: LinkState) -> bool {
    forall|a: int| 0 <= a < st.stubs.len() ==> from_disk(disk, #[trigger] st.stubs[a])
}

proof fn lemma_step_stubs_from_disk(
    files: Seq<FileNode>,
    disk: Seq<Option<String>>,
    st: LinkState,
    src: Seq<char>,
    raw: Seq<char>,
)
    requires
        stubs_from_disk(disk, st),
    ensures
        stubs_from_disk(disk, link_step(files, disk, st, src, raw)),
{
    let t = trim(raw);
    let m = index_map(files, files.len() as int);
    if t.len() > 0 && resolve_in_index(files, src, t) is None && starts_with_char(t, '.') {
        let st1 = LinkState { used: st.used + 1, ..st };
        match disk_answer(disk, st.used) {
            None => {},
            Some(p) => {
                let nk = path_key(p);
                if !m.contains_key(nk) && !st1.stub_of.contains_key(nk) {
                    let st2 = LinkState {
                        stubs: st1.stubs.push(p),
                        stub_of: st1.stub_of.insert(nk, p),
                        ..st1
                    };
                    let st3 = add_edge(st2, src, p);
                    assert(disk[st.used as int] is Some && disk[st.used as int]->0@ == p);
                    assert forall|a: int| 0 <= a < st3.stubs.len() implies from_disk(
                        disk,
                        #[trigger] st3.stubs[a],
                    ) by {
                        if a < st.stubs.len() {
                            assert(st3.stubs[a] == st.stubs[a]);
                        }
                    }
                }
            },
        }
    }
}

proof fn lemma_fold_stubs_from_disk(
    files: Seq<FileNode>,
    disk: Seq<Option<String>>,
    items: Seq<(Seq<char>, Seq<char>)>,
)
    ensures
        stubs_from_disk(disk, link_fold(files, disk, items)),
    decreases items.len(),
{
    if items.len() > 0 {
        lemma_fold_stubs_from_disk(files, disk, items.drop_last());
        lemma_step_stubs_from_disk(
            files,
            disk,
            link_fold(files, disk, items.drop_last()),
            items.last().0,
            items.last().1,
        );
    }
}

/// Law: every node added for an unparsed file is the path of an on-disk lookup result, so
/// when every lookup result lies under `root` (as [`pick_on_disk`] ensures), so does every
/// such node.
pub proof fn law_stubs_from_disk(files: Seq<FileNode>, disk: Seq<Option<String>>, root: Seq<char>)
    ensures
        stubs_from_disk(disk, links_of(files, disk)),
        (forall|k: int| 0 <= k < disk.len() && (#[trigger] disk[k]) is Some ==> path_starts_with(
            disk[k]->0@,
            root,
        )) ==> forall|a: int|
            0 <= a < links_of(files, disk).stubs.len() ==> path_starts_with(
                #[trigger] links_of(files, disk).stubs[a],
                root,
            ),
{
    lemma_fold_stubs_from_disk(files, disk, import_items(files, files.len() as int));
    let st = links_of(files, disk);
    if forall|k: int| 0 <= k < disk.len() && (#[trigger] disk[k]) is Some ==> path_starts_with(
        disk[k]->0@,
        root,
    ) {
        assert forall|a: int| 0 <= a < st.stubs.len() implies path_starts_with(
            #[trigger] st.stubs[a],
            root,
        ) by {
            assert(from_disk(disk, st.stubs[a]));
            let k = choose|k: int| 0 <= k < disk.len() && (#[trigger] disk[k]) is Some && disk[k]->0@ == st.stubs[a];
        }
    }
}

proof fn lemma_index_map_key(files: Seq<FileNode>, n: int)
    requires
        0 <= n <= files.len(),
        files.len() <= usize::MAX,
    ensures
        forall|k: Seq<char>|
            #![trigger index_map(files, n)[k]]
            index_map(files, n).contains_key(k) ==> index_map(files, n)[k] < n && path_key(
                files[index_map(files, n)[k] as int].path@,
            ) == k,
    decreases n,
{
    if n > 0 {
        lemma_index_map_key(files, n - 1);
        assert forall|k: Seq<char>|
            #![trigger index_map(files, n)[k]]
            index_map(files, n).contains_key(k) implies index_map(files, n)[k] < n && path_key(
                files[index_map(files, n)[k] as int].path@,
            ) == k by {
            if k != path_key(files[n - 1].path@) {
                assert(index_map(files, n - 1).contains_key(k));
                assert(index_map(files, n)[k] == index_map(files, n - 1)[k]);
            }
        }
    }
}

proof fn lemma_add_edge_contains(st: LinkState, s: Seq<char>, t: Seq<char>)
    ensures
        add_edge(st, s, t).edges.contains((s, t)),
        add_edge(st, s, t).stubs == st.stubs,
{
    if !st.edges.contains((s, t)) {
        assert(add_edge(st, s, t).edges[st.edges.len() as int] == (s, t));
    }
}

/// Law: what one import `raw` of the file at `src` does. Its trimmed text `t` needs an
/// on-disk lookup exactly when it starts with `.` (`./x`, `../x` alike) and names no file of
/// the graph by key, and then it consumes exactly one lookup result; an import that names a
/// file of the graph yields an edge to that file; an answered lookup yields an edge from `src`
/// to a target with the key of the path found; an import that does not start with `.` changes
/// nothing.
pub proof fn law_import_step(
    files: Seq<FileNode>,
    disk: Seq<Option<String>>,
    st: LinkState,
    src: Seq<char>,
    raw: Seq<char>,
)
    requires
        files.len() <= usize::MAX,
        link_inv(files, st),
    ensures
        ({
            let t = trim(raw);
            let relative = t.len() > 0 && t[0] == '.';
            let found = resolve_in_index(files, src, t);
            let lookup = relative && found is None;
            let r = link_step(files, disk, st, src, raw);
            &&& needs_disk(files, src, raw) <==> lookup
            &&& r.used == st.used + if lookup {
                1nat
            } else {
                0nat
            }
            &&& (t.len() > 0 && found is Some) ==> r.edges.contains(
                (src, files[found->0 as int].path@),
            )
            &&& (lookup && disk_answer(disk, st.used) is Some) ==> exists|q: Seq<char>|
                r.edges.contains((src, q)) && path_key(q) == path_key(
                    disk_answer(disk, st.used)->0,
                )
            &&& !relative ==> r == st
        }),
{
    let t = trim(raw);
    let m = index_map(files, files.len() as int);
    lemma_index_map_key(files, files.len() as int);
    if t.len() > 0 {
        match resolve_in_index(files, src, t) {
            Some(i) => {
                lemma_add_edge_contains(st, src, files[i as int].path@);
            },
            None => if starts_with_char(t, '.') {
                let st1 = LinkState { used: st.used + 1, ..st };
                match disk_answer(disk, st.used) {
                    None => {},
                    Some(p) => {
                        let nk = path_key(p);
                        if m.contains_key(nk) {
                            let q = files[m[nk] as int].path@;
                            lemma_add_edge_contains(st1, src, q);
                            assert(path_key(q) == nk);
                        } else if st1.stub_of.contains_key(nk) {
                            let q = st1.stub_of[nk];
                            lemma_add_edge_contains(st1, src, q);
                            let a = choose|a: int|
                                0 <= a < st.stubs.len() && path_key(#[trigger] st.stubs[a]) == nk;
                            assert(st.stub_of.contains_key(path_key(st.stubs[a])));
                            assert(path_key(q) == nk);
                        } else {
                            let st2 = LinkState {
                                stubs: st1.stubs.push(p),
                                stub_of: st1.stub_of.insert(nk, p),
                                ..st1
                            };
                            lemma_add_edge_contains(st2, src, p);
                        }
                    },
                }
            } else {
            },
        }
    }
}

/// Law: every state of the walk over the imports of `files` (after the first `k` imports) is
/// one that [`law_import_step`] speaks of, so that law holds at each import of the walk.
pub proof fn law_walk_states(files: Seq<FileNode>, disk: Seq<Option<String>>, k: int)
    requires
        files.len() <= usize::MAX,
        0 <= k <= import_items(files, files.len() as int).len(),
    ensures
        link_inv(files, link_fold(files, disk, import_items(files, files.len() as int).take(k))),
{
    let items = import_items(files, files.len() as int);
    lemma_import_items_sources(files, files.len() as int);
    let pre = items.take(k);
    assert forall|j: int| 0 <= j < pre.len() implies is_file_path(files, #[trigger] pre[j].0) by {
        assert(pre[j] == items[j]);
    }
    lemma_fold_inv(files, disk, pre);
}

/// What the file system says of one candidate path: whether it is a regular file and, if so,
/// its canonical path when that could be had.
#[derive(Clone, Debug)]
pub struct DiskProbe {
    pub is_file: bool,
    pub canonical: Option<String>,
}

/// The candidate paths on disk for the relative import `spec` of the file at `from`.
pub open spec fn disk_candidates_of(from: Seq<char>, spec: Seq<char>) -> Option<Seq<Seq<char>>> {
    match parent_of(from) {
        Some(base) => Some(import_candidates_of(join_of(base, spec))),
        None => None,
    }
}

/// The candidate paths on disk for the relative import `spec` of the file at `from_path`:
/// `None` when the file has no parent directory.
pub fn relative_disk_candidates(from_path: &str, spec: &str) -> (r: Option<Vec<String>>)
    ensures
        match r {
            Some(v) => disk_candidates_of(from_path@, spec@) == Some(views(v@)),
            None => disk_candidates_of(from_path@, spec@) is None,
        },
{
    match parent(from_path) {
        Some(base) => {
            let joined = join(base, spec);
            Some(import_path_candidates(joined.as_str()))
        },
        None => None,
    }
}

/// The file chosen from the probes `probes[i..]` of the candidates in order: the first regular
/// file, if its canonical path lies under `root`; a failed canonicalization ends the search.
pub open spec fn pick_from(probes: Seq<DiskProbe>, root: Seq<char>, i: int) -> Option<Seq<char>>
    decreases probes.len() - i,
{
    if i < 0 || i >= probes.len() {
        None
    } else if probes[i].is_file {
        match probes[i].canonical {
            None => None,
            Some(c) => if path_starts_with(c@, root) {
                Some(c@)
            } else {
                pick_from(probes, root, i + 1)
            },
        }
    } else {
        pick_from(probes, root, i + 1)
    }
}

proof fn lemma_pick_from_under_root(probes: Seq<DiskProbe>, root: Seq<char>, i: int)
    ensures
        pick_from(probes, root, i) matches Some(p) ==> path_starts_with(p, root),
    decreases probes.len() - i,
{
    if 0 <= i < probes.len() {
        lemma_pick_from_under_root(probes, root, i + 1);
    }
}

/// The probe `k` is the first regular file under `root` among `probes[i..]`, and every regular
/// file before it canonicalized to a path outside `root`.
pub open spec fn first_under_root(probes: Seq<DiskProbe>, root: Seq<char>, i: int, k: int) -> bool {
    &&& i <= k < probes.len()
    &&& probes[k].is_file
    &&& probes[k].canonical is Some
    &&& path_starts_with(probes[k].canonical->0@, root)
    &&& forall|j: int|
        i <= j < k && (#[trigger] probes[j]).is_file ==> probes[j].canonical is Some
            && !path_starts_with(probes[j].canonical->0@, root)
}

proof fn lemma_pick_from_first(probes: Seq<DiskProbe>, root: Seq<char>, i: int)
    requires
        0 <= i,
    ensures
        pick_from(probes, root, i) matches Some(p) ==> exists|k: int|
            first_under_root(probes, root, i, k) && probes[k].canonical->0@ == p,
    decreases probes.len() - i,
{
    if i < probes.len() {
        lemma_pick_from_first(probes, root, i + 1);
        if pick_from(probes, root, i) is Some {
            if probes[i].is_file && path_starts_with(probes[i].canonical->0@, root) {
                assert(first_under_root(probes, root, i, i));
            } else {
                let k = choose|k: int|
                    first_under_root(probes, root, i + 1, k) && probes[k].canonical->0@
                        == pick_from(probes, root, i)->0;
                assert(first_under_root(probes, root, i, k));
            }
        }
    }
}

/// The canonical path of the file on disk that a relative import names, from the probes of
/// its candidate paths in order, when it lies under `root`; a path it returns always lies
/// under `root`, and is that of the first regular file under `root`, every regular file
/// before it lying outside `root`.
pub fn pick_on_disk(probes: &Vec<DiskProbe>, root: &str) -> (r: Option<String>)
    ensures
        opt_string_view(r) == pick_from(probes@, root@, 0),
        r matches Some(p) ==> path_starts_with(p@, root@),
        r matches Some(p) ==> exists|k: int|
            first_under_root(probes@, root@, 0, k) && probes@[k].canonical->0@ == p@,
{
    proof {
        lemma_pick_from_under_root(probes@, root@, 0);
        lemma_pick_from_first(probes@, root@, 0);
    }
    let n = probes.len();
    let mut i: usize = 0;
    while i < n
        invariant
            i <= n == probes@.len(),
            pick_from(probes@, root@, 0) == pick_from(probes@, root@, i as int),
        decreases n - i,
    {
        let p = &probes[i];
        if p.is_file {
            match &p.canonical {
                None => {
                    return None;
                },
                Some(c) => {
                    if starts_with_path(c.as_str(), root) {
                        proof {
                            lemma_pick_from_first(probes@, root@, 0);
                        }
                        return Some(c.clone());
                    }
                },
            }
        }
        i = i + 1;
    }
    None
}

} // verus!
