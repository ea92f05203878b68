//! Unix path semantics of `std::path` (`file_name`, `extension`, `parent`, `join`,
//! `with_extension`, `components`, `starts_with`) over path strings.

use vstd::prelude::*;
use crate::text::{
    chars_of, find_char_from, first_index_of, is_prefix, last_index, last_index_of,
    lemma_first_index_of, lemma_last_index_of, replace_char, starts_with_char,
};

verus! {

broadcast use vstd::string::group_string_axioms;

/// The text of each string in `v`.
pub open spec fn views(v: Seq<String>) -> Seq<Seq<char>> {
    v.map_values(|x: String| x@)
}

/// The text of an optional string slice.
pub open spec fn opt_view(o: Option<&str>) -> Option<Seq<char>> {
    match o {
        Some(x) => Some(x@),
        None => None,
    }
}

/// `s` starts with the root separator `/`.
pub open spec fn has_root(s: Seq<char>) -> bool {
    starts_with_char(s, '/')
}

/// `s` is relative and begins with a `.` component (`"."` or `"./..."`).
pub open spec fn has_cur_dir(s: Seq<char>) -> bool {
    !has_root(s) && (s == seq!['.'] || is_prefix(seq!['.', '/'], s))
}

/// Length of the part before the first body component: the root `/` or a leading `.`.
pub open spec fn root_len(s: Seq<char>) -> int {
    if has_root(s) || has_cur_dir(s) {
        1
    } else {
        0
    }
}

/// Start of the last segment of `s` after position `r`.
pub open spec fn seg_start(s: Seq<char>, r: int) -> int {
    match last_index_of(s.skip(r), '/') {
        Some(k) => r + k + 1,
        None => r,
    }
}

/// Where `s` is cut to drop its last segment and the separator before it.
pub open spec fn cut_point(s: Seq<char>, r: int) -> int {
    let st = seg_start(s, r);
    if st > r {
        st - 1
    } else {
        st
    }
}

/// A segment that names no component: empty or `.`.
pub open spec fn is_junk(seg: Seq<char>) -> bool {
    seg.len() == 0 || seg == seq!['.']
}

pub proof fn lemma_last_index_of_bounds(s: Seq<char>, c: char)
    ensures
        last_index_of(s, c) matches Some(k) ==> 0 <= k < s.len() && s[k] == c,
    decreases s.len(),
{
    if s.len() > 0 && s.last() != c {
        lemma_last_index_of_bounds(s.drop_last(), c);
    }
}

pub proof fn lemma_first_index_of_bounds(s: Seq<char>, c: char)
    ensures
        first_index_of(s, c) matches Some(k) ==> 0 <= k < s.len() && s[k] == c,
    decreases s.len(),
{
    if s.len() > 0 && s[0] != c {
        lemma_first_index_of_bounds(s.drop_first(), c);
    }
}

pub proof fn lemma_seg_start_bounds(s: Seq<char>, r: int)
    requires
        0 <= r <= s.len(),
    ensures
        r <= seg_start(s, r) <= s.len(),
{
    lemma_last_index_of_bounds(s.skip(r), '/');
}

/// `s` without trailing empty and `.` segments beyond the first `r` characters.
pub open spec fn trim_tail(s: Seq<char>, r: int) -> Seq<char>
    decreases s.len(),
{
    if 0 <= r < s.len() && is_junk(s.skip(seg_start(s, r))) {
        proof {
            lemma_seg_start_bounds(s, r);
        }
        trim_tail(s.take(cut_point(s, r)), r)
    } else {
        s
    }
}

pub proof fn lemma_trim_tail_prefix(s: Seq<char>, r: int)
    requires
        0 <= r <= s.len(),
    ensures
        r <= trim_tail(s, r).len() <= s.len(),
        trim_tail(s, r) == s.take(trim_tail(s, r).len() as int),
    decreases s.len(),
{
    if 0 <= r < s.len() && is_junk(s.skip(seg_start(s, r))) {
        lemma_seg_start_bounds(s, r);
        let c = cut_point(s, r);
        lemma_trim_tail_prefix(s.take(c), r);
        let t = trim_tail(s.take(c), r);
        assert(s.take(c).take(t.len() as int) =~= s.take(t.len() as int));
    } else {
        assert(s.take(s.len() as int) =~= s);
    }
}

/// Range of the final component of `s` when it is a normal name (`Path::file_name`).
pub open spec fn file_name_range(s: Seq<char>) -> Option<(int, int)> {
    let r = root_len(s);
    let t = trim_tail(s, r);
    if t.len() > r {
        let st = seg_start(t, r);
        if t.skip(st) == seq!['.', '.'] {
            None
        } else {
            Some((st, t.len() as int))
        }
    } else {
        None
    }
}

/// `Path::file_name`.
pub open spec fn file_name_of(s: Seq<char>) -> Option<Seq<char>> {
    match file_name_range(s) {
        Some((a, b)) => Some(s.subrange(a, b)),
        None => None,
    }
}

/// `Path::parent`.
pub open spec fn parent_of(s: Seq<char>) -> Option<Seq<char>> {
    let r = root_len(s);
    let t = trim_tail(s, r);
    if t.len() > r {
        Some(trim_tail(t.take(cut_point(t, r)), r))
    } else if has_cur_dir(s) {
        Some(Seq::<char>::empty())
    } else {
        None
    }
}

/// Length of the stem of a file name: up to its last `.`, unless that `.` leads the name.
pub open spec fn stem_len(name: Seq<char>) -> int {
    match last_index_of(name, '.') {
        Some(k) => if k > 0 {
            k
        } else {
            name.len() as int
        },
        None => name.len() as int,
    }
}

/// `Path::extension`.
pub open spec fn extension_of(s: Seq<char>) -> Option<Seq<char>> {
    match file_name_of(s) {
        Some(name) => match last_index_of(name, '.') {
            Some(k) => if k > 0 {
                Some(name.skip(k + 1))
            } else {
                None
            },
            None => None,
        },
        None => None,
    }
}

/// `Path::join` (`PathBuf::push`) on Unix.
pub open spec fn join_of(base: Seq<char>, add: Seq<char>) -> Seq<char> {
    if has_root(add) {
        add
    } else if base.len() > 0 && base.last() != '/' {
        base + seq!['/'] + add
    } else {
        base + add
    }
}

/// `Path::with_extension`.
pub open spec fn with_extension_of(s: Seq<char>, ext: Seq<char>) -> Seq<char> {
    match file_name_range(s) {
        None => s,
        Some((a, b)) => {
            let base = s.take(a + stem_len(s.subrange(a, b)));
            if ext.len() == 0 {
                base
            } else {
                base + seq!['.'] + ext
            }
        },
    }
}

/// The component named by one segment of a path body.
pub open spec fn seg_components(seg: Seq<char>) -> Seq<Seq<char>> {
    if is_junk(seg) {
        Seq::empty()
    } else {
        seq![seg]
    }
}

/// The components of a path body, each as its text.
pub open spec fn body_components(b: Seq<char>) -> Seq<Seq<char>>
    decreases b.len(),
{
    match first_index_of(b, '/') {
        Some(k) => {
            proof {
                lemma_first_index_of_bounds(b, '/');
            }
            seg_components(b.take(k)) + body_components(b.skip(k + 1))
        },
        None => seg_components(b),
    }
}

/// `Path::components`, each component as its text (`/`, `.`, `..` or a name).
pub open spec fn components_of(s: Seq<char>) -> Seq<Seq<char>> {
    let head: Seq<Seq<char>> = if has_root(s) {
        seq![seq!['/']]
    } else if has_cur_dir(s) {
        seq![seq!['.']]
    } else {
        Seq::empty()
    };
    head + body_components(s.skip(root_len(s)))
}

/// `Path::starts_with`: the components of `base` begin the components of `s`.
pub open spec fn path_starts_with(s: Seq<char>, base: Seq<char>) -> bool {
    let a = components_of(s);
    let b = components_of(base);
    b.len() <= a.len() && a.take(b.len() as int) == b
}

/// The lookup key of a path: its text with `\` replaced by `/`.
pub open spec fn path_key(p: Seq<char>) -> Seq<char> {
    replace_char(p, '\\', '/')
}

// ---------------------------------------------------------------- exec

fn root_len_exec(cs: &Vec<char>) -> (r: usize)
    ensures
        r == root_len(cs@),
        r <= cs@.len(),
{
    let n = cs.len();
    if n > 0 && cs[0] == '/' {
        1
    } else if n > 0 && cs[0] == '.' && (n == 1 || cs[1] == '/') {
        proof {
            if n == 1 {
                assert(cs@ =~= seq!['.']);
            } else {
                assert(cs@.subrange(0, 2) =~= seq!['.', '/']);
            }
        }
        1
    } else {
        proof {
            if n >= 2 {
                assert(cs@.subrange(0, 2)[0] == cs@[0]);
                assert(cs@.subrange(0, 2)[1] == cs@[1]);
            }
            if cs@ == seq!['.'] {
                assert(cs@[0] == '.');
            }
        }
        0
    }
}

fn seg_start_exec(cs: &Vec<char>, r: usize, len: usize) -> (st: usize)
    requires
        r <= len <= cs@.len(),
    ensures
        st == seg_start(cs@.take(len as int), r as int),
        r <= st <= len,
        r < st ==> cs@[st - 1] == '/',
{
    let mut k = len;
    while k > r && cs[k - 1] != '/'
        invariant
            r <= k <= len <= cs@.len(),
            forall|j: int| k <= j < len ==> cs@[j] != '/',
        decreases k,
    {
        k = k - 1;
    }
    proof {
        let t = cs@.take(len as int).skip(r as int);
        assert forall|j: int| k - r - 1 < j < t.len() implies t[j] != '/' by {
            assert(t[j] == cs@[r + j]);
        }
        if k > r {
            assert(t[k - r - 1] == cs@[k - 1]);
        }
        lemma_last_index_of(t, '/', k - r - 1);
    }
    k
}

fn trim_tail_exec(cs: &Vec<char>, r: usize, len: usize) -> (n: usize)
    requires
        r <= len <= cs@.len(),
    ensures
        r <= n <= len,
        cs@.take(n as int) == trim_tail(cs@.take(len as int), r as int),
{
    let mut n = len;
    let mut done = false;
    while n > r && !done
        invariant
            r <= n <= len <= cs@.len(),
            trim_tail(cs@.take(len as int), r as int) == trim_tail(cs@.take(n as int), r as int),
            done ==> trim_tail(cs@.take(n as int), r as int) == cs@.take(n as int),
        decreases n + (if done { 0int } else { 1int }),
    {
        let st = seg_start_exec(cs, r, n);
        let ghost t = cs@.take(n as int);
        let junk = st == n || (st + 1 == n && cs[st] == '.');
        proof {
            if st + 1 == n && cs@[st as int] == '.' {
                assert(t.skip(st as int) =~= seq!['.']);
            }
            if t.skip(st as int) == seq!['.'] {
                assert(seq!['.'].len() == 1);
                assert(t.skip(st as int)[0] == cs@[st as int]);
            }
        }
        if junk {
            let c = if st > r {
                st - 1
            } else {
                st
            };
            assert(t.take(c as int) =~= cs@.take(c as int));
            n = c;
        } else {
            done = true;
        }
    }
    n
}

/// Bounds of the final component of `s` when it is a normal name.
fn file_name_bounds(cs: &Vec<char>) -> (r: Option<(usize, usize)>)
    ensures
        match r {
            Some((a, b)) => file_name_range(cs@) == Some((a as int, b as int)) && a <= b <= cs@.len(),
            None => file_name_range(cs@) is None,
        },
{
    let r = root_len_exec(cs);
    let n = trim_tail_exec(cs, r, cs.len());
    assert(cs@.take(cs@.len() as int) =~= cs@);
    if n > r {
        let st = seg_start_exec(cs, r, n);
        let ghost t = cs@.take(n as int);
        let dotdot = n - st == 2 && cs[st] == '.' && cs[st + 1] == '.';
        proof {
            if dotdot {
                assert(t.skip(st as int) =~= seq!['.', '.']);
            }
            if t.skip(st as int) == seq!['.', '.'] {
                assert(seq!['.', '.'].len() == 2);
                assert(t.skip(st as int)[0] == cs@[st as int]);
                assert(t.skip(st as int)[1] == cs@[st + 1]);
            }
        }
        if dotdot {
            None
        } else {
            Some((st, n))
        }
    } else {
        None
    }
}

/// `Path::file_name` of `path`.
pub fn file_name(path: &str) -> (r: Option<&str>)
    ensures
        opt_view(r) == file_name_of(path@),
{
    let cs = chars_of(path);
    match file_name_bounds(&cs) {
        Some((a, b)) => Some(path.substring_char(a, b)),
        None => None,
    }
}

/// `Path::extension` of `path`.
pub fn extension(path: &str) -> (r: Option<&str>)
    ensures
        opt_view(r) == extension_of(path@),
{
    match file_name(path) {
        Some(name) => {
            let cn = chars_of(name);
            match last_index(&cn, '.') {
                Some(k) => {
                    if k > 0 {
                        let l = cn.len();
                        Some(name.substring_char(k + 1, l))
                    } else {
                        None
                    }
                },
                None => None,
            }
        },
        None => None,
    }
}

/// `Path::parent` of `path`.
pub fn parent(path: &str) -> (r: Option<&str>)
    ensures
        opt_view(r) == parent_of(path@),
{
    let cs = chars_of(path);
    let r = root_len_exec(&cs);
    let n = trim_tail_exec(&cs, r, cs.len());
    assert(cs@.take(cs@.len() as int) =~= cs@);
    if n > r {
        let st = seg_start_exec(&cs, r, n);
        let c = if st > r {
            st - 1
        } else {
            st
        };
        let m = trim_tail_exec(&cs, r, c);
        proof {
            let t = cs@.take(n as int);
            assert(t.take(c as int) =~= cs@.take(c as int));
            assert(cs@.subrange(0, m as int) =~= cs@.take(m as int));
        }
        Some(path.substring_char(0, m))
    } else if r == 1 && cs[0] == '.' {
        proof {
            assert(has_cur_dir(cs@));
        }
        Some(path.substring_char(0, 0))
    } else {
        proof {
            if has_cur_dir(cs@) {
                assert(cs@[0] == '.') by {
                    if cs@ != seq!['.'] {
                        assert(cs@.subrange(0, 2)[0] == cs@[0]);
                    }
                }
            }
        }
        None
    }
}

/// `Path::join` of `base` and `add`.
pub fn join(base: &str, add: &str) -> (r: String)
    ensures
        r@ == join_of(base@, add@),
{
    let cb = chars_of(base);
    let ca = chars_of(add);
    if ca.len() > 0 && ca[0] == '/' {
        String::from_str(add)
    } else if cb.len() > 0 && cb[cb.len() - 1] != '/' {
        let mut r = String::from_str(base);
        r.append("/");
        r.append(add);
        proof {
            reveal_strlit("/");
        }
        assert(r@ =~= join_of(base@, add@));
        r
    } else {
        let mut r = String::from_str(base);
        r.append(add);
        r
    }
}

/// `Path::with_extension` of `path` (which panics on an extension that holds a separator).
pub fn with_extension(path: &str, ext: &str) -> (r: String)
    requires
        !ext@.contains('/'),
    ensures
        r@ == with_extension_of(path@, ext@),
{
    let cs = chars_of(path);
    match file_name_bounds(&cs) {
        None => String::from_str(path),
        Some((a, b)) => {
            let name = path.substring_char(a, b);
            let cn = chars_of(name);
            let stem = match last_index(&cn, '.') {
                Some(k) => if k > 0 {
                    k
                } else {
                    cn.len()
                },
                None => cn.len(),
            };
            let mut r = String::from_str(path.substring_char(0, a + stem));
            assert(path@.subrange(0, a + stem) =~= path@.take(a + stem));
            if ext.unicode_len() == 0 {
                r
            } else {
                r.append(".");
                r.append(ext);
                proof {
                    reveal_strlit(".");
                }
                assert(r@ =~= with_extension_of(path@, ext@));
                r
            }
        },
    }
}

/// `path` with every `\` replaced by `/`.
pub fn normalize_path_key(path: &str) -> (r: String)
    ensures
        r@ == path_key(path@),
{
    let cs = chars_of(path);
    let mut r = String::new();
    let mut seg: usize = 0;
    let mut i: usize = 0;
    proof {
        reveal_strlit("/");
    }
    while i < cs.len()
        invariant
            seg <= i <= cs@.len(),
            cs@ == path@,
            r@ + cs@.subrange(seg as int, i as int) == path_key(cs@).take(i as int),
            forall|j: int| seg <= j < i ==> cs@[j] != '\\',
        decreases cs@.len() - i,
    {
        proof {
            reveal_strlit("/");
        }
        if cs[i] == '\\' {
            let piece = path.substring_char(seg, i);
            r.append(piece);
            r.append("/");
            assert(r@ =~= path_key(cs@).take(i + 1));
            seg = i + 1;
        } else {
            let ghost pk = path_key(cs@);
            assert(cs@.subrange(seg as int, i + 1) =~= cs@.subrange(seg as int, i as int).push(
                cs@[i as int],
            ));
            assert(pk.take(i + 1) =~= pk.take(i as int).push(pk[i as int]));
            assert(pk[i as int] == cs@[i as int]);
            assert(r@ + cs@.subrange(seg as int, i + 1) =~= (r@ + cs@.subrange(
                seg as int,
                i as int,
            )).push(cs@[i as int]));
        }
        i = i + 1;
    }
    let last = path.substring_char(seg, cs.len());
    let ghost before = r@;
    r.append(last);
    assert(path_key(cs@).take(cs@.len() as int) =~= path_key(cs@));
    assert(r@ =~= before + cs@.subrange(seg as int, cs@.len() as int));
    r
}

/// `Path::components` of `path`, each component as its text.
pub fn components(path: &str) -> (r: Vec<String>)
    ensures
        views(r@) == components_of(path@),
{
    let cs = chars_of(path);
    let root = root_len_exec(&cs);
    let mut out: Vec<String> = Vec::new();
    if cs.len() > 0 && cs[0] == '/' {
        out.push(String::from_str("/"));
        proof {
            reveal_strlit("/");
            assert("/"@ =~= seq!['/']);
            assert(views(out@) =~~= seq![seq!['/']]);
        }
    } else if root == 1 {
        out.push(String::from_str("."));
        proof {
            reveal_strlit(".");
            assert("."@ =~= seq!['.']);
            assert(views(out@) =~~= seq![seq!['.']]);
        }
    }
    assert(!has_root(cs@) && !has_cur_dir(cs@) ==> views(out@) =~= Seq::<Seq<char>>::empty());
    let ghost head = views(out@);
    let mut pos = root;
    let mut done = false;
    while !done
        invariant
            root <= pos <= cs@.len(),
            cs@ == path@,
            root == root_len(cs@),
            !done ==> views(out@) + body_components(cs@.skip(pos as int)) == head
                + body_components(cs@.skip(root as int)),
            done ==> views(out@) == head + body_components(cs@.skip(root as int)),
        decreases cs@.len() - pos + (if done { 0int } else { 1int }),
    {
        let k = find_char_from(&cs, pos, '/');
        let ghost b = cs@.skip(pos as int);
        proof {
            lemma_first_index_of(b, '/', k - pos);
        }
        let seg_len = k - pos;
        let junk = seg_len == 0 || (seg_len == 1 && cs[pos] == '.');
        proof {
            let seg = b.take(k - pos);
            if seg_len == 1 && cs@[pos as int] == '.' {
                assert(seg =~= seq!['.']);
            }
            if seg == seq!['.'] {
                assert(seq!['.'].len() == 1);
                assert(seg[0] == cs@[pos as int]);
            }
            assert(seg =~= cs@.subrange(pos as int, k as int));
        }
        if !junk {
            out.push(String::from_str(path.substring_char(pos, k)));
        }
        proof {
            assert(views(out@) =~= views(out@).take(out@.len() as int));
        }
        if k == cs.len() {
            assert(views(out@) =~= head + body_components(cs@.skip(root as int)));
            done = true;
        } else {
            assert(b.skip(k - pos + 1) =~= cs@.skip(k + 1));
            assert(views(out@) + body_components(cs@.skip(k + 1)) =~= head + body_components(
                cs@.skip(root as int),
            ));
            pos = k + 1;
        }
    }
    out
}

/// `Path::starts_with`: whether the components of `base` begin the components of `path`.
pub fn starts_with_path(path: &str, base: &str) -> (r: bool)
    ensures
        r == path_starts_with(path@, base@),
{
    let a = components(path);
    let b = components(base);
    if b.len() > a.len() {
        return false;
    }
    let n = b.len();
    let mut i: usize = 0;
    while i < n
        invariant
            i <= n == b@.len() <= a@.len(),
            views(a@) == components_of(path@),
            views(b@) == components_of(base@),
            forall|k: int| 0 <= k < i ==> views(a@)[k] == views(b@)[k],
        decreases n - i,
    {
        if a[i] != b[i] {
            assert(views(a@).take(n as int)[i as int] == views(a@)[i as int]);
            return false;
        }
        i = i + 1;
    }
    assert(views(a@).take(n as int) =~= views(b@));
    true
}

} // verus!
