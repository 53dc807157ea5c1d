//! The naming rules behind file operations: the final component of a path,
//! joining a name onto a folder, splitting a name into stem and extension, and
//! choosing a destination name that does not collide with what a folder holds.
//! The reading and writing of the file system is the caller's.
use vstd::prelude::*;

use crate::text;

verus! {

broadcast use vstd::string::group_string_axioms;

/// Why a file operation could not be planned.
#[derive(Debug, Clone, Copy, PartialEq, Eq, Structural)]
pub enum FileOpError {
    /// The source path has no final component to name the copy after.
    NoFileName,
}

// ---------------------------------------------------------------------------
// Paths
// ---------------------------------------------------------------------------

/// The last component of `p` (`Path::components` on Unix): trailing `/` are
/// skipped, and so are `.` components; `None` when nothing remains.
pub open spec fn last_component(p: Seq<char>) -> Option<Seq<char>>
    decreases p.len(),
{
    if p.len() == 0 {
        None
    } else if p.last() == '/' {
        last_component(p.drop_last())
    } else {
        let start = match text::last_index_of(p, '/') {
            Some(i) => i + 1,
            None => 0,
        };
        proof {
            text::lemma_last_index_of(p, '/');
        }
        if p.skip(start) == seq!['.'] {
            last_component(p.take(start))
        } else {
            Some(p.skip(start))
        }
    }
}

/// `Path::file_name`: the final component of `p`, unless there is none or it is `..`.
pub open spec fn file_name_of(p: Seq<char>) -> Option<Seq<char>> {
    match last_component(p) {
        Some(c) => if c == seq!['.', '.'] {
            None
        } else {
            Some(c)
        },
        None => None,
    }
}

/// `Path::join` on Unix: an absolute `name` replaces `dir`; otherwise `name` goes
/// after `dir`, with a `/` between them unless `dir` is empty or already ends in one.
pub open spec fn join(dir: Seq<char>, name: Seq<char>) -> Seq<char> {
    if name.len() > 0 && name[0] == '/' {
        name
    } else if dir.len() == 0 || dir.last() == '/' {
        dir + name
    } else {
        dir + seq!['/'] + name
    }
}

/// The start and end of the last component of `p[..end]`.
fn last_component_range(p: &[char], end: usize) -> (r: Option<(usize, usize)>)
    requires
        end <= p.len(),
    ensures
        r matches Some((a, b)) ==> a <= b <= end && last_component(p@.take(end as int)) == Some(
            p@.subrange(a as int, b as int),
        ),
        r is None ==> last_component(p@.take(end as int)) is None,
    decreases end,
{
    let ghost q = p@.take(end as int);
    if end == 0 {
        return None;
    }
    if p[end - 1] == '/' {
        assert(q.drop_last() =~= p@.take(end - 1));
        return last_component_range(p, end - 1);
    }
    let mut start: usize = end;
    while start > 0 && p[start - 1] != '/'
        invariant
            start <= end <= p.len(),
            forall|j: int| start <= j < end ==> p@[j] != '/',
        decreases start,
    {
        start -= 1;
    }
    proof {
        text::lemma_last_index_of(q, '/');
        if start > 0 {
            assert(q[start - 1] == '/');
            assert(text::last_index_of(q, '/') == Some((start - 1) as int)) by {
                if text::last_index_of(q, '/') != Some((start - 1) as int) {
                    match text::last_index_of(q, '/') {
                        Some(i) => {
                            if i < start - 1 {
                                assert(q[start - 1] != '/');
                            } else {
                                assert(q[i] == p@[i]);
                            }
                        },
                        None => {
                            assert(q[start - 1] != '/');
                        },
                    }
                }
            }
        } else {
            assert(text::last_index_of(q, '/') is None) by {
                if let Some(i) = text::last_index_of(q, '/') {
                    assert(q[i] == p@[i]);
                }
            }
        }
        assert(q.skip(start as int) =~= p@.subrange(start as int, end as int));
        assert(q.take(start as int) =~= p@.take(start as int));
    }
    if end - start == 1 && p[start] == '.' {
        assert(q.skip(start as int) =~= seq!['.']);
        last_component_range(p, start)
    } else {
        assert(q.skip(start as int) != seq!['.']) by {
            if q.skip(start as int) == seq!['.'] {
                assert(q.skip(start as int).len() == 1);
                assert(q.skip(start as int)[0] == p@[start as int]);
            }
        }
        Some((start, end))
    }
}

/// The final path component as a string, or `None` for a path that has none.
pub fn file_name(path: &str) -> (r: Option<String>)
    ensures
        r matches Some(n) ==> file_name_of(path@) == Some(n@),
        r is None ==> file_name_of(path@) is None,
{
    let p = text::chars_of(path);
    assert(p@.take(p.len() as int) =~= p@);
    match last_component_range(&p, p.len()) {
        Some((a, b)) => {
            let c = text::slice_chars(&p, a, b);
            if c.len() == 2 && c[0] == '.' && c[1] == '.' {
                assert(c@ =~= seq!['.', '.']);
                None
            } else {
                assert(c@ != seq!['.', '.']) by {
                    if c@ == seq!['.', '.'] {
                        assert(c@[0] == '.' && c@[1] == '.');
                    }
                }
                Some(text::string_of(&c))
            }
        },
        None => None,
    }
}

/// `dir` joined with `name`.
pub fn join_path(dir: &[char], name: &[char]) -> (r: Vec<char>)
    ensures
        r@ == join(dir@, name@),
{
    if name.len() > 0 && name[0] == '/' {
        let mut r: Vec<char> = Vec::new();
        text::extend_chars(&mut r, name);
        assert(r@ =~= name@);
        r
    } else {
        let mut r: Vec<char> = Vec::new();
        text::extend_chars(&mut r, dir);
        if dir.len() > 0 && dir[dir.len() - 1] != '/' {
            r.push('/');
        }
        text::extend_chars(&mut r, name);
        assert(r@ =~= join(dir@, name@));
        r
    }
}

/// The names along the path `p`: its `/`-separated parts, less empty ones and
/// `.` (the ones `Path::components` gives as normal parts, `..` included).
pub open spec fn path_words(p: Seq<char>) -> Seq<Seq<char>>
    decreases p.len(),
{
    if p.len() == 0 {
        seq![]
    } else {
        let i = text::index_of(p, '/');
        let w = p.take(i);
        let first: Seq<Seq<char>> = if w.len() > 0 && w != seq!['.'] {
            seq![w]
        } else {
            seq![]
        };
        if i < p.len() {
            proof {
                text::lemma_index_of(p, '/');
            }
            first + path_words(p.skip(i + 1))
        } else {
            first
        }
    }
}

/// The components of the path `p`, as `Path::components` gives them: the root
/// for an absolute path or `.` for one that starts with `./` (or is `.`), then
/// its names. Two paths are the same path when their components are equal, so
/// `/a//b/` and `/a/./b` are `/a/b`.
pub open spec fn path_components(p: Seq<char>) -> Seq<Seq<char>> {
    let head: Seq<Seq<char>> = if p.len() > 0 && p[0] == '/' {
        seq![seq!['/']]
    } else if p == seq!['.'] || (p.len() >= 2 && p[0] == '.' && p[1] == '/') {
        seq![seq!['.']]
    } else {
        seq![]
    };
    head + path_words(p)
}

/// The components of `p`.
fn components_of(p: &[char]) -> (r: Vec<Vec<char>>)
    ensures
        text::views(r@) == path_components(p@),
{
    let mut r: Vec<Vec<char>> = Vec::new();
    if p.len() > 0 && p[0] == '/' {
        let mut root: Vec<char> = Vec::new();
        root.push('/');
        assert(root@ =~= seq!['/']);
        r.push(root);
    } else if (p.len() == 1 && p[0] == '.') || (p.len() >= 2 && p[0] == '.' && p[1] == '/') {
        let mut here: Vec<char> = Vec::new();
        here.push('.');
        assert(here@ =~= seq!['.']);
        r.push(here);
    }
    proof {
        if p@ == seq!['.'] {
            assert(p@[0] == '.');
        }
        if p@.len() == 1 && p@[0] == '.' {
            assert(p@ =~= seq!['.']);
        }
        let head: Seq<Seq<char>> = if p@.len() > 0 && p@[0] == '/' {
            seq![seq!['/']]
        } else if p@ == seq!['.'] || (p@.len() >= 2 && p@[0] == '.' && p@[1] == '/') {
            seq![seq!['.']]
        } else {
            seq![]
        };
        assert(text::views(r@) =~= head);
    }
    let ghost head = text::views(r@);
    let mut pos: usize = 0;
    assert(p@.skip(0) =~= p@);
    while pos < p.len()
        invariant
            pos <= p.len(),
            text::views(r@) + path_words(p@.skip(pos as int)) == head + path_words(p@),
        decreases p.len() - pos,
    {
        let ghost t = p@.skip(pos as int);
        let ghost before = text::views(r@);
        let j = text::find_char(p, pos, '/');
        proof {
            text::lemma_index_of(t, '/');
        }
        let w = text::slice_chars(p, pos, j);
        assert(w@ =~= t.take(j - pos));
        let keep = w.len() > 0 && !(w.len() == 1 && w[0] == '.');
        proof {
            if w@.len() == 1 && w@[0] == '.' {
                assert(w@ =~= seq!['.']);
            }
            if w@ == seq!['.'] {
                assert(w@[0] == '.');
            }
        }
        let ghost first: Seq<Seq<char>> = if keep {
            seq![w@]
        } else {
            seq![]
        };
        if keep {
            r.push(w);
        }
        assert(text::views(r@) =~= before + first);
        if j < p.len() {
            assert(t.skip(j - pos + 1) =~= p@.skip(j + 1));
            assert(path_words(t) == first + path_words(p@.skip(j + 1)));
            pos = j + 1;
            assert(before + path_words(t) =~= text::views(r@) + path_words(p@.skip(pos as int)));
        } else {
            assert(path_words(t) == first);
            pos = p.len();
            assert(path_words(p@.skip(pos as int)) =~= Seq::<Seq<char>>::empty()) by {
                assert(p@.skip(pos as int).len() == 0);
            }
            assert(before + path_words(t) =~= text::views(r@) + path_words(p@.skip(pos as int)));
        }
    }
    assert(path_words(p@.skip(pos as int)) =~= Seq::<Seq<char>>::empty()) by {
        assert(p@.skip(pos as int).len() == 0);
    }
    assert(text::views(r@) =~= text::views(r@) + Seq::<Seq<char>>::empty());
    r
}

/// Whether `a` and `b` are the same path, compared component by component as
/// `Path`'s `==` does.
pub fn same_path(a: &str, b: &str) -> (r: bool)
    ensures
        r == (path_components(a@) == path_components(b@)),
{
    let ca = components_of(&text::chars_of(a));
    let cb = components_of(&text::chars_of(b));
    let ghost va = text::views(ca@);
    let ghost vb = text::views(cb@);
    if ca.len() != cb.len() {
        assert(va.len() != vb.len());
        return false;
    }
    let mut i: usize = 0;
    while i < ca.len()
        invariant
            i <= ca.len(),
            ca.len() == cb.len(),
            va == text::views(ca@),
            vb == text::views(cb@),
            va == path_components(a@),
            vb == path_components(b@),
            forall|k: int| 0 <= k < i ==> va[k] == vb[k],
        decreases ca.len() - i,
    {
        assert(va[i as int] == ca@[i as int]@);
        assert(vb[i as int] == cb@[i as int]@);
        if !text::chars_eq(&ca[i], &cb[i]) {
            assert(va[i as int] != vb[i as int]);
            return false;
        }
        i += 1;
    }
    assert(va =~= vb);
    true
}

// ---------------------------------------------------------------------------
// Names
// ---------------------------------------------------------------------------

/// A name split at its last `.` into stem and extension (the extension keeps
/// its dot); a name whose only dot leads it (a dotfile) has no extension.
pub open spec fn split_name_spec(name: Seq<char>) -> (Seq<char>, Seq<char>) {
    match text::last_index_of(name, '.') {
        Some(i) => if i > 0 {
            (name.take(i), name.skip(i))
        } else {
            (name, seq![])
        },
        None => (name, seq![]),
    }
}

/// The stem and the extension put back together are the name.
pub proof fn lemma_split_name_rejoins(name: Seq<char>)
    ensures
        split_name_spec(name).0 + split_name_spec(name).1 == name,
{
    text::lemma_last_index_of(name, '.');
    match text::last_index_of(name, '.') {
        Some(i) => {
            if i > 0 {
                assert(name.take(i) + name.skip(i) =~= name);
            } else {
                assert(name + Seq::<char>::empty() =~= name);
            }
        },
        None => {
            assert(name + Seq::<char>::empty() =~= name);
        },
    }
}

/// Split a filename into (stem, extension-including-dot). A leading dot (dotfile)
/// is treated as part of the stem, not an extension.
pub fn split_name(name: &str) -> (r: (&str, &str))
    ensures
        (r.0@, r.1@) == split_name_spec(name@),
{
    let cs = text::chars_of(name);
    match text::rfind_char(&cs, '.') {
        Some(i) => {
            if i > 0 {
                proof {
                    text::lemma_last_index_of(name@, '.');
                }
                (name.substring_char(0, i), name.substring_char(i, cs.len()))
            } else {
                let e = name.substring_char(0, 0);
                assert(e@ =~= Seq::<char>::empty());
                (name, e)
            }
        },
        None => {
            let e = name.substring_char(0, 0);
            assert(e@ =~= Seq::<char>::empty());
            (name, e)
        },
    }
}

/// What a copy's name carries before its extension: " (copy)" for the first,
/// " (copy n)" after that.
pub open spec fn copy_suffix(n: nat) -> Seq<char> {
    if n == 1 {
        " (copy)"@
    } else {
        " (copy "@ + text::decimal(n) + ")"@
    }
}

/// The `n`th name tried for an entry called `name`: the name itself, then
/// "stem (copy).ext", "stem (copy 2).ext", …
pub open spec fn candidate(name: Seq<char>, n: nat) -> Seq<char> {
    if n == 0 {
        name
    } else {
        split_name_spec(name).0 + copy_suffix(n) + split_name_spec(name).1
    }
}

/// The character sequences that a list of strings holds.
pub open spec fn names(taken: Seq<String>) -> Seq<Seq<char>> {
    taken.map_values(|s: String| s@)
}

/// `k` is the first candidate that is not taken.
pub open spec fn is_first_free(name: Seq<char>, taken: Seq<Seq<char>>, k: nat) -> bool {
    &&& !taken.contains(candidate(name, k))
    &&& forall|j: nat| j < k ==> taken.contains(#[trigger] candidate(name, j))
}

proof fn lemma_literals()
    ensures
        " (copy)"@ =~= seq![' ', '(', 'c', 'o', 'p', 'y', ')'],
        " (copy "@ =~= seq![' ', '(', 'c', 'o', 'p', 'y', ' '],
        ")"@ =~= seq![')'],
{
    reveal_strlit(" (copy)");
    reveal_strlit(" (copy ");
    reveal_strlit(")");
}

/// Different `n` give different copy suffixes.
proof fn lemma_copy_suffix_injective(j: nat, k: nat)
    requires
        j >= 1,
        k >= 1,
        copy_suffix(j) == copy_suffix(k),
    ensures
        j == k,
{
    lemma_literals();
    text::lemma_decimal(j);
    text::lemma_decimal(k);
    if j != 1 && k != 1 {
        let dj = text::decimal(j);
        let dk = text::decimal(k);
        let sj = copy_suffix(j);
        assert(sj == " (copy "@ + dj + ")"@);
        assert(copy_suffix(k) == " (copy "@ + dk + ")"@);
        assert(sj.len() == 8 + dj.len());
        assert(copy_suffix(k).len() == 8 + dk.len());
        assert(sj.subrange(7, 7 + dj.len() as int) =~= dj);
        assert(copy_suffix(k).subrange(7, 7 + dk.len() as int) =~= dk);
        assert(dj.len() == dk.len());
        assert(dj == dk);
    }
}

/// Different `n` give different candidate names.
pub proof fn lemma_candidates_distinct(name: Seq<char>, j: nat, k: nat)
    requires
        j != k,
    ensures
        candidate(name, j) != candidate(name, k),
{
    lemma_literals();
    lemma_split_name_rejoins(name);
    let stem = split_name_spec(name).0;
    let ext = split_name_spec(name).1;
    if j > 0 && k > 0 {
        if candidate(name, j) == candidate(name, k) {
            text::lemma_decimal(j);
            text::lemma_decimal(k);
            let sj = copy_suffix(j);
            let sk = copy_suffix(k);
            assert(candidate(name, j).len() == stem.len() + sj.len() + ext.len());
            assert(candidate(name, k).len() == stem.len() + sk.len() + ext.len());
            assert(sj.len() == sk.len());
            assert(candidate(name, j).subrange(stem.len() as int, stem.len() + sj.len() as int) =~= sj);
            assert(candidate(name, k).subrange(stem.len() as int, stem.len() + sk.len() as int) =~= sk);
            lemma_copy_suffix_injective(j, k);
        }
    } else {
        let n = if j > 0 {
            j
        } else {
            k
        };
        text::lemma_decimal(n);
        assert(copy_suffix(n).len() > 0);
        assert(candidate(name, n).len() == stem.len() + copy_suffix(n).len() + ext.len());
    }
}

/// Every candidate up to `m` being taken needs at least `m` taken names.
proof fn lemma_taken_pigeonhole(name: Seq<char>, taken: Seq<Seq<char>>, m: nat)
    requires
        forall|j: nat| j < m ==> taken.contains(#[trigger] candidate(name, j)),
    ensures
        m <= taken.len(),
{
    let cands = Seq::new(m, |j: int| candidate(name, j as nat));
    assert(cands.no_duplicates()) by {
        assert forall|a: int, b: int| 0 <= a < cands.len() && 0 <= b < cands.len() && a != b implies cands[a]
            != cands[b] by {
            lemma_candidates_distinct(name, a as nat, b as nat);
        }
    }
    cands.unique_seq_to_set();
    assert(cands.to_set().subset_of(taken.to_set())) by {
        assert forall|c: Seq<char>| cands.to_set().contains(c) implies taken.to_set().contains(c) by {
            let a = choose|a: int| 0 <= a < cands.len() && cands[a] == c;
            assert(taken.contains(candidate(name, a as nat)));
        }
    }
    vstd::set_lib::lemma_len_subset(cands.to_set(), taken.to_set());
    taken.lemma_cardinality_of_set();
}

/// The characters of the `n`th candidate name.
fn candidate_chars(name: &str, n: u64) -> (r: Vec<char>)
    ensures
        r@ == candidate(name@, n as nat),
{
    if n == 0 {
        return text::chars_of(name);
    }
    let (stem, ext) = split_name(name);
    let mut r: Vec<char> = Vec::new();
    text::extend_str(&mut r, stem);
    if n == 1 {
        text::extend_str(&mut r, " (copy)");
    } else {
        text::extend_str(&mut r, " (copy ");
        text::push_decimal(&mut r, n);
        text::extend_str(&mut r, ")");
    }
    text::extend_str(&mut r, ext);
    assert(r@ =~= candidate(name@, n as nat));
    r
}

/// Whether `name` is among `taken`.
fn is_taken(taken: &[String], name: &String) -> (r: bool)
    ensures
        r == names(taken@).contains(name@),
{
    let mut i: usize = 0;
    while i < taken.len()
        invariant
            i <= taken.len(),
            forall|j: int| 0 <= j < i ==> taken@[j]@ != name@,
        decreases taken.len() - i,
    {
        if taken[i] == *name {
            assert(names(taken@)[i as int] == name@);
            return true;
        }
        i += 1;
    }
    assert(!names(taken@).contains(name@)) by {
        if names(taken@).contains(name@) {
            let j = choose|j: int| 0 <= j < names(taken@).len() && names(taken@)[j] == name@;
            assert(taken@[j]@ == name@);
        }
    }
    false
}

/// A destination path inside `dir` for an entry named `name` that does not
/// collide with anything already there — appending " (copy)", " (copy 2)", …
/// before the extension as needed. `taken` holds the names already in `dir`.
pub fn unique_destination(dir: &str, name: &str, taken: &[String]) -> (r: String)
    ensures
        exists|k: nat|
            is_first_free(name@, names(taken@), k) && r@ == join(dir@, candidate(name@, k)),
{
    let ghost t = names(taken@);
    let d = text::chars_of(dir);
    let mut k: u64 = 0;
    loop
        invariant
            k <= taken.len(),
            t == names(taken@),
            d@ == dir@,
            forall|j: nat| j < k ==> t.contains(#[trigger] candidate(name@, j)),
        decreases taken.len() - k,
    {
        let c = candidate_chars(name, k);
        let cs = text::string_of(&c);
        if !is_taken(taken, &cs) {
            let r = join_path(&d, &c);
            proof {
                assert(is_first_free(name@, t, k as nat));
            }
            return text::string_of(&r);
        }
        proof {
            assert forall|j: nat| j < k + 1 implies t.contains(#[trigger] candidate(name@, j)) by {
                if j == k {
                    assert(t.contains(cs@));
                }
            }
            lemma_taken_pigeonhole(name@, t, (k + 1) as nat);
            assert(t.len() == taken.len());
        }
        k += 1;
    }
}

/// Where copying `src` into directory `dir` puts it: `dir` joined with the first
/// free candidate of `src`'s file name, given the names `taken` in `dir`; an error
/// for a path that has no file name. The copy itself is the caller's to make.
pub fn copy_into(src: &str, dir: &str, taken: &[String]) -> (r: Result<String, FileOpError>)
    ensures
        file_name_of(src@) is None ==> r == Err::<String, FileOpError>(FileOpError::NoFileName),
        file_name_of(src@) matches Some(n) ==> r matches Ok(dest) && exists|k: nat|
            is_first_free(n, names(taken@), k) && dest@ == join(dir@, candidate(n, k)),
{
    match file_name(src) {
        Some(n) => Ok(unique_destination(dir, n.as_str(), taken)),
        None => Err(FileOpError::NoFileName),
    }
}

/// Whether `name` can name a new folder or a renamed entry: not empty and
/// without a `/`.
pub open spec fn valid_name_spec(name: Seq<char>) -> bool {
    name.len() > 0 && !name.contains('/')
}

/// Whether `name` can name a new folder or a renamed entry.
pub fn is_valid_name(name: &str) -> (b: bool)
    ensures
        b == valid_name_spec(name@),
{
    let cs = text::chars_of(name);
    if cs.len() == 0 {
        return false;
    }
    let i = text::find_char(&cs, 0, '/');
    proof {
        assert(cs@.skip(0) =~= cs@);
        text::lemma_index_of(cs@, '/');
        if name@.contains('/') {
            let j = choose|j: int| 0 <= j < name@.len() && name@[j] == '/';
            assert(text::index_of(cs@, '/') <= j);
        }
    }
    i == cs.len()
}

// ---------------------------------------------------------------------------
// Laws
// ---------------------------------------------------------------------------

/// The first free candidate is never among the taken names: a destination
/// chosen this way never overwrites what is already in the folder.
pub proof fn lemma_first_free_never_taken(name: Seq<char>, taken: Seq<Seq<char>>, k: nat)
    requires
        is_first_free(name, taken, k),
    ensures
        !taken.contains(candidate(name, k)),
{
}

/// A name that is not taken is used as it is.
pub proof fn lemma_free_name_kept(name: Seq<char>, taken: Seq<Seq<char>>, k: nat)
    requires
        !taken.contains(name),
        is_first_free(name, taken, k),
    ensures
        k == 0,
        candidate(name, k) == name,
{
    if k > 0 {
        assert(taken.contains(candidate(name, 0)));
    }
}

/// There is always a free candidate, and the first one comes within the first
/// `taken.len() + 1` tries.
pub proof fn lemma_first_free_exists(name: Seq<char>, taken: Seq<Seq<char>>)
    ensures
        exists|k: nat| k <= taken.len() && is_first_free(name, taken, k),
{
    lemma_first_free_from(name, taken, 0);
}

proof fn lemma_first_free_from(name: Seq<char>, taken: Seq<Seq<char>>, k: nat)
    requires
        forall|j: nat| j < k ==> taken.contains(#[trigger] candidate(name, j)),
    ensures
        exists|m: nat| m <= taken.len() && is_first_free(name, taken, m),
    decreases taken.len() + 1 - k,
{
    lemma_taken_pigeonhole(name, taken, k);
    if taken.contains(candidate(name, k)) {
        assert forall|j: nat| j < k + 1 implies taken.contains(#[trigger] candidate(name, j)) by {}
        lemma_taken_pigeonhole(name, taken, k + 1);
        lemma_first_free_from(name, taken, k + 1);
    } else {
        assert(is_first_free(name, taken, k));
    }
}

} // verus!
