//! Text-level reading of '/'-separated paths: occurrences of the target name,
//! the final segment, the parent's name and the part below a base directory.
use vstd::prelude::*;
use vstd::string::*;

verus! {

/// The directory name that a scan looks for.
pub open spec fn target_name() -> Seq<char> {
    seq!['n', 'o', 'd', 'e', '_', 'm', 'o', 'd', 'u', 'l', 'e', 's']
}

/// The target name as text.
pub fn target_str() -> (r: &'static str)
    ensures
        r@ == target_name(),
{
    proof {
        reveal_strlit("node_modules");
        assert("node_modules"@ =~= target_name());
    }
    "node_modules"
}

/// How many times `p` occurs in `s`, counting non-overlapping occurrences
/// found from left to right.
pub open spec fn count_occurrences(s: Seq<char>, p: Seq<char>) -> nat
    decreases s.len(),
{
    if p.len() == 0 || s.len() < p.len() {
        0
    } else if s.subrange(0, p.len() as int) == p {
        1 + count_occurrences(s.subrange(p.len() as int, s.len() as int), p)
    } else {
        count_occurrences(s.subrange(1, s.len() as int), p)
    }
}

/// Whether `p` occurs in `s` starting at position `i`.
pub open spec fn occurs_at(s: Seq<char>, p: Seq<char>, i: int) -> bool {
    0 <= i && i + p.len() <= s.len() && s.subrange(i, i + p.len()) == p
}

pub(crate) fn occurs_at_exec(s: &str, p: &str, i: usize) -> (r: bool)
    requires
        i <= s@.len(),
    ensures
        r == occurs_at(s@, p@, i as int),
{
    let n = s.unicode_len();
    let m = p.unicode_len();
    if m > n - i {
        return false;
    }
    let mut j: usize = 0;
    while j < m
        invariant
            i + m <= n,
            n == s@.len(),
            m == p@.len(),
            j <= m,
            forall|k: int| 0 <= k < j ==> s@[i + k] == p@[k],
        decreases m - j,
    {
        if s.get_char(i + j) != p.get_char(j) {
            assert(s@.subrange(i as int, i + m)[j as int] != p@[j as int]);
            return false;
        }
        j = j + 1;
    }
    assert(s@.subrange(i as int, i + m) =~= p@);
    true
}

/// Counts the occurrences of `p` in `s` as `count_occurrences` does.
pub fn count_occurrences_exec(s: &str, p: &str) -> (r: usize)
    ensures
        r == count_occurrences(s@, p@),
{
    let n = s.unicode_len();
    let m = p.unicode_len();
    if m == 0 {
        return 0;
    }
    let mut i: usize = 0;
    let mut count: usize = 0;
    proof {
        assert(s@.subrange(0, n as int) =~= s@);
    }
    while m <= n - i
        invariant
            n == s@.len(),
            m == p@.len(),
            m > 0,
            i <= n,
            count <= i,
            count_occurrences(s@, p@) == count + count_occurrences(
                s@.subrange(i as int, n as int),
                p@,
            ),
        decreases n - i,
    {
        let rest = Ghost(s@.subrange(i as int, n as int));
        if occurs_at_exec(s, p, i) {
            proof {
                assert(rest@.subrange(0, m as int) =~= s@.subrange(i as int, i + m));
                assert(rest@.subrange(m as int, rest@.len() as int) =~= s@.subrange(
                    i + m,
                    n as int,
                ));
            }
            count = count + 1;
            i = i + m;
        } else {
            proof {
                assert(rest@.subrange(0, m as int) =~= s@.subrange(i as int, i + m));
                assert(rest@.subrange(1, rest@.len() as int) =~= s@.subrange(i + 1, n as int));
            }
            i = i + 1;
        }
    }
    count
}

/// Whether the target name occurs more than once in `path`: such a path lies
/// inside a directory that is already a match.
pub fn contains_multiple_node_modules(path: &str) -> (r: bool)
    ensures
        r == (count_occurrences(path@, target_name()) > 1),
{
    count_occurrences_exec(path, target_str()) > 1
}

/// Index of the last '/' in `s`, or -1 when there is none.
pub open spec fn last_sep(s: Seq<char>) -> int
    decreases s.len(),
{
    if s.len() == 0 {
        -1
    } else if s.last() == '/' {
        s.len() - 1
    } else {
        last_sep(s.drop_last())
    }
}

/// The final segment of a path: what follows its last '/'.
pub open spec fn file_name(s: Seq<char>) -> Seq<char> {
    s.subrange(last_sep(s) + 1, s.len() as int)
}

/// A path without its final segment and the '/' before it (empty when it
/// has no '/').
pub open spec fn parent_dir(s: Seq<char>) -> Seq<char> {
    if last_sep(s) < 0 {
        Seq::empty()
    } else {
        s.subrange(0, last_sep(s))
    }
}

/// The name of a directory path, read the way std reads path components:
/// trailing '/' characters and trailing `.` segments are passed over, and a
/// path that then is empty (the filesystem root, `.` or nothing) or ends in
/// `..` has no name (empty).
pub open spec fn dir_name(d: Seq<char>) -> Seq<char>
    decreases d.len(),
{
    if d.len() == 0 {
        Seq::empty()
    } else if d.last() == '/' || (d.last() == '.' && (d.len() == 1 || d[d.len() - 2] == '/')) {
        dir_name(d.drop_last())
    } else if file_name(d) == seq!['.', '.'] {
        Seq::empty()
    } else {
        file_name(d)
    }
}

/// The name of a path's parent directory; empty when the parent has no name.
pub open spec fn parent_name(s: Seq<char>) -> Seq<char> {
    dir_name(parent_dir(s))
}

/// The last '/' lies within the path, or there is none.
pub proof fn lemma_last_sep_bounds(s: Seq<char>)
    ensures
        -1 <= last_sep(s) < s.len(),
    decreases s.len(),
{
    if s.len() > 0 && s.last() != '/' {
        lemma_last_sep_bounds(s.drop_last());
    }
}

proof fn lemma_last_sep(s: Seq<char>, k: int)
    requires
        -1 <= k < s.len(),
        k >= 0 ==> s[k] == '/',
        forall|j: int| k < j < s.len() ==> s[j] != '/',
    ensures
        last_sep(s) == k,
    decreases s.len(),
{
    if s.len() > 0 && s.last() != '/' {
        lemma_last_sep(s.drop_last(), k);
    }
}

/// Position where the final segment of `s` starts: one past its last '/'.
fn name_start(s: &str) -> (r: usize)
    ensures
        r == last_sep(s@) + 1,
        r <= s@.len(),
{
    let mut i = s.unicode_len();
    while i > 0 && s.get_char(i - 1) != '/'
        invariant
            i <= s@.len(),
            forall|j: int| i <= j < s@.len() ==> s@[j] != '/',
        decreases i,
    {
        i = i - 1;
    }
    proof {
        lemma_last_sep(s@, i - 1);
    }
    i
}

/// The final segment of a path.
pub fn file_name_of(path: &str) -> (r: String)
    ensures
        r@ == file_name(path@),
{
    let start = name_start(path);
    String::from_str(path.substring_char(start, path.unicode_len()))
}

fn is_dot_dot(n: &str) -> (r: bool)
    ensures
        r == (n@ == seq!['.', '.']),
{
    if n.unicode_len() == 2 {
        let r = n.get_char(0) == '.' && n.get_char(1) == '.';
        proof {
            if r {
                assert(n@ =~= seq!['.', '.']);
            }
            if n@ == seq!['.', '.'] {
                assert(n@[0] == '.' && n@[1] == '.');
            }
        }
        r
    } else {
        proof {
            assert(seq!['.', '.'].len() == 2);
        }
        false
    }
}

/// The name of the parent directory of a path, empty when it has none.
pub fn parent_name_of(path: &str) -> (r: String)
    ensures
        r@ == parent_name(path@),
{
    let start = name_start(path);
    let dir: &str = if start == 0 {
        proof { reveal_strlit(""); }
        ""
    } else {
        path.substring_char(0, start - 1)
    };
    proof {
        assert(dir@ =~= parent_dir(path@));
        assert(dir@.subrange(0, dir@.len() as int) =~= dir@);
    }
    let mut end: usize = dir.unicode_len();
    while end > 0 && (dir.get_char(end - 1) == '/' || (dir.get_char(end - 1) == '.' && (end == 1
        || dir.get_char(end - 2) == '/')))
        invariant
            end <= dir@.len(),
            dir_name(dir@) == dir_name(dir@.subrange(0, end as int)),
        decreases end,
    {
        proof {
            assert(dir@.subrange(0, end as int).drop_last() =~= dir@.subrange(0, end - 1));
        }
        end = end - 1;
    }
    let name = file_name_of(dir.substring_char(0, end));
    if is_dot_dot(name.as_str()) {
        String::new()
    } else {
        name
    }
}

/// `s` without the '/' characters it starts with.
pub open spec fn trim_leading_seps(s: Seq<char>) -> Seq<char>
    decreases s.len(),
{
    if s.len() > 0 && s[0] == '/' {
        trim_leading_seps(s.drop_first())
    } else {
        s
    }
}

/// Whether `base` is a leading run of whole segments of `path`: a prefix of
/// it that ends at a '/' or at the end of `path`. An empty base is a prefix
/// of every path.
pub open spec fn is_base_of(path: Seq<char>, base: Seq<char>) -> bool {
    base.len() == 0 || (occurs_at(path, base, 0) && (base.last() == '/' || path.len() == base.len()
        || path[base.len() as int] == '/'))
}

/// The part of `path` below the directory `base`, or `None` when `base` is
/// not a leading run of whole segments of `path`.
pub open spec fn relative_path(path: Seq<char>, base: Seq<char>) -> Option<Seq<char>> {
    if !is_base_of(path, base) {
        None
    } else if base.len() == 0 {
        Some(path)
    } else {
        Some(trim_leading_seps(path.subrange(base.len() as int, path.len() as int)))
    }
}

/// The name shown for a match at `path` under `base`: `".../"` and the name
/// of its parent when the parent has one, else its path relative to `base`.
/// `None` when `path` does not lie under `base`.
pub open spec fn display_name(path: Seq<char>, base: Seq<char>) -> Option<Seq<char>> {
    match relative_path(path, base) {
        None => None,
        Some(rel) => if parent_name(path).len() > 0 {
            Some(seq!['.', '.', '.', '/'] + parent_name(path))
        } else {
            Some(rel)
        },
    }
}

/// The part of `path` below the directory `base`.
pub fn relative_path_of(path: &str, base: &str) -> (r: Option<String>)
    ensures
        r matches Some(t) ==> relative_path(path@, base@) == Some(t@),
        r is None ==> relative_path(path@, base@) is None,
{
    let n = path.unicode_len();
    let b = base.unicode_len();
    if b == 0 {
        return Some(String::from_str(path));
    }
    if !occurs_at_exec(path, base, 0) {
        return None;
    }
    if !(base.get_char(b - 1) == '/' || n == b || path.get_char(b) == '/') {
        return None;
    }
    let mut i: usize = b;
    proof {
        assert(path@.subrange(b as int, n as int) =~= path@.subrange(i as int, n as int));
    }
    while i < n && path.get_char(i) == '/'
        invariant
            b <= i <= n,
            n == path@.len(),
            trim_leading_seps(path@.subrange(b as int, n as int)) == trim_leading_seps(
                path@.subrange(i as int, n as int),
            ),
        decreases n - i,
    {
        proof {
            assert(path@.subrange(i as int, n as int).drop_first() =~= path@.subrange(
                i + 1,
                n as int,
            ));
        }
        i = i + 1;
    }
    Some(String::from_str(path.substring_char(i, n)))
}

/// The name shown for a match at `path` under `base`.
pub fn display_name_of(path: &str, base: &str) -> (r: Option<String>)
    ensures
        r matches Some(t) ==> display_name(path@, base@) == Some(t@),
        r is None ==> display_name(path@, base@) is None,
{
    match relative_path_of(path, base) {
        None => None,
        Some(rel) => {
            let parent = parent_name_of(path);
            if parent.unicode_len() > 0 {
                proof {
                    reveal_strlit(".../");
                }
                Some(String::from_str(".../").concat(parent.as_str()))
            } else {
                Some(rel)
            }
        },
    }
}

} // verus!
