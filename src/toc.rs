use vstd::prelude::*;

use crate::text::{chars_of, string_of};

verus! {

/// Settings of the table of contents.
#[derive(Debug, Clone, PartialEq)]
pub struct RenderToc {
    pub no_section_label: bool,
    /// File names that stand for their directory's index.
    pub rewrite_to_dir: Vec<String>,
}

// Paths here are read as `std::path::Path` reads them on Unix: components are
// separated by `/`, empty and `.` components are skipped except a leading
// `.`, a leading `/` is the root, and a final `..` is no file name.

/// The index of the last `c` in `s[..j]`.
pub open spec fn last_index_of(s: Seq<char>, c: char, j: int) -> Option<int>
    decreases j,
{
    if j <= 0 || j > s.len() {
        None
    } else if s[j - 1] == c {
        Some(j - 1)
    } else {
        last_index_of(s, c, j - 1)
    }
}

/// Where the components after the root, or after a leading `.`, begin.
pub open spec fn body_start(p: Seq<char>) -> int {
    if p.len() > 0 && p[0] == '/' {
        1
    } else if p.len() > 0 && p[0] == '.' && (p.len() == 1 || p[1] == '/') {
        1
    } else {
        0
    }
}

/// The end of `p[..j]` once trailing separators and `.` components are
/// removed, the root and a leading `.` kept.
pub open spec fn trim_back(p: Seq<char>, j: int) -> int
    decreases j,
{
    if body_start(p) < j <= p.len() && (p[j - 1] == '/' || (p[j - 1] == '.' && (j - 1
        == body_start(p) || p[j - 2] == '/'))) {
        trim_back(p, j - 1)
    } else {
        j
    }
}

/// Where the last component of `p` starts, and that component, when it is a
/// file name (`Path::file_name`).
pub open spec fn file_name_at(p: Seq<char>) -> Option<(int, Seq<char>)> {
    let j = trim_back(p, p.len() as int);
    if j <= body_start(p) {
        None
    } else {
        let s = match last_index_of(p, '/', j) {
            Some(i) => i + 1,
            None => 0,
        };
        let name = p.subrange(s, j);
        if name == seq!['.', '.'] {
            None
        } else {
            Some((s, name))
        }
    }
}

/// The file name of `p`, empty when it has none.
pub open spec fn file_name(p: Seq<char>) -> Seq<char> {
    match file_name_at(p) {
        Some((_, name)) => name,
        None => Seq::empty(),
    }
}

/// `t` followed by `/` unless it is empty or already ends in one
/// (`PathBuf::push("")`).
pub open spec fn with_separator(t: Seq<char>) -> Seq<char> {
    if t.len() > 0 && t.last() != '/' {
        t.push('/')
    } else {
        t
    }
}

/// `path` with its file name removed when that name (empty when it has none)
/// is one of `names`, as `Path::with_file_name("")` does: the path is cut to
/// its parent and a separator follows.
pub open spec fn rewrite_index(names: Seq<Seq<char>>, path: Seq<char>) -> Seq<char> {
    if exists|k: int| 0 <= k < names.len() && names[k] == file_name(path) {
        match file_name_at(path) {
            Some((s, _)) => with_separator(path.take(trim_back(path, s))),
            None => with_separator(path),
        }
    } else {
        path
    }
}

proof fn lemma_last_index_bounds(s: Seq<char>, c: char, j: int)
    ensures
        match last_index_of(s, c, j) {
            Some(i) => 0 <= i < j && i < s.len() && s[i] == c,
            None => true,
        },
    decreases j,
{
    if 0 < j <= s.len() && s[j - 1] != c {
        lemma_last_index_bounds(s, c, j - 1);
    }
}

proof fn lemma_trim_back_bounds(p: Seq<char>, j: int)
    requires
        0 <= j <= p.len(),
    ensures
        0 <= trim_back(p, j) <= j,
        j >= body_start(p) ==> trim_back(p, j) >= body_start(p),
    decreases j,
{
    if body_start(p) < j <= p.len() && (p[j - 1] == '/' || (p[j - 1] == '.' && (j - 1
        == body_start(p) || p[j - 2] == '/'))) {
        lemma_trim_back_bounds(p, j - 1);
    }
}

fn body_start_exec(cs: &Vec<char>) -> (r: usize)
    ensures
        r as int == body_start(cs@),
        r <= 1,
{
    if cs.len() > 0 && cs[0] == '/' {
        1
    } else if cs.len() > 0 && cs[0] == '.' && (cs.len() == 1 || cs[1] == '/') {
        1
    } else {
        0
    }
}

fn trim_back_exec(cs: &Vec<char>, lb: usize, j0: usize) -> (r: usize)
    requires
        lb as int == body_start(cs@),
        j0 <= cs@.len(),
    ensures
        r as int == trim_back(cs@, j0 as int),
        r <= j0,
{
    let mut j = j0;
    while j > lb && (cs[j - 1] == '/' || (cs[j - 1] == '.' && (j - 1 == lb || cs[j - 2] == '/')))
        invariant
            j <= j0 <= cs@.len(),
            lb as int == body_start(cs@),
            trim_back(cs@, j0 as int) == trim_back(cs@, j as int),
        decreases j,
    {
        j = j - 1;
    }
    j
}

fn push_slash(r: &mut String)
    ensures
        final(r)@ == old(r)@.push('/'),
{
    proof {
        reveal_strlit("/");
    }
    r.append("/");
    assert(r@ =~= old(r)@.push('/'));
}

/// `cs[..n]` followed by a separator as `with_separator` says.
fn separated(cs: &Vec<char>, n: usize) -> (r: String)
    requires
        n <= cs@.len(),
    ensures
        r@ == with_separator(cs@.take(n as int)),
{
    let mut r = string_of(cs, 0, n);
    assert(r@ =~= cs@.take(n as int));
    if n > 0 && cs[n - 1] != '/' {
        push_slash(&mut r);
    }
    r
}

impl RenderToc {
    pub open spec fn names(&self) -> Seq<Seq<char>> {
        self.rewrite_to_dir@.map_values(|s: String| s@)
    }

    /// Rewrites a path whose file name is listed in `rewrite_to_dir` to its
    /// directory (see `rewrite_index`).
    pub fn rewrite_directory_index(&self, path: &str) -> (r: String)
        ensures
            r@ == rewrite_index(self.names(), path@),
    {
        let cs = chars_of(path);
        let lb = body_start_exec(&cs);
        let e = trim_back_exec(&cs, lb, cs.len());
        proof {
            lemma_trim_back_bounds(cs@, cs@.len() as int);
        }
        let mut has_name = false;
        let mut s: usize = 0;
        if e > lb {
            let mut j = e;
            while j > 0 && cs[j - 1] != '/'
                invariant
                    j <= e <= cs@.len(),
                    last_index_of(cs@, '/', e as int) == last_index_of(cs@, '/', j as int),
                decreases j,
            {
                j = j - 1;
            }
            s = j;
            assert(s as int == match last_index_of(cs@, '/', e as int) {
                Some(i) => i + 1,
                None => 0,
            });
            proof {
                lemma_last_index_bounds(cs@, '/', e as int);
            }
            assert(cs@.subrange(s as int, e as int).len() == (e - s) as int);
            let is_parent = e - s == 2 && cs[s] == '.' && cs[s + 1] == '.';
            assert(is_parent == (cs@.subrange(s as int, e as int) == seq!['.', '.'])) by {
                if cs@.subrange(s as int, e as int) == seq!['.', '.'] {
                    assert(cs@.subrange(s as int, e as int)[0] == '.');
                    assert(cs@.subrange(s as int, e as int)[1] == '.');
                }
                if is_parent {
                    assert(cs@.subrange(s as int, e as int) =~= seq!['.', '.']);
                }
            }
            has_name = !is_parent;
        }
        let name = if has_name {
            string_of(&cs, s, e)
        } else {
            String::new()
        };
        assert(has_name == (file_name_at(path@) is Some));
        assert(has_name ==> file_name_at(path@) == Some((s as int, name@)));
        assert(name@ =~= file_name(path@));
        let mut k: usize = 0;
        while k < self.rewrite_to_dir.len()
            invariant
                k <= self.rewrite_to_dir@.len(),
                lb as int == body_start(cs@),
                s <= e <= cs@.len(),
                cs@ == path@,
                has_name ==> file_name_at(path@) == Some((s as int, name@)),
                !has_name ==> file_name_at(path@) is None,
                name@ == file_name(path@),
                forall|m: int| 0 <= m < k ==> self.names()[m] != file_name(path@),
            decreases self.rewrite_to_dir.len() - k,
        {
            if self.rewrite_to_dir[k] == name {
                assert(self.names()[k as int] == file_name(path@));
                if has_name {
                    let q = trim_back_exec(&cs, lb, s);
                    return separated(&cs, q);
                } else {
                    assert(cs@.take(cs@.len() as int) =~= path@);
                    return separated(&cs, cs.len());
                }
            }
            k = k + 1;
        }
        assert(cs@.subrange(0, cs@.len() as int) =~= path@);
        string_of(&cs, 0, cs.len())
    }
}

} // verus!
