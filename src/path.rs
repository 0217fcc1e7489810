use vstd::prelude::*;

use crate::text::{chars_of, string_of};

verus! {

pub open spec fn is_absolute(p: Seq<char>) -> bool {
    p.len() > 0 && p[0] == '/'
}

/// The content root as a prefix of the locations below it: empty, or ending
/// in `/`.
pub open spec fn root_prefix(root: Seq<char>) -> Seq<char> {
    if root.len() == 0 || root.last() == '/' {
        root
    } else {
        root.push('/')
    }
}

/// Where the content of a link lies: an absolute location as it is, a
/// relative one below the content root.
pub open spec fn join_path(root: Seq<char>, location: Seq<char>) -> Seq<char> {
    if is_absolute(location) {
        location
    } else {
        root_prefix(root) + location
    }
}

/// The location of a chapter relative to the content root; `None` when an
/// absolute location lies outside it.
pub open spec fn chapter_path(root: Seq<char>, location: Seq<char>) -> Option<Seq<char>> {
    let p = root_prefix(root);
    if !is_absolute(location) {
        Some(location)
    } else if p.len() <= location.len() && location.take(p.len() as int) == p {
        Some(location.skip(p.len() as int))
    } else if location == root {
        Some(Seq::empty())
    } else {
        None
    }
}

fn root_prefix_exec(root: &Vec<char>) -> (r: Vec<char>)
    ensures
        r@ == root_prefix(root@),
{
    let mut r: Vec<char> = Vec::new();
    let mut i: usize = 0;
    while i < root.len()
        invariant
            i <= root@.len(),
            r@ == root@.take(i as int),
        decreases root.len() - i,
    {
        r.push(root[i]);
        i = i + 1;
        assert(r@ =~= root@.take(i as int));
    }
    assert(root@.take(root@.len() as int) =~= root@);
    if root.len() > 0 && root[root.len() - 1] != '/' {
        r.push('/');
    }
    r
}

fn append_chars(r: &mut Vec<char>, s: &Vec<char>, from: usize)
    requires
        from <= s@.len(),
    ensures
        final(r)@ == old(r)@ + s@.skip(from as int),
{
    let mut i = from;
    while i < s.len()
        invariant
            from <= i <= s@.len(),
            r@ == old(r)@ + s@.subrange(from as int, i as int),
        decreases s.len() - i,
    {
        r.push(s[i]);
        i = i + 1;
        assert(r@ =~= old(r)@ + s@.subrange(from as int, i as int));
    }
    assert(s@.subrange(from as int, s@.len() as int) =~= s@.skip(from as int));
}

/// Joins a link's location to the content root (see `join_path`).
pub fn join(root: &str, location: &str) -> (r: String)
    ensures
        r@ == join_path(root@, location@),
{
    let loc = chars_of(location);
    let full = if loc.len() > 0 && loc[0] == '/' {
        loc
    } else {
        let mut p = root_prefix_exec(&chars_of(root));
        append_chars(&mut p, &loc, 0);
        assert(loc@.skip(0) =~= loc@);
        p
    };
    string_of(&full, 0, full.len())
}

/// The location of a chapter relative to the content root (see
/// `chapter_path`).
pub fn relative_location(root: &str, location: &str) -> (r: Option<String>)
    ensures
        match r {
            Some(p) => chapter_path(root@, location@) == Some(p@),
            None => chapter_path(root@, location@) is None,
        },
{
    let loc = chars_of(location);
    if !(loc.len() > 0 && loc[0] == '/') {
        return Some(string_of(&loc, 0, loc.len()));
    }
    let rc = chars_of(root);
    let p = root_prefix_exec(&rc);
    if p.len() <= loc.len() {
        let mut i: usize = 0;
        while i < p.len() && p[i] == loc[i]
            invariant
                i <= p@.len() <= loc@.len(),
                p@.take(i as int) == loc@.take(i as int),
            decreases p.len() - i,
        {
            i = i + 1;
            assert(p@.take(i as int) =~= p@.take(i - 1).push(p@[i - 1]));
            assert(loc@.take(i as int) =~= loc@.take(i - 1).push(loc@[i - 1]));
        }
        if i == p.len() {
            assert(p@.take(i as int) =~= p@);
            return Some(string_of(&loc, p.len(), loc.len()));
        }
        assert(loc@.take(p@.len() as int)[i as int] != p@[i as int]);
    }
    if rc.len() == loc.len() {
        let mut j: usize = 0;
        while j < rc.len() && rc[j] == loc[j]
            invariant
                j <= rc@.len() == loc@.len(),
                forall|k: int| 0 <= k < j ==> rc@[k] == loc@[k],
            decreases rc.len() - j,
        {
            j = j + 1;
        }
        if j == rc.len() {
            assert(loc@ =~= rc@);
            return Some(String::new());
        }
    }
    None
}

} // verus!
