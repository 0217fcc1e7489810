use vstd::prelude::*;
use vstd::std_specs::iter::IteratorSpec;

verus! {

/// Relies on `String::push`: the character is appended at the end.
#[verifier::external_body]
fn push_char(s: &mut String, c: char)
    ensures
        final(s)@ == old(s)@.push(c),
{
    s.push(c);
}

/// The characters of `s`, in order.
pub fn chars_of(s: &str) -> (r: Vec<char>)
    ensures
        r@ == s@,
{
    let mut it = s.chars();
    let mut r: Vec<char> = Vec::new();
    loop
        invariant
            it.obeys_prophetic_iter_laws(),
            it.decrease() is Some,
            r@ + it.remaining() == s@,
        ensures
            r@ == s@,
        decreases it.decrease()->0,
    {
        match it.next() {
            Some(c) => {
                r.push(c);
            },
            None => {
                assert(r@ + it.remaining() =~= r@);
                break ;
            },
        }
    }
    r
}

/// A string holding the characters `cs[from..to]`.
pub fn string_of(cs: &Vec<char>, from: usize, to: usize) -> (r: String)
    requires
        from <= to <= cs@.len(),
    ensures
        r@ == cs@.subrange(from as int, to as int),
{
    let mut r = String::new();
    let mut i = from;
    while i < to
        invariant
            from <= i <= to <= cs@.len(),
            r@ == cs@.subrange(from as int, i as int),
        decreases to - i,
    {
        push_char(&mut r, cs[i]);
        assert(cs@.subrange(from as int, i + 1) =~= cs@.subrange(from as int, i as int).push(cs@[i as int]));
        i = i + 1;
    }
    r
}

/// A copy of `cs[from..to]`.
pub fn copy_range(cs: &Vec<char>, from: usize, to: usize) -> (r: Vec<char>)
    requires
        from <= to <= cs@.len(),
    ensures
        r@ == cs@.subrange(from as int, to as int),
{
    let mut r: Vec<char> = Vec::new();
    let mut i = from;
    while i < to
        invariant
            from <= i <= to <= cs@.len(),
            r@ == cs@.subrange(from as int, i as int),
        decreases to - i,
    {
        r.push(cs[i]);
        assert(cs@.subrange(from as int, i + 1) =~= cs@.subrange(from as int, i as int).push(cs@[i as int]));
        i = i + 1;
    }
    r
}

/// The lines of `s[start..]`, where the line under way began at `start` and
/// `i` is the scanning position: lines end at `\n`, and a final line without
/// one counts when it is not empty.
pub open spec fn lines_from(s: Seq<char>, start: int, i: int) -> Seq<Seq<char>>
    decreases s.len() - i,
{
    if i < 0 || i >= s.len() {
        if 0 <= start < s.len() {
            seq![s.subrange(start, s.len() as int)]
        } else {
            Seq::empty()
        }
    } else if s[i] == '\n' {
        seq![s.subrange(start, i)] + lines_from(s, i + 1, i + 1)
    } else {
        lines_from(s, start, i + 1)
    }
}

/// The lines of `s`, split at `\n`.
pub open spec fn lines_of(s: Seq<char>) -> Seq<Seq<char>> {
    lines_from(s, 0, 0)
}

/// Splits `cs` into its lines (see `lines_of`).
pub fn split_lines(cs: &Vec<char>) -> (r: Vec<Vec<char>>)
    ensures
        r@.len() == lines_of(cs@).len(),
        forall|k: int| 0 <= k < r@.len() ==> #[trigger] r@[k]@ == lines_of(cs@)[k],
{
    let mut r: Vec<Vec<char>> = Vec::new();
    let mut start: usize = 0;
    let mut i: usize = 0;
    let ghost all = lines_of(cs@);
    while i < cs.len()
        invariant
            start <= i <= cs@.len(),
            all == lines_of(cs@),
            r@.len() + lines_from(cs@, start as int, i as int).len() == all.len(),
            forall|k: int| 0 <= k < r@.len() ==> #[trigger] r@[k]@ == all[k],
            forall|k: int|
                0 <= k < lines_from(cs@, start as int, i as int).len() ==> #[trigger] lines_from(
                    cs@,
                    start as int,
                    i as int,
                )[k] == all[r@.len() + k],
        decreases cs.len() - i,
    {
        if cs[i] == '\n' {
            let line = copy_range(cs, start, i);
            let ghost rest = lines_from(cs@, i + 1, i + 1);
            assert(lines_from(cs@, start as int, i as int) == seq![cs@.subrange(start as int, i as int)] + rest);
            assert(lines_from(cs@, start as int, i as int)[0] == line@);
            assert forall|k: int| 0 <= k < rest.len() implies #[trigger] rest[k] == all[r@.len() + 1 + k] by {
                assert(lines_from(cs@, start as int, i as int)[1 + k] == rest[k]);
            }
            r.push(line);
            start = i + 1;
        }
        i = i + 1;
    }
    if start < cs.len() {
        let line = copy_range(cs, start, cs.len());
        assert(lines_from(cs@, start as int, i as int)[0] == line@);
        r.push(line);
    }
    r
}

/// The index of the first `c` in `s` at or after `from`.
pub open spec fn find_char(s: Seq<char>, c: char, from: int) -> Option<int>
    decreases s.len() - from,
{
    if from < 0 || from >= s.len() {
        None
    } else if s[from] == c {
        Some(from)
    } else {
        find_char(s, c, from + 1)
    }
}

/// Where `find_char` finds `c`, it is at or after `from`, inside `s`.
pub proof fn lemma_find_char_bounds(s: Seq<char>, c: char, from: int)
    ensures
        match find_char(s, c, from) {
            Some(i) => from <= i < s.len() && s[i] == c,
            None => true,
        },
    decreases s.len() - from,
{
    if 0 <= from < s.len() && s[from] != c {
        lemma_find_char_bounds(s, c, from + 1);
    }
}

pub fn find_char_exec(s: &Vec<char>, c: char, from: usize) -> (r: Option<usize>)
    ensures
        match r {
            Some(i) => find_char(s@, c, from as int) == Some(i as int),
            None => find_char(s@, c, from as int) is None,
        },
{
    let mut i = from;
    while i < s.len()
        invariant
            from <= i,
            find_char(s@, c, from as int) == find_char(s@, c, i as int),
        decreases s.len() - i,
    {
        if s[i] == c {
            return Some(i);
        }
        i = i + 1;
    }
    None
}

} // verus!
