use vstd::prelude::*;

use crate::text::{copy_range, find_char, find_char_exec, lemma_find_char_bounds, string_of};

verus! {

pub open spec fn is_blank(c: char) -> bool {
    c == ' ' || c == '\t'
}

/// The index of the first character at or after `i` that is neither a space
/// nor a tab (the length of `s` if there is none).
pub open spec fn skip_blanks(s: Seq<char>, i: int) -> int
    decreases s.len() - i,
{
    if 0 <= i < s.len() && is_blank(s[i]) {
        skip_blanks(s, i + 1)
    } else {
        i
    }
}

/// The end of `s[..j]` once trailing spaces and tabs are removed.
pub open spec fn trim_end(s: Seq<char>, j: int) -> int
    decreases j,
{
    if 0 < j <= s.len() && is_blank(s[j - 1]) {
        trim_end(s, j - 1)
    } else {
        j
    }
}

/// The number of spaces among the first `n` characters of `s`.
pub open spec fn count_spaces(s: Seq<char>, n: int) -> nat
    decreases n,
{
    if n <= 0 {
        0
    } else {
        count_spaces(s, n - 1) + if s[n - 1] == ' ' { 1nat } else { 0nat }
    }
}

/// The nesting level of a line: each tab of the leading whitespace is one
/// level, and so is each complete group of `width` spaces. `None` when spaces
/// are left over.
pub open spec fn indent_level(line: Seq<char>, width: nat) -> Option<nat>
    recommends
        width >= 1,
{
    let n = skip_blanks(line, 0);
    let spaces = count_spaces(line, n);
    let tabs = (n - spaces) as nat;
    if spaces % width != 0 {
        None
    } else {
        Some(tabs + spaces / width)
    }
}

/// `line` without leading and trailing spaces and tabs.
pub open spec fn trimmed(line: Seq<char>) -> Seq<char> {
    let a = skip_blanks(line, 0);
    let b = trim_end(line, line.len() as int);
    if a <= b {
        line.subrange(a, b)
    } else {
        Seq::empty()
    }
}

/// The index of the first `](` in `s` at or after `from`.
pub open spec fn find_link_middle(s: Seq<char>, from: int) -> Option<int>
    decreases s.len() - from,
{
    if from < 0 || from + 1 >= s.len() {
        None
    } else if s[from] == ']' && s[from + 1] == '(' {
        Some(from)
    } else {
        find_link_middle(s, from + 1)
    }
}

/// The display name and target of the first `[name](target)` in `s`.
pub open spec fn link_parts(s: Seq<char>) -> Option<(Seq<char>, Seq<char>)> {
    match find_char(s, '[', 0) {
        None => None,
        Some(i) => match find_link_middle(s, i) {
            None => None,
            Some(j) => match find_char(s, ')', j + 1) {
                None => None,
                Some(k) => Some((s.subrange(i + 1, j), s.subrange(j + 2, k))),
            },
        },
    }
}

/// What one outline line holds.
pub enum LineKind {
    Separator,
    Numbered { name: Seq<char>, location: Seq<char> },
    Affix { name: Seq<char>, location: Seq<char> },
}

/// The kind of an outline line; `None` for a line that is no outline item.
pub open spec fn classify(line: Seq<char>) -> Option<LineKind> {
    let t = trimmed(line);
    if t.len() >= 2 && t[0] == '-' && t[1] == '-' {
        Some(LineKind::Separator)
    } else if t.len() >= 1 && (t[0] == '-' || t[0] == '*') {
        match link_parts(t) {
            Some((n, l)) => Some(LineKind::Numbered { name: n, location: l }),
            None => None,
        }
    } else if t.len() >= 1 && t[0] == '[' {
        match link_parts(t) {
            Some((n, l)) => Some(LineKind::Affix { name: n, location: l }),
            None => None,
        }
    } else {
        None
    }
}

/// A classified outline line.
pub enum OutlineLine {
    Separator,
    Numbered { name: String, location: String },
    Affix { name: String, location: String },
}

impl OutlineLine {
    pub open spec fn view(&self) -> LineKind {
        match self {
            OutlineLine::Separator => LineKind::Separator,
            OutlineLine::Numbered { name, location } => LineKind::Numbered {
                name: name@,
                location: location@,
            },
            OutlineLine::Affix { name, location } => LineKind::Affix {
                name: name@,
                location: location@,
            },
        }
    }
}

/// Computes the nesting level of `line` (see `indent_level`).
pub fn level(line: &Vec<char>, width: usize) -> (r: Option<usize>)
    requires
        width >= 1,
    ensures
        match r {
            Some(l) => indent_level(line@, width as nat) == Some(l as nat),
            None => indent_level(line@, width as nat) is None,
        },
{
    let mut i: usize = 0;
    let mut spaces: usize = 0;
    while i < line.len() && (line[i] == ' ' || line[i] == '\t')
        invariant
            i <= line@.len(),
            skip_blanks(line@, 0) == skip_blanks(line@, i as int),
            spaces == count_spaces(line@, i as int),
            spaces <= i,
        decreases line.len() - i,
    {
        if line[i] == ' ' {
            spaces = spaces + 1;
        }
        i = i + 1;
    }
    assert(skip_blanks(line@, i as int) == i);
    if spaces % width != 0 {
        None
    } else {
        Some((i - spaces) + spaces / width)
    }
}

fn find_link_middle_exec(s: &Vec<char>, from: usize) -> (r: Option<usize>)
    ensures
        match r {
            Some(j) => find_link_middle(s@, from as int) == Some(j as int),
            None => find_link_middle(s@, from as int) is None,
        },
{
    let mut i = from;
    while i < s.len() && i + 1 < s.len()
        invariant
            from <= i,
            find_link_middle(s@, from as int) == find_link_middle(s@, i as int),
        decreases s.len() - i,
    {
        if s[i] == ']' && s[i + 1] == '(' {
            return Some(i);
        }
        i = i + 1;
    }
    None
}

/// Extracts the display name and the target of the first `[name](target)`.
pub fn read_link(s: &Vec<char>) -> (r: Option<(String, String)>)
    ensures
        match r {
            Some((n, l)) => link_parts(s@) == Some((n@, l@)),
            None => link_parts(s@) is None,
        },
{
    let i = match find_char_exec(s, '[', 0) {
        Some(i) => i,
        None => return None,
    };
    let j = match find_link_middle_exec(s, i) {
        Some(j) => j,
        None => return None,
    };
    proof {
        lemma_find_char_bounds(s@, '[', 0);
        lemma_find_link_middle_bounds(s@, i as int);
    }
    let n = s.len();
    assert(j + 1 < n);
    let k = match find_char_exec(s, ')', j + 1) {
        Some(k) => k,
        None => return None,
    };
    proof {
        lemma_find_char_bounds(s@, ')', j + 1);
    }
    let name = string_of(s, i + 1, j);
    let location = string_of(s, j + 2, k);
    Some((name, location))
}

/// `line` without leading and trailing spaces and tabs.
pub fn trim(line: &Vec<char>) -> (r: Vec<char>)
    ensures
        r@ == trimmed(line@),
{
    let mut a: usize = 0;
    while a < line.len() && (line[a] == ' ' || line[a] == '\t')
        invariant
            a <= line@.len(),
            skip_blanks(line@, 0) == skip_blanks(line@, a as int),
        decreases line.len() - a,
    {
        a = a + 1;
    }
    let mut b: usize = line.len();
    while b > 0 && (line[b - 1] == ' ' || line[b - 1] == '\t')
        invariant
            b <= line@.len(),
            trim_end(line@, line@.len() as int) == trim_end(line@, b as int),
        decreases b,
    {
        b = b - 1;
    }
    if a <= b {
        copy_range(line, a, b)
    } else {
        Vec::new()
    }
}

/// Classifies one outline line (see `classify`).
pub fn parse_line(line: &Vec<char>) -> (r: Option<OutlineLine>)
    ensures
        match r {
            Some(x) => classify(line@) == Some(x@),
            None => classify(line@) is None,
        },
{
    let t = trim(line);
    if t.len() >= 2 && t[0] == '-' && t[1] == '-' {
        Some(OutlineLine::Separator)
    } else if t.len() >= 1 && (t[0] == '-' || t[0] == '*') {
        match read_link(&t) {
            Some((name, location)) => Some(OutlineLine::Numbered { name, location }),
            None => None,
        }
    } else if t.len() >= 1 && t[0] == '[' {
        match read_link(&t) {
            Some((name, location)) => Some(OutlineLine::Affix { name, location }),
            None => None,
        }
    } else {
        None
    }
}

proof fn lemma_find_link_middle_bounds(s: Seq<char>, from: int)
    ensures
        match find_link_middle(s, from) {
            Some(j) => from <= j && j + 1 < s.len() && s[j] == ']' && s[j + 1] == '(',
            None => true,
        },
    decreases s.len() - from,
{
    if 0 <= from && from + 1 < s.len() && !(s[from] == ']' && s[from + 1] == '(') {
        lemma_find_link_middle_bounds(s, from + 1);
    }
}

} // verus!
