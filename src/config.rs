use vstd::prelude::*;

use crate::text::{chars_of, string_of};

verus! {

/// The lowercase form of a text.
pub uninterp spec fn lower_of(s: Seq<char>) -> Seq<char>;

/// Relies on `str::to_lowercase`: the result depends on the characters
/// alone, and an empty text stays empty.
#[verifier::external_body]
fn lowercase(s: &str) -> (r: String)
    ensures
        r@ == lower_of(s@),
        s@.len() == 0 ==> r@.len() == 0,
{
    s.to_lowercase()
}

/// `MDBOOK_`, the prefix of the environment variables that set
/// configuration keys.
pub open spec fn env_prefix() -> Seq<char> {
    seq!['M', 'D', 'B', 'O', 'O', 'K', '_']
}

/// `s` with each `__` (taken left to right) turned into `.` and each other
/// `_` into `-`.
pub open spec fn key_of(s: Seq<char>) -> Seq<char>
    decreases s.len(),
{
    if s.len() == 0 {
        Seq::empty()
    } else if s.len() >= 2 && s[0] == '_' && s[1] == '_' {
        seq!['.'] + key_of(s.skip(2))
    } else if s[0] == '_' {
        seq!['-'] + key_of(s.skip(1))
    } else {
        seq![s[0]] + key_of(s.skip(1))
    }
}

/// The configuration key that an environment variable sets, if any.
pub open spec fn env_key(var: Seq<char>) -> Option<Seq<char>> {
    if var.len() >= env_prefix().len() && var.take(env_prefix().len() as int) == env_prefix() {
        Some(key_of(lower_of(var.skip(env_prefix().len() as int))))
    } else {
        None
    }
}

proof fn lemma_key_of_skip(s: Seq<char>, i: int)
    requires
        0 <= i <= s.len(),
    ensures
        i + 2 <= s.len() && s[i] == '_' && s[i + 1] == '_' ==> key_of(s.skip(i)) == seq!['.']
            + key_of(s.skip(i + 2)),
        i < s.len() && !(i + 2 <= s.len() && s[i] == '_' && s[i + 1] == '_') ==> key_of(s.skip(i))
            == seq![if s[i] == '_' { '-' } else { s[i] }] + key_of(s.skip(i + 1)),
{
    if i < s.len() {
        assert(s.skip(i).skip(1) =~= s.skip(i + 1));
        if i + 2 <= s.len() {
            assert(s.skip(i).skip(2) =~= s.skip(i + 2));
        }
    }
}

/// The configuration key for the already lowercased part of an environment
/// variable after its prefix: `foo_bar__baz` gives `foo-bar.baz`.
pub fn config_key(lowered: &str) -> (r: String)
    ensures
        r@ == key_of(lowered@),
{
    let k = key_from(&chars_of(lowered));
    string_of(&k, 0, k.len())
}

fn key_from(cs: &Vec<char>) -> (r: Vec<char>)
    ensures
        r@ == key_of(cs@),
{
    let mut r: Vec<char> = Vec::new();
    let mut i: usize = 0;
    assert(cs@.skip(0) =~= cs@);
    while i < cs.len()
        invariant
            i <= cs@.len(),
            r@ + key_of(cs@.skip(i as int)) == key_of(cs@),
        decreases cs.len() - i,
    {
        proof {
            lemma_key_of_skip(cs@, i as int);
        }
        if i + 1 < cs.len() && cs[i] == '_' && cs[i + 1] == '_' {
            r.push('.');
            i = i + 2;
        } else {
            if cs[i] == '_' {
                r.push('-');
            } else {
                r.push(cs[i]);
            }
            i = i + 1;
        }
        assert(r@ + key_of(cs@.skip(i as int)) =~= key_of(cs@));
    }
    assert(cs@.skip(i as int) =~= Seq::<char>::empty());
    assert(r@ + key_of(Seq::<char>::empty()) =~= r@);
    r
}

/// The configuration key that the environment variable `key` sets: for
/// `MDBOOK_FOO_bar__baz`, `foo-bar.baz`.
pub fn parse_env(key: &str) -> (r: Option<String>)
    ensures
        match r {
            Some(k) => env_key(key@) == Some(k@),
            None => env_key(key@) is None,
        },
{
    let cs = chars_of(key);
    let prefix = chars_of("MDBOOK_");
    proof {
        reveal_strlit("MDBOOK_");
    }
    assert(prefix@ =~= env_prefix());
    if cs.len() < prefix.len() {
        return None;
    }
    let mut i: usize = 0;
    while i < prefix.len()
        invariant
            i <= prefix@.len() <= cs@.len(),
            prefix@ == env_prefix(),
            cs@ == key@,
            forall|k: int| 0 <= k < i ==> cs@[k] == prefix@[k],
        decreases prefix.len() - i,
    {
        if cs[i] != prefix[i] {
            assert(cs@.take(env_prefix().len() as int)[i as int] != env_prefix()[i as int]);
            assert(cs@.take(env_prefix().len() as int) != env_prefix());
            return None;
        }
        i = i + 1;
    }
    assert(cs@.take(env_prefix().len() as int) =~= env_prefix());
    let rest = string_of(&cs, prefix.len(), cs.len());
    assert(rest@ =~= key@.skip(env_prefix().len() as int));
    let lower = lowercase(rest.as_str());
    Some(config_key(lower.as_str()))
}

} // verus!
