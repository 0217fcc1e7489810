use vstd::prelude::*;
use vstd::slice::slice_to_vec;

use sha2::Digest;

use crate::text::{chars_of, find_char, find_char_exec, lemma_find_char_bounds, string_of};

verus! {

/// The SHA-256 digest of a byte sequence.
pub uninterp spec fn sha256_of(data: Seq<u8>) -> Seq<u8>;

/// Relies on `sha2::Sha256::digest`: the SHA-256 digest of `data`, which is
/// 32 bytes long.
#[verifier::external_body]
fn sha256(data: &Vec<u8>) -> (r: Vec<u8>)
    ensures
        r@ == sha256_of(data@),
        r@.len() == 32,
{
    sha2::Sha256::digest(data).to_vec()
}

pub open spec fn hex_digit(d: int) -> char {
    seq!['0', '1', '2', '3', '4', '5', '6', '7', '8', '9', 'a', 'b', 'c', 'd', 'e', 'f'][d]
}

/// Two lowercase hexadecimal digits per byte, the high nibble first.
pub open spec fn hex_lower(b: Seq<u8>) -> Seq<char>
    decreases b.len(),
{
    if b.len() == 0 {
        Seq::empty()
    } else {
        hex_lower(b.drop_last()) + seq![hex_digit(b.last() as int / 16), hex_digit(b.last() as int % 16)]
    }
}

/// Relies on `hex::encode`: each byte becomes two digits of
/// `0123456789abcdef`, the high nibble first.
#[verifier::external_body]
fn hex_encode(b: &Vec<u8>) -> (r: String)
    ensures
        r@ == hex_lower(b@),
{
    hex::encode(b)
}

/// The tag that goes into a hashed file name: the first four bytes of the
/// content's SHA-256 digest, in hexadecimal.
pub open spec fn short_hex(data: Seq<u8>) -> Seq<char> {
    hex_lower(sha256_of(data).take(4))
}

/// The hexadecimal form of the first four bytes of a digest.
pub fn hex_prefix(digest: &Vec<u8>) -> (r: String)
    requires
        digest@.len() >= 4,
    ensures
        r@ == hex_lower(digest@.take(4)),
{
    let mut first: Vec<u8> = Vec::new();
    let mut i: usize = 0;
    while i < 4
        invariant
            i <= 4,
            digest@.len() >= 4,
            first@ == digest@.take(i as int),
        decreases 4 - i,
    {
        first.push(digest[i]);
        i = i + 1;
        assert(first@ =~= digest@.take(i as int));
    }
    hex_encode(&first)
}

/// The hash tag of some content (see `short_hex`).
pub fn short_digest(data: &Vec<u8>) -> (r: String)
    ensures
        r@ == short_hex(data@),
{
    hex_prefix(&sha256(data))
}

/// A file of the rendered output's assets.
#[derive(Debug, Clone, PartialEq)]
pub enum StaticFile {
    /// Content held in memory.
    Builtin { data: Vec<u8>, filename: String },
    /// Content read from `input_location`.
    Additional { input_location: String, filename: String },
}

pub enum StaticFileModel {
    Builtin { data: Seq<u8>, filename: Seq<char> },
    Additional { input_location: Seq<char>, filename: Seq<char> },
}

impl StaticFile {
    pub open spec fn view(&self) -> StaticFileModel {
        match self {
            StaticFile::Builtin { data, filename } => StaticFileModel::Builtin {
                data: data@,
                filename: filename@,
            },
            StaticFile::Additional { input_location, filename } => StaticFileModel::Additional {
                input_location: input_location@,
                filename: filename@,
            },
        }
    }
}

pub open spec fn filename_of(f: StaticFileModel) -> Seq<char> {
    match f {
        StaticFileModel::Builtin { filename, .. } => filename,
        StaticFileModel::Additional { filename, .. } => filename,
    }
}

pub open spec fn with_filename(f: StaticFileModel, n: Seq<char>) -> StaticFileModel {
    match f {
        StaticFileModel::Builtin { data, .. } => StaticFileModel::Builtin { data, filename: n },
        StaticFileModel::Additional { input_location, .. } => StaticFileModel::Additional {
            input_location,
            filename: n,
        },
    }
}

/// `FontAwesome/fonts/`: the directory whose files carry their own cache
/// busting.
pub open spec fn font_dir() -> Seq<char> {
    seq![
        'F', 'o', 'n', 't', 'A', 'w', 'e', 's', 'o', 'm', 'e', '/', 'f', 'o', 'n', 't', 's', '/',
    ]
}

/// Whether a file name gets a hash tag: it splits at its first `.` into a
/// non-empty stem and suffix, and, for a builtin file, the suffix is not
/// `txt` and the stem is not under `FontAwesome/fonts/`.
pub open spec fn takes_hash(filename: Seq<char>, builtin: bool) -> bool {
    match find_char(filename, '.', 0) {
        None => false,
        Some(i) => {
            let stem = filename.take(i);
            let suffix = filename.skip(i + 1);
            &&& stem.len() > 0
            &&& suffix.len() > 0
            &&& builtin ==> suffix != seq!['t', 'x', 't'] && !(stem.len() >= font_dir().len()
                && stem.take(font_dir().len() as int) == font_dir())
        },
    }
}

/// `stem-tag.suffix`, the file name split at its first `.`.
pub open spec fn tagged_name(filename: Seq<char>, tag: Seq<char>) -> Seq<char> {
    let i = find_char(filename, '.', 0)->Some_0;
    filename.take(i) + seq!['-'] + tag + seq!['.'] + filename.skip(i + 1)
}

fn starts_with_font_dir(stem: &Vec<char>) -> (r: bool)
    ensures
        r == (stem@.len() >= font_dir().len() && stem@.take(font_dir().len() as int) == font_dir()),
{
    let dir = chars_of("FontAwesome/fonts/");
    proof {
        reveal_strlit("FontAwesome/fonts/");
    }
    assert(dir@ =~= font_dir());
    if stem.len() < dir.len() {
        return false;
    }
    let mut i: usize = 0;
    while i < dir.len()
        invariant
            i <= dir@.len() <= stem@.len(),
            dir@ == font_dir(),
            forall|k: int| 0 <= k < i ==> stem@[k] == dir@[k],
        decreases dir.len() - i,
    {
        if stem[i] != dir[i] {
            assert(stem@.take(font_dir().len() as int)[i as int] != font_dir()[i as int]);
            return false;
        }
        i = i + 1;
    }
    assert(stem@.take(font_dir().len() as int) =~= font_dir());
    true
}

/// Decides whether `filename` takes a hash tag (see `takes_hash`).
pub fn hash_applies(filename: &String, builtin: bool) -> (r: bool)
    ensures
        r == takes_hash(filename@, builtin),
{
    let cs = chars_of(filename.as_str());
    let i = match find_char_exec(&cs, '.', 0) {
        Some(i) => i,
        None => return false,
    };
    proof {
        lemma_find_char_bounds(cs@, '.', 0);
    }
    let stem = crate::text::copy_range(&cs, 0, i);
    let suffix_len = cs.len() - (i + 1);
    assert(stem@ =~= cs@.take(i as int));
    if i == 0 || suffix_len == 0 {
        return false;
    }
    if !builtin {
        return true;
    }
    let is_txt = suffix_len == 3 && cs[i + 1] == 't' && cs[i + 2] == 'x' && cs[i + 3] == 't';
    assert(is_txt == (cs@.skip(i + 1) == seq!['t', 'x', 't'])) by {
        if cs@.skip(i + 1) == seq!['t', 'x', 't'] {
            assert(cs@.skip(i + 1)[0] == 't');
        }
        if is_txt {
            assert(cs@.skip(i + 1) =~= seq!['t', 'x', 't']);
        }
    }
    !is_txt && !starts_with_font_dir(&stem)
}

/// `stem-tag.suffix` for a name that takes a hash (see `tagged_name`).
pub fn tag_name(filename: &String, tag: &String) -> (r: String)
    requires
        find_char(filename@, '.', 0) is Some,
    ensures
        r@ == tagged_name(filename@, tag@),
{
    let cs = chars_of(filename.as_str());
    let i = find_char_exec(&cs, '.', 0).unwrap();
    proof {
        lemma_find_char_bounds(cs@, '.', 0);
        reveal_strlit("-");
        reveal_strlit(".");
    }
    let mut r = string_of(&cs, 0, i);
    r.append("-");
    r.append(tag.as_str());
    r.append(".");
    let rest = string_of(&cs, i + 1, cs.len());
    r.append(rest.as_str());
    assert(r@ =~= tagged_name(filename@, tag@));
    r
}

/// Why the asset files could not be hashed.
#[derive(Debug, Clone, PartialEq)]
pub enum StaticFileError {
    /// The content of this additional file was not available.
    Unreadable { filename: String },
}

/// The name that `f` takes once hashed, `None` when it keeps its own;
/// `Err` with its name when its content is needed and missing.
pub open spec fn hashed_name(f: StaticFileModel, content: Option<Seq<u8>>) -> Result<
    Option<Seq<char>>,
    Seq<char>,
> {
    match f {
        StaticFileModel::Builtin { data, filename } => if takes_hash(filename, true) {
            Ok(Some(tagged_name(filename, short_hex(data))))
        } else {
            Ok(None)
        },
        StaticFileModel::Additional { filename, .. } => if takes_hash(filename, false) {
            match content {
                Some(c) => Ok(Some(tagged_name(filename, short_hex(c)))),
                None => Err(filename),
            }
        } else {
            Ok(None)
        },
    }
}

pub open spec fn content_at(contents: Seq<Option<Vec<u8>>>, i: int) -> Option<Seq<u8>> {
    if 0 <= i < contents.len() {
        match contents[i] {
            Some(v) => Some(v@),
            None => None,
        }
    } else {
        None
    }
}

/// The files and the renamings after hashing the first `n` files.
pub open spec fn hash_prefix(
    files: Seq<StaticFileModel>,
    contents: Seq<Option<Vec<u8>>>,
    n: nat,
) -> Result<(Seq<StaticFileModel>, Seq<(Seq<char>, Seq<char>)>), Seq<char>>
    decreases n,
{
    if n == 0 {
        Ok((files, Seq::empty()))
    } else {
        match hash_prefix(files, contents, (n - 1) as nat) {
            Err(e) => Err(e),
            Ok((fs, m)) => match hashed_name(files[n - 1], content_at(contents, n - 1)) {
                Err(e) => Err(e),
                Ok(None) => Ok((fs, m)),
                Ok(Some(new_name)) => Ok(
                    (
                        fs.update(n - 1, with_filename(files[n - 1], new_name)),
                        m.push((filename_of(files[n - 1]), new_name)),
                    ),
                ),
            },
        }
    }
}

proof fn lemma_hash_prefix_len(files: Seq<StaticFileModel>, contents: Seq<Option<Vec<u8>>>, n: nat)
    requires
        n <= files.len(),
        hash_prefix(files, contents, n) is Ok,
    ensures
        hash_prefix(files, contents, n)->Ok_0.0.len() == files.len(),
    decreases n,
{
    if n > 0 {
        lemma_hash_prefix_len(files, contents, (n - 1) as nat);
    }
}

proof fn lemma_hash_error(
    files: Seq<StaticFileModel>,
    contents: Seq<Option<Vec<u8>>>,
    n: nat,
    m: nat,
    e: Seq<char>,
)
    requires
        n <= m,
        hash_prefix(files, contents, n) == Err::<
            (Seq<StaticFileModel>, Seq<(Seq<char>, Seq<char>)>),
            Seq<char>,
        >(e),
    ensures
        hash_prefix(files, contents, m) == Err::<
            (Seq<StaticFileModel>, Seq<(Seq<char>, Seq<char>)>),
            Seq<char>,
        >(e),
    decreases m - n,
{
    if n < m {
        lemma_hash_error(files, contents, n, (m - 1) as nat, e);
    }
}

/// The index of the first pair of `m`, at or after `i`, whose key is `k`.
pub open spec fn key_index(m: Seq<(Seq<char>, Seq<char>)>, k: Seq<char>, i: int) -> Option<int>
    decreases m.len() - i,
{
    if i < 0 || i >= m.len() {
        None
    } else if m[i].0 == k {
        Some(i)
    } else {
        key_index(m, k, i + 1)
    }
}

/// `m` with `k` mapped to `v`: the pair of an existing key `k` gets the new
/// value, otherwise the pair is added at the end.
pub open spec fn record(m: Seq<(Seq<char>, Seq<char>)>, k: Seq<char>, v: Seq<char>) -> Seq<
    (Seq<char>, Seq<char>),
> {
    match key_index(m, k, 0) {
        Some(i) => m.update(i, (k, v)),
        None => m.push((k, v)),
    }
}

/// `m` after recording each pair of `pairs` in order.
pub open spec fn record_all(
    m: Seq<(Seq<char>, Seq<char>)>,
    pairs: Seq<(Seq<char>, Seq<char>)>,
) -> Seq<(Seq<char>, Seq<char>)>
    decreases pairs.len(),
{
    if pairs.len() == 0 {
        m
    } else {
        let p = pairs.last();
        record(record_all(m, pairs.drop_last()), p.0, p.1)
    }
}

proof fn lemma_key_index_bounds(m: Seq<(Seq<char>, Seq<char>)>, k: Seq<char>, i: int)
    ensures
        match key_index(m, k, i) {
            Some(j) => i <= j < m.len() && m[j].0 == k,
            None => true,
        },
    decreases m.len() - i,
{
    if 0 <= i < m.len() && m[i].0 != k {
        lemma_key_index_bounds(m, k, i + 1);
    }
}

fn record_exec(m: &mut Vec<(String, String)>, k: String, v: String)
    ensures
        renames_model(final(m)@) == record(renames_model(old(m)@), k@, v@),
{
    let ghost m0 = renames_model(m@);
    let mut i: usize = 0;
    while i < m.len()
        invariant
            i <= m@.len(),
            m0 == renames_model(m@),
            m@ == old(m)@,
            key_index(m0, k@, 0) == key_index(m0, k@, i as int),
        decreases m.len() - i,
    {
        if m[i].0 == k {
            proof {
                lemma_key_index_bounds(m0, k@, 0);
            }
            m.set(i, (k, v));
            assert(renames_model(m@) =~= m0.update(i as int, (k@, v@)));
            return;
        }
        i = i + 1;
    }
    m.push((k, v));
    assert(renames_model(m@) =~= m0.push((k@, v@)));
}

/// The asset files of a rendered book, and the names that hashing gave them.
#[derive(Debug, Clone, PartialEq)]
pub struct StaticFiles {
    static_files: Vec<StaticFile>,
    hash_map: Vec<(String, String)>,
}

pub open spec fn renames_model(v: Seq<(String, String)>) -> Seq<(Seq<char>, Seq<char>)> {
    v.map_values(|p: (String, String)| (p.0@, p.1@))
}

impl StaticFiles {
    pub closed spec fn files(&self) -> Seq<StaticFileModel> {
        self.static_files@.map_values(|f: StaticFile| f@)
    }

    /// The renamings made so far: former name, then hashed name, one pair
    /// per former name.
    pub closed spec fn renames(&self) -> Seq<(Seq<char>, Seq<char>)> {
        renames_model(self.hash_map@)
    }

    pub fn new() -> (r: StaticFiles)
        ensures
            r.files() == Seq::<StaticFileModel>::empty(),
            r.renames() == Seq::<(Seq<char>, Seq<char>)>::empty(),
    {
        let r = StaticFiles { static_files: Vec::new(), hash_map: Vec::new() };
        assert(r.files() =~= Seq::<StaticFileModel>::empty());
        assert(r.renames() =~= Seq::<(Seq<char>, Seq<char>)>::empty());
        r
    }

    /// Adds a file whose content is `data`.
    pub fn add_builtin(&mut self, filename: &str, data: &[u8])
        ensures
            final(self).files() == old(self).files().push(
                StaticFileModel::Builtin { data: data@, filename: filename@ },
            ),
            final(self).renames() == old(self).renames(),
    {
        let f = StaticFile::Builtin { data: slice_to_vec(data), filename: String::from_str(filename) };
        self.static_files.push(f);
        assert(self.files() =~= old(self).files().push(
            StaticFileModel::Builtin { data: data@, filename: filename@ },
        ));
    }

    /// Adds a file whose content is read from `input_location`.
    pub fn add_additional(&mut self, input_location: &str, filename: &str)
        ensures
            final(self).files() == old(self).files().push(
                StaticFileModel::Additional {
                    input_location: input_location@,
                    filename: filename@,
                },
            ),
            final(self).renames() == old(self).renames(),
    {
        let f = StaticFile::Additional {
            input_location: String::from_str(input_location),
            filename: String::from_str(filename),
        };
        self.static_files.push(f);
        assert(self.files() =~= old(self).files().push(
            StaticFileModel::Additional { input_location: input_location@, filename: filename@ },
        ));
    }

    pub fn files_list(&self) -> (r: &Vec<StaticFile>)
        ensures
            r@.map_values(|f: StaticFile| f@) == self.files(),
    {
        &self.static_files
    }

    pub fn hash_map(&self) -> (r: &Vec<(String, String)>)
        ensures
            renames_model(r@) == self.renames(),
    {
        &self.hash_map
    }

    /// Gives each file whose name takes a hash the name `stem-tag.suffix`,
    /// where the tag is the start of its content's SHA-256 digest, and records
    /// the renaming (a former name recorded again gets the latest hashed name). `contents[i]` is the content of file `i` when that is an
    /// additional file.
    pub fn hash_files(&mut self, contents: &Vec<Option<Vec<u8>>>) -> (r: Result<(), StaticFileError>)
        ensures
            match hash_prefix(old(self).files(), contents@, old(self).files().len()) {
                Ok((fs, m)) => r is Ok && final(self).files() == fs && final(self).renames()
                    == record_all(old(self).renames(), m),
                Err(name) => r matches Err(StaticFileError::Unreadable { filename }) && filename@
                    == name,
            },
    {
        let ghost files0 = self.files();
        let ghost renames0 = self.renames();
        let n = self.static_files.len();
        let mut i: usize = 0;
        while i < n
            invariant
                i <= n == files0.len(),
                files0 == old(self).files(),
                renames0 == old(self).renames(),
                self.static_files@.len() == n,
                hash_prefix(files0, contents@, i as nat) is Ok,
                self.files() == hash_prefix(files0, contents@, i as nat)->Ok_0.0,
                self.renames() == record_all(renames0, hash_prefix(files0, contents@, i as nat)->Ok_0.1),
                forall|k: int| i <= k < n ==> #[trigger] self.files()[k] == files0[k],
            decreases n - i,
        {
            proof {
                lemma_hash_prefix_len(files0, contents@, i as nat);
            }
            assert(self.files()[i as int] == self.static_files@[i as int]@);
            assert(files0[i as int] == self.static_files@[i as int]@);
            let fresh: Option<String> = match &self.static_files[i] {
                StaticFile::Builtin { data, filename } => {
                    if hash_applies(filename, true) {
                        let tag = short_digest(data);
                        Some(tag_name(filename, &tag))
                    } else {
                        None
                    }
                },
                StaticFile::Additional { filename, .. } => {
                    if hash_applies(filename, false) {
                        let c = if i < contents.len() {
                            &contents[i]
                        } else {
                            &None
                        };
                        match c {
                            Some(bytes) => {
                                let tag = short_digest(bytes);
                                Some(tag_name(filename, &tag))
                            },
                            None => {
                                let ghost e = filename@;
                                assert(content_at(contents@, i as int) is None);
                                assert(hash_prefix(files0, contents@, i as nat + 1) == Err::<
                                    (Seq<StaticFileModel>, Seq<(Seq<char>, Seq<char>)>),
                                    Seq<char>,
                                >(e));
                                proof {
                                    lemma_hash_error(files0, contents@, i as nat + 1, n as nat, e);
                                }
                                return Err(StaticFileError::Unreadable { filename: filename.clone() });
                            },
                        }
                    } else {
                        None
                    }
                },
            };
            if let Some(new_name) = fresh {
                let (updated, old_name) = match &self.static_files[i] {
                    StaticFile::Builtin { data, filename } => {
                        let d = data.clone();
                        assert(d@ == data@);
                        (StaticFile::Builtin { data: d, filename: new_name.clone() }, filename.clone())
                    },
                    StaticFile::Additional { input_location, filename } => (
                        StaticFile::Additional {
                            input_location: input_location.clone(),
                            filename: new_name.clone(),
                        },
                        filename.clone(),
                    ),
                };
                let ghost ev = hash_prefix(files0, contents@, i as nat)->Ok_0.1;
                let ghost ev1 = ev.push((old_name@, new_name@));
                self.static_files.set(i, updated);
                record_exec(&mut self.hash_map, old_name, new_name);
                assert(ev1.drop_last() =~= ev);
                assert(self.renames() == record_all(renames0, ev1));
                assert(self.files() =~= hash_prefix(files0, contents@, i as nat + 1)->Ok_0.0);
            }
            i = i + 1;
        }
        Ok(())
    }
}

/// The renamings made by hashing, for rewriting references to assets.
#[derive(Debug, Clone, PartialEq)]
pub struct ResourceHelper {
    pub hash_map: Vec<(String, String)>,
}

} // verus!
