//! The on-disk cache of stable analyses: file naming, the validity of a
//! stored envelope, and which files to prune.
use vstd::prelude::*;
use sha2::{Digest, Sha256};
use crate::document::PIPELINE_ARTIFACT_VERSION;
use crate::sort::{Ranked, sort_stable, stable_sort};
use crate::text::{push_char, str_eq, chars_of};
use crate::token::AnnotatedToken;
use vstd::string::StringSliceAdditionalSpecFns;

verus! {

pub const CACHE_SCHEMA_VERSION: u32 = 2;

pub const MAX_CACHE_ENTRIES: usize = 16;

#[derive(Debug, Clone, Copy, PartialEq, Eq, Structural)]
pub enum CacheLoadPhase {
    Reading,
    Decoding,
    Validating,
}

#[derive(Debug, Clone, Copy, PartialEq, Eq, Structural)]
pub struct CacheLoadProgress {
    pub phase: CacheLoadPhase,
    pub completed: usize,
    pub total: usize,
}

/// A cache file's content.
#[derive(Debug)]
pub struct CacheEnvelope {
    pub schema_version: u32,
    pub pipeline_artifact_version: u32,
    pub pipeline_fingerprint: String,
    pub source_hash: String,
    pub tokens: Vec<AnnotatedToken>,
}

/// What the cache directory holds for a source.
#[derive(Debug)]
pub enum StoredPayload {
    Missing,
    Undecodable,
    Decoded(CacheEnvelope),
}

/// The cached tokens, if usable, and whether the file is to be removed.
#[derive(Debug)]
pub struct LoadDecision {
    pub tokens: Option<Vec<AnnotatedToken>>,
    pub remove_file: bool,
}

/// The SHA-256 digest of the bytes.
pub uninterp spec fn sha256(data: Seq<u8>) -> Seq<u8>;

/// `Sha256::digest` of sha2: the digest of the bytes, 32 bytes long.
#[verifier::external_body]
fn sha256_digest(data: &[u8]) -> (r: Vec<u8>)
    ensures
        r@ == sha256(data@),
        r@.len() == 32,
{
    Sha256::digest(data).to_vec()
}

pub open spec fn hex_digit(d: u8) -> char {
    if d < 10 { ((d + 48) as u8) as char } else { ((d + 87) as u8) as char }
}

/// Lower-case hexadecimal, two digits per byte.
pub open spec fn lower_hex(data: Seq<u8>) -> Seq<char>
    decreases data.len(),
{
    if data.len() == 0 {
        seq![]
    } else {
        lower_hex(data.drop_last()) + seq![hex_digit(data.last() / 16), hex_digit(data.last() % 16)]
    }
}

fn hex_digit_exec(d: u8) -> (c: char)
    requires
        d < 16,
    ensures
        c == hex_digit(d),
{
    let chars: [char; 16] = ['0', '1', '2', '3', '4', '5', '6', '7', '8', '9', 'a', 'b', 'c', 'd', 'e', 'f'];
    let c = chars[d as usize];
    assert(c == hex_digit(d)) by {
        assert(d < 16);
        if d == 0 {} else if d == 1 {} else if d == 2 {} else if d == 3 {} else if d == 4 {} else if d == 5 {} else if d == 6 {} else if d == 7 {}
        else if d == 8 {} else if d == 9 {} else if d == 10 {} else if d == 11 {} else if d == 12 {} else if d == 13 {} else if d == 14 {} else {}
    }
    c
}

pub fn to_lower_hex(data: &[u8]) -> (r: String)
    ensures
        r@ == lower_hex(data@),
{
    let mut r = String::new();
    for i in 0..data.len()
        invariant
            r@ == lower_hex(data@.take(i as int)),
    {
        let b = data[i];
        push_char(&mut r, hex_digit_exec(b / 16));
        push_char(&mut r, hex_digit_exec(b % 16));
        assert(data@.take(i + 1).drop_last() == data@.take(i as int));
    }
    assert(data@.take(data.len() as int) == data@);
    r
}

/// The key of a source in the cache: the lower-case hex SHA-256 of its UTF-8 bytes.
pub fn source_hash(source: &str) -> (r: String)
    ensures
        r@ == lower_hex(sha256(source.spec_bytes())),
{
    let digest = sha256_digest(source.as_bytes());
    to_lower_hex(&digest)
}

/// The directory joined with a file name, with one `/` between them.
pub open spec fn join_path(directory: Seq<char>, name: Seq<char>) -> Seq<char> {
    if directory.len() == 0 || directory.last() == '/' { directory + name } else { directory + seq!['/'] + name }
}

/// The final component of a path, trailing separators ignored.
pub open spec fn file_name(path: Seq<char>) -> Seq<char>
    decreases path.len(),
{
    if path.len() > 0 && path.last() == '/' {
        file_name(path.drop_last())
    } else {
        last_component(path, path.len() as int)
    }
}

/// The characters after the last `/` among the first `n`.
pub open spec fn last_component(path: Seq<char>, n: int) -> Seq<char>
    decreases n,
{
    if n <= 0 {
        path
    } else if path[n - 1] == '/' {
        path.subrange(n, path.len() as int)
    } else {
        last_component(path, n - 1)
    }
}

/// The last index of `c` in `s`, or -1.
pub open spec fn last_index(s: Seq<char>, c: char, n: int) -> int
    decreases n,
{
    if n <= 0 {
        -1
    } else if s[n - 1] == c {
        n - 1
    } else {
        last_index(s, c, n - 1)
    }
}

/// The extension of a file name: what follows its last `.`, unless that dot opens the name.
pub open spec fn extension(name: Seq<char>) -> Option<Seq<char>> {
    let p = last_index(name, '.', name.len() as int);
    if p <= 0 { None } else { Some(name.subrange(p + 1, name.len() as int)) }
}

/// A file the cache owns: one ending in `.bin` or `.json`.
pub open spec fn spec_is_cache_file(path: Seq<char>) -> bool {
    extension(file_name(path)) == Some(seq!['b', 'i', 'n']) || extension(file_name(path)) == Some(seq!['j', 's', 'o', 'n'])
}

proof fn lemma_last_index_bounds(s: Seq<char>, c: char, n: int)
    requires
        0 <= n <= s.len(),
    ensures
        -1 <= last_index(s, c, n) < n,
        last_index(s, c, n) >= 0 ==> s[last_index(s, c, n)] == c,
    decreases n,
{
    if n > 0 {
        lemma_last_index_bounds(s, c, n - 1);
    }
}

proof fn lemma_last_component(path: Seq<char>, n: int)
    requires
        0 <= n <= path.len(),
    ensures
        last_component(path, n) == path.subrange(last_index(path, '/', n) + 1, path.len() as int),
    decreases n,
{
    if n > 0 && path[n - 1] != '/' {
        lemma_last_component(path, n - 1);
    }
}

fn file_name_exec(path: &Vec<char>) -> (r: Vec<char>)
    ensures
        r@ == file_name(path@),
{
    let mut end = path.len();
    assert(path@.take(end as int) == path@);
    while end > 0 && path[end - 1] == '/'
        invariant
            end <= path@.len(),
            file_name(path@) == file_name(path@.take(end as int)),
        decreases end,
    {
        assert(path@.take(end as int).drop_last() == path@.take(end - 1));
        end -= 1;
    }
    let ghost t = path@.take(end as int);
    let mut start = end;
    while start > 0 && path[start - 1] != '/'
        invariant
            start <= end <= path@.len(),
            t == path@.take(end as int),
            last_index(t, '/', end as int) == last_index(t, '/', start as int),
        decreases start,
    {
        assert(t[start - 1] == path@[start - 1]);
        start -= 1;
    }
    proof {
        if start > 0 {
            assert(t[start - 1] == '/');
        }
        lemma_last_component(t, t.len() as int);
        if end > 0 {
            assert(t.last() != '/') by { assert(t.last() == path@[end - 1]); }
        }
    }
    let mut r: Vec<char> = Vec::new();
    let mut k = start;
    while k < end
        invariant
            start <= k <= end <= path@.len(),
            r@ == path@.subrange(start as int, k as int),
        decreases end - k,
    {
        r.push(path[k]);
        assert(path@.subrange(start as int, k + 1) == path@.subrange(start as int, k as int).push(path@[k as int]));
        k += 1;
    }
    assert(r@ =~= t.subrange(start as int, t.len() as int));
    r
}

fn extension_exec(name: &Vec<char>) -> (r: Option<Vec<char>>)
    ensures
        r is None <==> extension(name@) is None,
        r matches Some(v) ==> extension(name@) == Some(v@),
{
    let n = name.len();
    let mut p = n;
    while p > 0 && name[p - 1] != '.'
        invariant
            p <= n == name@.len(),
            last_index(name@, '.', n as int) == last_index(name@, '.', p as int),
        decreases p,
    {
        p -= 1;
    }
    if p <= 1 {
        proof {
            if p == 1 { assert(name@[0] == '.'); }
        }
        return None;
    }
    assert(name@[p - 1] == '.');
    let mut r: Vec<char> = Vec::new();
    let mut k = p;
    while k < n
        invariant
            p <= k <= n == name@.len(),
            r@ == name@.subrange(p as int, k as int),
        decreases n - k,
    {
        r.push(name[k]);
        assert(name@.subrange(p as int, k + 1) == name@.subrange(p as int, k as int).push(name@[k as int]));
        k += 1;
    }
    Some(r)
}

pub fn is_cache_file(path: &str) -> (b: bool)
    ensures
        b == spec_is_cache_file(path@),
{
    let chars = chars_of(path);
    let name = file_name_exec(&chars);
    match extension_exec(&name) {
        None => false,
        Some(ext) => {
            let bin: Vec<char> = vec!['b', 'i', 'n'];
            let json: Vec<char> = vec!['j', 's', 'o', 'n'];
            let is_bin = crate::dictionary::lookup_state::chars_equal_pub(&ext, &bin);
            let is_json = crate::dictionary::lookup_state::chars_equal_pub(&ext, &json);
            assert(bin@ =~= seq!['b', 'i', 'n']);
            assert(json@ =~= seq!['j', 's', 'o', 'n']);
            is_bin || is_json
        },
    }
}

/// The cache of one pipeline: a directory and the fingerprint of the
/// resources and dictionaries the analyses depend on.
#[derive(Debug, Clone)]
pub struct AnalysisCache {
    directory: String,
    pipeline_fingerprint: String,
}

impl AnalysisCache {
    pub closed spec fn directory_path(&self) -> Seq<char> {
        self.directory@
    }

    pub closed spec fn fingerprint(&self) -> Seq<char> {
        self.pipeline_fingerprint@
    }

    pub fn from_parts(directory: String, pipeline_fingerprint: String) -> (r: Self)
        ensures
            r.directory_path() == directory@,
            r.fingerprint() == pipeline_fingerprint@,
    {
        AnalysisCache { directory, pipeline_fingerprint }
    }

    pub fn directory(&self) -> (r: &str)
        ensures
            r@ == self.directory_path(),
    {
        self.directory.as_str()
    }

    pub fn pipeline_fingerprint(&self) -> (r: &str)
        ensures
            r@ == self.fingerprint(),
    {
        self.pipeline_fingerprint.as_str()
    }

    /// `{directory}/{source_hash}.bin`.
    pub fn path_for_hash(&self, source_hash: &str) -> (r: String)
        ensures
            r@ == join_path(self.directory_path(), source_hash@ + seq!['.', 'b', 'i', 'n']),
    {
        let mut r = self.directory.clone();
        let dir = chars_of(self.directory.as_str());
        if dir.len() > 0 && dir[dir.len() - 1] != '/' {
            push_char(&mut r, '/');
        }
        r.append(source_hash);
        push_char(&mut r, '.');
        push_char(&mut r, 'b');
        push_char(&mut r, 'i');
        push_char(&mut r, 'n');
        assert(r@ =~= join_path(self.directory_path(), source_hash@ + seq!['.', 'b', 'i', 'n']));
        r
    }

    /// An envelope is current when it was written by this schema, this
    /// pipeline artifact version and this pipeline, for this source.
    pub closed spec fn current(&self, e: CacheEnvelope, source_hash: Seq<char>) -> bool {
        e.schema_version == CACHE_SCHEMA_VERSION && e.pipeline_artifact_version == PIPELINE_ARTIFACT_VERSION
            && e.pipeline_fingerprint@ == self.pipeline_fingerprint@ && e.source_hash@ == source_hash
    }

    /// The outcome of reading the cache file of a source: a current envelope
    /// gives its tokens; an undecodable or stale file gives nothing and is removed.
    pub fn load(&self, source: &str, stored: StoredPayload) -> (r: LoadDecision)
        ensures
            ({
                let hash = lower_hex(sha256(source.spec_bytes()));
                match stored {
                    StoredPayload::Missing => r.tokens is None && !r.remove_file,
                    StoredPayload::Undecodable => r.tokens is None && r.remove_file,
                    StoredPayload::Decoded(e) => if self.current(e, hash) {
                        r.tokens == Some(e.tokens) && !r.remove_file
                    } else {
                        r.tokens is None && r.remove_file
                    },
                }
            }),
    {
        match stored {
            StoredPayload::Missing => LoadDecision { tokens: None, remove_file: false },
            StoredPayload::Undecodable => LoadDecision { tokens: None, remove_file: true },
            StoredPayload::Decoded(envelope) => {
                let hash = source_hash(source);
                if envelope.schema_version != CACHE_SCHEMA_VERSION
                    || envelope.pipeline_artifact_version != PIPELINE_ARTIFACT_VERSION
                    || !str_eq(envelope.pipeline_fingerprint.as_str(), self.pipeline_fingerprint.as_str())
                    || !str_eq(envelope.source_hash.as_str(), hash.as_str()) {
                    LoadDecision { tokens: None, remove_file: true }
                } else {
                    LoadDecision { tokens: Some(envelope.tokens), remove_file: false }
                }
            },
        }
    }

    /// The envelope under which tokens of a source are stored.
    pub fn envelope(&self, source: &str, tokens: Vec<AnnotatedToken>) -> (e: CacheEnvelope)
        ensures
            self.current(e, lower_hex(sha256(source.spec_bytes()))),
            e.tokens == tokens,
    {
        CacheEnvelope {
            schema_version: CACHE_SCHEMA_VERSION,
            pipeline_artifact_version: PIPELINE_ARTIFACT_VERSION,
            pipeline_fingerprint: self.pipeline_fingerprint.clone(),
            source_hash: source_hash(source),
            tokens,
        }
    }
}

/// A cache file and when it was last modified.
#[derive(Debug, Clone, Copy, PartialEq, Eq)]
pub struct CacheFileStamp {
    pub modified: u64,
    pub index: usize,
}

impl Ranked for CacheFileStamp {
    open spec fn rank(&self) -> (int, int) {
        (self.modified as int, 0)
    }

    fn rank_of(&self) -> (r: (i128, i128)) {
        (self.modified as i128, 0)
    }
}

/// The cache files to remove so that at most 16 remain: the oldest ones,
/// ties in listing order.
pub fn files_to_prune(stamps: Vec<CacheFileStamp>) -> (r: Vec<usize>)
    ensures
        r@.len() == (if stamps@.len() > MAX_CACHE_ENTRIES { stamps@.len() - MAX_CACHE_ENTRIES } else { 0 }),
        forall|k: int| 0 <= k < r@.len() ==> #[trigger] r@[k] == stable_sort(stamps@)[k].index,
{
    let total = stamps.len();
    let remove_count = if total > MAX_CACHE_ENTRIES { total - MAX_CACHE_ENTRIES } else { 0 };
    let ghost original = stamps@;
    let sorted = sort_stable(stamps);
    proof {
        crate::sort::lemma_sort_props(original, |t: CacheFileStamp| t.rank());
    }
    let mut r: Vec<usize> = Vec::new();
    for k in 0..remove_count
        invariant
            remove_count <= sorted@.len(),
            sorted@ == stable_sort(original),
            r@.len() == k,
            forall|m: int| 0 <= m < k ==> #[trigger] r@[m] == sorted@[m].index,
    {
        r.push(sorted[k].index);
    }
    r
}

} // verus!
