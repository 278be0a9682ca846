use vstd::prelude::*;

use crate::find_references::FileResult;
use crate::text::string_of;
use std::hash::{Hash, Hasher};

verus! {

/// The version of the cache's record format; records of any other version are stale.
pub const CACHE_VERSION: u32 = 2;

/// What identifies the content of a source file: its modification time, to the
/// nanosecond, and its length in bytes.
#[derive(Clone, Copy, Debug, PartialEq, Eq, Structural)]
pub struct CacheStamp {
    pub mtime_secs: u64,
    pub mtime_nanos: u32,
    pub size: u64,
}

/// A stored extraction result with the version and stamp it was stored under.
#[derive(Debug)]
pub struct CachedFileResult {
    pub version: u32,
    pub stamp: CacheStamp,
    pub result: FileResult,
}

/// A record may be used: it has the current version and exactly the file's current stamp.
pub open spec fn spec_is_fresh(version: u32, stored: CacheStamp, current: CacheStamp) -> bool {
    version == CACHE_VERSION && stored.mtime_secs == current.mtime_secs && stored.mtime_nanos
        == current.mtime_nanos && stored.size == current.size
}

/// Whether a record stored under `version` and `stored` may stand for a file whose stamp is
/// now `current`.
pub fn is_fresh(version: u32, stored: CacheStamp, current: CacheStamp) -> (r: bool)
    ensures
        r == spec_is_fresh(version, stored, current),
{
    version == CACHE_VERSION && stored.mtime_secs == current.mtime_secs && stored.mtime_nanos
        == current.mtime_nanos && stored.size == current.size
}

/// The cached result, when the record is fresh for the file's current stamp.
pub fn cached_result(record: CachedFileResult, current: CacheStamp) -> (r: Option<FileResult>)
    ensures
        r is Some <==> spec_is_fresh(record.version, record.stamp, current),
        r matches Some(f) ==> f == record.result,
{
    if is_fresh(record.version, record.stamp, current) {
        Some(record.result)
    } else {
        None
    }
}

/// A record stored for a file stays usable while the file keeps its stamp, and any change of
/// its modification time or length makes it unusable.
pub proof fn lemma_cache_follows_file(stored: CacheStamp, current: CacheStamp)
    ensures
        spec_is_fresh(CACHE_VERSION, stored, stored),
        stored != current ==> !spec_is_fresh(CACHE_VERSION, stored, current),
        forall|v: u32| v != CACHE_VERSION ==> !spec_is_fresh(v, stored, current),
{
}

/// The lower-case hexadecimal digit of `n`, below 16.
pub open spec fn hex_char(n: u64) -> char {
    seq!['0', '1', '2', '3', '4', '5', '6', '7', '8', '9', 'a', 'b', 'c', 'd', 'e', 'f'][n as int]
}

/// The nibble of `h` at position `i`, counting from the most significant.
pub open spec fn nibble(h: u64, i: int) -> u64 {
    (h >> ((60 - 4 * i) as u64)) & 15u64
}

/// `h` as sixteen lower-case hexadecimal digits, zero padded.
pub open spec fn hex16_text(h: u64) -> Seq<char> {
    Seq::new(16, |i: int| hex_char(nibble(h, i)))
}

/// Formats `h` as sixteen lower-case hexadecimal digits.
pub fn hex16(h: u64) -> (r: String)
    ensures
        r@ == hex16_text(h),
{
    let digits: [char; 16] = ['0', '1', '2', '3', '4', '5', '6', '7', '8', '9', 'a', 'b', 'c', 'd', 'e', 'f'];
    let mut out: Vec<char> = Vec::new();
    let mut i: usize = 0;
    while i < 16
        invariant
            i <= 16,
            digits@ == seq!['0', '1', '2', '3', '4', '5', '6', '7', '8', '9', 'a', 'b', 'c', 'd', 'e', 'f'],
            out@.len() == i,
            forall|k: int| 0 <= k < i ==> out@[k] == hex_char(nibble(h, k)),
        decreases 16 - i,
    {
        let shift: u64 = (60 - 4 * i) as u64;
        let n = (h >> shift) & 15u64;
        assert(n < 16) by (bit_vector)
            requires
                n == (h >> shift) & 15u64,
        ;
        out.push(digits[n as usize]);
        i = i + 1;
    }
    proof {
        assert(out@ =~= hex16_text(h));
    }
    string_of(out.as_slice())
}

/// Relies on `rustc_hash::FxHasher` over `std::path::Path`'s `Hash`: a 64-bit hash of the path.
/// Its value depends on the machine's word size, so nothing is claimed of it.
#[verifier::external_body]
fn path_hash(path: &str) -> u64 {
    let mut hasher = rustc_hash::FxHasher::default();
    std::path::Path::new(path).hash(&mut hasher);
    hasher.finish()
}

/// `dir`, a slash, then `name`.
pub open spec fn joined(dir: Seq<char>, name: Seq<char>) -> Seq<char> {
    dir + seq!['/'] + name
}

fn join(dir: &str, name: &str) -> (r: String)
    ensures
        r@ == joined(dir@, name@),
{
    let mut s = String::from_str(dir);
    s.append("/");
    proof {
        reveal_strlit("/");
    }
    s.append(name);
    s
}

/// The record file for a source whose path hashes to `hash`, under `cache_dir`.
pub fn cache_file_name(cache_dir: &str, hash: u64) -> (r: String)
    ensures
        r@ == joined(cache_dir@, hex16_text(hash) + ".bin"@),
{
    let mut name = hex16(hash);
    name.append(".bin");
    join(cache_dir, name.as_str())
}

/// Where the records of one repository are kept.
#[derive(Debug)]
pub struct FileCache {
    pub cache_dir: String,
}

impl FileCache {
    /// The cache of the repository at `repo_root`, in a directory under `cache_base` named by
    /// the hash of the root.
    pub fn new(cache_base: &str, repo_root: &str) -> (r: FileCache)
        ensures
            exists|h: u64| r.cache_dir@ == joined(cache_base@, hex16_text(h)),
    {
        let h = path_hash(repo_root);
        FileCache { cache_dir: join(cache_base, hex16(h).as_str()) }
    }

    /// The record file of the source at `source_path`.
    pub fn cache_path(&self, source_path: &str) -> (r: String)
        ensures
            exists|h: u64| r@ == joined(self.cache_dir@, hex16_text(h) + ".bin"@),
    {
        cache_file_name(self.cache_dir.as_str(), path_hash(source_path))
    }
}

} // verus!
