//! Settings and records of the commit-statistics cache, and the keys under
//! which cached results are filed.
use vstd::prelude::*;

use crate::locations::{join_path, path_join, system_temp_dir, user_cache_dir};
use crate::text::string_from_chars;
use vstd::string::StringSliceAdditionalSpecFns;

verus! {

/// Cache settings.
#[derive(Debug, Clone)]
pub struct CacheConfig {
    pub enabled: bool,
    pub cache_dir: String,
    /// Largest size of the cache, in MB.
    pub max_size_mb: u64,
}

/// The statistics of one commit as the cache keeps them.
#[derive(Debug, Clone)]
pub struct CachedCommitStats {
    pub oid: String,
    pub timestamp: u64,
    pub additions: usize,
    pub deletions: usize,
    pub files_changed: usize,
}

/// How full the cache is.
#[derive(Debug, Clone, Copy, PartialEq, Eq, Structural)]
pub struct CacheStats {
    pub memory_entries: usize,
    pub disk_entries: usize,
    pub disk_size_bytes: u64,
    pub enabled: bool,
}

/// The cache directory under a base directory: `<base>/crabgit/commit_stats`.
pub open spec fn cache_dir_under(base: Seq<char>) -> Seq<char> {
    path_join(path_join(base, "crabgit"@), "commit_stats"@)
}

/// The base of the cache directory: the user's cache directory where the
/// platform has one, else the temporary directory.
pub open spec fn cache_base(cache: Option<Seq<char>>, temp: Seq<char>) -> Seq<char> {
    match cache {
        Some(d) => d,
        None => temp,
    }
}

pub open spec fn opt_view(o: Option<String>) -> Option<Seq<char>> {
    match o {
        Some(s) => Some(s@),
        None => None,
    }
}

/// The cache directory for the given readings of the user's cache
/// directory and of the temporary directory.
pub fn cache_dir_from(cache: Option<String>, temp: String) -> (r: String)
    ensures
        r@ == cache_dir_under(cache_base(opt_view(cache), temp@)),
{
    let base = match cache {
        Some(d) => d,
        None => temp,
    };
    let app = join_path(base.as_str(), "crabgit");
    join_path(app.as_str(), "commit_stats")
}

/// The default cache directory: `crabgit/commit_stats` under the user's
/// cache directory, or under the system's temporary directory where the
/// platform has no cache directory.
pub fn get_default_cache_dir() -> (r: String)
    ensures
        exists|cache: Option<Seq<char>>, temp: Seq<char>|
            r@ == cache_dir_under(#[trigger] cache_base(cache, temp)),
{
    let cache = user_cache_dir();
    let temp = system_temp_dir();
    let ghost c = opt_view(cache);
    let ghost t = temp@;
    let r = cache_dir_from(cache, temp);
    assert(r@ == cache_dir_under(cache_base(c, t)));
    r
}

impl Default for CacheConfig {
    fn default() -> (r: Self)
        ensures
            r.enabled,
            r.max_size_mb == 100,
            exists|cache: Option<Seq<char>>, temp: Seq<char>|
                r.cache_dir@ == cache_dir_under(#[trigger] cache_base(cache, temp)),
    {
        CacheConfig { enabled: true, cache_dir: get_default_cache_dir(), max_size_mb: 100 }
    }
}

// ---------------------------------------------------------------------------
// Cache keys
// ---------------------------------------------------------------------------

/// The SHA-256 digest of `data`, named rather than written out.
pub uninterp spec fn spec_sha256(data: Seq<u8>) -> Seq<u8>;

/// `sha2::Sha256::digest`. Trusted: the result is the digest of `data`,
/// named `spec_sha256`, and is 32 bytes long. (Feeding the hasher two pieces
/// in turn, as `update` allows, digests their concatenation.)
#[verifier::external_body]
fn sha256_digest(data: &[u8]) -> (r: Vec<u8>)
    ensures
        r@ == spec_sha256(data@),
        r@.len() == 32,
{
    <sha2::Sha256 as sha2::Digest>::digest(data).to_vec()
}

/// The `n` low bytes of `x`, least significant first.
pub open spec fn le_bytes(x: nat, n: nat) -> Seq<u8>
    decreases n,
{
    if n == 0 {
        Seq::empty()
    } else {
        seq![(x % 256) as u8] + le_bytes(x / 256, (n - 1) as nat)
    }
}

/// The lowercase hexadecimal digit of `d` (below 16).
pub open spec fn hex_digit(d: int) -> char {
    if d < 10 {
        (48 + d) as char
    } else {
        (87 + d) as char
    }
}

/// Two lowercase hexadecimal digits per byte, most significant first, as
/// the `{:x}` format of a digest writes them.
pub open spec fn lower_hex(b: Seq<u8>) -> Seq<char>
    decreases b.len(),
{
    if b.len() == 0 {
        Seq::empty()
    } else {
        lower_hex(b.drop_last()) + seq![hex_digit(b.last() as int / 16), hex_digit(b.last() as int % 16)]
    }
}

/// The number that bytes stand for read least significant first.
pub open spec fn le_value(b: Seq<u8>) -> nat
    decreases b.len(),
{
    if b.len() == 0 {
        0
    } else {
        b[0] as nat + 256 * le_value(b.drop_first())
    }
}

/// `256` to the power `n`.
pub open spec fn pow256(n: nat) -> nat
    decreases n,
{
    if n == 0 {
        1
    } else {
        256 * pow256((n - 1) as nat)
    }
}

/// The number a hexadecimal digit stands for.
pub open spec fn hex_value(c: char) -> int {
    if '0' <= c <= '9' {
        c as int - 48
    } else {
        c as int - 87
    }
}

/// The little-endian bytes of a number: `n` bytes that, read least
/// significant first, give back the number modulo `256^n`.
pub proof fn lemma_le_bytes_value(x: nat, n: nat)
    ensures
        le_bytes(x, n).len() == n,
        le_value(le_bytes(x, n)) == x % pow256(n),
    decreases n,
{
    if n > 0 {
        lemma_le_bytes_value(x / 256, (n - 1) as nat);
        let b = le_bytes(x, n);
        assert(b.drop_first() =~= le_bytes(x / 256, (n - 1) as nat));
        assert(pow256((n - 1) as nat) > 0) by {
            lemma_pow256_positive((n - 1) as nat);
        }
        vstd::arithmetic::div_mod::lemma_breakdown(x as int, 256, pow256((n - 1) as nat) as int);
        assert(b[0] == (x % 256) as u8);
    }
}

proof fn lemma_pow256_positive(n: nat)
    ensures
        pow256(n) > 0,
    decreases n,
{
    if n > 0 {
        lemma_pow256_positive((n - 1) as nat);
    }
}

/// The digits at `2 * i` and `2 * i + 1` of `h` are lowercase hexadecimal
/// digits standing for `v`, high four bits first.
pub open spec fn hex_pair(h: Seq<char>, i: int, v: u8) -> bool {
    &&& ('0' <= h[2 * i] <= '9' || 'a' <= h[2 * i] <= 'f')
    &&& ('0' <= h[2 * i + 1] <= '9' || 'a' <= h[2 * i + 1] <= 'f')
    &&& hex_value(h[2 * i]) * 16 + hex_value(h[2 * i + 1]) == v
}

/// Lowercase hexadecimal: two digits per byte, `0`-`9` then `a`-`f`, the
/// first standing for the byte's high four bits and the second for its low
/// four.
pub proof fn lemma_lower_hex_digits(b: Seq<u8>)
    ensures
        lower_hex(b).len() == 2 * b.len(),
        forall|i: int|
            #![trigger b[i]]
            0 <= i < b.len() ==> hex_pair(lower_hex(b), i, b[i]),
    decreases b.len(),
{
    if b.len() > 0 {
        let t = b.drop_last();
        lemma_lower_hex_digits(t);
        let h = lower_hex(b);
        assert forall|i: int|
            #![trigger b[i]]
            0 <= i < b.len() implies hex_pair(h, i, b[i]) by {
            if i < t.len() {
                assert(t[i] == b[i]);
                assert(h[2 * i] == lower_hex(t)[2 * i]);
                assert(h[2 * i + 1] == lower_hex(t)[2 * i + 1]);
            } else {
                let v = b.last() as int;
                assert(h[2 * i] == hex_digit(v / 16));
                assert(h[2 * i + 1] == hex_digit(v % 16));
                assert(0 <= v / 16 < 16 && 0 <= v % 16 < 16);
                assert((v / 16) * 16 + v % 16 == v);
            }
        }
    }
}

fn hex_char(d: u8) -> (c: char)
    requires
        d < 16,
    ensures
        c == hex_digit(d as int),
{
    if d < 10 {
        (48 + d) as char
    } else {
        (87 + d) as char
    }
}

fn push_le_bytes(out: &mut Vec<u8>, x: u64)
    ensures
        final(out)@ == old(out)@ + le_bytes(x as nat, 8),
{
    let mut v = x;
    let mut i: usize = 0;
    let ghost start = out@;
    while i < 8
        invariant
            i <= 8,
            out@ == start + le_bytes(x as nat, i as nat).subrange(0, i as int),
            le_bytes(x as nat, 8) == le_bytes(x as nat, i as nat) + le_bytes(v as nat, (8 - i) as nat),
            le_bytes(x as nat, i as nat).len() == i,
        decreases 8 - i,
    {
        let ghost before = out@;
        proof {
            assert(le_bytes(v as nat, (8 - i) as nat) == seq![(v % 256) as u8] + le_bytes(
                (v / 256) as nat,
                (8 - i - 1) as nat,
            ));
            lemma_le_bytes_split(x as nat, i as nat, v as nat);
        }
        out.push((v % 256) as u8);
        v = v / 256;
        i += 1;
        proof {
            assert(le_bytes(x as nat, i as nat).subrange(0, i as int) =~= le_bytes(x as nat, i as nat));
            assert(le_bytes(x as nat, (i - 1) as nat).subrange(0, i - 1) =~= le_bytes(
                x as nat,
                (i - 1) as nat,
            ));
        }
    }
    proof {
        assert(le_bytes(v as nat, 0) =~= Seq::<u8>::empty());
        assert(le_bytes(x as nat, 8) =~= le_bytes(x as nat, 8).subrange(0, 8));
    }
}

/// Splitting the bytes of `x` after `i` of them: the first `i + 1` are the
/// first `i` followed by the low byte of what remains.
proof fn lemma_le_bytes_split(x: nat, i: nat, v: nat)
    requires
        i < 8,
        le_bytes(x, 8) == le_bytes(x, i) + le_bytes(v, (8 - i) as nat),
        le_bytes(x, i).len() == i,
    ensures
        le_bytes(x, i + 1) == le_bytes(x, i) + seq![(v % 256) as u8],
        le_bytes(x, 8) == le_bytes(x, i + 1) + le_bytes(v / 256, (8 - i - 1) as nat),
        le_bytes(x, i + 1).len() == i + 1,
{
    lemma_le_bytes_prefix(x, i, 8);
    lemma_le_bytes_prefix(x, i + 1, 8);
    lemma_le_bytes_len(x, i + 1);
    let all = le_bytes(x, 8);
    let rest = le_bytes(v, (8 - i) as nat);
    assert(rest == seq![(v % 256) as u8] + le_bytes(v / 256, (8 - i - 1) as nat));
    assert(all[i as int] == (v % 256) as u8);
    assert(le_bytes(x, i + 1) =~= le_bytes(x, i) + seq![(v % 256) as u8]);
    assert(all =~= le_bytes(x, i + 1) + le_bytes(v / 256, (8 - i - 1) as nat));
}

proof fn lemma_le_bytes_len(x: nat, n: nat)
    ensures
        le_bytes(x, n).len() == n,
    decreases n,
{
    if n > 0 {
        lemma_le_bytes_len(x / 256, (n - 1) as nat);
    }
}

/// The first `i` of the first `n` bytes are the first `i` bytes.
proof fn lemma_le_bytes_prefix(x: nat, i: nat, n: nat)
    requires
        i <= n,
    ensures
        le_bytes(x, n).subrange(0, i as int) == le_bytes(x, i),
    decreases i,
{
    lemma_le_bytes_len(x, n);
    lemma_le_bytes_len(x, i);
    if i > 0 {
        lemma_le_bytes_prefix(x / 256, (i - 1) as nat, (n - 1) as nat);
        lemma_le_bytes_len(x / 256, (n - 1) as nat);
        assert(le_bytes(x, n).subrange(0, i as int) =~= seq![(x % 256) as u8] + le_bytes(
            x / 256,
            (n - 1) as nat,
        ).subrange(0, i - 1));
    } else {
        assert(le_bytes(x, n).subrange(0, 0) =~= Seq::<u8>::empty());
    }
}

fn hex_string(b: &[u8]) -> (s: String)
    ensures
        s@ == lower_hex(b@),
{
    let mut out: Vec<char> = Vec::new();
    let mut i: usize = 0;
    while i < b.len()
        invariant
            i <= b.len(),
            out@ == lower_hex(b@.subrange(0, i as int)),
        decreases b.len() - i,
    {
        proof {
            let next = b@.subrange(0, i + 1);
            assert(next.drop_last() =~= b@.subrange(0, i as int));
            assert(next.last() == b@[i as int]);
        }
        out.push(hex_char(b[i] / 16));
        out.push(hex_char(b[i] % 16));
        i += 1;
    }
    proof {
        assert(b@.subrange(0, b@.len() as int) =~= b@);
    }
    string_from_chars(out.as_slice())
}

/// The cache key of a repository and a configuration: the lowercase
/// hexadecimal SHA-256 digest of the path's UTF-8 bytes followed by the
/// eight little-endian bytes of `config_hash`.
pub fn generate_cache_key(repo_path: &str, config_hash: u64) -> (k: String)
    ensures
        k@ == lower_hex(spec_sha256(repo_path.spec_bytes() + le_bytes(config_hash as nat, 8))),
{
    let mut data: Vec<u8> = Vec::new();
    let bytes = repo_path.as_bytes();
    let mut i: usize = 0;
    while i < bytes.len()
        invariant
            i <= bytes.len(),
            data@ == bytes@.subrange(0, i as int),
        decreases bytes.len() - i,
    {
        data.push(bytes[i]);
        i += 1;
    }
    proof {
        assert(bytes@.subrange(0, bytes@.len() as int) =~= bytes@);
    }
    push_le_bytes(&mut data, config_hash);
    let digest = sha256_digest(data.as_slice());
    hex_string(digest.as_slice())
}

} // verus!
