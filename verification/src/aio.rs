//! File-level helpers: splitting and joining repository paths, the hex form
//! of 128-bit content hashes, hashing file contents, listing entries, and the
//! allocations and file system operations that carry out a transfer plan.

use vstd::prelude::*;
use std::collections::HashMap;
use crate::filepipe::RepositoryFile;
use crate::filepipe::transf::FileTranformations;
use crate::text::{append_str, chars_of, string_of_range};

verus! {

/// What went wrong while reading a directory's files.
#[derive(Clone, Debug)]
pub enum IOError {
    FailedToOpenFile { path: String },
    FailedToConvertHashBytesToString { path: String },
    FailedToConvertHashStringToBytes { hash: String },
}

/// Index of the last `'/'` in `s`, if any.
pub open spec fn last_slash(s: Seq<char>) -> Option<int>
    decreases s.len(),
{
    if s.len() == 0 {
        None
    } else if s.last() == '/' {
        Some(s.len() - 1)
    } else {
        last_slash(s.drop_last())
    }
}

/// The directory part and the name part of a path: everything before the last
/// `'/'` and everything after it; without a `'/'` the directory is empty and
/// the name is the whole path.
pub open spec fn split_dir_name(s: Seq<char>) -> (Seq<char>, Seq<char>) {
    match last_slash(s) {
        Some(i) => (s.take(i), s.skip(i + 1)),
        None => (Seq::empty(), s),
    }
}

/// `last_slash` finds the last `'/'`, and finds one whenever there is one.
pub proof fn lemma_last_slash(s: Seq<char>)
    ensures
        match last_slash(s) {
            Some(i) => 0 <= i < s.len() && s[i] == '/' && forall|j: int|
                i < j < s.len() ==> s[j] != '/',
            None => forall|j: int| 0 <= j < s.len() ==> s[j] != '/',
        },
    decreases s.len(),
{
    if s.len() > 0 && s.last() != '/' {
        lemma_last_slash(s.drop_last());
        assert forall|j: int| 0 <= j < s.len() - 1 implies s.drop_last()[j] == s[j] by {}
    }
}

/// Splits `path` at its last `'/'` into (directory, name); a path without a
/// `'/'` has an empty directory.
pub fn extract_path_dir_and_name(path: &str) -> (r: (String, String))
    ensures
        (r.0@, r.1@) == split_dir_name(path@),
{
    let v = chars_of(path);
    let n = v.len();
    let mut i = n;
    proof {
        assert(v@.take(n as int) =~= v@);
    }
    while i > 0
        invariant
            i <= n == v@.len(),
            v@ == path@,
            last_slash(v@) == last_slash(v@.take(i as int)),
        decreases i,
    {
        if v[i - 1] == '/' {
            proof {
                assert(v@.take(i as int).last() == '/');
            }
            let dir = string_of_range(&v, 0, i - 1);
            let name = string_of_range(&v, i, n);
            proof {
                assert(v@.take(i - 1) =~= v@.subrange(0, i - 1));
                assert(v@.skip(i as int) =~= v@.subrange(i as int, n as int));
            }
            return (dir, name);
        }
        proof {
            assert(v@.take(i as int).drop_last() =~= v@.take(i - 1));
        }
        i = i - 1;
    }
    proof {
        assert(v@.take(0) =~= Seq::<char>::empty());
        assert(v@.subrange(0, n as int) =~= v@);
    }
    (String::new(), string_of_range(&v, 0, n))
}

/// The path of the file `name` in the directory `dir`: `dir/name`, or just
/// `name` when `dir` is empty.
pub open spec fn composed(dir: Seq<char>, name: Seq<char>) -> Seq<char> {
    if dir.len() == 0 {
        name
    } else {
        dir + seq!['/'] + name
    }
}

/// Joins a directory and a file name into a path (the inverse of
/// `extract_path_dir_and_name`).
pub fn compose_path_dir_and_name(dir: &str, name: &str) -> (r: String)
    ensures
        r@ == composed(dir@, name@),
{
    let mut r = dir.to_owned();
    if !dir.is_empty() {
        append_str(&mut r, "/");
        proof {
            reveal_strlit("/");
        }
    }
    append_str(&mut r, name);
    r
}

/// Joining the two parts of a path gives the path back, unless its only
/// `'/'` that matters is its first character (`"/a"` splits into `""` and
/// `"a"`, which join to `"a"`).
pub proof fn lemma_compose_split(p: Seq<char>)
    requires
        last_slash(p) != Some(0int),
    ensures
        composed(split_dir_name(p).0, split_dir_name(p).1) == p,
{
    lemma_last_slash(p);
    match last_slash(p) {
        Some(i) => {
            assert(p.take(i) + seq!['/'] + p.skip(i + 1) =~= p);
        },
        None => {},
    }
}

/// Splitting a joined path gives the directory and the name back, for a
/// name without `'/'`.
pub proof fn lemma_split_compose(dir: Seq<char>, name: Seq<char>)
    requires
        forall|j: int| 0 <= j < name.len() ==> name[j] != '/',
    ensures
        split_dir_name(composed(dir, name)) == (dir, name),
{
    let p = composed(dir, name);
    lemma_last_slash(p);
    if dir.len() == 0 {
        assert(p == name);
        assert(last_slash(p) is None) by {
            if let Some(i) = last_slash(p) {
                assert(p[i] == '/');
            }
        }
    } else {
        let k = dir.len() as int;
        assert(p[k] == '/');
        assert forall|j: int| k < j < p.len() implies p[j] != '/' by {
            assert(p[j] == name[j - k - 1]);
        }
        match last_slash(p) {
            Some(i) => {
                assert(i == k);
            },
            None => {
                assert(p[k] == '/');
            },
        }
        assert(p.take(k) =~= dir);
        assert(p.skip(k + 1) =~= name);
    }
}

/// The value of a hex digit of either case.
pub open spec fn hex_digit_value(c: char) -> Option<int> {
    if '0' <= c && c <= '9' {
        Some(c as int - '0' as int)
    } else if 'a' <= c && c <= 'f' {
        Some(c as int - 'a' as int + 10)
    } else if 'A' <= c && c <= 'F' {
        Some(c as int - 'A' as int + 10)
    } else {
        None
    }
}

/// The lowercase hex digit of a value below 16.
pub open spec fn lower_hex_digit(d: int) -> char {
    if d < 10 {
        ('0' as int + d) as char
    } else {
        ('a' as int + (d - 10)) as char
    }
}

/// The bytes that a hex string denotes: two digits per byte, high digit first;
/// `None` for a string of odd length or with a character that is no hex digit.
pub open spec fn hex_decoded(s: Seq<char>) -> Option<Seq<u8>> {
    if s.len() % 2 == 0 && forall|i: int| 0 <= i < s.len() ==> (#[trigger] hex_digit_value(s[i])) is Some {
        Some(
            Seq::new(
                (s.len() / 2) as nat,
                |k: int|
                    (hex_digit_value(s[2 * k]).unwrap() * 16 + hex_digit_value(s[2 * k + 1]).unwrap()) as u8,
            ),
        )
    } else {
        None
    }
}

/// The lowercase hex string of some bytes: two digits per byte, high digit first.
pub open spec fn hex_encoded(b: Seq<u8>) -> Seq<char> {
    Seq::new(
        2 * b.len(),
        |i: int|
            if i % 2 == 0 {
                lower_hex_digit(b[i / 2] as int / 16)
            } else {
                lower_hex_digit(b[i / 2] as int % 16)
            },
    )
}

/// The number whose little-endian bytes are `b`.
pub open spec fn le_value(b: Seq<u8>) -> nat
    decreases b.len(),
{
    if b.len() == 0 {
        0
    } else {
        (b[0] + 256 * le_value(b.drop_first())) as nat
    }
}

/// The `n` little-endian bytes of `v` (the low `8 * n` bits).
pub open spec fn le_bytes(v: nat, n: nat) -> Seq<u8>
    decreases n,
{
    if n == 0 {
        Seq::empty()
    } else {
        seq![(v % 256) as u8] + le_bytes(v / 256, (n - 1) as nat)
    }
}

/// `256` to the power `n`.
pub open spec fn byte_range(n: nat) -> nat
    decreases n,
{
    if n == 0 {
        1
    } else {
        256 * byte_range((n - 1) as nat)
    }
}

/// The hash a string denotes: exactly 16 bytes in hex, read little-endian.
pub open spec fn parse_hash(s: Seq<char>) -> Option<u128> {
    match hex_decoded(s) {
        Some(b) => if b.len() == 16 {
            Some(le_value(b) as u128)
        } else {
            None
        },
        None => None,
    }
}

/// The string that stands for a hash: its 16 little-endian bytes in lowercase hex.
pub open spec fn hash_string(h: u128) -> Seq<char> {
    hex_encoded(le_bytes(h as nat, 16))
}

/// Decodes a hex string (`hex::decode`); the call fails exactly on strings of
/// odd length or with a character that is not a hex digit.
#[verifier::external_body]
fn hex_decode(s: &str) -> (r: Option<Vec<u8>>)
    ensures
        match r {
            Some(v) => hex_decoded(s@) == Some(v@),
            None => hex_decoded(s@) is None,
        },
{
    hex::decode(s).ok()
}

/// Encodes bytes as lowercase hex (`hex::encode`).
#[verifier::external_body]
fn hex_encode(b: &[u8]) -> (r: String)
    ensures
        r@ == hex_encoded(b@),
{
    hex::encode(b)
}

proof fn lemma_le_value_bound(b: Seq<u8>)
    ensures
        le_value(b) < byte_range(b.len()),
    decreases b.len(),
{
    if b.len() > 0 {
        lemma_le_value_bound(b.drop_first());
        let r = byte_range((b.len() - 1) as nat);
        let v = le_value(b.drop_first());
        assert(b[0] + 256 * v < 256 * r) by (nonlinear_arith)
            requires
                v < r,
                b[0] < 256,
        ;
    }
}

proof fn lemma_byte_range_16()
    ensures
        byte_range(16) == 0x1_0000_0000_0000_0000_0000_0000_0000_0000,
{
    reveal_with_fuel(byte_range, 17);
}

/// Reading back the bytes of a value gives the value.
pub proof fn lemma_le_roundtrip(v: nat, n: nat)
    requires
        v < byte_range(n),
    ensures
        le_bytes(v, n).len() == n,
        le_value(le_bytes(v, n)) == v,
    decreases n,
{
    if n > 0 {
        let r = byte_range((n - 1) as nat);
        assert(v / 256 < r) by (nonlinear_arith)
            requires
                v < 256 * r,
        ;
        lemma_le_roundtrip(v / 256, (n - 1) as nat);
        let b = le_bytes(v, n);
        assert(b.drop_first() =~= le_bytes(v / 256, (n - 1) as nat));
        assert(v == v % 256 + 256 * (v / 256)) by (nonlinear_arith);
    }
}

/// Decoding the hex encoding of some bytes gives the bytes back.
pub proof fn lemma_hex_roundtrip(b: Seq<u8>)
    ensures
        hex_decoded(hex_encoded(b)) == Some(b),
{
    let s = hex_encoded(b);
    assert forall|i: int| 0 <= i < s.len() implies (#[trigger] hex_digit_value(s[i])) is Some
        && hex_digit_value(s[i]).unwrap() == (if i % 2 == 0 {
        b[i / 2] as int / 16
    } else {
        b[i / 2] as int % 16
    }) by {
        let d: int = if i % 2 == 0 {
            b[i / 2] as int / 16
        } else {
            b[i / 2] as int % 16
        };
        assert(0 <= d < 16);
    }
    let d = hex_decoded(s).unwrap();
    assert forall|k: int| 0 <= k < b.len() implies d[k] == b[k] by {
        assert((2 * k) / 2 == k);
        assert((2 * k + 1) / 2 == k);
        assert((2 * k) % 2 == 0);
        assert((2 * k + 1) % 2 == 1);
        assert(b[k] == (b[k] / 16) * 16 + b[k] % 16);
    }
    assert(d =~= b);
}

/// Reads a hash from its hex form: the string must be the hex encoding of
/// exactly 16 bytes (digits of either case), read little-endian.
pub fn hash_str_to_u128(hash_str: &str) -> (r: Result<u128, ()>)
    ensures
        match r {
            Ok(h) => parse_hash(hash_str@) == Some(h),
            Err(_) => parse_hash(hash_str@) is None,
        },
{
    let bytes = match hex_decode(hash_str) {
        Some(b) => b,
        None => {
            return Err(());
        },
    };
    if bytes.len() != 16 {
        return Err(());
    }
    let mut acc: u128 = 0;
    let mut i: usize = 16;
    proof {
        assert(bytes@.skip(16) =~= Seq::<u8>::empty());
    }
    while i > 0
        invariant
            i <= 16,
            bytes@.len() == 16,
            acc as nat == le_value(bytes@.skip(i as int)),
            le_value(bytes@.skip(i as int)) < byte_range((16 - i) as nat),
        decreases i,
    {
        let ghost tail = bytes@.skip(i as int);
        let ghost next = bytes@.skip(i - 1);
        proof {
            assert(next.drop_first() =~= tail);
            assert(next[0] == bytes@[i - 1]);
            lemma_le_value_bound(next);
            assert(next.len() == (16 - (i - 1)) as nat);
            lemma_byte_range_16();
            lemma_byte_range_monotone(next.len(), 16);
        }
        acc = acc * 256 + bytes[i - 1] as u128;
        i = i - 1;
    }
    proof {
        assert(bytes@.skip(0) =~= bytes@);
    }
    Ok(acc)
}

proof fn lemma_byte_range_monotone(a: nat, b: nat)
    requires
        a <= b,
    ensures
        byte_range(a) <= byte_range(b),
    decreases b,
{
    if a < b {
        lemma_byte_range_monotone(a, (b - 1) as nat);
    }
}

/// The hex form of a hash: its 16 little-endian bytes in lowercase hex.
pub fn hash_u128_to_str(hash: u128) -> (r: String)
    ensures
        r@ == hash_string(hash),
{
    let mut bytes: Vec<u8> = Vec::new();
    let mut v: u128 = hash;
    let mut k: usize = 0;
    while k < 16
        invariant
            k <= 16,
            le_bytes(hash as nat, 16) == bytes@ + le_bytes(v as nat, (16 - k) as nat),
        decreases 16 - k,
    {
        let ghost rest = le_bytes(v as nat, (16 - k) as nat);
        assert(rest == seq![(v % 256) as u8] + le_bytes((v / 256) as nat, (16 - k - 1) as nat));
        bytes.push((v % 256) as u8);
        v = v / 256;
        k = k + 1;
        assert(le_bytes(hash as nat, 16) =~= bytes@ + le_bytes(v as nat, (16 - k) as nat));
    }
    assert(le_bytes(v as nat, 0) =~= Seq::<u8>::empty());
    assert(bytes@ =~= le_bytes(hash as nat, 16));
    hex_encode(bytes.as_slice())
}

/// Reading back the hex form of a hash gives the hash.
pub proof fn lemma_hash_string_roundtrip(h: u128)
    ensures
        parse_hash(hash_string(h)) == Some(h),
{
    lemma_byte_range_16();
    lemma_le_roundtrip(h as nat, 16);
    lemma_hex_roundtrip(le_bytes(h as nat, 16));
}

/// Whether the directory walk enters an entry of this name: everything but
/// the tool's own `.fp` directory.
pub fn is_walked(file_name: &str) -> (r: bool)
    ensures
        r == (file_name@ != ".fp"@),
{
    !crate::config::str_eq(file_name, ".fp")
}

/// The listing entry of a file found at `file_path` (relative to the
/// repository) with `size` bytes and content hash `hash`: stored under its
/// path, with the path split into directory and name and the hash in hex.
pub fn listed_file(file_path: &str, size: u64, hash: u128) -> (r: (String, RepositoryFile))
    ensures
        r.0@ == file_path@,
        (r.1.path_dir@, r.1.name@) == split_dir_name(file_path@),
        r.1.size == size,
        r.1.hash@ == hash_string(hash),
{
    let (path_dir, name) = extract_path_dir_and_name(file_path);
    (file_path.to_owned(), RepositoryFile { path_dir, name, size, hash: hash_u128_to_str(hash) })
}

/// An XXH3 hasher (`xxhash_rust::xxh3::Xxh3`).
#[verifier::external_type_specification]
#[verifier::external_body]
pub struct ExXxh3(xxhash_rust::xxh3::Xxh3);

/// The bytes a hasher was fed, in order.
pub uninterp spec fn hasher_input(h: xxhash_rust::xxh3::Xxh3) -> Seq<u8>;

/// The 128-bit XXH3 hash (default seed and secret) of some bytes.
pub uninterp spec fn xxh3_128_of(data: Seq<u8>) -> u128;

/// A hasher with the default seed and secret that was fed nothing
/// (`Xxh3::new`).
#[verifier::external_body]
fn new_hasher() -> (r: xxhash_rust::xxh3::Xxh3)
    ensures
        hasher_input(r) == Seq::<u8>::empty(),
{
    xxhash_rust::xxh3::Xxh3::new()
}

/// Feeds bytes to a hasher (`Xxh3::update`).
#[verifier::external_body]
fn hasher_update(h: &mut xxhash_rust::xxh3::Xxh3, chunk: &[u8])
    ensures
        hasher_input(*final(h)) == hasher_input(*old(h)) + chunk@,
{
    h.update(chunk)
}

/// The hash of what a hasher was fed (`Xxh3::digest128`): the streaming
/// hasher gives the one-shot XXH3 hash of all its input.
#[verifier::external_body]
fn hasher_digest(h: &xxhash_rust::xxh3::Xxh3) -> (r: u128)
    ensures
        r == xxh3_128_of(hasher_input(*h)),
{
    h.digest128()
}

/// The content hash of a file, computed while its bytes are read chunk by
/// chunk.
pub struct ContentHasher {
    hasher: xxhash_rust::xxh3::Xxh3,
}

impl ContentHasher {
    /// The bytes fed so far.
    pub closed spec fn view(&self) -> Seq<u8> {
        hasher_input(self.hasher)
    }

    /// A hasher that was fed nothing.
    pub fn new() -> (r: ContentHasher)
        ensures
            r.view() == Seq::<u8>::empty(),
    {
        ContentHasher { hasher: new_hasher() }
    }

    /// Takes the next chunk read from the file; an empty chunk is the end of
    /// the file, and the answer is whether to read on.
    pub fn feed(&mut self, chunk: &[u8]) -> (more: bool)
        ensures
            more == (chunk@.len() > 0),
            final(self).view() == old(self).view() + chunk@,
    {
        if chunk.len() == 0 {
            assert(old(self).view() + chunk@ =~= old(self).view());
            return false;
        }
        hasher_update(&mut self.hasher, chunk);
        true
    }

    /// The hash of all bytes fed.
    pub fn digest(&self) -> (r: u128)
        ensures
            r == xxh3_128_of(self.view()),
    {
        hasher_digest(&self.hasher)
    }
}

/// The sizes of the files of a listing by content hash: where several files
/// share a hash the last one counts, and files whose hash is not valid are
/// left out.
pub open spec fn hash_sizes(entries: Seq<RepositoryFile>) -> Map<u128, u64>
    decreases entries.len(),
{
    if entries.len() == 0 {
        Map::empty()
    } else {
        let m = hash_sizes(entries.drop_last());
        match parse_hash(entries.last().hash@) {
            Some(h) => m.insert(h, entries.last().size),
            None => m,
        }
    }
}

/// The size of the files of a listing by content hash (see `hash_sizes`).
pub fn extract_hash_file_sizes_from_file_entries(entries: &Vec<RepositoryFile>) -> (r: HashMap<u128, u64>)
    ensures
        r@ == hash_sizes(entries@),
{
    broadcast use vstd::std_specs::hash::group_hash_axioms;

    let mut out: HashMap<u128, u64> = HashMap::with_capacity(entries.len());
    let mut i: usize = 0;
    while i < entries.len()
        invariant
            i <= entries.len(),
            out@ == hash_sizes(entries@.take(i as int)),
        decreases entries.len() - i,
    {
        proof {
            assert(entries@.take(i + 1).drop_last() =~= entries@.take(i as int));
            assert(entries@.take(i + 1).last() == entries@[i as int]);
        }
        match hash_str_to_u128(entries[i].hash.as_str()) {
            Ok(hash) => {
                out.insert(hash, entries[i].size);
            },
            Err(_) => {},
        }
        i = i + 1;
    }
    assert(entries@.take(i as int) =~= entries@);
    out
}

/// Where the contents fetched for a transfer are first written:
/// `.fp/nt/<repository key>/<path>`.
pub open spec fn staging_path(repository_key: Seq<char>, path: Seq<char>) -> Seq<char> {
    ".fp/nt/"@ + repository_key + "/"@ + path
}

fn staging_path_of(repository_key: &str, path: &str) -> (r: String)
    ensures
        r@ == staging_path(repository_key@, path@),
{
    let mut r = ".fp/nt/".to_owned();
    append_str(&mut r, repository_key);
    append_str(&mut r, "/");
    append_str(&mut r, path);
    r
}

/// The files to allocate for the contents to fetch: for each transfer with
/// at least one path and a known size, its staging file of that size.
pub open spec fn network_allocations(
    transfers: Seq<(u128, Vec<String>)>,
    sizes: Map<u128, u64>,
    repository_key: Seq<char>,
) -> Seq<(Seq<char>, u64)>
    decreases transfers.len(),
{
    if transfers.len() == 0 {
        Seq::empty()
    } else {
        let rest = network_allocations(transfers.drop_last(), sizes, repository_key);
        let t = transfers.last();
        if t.1@.len() > 0 && sizes.contains_key(t.0) {
            rest.push((staging_path(repository_key, t.1@[0]@), sizes[t.0]))
        } else {
            rest
        }
    }
}

/// The staging files to allocate before the contents of `transformations`
/// are fetched, with their sizes (see `network_allocations`).
pub fn allocate_network_disk_from_transf(
    transformations: &FileTranformations,
    hash_sizes: &HashMap<u128, u64>,
    repository_key: &str,
) -> (r: Vec<(String, u64)>)
    ensures
        r@.map_values(|a: (String, u64)| (a.0@, a.1)) == network_allocations(
            transformations.to_transfer@,
            hash_sizes@,
            repository_key@,
        ),
{
    broadcast use vstd::std_specs::hash::group_hash_axioms;

    let ghost ts = transformations.to_transfer@;
    let mut out: Vec<(String, u64)> = Vec::new();
    let mut i: usize = 0;
    while i < transformations.to_transfer.len()
        invariant
            i <= ts.len(),
            ts == transformations.to_transfer@,
            out@.map_values(|a: (String, u64)| (a.0@, a.1)) == network_allocations(ts.take(i as int), hash_sizes@, repository_key@),
        decreases ts.len() - i,
    {
        proof {
            assert(ts.take(i + 1).drop_last() =~= ts.take(i as int));
            assert(ts.take(i + 1).last() == ts[i as int]);
        }
        let t = &transformations.to_transfer[i];
        if t.1.len() > 0 {
            match hash_sizes.get(&t.0) {
                Some(size) => {
                    let path = staging_path_of(repository_key, t.1[0].as_str());
                    let ghost before = out@;
                    out.push((path, *size));
                    assert(out@.map_values(|a: (String, u64)| (a.0@, a.1)) =~= before.map_values(
                        |a: (String, u64)| (a.0@, a.1),
                    ).push((staging_path(repository_key@, t.1@[0]@), hash_sizes@[t.0])));
                },
                None => {},
            }
        }
        i = i + 1;
    }
    assert(ts.take(i as int) =~= ts);
    out
}

/// A file system operation: a rename or a copy, from a path to a path.
#[derive(Debug)]
pub enum FsOp {
    Rename { from: String, to: String },
    Copy { from: String, to: String },
}

/// An operation as plain values: whether it copies, its source and its
/// destination.
pub open spec fn op_view(o: FsOp) -> (bool, Seq<char>, Seq<char>) {
    match o {
        FsOp::Rename { from, to } => (false, from@, to@),
        FsOp::Copy { from, to } => (true, from@, to@),
    }
}

/// The renames of the moves, in order.
pub open spec fn move_ops(moves: Seq<(String, String)>) -> Seq<(bool, Seq<char>, Seq<char>)> {
    moves.map_values(|m: (String, String)| (false, m.0@, m.1@))
}

/// The operations of one copy entry: when the origin is to be renamed, a
/// rename of the new name onto itself; then copies from the (new) origin to
/// each target.
pub open spec fn copy_entry_ops(c: (String, (Option<String>, Vec<String>))) -> Seq<(bool, Seq<char>, Seq<char>)> {
    let origin = match c.1.0 {
        Some(m) => m@,
        None => c.0@,
    };
    let rename = match c.1.0 {
        Some(m) => seq![(false, m@, m@)],
        None => Seq::empty(),
    };
    rename + c.1.1@.map_values(|t: String| (true, origin, t@))
}

/// The operations of the copy entries, in order.
pub open spec fn copy_ops(copies: Seq<(String, (Option<String>, Vec<String>))>) -> Seq<(bool, Seq<char>, Seq<char>)>
    decreases copies.len(),
{
    if copies.len() == 0 {
        Seq::empty()
    } else {
        copy_ops(copies.drop_last()) + copy_entry_ops(copies.last())
    }
}

/// Copies of the staging file `staging` to `<repository>/<path>` for each
/// path other than `origin`, in order.
pub open spec fn staged_copies(paths: Seq<String>, origin: Seq<char>, staging: Seq<char>, repository: Seq<char>) -> Seq<
    (bool, Seq<char>, Seq<char>),
>
    decreases paths.len(),
{
    if paths.len() == 0 {
        Seq::empty()
    } else {
        let rest = staged_copies(paths.drop_last(), origin, staging, repository);
        if paths.last()@ == origin {
            rest
        } else {
            rest.push((true, staging, repository + "/"@ + paths.last()@))
        }
    }
}

/// The operations of one transfer: nothing without paths; otherwise the
/// fetched contents, staged under the first path, are copied to the other
/// paths and then renamed to the first one.
pub open spec fn transfer_entry_ops(t: (u128, Vec<String>), repository: Seq<char>, key: Seq<char>) -> Seq<
    (bool, Seq<char>, Seq<char>),
> {
    if t.1@.len() == 0 {
        Seq::empty()
    } else {
        let origin = t.1@[0]@;
        let staging = staging_path(key, origin);
        staged_copies(t.1@, origin, staging, repository).push((false, staging, repository + "/"@ + origin))
    }
}

/// The operations of the transfers, in order.
pub open spec fn transfer_ops(transfers: Seq<(u128, Vec<String>)>, repository: Seq<char>, key: Seq<char>) -> Seq<
    (bool, Seq<char>, Seq<char>),
>
    decreases transfers.len(),
{
    if transfers.len() == 0 {
        Seq::empty()
    } else {
        transfer_ops(transfers.drop_last(), repository, key) + transfer_entry_ops(transfers.last(), repository, key)
    }
}

/// The operations as plain values.
pub open spec fn ops_view(ops: Seq<FsOp>) -> Seq<(bool, Seq<char>, Seq<char>)> {
    ops.map_values(|o: FsOp| op_view(o))
}

fn push_op(ops: &mut Vec<FsOp>, copy: bool, from: String, to: String)
    ensures
        ops_view(final(ops)@) == ops_view(old(ops)@).push((copy, from@, to@)),
{
    let op = if copy {
        FsOp::Copy { from, to }
    } else {
        FsOp::Rename { from, to }
    };
    ops.push(op);
    assert(ops_view(ops@) =~= ops_view(old(ops)@).push((copy, from@, to@)));
}

fn repository_file(repository_path: &str, path: &str) -> (r: String)
    ensures
        r@ == repository_path@ + "/"@ + path@,
{
    let mut r = repository_path.to_owned();
    append_str(&mut r, "/");
    append_str(&mut r, path);
    r
}

/// The file system operations that carry out `transformations` in the
/// repository at `repository_path`, in order: the moves, then the copy
/// entries, then the transfers, whose contents were staged under
/// `.fp/nt/<repository_key>/`. Moves and copies use the paths as they are
/// recorded; transfers write into the repository.
pub fn transf_fs_operations(transformations: &FileTranformations, repository_path: &str, repository_key: &str) -> (r: Vec<FsOp>)
    ensures
        ops_view(r@) == move_ops(transformations.to_move@) + copy_ops(transformations.to_copy@) + transfer_ops(
            transformations.to_transfer@,
            repository_path@,
            repository_key@,
        ),
{
    let mut ops: Vec<FsOp> = Vec::new();
    let ghost mv = transformations.to_move@;
    let mut i: usize = 0;
    while i < transformations.to_move.len()
        invariant
            i <= mv.len(),
            mv == transformations.to_move@,
            ops_view(ops@) == move_ops(mv.take(i as int)),
        decreases mv.len() - i,
    {
        let m = &transformations.to_move[i];
        push_op(&mut ops, false, m.0.clone(), m.1.clone());
        assert(move_ops(mv.take(i + 1)) =~= move_ops(mv.take(i as int)).push((false, mv[i as int].0@, mv[i as int].1@)));
        i = i + 1;
    }
    assert(mv.take(i as int) =~= mv);
    let ghost after_moves = ops_view(ops@);
    let ghost cp = transformations.to_copy@;
    let mut i: usize = 0;
    while i < transformations.to_copy.len()
        invariant
            i <= cp.len(),
            cp == transformations.to_copy@,
            ops_view(ops@) == after_moves + copy_ops(cp.take(i as int)),
        decreases cp.len() - i,
    {
        proof {
            assert(cp.take(i + 1).drop_last() =~= cp.take(i as int));
            assert(cp.take(i + 1).last() == cp[i as int]);
        }
        let c = &transformations.to_copy[i];
        let ghost before = ops_view(ops@);
        let origin = match &c.1.0 {
            Some(m) => {
                push_op(&mut ops, false, m.clone(), m.clone());
                m.clone()
            },
            None => c.0.clone(),
        };
        let ghost with_rename = ops_view(ops@);
        let mut j: usize = 0;
        while j < c.1.1.len()
            invariant
                j <= c.1.1@.len(),
                ops_view(ops@) == with_rename + c.1.1@.take(j as int).map_values(|t: String| (true, origin@, t@)),
            decreases c.1.1@.len() - j,
        {
            push_op(&mut ops, true, origin.clone(), c.1.1[j].clone());
            assert(c.1.1@.take(j + 1).map_values(|t: String| (true, origin@, t@)) =~= c.1.1@.take(j as int).map_values(
                |t: String| (true, origin@, t@),
            ).push((true, origin@, c.1.1@[j as int]@)));
            j = j + 1;
        }
        assert(c.1.1@.take(j as int) =~= c.1.1@);
        assert(ops_view(ops@) =~= before + copy_entry_ops(*c));
        i = i + 1;
    }
    assert(cp.take(i as int) =~= cp);
    let ghost after_copies = ops_view(ops@);
    let ghost ts = transformations.to_transfer@;
    let mut i: usize = 0;
    while i < transformations.to_transfer.len()
        invariant
            i <= ts.len(),
            ts == transformations.to_transfer@,
            ops_view(ops@) == after_copies + transfer_ops(ts.take(i as int), repository_path@, repository_key@),
        decreases ts.len() - i,
    {
        proof {
            assert(ts.take(i + 1).drop_last() =~= ts.take(i as int));
            assert(ts.take(i + 1).last() == ts[i as int]);
        }
        let t = &transformations.to_transfer[i];
        let ghost before = ops_view(ops@);
        if t.1.len() > 0 {
            let origin = t.1[0].clone();
            let staging = staging_path_of(repository_key, origin.as_str());
            let mut j: usize = 0;
            while j < t.1.len()
                invariant
                    j <= t.1@.len(),
                    t.1@.len() > 0,
                    origin@ == t.1@[0]@,
                    staging@ == staging_path(repository_key@, origin@),
                    ops_view(ops@) == before + staged_copies(t.1@.take(j as int), origin@, staging@, repository_path@),
                decreases t.1@.len() - j,
            {
                proof {
                    assert(t.1@.take(j + 1).drop_last() =~= t.1@.take(j as int));
                    assert(t.1@.take(j + 1).last() == t.1@[j as int]);
                }
                if !crate::config::str_eq(t.1[j].as_str(), origin.as_str()) {
                    push_op(&mut ops, true, staging.clone(), repository_file(repository_path, t.1[j].as_str()));
                }
                j = j + 1;
            }
            assert(t.1@.take(j as int) =~= t.1@);
            push_op(&mut ops, false, staging, repository_file(repository_path, origin.as_str()));
        }
        assert(ops_view(ops@) =~= before + transfer_entry_ops(*t, repository_path@, repository_key@));
        i = i + 1;
    }
    assert(ts.take(i as int) =~= ts);
    ops
}

/// The staged copies are copies of the staged file, one into the repository
/// for each path other than `origin`.
proof fn lemma_staged_copies(paths: Seq<String>, origin: Seq<char>, staging: Seq<char>, repository: Seq<char>)
    ensures
        forall|i: int| 0 <= i < staged_copies(paths, origin, staging, repository).len()
            ==> (#[trigger] staged_copies(paths, origin, staging, repository)[i]).0
                && staged_copies(paths, origin, staging, repository)[i].1 == staging,
        forall|j: int| 0 <= j < paths.len() && (#[trigger] paths[j])@ != origin
            ==> staged_copies(paths, origin, staging, repository).contains((true, staging, repository + "/"@ + paths[j]@)),
    decreases paths.len(),
{
    if paths.len() > 0 {
        let d = paths.drop_last();
        lemma_staged_copies(d, origin, staging, repository);
        let rest = staged_copies(d, origin, staging, repository);
        assert forall|j: int| 0 <= j < paths.len() && (#[trigger] paths[j])@ != origin
            implies staged_copies(paths, origin, staging, repository).contains((true, staging, repository + "/"@ + paths[j]@)) by {
            let x = (true, staging, repository + "/"@ + paths[j]@);
            if j < d.len() {
                assert(d[j] == paths[j]);
                assert(rest.contains(x));
                let k = choose|k: int| 0 <= k < rest.len() && rest[k] == x;
                if paths.last()@ != origin {
                    assert(rest.push(x).len() > 0);
                    assert(rest.push((true, staging, repository + "/"@ + paths.last()@))[k] == x);
                }
            } else {
                let ops = rest.push(x);
                assert(ops[rest.len() as int] == x);
            }
        }
    }
}

/// A transfer has operations exactly when its content goes to some path.
/// Then the fetched file, staged at `.fp/nt/<key>/<first path>`, is renamed
/// last to `<repository>/<first path>`, and every operation before that is a
/// copy of the staged file, with one into `<repository>/<p>` for each other
/// path `p`.
pub proof fn lemma_transfer_entry_moves_fetched_file(t: (u128, Vec<String>), repository: Seq<char>, key: Seq<char>)
    ensures
        (transfer_entry_ops(t, repository, key).len() == 0) <==> t.1@.len() == 0,
        t.1@.len() > 0 ==> ({
            let ops = transfer_entry_ops(t, repository, key);
            let staging = ".fp/nt/"@ + key + "/"@ + t.1@[0]@;
            &&& ops.last() == (false, staging, repository + "/"@ + t.1@[0]@)
            &&& forall|i: int| 0 <= i < ops.len() - 1 ==> (#[trigger] ops[i]).0 && ops[i].1 == staging
            &&& forall|j: int| 0 < j < t.1@.len() && (#[trigger] t.1@[j])@ != t.1@[0]@
                ==> ops.contains((true, staging, repository + "/"@ + t.1@[j]@))
        }),
{
    if t.1@.len() > 0 {
        let origin = t.1@[0]@;
        let staging = staging_path(key, origin);
        lemma_staged_copies(t.1@, origin, staging, repository);
        let sc = staged_copies(t.1@, origin, staging, repository);
        let ops = transfer_entry_ops(t, repository, key);
        assert(ops == sc.push((false, staging, repository + "/"@ + origin)));
        assert forall|i: int| 0 <= i < ops.len() - 1 implies (#[trigger] ops[i]).0 && ops[i].1 == staging by {
            assert(ops[i] == sc[i]);
        }
        assert forall|j: int| 0 < j < t.1@.len() && (#[trigger] t.1@[j])@ != t.1@[0]@
            implies ops.contains((true, staging, repository + "/"@ + t.1@[j]@)) by {
            let x = (true, staging, repository + "/"@ + t.1@[j]@);
            assert(sc.contains(x));
            let k = choose|k: int| 0 <= k < sc.len() && sc[k] == x;
            assert(ops[k] == x);
        }
    }
}

/// Every transfer whose content goes to some path has its fetched file
/// renamed from `.fp/nt/<key>/<first path>` to `<repository>/<first path>`
/// among the transfers' operations.
pub proof fn lemma_transfers_move_fetched_files(transfers: Seq<(u128, Vec<String>)>, repository: Seq<char>, key: Seq<char>)
    ensures
        forall|i: int| 0 <= i < transfers.len() && (#[trigger] transfers[i]).1@.len() > 0
            ==> transfer_ops(transfers, repository, key).contains((false, ".fp/nt/"@ + key + "/"@ + transfers[i].1@[0]@,
                repository + "/"@ + transfers[i].1@[0]@)),
    decreases transfers.len(),
{
    if transfers.len() > 0 {
        let d = transfers.drop_last();
        lemma_transfers_move_fetched_files(d, repository, key);
        let a = transfer_ops(d, repository, key);
        let b = transfer_entry_ops(transfers.last(), repository, key);
        assert(transfer_ops(transfers, repository, key) == a + b);
        assert forall|i: int| 0 <= i < transfers.len() && (#[trigger] transfers[i]).1@.len() > 0
            implies transfer_ops(transfers, repository, key).contains((false, ".fp/nt/"@ + key + "/"@ + transfers[i].1@[0]@,
                repository + "/"@ + transfers[i].1@[0]@)) by {
            let x = (false, ".fp/nt/"@ + key + "/"@ + transfers[i].1@[0]@, repository + "/"@ + transfers[i].1@[0]@);
            if i < d.len() {
                assert(d[i] == transfers[i]);
                assert(a.contains(x));
                let k = choose|k: int| 0 <= k < a.len() && a[k] == x;
                assert((a + b)[k] == x);
            } else {
                lemma_transfer_entry_moves_fetched_file(transfers.last(), repository, key);
                assert(b.last() == x);
                assert((a + b)[a.len() + b.len() - 1] == x);
            }
        }
    }
}

} // verus!
