//! The rules of the two-tier cache: when an entry has expired, what a disk
//! read yields, and where on disk a key's entry lives. The disk and memory
//! tiers themselves, with their I/O, live outside the library.
use vstd::prelude::*;
use vstd::string::*;

verus! {

/// A value stored on disk with the time it was written and its time to live.
#[derive(Debug, Clone)]
pub struct CacheEntry {
    /// The cached value.
    pub content: String,
    /// When it was written, in seconds since the epoch.
    pub timestamp: u64,
    /// How long it stays valid, in seconds.
    pub ttl: u64,
}

/// An entry written at `timestamp` with `ttl` has expired at `now`.
pub open spec fn expired(timestamp: u64, ttl: u64, now: u64) -> bool {
    now >= timestamp + ttl
}

/// What reading a key's disk entry yields.
#[derive(Debug, Clone)]
pub enum DiskLookup {
    /// No entry is stored for the key.
    Absent,
    /// The entry has expired: it reads as absent and its file is deleted.
    Expired,
    /// The entry is valid and holds this value.
    Fresh(String),
}

/// The result of a disk read of `entry` at `now`.
pub open spec fn lookup_result(entry: Option<CacheEntry>, now: u64) -> DiskLookup {
    match entry {
        None => DiskLookup::Absent,
        Some(e) => if expired(e.timestamp, e.ttl, now) {
            DiskLookup::Expired
        } else {
            DiskLookup::Fresh(e.content)
        },
    }
}

impl CacheEntry {
    /// The entry that `set` writes at `now` with the store's time to live.
    pub fn new(content: String, now: u64, ttl: u64) -> (e: CacheEntry)
        ensures
            e.content == content,
            e.timestamp == now,
            e.ttl == ttl,
    {
        CacheEntry { content, timestamp: now, ttl }
    }

    /// Whether the entry has expired at `now`, that is `now >= timestamp + ttl`.
    pub fn is_expired(&self, now: u64) -> (r: bool)
        ensures
            r == expired(self.timestamp, self.ttl, now),
    {
        now >= self.timestamp && now - self.timestamp >= self.ttl
    }
}

/// What a disk read of `entry` at `now` yields: absent when nothing is stored,
/// expired (to be deleted) when `now >= timestamp + ttl`, and the value otherwise.
pub fn disk_lookup(entry: Option<CacheEntry>, now: u64) -> (r: DiskLookup)
    ensures
        r == lookup_result(entry, now),
{
    match entry {
        None => DiskLookup::Absent,
        Some(e) => if e.is_expired(now) {
            DiskLookup::Expired
        } else {
            DiskLookup::Fresh(e.content)
        },
    }
}

/// Whether the cleanup sweep deletes `entry` at `now`: exactly when it has expired.
pub fn sweep_deletes(entry: &CacheEntry, now: u64) -> (r: bool)
    ensures
        r == expired(entry.timestamp, entry.ttl, now),
{
    entry.is_expired(now)
}

/// A value written by `set` at time `written` reads back as that value from
/// the disk tier, and so from a fresh cache whose memory tier is empty,
/// until its time to live has passed; from then on it reads as absent and
/// its file is deleted. With a time to live of zero it is never read back.
pub proof fn lemma_cache_round_trip(content: String, written: u64, ttl: u64, now: u64)
    requires
        written <= now,
    ensures
        now < written + ttl ==> lookup_result(Some(CacheEntry { content, timestamp: written, ttl }), now)
            == DiskLookup::Fresh(content),
        now >= written + ttl ==> lookup_result(Some(CacheEntry { content, timestamp: written, ttl }), now)
            == DiskLookup::Expired,
        ttl == 0 ==> lookup_result(Some(CacheEntry { content, timestamp: written, ttl }), now)
            == DiskLookup::Expired,
{
}

/// The lowercase hexadecimal BLAKE3 digest of the UTF-8 bytes of a text.
pub uninterp spec fn blake3_hex_of(data: Seq<char>) -> Seq<char>;

/// Relies on `blake3::hash` and `Hash::to_hex`: 64 lowercase hexadecimal
/// digits, two for each of the 32 bytes of the digest.
#[verifier::external_body]
fn blake3_hex(data: &str) -> (r: String)
    ensures
        r@ == blake3_hex_of(data@),
        r@.len() == 64,
{
    blake3::hash(data.as_bytes()).to_hex().to_string()
}

/// Where a digest's entry lives: the shard directory named by its first two
/// digits, and the file `<digest>.json` in it.
pub fn location_for_digest(digest: &str) -> (r: (String, String))
    requires
        digest@.len() >= 2,
    ensures
        r.0@ == digest@.subrange(0, 2),
        r.1@ == digest@ + ".json"@,
{
    let shard = String::from_str(digest.substring_char(0, 2));
    let file = String::from_str(digest).concat(".json");
    (shard, file)
}

/// Where the entry of `key` lives on disk: a shard directory named by the
/// first two digits of the key's BLAKE3 digest, and a file named by the whole
/// digest in it.
pub fn entry_location(key: &str) -> (r: (String, String))
    ensures
        r.0@ == blake3_hex_of(key@).subrange(0, 2),
        r.1@ == blake3_hex_of(key@) + ".json"@,
{
    let digest = blake3_hex(key);
    location_for_digest(digest.as_str())
}

} // verus!
