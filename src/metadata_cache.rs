//! In-memory model of the image-metadata store.
//!
//! The cache keeps its records in recency order: the least recently used
//! record comes first and every hit or write moves a record to the end.
//! Eviction therefore always drops a prefix of the sequence.

use vstd::prelude::*;
use std::collections::HashSet;
use vstd::utf8::encode_utf8;

verus! {

/// Width, height and byte size of an image, as a cache hit returns them.
#[derive(Debug, Clone, Copy, PartialEq, Eq, Structural)]
pub struct CachedMetadata {
    pub width: u32,
    pub height: u32,
    pub file_size: u64,
}

/// One stored record, keyed by `file_path`.
#[derive(Debug)]
pub struct CacheRecord {
    pub file_path: String,
    pub fingerprint: String,
    pub width: u32,
    pub height: u32,
    pub file_size: u64,
    pub last_accessed: u64,
}

/// The mathematical value of a [`CacheRecord`].
pub struct EntryView {
    pub path: Seq<char>,
    pub fingerprint: Seq<char>,
    pub width: u32,
    pub height: u32,
    pub file_size: u64,
    pub last_accessed: u64,
}

impl View for CacheRecord {
    type V = EntryView;

    open spec fn view(&self) -> EntryView {
        EntryView {
            path: self.file_path@,
            fingerprint: self.fingerprint@,
            width: self.width,
            height: self.height,
            file_size: self.file_size,
            last_accessed: self.last_accessed,
        }
    }
}

/// Outcome of a lookup.
#[derive(Debug, Clone, Copy, PartialEq, Eq, Structural)]
pub enum Lookup {
    /// No record for the path.
    Miss,
    /// A record existed under another fingerprint; it has been removed.
    Stale,
    /// A record with the requested fingerprint; its recency was refreshed.
    Hit(CachedMetadata),
}

/// Snapshot of the cache's size.
#[derive(Debug, Clone, Copy, PartialEq, Eq, Structural)]
pub struct CacheStats {
    pub entry_count: usize,
    pub max_entries: usize,
}

/// Some record of `s` has path `p`.
pub open spec fn holds_path(s: Seq<EntryView>, p: Seq<char>) -> bool {
    exists|i: int| 0 <= i < s.len() && #[trigger] s[i].path == p
}

/// The record of `s` with path `p` (meaningful when `holds_path(s, p)`).
pub open spec fn entry_of(s: Seq<EntryView>, p: Seq<char>) -> EntryView {
    s[choose|i: int| 0 <= i < s.len() && #[trigger] s[i].path == p]
}

/// No two records of `s` share a path.
pub open spec fn unique_paths(s: Seq<EntryView>) -> bool {
    forall|i: int, j: int|
        0 <= i < s.len() && 0 <= j < s.len() && i != j ==> #[trigger] s[i].path != #[trigger] s[j].path
}

/// Access times never decrease along `s`.
pub open spec fn oldest_first(s: Seq<EntryView>) -> bool {
    forall|i: int, j: int| 0 <= i <= j < s.len() ==> #[trigger] s[i].last_accessed <= #[trigger] s[j].last_accessed
}

/// `s` with the record for `p` taken out.
pub open spec fn without(s: Seq<EntryView>, p: Seq<char>) -> Seq<EntryView> {
    s.filter(|e: EntryView| e.path != p)
}

/// `s` with `e` as its most recent record, replacing any record of the same path.
pub open spec fn upsert(s: Seq<EntryView>, e: EntryView) -> Seq<EntryView> {
    without(s, e.path).push(e)
}

/// `s` cut down to its `cap` most recent records.
pub open spec fn evict(s: Seq<EntryView>, cap: nat) -> Seq<EntryView> {
    if s.len() > cap {
        s.subrange(s.len() - cap, s.len() as int)
    } else {
        s
    }
}

/// The records that `evict(s, cap)` drops: the oldest ones.
pub open spec fn evicted(s: Seq<EntryView>, cap: nat) -> Seq<EntryView> {
    if s.len() > cap {
        s.subrange(0, s.len() - cap)
    } else {
        Seq::empty()
    }
}

/// The paths of a sequence of records.
pub open spec fn paths_of(s: Seq<EntryView>) -> Seq<Seq<char>> {
    s.map_values(|e: EntryView| e.path)
}

/// The values of a sequence of strings.
pub open spec fn string_views(v: Seq<String>) -> Seq<Seq<char>> {
    v.map_values(|s: String| s@)
}

/// The access time given to a record touched at wall-clock time `now` by a
/// cache whose latest access time is `clock`: never earlier than `clock`.
pub open spec fn next_stamp(clock: u64, now: u64) -> u64 {
    if now > clock {
        now
    } else {
        clock
    }
}

/// What a hit returns for record `e`.
pub open spec fn metadata_of(e: EntryView) -> CachedMetadata {
    CachedMetadata { width: e.width, height: e.height, file_size: e.file_size }
}

/// What a lookup of path `p` under fingerprint `f` finds in `s`.
pub open spec fn lookup_outcome(s: Seq<EntryView>, p: Seq<char>, f: Seq<char>) -> Lookup {
    if !holds_path(s, p) {
        Lookup::Miss
    } else if entry_of(s, p).fingerprint == f {
        Lookup::Hit(metadata_of(entry_of(s, p)))
    } else {
        Lookup::Stale
    }
}

/// The records after a lookup of `p` under `f` that stamps a hit with `stamp`:
/// a miss changes nothing, a hit makes the record the most recent one, a
/// stale record is removed.
pub open spec fn after_lookup(
    s: Seq<EntryView>,
    p: Seq<char>,
    f: Seq<char>,
    stamp: u64,
) -> Seq<EntryView> {
    if !holds_path(s, p) {
        s
    } else if entry_of(s, p).fingerprint == f {
        upsert(s, EntryView { last_accessed: stamp, ..entry_of(s, p) })
    } else {
        without(s, p)
    }
}

/// A lookup's result as `get` reports it: only a hit carries a value.
pub open spec fn found(l: Lookup) -> Option<CachedMetadata> {
    match l {
        Lookup::Hit(m) => Some(m),
        _ => None,
    }
}

/// The records after a write of these fields at access time `stamp` into a
/// cache of capacity `cap`.
pub open spec fn after_set(
    s: Seq<EntryView>,
    cap: nat,
    path: Seq<char>,
    fingerprint: Seq<char>,
    width: u32,
    height: u32,
    file_size: u64,
    stamp: u64,
) -> Seq<EntryView> {
    evict(upsert(s, entry(path, fingerprint, width, height, file_size, stamp)), cap)
}

/// The records and latest access time of a cache of capacity `cap` that
/// started empty and was written `rows` in order, each at its own access time.
pub open spec fn replay(rows: Seq<EntryView>, cap: nat) -> (Seq<EntryView>, u64)
    decreases rows.len(),
{
    if rows.len() == 0 {
        (Seq::empty(), 0)
    } else {
        let (s, clock) = replay(rows.drop_last(), cap);
        let r = rows.last();
        let stamp = next_stamp(clock, r.last_accessed);
        (after_set(s, cap, r.path, r.fingerprint, r.width, r.height, r.file_size, stamp), stamp)
    }
}

/// The record that a write of these fields at access time `stamp` stores.
pub open spec fn entry(
    path: Seq<char>,
    fingerprint: Seq<char>,
    width: u32,
    height: u32,
    file_size: u64,
    stamp: u64,
) -> EntryView {
    EntryView { path, fingerprint, width, height, file_size, last_accessed: stamp }
}

/// Taking out a path that occurs at index `i` of a sequence with unique paths
/// removes exactly that index, and that index holds the path's record.
proof fn lemma_without_index(s: Seq<EntryView>, p: Seq<char>, i: int)
    requires
        unique_paths(s),
        0 <= i < s.len(),
        s[i].path == p,
    ensures
        without(s, p) == s.remove(i),
        entry_of(s, p) == s[i],
{
    let pre = s.subrange(0, i);
    let mid = seq![s[i]];
    let post = s.subrange(i + 1, s.len() as int);
    assert(s =~= pre + mid + post);
    lemma_without_absent(pre, p);
    lemma_without_absent(post, p);
    let pred = |e: EntryView| e.path != p;
    Seq::filter_distributes_over_add(pre + mid, post, pred);
    Seq::filter_distributes_over_add(pre, mid, pred);
    reveal_with_fuel(Seq::filter, 2);
    assert(mid.drop_last() =~= Seq::<EntryView>::empty());
    assert(mid.filter(pred) =~= Seq::<EntryView>::empty());
    assert(s.remove(i) =~= pre + post);
    let k = choose|k: int| 0 <= k < s.len() && #[trigger] s[k].path == p;
    assert(k == i);
}

/// Taking out a path that no record has leaves the sequence as it is.
proof fn lemma_without_absent(s: Seq<EntryView>, p: Seq<char>)
    requires
        forall|k: int| 0 <= k < s.len() ==> #[trigger] s[k].path != p,
    ensures
        without(s, p) == s,
    decreases s.len(),
{
    reveal(Seq::filter);
    if s.len() > 0 {
        lemma_without_absent(s.drop_last(), p);
        assert(s.drop_last().push(s.last()) =~= s);
    }
}


/// Modulus of the path hash: the largest prime below 2^32.
pub const HASH_MODULUS: u64 = 4294967291;

/// Polynomial hash of a byte string, modulo [`HASH_MODULUS`].
pub open spec fn bytes_hash(b: Seq<u8>) -> u64
    decreases b.len(),
{
    if b.len() == 0 {
        0
    } else {
        ((bytes_hash(b.drop_last()) as int * 257 + b.last() as int + 1) % (HASH_MODULUS as int)) as u64
    }
}

/// Hash of a path, computed over its UTF-8 bytes. Equal paths have equal
/// hashes, so a differing hash rules a record out without comparing paths.
pub open spec fn path_hash(p: Seq<char>) -> u64 {
    bytes_hash(encode_utf8(p))
}

/// Computes [`path_hash`].
pub fn hash_path(path: &str) -> (h: u64)
    ensures
        h == path_hash(path@),
{
    let b = path.as_bytes();
    let n = b.len();
    let mut h: u64 = 0;
    let mut i: usize = 0;
    while i < n
        invariant
            n == b@.len(),
            b@ == encode_utf8(path@),
            i <= n,
            h == bytes_hash(b@.subrange(0, i as int)),
            h < HASH_MODULUS,
        decreases n - i,
    {
        assert(b@.subrange(0, i + 1).drop_last() =~= b@.subrange(0, i as int));
        h = (h * 257 + b[i] as u64 + 1) % HASH_MODULUS;
        i = i + 1;
    }
    assert(b@.subrange(0, n as int) =~= b@);
    h
}

/// A bounded cache of image metadata keyed by file path.
pub struct MetadataCache {
    records: Vec<CacheRecord>,
    hashes: Vec<u64>,
    max_entries: usize,
    clock: u64,
}

impl View for MetadataCache {
    type V = Seq<EntryView>;

    /// The records, least recently used first.
    closed spec fn view(&self) -> Seq<EntryView> {
        self.records@.map_values(|r: CacheRecord| r@)
    }
}

impl MetadataCache {
    /// The most records the cache keeps.
    pub closed spec fn capacity(&self) -> nat {
        self.max_entries as nat
    }

    /// The latest access time the cache has handed out.
    pub closed spec fn latest_stamp(&self) -> u64 {
        self.clock
    }

    /// Paths are unique, records are in access-time order, none is later
    /// than the clock, and there are no more than `capacity` of them.
    pub closed spec fn wf(&self) -> bool {
        &&& unique_paths(self@)
        &&& oldest_first(self@)
        &&& forall|i: int| 0 <= i < self@.len() ==> #[trigger] self@[i].last_accessed <= self.clock
        &&& self@.len() <= self.max_entries
        &&& self.hashes@.len() == self.records@.len()
        &&& forall|i: int| 0 <= i < self@.len() ==> #[trigger] self.hashes@[i] == path_hash(self@[i].path)
    }

    /// An empty cache that keeps at most `max_entries` records.
    pub fn new(max_entries: usize) -> (c: Self)
        ensures
            c.wf(),
            c@ == Seq::<EntryView>::empty(),
            c.capacity() == max_entries,
            c.latest_stamp() == 0,
    {
        let c = MetadataCache { records: Vec::new(), hashes: Vec::new(), max_entries, clock: 0 };
        assert(c@ =~= Seq::<EntryView>::empty());
        c
    }

    /// Index of the record for `path`, if there is one.
    fn find(&self, path: &String, hash: u64) -> (r: Option<usize>)
        requires
            self.wf(),
            hash == path_hash(path@),
        ensures
            match r {
                None => !holds_path(self@, path@),
                Some(i) => i < self@.len() && self@[i as int].path == path@,
            },
    {
        let n = self.records.len();
        let mut i: usize = 0;
        while i < n
            invariant
                self.wf(),
                hash == path_hash(path@),
                n == self@.len(),
                i <= n,
                forall|k: int| 0 <= k < i ==> #[trigger] self@[k].path != path@,
            decreases n - i,
        {
            assert(self.hashes@[i as int] == path_hash(self@[i as int].path));
            if self.hashes[i] == hash && self.records[i].file_path == *path {
                return Some(i);
            }
            i = i + 1;
        }
        None
    }

    /// Looks up `file_path` at wall-clock time `now`.
    ///
    /// With no record for the path nothing changes and the result is a miss.
    /// A record under the same fingerprint is a hit: it becomes the most
    /// recent record, with access time `next_stamp(latest_stamp, now)`.
    /// A record under another fingerprint is stale: it is removed.
    pub fn lookup(&mut self, file_path: &str, last_modified: &str, now: u64) -> (r: Lookup)
        requires
            old(self).wf(),
        ensures
            final(self).wf(),
            final(self).capacity() == old(self).capacity(),
            r == lookup_outcome(old(self)@, file_path@, last_modified@),
            final(self)@ == after_lookup(
                old(self)@,
                file_path@,
                last_modified@,
                next_stamp(old(self).latest_stamp(), now),
            ),
            final(self).latest_stamp() == (if r is Hit {
                next_stamp(old(self).latest_stamp(), now)
            } else {
                old(self).latest_stamp()
            }),
    {
        let key = file_path.to_owned();
        let fingerprint = last_modified.to_owned();
        let hash = hash_path(file_path);
        match self.find(&key, hash) {
            None => Lookup::Miss,
            Some(i) => {
                proof {
                    lemma_without_index(self@, key@, i as int);
                }
                if self.records[i].fingerprint == fingerprint {
                    let ghost before = self@;
                    let mut rec = self.records.remove(i);
                    let h = self.hashes.remove(i);
                    let stamp = if now > self.clock { now } else { self.clock };
                    rec.last_accessed = stamp;
                    self.clock = stamp;
                    let meta = CachedMetadata {
                        width: rec.width,
                        height: rec.height,
                        file_size: rec.file_size,
                    };
                    self.records.push(rec);
                    self.hashes.push(h);
                    proof {
                        assert(self@ =~= before.remove(i as int).push(rec@));
                    }
                    Lookup::Hit(meta)
                } else {
                    let ghost before = self@;
                    self.records.remove(i);
                    self.hashes.remove(i);
                    proof {
                        assert(self@ =~= before.remove(i as int));
                    }
                    Lookup::Stale
                }
            },
        }
    }

    /// Stores a record for `file_path` at wall-clock time `now`, replacing
    /// any record of that path, then evicts the least recently used records
    /// beyond the capacity. Returns the paths of the evicted records, oldest
    /// first. The new record is evicted only when the capacity is zero.
    pub fn set(
        &mut self,
        file_path: &str,
        last_modified: &str,
        width: u32,
        height: u32,
        file_size: u64,
        now: u64,
    ) -> (dropped: Vec<String>)
        requires
            old(self).wf(),
        ensures
            final(self).wf(),
            final(self).capacity() == old(self).capacity(),
            final(self).latest_stamp() == next_stamp(old(self).latest_stamp(), now),
            final(self)@.len() <= final(self).capacity(),
            ({
                let stamp = next_stamp(old(self).latest_stamp(), now);
                let up = upsert(
                    old(self)@,
                    entry(file_path@, last_modified@, width, height, file_size, stamp),
                );
                &&& final(self)@ == after_set(
                    old(self)@,
                    old(self).capacity(),
                    file_path@,
                    last_modified@,
                    width,
                    height,
                    file_size,
                    stamp,
                )
                &&& string_views(dropped@) == paths_of(evicted(up, old(self).capacity()))
            }),
    {
        let key = file_path.to_owned();
        let hash = hash_path(file_path);
        let stamp = if now > self.clock { now } else { self.clock };
        let ghost before = self@;
        match self.find(&key, hash) {
            None => {
                proof {
                    lemma_without_absent(before, key@);
                }
            },
            Some(i) => {
                proof {
                    lemma_without_index(before, key@, i as int);
                }
                self.records.remove(i);
                self.hashes.remove(i);
                proof {
                    assert(self@ =~= before.remove(i as int));
                }
            },
        }
        self.store(key, last_modified.to_owned(), width, height, file_size, stamp, hash)
    }

    /// Appends a record for a path that the cache does not hold, as the most
    /// recent one, then evicts beyond the capacity.
    fn store(
        &mut self,
        key: String,
        fingerprint: String,
        width: u32,
        height: u32,
        file_size: u64,
        stamp: u64,
        hash: u64,
    ) -> (dropped: Vec<String>)
        requires
            old(self).wf(),
            !holds_path(old(self)@, key@),
            stamp >= old(self).latest_stamp(),
            hash == path_hash(key@),
        ensures
            final(self).wf(),
            final(self).capacity() == old(self).capacity(),
            final(self).latest_stamp() == stamp,
            ({
                let up = old(self)@.push(entry(key@, fingerprint@, width, height, file_size, stamp));
                &&& final(self)@ == evict(up, old(self).capacity())
                &&& string_views(dropped@) == paths_of(evicted(up, old(self).capacity()))
            }),
    {
        let ghost e = entry(key@, fingerprint@, width, height, file_size, stamp);
        let ghost before = self@;
        self.clock = stamp;
        self.records.push(
            CacheRecord { file_path: key, fingerprint, width, height, file_size, last_accessed: stamp },
        );
        self.hashes.push(hash);
        let ghost up = self@;
        assert(up =~= before.push(e));
        let mut dropped: Vec<String> = Vec::new();
        if self.records.len() > self.max_entries {
            let excess = self.records.len() - self.max_entries;
            let mut kept = self.records.split_off(excess);
            std::mem::swap(&mut self.records, &mut kept);
            let mut kept_hashes = self.hashes.split_off(excess);
            std::mem::swap(&mut self.hashes, &mut kept_hashes);
            assert(self@ =~= up.subrange(excess as int, up.len() as int));
            let ghost gone = kept@.map_values(|r: CacheRecord| r@);
            assert(gone =~= up.subrange(0, excess as int));
            let mut j: usize = 0;
            while j < excess
                invariant
                    excess == kept@.len(),
                    gone == kept@.map_values(|r: CacheRecord| r@),
                    j <= excess,
                    string_views(dropped@) =~= paths_of(gone.subrange(0, j as int)),
                decreases excess - j,
            {
                let ghost prev = dropped@;
                let name = kept[j].file_path.clone();
                dropped.push(name);
                assert(string_views(dropped@) =~= string_views(prev).push(kept@[j as int].file_path@));
                j = j + 1;
                assert(gone.subrange(0, j as int) =~= gone.subrange(0, j - 1).push(gone[j - 1]));
            }
            assert(gone.subrange(0, excess as int) =~= gone);
        } else {
            assert(string_views(dropped@) =~= Seq::<Seq<char>>::empty());
        }
        dropped
    }

    /// Cached width, height and size of `file_path` if its record carries
    /// the fingerprint `last_modified`, looked up at wall-clock time `now`.
    /// A stale record is removed; a hit refreshes the record's recency.
    pub fn get(&mut self, file_path: &str, last_modified: &str, now: u64) -> (r: Option<
        CachedMetadata,
    >)
        requires
            old(self).wf(),
        ensures
            final(self).wf(),
            final(self).capacity() == old(self).capacity(),
            r == found(lookup_outcome(old(self)@, file_path@, last_modified@)),
            final(self)@ == after_lookup(
                old(self)@,
                file_path@,
                last_modified@,
                next_stamp(old(self).latest_stamp(), now),
            ),
            final(self).latest_stamp() == (if r is Some {
                next_stamp(old(self).latest_stamp(), now)
            } else {
                old(self).latest_stamp()
            }),
    {
        match self.lookup(file_path, last_modified, now) {
            Lookup::Hit(m) => Some(m),
            _ => None,
        }
    }

    /// The latest access time handed out; after a hit or a write it is the
    /// access time of the record touched.
    pub fn latest_access(&self) -> (t: u64)
        ensures
            t == self.latest_stamp(),
    {
        self.clock
    }

    /// Number of records and capacity.
    pub fn get_stats(&self) -> (st: CacheStats)
        requires
            self.wf(),
        ensures
            st.entry_count == self@.len(),
            st.max_entries == self.capacity(),
            st.entry_count <= st.max_entries,
    {
        CacheStats { entry_count: self.records.len(), max_entries: self.max_entries }
    }

    /// Removes every record.
    pub fn clear(&mut self)
        requires
            old(self).wf(),
        ensures
            final(self).wf(),
            final(self)@ == Seq::<EntryView>::empty(),
            final(self).capacity() == old(self).capacity(),
            final(self).latest_stamp() == old(self).latest_stamp(),
    {
        self.records = Vec::new();
        self.hashes = Vec::new();
        assert(self@ =~= Seq::<EntryView>::empty());
    }

    /// A copy of every record, least recently used first.
    pub fn records(&self) -> (rows: Vec<CacheRecord>)
        requires
            self.wf(),
        ensures
            rows@.map_values(|r: CacheRecord| r@) == self@,
    {
        let mut rows: Vec<CacheRecord> = Vec::new();
        let n = self.records.len();
        let mut i: usize = 0;
        while i < n
            invariant
                n == self@.len(),
                i <= n,
                rows@.map_values(|r: CacheRecord| r@) =~= self@.subrange(0, i as int),
            decreases n - i,
        {
            let r = &self.records[i];
            let copy = CacheRecord {
                file_path: r.file_path.clone(),
                fingerprint: r.fingerprint.clone(),
                width: r.width,
                height: r.height,
                file_size: r.file_size,
                last_accessed: r.last_accessed,
            };
            let ghost prev = rows@;
            rows.push(copy);
            assert(rows@.map_values(|r: CacheRecord| r@) =~= prev.map_values(|r: CacheRecord| r@).push(
                copy@,
            ));
            i = i + 1;
            assert(self@.subrange(0, i as int) =~= self@.subrange(0, i - 1).push(self@[i - 1]));
        }
        assert(self@.subrange(0, n as int) =~= self@);
        rows
    }

    /// A cache of capacity `max_entries` into which `rows` were written in
    /// order, each at its own access time: duplicates keep the later row, and
    /// beyond the capacity the least recently used rows are dropped.
    pub fn restore(max_entries: usize, rows: &Vec<CacheRecord>) -> (c: Self)
        ensures
            c.wf(),
            c.capacity() == max_entries,
            (c@, c.latest_stamp()) == replay(rows@.map_values(|r: CacheRecord| r@), max_entries as nat),
    {
        broadcast use vstd::std_specs::hash::group_hash_axioms;

        let ghost all = rows@.map_values(|r: CacheRecord| r@);
        let mut c = MetadataCache::new(max_entries);
        // Hashes of every path written so far: a path whose hash is not in
        // it cannot be in the cache, which spares the search.
        let mut seen: HashSet<u64> = HashSet::new();
        let n = rows.len();
        let mut i: usize = 0;
        while i < n
            invariant
                n == all.len(),
                all == rows@.map_values(|r: CacheRecord| r@),
                i <= n,
                c.wf(),
                c.capacity() == max_entries,
                (c@, c.latest_stamp()) == replay(all.subrange(0, i as int), max_entries as nat),
                forall|k: int| 0 <= k < c@.len() ==> seen@.contains(path_hash(#[trigger] c@[k].path)),
            decreases n - i,
        {
            let r = &rows[i];
            let ghost s = c@;
            let ghost e = entry(
                r.file_path@,
                r.fingerprint@,
                r.width,
                r.height,
                r.file_size,
                next_stamp(c.clock, r.last_accessed),
            );
            let h = hash_path(r.file_path.as_str());
            proof {
                lemma_set_members(s, max_entries as nat, e);
            }
            if seen.contains(&h) {
                c.set(
                    r.file_path.as_str(),
                    r.fingerprint.as_str(),
                    r.width,
                    r.height,
                    r.file_size,
                    r.last_accessed,
                );
            } else {
                proof {
                    assert forall|k: int| 0 <= k < s.len() implies #[trigger] s[k].path != r.file_path@ by {
                        assert(seen@.contains(path_hash(s[k].path)));
                    }
                    lemma_without_absent(s, r.file_path@);
                }
                let stamp = if r.last_accessed > c.clock { r.last_accessed } else { c.clock };
                c.store(
                    r.file_path.clone(),
                    r.fingerprint.clone(),
                    r.width,
                    r.height,
                    r.file_size,
                    stamp,
                    h,
                );
            }
            seen.insert(h);
            proof {
                let t = c@;
                assert forall|k: int| 0 <= k < t.len() implies seen@.contains(path_hash(#[trigger] t[k].path)) by {
                    if t[k] != e {
                        let j = choose|j: int| 0 <= j < s.len() && s[j] == t[k];
                        assert(seen@.contains(path_hash(s[j].path)));
                    }
                }
            }
            i = i + 1;
            assert(all.subrange(0, i as int).drop_last() =~= all.subrange(0, i - 1));
        }
        assert(all.subrange(0, n as int) =~= all);
        c
    }
}

} // verus!

verus! {

/// Every record left after a write is the written one or was there before.
proof fn lemma_set_members(s: Seq<EntryView>, cap: nat, e: EntryView)
    requires
        unique_paths(s),
    ensures
        forall|k: int|
            0 <= k < evict(upsert(s, e), cap).len() ==> #[trigger] evict(upsert(s, e), cap)[k] == e
                || s.contains(evict(upsert(s, e), cap)[k]),
{
    let up = upsert(s, e);
    let r = evict(up, cap);
    let rest = without(s, e.path);
    if holds_path(s, e.path) {
        let i = choose|i: int| 0 <= i < s.len() && #[trigger] s[i].path == e.path;
        lemma_without_index(s, e.path, i);
    } else {
        lemma_without_absent(s, e.path);
    }
    assert forall|k: int| 0 <= k < r.len() implies #[trigger] r[k] == e || s.contains(r[k]) by {
        let m = k + (up.len() - r.len());
        assert(r[k] == up[m]);
        if m < up.len() - 1 {
            assert(up[m] == rest[m]);
            if holds_path(s, e.path) {
                let i = choose|i: int| 0 <= i < s.len() && #[trigger] s[i].path == e.path;
                if m < i {
                    assert(rest[m] == s[m]);
                } else {
                    assert(rest[m] == s[m + 1]);
                }
            } else {
                assert(rest[m] == s[m]);
            }
        }
    }
}

/// A record replaced by `upsert` occurs once, as the most recent record.
proof fn lemma_upsert(s: Seq<EntryView>, e: EntryView)
    requires
        unique_paths(s),
    ensures
        unique_paths(upsert(s, e)),
        upsert(s, e).last() == e,
        upsert(s, e).drop_last() == without(s, e.path),
        forall|k: int| 0 <= k < without(s, e.path).len() ==> #[trigger] without(s, e.path)[k].path != e.path,
        holds_path(s, e.path) ==> upsert(s, e).len() == s.len(),
        !holds_path(s, e.path) ==> upsert(s, e).len() == s.len() + 1,
{
    let up = upsert(s, e);
    if holds_path(s, e.path) {
        let i = choose|i: int| 0 <= i < s.len() && #[trigger] s[i].path == e.path;
        lemma_without_index(s, e.path, i);
    } else {
        lemma_without_absent(s, e.path);
    }
    assert(up.drop_last() =~= without(s, e.path));
}

/// Eviction keeps a suffix, and with it the uniqueness of paths.
proof fn lemma_evict(s: Seq<EntryView>, cap: nat)
    requires
        unique_paths(s),
    ensures
        unique_paths(evict(s, cap)),
        s.len() <= cap ==> evict(s, cap) == s,
        s.len() > cap ==> evict(s, cap).len() == cap,
        evict(s, cap).len() <= s.len(),
        cap >= 1 && s.len() >= 1 ==> evict(s, cap).len() >= 1 && evict(s, cap).last() == s.last(),
        evicted(s, cap) + evict(s, cap) == s,
{
    assert(evicted(s, cap) + evict(s, cap) =~= s);
}

/// The record just written is the most recent one and the only one of its
/// path, as long as the capacity is not zero.
proof fn lemma_after_set(
    s: Seq<EntryView>,
    cap: nat,
    p: Seq<char>,
    f: Seq<char>,
    w: u32,
    h: u32,
    z: u64,
    stamp: u64,
)
    requires
        unique_paths(s),
    ensures
        unique_paths(after_set(s, cap, p, f, w, h, z, stamp)),
        cap >= 1 ==> {
            let s1 = after_set(s, cap, p, f, w, h, z, stamp);
            &&& s1.len() >= 1
            &&& s1.last() == entry(p, f, w, h, z, stamp)
            &&& holds_path(s1, p)
            &&& entry_of(s1, p) == entry(p, f, w, h, z, stamp)
        },
{
    let e = entry(p, f, w, h, z, stamp);
    lemma_upsert(s, e);
    let up = upsert(s, e);
    lemma_evict(up, cap);
    let s1 = after_set(s, cap, p, f, w, h, z, stamp);
    if cap >= 1 {
        let last = s1.len() - 1;
        assert(s1[last].path == p);
        lemma_without_index(s1, p, last);
    }
}

/// Hit after set: a lookup of a path under the fingerprint it was just
/// written with returns the written width, height and size, whenever the
/// cache can hold a record at all.
pub proof fn lemma_hit_after_set(
    s: Seq<EntryView>,
    cap: nat,
    p: Seq<char>,
    f: Seq<char>,
    w: u32,
    h: u32,
    z: u64,
    stamp: u64,
)
    requires
        unique_paths(s),
        cap >= 1,
    ensures
        lookup_outcome(after_set(s, cap, p, f, w, h, z, stamp), p, f) == Lookup::Hit(
            CachedMetadata { width: w, height: h, file_size: z },
        ),
{
    lemma_after_set(s, cap, p, f, w, h, z, stamp);
}

/// Invalidation on fingerprint change: after a write under `t1`, a lookup
/// under another fingerprint `t2` finds nothing, and neither does a later
/// lookup under `t1`, because the stale record was deleted.
pub proof fn lemma_invalidation(
    s: Seq<EntryView>,
    cap: nat,
    p: Seq<char>,
    t1: Seq<char>,
    t2: Seq<char>,
    w: u32,
    h: u32,
    z: u64,
    stamp1: u64,
    stamp2: u64,
)
    requires
        unique_paths(s),
        t1 != t2,
    ensures
        ({
            let s1 = after_set(s, cap, p, t1, w, h, z, stamp1);
            &&& found(lookup_outcome(s1, p, t2)) == None::<CachedMetadata>
            &&& lookup_outcome(after_lookup(s1, p, t2, stamp2), p, t1) == Lookup::Miss
        }),
{
    lemma_after_set(s, cap, p, t1, w, h, z, stamp1);
    let s1 = after_set(s, cap, p, t1, w, h, z, stamp1);
    if holds_path(s1, p) {
        let i = choose|i: int| 0 <= i < s1.len() && #[trigger] s1[i].path == p;
        lemma_without_index(s1, p, i);
        if cap >= 1 {
            assert(entry_of(s1, p).fingerprint == t1);
        } else {
            assert(s1.len() == 0);
        }
        let s2 = after_lookup(s1, p, t2, stamp2);
        assert(s2 == s1.remove(i));
        assert forall|k: int| 0 <= k < s2.len() implies #[trigger] s2[k].path != p by {
            if k < i {
                assert(s2[k] == s1[k]);
            } else {
                assert(s2[k] == s1[k + 1]);
            }
        }
    }
}

/// Miss on unknown path: a lookup of a path that no record has finds
/// nothing and changes nothing.
pub proof fn lemma_miss_on_unknown_path(s: Seq<EntryView>, p: Seq<char>, f: Seq<char>, stamp: u64)
    requires
        !holds_path(s, p),
    ensures
        lookup_outcome(s, p, f) == Lookup::Miss,
        found(lookup_outcome(s, p, f)) == None::<CachedMetadata>,
        after_lookup(s, p, f, stamp) == s,
{
}

/// Capacity bound: however many writes a cache of capacity `cap` receives,
/// it never holds more than `cap` records.
pub proof fn lemma_capacity_bound(rows: Seq<EntryView>, cap: nat)
    ensures
        replay(rows, cap).0.len() <= cap,
    decreases rows.len(),
{
    if rows.len() > 0 {
        lemma_capacity_bound(rows.drop_last(), cap);
    }
}

/// Idempotent re-set: writing the same fields for a path twice leaves
/// exactly one record for it, with those fields, and the other records as
/// the first write left them.
pub proof fn lemma_idempotent_set(
    s: Seq<EntryView>,
    cap: nat,
    p: Seq<char>,
    f: Seq<char>,
    w: u32,
    h: u32,
    z: u64,
    stamp1: u64,
    stamp2: u64,
)
    requires
        unique_paths(s),
        cap >= 1,
    ensures
        ({
            let s1 = after_set(s, cap, p, f, w, h, z, stamp1);
            let s2 = after_set(s1, cap, p, f, w, h, z, stamp2);
            &&& unique_paths(s2)
            &&& holds_path(s2, p)
            &&& entry_of(s2, p) == entry(p, f, w, h, z, stamp2)
            &&& s2.len() == s1.len()
            &&& without(s2, p) == without(s1, p)
        }),
{
    lemma_after_set(s, cap, p, f, w, h, z, stamp1);
    let s1 = after_set(s, cap, p, f, w, h, z, stamp1);
    lemma_after_set(s1, cap, p, f, w, h, z, stamp2);
    let e2 = entry(p, f, w, h, z, stamp2);
    lemma_upsert(s1, e2);
    lemma_upsert(s, entry(p, f, w, h, z, stamp1));
    lemma_evict(upsert(s, entry(p, f, w, h, z, stamp1)), cap);
    assert(s1.len() <= cap);
    let s2 = after_set(s1, cap, p, f, w, h, z, stamp2);
    assert(s2 == upsert(s1, e2));
    lemma_upsert(s2, e2);
    assert(without(s2, p) == s2.drop_last()) by {
        let last = s2.len() - 1;
        lemma_without_index(s2, p, last);
        assert(s2.remove(last) =~= s2.drop_last());
    }
}

/// Least-recently-used eviction: every record that a write evicts was
/// accessed no later than every record that it keeps.
pub proof fn lemma_evicts_least_recent(
    c: MetadataCache,
    p: Seq<char>,
    f: Seq<char>,
    w: u32,
    h: u32,
    z: u64,
    stamp: u64,
)
    requires
        c.wf(),
        stamp >= c.latest_stamp(),
    ensures
        ({
            let up = upsert(c@, entry(p, f, w, h, z, stamp));
            let gone = evicted(up, c.capacity());
            let kept = evict(up, c.capacity());
            forall|i: int, j: int|
                0 <= i < gone.len() && 0 <= j < kept.len() ==> #[trigger] gone[i].last_accessed
                    <= #[trigger] kept[j].last_accessed
        }),
{
    let s = c@;
    let e = entry(p, f, w, h, z, stamp);
    let rest = without(s, p);
    if holds_path(s, p) {
        let i = choose|i: int| 0 <= i < s.len() && #[trigger] s[i].path == p;
        lemma_without_index(s, p, i);
        assert forall|a: int, b: int| 0 <= a <= b < rest.len() implies #[trigger] rest[a].last_accessed
            <= #[trigger] rest[b].last_accessed by {
            let a0 = if a < i { a } else { a + 1 };
            let b0 = if b < i { b } else { b + 1 };
            assert(rest[a] == s[a0]);
            assert(rest[b] == s[b0]);
        }
        assert forall|a: int| 0 <= a < rest.len() implies #[trigger] rest[a].last_accessed <= stamp by {
            let a0 = if a < i { a } else { a + 1 };
            assert(rest[a] == s[a0]);
        }
    } else {
        lemma_without_absent(s, p);
    }
    let up = upsert(s, e);
    assert(oldest_first(up)) by {
        assert forall|a: int, b: int| 0 <= a <= b < up.len() implies #[trigger] up[a].last_accessed
            <= #[trigger] up[b].last_accessed by {
            if b == up.len() - 1 {
                if a < b {
                    assert(up[a] == rest[a]);
                }
            } else {
                assert(up[a] == rest[a]);
                assert(up[b] == rest[b]);
            }
        }
    }
    let cap = c.capacity();
    if up.len() > cap {
        let cut = up.len() - cap;
        let gone = evicted(up, cap);
        let kept = evict(up, cap);
        assert forall|i: int, j: int| 0 <= i < gone.len() && 0 <= j < kept.len() implies #[trigger] gone[i].last_accessed
            <= #[trigger] kept[j].last_accessed by {
            assert(gone[i] == up[i]);
            assert(kept[j] == up[cut + j]);
        }
    }
}

/// Restoring a cache from the records it exported rebuilds the same records
/// in the same order, so every lookup on the restored cache finds what it
/// would have found on the original.
pub proof fn lemma_restore_round_trip(c: MetadataCache)
    requires
        c.wf(),
    ensures
        replay(c@, c.capacity()).0 == c@,
{
    lemma_replay_evicts(c@, c.capacity());
}

/// What a well-formed cache guarantees of its records: no path occurs
/// twice, access times never decrease from the oldest record to the most
/// recent one, none is later than the latest access time handed out, and
/// there are no more records than the capacity.
pub proof fn lemma_wf_properties(c: MetadataCache)
    requires
        c.wf(),
    ensures
        unique_paths(c@),
        oldest_first(c@),
        forall|i: int| 0 <= i < c@.len() ==> #[trigger] c@[i].last_accessed <= c.latest_stamp(),
        c@.len() <= c.capacity(),
{
}

/// Access times never go back: a write at access time `stamp` no earlier
/// than the latest one leaves a well-formed record sequence whose records
/// are all stamped no later than `stamp`.
proof fn lemma_after_set_ordered(
    c: MetadataCache,
    p: Seq<char>,
    f: Seq<char>,
    w: u32,
    h: u32,
    z: u64,
    stamp: u64,
)
    requires
        c.wf(),
        stamp >= c.latest_stamp(),
    ensures
        unique_paths(after_set(c@, c.capacity(), p, f, w, h, z, stamp)),
        oldest_first(after_set(c@, c.capacity(), p, f, w, h, z, stamp)),
{
    lemma_evicts_least_recent(c, p, f, w, h, z, stamp);
    lemma_after_set(c@, c.capacity(), p, f, w, h, z, stamp);
    let up = upsert(c@, entry(p, f, w, h, z, stamp));
    let s1 = after_set(c@, c.capacity(), p, f, w, h, z, stamp);
    let off = up.len() - s1.len();
    assert(oldest_first(up)) by {
        lemma_upsert_ordered(c, entry(p, f, w, h, z, stamp));
    }
    assert forall|a: int, b: int| 0 <= a <= b < s1.len() implies #[trigger] s1[a].last_accessed
        <= #[trigger] s1[b].last_accessed by {
        assert(s1[a] == up[a + off]);
        assert(s1[b] == up[b + off]);
    }
}

/// A write stamped no earlier than every record keeps access times in order.
proof fn lemma_upsert_ordered(c: MetadataCache, e: EntryView)
    requires
        c.wf(),
        e.last_accessed >= c.latest_stamp(),
    ensures
        oldest_first(upsert(c@, e)),
{
    let s = c@;
    let p = e.path;
    let rest = without(s, p);
    if holds_path(s, p) {
        let i = choose|i: int| 0 <= i < s.len() && #[trigger] s[i].path == p;
        lemma_without_index(s, p, i);
        assert forall|a: int| 0 <= a < rest.len() implies #[trigger] rest[a] == s[if a < i { a } else { a + 1 }] by {}
    } else {
        lemma_without_absent(s, p);
    }
    let up = upsert(s, e);
    assert forall|a: int, b: int| 0 <= a <= b < up.len() implies #[trigger] up[a].last_accessed
        <= #[trigger] up[b].last_accessed by {
        if b < up.len() - 1 {
            assert(up[a] == rest[a]);
            assert(up[b] == rest[b]);
        } else if a < b {
            assert(up[a] == rest[a]);
        }
    }
}

/// Writing, one by one into an empty cache of capacity `cap`, records whose
/// paths are unique and whose access times never decrease keeps the `cap`
/// most recent of them.
proof fn lemma_replay_evicts(s: Seq<EntryView>, cap: nat)
    requires
        unique_paths(s),
        oldest_first(s),
    ensures
        replay(s, cap) == (evict(s, cap), if s.len() == 0 { 0u64 } else { s.last().last_accessed }),
    decreases s.len(),
{
    if s.len() > 0 {
        let prev = s.drop_last();
        let r = s.last();
        assert forall|i: int, j: int|
            0 <= i < prev.len() && 0 <= j < prev.len() && i != j implies #[trigger] prev[i].path
            != #[trigger] prev[j].path by {
            assert(prev[i] == s[i] && prev[j] == s[j]);
        }
        assert forall|i: int, j: int| 0 <= i <= j < prev.len() implies #[trigger] prev[i].last_accessed
            <= #[trigger] prev[j].last_accessed by {
            assert(prev[i] == s[i] && prev[j] == s[j]);
        }
        lemma_replay_evicts(prev, cap);
        if prev.len() > 0 {
            assert(prev.last() == s[s.len() - 2]);
        }
        let kept = evict(prev, cap);
        let off = prev.len() - kept.len();
        assert forall|k: int| 0 <= k < kept.len() implies #[trigger] kept[k].path != r.path by {
            assert(kept[k] == s[k + off]);
        }
        lemma_without_absent(kept, r.path);
        let e = entry(r.path, r.fingerprint, r.width, r.height, r.file_size, r.last_accessed);
        assert(e == r);
        assert(prev.push(r) =~= s);
        assert(evict(kept.push(r), cap) =~= evict(s, cap));
    }
}

/// Flush durability, as far as the cache's records go: a record just
/// written survives exporting the records and restoring them into a cache
/// of any capacity that can hold a record, and a lookup there under the same
/// fingerprint returns the written width, height and size.
pub proof fn lemma_reopen_after_set(
    c: MetadataCache,
    cap2: nat,
    p: Seq<char>,
    f: Seq<char>,
    w: u32,
    h: u32,
    z: u64,
    stamp: u64,
)
    requires
        c.wf(),
        c.capacity() >= 1,
        cap2 >= 1,
        stamp >= c.latest_stamp(),
    ensures
        lookup_outcome(replay(after_set(c@, c.capacity(), p, f, w, h, z, stamp), cap2).0, p, f)
            == Lookup::Hit(CachedMetadata { width: w, height: h, file_size: z }),
{
    let s1 = after_set(c@, c.capacity(), p, f, w, h, z, stamp);
    lemma_after_set_ordered(c, p, f, w, h, z, stamp);
    lemma_after_set(c@, c.capacity(), p, f, w, h, z, stamp);
    lemma_replay_evicts(s1, cap2);
    lemma_evict(s1, cap2);
    let s2 = evict(s1, cap2);
    let last = s2.len() - 1;
    assert(s2[last] == entry(p, f, w, h, z, stamp));
    lemma_without_index(s2, p, last);
}

} // verus!
