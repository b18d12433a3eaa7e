use vstd::prelude::*;

verus! {

/// How a cached score bounds the true one.
#[derive(Debug, Clone, Copy, PartialEq, Eq, Structural)]
pub enum CacheBound {
    Exact,
    Lower,
    Upper,
}

/// A cached score, the depth it was searched to, and its bound.
pub type Item = (i32, u16, CacheBound);

/// Caches of search results, keyed by position hash.
pub trait CacheTrait: Sized {
    fn cache_get(&self, z_hash: u64) -> Option<Item>;

    fn cache_insert(&mut self, z_hash: u64, item: Item);

    fn cache_new() -> Self;
}

/// The number of buckets: eight mebibytes of 128-byte buckets.
pub const CACHE_SIZE_ENTRIES: usize = 65536;

/// The number of entries a hash map cache is made for: eight mebibytes of
/// 8-byte items.
pub const CACHE_SIZE_ENTRIES_ITEM: usize = 1048576;

/// A cached item with the full hash it belongs to; a zero key marks an
/// empty slot.
#[derive(Debug, Clone, Copy, PartialEq, Eq, Structural)]
pub struct CacheEntry {
    pub score: i32,
    pub depth: u16,
    pub bound: CacheBound,
    pub key: u64,
}

impl CacheEntry {
    pub fn is_empty(&self) -> (r: bool)
        ensures
            r == (self.key == 0),
    {
        self.key == 0
    }

    pub fn to_item(&self) -> (r: Item)
        ensures
            r == (self.score, self.depth, self.bound),
    {
        (self.score, self.depth, self.bound)
    }

    pub fn from_item(item: Item, key: u64) -> (r: Self)
        ensures
            r == (CacheEntry { score: item.0, depth: item.1, bound: item.2, key }),
    {
        Self { score: item.0, depth: item.1, bound: item.2, key }
    }
}

impl Default for CacheEntry {
    fn default() -> (r: Self)
        ensures
            r == (CacheEntry { score: 0, depth: 0, bound: CacheBound::Exact, key: 0 }),
    {
        Self { score: 0, depth: 0, key: 0, bound: CacheBound::Exact }
    }
}

/// Eight entries sharing a bucket.
#[derive(Debug, Clone, Copy)]
pub struct CacheBucket {
    pub entries: [CacheEntry; 8],
}

impl Default for CacheBucket {
    fn default() -> (r: Self)
        ensures
            forall|i: int| 0 <= i < 8 ==> r.entries[i] == (CacheEntry {
                score: 0,
                depth: 0,
                bound: CacheBound::Exact,
                key: 0,
            }),
    {
        let e = CacheEntry::default();
        CacheBucket { entries: [e, e, e, e, e, e, e, e] }
    }
}

/// The first entry of `b` from slot `i` on whose key is `z`.
pub open spec fn find_from(b: [CacheEntry; 8], z: u64, i: int) -> Option<Item>
    decreases 8 - i,
{
    if i >= 8 || i < 0 {
        None
    } else if b[i].key == z {
        Some((b[i].score, b[i].depth, b[i].bound))
    } else {
        find_from(b, z, i + 1)
    }
}

/// The first empty slot of `b` from slot `i` on.
pub open spec fn first_empty_from(b: [CacheEntry; 8], i: int) -> Option<int>
    decreases 8 - i,
{
    if i >= 8 || i < 0 {
        None
    } else if b[i].key == 0 {
        Some(i)
    } else {
        first_empty_from(b, i + 1)
    }
}

/// The bucket after storing `e` in `b`: in the first empty slot, or, when
/// full, dropping the first entry and rotating the rest one slot right.
pub open spec fn bucket_insert(b: [CacheEntry; 8], e: CacheEntry) -> Seq<CacheEntry> {
    match first_empty_from(b, 0) {
        Some(i) => b@.update(i, e),
        None => seq![b[7], e, b[1], b[2], b[3], b[4], b[5], b[6]],
    }
}

/// A fixed table of buckets indexed by the low bits of the hash.
#[derive(Debug, Clone)]
pub struct Cache {
    pub entries: Vec<CacheBucket>,
}

/// The bucket of hash `z`.
pub open spec fn bucket_index(z: u64) -> int {
    (z % 65536) as int
}

impl Cache {
    pub open spec fn wf(&self) -> bool {
        self.entries@.len() == CACHE_SIZE_ENTRIES
    }

    /// What a lookup of hash `z` finds.
    pub open spec fn lookup(&self, z: u64) -> Option<Item> {
        find_from(self.entries@[bucket_index(z)].entries, z, 0)
    }

    pub fn new() -> (r: Self)
        ensures
            r.wf(),
            forall|i: int, j: int| 0 <= i < CACHE_SIZE_ENTRIES && 0 <= j < 8 ==> (#[trigger] r.entries@[i].entries[j]).key == 0,
    {
        let mut entries: Vec<CacheBucket> = Vec::new();
        let mut n: usize = 0;
        while n < CACHE_SIZE_ENTRIES
            invariant
                n <= CACHE_SIZE_ENTRIES,
                entries@.len() == n,
                forall|i: int, j: int| 0 <= i < n && 0 <= j < 8 ==> (#[trigger] entries@[i].entries[j]).key == 0,
            decreases CACHE_SIZE_ENTRIES - n,
        {
            entries.push(CacheBucket::default());
            n = n + 1;
        }
        Cache { entries }
    }

    fn get_index(z_hash: u64) -> (r: usize)
        ensures
            r == bucket_index(z_hash),
            r < CACHE_SIZE_ENTRIES,
    {
        assert(z_hash & 65535u64 == z_hash % 65536) by (bit_vector);
        (z_hash & 65535u64) as usize
    }

    /// The upper half of a hash.
    pub fn partial_key(z_hash: u64) -> (r: u32)
        ensures
            r == z_hash / 0x1_0000_0000,
    {
        assert(z_hash >> 32u64 == z_hash / 0x1_0000_0000) by (bit_vector);
        (z_hash >> 32) as u32
    }

    /// Stores `item` for hash `z_hash` in its bucket.
    pub fn insert(&mut self, z_hash: u64, item: Item)
        requires
            old(self).wf(),
        ensures
            final(self).wf(),
            final(self).entries@[bucket_index(z_hash)].entries@ == bucket_insert(
                old(self).entries@[bucket_index(z_hash)].entries,
                CacheEntry::from_item_spec(item, z_hash),
            ),
            forall|i: int| 0 <= i < CACHE_SIZE_ENTRIES && i != bucket_index(z_hash) ==> #[trigger] final(self).entries@[i] == old(self).entries@[i],
    {
        let idx = Self::get_index(z_hash);
        let mut bucket = self.entries[idx];
        let ghost ob = bucket.entries;
        let new_entry = CacheEntry::from_item(item, z_hash);
        let mut found: Option<usize> = None;
        let mut i: usize = 0;
        while i < 8
            invariant
                i <= 8,
                bucket.entries == ob,
                first_empty_from(ob, 0) == (if found is Some { first_empty_from(ob, found->0 as int) } else { first_empty_from(ob, i as int) }),
                found matches Some(k) ==> k < 8 && ob[k as int].key == 0,
            decreases 8 - i,
        {
            if found.is_none() && bucket.entries[i].is_empty() {
                found = Some(i);
            }
            i = i + 1;
        }
        match found {
            Some(k) => {
                bucket.entries[k] = new_entry;
                assert(bucket.entries@ =~= bucket_insert(ob, new_entry));
            },
            None => {
                bucket.entries[0] = new_entry;
                let last = bucket.entries[7];
                let mut j: usize = 7;
                while j > 0
                    invariant
                        j <= 7,
                        last == ob[7],
                        forall|k: int| 0 <= k <= j ==> bucket.entries[k] == (if k == 0 { new_entry } else { ob[k] }),
                        forall|k: int| j < k < 8 ==> bucket.entries[k] == (if k == 1 { new_entry } else { ob[k - 1] }),
                    decreases j,
                {
                    bucket.entries[j] = bucket.entries[j - 1];
                    j = j - 1;
                }
                bucket.entries[0] = last;
                assert(bucket.entries@ =~= bucket_insert(ob, new_entry));
            },
        }
        self.entries.set(idx, bucket);
    }

    /// The item stored for hash `z_hash`: the first entry of its bucket with
    /// that key.
    pub fn get(&self, z_hash: u64) -> (r: Option<Item>)
        requires
            self.wf(),
        ensures
            r == self.lookup(z_hash),
    {
        let bucket = &self.entries[Self::get_index(z_hash)];
        let mut i: usize = 0;
        while i < 8
            invariant
                i <= 8,
                self.wf(),
                *bucket == self.entries@[bucket_index(z_hash)],
                find_from(bucket.entries, z_hash, 0) == find_from(bucket.entries, z_hash, i as int),
            decreases 8 - i,
        {
            if bucket.entries[i].key == z_hash {
                return Some(bucket.entries[i].to_item());
            }
            i = i + 1;
        }
        None
    }
}

impl CacheEntry {
    pub open spec fn from_item_spec(item: Item, key: u64) -> CacheEntry {
        CacheEntry { score: item.0, depth: item.1, bound: item.2, key }
    }
}

impl CacheTrait for Cache {
    /// The item the cache holds for `z_hash`; nothing from a cache that
    /// does not have all its buckets.
    fn cache_get(&self, z_hash: u64) -> (r: Option<Item>)
        ensures
            r == (if self.wf() { self.lookup(z_hash) } else { None::<Item> }),
    {
        if self.entries.len() == CACHE_SIZE_ENTRIES {
            self.get(z_hash)
        } else {
            None
        }
    }

    /// Stores `item` for `z_hash` in its bucket; a cache that does not have
    /// all its buckets is left as it is.
    fn cache_insert(&mut self, z_hash: u64, item: Item)
        ensures
            final(self).wf() == old(self).wf(),
            old(self).wf() ==> final(self).entries@[bucket_index(z_hash)].entries@ == bucket_insert(
                old(self).entries@[bucket_index(z_hash)].entries,
                CacheEntry::from_item_spec(item, z_hash),
            ),
            old(self).wf() ==> forall|i: int| 0 <= i < CACHE_SIZE_ENTRIES && i != bucket_index(z_hash) ==> #[trigger] final(self).entries@[i] == old(self).entries@[i],
            !old(self).wf() ==> *final(self) == *old(self),
    {
        if self.entries.len() == CACHE_SIZE_ENTRIES {
            self.insert(z_hash, item);
        }
    }

    /// A cache with all its buckets, every slot empty.
    fn cache_new() -> (r: Self)
        ensures
            r.wf(),
            forall|i: int, j: int| 0 <= i < CACHE_SIZE_ENTRIES && 0 <= j < 8 ==> (#[trigger] r.entries@[i].entries[j]).key == 0,
    {
        Self::new()
    }
}

/// Once stored for a non-zero hash that its bucket did not hold, an item is
/// what a lookup of that hash finds.
pub proof fn law_cache_get_after_insert(c: Cache, c2: Cache, z: u64, item: Item)
    requires
        c.wf(),
        c2.wf(),
        z != 0,
        c.lookup(z) == None::<Item>,
        c2.entries@[bucket_index(z)].entries@ == bucket_insert(
            c.entries@[bucket_index(z)].entries,
            CacheEntry::from_item_spec(item, z),
        ),
    ensures
        c2.lookup(z) == Some(item),
{
    let b = c.entries@[bucket_index(z)].entries;
    let b2 = c2.entries@[bucket_index(z)].entries;
    lemma_find_none(b, z, 0);
    let e = CacheEntry::from_item_spec(item, z);
    match first_empty_from(b, 0) {
        Some(i) => {
            lemma_first_empty(b, 0);
            assert(b2[i] == e);
            lemma_find_at(b2, z, 0, i);
        },
        None => {
            assert(b2[0] == b[7]);
            assert(b2[1] == e);
            lemma_find_at(b2, z, 0, 1);
        },
    }
}

/// A lookup that finds nothing from slot `j` means no key from `j` on matches.
proof fn lemma_find_none(b: [CacheEntry; 8], z: u64, j: int)
    requires
        0 <= j,
        find_from(b, z, j) == None::<Item>,
    ensures
        forall|k: int| j <= k < 8 ==> #[trigger] b[k].key != z,
    decreases 8 - j,
{
    if j < 8 {
        lemma_find_none(b, z, j + 1);
    }
}

/// The first empty slot from `j` on is empty and in range.
proof fn lemma_first_empty(b: [CacheEntry; 8], j: int)
    requires
        0 <= j,
    ensures
        first_empty_from(b, j) matches Some(i) ==> j <= i < 8 && b[i].key == 0,
    decreases 8 - j,
{
    if j < 8 && b[j].key != 0 {
        lemma_first_empty(b, j + 1);
    }
}

/// A lookup from slot `j` finds slot `i` when it is the first match.
proof fn lemma_find_at(b: [CacheEntry; 8], z: u64, j: int, i: int)
    requires
        0 <= j <= i < 8,
        b[i].key == z,
        forall|k: int| j <= k < i ==> #[trigger] b[k].key != z,
    ensures
        find_from(b, z, j) == Some((b[i].score, b[i].depth, b[i].bound)),
    decreases i - j,
{
    if j < i {
        lemma_find_at(b, z, j + 1, i);
    }
}

} // verus!

verus! {

/// The search cache the engine uses: a hash map from position hash to item.
/// Its contents are known to verified code only through `dash_contents`.
#[verifier::external_body]
#[derive(Debug)]
pub struct DashCache {
    map: hashbrown::HashMap<u64, Item, nohash_hasher::BuildNoHashHasher<u64>>,
}

/// The empty cache contents.
pub open spec fn no_items() -> Map<u64, Item> {
    Map::empty()
}

/// What a hash map cache holds, by key.
pub uninterp spec fn dash_contents(c: DashCache) -> Map<u64, Item>;

impl DashCache {
    pub open spec fn view(&self) -> Map<u64, Item> {
        dash_contents(*self)
    }

    /// A lookup in the map's contents.
    pub open spec fn lookup(&self, z: u64) -> Option<Item> {
        if self@.dom().contains(z) {
            Some(self@[z])
        } else {
            None
        }
    }
}

/// Calls `hashbrown::HashMap::with_capacity_and_hasher` with the identity
/// hasher of `nohash_hasher`; the map it returns is empty.
#[verifier::external_body]
fn dash_with_capacity(capacity: usize) -> (r: DashCache)
    requires
        capacity <= CACHE_SIZE_ENTRIES_ITEM,
    ensures
        dash_contents(r) == no_items(),
{
    DashCache {
        map: hashbrown::HashMap::with_capacity_and_hasher(
            capacity,
            nohash_hasher::BuildNoHashHasher::default(),
        ),
    }
}

/// Calls `hashbrown::HashMap::get`, copying the item out: it is the item
/// stored under `z`, if any.
#[verifier::external_body]
fn dash_get(c: &DashCache, z: u64) -> (r: Option<Item>)
    ensures
        r == (if dash_contents(*c).dom().contains(z) {
            Some(dash_contents(*c)[z])
        } else {
            None
        }),
{
    c.map.get(&z).copied()
}

/// Calls `hashbrown::HashMap::insert`: afterwards `z` maps to `item` and
/// every other key keeps its item.
#[verifier::external_body]
fn dash_insert(c: &mut DashCache, z: u64, item: Item)
    ensures
        dash_contents(*final(c)) == dash_contents(*old(c)).insert(z, item),
{
    c.map.insert(z, item);
}

impl DashCache {
    /// The item stored under `z`, if any.
    pub fn get_item(&self, z_hash: u64) -> (r: Option<Item>)
        ensures
            r == self.lookup(z_hash),
    {
        dash_get(self, z_hash)
    }

    /// Stores `item` under `z`, replacing what was there.
    pub fn insert_item(&mut self, z_hash: u64, item: Item)
        ensures
            final(self)@ == old(self)@.insert(z_hash, item),
    {
        dash_insert(self, z_hash, item)
    }

    /// An empty map sized for the engine's cache.
    pub fn with_default_capacity() -> (r: Self)
        ensures
            r@ == Map::<u64, Item>::empty(),
    {
        dash_with_capacity(CACHE_SIZE_ENTRIES_ITEM)
    }
}

impl CacheTrait for DashCache {
    fn cache_get(&self, z_hash: u64) -> (r: Option<Item>)
        ensures
            r == self.lookup(z_hash),
    {
        self.get_item(z_hash)
    }

    fn cache_insert(&mut self, z_hash: u64, item: Item)
        ensures
            final(self)@ == old(self)@.insert(z_hash, item),
    {
        self.insert_item(z_hash, item)
    }

    fn cache_new() -> (r: Self)
        ensures
            r@ == Map::<u64, Item>::empty(),
    {
        Self::with_default_capacity()
    }
}

/// A stored item is what a lookup of its key finds, and the other keys
/// keep theirs.
pub proof fn law_dash_get_after_insert(c: DashCache, c2: DashCache, z: u64, item: Item, other: u64)
    requires
        c2@ == c@.insert(z, item),
    ensures
        c2.lookup(z) == Some(item),
        other != z ==> c2.lookup(other) == c.lookup(other),
{
}

} // verus!
