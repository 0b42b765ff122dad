//! The backing stores a compound backend searches: packed bundles and the
//! loose-object fallback store, together with the values they yield.

use vstd::prelude::*;
use crate::cache::DecodeCache;

verus! {

/// A fixed-width content hash identifying a stored object.
///
/// The id is an opaque key: it is compared by exact byte equality and never
/// interpreted.
#[derive(Debug)]
pub struct ObjectId {
    pub bytes: Vec<u8>,
}

impl View for ObjectId {
    type V = Seq<u8>;

    open spec fn view(&self) -> Seq<u8> {
        self.bytes@
    }
}

impl ObjectId {
    pub fn new(bytes: Vec<u8>) -> (r: ObjectId)
        ensures
            r@ == bytes@,
    {
        ObjectId { bytes }
    }

    /// Exact byte equality, the only comparison an id supports.
    pub fn equals(&self, other: &ObjectId) -> (r: bool)
        ensures
            r == (self@ == other@),
    {
        if self.bytes.len() != other.bytes.len() {
            return false;
        }
        let n = self.bytes.len();
        let mut i: usize = 0;
        while i < n
            invariant
                i <= n,
                n == self@.len(),
                n == other@.len(),
                forall|k: int| 0 <= k < i ==> self@[k] == other@[k],
            decreases n - i,
        {
            if self.bytes[i] != other.bytes[i] {
                return false;
            }
            i += 1;
        }
        proof {
            assert(self@ =~= other@);
        }
        true
    }
}

/// The kind of a decoded object.
#[derive(Clone, Copy, Debug, PartialEq, Eq, Structural)]
pub enum Kind {
    Commit,
    Tree,
    Blob,
    Tag,
}

/// A decoded object: its kind and a view of its bytes.
///
/// The data is a borrowing view into the caller-supplied buffer that the
/// decode filled; it is valid only until that buffer is next reused.
pub struct Object<'a> {
    pub kind: Kind,
    pub data: &'a [u8],
}

impl<'a> Object<'a> {
    pub fn size(&self) -> (r: usize)
        ensures
            r == self.data@.len(),
    {
        self.data.len()
    }
}

/// One object as a backing store yields it: the id it is filed under, its
/// kind and full bytes, and whether its stored representation is intact.
///
/// `intact == false` stands for a truncated, checksum-mismatched or
/// otherwise unreadable representation: decoding such a record fails.
pub struct ObjectRecord {
    pub id: ObjectId,
    pub kind: Kind,
    pub data: Vec<u8>,
    pub intact: bool,
}

/// The position of the first record filed under `id`, scanning from `i`.
pub open spec fn first_match_from(records: Seq<ObjectRecord>, i: int, id: Seq<u8>) -> Option<int>
    decreases records.len() - i,
{
    if i < 0 || i >= records.len() {
        None
    } else if records[i].id@ == id {
        Some(i)
    } else {
        first_match_from(records, i + 1, id)
    }
}

/// The position of the first record filed under `id`, if any.
pub open spec fn first_match(records: Seq<ObjectRecord>, id: Seq<u8>) -> Option<int> {
    first_match_from(records, 0, id)
}

pub proof fn lemma_first_match_from(records: Seq<ObjectRecord>, i: int, id: Seq<u8>)
    requires
        0 <= i <= records.len(),
    ensures
        match first_match_from(records, i, id) {
            Some(j) => i <= j < records.len() && records[j].id@ == id && forall|k: int|
                i <= k < j ==> records[k].id@ != id,
            None => forall|k: int| i <= k < records.len() ==> records[k].id@ != id,
        },
    decreases records.len() - i,
{
    if i < records.len() && records[i].id@ != id {
        lemma_first_match_from(records, i + 1, id);
    }
}

pub proof fn lemma_first_match(records: Seq<ObjectRecord>, id: Seq<u8>)
    ensures
        match first_match(records, id) {
            Some(j) => 0 <= j < records.len() && records[j].id@ == id && forall|k: int|
                0 <= k < j ==> records[k].id@ != id,
            None => forall|k: int| 0 <= k < records.len() ==> records[k].id@ != id,
        },
{
    lemma_first_match_from(records, 0, id);
}

/// Overwrite `dst` with the bytes of `src`.
pub fn overwrite_with(dst: &mut Vec<u8>, src: &[u8])
    ensures
        final(dst)@ == src@,
{
    dst.clear();
    let n = src.len();
    let mut j: usize = 0;
    while j < n
        invariant
            j <= n,
            n == src@.len(),
            dst@ == src@.subrange(0, j as int),
        decreases n - j,
    {
        dst.push(src[j]);
        proof {
            assert(dst@ =~= src@.subrange(0, j + 1));
        }
        j += 1;
    }
    proof {
        assert(dst@ =~= src@);
    }
}

/// Decoding a packed entry failed: the stored representation at this
/// position is corrupt, truncated or checksum-mismatched.
#[derive(Debug)]
pub struct PackDecodeError {
    pub bundle_index: usize,
    pub entry_index: u32,
}

/// Reading an object from the loose store failed.
#[derive(Debug)]
pub struct LooseReadError {
    pub id: ObjectId,
}

/// One immutable archive of packed objects plus its lookup index.
pub struct Bundle {
    pub entries: Vec<ObjectRecord>,
}

impl Bundle {
    /// Entry positions fit the index's 32-bit entry numbers.
    pub open spec fn wf(self) -> bool {
        self.entries@.len() <= u32::MAX
    }

    /// The entry position the bundle's index reports for `id`, if any.
    pub open spec fn lookup_spec(self, id: Seq<u8>) -> Option<int> {
        first_match(self.entries@, id)
    }

    /// Whether the bundle's index claims `id`.
    pub open spec fn claims(self, id: Seq<u8>) -> bool {
        self.lookup_spec(id) is Some
    }

    /// Whether one cached record, if attributed to this bundle, agrees with
    /// the entry it claims to memoize.
    pub open spec fn record_matches(self, rec: crate::cache::CacheRecord) -> bool {
        &&& (rec.entry_index as int) < self.entries@.len()
        &&& self.entries@[rec.entry_index as int].intact
        &&& rec.kind == self.entries@[rec.entry_index as int].kind
        &&& rec.data@ == self.entries@[rec.entry_index as int].data@
    }

    /// Every cached record keyed to this bundle (standing at position `b`
    /// in the bundle sequence) memoizes what the bundle actually holds.
    pub open spec fn coherent_at(self, b: int, cache: DecodeCache) -> bool {
        forall|i: int|
            #![trigger cache.records@[i]]
            0 <= i < cache.records@.len() && cache.records@[i].bundle_index as int == b
                ==> self.record_matches(cache.records@[i])
    }

    /// Pure index probe: no decode work, no buffer, no cache.
    pub fn lookup(&self, id: &ObjectId) -> (r: Option<u32>)
        requires
            self.wf(),
        ensures
            match r {
                Some(e) => self.lookup_spec(id@) == Some(e as int),
                None => self.lookup_spec(id@) is None,
            },
    {
        let n = self.entries.len();
        let mut i: usize = 0;
        while i < n
            invariant
                i <= n,
                n == self.entries@.len(),
                n <= u32::MAX,
                first_match(self.entries@, id@) == first_match_from(self.entries@, i as int, id@),
            decreases n - i,
        {
            if self.entries[i].id.equals(id) {
                return Some(i as u32);
            }
            i += 1;
            proof {
                assert(first_match_from(self.entries@, i - 1, id@) == first_match_from(
                    self.entries@,
                    i as int,
                    id@,
                ));
            }
        }
        None
    }

    /// Resolve the entry at `entry_index` into full object bytes written
    /// into `buffer`, probing and feeding `cache` under the key
    /// `(bundle_index, entry_index)`.
    ///
    /// The caller vouches that any cached record attributed to
    /// `bundle_index` came from this bundle; in exchange, decode may serve
    /// a hit without re-reading the entry.
    pub fn decode_entry<'a>(
        &self,
        bundle_index: usize,
        entry_index: u32,
        buffer: &'a mut Vec<u8>,
        cache: &mut DecodeCache,
    ) -> (r: Result<Object<'a>, PackDecodeError>)
        requires
            self.wf(),
            (entry_index as int) < self.entries@.len(),
            old(cache).wf(),
            self.coherent_at(bundle_index as int, *old(cache)),
        ensures
            final(cache).wf(),
            final(cache).enabled == old(cache).enabled,
            final(cache).probes@ == old(cache).probes@.push(
                old(cache).spec_get(bundle_index as int, entry_index as int) is Some,
            ),
            ({
                let entry = self.entries@[entry_index as int];
                if entry.intact {
                    &&& (r matches Ok(o) && o.kind == entry.kind && o.data@ == entry.data@)
                    &&& final(buffer)@ == entry.data@
                    &&& (final(cache).records@ == old(cache).records@ || ({
                        let last = final(cache).records@.last();
                        &&& final(cache).records@ == old(cache).records@.push(last)
                        &&& last.bundle_index as int == bundle_index as int
                        &&& last.entry_index as int == entry_index as int
                        &&& self.record_matches(last)
                    }))
                    &&& (forall|b2: int, e2: int|
                        old(cache).spec_get(b2, e2) is Some ==> final(cache).spec_get(b2, e2)
                            == old(cache).spec_get(b2, e2))
                    &&& (old(cache).enabled ==> final(cache).spec_get(
                        bundle_index as int,
                        entry_index as int,
                    ) == Some((entry.kind, entry.data@)))
                } else {
                    &&& (r matches Err(err) && err.bundle_index == bundle_index
                        && err.entry_index == entry_index)
                    &&& final(buffer)@ == old(buffer)@
                    &&& final(cache).records@ == old(cache).records@
                }
            }),
    {
        let ghost b: int = bundle_index as int;
        let ghost e: int = entry_index as int;
        match cache.lookup(bundle_index, entry_index, buffer) {
            Some(kind) => {
                proof {
                    DecodeCache::lemma_get_from(old(cache).records@, 0, b, e);
                }
                Ok(Object { kind, data: buffer.as_slice() })
            },
            None => {
                let entry = &self.entries[entry_index as usize];
                if entry.intact {
                    overwrite_with(buffer, entry.data.as_slice());
                    cache.put(bundle_index, entry_index, entry.kind, entry.data.as_slice());
                    Ok(Object { kind: entry.kind, data: buffer.as_slice() })
                } else {
                    Err(PackDecodeError { bundle_index, entry_index })
                }
            },
        }
    }
}

/// The mutable fallback store of individually encoded objects.
pub struct LooseStore {
    pub entries: Vec<ObjectRecord>,
}

impl LooseStore {
    /// Whether the loose store holds an object under `id`.
    pub open spec fn contains_spec(self, id: Seq<u8>) -> bool {
        first_match(self.entries@, id) is Some
    }

    /// Cheap existence check: no decode work.
    pub fn contains(&self, id: &ObjectId) -> (r: bool)
        ensures
            r == self.contains_spec(id@),
    {
        let n = self.entries.len();
        let mut i: usize = 0;
        while i < n
            invariant
                i <= n,
                n == self.entries@.len(),
                first_match(self.entries@, id@) == first_match_from(self.entries@, i as int, id@),
            decreases n - i,
        {
            if self.entries[i].id.equals(id) {
                return true;
            }
            i += 1;
            proof {
                assert(first_match_from(self.entries@, i - 1, id@) == first_match_from(
                    self.entries@,
                    i as int,
                    id@,
                ));
            }
        }
        false
    }

    /// Decode the object stored under `id` into `buffer`, or report that
    /// none is stored, or that its representation cannot be read.
    pub fn find<'a>(&self, id: &ObjectId, buffer: &'a mut Vec<u8>) -> (r: Result<
        Option<Object<'a>>,
        LooseReadError,
    >)
        ensures
            match first_match(self.entries@, id@) {
                Some(j) => ({
                    let entry = self.entries@[j];
                    if entry.intact {
                        &&& (r matches Ok(o) && o matches Some(obj) && obj.kind == entry.kind
                            && obj.data@ == entry.data@)
                        &&& final(buffer)@ == entry.data@
                    } else {
                        &&& (r matches Err(err) && err.id@ == id@)
                        &&& final(buffer)@ == old(buffer)@
                    }
                }),
                None => (r matches Ok(o) && o is None) && final(buffer)@ == old(buffer)@,
            },
    {
        let n = self.entries.len();
        let mut i: usize = 0;
        while i < n
            invariant
                i <= n,
                n == self.entries@.len(),
                buffer@ == old(buffer)@,
                first_match(self.entries@, id@) == first_match_from(self.entries@, i as int, id@),
            decreases n - i,
        {
            if self.entries[i].id.equals(id) {
                let entry = &self.entries[i];
                if entry.intact {
                    overwrite_with(buffer, entry.data.as_slice());
                    return Ok(Some(Object { kind: entry.kind, data: buffer.as_slice() }));
                } else {
                    let mut id_bytes: Vec<u8> = Vec::new();
                    overwrite_with(&mut id_bytes, id.bytes.as_slice());
                    return Err(LooseReadError { id: ObjectId { bytes: id_bytes } });
                }
            }
            i += 1;
            proof {
                assert(first_match_from(self.entries@, i - 1, id@) == first_match_from(
                    self.entries@,
                    i as int,
                    id@,
                ));
            }
        }
        Ok(None)
    }
}

} // verus!
