//! The compound backend: ordered multi-bundle search with a loose-object
//! fallback, offered both as a unified `find` and as the two-phase
//! locate/fetch protocol.

use vstd::prelude::*;
use vstd::std_specs::cmp::PartialOrdSpec;
use crate::cache::DecodeCache;
use crate::store::{
    first_match, first_match_from, lemma_first_match, Bundle, LooseReadError, LooseStore, Object,
    ObjectId, PackDecodeError,
};

verus! {

/// Returned by [`Backend::find()`].
#[derive(Debug)]
pub enum Error {
    /// An error occurred while obtaining an object from the loose object store.
    Loose(LooseReadError),
    /// An error occurred while obtaining an object from the packed object store.
    Pack(PackDecodeError),
}

impl Error {
    /// A short description of the failure, fit for reporting.
    pub fn message(&self) -> (r: &'static str)
        ensures
            match self {
                Error::Loose(_) => r@ == "An error occurred while obtaining an object from the loose object store"@,
                Error::Pack(_) => r@ == "An error occurred while obtaining an object from the packed object store"@,
            },
    {
        match self {
            Error::Loose(_) => "An error occurred while obtaining an object from the loose object store",
            Error::Pack(_) => "An error occurred while obtaining an object from the packed object store",
        }
    }
}

/// Which bundle, and which entry in it, a located object sits at.
///
/// A location is transient: it is meaningful only against the bundle
/// sequence that produced it, and ordering is structural — by bundle
/// index first, then entry index.
#[derive(Clone, Copy, Debug, Eq, Hash, Ord)]
pub struct PackLocation {
    pub bundle_index: usize,
    pub entry_index: u32,
}

impl PartialEq for PackLocation {
    fn eq(&self, other: &Self) -> (r: bool) {
        self.bundle_index == other.bundle_index && self.entry_index == other.entry_index
    }
}

impl vstd::std_specs::cmp::PartialEqSpecImpl for PackLocation {
    open spec fn obeys_eq_spec() -> bool {
        true
    }

    open spec fn eq_spec(&self, other: &Self) -> bool {
        self.bundle_index == other.bundle_index && self.entry_index == other.entry_index
    }
}

impl PartialOrd for PackLocation {
    fn partial_cmp(&self, other: &Self) -> (r: Option<core::cmp::Ordering>) {
        if self.bundle_index < other.bundle_index {
            Some(core::cmp::Ordering::Less)
        } else if self.bundle_index > other.bundle_index {
            Some(core::cmp::Ordering::Greater)
        } else if self.entry_index < other.entry_index {
            Some(core::cmp::Ordering::Less)
        } else if self.entry_index > other.entry_index {
            Some(core::cmp::Ordering::Greater)
        } else {
            Some(core::cmp::Ordering::Equal)
        }
    }
}

impl vstd::std_specs::cmp::PartialOrdSpecImpl for PackLocation {
    open spec fn obeys_partial_cmp_spec() -> bool {
        true
    }

    open spec fn partial_cmp_spec(&self, other: &Self) -> Option<core::cmp::Ordering> {
        if self.bundle_index < other.bundle_index {
            Some(core::cmp::Ordering::Less)
        } else if self.bundle_index > other.bundle_index {
            Some(core::cmp::Ordering::Greater)
        } else if self.entry_index < other.entry_index {
            Some(core::cmp::Ordering::Less)
        } else if self.entry_index > other.entry_index {
            Some(core::cmp::Ordering::Greater)
        } else {
            Some(core::cmp::Ordering::Equal)
        }
    }
}

/// What a `find` must come to, fixed by the stores alone.
pub enum FindOutcome {
    /// The id exists in none of the backends.
    Absent,
    /// The object decodes to these bytes, from the first claiming bundle
    /// or, when no bundle claims the id, from the loose store.
    Loaded { kind: crate::store::Kind, data: Seq<u8> },
    /// The first claiming bundle's entry is corrupt; nothing else is tried.
    PackCorrupt { bundle_index: int, entry_index: int },
    /// No bundle claims the id and the loose store cannot read its copy.
    LooseUnreadable,
}

/// An object database holding an ordered sequence of immutable bundles
/// and one loose-object fallback store.
pub struct Backend {
    pub bundles: Vec<Bundle>,
    pub loose: LooseStore,
}

impl Backend {
    pub open spec fn wf(self) -> bool {
        forall|b: int| 0 <= b < self.bundles@.len() ==> (#[trigger] self.bundles@[b]).wf()
    }

    /// The first bundle from position `b` on whose index claims `id`,
    /// with the entry position its index reports.
    pub open spec fn locate_from(self, b: int, id: Seq<u8>) -> Option<(int, int)>
        decreases self.bundles@.len() - b,
    {
        if b < 0 || b >= self.bundles@.len() {
            None
        } else if self.bundles@[b].claims(id) {
            match self.bundles@[b].lookup_spec(id) {
                Some(e) => Some((b, e)),
                None => None,
            }
        } else {
            self.locate_from(b + 1, id)
        }
    }

    /// Where the ordered bundle search locates `id`: the earliest claiming
    /// bundle wins, and the loose store plays no part.
    pub open spec fn locate_spec(self, id: Seq<u8>) -> Option<(int, int)> {
        self.locate_from(0, id)
    }

    /// Every record in the cache memoizes what the bundle it is keyed to
    /// actually holds. Freshly built caches satisfy this trivially; using
    /// a cache against a backend other than the one that filled it is the
    /// caller's responsibility to avoid.
    pub open spec fn cache_consistent(self, cache: DecodeCache) -> bool {
        forall|b: int|
            0 <= b < self.bundles@.len() ==> (#[trigger] self.bundles@[b]).coherent_at(b, cache)
    }

    /// The outcome `find` is bound to, fixed by the stores alone.
    pub open spec fn find_spec(self, id: Seq<u8>) -> FindOutcome {
        match self.locate_spec(id) {
            Some(loc) => {
                let entry = self.bundles@[loc.0].entries@[loc.1];
                if entry.intact {
                    FindOutcome::Loaded { kind: entry.kind, data: entry.data@ }
                } else {
                    FindOutcome::PackCorrupt { bundle_index: loc.0, entry_index: loc.1 }
                }
            },
            None => {
                match first_match(self.loose.entries@, id) {
                    Some(j) => {
                        let entry = self.loose.entries@[j];
                        if entry.intact {
                            FindOutcome::Loaded { kind: entry.kind, data: entry.data@ }
                        } else {
                            FindOutcome::LooseUnreadable
                        }
                    },
                    None => FindOutcome::Absent,
                }
            },
        }
    }

    /// What the ordered search commits to: a located id sits in the
    /// earliest claiming bundle, at the first entry its index files it
    /// under; a `None` means no bundle claims the id at all.
    pub proof fn lemma_locate_from(self, b: int, id: Seq<u8>)
        requires
            0 <= b <= self.bundles@.len(),
        ensures
            match self.locate_from(b, id) {
                Some(loc) => {
                    &&& b <= loc.0 < self.bundles@.len()
                    &&& self.bundles@[loc.0].claims(id)
                    &&& self.bundles@[loc.0].lookup_spec(id) == Some(loc.1)
                    &&& 0 <= loc.1 < self.bundles@[loc.0].entries@.len()
                    &&& self.bundles@[loc.0].entries@[loc.1].id@ == id
                    &&& forall|k: int| b <= k < loc.0 ==> !(#[trigger] self.bundles@[k]).claims(id)
                },
                None => forall|k: int|
                    b <= k < self.bundles@.len() ==> !(#[trigger] self.bundles@[k]).claims(id),
            },
        decreases self.bundles@.len() - b,
    {
        if b < self.bundles@.len() {
            if self.bundles@[b].claims(id) {
                lemma_first_match(self.bundles@[b].entries@, id);
            } else {
                self.lemma_locate_from(b + 1, id);
            }
        }
    }

    /// The characterization of the whole search.
    pub proof fn lemma_locate_spec(self, id: Seq<u8>)
        ensures
            match self.locate_spec(id) {
                Some(loc) => {
                    &&& 0 <= loc.0 < self.bundles@.len()
                    &&& self.bundles@[loc.0].claims(id)
                    &&& self.bundles@[loc.0].lookup_spec(id) == Some(loc.1)
                    &&& 0 <= loc.1 < self.bundles@[loc.0].entries@.len()
                    &&& self.bundles@[loc.0].entries@[loc.1].id@ == id
                    &&& forall|k: int| 0 <= k < loc.0 ==> !(#[trigger] self.bundles@[k]).claims(id)
                },
                None => forall|k: int|
                    0 <= k < self.bundles@.len() ==> !(#[trigger] self.bundles@[k]).claims(id),
            },
    {
        self.lemma_locate_from(0, id);
    }

    /// Internal-use lookup across the bundle indices only: the identical
    /// ordered search `find` performs, producing the location instead of
    /// decoding. It takes no buffer and no cache, so it can touch neither.
    pub fn internal_find(&self, id: &ObjectId) -> (r: Option<PackLocation>)
        requires
            self.wf(),
        ensures
            match r {
                Some(loc) => self.locate_spec(id@) == Some(
                    (loc.bundle_index as int, loc.entry_index as int),
                ),
                None => self.locate_spec(id@) is None,
            },
    {
        let n = self.bundles.len();
        let mut b: usize = 0;
        while b < n
            invariant
                b <= n,
                n == self.bundles@.len(),
                self.wf(),
                self.locate_spec(id@) == self.locate_from(b as int, id@),
            decreases n - b,
        {
            if let Some(idx) = find_pack_index(&self.bundles[b], id) {
                return Some(PackLocation { bundle_index: b, entry_index: idx });
            }
            b += 1;
            proof {
                assert(self.locate_from(b - 1, id@) == self.locate_from(b as int, id@));
            }
        }
        None
    }

    /// Decode the object at a previously located position, skipping the
    /// search. The location must come from this backend's own bundle
    /// sequence: one taken against a different sequence is meaningless.
    pub fn internal_get_packed_object_by_index<'a>(
        &self,
        pack_index: usize,
        object_index: u32,
        buffer: &'a mut Vec<u8>,
        pack_cache: &mut DecodeCache,
    ) -> (r: Result<Object<'a>, PackDecodeError>)
        requires
            self.wf(),
            old(pack_cache).wf(),
            self.cache_consistent(*old(pack_cache)),
            (pack_index as int) < self.bundles@.len(),
            (object_index as int) < self.bundles@[pack_index as int].entries@.len(),
        ensures
            final(pack_cache).wf(),
            final(pack_cache).enabled == old(pack_cache).enabled,
            self.cache_consistent(*final(pack_cache)),
            final(pack_cache).probes@ == old(pack_cache).probes@.push(
                old(pack_cache).spec_get(pack_index as int, object_index as int) is Some,
            ),
            ({
                let entry = self.bundles@[pack_index as int].entries@[object_index as int];
                if entry.intact {
                    &&& (r matches Ok(o) && o.kind == entry.kind && o.data@ == entry.data@)
                    &&& final(buffer)@ == entry.data@
                    &&& (forall|b2: int, e2: int|
                        old(pack_cache).spec_get(b2, e2) is Some ==> final(pack_cache).spec_get(
                            b2,
                            e2,
                        ) == old(pack_cache).spec_get(b2, e2))
                    &&& (old(pack_cache).enabled ==> final(pack_cache).spec_get(
                        pack_index as int,
                        object_index as int,
                    ) == Some((entry.kind, entry.data@)))
                } else {
                    &&& (r matches Err(err) && err.bundle_index == pack_index
                        && err.entry_index == object_index)
                    &&& final(buffer)@ == old(buffer)@
                    &&& final(pack_cache).records@ == old(pack_cache).records@
                }
            }),
    {
        let r = self.bundles[pack_index].decode_entry(pack_index, object_index, buffer, pack_cache);
        proof {
            assert forall|b2: int|
                0 <= b2 < self.bundles@.len() implies (#[trigger] self.bundles@[b2]).coherent_at(
                b2,
                *pack_cache,
            ) by {
                if pack_cache.records@ != old(pack_cache).records@ {
                    assert(pack_cache.records@ == old(pack_cache).records@.push(
                        pack_cache.records@.last(),
                    ));
                    assert forall|i: int|
                        0 <= i < pack_cache.records@.len() && pack_cache.records@[i].bundle_index
                            as int == b2 implies self.bundles@[b2].record_matches(
                        pack_cache.records@[i],
                    ) by {
                        if i < old(pack_cache).records@.len() {
                            assert(pack_cache.records@[i] == old(pack_cache).records@[i]);
                        }
                    }
                }
            }
        }
        r
    }

    /// Find an object by id and store its data in full in the provided
    /// `buffer`, searching all contained object databases: the bundles in
    /// stored order, then the loose store.
    ///
    /// The first bundle whose index claims the id is authoritative: its
    /// entry is decoded and returned, and a decode failure there is
    /// surfaced as is — never retried, never a reason to consult the
    /// loose store or a later bundle. Only when no bundle claims the id
    /// is the loose store asked. `Ok(None)` is a strict guarantee that
    /// the id exists in none of the backends.
    ///
    /// Use a memoizing `pack_cache` to reduce duplicated decode work, or
    /// the no-op variant to disable caching.
    pub fn find<'a>(
        &self,
        id: &ObjectId,
        buffer: &'a mut Vec<u8>,
        pack_cache: &mut DecodeCache,
    ) -> (r: Result<Option<Object<'a>>, Error>)
        requires
            self.wf(),
            old(pack_cache).wf(),
            self.cache_consistent(*old(pack_cache)),
        ensures
            final(pack_cache).wf(),
            final(pack_cache).enabled == old(pack_cache).enabled,
            self.cache_consistent(*final(pack_cache)),
            match self.find_spec(id@) {
                FindOutcome::Absent => (r matches Ok(o) && o is None) && final(buffer)@ == old(
                    buffer,
                )@ && *final(pack_cache) == *old(pack_cache),
                FindOutcome::Loaded { kind, data } => (r matches Ok(o) && o matches Some(obj)
                    && obj.kind == kind && obj.data@ == data) && final(buffer)@ == data,
                FindOutcome::PackCorrupt { bundle_index, entry_index } => (r matches Err(err)
                    && err matches Error::Pack(p) && p.bundle_index as int == bundle_index
                    && p.entry_index as int == entry_index) && final(buffer)@ == old(buffer)@,
                FindOutcome::LooseUnreadable => (r matches Err(err) && err matches Error::Loose(l)
                    && l.id@ == id@) && final(buffer)@ == old(buffer)@,
            },
            match self.locate_spec(id@) {
                Some(loc) => {
                    &&& final(pack_cache).probes@ == old(pack_cache).probes@.push(
                        old(pack_cache).spec_get(loc.0, loc.1) is Some,
                    )
                    &&& (old(pack_cache).enabled && self.bundles@[loc.0].entries@[loc.1].intact)
                        ==> final(pack_cache).spec_get(loc.0, loc.1) == Some(
                        (self.bundles@[loc.0].entries@[loc.1].kind, self.bundles@[loc.0].entries@[loc.1].data@),
                    )
                },
                None => *final(pack_cache) == *old(pack_cache),
            },
    {
        proof {
            self.lemma_locate_spec(id@);
        }
        if let Some(location) = self.internal_find(id) {
            match self.internal_get_packed_object_by_index(
                location.bundle_index,
                location.entry_index,
                buffer,
                pack_cache,
            ) {
                Ok(object) => Ok(Some(object)),
                Err(err) => Err(Error::Pack(err)),
            }
        } else if self.loose.contains(id) {
            proof {
                lemma_first_match(self.loose.entries@, id@);
            }
            match self.loose.find(id, buffer) {
                Ok(object) => Ok(object),
                Err(err) => Err(Error::Loose(err)),
            }
        } else {
            proof {
                lemma_first_match(self.loose.entries@, id@);
            }
            Ok(None)
        }
    }
}

impl Backend {
    /// Build a backend over an ordered bundle sequence — order encodes
    /// search precedence — and one loose-store handle. The ordering policy
    /// is the caller's decision and is never re-derived here.
    pub fn new(bundles: Vec<Bundle>, loose: LooseStore) -> (r: Backend)
        ensures
            r.bundles@ == bundles@,
            r.loose == loose,
    {
        Backend { bundles, loose }
    }

    /// For an id absent from every bundle and from the loose store, the
    /// only outcome `find` may come to is `Ok(None)`.
    pub proof fn lemma_absent_yields_none(self, id: Seq<u8>)
        requires
            forall|b: int|
                0 <= b < self.bundles@.len() ==> !(#[trigger] self.bundles@[b]).claims(id),
            !self.loose.contains_spec(id),
        ensures
            self.find_spec(id) == FindOutcome::Absent,
    {
        self.lemma_locate_spec(id);
    }

    /// For an id located at `(b, e)`, `find` decodes exactly the entry the
    /// location names, so fetching at that location yields byte-identical
    /// output to calling `find` for the id directly.
    pub proof fn lemma_fetch_agrees_with_find(self, id: Seq<u8>, b: int, e: int)
        requires
            self.locate_spec(id) == Some((b, e)),
        ensures
            0 <= b < self.bundles@.len(),
            0 <= e < self.bundles@[b].entries@.len(),
            ({
                let entry = self.bundles@[b].entries@[e];
                if entry.intact {
                    self.find_spec(id) == (FindOutcome::Loaded {
                        kind: entry.kind,
                        data: entry.data@,
                    })
                } else {
                    self.find_spec(id) == (FindOutcome::PackCorrupt {
                        bundle_index: b,
                        entry_index: e,
                    })
                }
            }),
    {
        self.lemma_locate_spec(id);
    }

    /// If two bundles both index the same id, the search settles on the
    /// earliest claiming bundle — never a later one, and never the loose
    /// store.
    pub proof fn lemma_earliest_bundle_wins(self, id: Seq<u8>, b1: int, b2: int)
        requires
            0 <= b1 < b2 < self.bundles@.len(),
            self.bundles@[b1].claims(id),
            self.bundles@[b2].claims(id),
        ensures
            self.locate_spec(id) matches Some(loc) && 0 <= loc.0 <= b1,
            !(self.find_spec(id) is Absent),
            !(self.find_spec(id) is LooseUnreadable),
            match self.locate_spec(id) {
                Some(loc) => {
                    &&& self.bundles@[loc.0].claims(id)
                    &&& forall|k: int|
                        0 <= k < loc.0 ==> !(#[trigger] self.bundles@[k]).claims(id)
                    &&& ({
                        let entry = self.bundles@[loc.0].entries@[loc.1];
                        self.find_spec(id) == (if entry.intact {
                            FindOutcome::Loaded { kind: entry.kind, data: entry.data@ }
                        } else {
                            FindOutcome::PackCorrupt { bundle_index: loc.0, entry_index: loc.1 }
                        })
                    })
                },
                None => false,
            },
    {
        self.lemma_locate_spec(id);
    }

    /// A corrupt entry at a located position is fatal to the whole call:
    /// the outcome is the pack decode error, whatever the loose store
    /// holds — the lookup never falls through.
    pub proof fn lemma_corrupt_entry_is_fatal(self, id: Seq<u8>, b: int, e: int)
        requires
            self.locate_spec(id) == Some((b, e)),
            !self.bundles@[b].entries@[e].intact,
        ensures
            self.find_spec(id) == (FindOutcome::PackCorrupt { bundle_index: b, entry_index: e }),
    {
    }
}

/// Locations compare structurally: by bundle index first, then entry
/// index, both ascending.
pub proof fn lemma_location_order(a: PackLocation, b: PackLocation)
    ensures
        (a.partial_cmp_spec(&b) == Some(core::cmp::Ordering::Less)) <==> (a.bundle_index
            < b.bundle_index || (a.bundle_index == b.bundle_index && a.entry_index
            < b.entry_index)),
        (a.partial_cmp_spec(&b) == Some(core::cmp::Ordering::Equal)) <==> (a.bundle_index
            == b.bundle_index && a.entry_index == b.entry_index),
        (a.partial_cmp_spec(&b) == Some(core::cmp::Ordering::Greater)) <==> (a.bundle_index
            > b.bundle_index || (a.bundle_index == b.bundle_index && a.entry_index
            > b.entry_index)),
{
}

/// Special-use index probe on one bundle, used to avoid double lookups
/// when composing backends: a pure search with no decode work.
pub fn find_pack_index(bundle: &Bundle, id: &ObjectId) -> (r: Option<u32>)
    requires
        bundle.wf(),
    ensures
        match r {
            Some(e) => bundle.lookup_spec(id@) == Some(e as int),
            None => bundle.lookup_spec(id@) is None,
        },
{
    bundle.lookup(id)
}

} // verus!
