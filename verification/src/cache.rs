//! The pluggable decode-memoization capability.
//!
//! A cache is keyed by (bundle identity, entry position) and stores
//! previously resolved (kind, bytes) pairs to shorten repeated decode work.
//! Two variants are offered: a no-op cache that always reports a miss, and
//! a memoizing cache.

use vstd::prelude::*;
use crate::store::Kind;

verus! {

/// One memoized decode result, keyed by which bundle and which entry
/// produced it.
pub struct CacheRecord {
    pub bundle_index: usize,
    pub entry_index: u32,
    pub kind: Kind,
    pub data: Vec<u8>,
}

/// The decode-memoization capability handed to `find` and `fetch`.
///
/// With `enabled == false` the cache is the no-op variant: it records
/// nothing and every probe misses, so every decode performs its full work.
/// `probes` is a diagnostic trail: one entry per probe, `true` for a hit.
pub struct DecodeCache {
    pub enabled: bool,
    pub records: Vec<CacheRecord>,
    pub probes: Vec<bool>,
}

impl DecodeCache {
    /// The no-op variant never holds a record.
    pub open spec fn wf(self) -> bool {
        !self.enabled ==> self.records@.len() == 0
    }

    /// The first record stored under key `(b, e)`, scanning from `i`.
    pub open spec fn get_from(records: Seq<CacheRecord>, i: int, b: int, e: int) -> Option<
        (Kind, Seq<u8>),
    >
        decreases records.len() - i,
    {
        if i < 0 || i >= records.len() {
            None
        } else if records[i].bundle_index as int == b && records[i].entry_index as int == e {
            Some((records[i].kind, records[i].data@))
        } else {
            Self::get_from(records, i + 1, b, e)
        }
    }

    /// What the cache holds under key `(b, e)`.
    pub open spec fn spec_get(self, b: int, e: int) -> Option<(Kind, Seq<u8>)> {
        Self::get_from(self.records@, 0, b, e)
    }

    pub proof fn lemma_get_from(records: Seq<CacheRecord>, i: int, b: int, e: int)
        requires
            0 <= i <= records.len(),
        ensures
            match Self::get_from(records, i, b, e) {
                Some(kd) => exists|j: int|
                    #![auto]
                    i <= j < records.len() && records[j].bundle_index as int == b
                        && records[j].entry_index as int == e && kd == (
                    records[j].kind,
                    records[j].data@,
                    ),
                None => forall|j: int|
                    #![auto]
                    i <= j < records.len() ==> !(records[j].bundle_index as int == b
                        && records[j].entry_index as int == e),
            },
        decreases records.len() - i,
    {
        if i < records.len() && !(records[i].bundle_index as int == b && records[i].entry_index
            as int == e) {
            Self::lemma_get_from(records, i + 1, b, e);
        }
    }

    /// Appending a record changes only the lookup of its own key, and only
    /// when that key was absent.
    pub proof fn lemma_get_from_push(
        records: Seq<CacheRecord>,
        i: int,
        rec: CacheRecord,
        b: int,
        e: int,
    )
        requires
            0 <= i <= records.len(),
        ensures
            Self::get_from(records.push(rec), i, b, e) == (if Self::get_from(records, i, b, e)
                is Some {
                Self::get_from(records, i, b, e)
            } else if rec.bundle_index as int == b && rec.entry_index as int == e {
                Some((rec.kind, rec.data@))
            } else {
                None
            }),
        decreases records.len() - i,
    {
        let rs = records.push(rec);
        if i < records.len() {
            assert(rs[i] == records[i]);
            if !(records[i].bundle_index as int == b && records[i].entry_index as int == e) {
                Self::lemma_get_from_push(records, i + 1, rec, b, e);
            }
        } else {
            assert(rs[i] == rec);
            assert(Self::get_from(rs, i + 1, b, e) is None);
        }
    }

    /// The no-op variant can never report a hit.
    pub proof fn lemma_noop_never_hits(cache: DecodeCache, b: int, e: int)
        requires
            cache.wf(),
            !cache.enabled,
        ensures
            cache.spec_get(b, e) is None,
    {
    }

    /// The no-op variant: every probe misses and full decode work is done
    /// on every call.
    pub fn never() -> (r: DecodeCache)
        ensures
            r.wf(),
            !r.enabled,
            r.records@.len() == 0,
            r.probes@.len() == 0,
    {
        DecodeCache { enabled: false, records: Vec::new(), probes: Vec::new() }
    }

    /// The memoizing variant, initially empty.
    pub fn memoizing() -> (r: DecodeCache)
        ensures
            r.wf(),
            r.enabled,
            r.records@.len() == 0,
            r.probes@.len() == 0,
    {
        DecodeCache { enabled: true, records: Vec::new(), probes: Vec::new() }
    }

    /// Probe the cache for key `(bundle_index, entry_index)`. On a hit the
    /// cached bytes overwrite `buffer` and the cached kind is returned; on
    /// a miss the buffer is left alone. Either way the probe is logged.
    pub fn lookup(&mut self, bundle_index: usize, entry_index: u32, buffer: &mut Vec<u8>) -> (r:
        Option<Kind>)
        ensures
            final(self).enabled == old(self).enabled,
            final(self).records@ == old(self).records@,
            final(self).probes@ == old(self).probes@.push(
                old(self).spec_get(bundle_index as int, entry_index as int) is Some,
            ),
            match old(self).spec_get(bundle_index as int, entry_index as int) {
                Some(kd) => r == Some(kd.0) && final(buffer)@ == kd.1,
                None => r is None && final(buffer)@ == old(buffer)@,
            },
    {
        let ghost b: int = bundle_index as int;
        let ghost e: int = entry_index as int;
        let n = self.records.len();
        let mut i: usize = 0;
        while i < n
            invariant
                i <= n,
                n == self.records@.len(),
                *self == *old(self),
                buffer@ == old(buffer)@,
                Self::get_from(self.records@, 0, b, e) == Self::get_from(self.records@, i as int, b, e),
                b == bundle_index as int,
                e == entry_index as int,
            decreases n - i,
        {
            let hit = self.records[i].bundle_index == bundle_index && self.records[i].entry_index
                == entry_index;
            if hit {
                let kind = self.records[i].kind;
                crate::store::overwrite_with(buffer, self.records[i].data.as_slice());
                self.probes.push(true);
                return Some(kind);
            }
            i += 1;
            proof {
                assert(Self::get_from(self.records@, (i - 1) as int, b, e) == Self::get_from(
                    self.records@,
                    i as int,
                    b,
                    e,
                ));
            }
        }
        proof {
            assert(Self::get_from(self.records@, n as int, b, e) is None);
        }
        self.probes.push(false);
        None
    }

    /// Record a resolved (kind, bytes) pair under key
    /// `(bundle_index, entry_index)`. The no-op variant ignores it.
    pub fn put(&mut self, bundle_index: usize, entry_index: u32, kind: Kind, data: &[u8])
        requires
            old(self).wf(),
        ensures
            final(self).wf(),
            final(self).enabled == old(self).enabled,
            final(self).probes@ == old(self).probes@,
            !old(self).enabled ==> final(self).records@ == old(self).records@,
            old(self).enabled ==> ({
                let last = final(self).records@.last();
                &&& final(self).records@ == old(self).records@.push(last)
                &&& last.bundle_index as int == bundle_index as int
                &&& last.entry_index as int == entry_index as int
                &&& last.kind == kind
                &&& last.data@ == data@
            }),
            forall|b2: int, e2: int|
                old(self).spec_get(b2, e2) is Some ==> final(self).spec_get(b2, e2) == old(self).spec_get(b2, e2),
            (old(self).enabled && old(self).spec_get(bundle_index as int, entry_index as int)
                is None) ==> final(self).spec_get(bundle_index as int, entry_index as int) == Some(
                (kind, data@),
            ),
    {
        if self.enabled {
            let mut d: Vec<u8> = Vec::new();
            crate::store::overwrite_with(&mut d, data);
            let rec = CacheRecord { bundle_index, entry_index, kind, data: d };
            let ghost grec = rec;
            self.records.push(rec);
            proof {
                assert(self.records@ == old(self).records@.push(grec));
                assert forall|b2: int, e2: int|
                    old(self).spec_get(b2, e2) is Some implies self.spec_get(b2, e2) == old(self).spec_get(b2, e2) by {
                    Self::lemma_get_from_push(old(self).records@, 0, grec, b2, e2);
                }
                Self::lemma_get_from_push(
                    old(self).records@,
                    0,
                    grec,
                    bundle_index as int,
                    entry_index as int,
                );
            }
        }
    }
}

} // verus!
