use git_odb::cache::DecodeCache;
use git_odb::compound::{find_pack_index, Backend, Error, PackLocation};
use git_odb::store::{Bundle, Kind, LooseStore, ObjectId, ObjectRecord};

fn id(seed: u8) -> ObjectId {
    ObjectId::new(vec![seed; 20])
}

fn record(seed: u8, kind: Kind, data: &[u8]) -> ObjectRecord {
    ObjectRecord {
        id: id(seed),
        kind,
        data: data.to_vec(),
        intact: true,
    }
}

fn corrupt_record(seed: u8, kind: Kind, data: &[u8]) -> ObjectRecord {
    ObjectRecord {
        id: id(seed),
        kind,
        data: data.to_vec(),
        intact: false,
    }
}

/// bundle[0] holds the "hello" blob at entry 3; bundle[1] is empty; the
/// loose store is empty.
fn hello_backend() -> Backend {
    let filler0 = record(100, Kind::Blob, b"f0");
    let filler1 = record(101, Kind::Blob, b"f1");
    let filler2 = record(102, Kind::Blob, b"f2");
    let hello = record(1, Kind::Blob, b"hello");
    let bundle0 = Bundle {
        entries: vec![filler0, filler1, filler2, hello],
    };
    let bundle1 = Bundle { entries: vec![] };
    Backend::new(vec![bundle0, bundle1], LooseStore { entries: vec![] })
}

#[test]
fn find_hello_in_first_bundle() {
    let backend = hello_backend();
    let mut buffer = Vec::new();
    let mut cache = DecodeCache::never();
    let r = backend.find(&id(1), &mut buffer, &mut cache);
    match r {
        Ok(Some(object)) => {
            assert_eq!(object.kind, Kind::Blob);
            assert_eq!(object.data, &b"hello"[..]);
            assert_eq!(object.size(), 5);
        }
        _ => panic!("expected the hello blob"),
    }
    assert_eq!(buffer, b"hello".to_vec());
}

#[test]
fn find_missing_is_ok_none() {
    let backend = hello_backend();
    let mut buffer = Vec::new();
    let mut cache = DecodeCache::never();
    let r = backend.find(&id(9), &mut buffer, &mut cache);
    assert!(matches!(r, Ok(None)));
    assert!(buffer.is_empty());
}

#[test]
fn locate_reports_bundle_and_entry() {
    let backend = hello_backend();
    let loc = backend.internal_find(&id(1)).expect("hello is packed");
    assert_eq!(loc.bundle_index, 0);
    assert_eq!(loc.entry_index, 3);
    // The search is read-only and repeatable: asking again gives the same
    // location, and no buffer or cache is even handed to it.
    let again = backend.internal_find(&id(1)).expect("still packed");
    assert_eq!(loc, again);
    assert!(backend.internal_find(&id(9)).is_none());
}

#[test]
fn fetch_at_token_matches_find() {
    let backend = hello_backend();
    let loc = backend.internal_find(&id(1)).expect("hello is packed");

    let mut find_buffer = Vec::new();
    let mut cache1 = DecodeCache::never();
    let found = backend
        .find(&id(1), &mut find_buffer, &mut cache1)
        .unwrap()
        .unwrap();
    let found_kind = found.kind;

    let mut fetch_buffer = Vec::new();
    let mut cache2 = DecodeCache::never();
    let fetched = backend
        .internal_get_packed_object_by_index(
            loc.bundle_index,
            loc.entry_index,
            &mut fetch_buffer,
            &mut cache2,
        )
        .expect("token positions decode");
    assert_eq!(fetched.kind, found_kind);
    assert_eq!(fetch_buffer, find_buffer);
}

#[test]
fn earliest_bundle_wins_over_later_and_loose() {
    // The same id sits in both bundles with different payloads, and also
    // in the loose store: the first bundle is authoritative.
    let bundle0 = Bundle {
        entries: vec![record(7, Kind::Blob, b"from bundle zero")],
    };
    let bundle1 = Bundle {
        entries: vec![record(7, Kind::Blob, b"from bundle one")],
    };
    let loose = LooseStore {
        entries: vec![record(7, Kind::Blob, b"from loose")],
    };
    let backend = Backend::new(vec![bundle0, bundle1], loose);
    let mut buffer = Vec::new();
    let mut cache = DecodeCache::never();
    let r = backend.find(&id(7), &mut buffer, &mut cache);
    match r {
        Ok(Some(object)) => assert_eq!(object.data, &b"from bundle zero"[..]),
        _ => panic!("expected a packed object"),
    }
    let loc = backend.internal_find(&id(7)).unwrap();
    assert_eq!(loc.bundle_index, 0);
}

#[test]
fn loose_fallback_when_no_bundle_claims() {
    let bundle = Bundle {
        entries: vec![record(5, Kind::Blob, b"packed")],
    };
    let loose = LooseStore {
        entries: vec![record(8, Kind::Tag, b"loose only")],
    };
    let backend = Backend::new(vec![bundle], loose);
    let mut buffer = Vec::new();
    let mut cache = DecodeCache::never();
    let r = backend.find(&id(8), &mut buffer, &mut cache);
    match r {
        Ok(Some(object)) => {
            assert_eq!(object.kind, Kind::Tag);
            assert_eq!(object.data, &b"loose only"[..]);
        }
        _ => panic!("expected the loose object"),
    }
    // Tokens describe bundle hits only: a loose-only id has no location.
    assert!(backend.internal_find(&id(8)).is_none());
}

#[test]
fn corrupt_pack_entry_never_falls_through() {
    // The id also exists intact in the loose store, but the claiming
    // bundle's entry is corrupt: the call fails instead of falling back.
    let bundle = Bundle {
        entries: vec![
            record(50, Kind::Blob, b"other"),
            corrupt_record(4, Kind::Blob, b"broken"),
        ],
    };
    let loose = LooseStore {
        entries: vec![record(4, Kind::Blob, b"healthy loose copy")],
    };
    let backend = Backend::new(vec![bundle], loose);
    let mut buffer = Vec::new();
    let mut cache = DecodeCache::never();
    let r = backend.find(&id(4), &mut buffer, &mut cache);
    match r {
        Err(Error::Pack(e)) => {
            assert_eq!(e.bundle_index, 0);
            assert_eq!(e.entry_index, 1);
        }
        _ => panic!("expected a pack decode error"),
    }
    match backend.find(&id(4), &mut buffer, &mut cache) {
        Err(e) => assert_eq!(
            e.message(),
            "An error occurred while obtaining an object from the packed object store"
        ),
        _ => panic!("expected the same decode error again"),
    }
    assert!(buffer.is_empty());
}

#[test]
fn loose_read_error_is_surfaced() {
    let backend = Backend::new(
        vec![],
        LooseStore {
            entries: vec![corrupt_record(6, Kind::Commit, b"unreadable")],
        },
    );
    let mut buffer = Vec::new();
    let mut cache = DecodeCache::never();
    let r = backend.find(&id(6), &mut buffer, &mut cache);
    match r {
        Err(ref err) => {
            assert_eq!(
                err.message(),
                "An error occurred while obtaining an object from the loose object store"
            );
            match err {
                Error::Loose(e) => assert_eq!(e.id.bytes, vec![6u8; 20]),
                _ => panic!("expected the loose variant"),
            }
        }
        _ => panic!("expected a loose read error"),
    }
}

#[test]
fn noop_cache_repeats_full_decode() {
    let backend = hello_backend();
    let mut buffer = Vec::new();
    let mut cache = DecodeCache::never();
    backend.find(&id(1), &mut buffer, &mut cache).unwrap();
    backend.find(&id(1), &mut buffer, &mut cache).unwrap();
    // Both probes missed: each call did the full decode work.
    assert_eq!(cache.probes, vec![false, false]);
    assert!(cache.records.is_empty());
}

#[test]
fn memoizing_cache_hits_on_repeat() {
    let backend = hello_backend();
    let mut buffer = Vec::new();
    let mut cache = DecodeCache::memoizing();
    let first = backend.find(&id(1), &mut buffer, &mut cache).unwrap().unwrap();
    let first_data = first.data.to_vec();
    let second = backend.find(&id(1), &mut buffer, &mut cache).unwrap().unwrap();
    assert_eq!(second.data, first_data.as_slice());
    assert_eq!(second.kind, Kind::Blob);
    // First call missed and recorded; the second was served from the cache.
    assert_eq!(cache.probes, vec![false, true]);
    assert_eq!(cache.records.len(), 1);
}

#[test]
fn find_pack_index_probes_one_bundle() {
    let bundle = Bundle {
        entries: vec![
            record(11, Kind::Tree, b"t"),
            record(12, Kind::Blob, b"b"),
        ],
    };
    assert_eq!(find_pack_index(&bundle, &id(12)), Some(1));
    assert_eq!(find_pack_index(&bundle, &id(13)), None);
}

#[test]
fn location_tokens_order_structurally() {
    let a = PackLocation {
        bundle_index: 0,
        entry_index: 5,
    };
    let b = PackLocation {
        bundle_index: 0,
        entry_index: 7,
    };
    let c = PackLocation {
        bundle_index: 1,
        entry_index: 0,
    };
    assert!(a < b);
    assert!(b < c);
    assert!(a < c);
    assert!(a == a);
    assert!(c > b);
    let mut tokens = vec![c, b, a];
    tokens.sort();
    assert_eq!(tokens, vec![a, b, c]);
}
