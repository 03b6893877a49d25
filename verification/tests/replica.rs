use smg_core::crdt_kv::kv_store::KvStore;
use smg_core::crdt_kv::replica::{LamportClock, ReplicaId};

#[test]
fn replica_ids_are_fresh_and_of_version_seven() {
    let a = ReplicaId::new();
    let b = ReplicaId::default();
    assert_ne!(a, b);
    assert_eq!((a.bits >> 76) & 0xf, 7);
    assert_eq!((a.bits >> 62) & 0x3, 2);
}

#[test]
fn replica_id_text_round_trip() {
    let id = ReplicaId { bits: 0x0123_4567_89ab_cdef_0123_4567_89ab_cdef };
    assert_eq!(id.to_string(), "01234567-89ab-cdef-0123-456789abcdef");
    assert_eq!(ReplicaId::from_string(&id.to_string()), Ok(id));
}

#[test]
fn replica_id_text_forms() {
    let id = ReplicaId { bits: 0x0123_4567_89ab_cdef_0123_4567_89ab_cdef };
    for text in [
        "0123456789abcdef0123456789abcdef",
        "01234567-89AB-CDEF-0123-456789ABCDEF",
        "{01234567-89ab-cdef-0123-456789abcdef}",
        "urn:uuid:01234567-89ab-cdef-0123-456789abcdef",
        "URN:Uuid:01234567-89ab-cdef-0123-456789abcdef",
    ] {
        assert_eq!(ReplicaId::from_string(text), Ok(id), "{text}");
    }
    for text in [
        "",
        "0123456789abcdef0123456789abcde",
        "01234567-89ab-cdef-0123-456789abcdeg",
        "0123456-789ab-cdef-0123-456789abcdef",
        "{0123456789abcdef0123456789abcdef}",
        "{01234567-89ab-cdef-0123-456789abcdef",
        "0123456789abcdef0123456789abcd\u{e9}",
    ] {
        assert!(ReplicaId::from_string(text).is_err(), "{text}");
    }
}

#[test]
fn replica_ids_are_ordered_as_numbers() {
    assert!(ReplicaId { bits: 1 } < ReplicaId { bits: 2 });
    assert!(ReplicaId::new() < ReplicaId::greatest());
}

#[test]
fn clock_ticks_and_observes() {
    let mut clock = LamportClock::new();
    let first = clock.tick();
    assert_eq!(clock.tick(), first + 1);
    let observed = clock.update(100);
    assert_eq!(observed, 101);
    assert_eq!(clock.tick(), 102);
    assert_eq!(clock.update(5), 103);
    let mut copy = clock.clone();
    assert_eq!(copy.tick(), 104);
    assert_eq!(clock.tick(), 104);
    assert_eq!(LamportClock::default().tick(), first);
}

#[test]
fn store_counts_its_changes() {
    let mut kv = KvStore::new();
    kv.insert("a", vec![1]);
    kv.insert("a", vec![2]);
    assert_eq!(kv.get("a"), Some(vec![2]));
    assert_eq!(kv.len(), 1);
    assert_eq!(kv.generation(), 2);
    assert_eq!(kv.remove("a"), Some(vec![2]));
    assert_eq!(kv.remove("a"), None);
    assert!(!kv.contains_key("a"));
    assert!(kv.keys().is_empty());
}
