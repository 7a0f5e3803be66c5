use reflexo_typst::incr::IncrDocServer;
use reflexo_typst::item_store::ItemStore;

#[test]
fn items_are_kept_alive_by_use_and_collected_when_unused() {
    let mut store = ItemStore::new();
    store.increment_lifetime();
    assert_eq!(store.lifetime(), 2);
    assert!(!store.insert(1));
    assert!(!store.insert(2));
    assert!(store.insert(1));
    assert_eq!(store.finalize_delta(), vec![1, 2]);
    assert_eq!(store.finalize_delta(), Vec::<u128>::new());
    for _ in 0..5 {
        store.increment_lifetime();
    }
    assert_eq!(store.lifetime(), 12);
    // item 1 is used at lifetime 12: its last use becomes 11
    assert!(store.insert(1));
    // limit 12 - 10 = 2: nothing is below it yet
    assert!(store.gc(10).is_empty());
    store.increment_lifetime();
    // limit 14 - 10 = 4: item 2 (last used at 2) goes, item 1 (11) stays
    assert_eq!(store.gc(10), vec![2]);
    assert!(store.insert(1));
    assert!(!store.insert(2));
    assert_eq!(store.finalize_delta(), vec![2]);
}

#[test]
fn gc_threshold_saturates_at_zero() {
    let mut store = ItemStore::new();
    assert!(!store.insert(7));
    assert!(store.gc(100).is_empty());
    assert!(store.gc(0).is_empty());
}

#[test]
fn packing_a_delta_keeps_the_span_map_and_ages_items() {
    let mut server = IncrDocServer::new();
    assert!(server.begin_delta().is_empty());
    assert_eq!(server.items.lifetime(), 2);
    assert!(!server.items.insert(9));
    server.spans.set_doc_region(1);
    let blob = server.pack_delta(b"m");
    assert_eq!(blob, b"diff-v1,m".to_vec());
    assert_eq!(server.spans.doc_region(), 1);
    assert_eq!(server.pack_current(b"n"), Some(b"new,n".to_vec()));
    for _ in 0..5 {
        server.begin_delta();
    }
    assert_eq!(server.items.lifetime(), 12);
    assert_eq!(server.begin_delta(), vec![9]);
}
