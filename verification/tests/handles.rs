use viewfs::handles::HandleCache;
use viewfs::ipc::build_close_request;
use viewfs::tree::NodeID;

#[test]
fn a_node_is_opened_shared_and_closed() {
    let mut cache = HandleCache::new();
    assert!(!cache.is_full());
    assert!(cache.open_cached(NodeID(3)).is_none());

    let first = cache.open_with(NodeID(3), 40);
    assert_eq!((first.raw_id, first.close), (40, None));
    let second = cache.open_cached(NodeID(3)).unwrap();
    assert_eq!((second.raw_id, second.close), (40, None));
    assert_ne!(first.fh, second.fh);

    assert_eq!(cache.release(NodeID(3), first.fh), None);
    assert_eq!(cache.release(NodeID(3), second.fh), Some(build_close_request(40)));
    assert!(cache.open_cached(NodeID(3)).is_none());
}

#[test]
fn a_second_backing_id_is_given_up_at_once() {
    let mut cache = HandleCache::new();
    let first = cache.open_with(NodeID(1), 5);
    let second = cache.open_with(NodeID(1), 6);
    assert_eq!((second.raw_id, second.close), (5, Some(build_close_request(6))));
    assert_eq!(cache.release(NodeID(1), second.fh), None);
    assert_eq!(cache.release(NodeID(1), first.fh), Some(build_close_request(5)));
}

#[test]
fn unknown_handles_are_ignored() {
    let mut cache = HandleCache::new();
    let opened = cache.open_with(NodeID(1), 5);
    assert_eq!(cache.release(NodeID(1), opened.fh ^ 1), None);
    assert_eq!(cache.release(NodeID(1), 0), None);
    assert_eq!(cache.release(NodeID(1), opened.fh), Some(build_close_request(5)));
    assert_eq!(cache.release(NodeID(1), opened.fh), None);
}

#[test]
fn a_released_handle_is_not_issued_again() {
    let mut cache = HandleCache::new();
    let old = cache.open_with(NodeID(1), 5).fh;
    cache.release(NodeID(1), old);
    let new = cache.open_with(NodeID(1), 6).fh;
    assert_ne!(old, new);
    assert_eq!(cache.release(NodeID(1), old), None);
    assert_eq!(cache.release(NodeID(1), new), Some(build_close_request(6)));
}

#[test]
fn no_handle_is_issued_twice() {
    let mut cache = HandleCache::new();
    let mut seen = std::collections::HashSet::new();
    let mut open: Vec<u64> = Vec::new();
    for round in 0..2000 {
        let fh = cache.new_handle(7);
        assert!(seen.insert(fh));
        open.push(fh);
        if round % 3 != 0 {
            let first = open.remove(round % open.len());
            cache.release(NodeID(0), first);
        }
    }
    assert_eq!(seen.len(), 2000);
}

#[test]
fn a_node_is_known_while_it_is_open() {
    let mut cache = HandleCache::new();
    assert!(!cache.has_node(NodeID(2)));
    let fh = cache.open_with(NodeID(2), 1).fh;
    assert!(cache.has_node(NodeID(2)));
    assert!(!cache.has_node(NodeID(1)));
    cache.release(NodeID(2), fh);
    assert!(!cache.has_node(NodeID(2)));
}

#[test]
fn the_version_of_a_handle_is_read_as_odd() {
    let mut cache = HandleCache::new();
    let fh = cache.new_handle(9);
    assert_eq!(fh & 0x1_0000_0000, 0x1_0000_0000);
    assert_eq!(cache.release(NodeID(0), fh - 0x1_0000_0000), Some(build_close_request(9)));
}

#[test]
fn handles_of_one_id_keep_it_open_in_any_order() {
    let mut cache = HandleCache::new();
    let mut handles: Vec<u64> = vec![cache.open_with(NodeID(2), 11).fh];
    for _ in 0..5 {
        handles.push(cache.open_cached(NodeID(2)).unwrap().fh);
    }
    let other = cache.open_with(NodeID(4), 12).fh;
    let last = handles.remove(3);
    for fh in handles {
        assert_eq!(cache.release(NodeID(2), fh), None);
    }
    assert_eq!(cache.release(NodeID(2), last), Some(build_close_request(11)));
    assert_eq!(cache.release(NodeID(4), other), Some(build_close_request(12)));
}
