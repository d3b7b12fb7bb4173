use vanillachat::framing::EOT;
use vanillachat::handoff::{
    listed_time, parse_listing, requested_index, select_offer, ListedPeer,
};
use vanillachat::pool::{is_alive, HandoffError, PeekOutcome, PeerAddr, Pool, ReadOutcome, ReadStep};

fn addr(last: u8) -> PeerAddr {
    PeerAddr { octets: [10, 0, 0, last], port: 40000 }
}

fn pool_of(names: &[&str]) -> Pool<u32> {
    let mut pool = Pool::new();
    for (i, n) in names.iter().enumerate() {
        pool.enrol(i as u32, addr(i as u8), Some(n.as_bytes().to_vec()), 1000 + i as i64);
    }
    pool
}

fn names(pool: &Pool<u32>) -> Vec<Vec<u8>> {
    (0..pool.len()).map(|i| pool.get(i).name.clone()).collect()
}

#[test]
fn enrol_without_name_records_name_unknown() {
    let mut pool: Pool<u32> = Pool::new();
    pool.enrol(7, addr(1), None, 5);
    assert_eq!(pool.len(), 1);
    assert_eq!(pool.get(0).name, b"name unknown".to_vec());
    assert_eq!(pool.get(0).time, 5);
    assert_eq!(pool.get(0).stream, 7);
}

#[test]
fn sweep_drops_dead_entries() {
    let mut pool = pool_of(&["a", "b", "c", "d"]);
    pool.sweep(&vec![false, true, false, true]);
    assert_eq!(names(&pool), vec![b"b".to_vec(), b"d".to_vec()]);
    pool.sweep(&vec![true, true]);
    assert_eq!(pool.len(), 2);
    pool.sweep(&vec![false, false]);
    assert_eq!(pool.len(), 0);
}

#[test]
fn liveness_from_peek() {
    assert!(is_alive(PeekOutcome::WouldBlock));
    assert!(is_alive(PeekOutcome::Bytes(1)));
    assert!(!is_alive(PeekOutcome::Bytes(0)));
    assert!(!is_alive(PeekOutcome::Failed));
}

#[test]
fn take_swap_removes() {
    let mut pool = pool_of(&["a", "b", "c"]);
    let c = pool.take(0).ok().unwrap();
    assert_eq!(c.name, b"a".to_vec());
    assert_eq!(c.stream, 0);
    assert_eq!(names(&pool), vec![b"c".to_vec(), b"b".to_vec()]);
    assert!(matches!(pool.take(2), Err(HandoffError::IndexOutOfRange)));
    assert_eq!(pool.len(), 2);
}

#[test]
fn take_from_empty_pool() {
    let mut pool: Pool<u32> = Pool::new();
    assert!(matches!(pool.take(0), Err(HandoffError::NoSocketsAvailable)));
}

#[test]
fn listing_for_one_peer() {
    let mut pool: Pool<u32> = Pool::new();
    pool.enrol(3, addr(9), Some(b"alice".to_vec()), 0x0102_0304);
    let bytes = pool.listing();
    let mut want = vec![0, 0, 0, 1, 0, 0, 0, 0, 1, 2, 3, 4];
    want.extend_from_slice(b"alice");
    want.push(EOT);
    assert_eq!(bytes, want);
}

#[test]
fn listing_of_empty_pool_is_zero_count() {
    let pool: Pool<u32> = Pool::new();
    assert_eq!(pool.listing(), vec![0, 0, 0, 0]);
    let (peers, used) = parse_listing(&[0, 0, 0, 0]).unwrap();
    assert_eq!(peers.len(), 0);
    assert_eq!(used, 4);
    assert!(matches!(select_offer(peers), Err(HandoffError::NoSocketsAvailable)));
}

#[test]
fn negative_time_is_listed_as_zero() {
    let mut pool: Pool<u32> = Pool::new();
    pool.enrol(3, addr(9), Some(b"b".to_vec()), -5);
    assert_eq!(pool.listing(), vec![0, 0, 0, 1, 0, 0, 0, 0, 0, 0, 0, 0, b'b', EOT]);
}

#[test]
fn listing_round_trip() {
    let pool = pool_of(&["alice", "bob"]);
    let mut bytes = pool.listing();
    let len = bytes.len();
    bytes.extend_from_slice(b"more");
    let (peers, used) = parse_listing(&bytes).unwrap();
    assert_eq!(used, len);
    assert_eq!(peers.len(), 2);
    assert_eq!(peers[0].name, b"alice".to_vec());
    assert_eq!(peers[0].timestamp, 1000);
    assert_eq!(peers[1].name, b"bob".to_vec());
    assert_eq!(peers[1].timestamp, 1001);
}

#[test]
fn partial_listing_is_incomplete() {
    let pool = pool_of(&["alice"]);
    let bytes = pool.listing();
    for cut in 0..bytes.len() {
        assert!(parse_listing(&bytes[..cut]).is_none());
    }
    assert!(parse_listing(&bytes).is_some());
}

#[test]
fn select_first_offer() {
    let peers = vec![
        ListedPeer { timestamp: 1_700_000_000, name: b"alice".to_vec() },
        ListedPeer { timestamp: 5, name: b"bob".to_vec() },
    ];
    let (chosen, request) = select_offer(peers).ok().unwrap();
    assert_eq!(chosen.name, b"alice".to_vec());
    assert_eq!(chosen.time, 1_700_000_000);
    assert_eq!(request, vec![0, 0, 0, 0]);
    assert_eq!(requested_index(&request), 0);
}

#[test]
fn requested_index_is_big_endian() {
    assert_eq!(requested_index(&[0, 0, 1, 2]), 258);
    assert_eq!(requested_index(&[0xff, 0xff, 0xff, 0xff]), u32::MAX);
}

#[test]
fn listed_time_out_of_range_is_epoch() {
    assert_eq!(listed_time(1_700_000_000), 1_700_000_000);
    assert_eq!(listed_time(u64::MAX), 0);
    assert_eq!(listed_time(9_000_000_000_000_000_000), 0);
}

#[test]
fn pooled_connection_gathers_messages() {
    let mut pool = pool_of(&["a"]);
    let mut c = pool.take(0).ok().unwrap();
    assert!(matches!(c.on_read(ReadOutcome::Byte(b'h')), ReadStep::Continue));
    assert!(matches!(c.on_read(ReadOutcome::WouldBlock), ReadStep::Stop));
    assert!(matches!(c.on_read(ReadOutcome::Byte(b'i')), ReadStep::Continue));
    match c.on_read(ReadOutcome::Byte(EOT)) {
        ReadStep::Message(m) => assert_eq!(m, b"hi".to_vec()),
        _ => panic!("message expected"),
    }
    assert!(matches!(c.on_read(ReadOutcome::Closed), ReadStep::Stop));
    assert!(matches!(c.on_read(ReadOutcome::Failed), ReadStep::Stop));
}

#[test]
fn handed_off_entry_leaves_pool() {
    let mut pool = pool_of(&["alice", "bob", "carol"]);
    let taken = pool.take(1).ok().unwrap();
    assert_eq!(taken.name, b"bob".to_vec());
    assert_eq!(taken.stream, 1);
    let left = names(&pool);
    assert_eq!(left.len(), 2);
    assert!(!left.contains(&b"bob".to_vec()));
    assert!(left.contains(&b"alice".to_vec()) && left.contains(&b"carol".to_vec()));
}

#[test]
fn out_of_range_time_is_epoch() {
    assert_eq!(listed_time(100_000_000_000_000), 0);
    assert_eq!(listed_time(0), 0);
    assert_eq!(listed_time(8_000_000_000_000), 8_000_000_000_000);
}
