use tuic::address::Address;
use tuic::header::{Header, PacketHeader};
use tuic::packet::Packet;
use tuic::reassembly::Reassembly;

fn addr() -> Address {
    Address::SocketAddress {
        ip: vec![10, 1, 2, 3],
        port: 5353,
    }
}

fn frag(assoc_id: u16, pkt_id: u16, frag_total: u8, frag_id: u8, payload: &[u8]) -> (PacketHeader, Vec<u8>) {
    let a = if frag_id == 0 { addr() } else { Address::Absent };
    let header = PacketHeader {
        assoc_id,
        pkt_id,
        frag_total,
        frag_id,
        size: payload.len() as u16,
        addr: a,
    };
    (header, payload.to_vec())
}

#[test]
fn in_order_delivery_reassembles() {
    let mut r = Reassembly::new();
    let (h0, p0) = frag(1, 1, 3, 0, b"hello ");
    let (h1, p1) = frag(1, 1, 3, 1, b"tunnel ");
    let (h2, p2) = frag(1, 1, 3, 2, b"world");
    assert!(r.insert_fragment(h0, p0, 10).is_none());
    assert!(r.insert_fragment(h1, p1, 11).is_none());
    let (a, payload) = r.insert_fragment(h2, p2, 12).unwrap();
    assert_eq!(a, addr());
    assert_eq!(payload, b"hello tunnel world");
}

#[test]
fn reverse_order_delivery_gives_identical_payload() {
    let mut r = Reassembly::new();
    let (h2, p2) = frag(1, 1, 3, 2, b"world");
    let (h1, p1) = frag(1, 1, 3, 1, b"tunnel ");
    let (h0, p0) = frag(1, 1, 3, 0, b"hello ");
    assert!(r.insert_fragment(h2, p2, 10).is_none());
    assert!(r.insert_fragment(h1, p1, 11).is_none());
    let (a, payload) = r.insert_fragment(h0, p0, 12).unwrap();
    assert_eq!(a, addr());
    assert_eq!(payload, b"hello tunnel world");
}

#[test]
fn duplicate_fragment_is_idempotent() {
    let mut r = Reassembly::new();
    let (h0, p0) = frag(2, 7, 3, 0, b"abc");
    let (h1, p1) = frag(2, 7, 3, 1, b"def");
    let (h1b, p1b) = frag(2, 7, 3, 1, b"def");
    let (h2, p2) = frag(2, 7, 3, 2, b"ghi");
    assert!(r.insert_fragment(h0, p0, 0).is_none());
    assert!(r.insert_fragment(h1, p1, 0).is_none());
    // re-delivering the same fragment neither completes nor corrupts
    assert!(r.insert_fragment(h1b, p1b, 0).is_none());
    let (_, payload) = r.insert_fragment(h2, p2, 0).unwrap();
    assert_eq!(payload, b"abcdefghi");
}

#[test]
fn mismatched_frag_total_is_dropped() {
    let mut r = Reassembly::new();
    let (h0, p0) = frag(3, 3, 2, 0, b"one");
    assert!(r.insert_fragment(h0, p0, 0).is_none());
    // same key, different total: dropped, record kept
    let (bad, badp) = frag(3, 3, 5, 1, b"junk");
    assert!(r.insert_fragment(bad, badp, 0).is_none());
    let (h1, p1) = frag(3, 3, 2, 1, b"two");
    let (_, payload) = r.insert_fragment(h1, p1, 0).unwrap();
    assert_eq!(payload, b"onetwo");
}

#[test]
fn inconsistent_header_is_dropped() {
    let mut r = Reassembly::new();
    let (mut h, p) = frag(4, 4, 2, 0, b"xy");
    h.frag_id = 2; // at the total: invalid
    assert!(r.insert_fragment(h, p, 0).is_none());
    let (mut h2, p2) = frag(4, 4, 0, 0, b"xy");
    h2.frag_total = 0;
    assert!(r.insert_fragment(h2, p2, 0).is_none());
    // the table stayed empty: a fresh two-fragment packet completes normally
    let (h3, p3) = frag(4, 4, 1, 0, b"xy");
    assert!(r.insert_fragment(h3, p3, 0).is_some());
}

#[test]
fn single_fragment_packet_completes_at_once() {
    let mut r = Reassembly::new();
    let (h, p) = frag(5, 5, 1, 0, b"whole");
    let (a, payload) = r.insert_fragment(h, p, 0).unwrap();
    assert_eq!(a, addr());
    assert_eq!(payload, b"whole");
}

#[test]
fn independent_keys_do_not_interfere() {
    let mut r = Reassembly::new();
    let (a0, ap0) = frag(1, 1, 2, 0, b"AA");
    let (b0, bp0) = frag(1, 2, 2, 0, b"BB");
    let (a1, ap1) = frag(1, 1, 2, 1, b"aa");
    let (b1, bp1) = frag(1, 2, 2, 1, b"bb");
    assert!(r.insert_fragment(a0, ap0, 0).is_none());
    assert!(r.insert_fragment(b0, bp0, 0).is_none());
    let (_, pa) = r.insert_fragment(a1, ap1, 0).unwrap();
    let (_, pb) = r.insert_fragment(b1, bp1, 0).unwrap();
    assert_eq!(pa, b"AAaa");
    assert_eq!(pb, b"BBbb");
}

#[test]
fn eviction_drops_only_stale_records() {
    let mut r = Reassembly::new();
    let (h0, p0) = frag(6, 1, 2, 0, b"old");
    let (g0, q0) = frag(6, 2, 2, 0, b"new");
    assert!(r.insert_fragment(h0, p0, 0).is_none());
    assert!(r.insert_fragment(g0, q0, 90).is_none());
    r.evict_expired(100, 50);
    // the record created at tick 0 is gone: its second fragment starts a
    // fresh record and the packet never completes from it alone
    let (h1, p1) = frag(6, 1, 2, 1, b"old");
    assert!(r.insert_fragment(h1, p1, 100).is_none());
    // the record created at tick 90 survived untouched
    let (g1, q1) = frag(6, 2, 2, 1, b"new");
    let (_, payload) = r.insert_fragment(g1, q1, 100).unwrap();
    assert_eq!(payload, b"newnew");
}

#[test]
fn fragmented_then_reassembled_round_trip() {
    let payload: Vec<u8> = (0u8..200).map(|x| x.wrapping_mul(7)).collect();
    let packet = Packet::new(8, 42, addr(), 40);
    let mut iter = packet.into_fragments(&payload).unwrap();
    let mut wire: Vec<(PacketHeader, Vec<u8>)> = Vec::new();
    while let Some((header, slice)) = iter.next() {
        let Header::Packet(ph) = header else {
            panic!("fragmentation emitted a non-packet header")
        };
        wire.push((ph, slice.to_vec()));
    }
    // deliver out of order: reversed
    wire.reverse();
    let mut r = Reassembly::new();
    let mut delivered = None;
    for (ph, bytes) in wire {
        if let Some(out) = r.insert_fragment(ph, bytes, 5) {
            delivered = Some(out);
        }
    }
    let (a, rebuilt) = delivered.expect("packet never completed");
    assert_eq!(a, addr());
    assert_eq!(rebuilt, payload);
}
