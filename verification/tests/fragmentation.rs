use tuic::address::Address;
use tuic::error::ProtocolError;
use tuic::header::Header;
use tuic::packet::{Packet, Tx};

fn drive(packet: Packet<Tx>, payload: &[u8]) -> Vec<(tuic::header::PacketHeader, Vec<u8>)> {
    let mut iter = packet.into_fragments(payload).unwrap();
    let mut out = Vec::new();
    while let Some((header, slice)) = iter.next() {
        let Header::Packet(ph) = header else {
            panic!("fragmentation emitted a non-packet header")
        };
        out.push((ph, slice.to_vec()));
    }
    out
}

#[test]
fn concrete_scenario_three_fragments() {
    // budget 32, IPv4 socket address of wire length 8, 50-byte payload:
    // the first fragment holds 32 - 8 - 8 = 16 payload bytes, every later
    // one 32 - 8 - 1 = 23, so the split is 16, 23, 11.
    let addr = Address::SocketAddress {
        ip: vec![1, 2, 3, 4],
        port: 9000,
    };
    let payload: Vec<u8> = (0u8..50).collect();
    let packet = Packet::new(77, 1, addr.clone(), 32);
    let frags = drive(packet, &payload);
    assert_eq!(frags.len(), 3);
    let sizes: Vec<usize> = frags.iter().map(|(_, p)| p.len()).collect();
    assert_eq!(sizes, vec![16, 23, 11]);
    for (i, (ph, slice)) in frags.iter().enumerate() {
        assert_eq!(ph.assoc_id, 77);
        assert_eq!(ph.pkt_id, 1);
        assert_eq!(ph.frag_total, 3);
        assert_eq!(ph.frag_id, i as u8);
        assert_eq!(ph.size as usize, slice.len());
        if i == 0 {
            assert_eq!(ph.addr, addr);
        } else {
            assert_eq!(ph.addr, Address::Absent);
        }
    }
    let mut joined = Vec::new();
    for (_, p) in &frags {
        joined.extend_from_slice(p);
    }
    assert_eq!(joined, payload);
}

#[test]
fn single_fragment_when_payload_fits() {
    let packet = Packet::new(1, 2, Address::Absent, 32);
    let payload = vec![5u8; 23];
    let frags = drive(packet, &payload);
    assert_eq!(frags.len(), 1);
    assert_eq!(frags[0].0.frag_total, 1);
    assert_eq!(frags[0].1, payload);
}

#[test]
fn empty_payload_gives_one_empty_fragment() {
    let packet = Packet::new(1, 3, Address::Absent, 32);
    let frags = drive(packet, &[]);
    assert_eq!(frags.len(), 1);
    assert_eq!(frags[0].0.size, 0);
    assert!(frags[0].1.is_empty());
}

#[test]
fn exact_division_overcounts_with_trailing_empty_fragment() {
    // budget 32 with the absent address: 23 payload bytes fit every
    // fragment. A 46-byte payload spills exactly one full extra fragment,
    // and the count formula still adds one more, so the last fragment
    // carries zero bytes.
    let packet = Packet::new(4, 4, Address::Absent, 32);
    let payload = vec![7u8; 46];
    let frags = drive(packet, &payload);
    let sizes: Vec<usize> = frags.iter().map(|(_, p)| p.len()).collect();
    assert_eq!(sizes, vec![23, 23, 0]);
    let mut joined = Vec::new();
    for (_, p) in &frags {
        joined.extend_from_slice(p);
    }
    assert_eq!(joined, payload);
}

#[test]
fn iterator_len_reports_frag_total_and_ends_with_none() {
    let packet = Packet::new(9, 9, Address::Absent, 32);
    let payload = vec![1u8; 60];
    let mut iter = packet.into_fragments(&payload).unwrap();
    assert_eq!(iter.len(), 3);
    let mut yielded = 0;
    while iter.next().is_some() {
        yielded += 1;
    }
    assert_eq!(yielded, 3);
    assert!(iter.next().is_none());
    assert!(iter.next().is_none());
    assert_eq!(iter.len(), 3);
}

#[test]
fn oversized_payload_is_packet_too_large() {
    // budget 10 leaves one payload byte per fragment after the first, so a
    // payload of 300 bytes would need far more than 255 fragments.
    let packet = Packet::new(1, 1, Address::Absent, 10);
    let payload = vec![0u8; 300];
    let err = match packet.into_fragments(&payload) {
        Ok(_) => panic!("a 300-byte payload must not fit 255 one-byte fragments"),
        Err(e) => e,
    };
    assert_eq!(err, ProtocolError::PacketTooLarge);
}

#[test]
fn largest_admissible_fragment_count_is_accepted() {
    // budget 10, absent address: first fragment holds 1 byte, every later
    // one 1 byte; 253 bytes give 1 + 252 + 1 = 254 fragments.
    let packet = Packet::new(1, 1, Address::Absent, 10);
    let payload = vec![0u8; 253];
    let frags = drive(packet, &payload);
    assert_eq!(frags.len(), 254);
    let mut joined = Vec::new();
    for (_, p) in &frags {
        joined.extend_from_slice(p);
    }
    assert_eq!(joined, payload);
}
