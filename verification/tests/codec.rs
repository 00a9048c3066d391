use tuic::address::Address;
use tuic::error::ProtocolError;
use tuic::header::{ConnectHeader, PacketHeader};

fn sock_v4(ip: [u8; 4], port: u16) -> Address {
    Address::SocketAddress { ip: ip.to_vec(), port }
}

#[test]
fn address_round_trip_absent() {
    let a = Address::Absent;
    let bytes = a.encode();
    assert_eq!(bytes, vec![0u8]);
    assert_eq!(bytes.len(), a.len());
    let (back, consumed) = Address::decode(&bytes).unwrap();
    assert_eq!(back, a);
    assert_eq!(consumed, 1);
}

#[test]
fn address_round_trip_domain() {
    let a = Address::DomainAddress {
        name: b"example.com".to_vec(),
        port: 443,
    };
    let bytes = a.encode();
    assert_eq!(bytes.len(), a.len());
    assert_eq!(a.len(), 4 + 11);
    assert_eq!(bytes[0], 1);
    assert_eq!(bytes[1], 11);
    assert_eq!(&bytes[2..13], b"example.com");
    assert_eq!(bytes[13], (443u16 / 256) as u8);
    assert_eq!(bytes[14], (443u16 % 256) as u8);
    let (back, consumed) = Address::decode(&bytes).unwrap();
    assert_eq!(back, a);
    assert_eq!(consumed, bytes.len());
}

#[test]
fn address_round_trip_socket_v4() {
    let a = sock_v4([127, 0, 0, 1], 8080);
    let bytes = a.encode();
    assert_eq!(bytes.len(), 8);
    assert_eq!(a.len(), 8);
    assert_eq!(bytes[0], 2);
    assert_eq!(bytes[1], 4);
    let (back, consumed) = Address::decode(&bytes).unwrap();
    assert_eq!(back, a);
    assert_eq!(consumed, 8);
}

#[test]
fn address_round_trip_socket_v6() {
    let ip: Vec<u8> = (0u8..16).collect();
    let a = Address::SocketAddress { ip, port: 65535 };
    let bytes = a.encode();
    assert_eq!(bytes.len(), 20);
    assert_eq!(a.len(), 20);
    let (back, consumed) = Address::decode(&bytes).unwrap();
    assert_eq!(back, a);
    assert_eq!(consumed, 20);
}

#[test]
fn address_round_trip_with_trailing_bytes() {
    let a = sock_v4([10, 0, 0, 7], 53);
    let mut bytes = a.encode();
    bytes.extend_from_slice(&[9, 9, 9]);
    let (back, consumed) = Address::decode(&bytes).unwrap();
    assert_eq!(back, a);
    assert_eq!(consumed, 8);
}

#[test]
fn address_decode_rejects_malformed() {
    // empty input
    assert_eq!(Address::decode(&[]), Err(ProtocolError::MalformedHeader));
    // unknown tag
    assert_eq!(Address::decode(&[0xff]), Err(ProtocolError::MalformedHeader));
    // domain whose length byte overruns the buffer
    assert_eq!(
        Address::decode(&[1, 10, b'a', b'b']),
        Err(ProtocolError::MalformedHeader)
    );
    // socket address with an impossible IP length
    assert_eq!(
        Address::decode(&[2, 5, 1, 2, 3, 4, 5, 0, 80]),
        Err(ProtocolError::MalformedHeader)
    );
    // truncated socket address
    assert_eq!(
        Address::decode(&[2, 4, 1, 2]),
        Err(ProtocolError::MalformedHeader)
    );
}

#[test]
fn connect_header_round_trip() {
    let h = ConnectHeader::new(Address::DomainAddress {
        name: b"tunnel.test".to_vec(),
        port: 1080,
    });
    let bytes = h.encode();
    assert_eq!(bytes.len(), h.len());
    let (back, consumed) = ConnectHeader::decode(&bytes).unwrap();
    assert_eq!(back, h);
    assert_eq!(consumed, bytes.len());
}

#[test]
fn packet_header_round_trip() {
    let h = PacketHeader::new(0x1234, 0xabcd, 3, 1, 500, Address::Absent);
    let bytes = h.encode();
    assert_eq!(bytes.len(), h.len());
    assert_eq!(bytes.len(), 9);
    // fixed fields, big-endian
    assert_eq!(&bytes[0..2], &[0x12, 0x34]);
    assert_eq!(&bytes[2..4], &[0xab, 0xcd]);
    assert_eq!(bytes[4], 3);
    assert_eq!(bytes[5], 1);
    assert_eq!(&bytes[6..8], &[1, 244]);
    let (back, consumed) = PacketHeader::decode(&bytes).unwrap();
    assert_eq!(back, h);
    assert_eq!(consumed, 9);
}

#[test]
fn packet_header_round_trip_with_payload_behind() {
    let h = PacketHeader::new(7, 9, 2, 0, 4, sock_v4([192, 168, 0, 1], 4433));
    let mut bytes = h.encode();
    bytes.extend_from_slice(&[0xde, 0xad, 0xbe, 0xef]);
    let (back, consumed) = PacketHeader::decode(&bytes).unwrap();
    assert_eq!(back, h);
    assert_eq!(consumed, 16);
    assert_eq!(&bytes[consumed..], &[0xde, 0xad, 0xbe, 0xef]);
}

#[test]
fn packet_header_len_without_addr_is_fixed() {
    assert_eq!(PacketHeader::len_without_addr(), 8);
}

#[test]
fn packet_header_decode_rejects_truncated() {
    assert_eq!(
        PacketHeader::decode(&[0, 1, 0, 2, 1, 0]),
        Err(ProtocolError::MalformedHeader)
    );
    // fixed part complete, address truncated
    assert_eq!(
        PacketHeader::decode(&[0, 1, 0, 2, 1, 0, 0, 4, 2, 4, 1]),
        Err(ProtocolError::MalformedHeader)
    );
}
