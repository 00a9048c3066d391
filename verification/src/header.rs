//! The two wire message headers and their codecs.
//!
//! Wire layout (big-endian fields):
//! - `ConnectHeader`: `[Address]`;
//! - `PacketHeader`: `[assoc_id: u16][pkt_id: u16][frag_total: u8][frag_id: u8][size: u16][Address]`.

use vstd::prelude::*;

verus! {

use crate::address::{
    Address,
    AddrModel,
    addr_model_wf,
    addr_model_len,
    be_u16,
    be_u16_val,
    spec_encode_addr,
    spec_decode_addr,
    lemma_addr_round_trip,
};
use crate::error::ProtocolError;

/// Byte length of the fixed (non-address) part of a `PacketHeader`:
/// two u16, two u8, one u16.
pub const PACKET_HEADER_FIXED_LEN: usize = 8;

/// Abstract value of a [`ConnectHeader`].
pub struct ConnectHeaderModel {
    pub addr: AddrModel,
}

/// Abstract value of a [`PacketHeader`].
pub struct PacketHeaderModel {
    pub assoc_id: u16,
    pub pkt_id: u16,
    pub frag_total: u8,
    pub frag_id: u8,
    pub size: u16,
    pub addr: AddrModel,
}

/// Abstract value of a [`Header`].
pub enum HeaderModel {
    Connect(ConnectHeaderModel),
    Packet(PacketHeaderModel),
}

/// A fragment header never names a fragment position at or past the total,
/// and its address encodes within its length prefix.
pub open spec fn packet_header_model_wf(m: PacketHeaderModel) -> bool {
    &&& m.frag_id < m.frag_total
    &&& addr_model_wf(m.addr)
}

/// Canonical encoding of a connect header: its address alone.
pub open spec fn spec_encode_connect_header(m: ConnectHeaderModel) -> Seq<u8> {
    spec_encode_addr(m.addr)
}

/// Total decoding function for a connect header.
pub open spec fn spec_decode_connect_header(s: Seq<u8>) -> Option<(ConnectHeaderModel, int)> {
    match spec_decode_addr(s) {
        Option::Some(p) => Option::Some((ConnectHeaderModel { addr: p.0 }, p.1)),
        Option::None => Option::None,
    }
}

/// Canonical encoding of a packet header: the six fixed fields, then the
/// address.
pub open spec fn spec_encode_packet_header(m: PacketHeaderModel) -> Seq<u8> {
    be_u16(m.assoc_id) + be_u16(m.pkt_id) + seq![m.frag_total, m.frag_id] + be_u16(m.size)
        + spec_encode_addr(m.addr)
}

/// Total decoding function for a packet header: the header read from the
/// front of `s` and the bytes consumed, or `None` on malformed input.
pub open spec fn spec_decode_packet_header(s: Seq<u8>) -> Option<(PacketHeaderModel, int)> {
    if s.len() < PACKET_HEADER_FIXED_LEN {
        Option::None
    } else {
        match spec_decode_addr(s.skip(PACKET_HEADER_FIXED_LEN as int)) {
            Option::Some(p) => Option::Some(
                (
                    PacketHeaderModel {
                        assoc_id: be_u16_val(s[0], s[1]),
                        pkt_id: be_u16_val(s[2], s[3]),
                        frag_total: s[4],
                        frag_id: s[5],
                        size: be_u16_val(s[6], s[7]),
                        addr: p.0,
                    },
                    PACKET_HEADER_FIXED_LEN + p.1,
                ),
            ),
            Option::None => Option::None,
        }
    }
}

/// The connection-open message header: the tunnel-relayed TCP target.
#[derive(Debug, Clone, PartialEq, Eq)]
pub struct ConnectHeader {
    pub addr: Address,
}

impl View for ConnectHeader {
    type V = ConnectHeaderModel;

    open spec fn view(&self) -> ConnectHeaderModel {
        ConnectHeaderModel { addr: self.addr@ }
    }
}

impl ConnectHeader {
    pub fn new(addr: Address) -> (h: ConnectHeader)
        ensures
            h@ == (ConnectHeaderModel { addr: addr@ }),
    {
        ConnectHeader { addr }
    }

    /// Exact number of bytes [`ConnectHeader::encode`] produces.
    pub fn len(&self) -> (n: usize)
        requires
            addr_model_wf(self@.addr),
        ensures
            n == addr_model_len(self@.addr),
    {
        self.addr.len()
    }

    /// Canonical wire encoding of this header.
    pub fn encode(&self) -> (out: Vec<u8>)
        requires
            addr_model_wf(self@.addr),
        ensures
            out@ == spec_encode_connect_header(self@),
    {
        self.addr.encode()
    }

    /// Reads one connect header from the front of `buf`.
    pub fn decode(buf: &[u8]) -> (r: Result<(ConnectHeader, usize), ProtocolError>)
        ensures
            match r {
                Ok(p) => spec_decode_connect_header(buf@) == Option::Some((p.0@, p.1 as int))
                    && addr_model_wf(p.0@.addr) && p.1 <= buf@.len(),
                Err(e) => spec_decode_connect_header(buf@) is None && e
                    == ProtocolError::MalformedHeader,
            },
    {
        match Address::decode(buf) {
            Ok((addr, n)) => Ok((ConnectHeader { addr }, n)),
            Err(e) => Err(e),
        }
    }
}

/// The UDP-relay message header: one fragment of one logical datagram.
#[derive(Debug, Clone, PartialEq, Eq)]
pub struct PacketHeader {
    pub assoc_id: u16,
    pub pkt_id: u16,
    pub frag_total: u8,
    pub frag_id: u8,
    pub size: u16,
    pub addr: Address,
}

impl View for PacketHeader {
    type V = PacketHeaderModel;

    open spec fn view(&self) -> PacketHeaderModel {
        PacketHeaderModel {
            assoc_id: self.assoc_id,
            pkt_id: self.pkt_id,
            frag_total: self.frag_total,
            frag_id: self.frag_id,
            size: self.size,
            addr: self.addr@,
        }
    }
}

impl PacketHeader {
    pub fn new(
        assoc_id: u16,
        pkt_id: u16,
        frag_total: u8,
        frag_id: u8,
        size: u16,
        addr: Address,
    ) -> (h: PacketHeader)
        requires
            frag_id < frag_total,
        ensures
            h@ == (PacketHeaderModel { assoc_id, pkt_id, frag_total, frag_id, size, addr: addr@ }),
    {
        PacketHeader { assoc_id, pkt_id, frag_total, frag_id, size, addr }
    }

    /// Byte length of the fixed fields of every packet header, the address
    /// excluded. The fragmentation engine budgets payload space with it.
    pub fn len_without_addr() -> (n: usize)
        ensures
            n == PACKET_HEADER_FIXED_LEN,
    {
        PACKET_HEADER_FIXED_LEN
    }

    /// Exact number of bytes [`PacketHeader::encode`] produces.
    pub fn len(&self) -> (n: usize)
        requires
            addr_model_wf(self@.addr),
        ensures
            n == PACKET_HEADER_FIXED_LEN + addr_model_len(self@.addr),
    {
        PACKET_HEADER_FIXED_LEN + self.addr.len()
    }

    /// Canonical wire encoding of this header.
    pub fn encode(&self) -> (out: Vec<u8>)
        requires
            addr_model_wf(self@.addr),
        ensures
            out@ == spec_encode_packet_header(self@),
            out@.len() == PACKET_HEADER_FIXED_LEN + addr_model_len(self@.addr),
    {
        let mut out: Vec<u8> = Vec::new();
        out.push((self.assoc_id / 256) as u8);
        out.push((self.assoc_id % 256) as u8);
        out.push((self.pkt_id / 256) as u8);
        out.push((self.pkt_id % 256) as u8);
        out.push(self.frag_total);
        out.push(self.frag_id);
        out.push((self.size / 256) as u8);
        out.push((self.size % 256) as u8);
        let mut tail = self.addr.encode();
        out.append(&mut tail);
        proof {
            assert(out@ =~= spec_encode_packet_header(self@));
        }
        out
    }

    /// Reads one packet header from the front of `buf`. The fragment fields
    /// come back as the wire carried them; whether `frag_id < frag_total`
    /// holds is for the reassembly engine to judge.
    pub fn decode(buf: &[u8]) -> (r: Result<(PacketHeader, usize), ProtocolError>)
        ensures
            match r {
                Ok(p) => spec_decode_packet_header(buf@) == Option::Some((p.0@, p.1 as int))
                    && addr_model_wf(p.0@.addr) && p.1 <= buf@.len(),
                Err(e) => spec_decode_packet_header(buf@) is None && e
                    == ProtocolError::MalformedHeader,
            },
    {
        if buf.len() < PACKET_HEADER_FIXED_LEN {
            return Err(ProtocolError::MalformedHeader);
        }
        let assoc_id = buf[0] as u16 * 256 + buf[1] as u16;
        let pkt_id = buf[2] as u16 * 256 + buf[3] as u16;
        let frag_total = buf[4];
        let frag_id = buf[5];
        let size = buf[6] as u16 * 256 + buf[7] as u16;
        let rest = &buf[PACKET_HEADER_FIXED_LEN..buf.len()];
        proof {
            assert(rest@ =~= buf@.skip(PACKET_HEADER_FIXED_LEN as int));
        }
        match Address::decode(rest) {
            Ok((addr, n)) => Ok(
                (
                    PacketHeader { assoc_id, pkt_id, frag_total, frag_id, size, addr },
                    PACKET_HEADER_FIXED_LEN + n,
                ),
            ),
            Err(e) => Err(e),
        }
    }
}

/// One protocol message header: a connection-open request or one UDP
/// fragment.
#[derive(Debug, Clone, PartialEq, Eq)]
pub enum Header {
    Connect(ConnectHeader),
    Packet(PacketHeader),
}

impl View for Header {
    type V = HeaderModel;

    open spec fn view(&self) -> HeaderModel {
        match self {
            Header::Connect(h) => HeaderModel::Connect(h@),
            Header::Packet(h) => HeaderModel::Packet(h@),
        }
    }
}

/// The address a header of either kind carries.
pub open spec fn header_model_addr(m: HeaderModel) -> AddrModel {
    match m {
        HeaderModel::Connect(h) => h.addr,
        HeaderModel::Packet(h) => h.addr,
    }
}

/// Canonical encoding of a header of either kind.
pub open spec fn spec_encode_header(m: HeaderModel) -> Seq<u8> {
    match m {
        HeaderModel::Connect(h) => spec_encode_connect_header(h),
        HeaderModel::Packet(h) => spec_encode_packet_header(h),
    }
}

impl Header {
    /// Canonical wire encoding of this header.
    pub fn encode(&self) -> (out: Vec<u8>)
        requires
            addr_model_wf(header_model_addr(self@)),
        ensures
            out@ == spec_encode_header(self@),
    {
        match self {
            Header::Connect(h) => h.encode(),
            Header::Packet(h) => h.encode(),
        }
    }
}

/// Round trip of the connect header codec: encoding a header with a
/// well-formed address and decoding the result, with any trailing bytes
/// behind it, yields the same header back and consumes exactly its length.
pub proof fn lemma_connect_header_round_trip(m: ConnectHeaderModel, rest: Seq<u8>)
    requires
        addr_model_wf(m.addr),
    ensures
        spec_encode_connect_header(m).len() == addr_model_len(m.addr),
        spec_decode_connect_header(spec_encode_connect_header(m) + rest) == Option::Some(
            (m, addr_model_len(m.addr)),
        ),
        spec_decode_connect_header(spec_encode_connect_header(m)) == Option::Some(
            (m, addr_model_len(m.addr)),
        ),
{
    lemma_addr_round_trip(m.addr, rest);
}

/// Round trip of the packet header codec, with any trailing bytes behind the
/// encoding.
pub proof fn lemma_packet_header_round_trip(m: PacketHeaderModel, rest: Seq<u8>)
    requires
        addr_model_wf(m.addr),
    ensures
        spec_encode_packet_header(m).len() == PACKET_HEADER_FIXED_LEN + addr_model_len(m.addr),
        spec_decode_packet_header(spec_encode_packet_header(m) + rest) == Option::Some(
            (m, PACKET_HEADER_FIXED_LEN + addr_model_len(m.addr)),
        ),
        spec_decode_packet_header(spec_encode_packet_header(m)) == Option::Some(
            (m, PACKET_HEADER_FIXED_LEN + addr_model_len(m.addr)),
        ),
{
    lemma_packet_header_round_trip_with(m, rest);
    lemma_packet_header_round_trip_with(m, Seq::<u8>::empty());
    assert(spec_encode_packet_header(m) + Seq::<u8>::empty() =~= spec_encode_packet_header(m));
}

proof fn lemma_packet_header_round_trip_with(m: PacketHeaderModel, rest: Seq<u8>)
    requires
        addr_model_wf(m.addr),
    ensures
        spec_encode_packet_header(m).len() == PACKET_HEADER_FIXED_LEN + addr_model_len(m.addr),
        spec_decode_packet_header(spec_encode_packet_header(m) + rest) == Option::Some(
            (m, PACKET_HEADER_FIXED_LEN + addr_model_len(m.addr)),
        ),
{
    let s = spec_encode_packet_header(m) + rest;
    lemma_addr_round_trip(m.addr, rest);
    assert(s.skip(PACKET_HEADER_FIXED_LEN as int) =~= spec_encode_addr(m.addr) + rest);
    crate::address::lemma_be_u16_round_trip(m.assoc_id);
    crate::address::lemma_be_u16_round_trip(m.pkt_id);
    crate::address::lemma_be_u16_round_trip(m.size);
}

} // verus!
