//! The target address carried by the wire protocol, with its canonical
//! encoding: one tag byte, then the variant's own fields.
//!
//! Wire layout (big-endian ports):
//! - `Absent`: tag `0x00`, nothing further (1 byte in all);
//! - `DomainAddress`: tag `0x01`, one name-length byte, the name bytes, the
//!   port (4 + name length bytes in all);
//! - `SocketAddress`: tag `0x02`, one IP-length byte (4 or 16), the IP bytes,
//!   the port (4 + IP length bytes in all).

use vstd::prelude::*;

verus! {

use crate::error::ProtocolError;

pub const TAG_ABSENT: u8 = 0;

pub const TAG_DOMAIN: u8 = 1;

pub const TAG_SOCKET: u8 = 2;

/// Abstract value of an [`Address`]: the mathematical content of the wire
/// encoding, used by every contract of the codec.
pub enum AddrModel {
    Absent,
    Domain { name: Seq<u8>, port: u16 },
    Socket { ip: Seq<u8>, port: u16 },
}

/// A domain name fits its one-byte length prefix; an IP is 4 or 16 bytes.
pub open spec fn addr_model_wf(a: AddrModel) -> bool {
    match a {
        AddrModel::Absent => true,
        AddrModel::Domain { name, port } => name.len() <= 255,
        AddrModel::Socket { ip, port } => ip.len() == 4 || ip.len() == 16,
    }
}

/// Exact number of bytes the encoding of `a` occupies, tag byte included.
pub open spec fn addr_model_len(a: AddrModel) -> int {
    match a {
        AddrModel::Absent => 1,
        AddrModel::Domain { name, port } => 4 + name.len() as int,
        AddrModel::Socket { ip, port } => 4 + ip.len() as int,
    }
}

/// Big-endian bytes of a 16-bit value.
pub open spec fn be_u16(x: u16) -> Seq<u8> {
    seq![(x / 256) as u8, (x % 256) as u8]
}

/// The 16-bit value read back from two big-endian bytes.
pub open spec fn be_u16_val(hi: u8, lo: u8) -> u16 {
    (hi * 256 + lo) as u16
}

/// Canonical encoding of an address value.
pub open spec fn spec_encode_addr(a: AddrModel) -> Seq<u8> {
    match a {
        AddrModel::Absent => seq![TAG_ABSENT],
        AddrModel::Domain { name, port } => seq![TAG_DOMAIN, name.len() as u8] + name + be_u16(
            port,
        ),
        AddrModel::Socket { ip, port } => seq![TAG_SOCKET, ip.len() as u8] + ip + be_u16(port),
    }
}

/// Total decoding function: the address read from the front of `s` and the
/// number of bytes it consumed, or `None` when `s` starts with no valid
/// address encoding.
pub open spec fn spec_decode_addr(s: Seq<u8>) -> Option<(AddrModel, int)> {
    if s.len() < 1 {
        Option::None
    } else if s[0] == TAG_ABSENT {
        Option::Some((AddrModel::Absent, 1int))
    } else if s[0] == TAG_DOMAIN {
        if s.len() < 2 {
            Option::None
        } else {
            let n = s[1] as int;
            if s.len() < 4 + n {
                Option::None
            } else {
                Option::Some(
                    (
                        AddrModel::Domain {
                            name: s.subrange(2, 2 + n),
                            port: be_u16_val(s[2 + n], s[3 + n]),
                        },
                        4 + n,
                    ),
                )
            }
        }
    } else if s[0] == TAG_SOCKET {
        if s.len() < 2 {
            Option::None
        } else {
            let n = s[1] as int;
            if n != 4 && n != 16 {
                Option::None
            } else if s.len() < 4 + n {
                Option::None
            } else {
                Option::Some(
                    (
                        AddrModel::Socket {
                            ip: s.subrange(2, 2 + n),
                            port: be_u16_val(s[2 + n], s[3 + n]),
                        },
                        4 + n,
                    ),
                )
            }
        }
    } else {
        Option::None
    }
}

/// A tunnel target: absent (to save bytes on non-first fragments), a domain
/// name with a port, or a socket address with a 4- or 16-byte IP and a port.
#[derive(Debug, Clone, PartialEq, Eq)]
pub enum Address {
    Absent,
    DomainAddress { name: Vec<u8>, port: u16 },
    SocketAddress { ip: Vec<u8>, port: u16 },
}

impl View for Address {
    type V = AddrModel;

    open spec fn view(&self) -> AddrModel {
        match self {
            Address::Absent => AddrModel::Absent,
            Address::DomainAddress { name, port } => AddrModel::Domain {
                name: name@,
                port: *port,
            },
            Address::SocketAddress { ip, port } => AddrModel::Socket { ip: ip@, port: *port },
        }
    }
}

impl Address {
    /// Exact number of bytes [`Address::encode`] produces for this value.
    pub fn len(&self) -> (n: usize)
        requires
            addr_model_wf(self@),
        ensures
            n == addr_model_len(self@),
    {
        match self {
            Address::Absent => 1,
            Address::DomainAddress { name, port } => 4 + name.len(),
            Address::SocketAddress { ip, port } => 4 + ip.len(),
        }
    }

    /// Destructive read: yields the current value and leaves `Absent` behind.
    /// The fragmentation engine uses it so that only the first fragment
    /// carries the real address.
    pub fn take(&mut self) -> (prev: Address)
        ensures
            prev == *old(self),
            final(self)@ == AddrModel::Absent,
    {
        let mut out = Address::Absent;
        core::mem::swap(self, &mut out);
        out
    }

    /// Canonical wire encoding of this address.
    pub fn encode(&self) -> (out: Vec<u8>)
        requires
            addr_model_wf(self@),
        ensures
            out@ == spec_encode_addr(self@),
            out@.len() == addr_model_len(self@),
    {
        let mut out: Vec<u8> = Vec::new();
        match self {
            Address::Absent => {
                out.push(TAG_ABSENT);
            },
            Address::DomainAddress { name, port } => {
                out.push(TAG_DOMAIN);
                out.push(name.len() as u8);
                let mut i: usize = 0;
                while i < name.len()
                    invariant
                        i <= name.len(),
                        name.len() <= 255,
                        out@ == seq![TAG_DOMAIN, name.len() as u8] + name@.subrange(0, i as int),
                    decreases name.len() - i,
                {
                    out.push(name[i]);
                    i = i + 1;
                    proof {
                        assert(name@.subrange(0, i as int) == name@.subrange(0, i - 1).push(
                            name@[i - 1],
                        ));
                    }
                }
                out.push((port / 256) as u8);
                out.push((port % 256) as u8);
                proof {
                    assert(name@.subrange(0, name@.len() as int) == name@);
                    assert(out@ =~= spec_encode_addr(self@));
                }
            },
            Address::SocketAddress { ip, port } => {
                out.push(TAG_SOCKET);
                out.push(ip.len() as u8);
                let mut i: usize = 0;
                while i < ip.len()
                    invariant
                        i <= ip.len(),
                        ip.len() <= 255,
                        out@ == seq![TAG_SOCKET, ip.len() as u8] + ip@.subrange(0, i as int),
                    decreases ip.len() - i,
                {
                    out.push(ip[i]);
                    i = i + 1;
                    proof {
                        assert(ip@.subrange(0, i as int) == ip@.subrange(0, i - 1).push(
                            ip@[i - 1],
                        ));
                    }
                }
                out.push((port / 256) as u8);
                out.push((port % 256) as u8);
                proof {
                    assert(ip@.subrange(0, ip@.len() as int) == ip@);
                    assert(out@ =~= spec_encode_addr(self@));
                }
            },
        }
        proof {
            assert(out@ =~= spec_encode_addr(self@));
        }
        out
    }

    /// Reads one address from the front of `buf`, returning it with the
    /// number of bytes consumed, or `MalformedHeader` when `buf` starts with
    /// no valid encoding.
    pub fn decode(buf: &[u8]) -> (r: Result<(Address, usize), ProtocolError>)
        ensures
            match r {
                Ok(p) => spec_decode_addr(buf@) == Option::Some((p.0@, p.1 as int))
                    && addr_model_wf(p.0@) && p.1 <= buf@.len(),
                Err(e) => spec_decode_addr(buf@) is None && e == ProtocolError::MalformedHeader,
            },
    {
        if buf.len() < 1 {
            return Err(ProtocolError::MalformedHeader);
        }
        let tag = buf[0];
        if tag == TAG_ABSENT {
            Ok((Address::Absent, 1))
        } else if tag == TAG_DOMAIN {
            if buf.len() < 2 {
                return Err(ProtocolError::MalformedHeader);
            }
            let n = buf[1] as usize;
            if buf.len() < 4 + n {
                return Err(ProtocolError::MalformedHeader);
            }
            let mut name: Vec<u8> = Vec::new();
            let mut i: usize = 0;
            while i < n
                invariant
                    i <= n,
                    n <= 255,
                    4 + n <= buf@.len(),
                    name@ == buf@.subrange(2, 2 + i as int),
                decreases n - i,
            {
                name.push(buf[2 + i]);
                i = i + 1;
                proof {
                    assert(buf@.subrange(2, 2 + i as int) == buf@.subrange(2, 2 + i - 1).push(
                        buf@[2 + i - 1],
                    ));
                }
            }
            let port = buf[2 + n] as u16 * 256 + buf[3 + n] as u16;
            Ok((Address::DomainAddress { name, port }, 4 + n))
        } else if tag == TAG_SOCKET {
            if buf.len() < 2 {
                return Err(ProtocolError::MalformedHeader);
            }
            let n = buf[1] as usize;
            if n != 4 && n != 16 {
                return Err(ProtocolError::MalformedHeader);
            }
            if buf.len() < 4 + n {
                return Err(ProtocolError::MalformedHeader);
            }
            let mut ip: Vec<u8> = Vec::new();
            let mut i: usize = 0;
            while i < n
                invariant
                    i <= n,
                    n <= 255,
                    4 + n <= buf@.len(),
                    ip@ == buf@.subrange(2, 2 + i as int),
                decreases n - i,
            {
                ip.push(buf[2 + i]);
                i = i + 1;
                proof {
                    assert(buf@.subrange(2, 2 + i as int) == buf@.subrange(2, 2 + i - 1).push(
                        buf@[2 + i - 1],
                    ));
                }
            }
            let port = buf[2 + n] as u16 * 256 + buf[3 + n] as u16;
            Ok((Address::SocketAddress { ip, port }, 4 + n))
        } else {
            Err(ProtocolError::MalformedHeader)
        }
    }
}

/// Round trip of the address codec: encoding a well-formed address and
/// decoding the result, with any trailing bytes behind it, yields the same
/// address back and consumes exactly its wire length.
pub proof fn lemma_addr_round_trip(a: AddrModel, rest: Seq<u8>)
    requires
        addr_model_wf(a),
    ensures
        spec_encode_addr(a).len() == addr_model_len(a),
        spec_decode_addr(spec_encode_addr(a) + rest) == Option::Some((a, addr_model_len(a))),
        spec_decode_addr(spec_encode_addr(a)) == Option::Some((a, addr_model_len(a))),
{
    let s = spec_encode_addr(a) + rest;
    match a {
        AddrModel::Absent => {
            assert(s[0] == TAG_ABSENT);
            assert(spec_encode_addr(a) + Seq::<u8>::empty() =~= spec_encode_addr(a));
        },
        AddrModel::Domain { name, port } => {
            let n = name.len() as int;
            assert(s[0] == TAG_DOMAIN);
            assert(s[1] == n as u8);
            assert(s.subrange(2, 2 + n) =~= name);
            assert(s[2 + n] == (port / 256) as u8);
            assert(s[3 + n] == (port % 256) as u8);
            lemma_be_u16_round_trip(port);
            let s0 = spec_encode_addr(a);
            assert(s0.subrange(2, 2 + n) =~= name);
        },
        AddrModel::Socket { ip, port } => {
            let n = ip.len() as int;
            assert(s[0] == TAG_SOCKET);
            assert(s[1] == n as u8);
            assert(s.subrange(2, 2 + n) =~= ip);
            assert(s[2 + n] == (port / 256) as u8);
            assert(s[3 + n] == (port % 256) as u8);
            lemma_be_u16_round_trip(port);
            let s0 = spec_encode_addr(a);
            assert(s0.subrange(2, 2 + n) =~= ip);
        },
    }
}

/// Splitting a 16-bit value into big-endian bytes and reading them back is
/// the identity.
pub proof fn lemma_be_u16_round_trip(x: u16)
    ensures
        be_u16_val((x / 256) as u8, (x % 256) as u8) == x,
{
    assert(x / 256 * 256 + x % 256 == x) by (nonlinear_arith);
}

} // verus!
