//! The UDP packet protocol object and its fragmentation engine: an oversized
//! payload is split into an ordered run of fragments, each one packet header
//! plus a payload slice no longer than the per-fragment byte budget, whose
//! concatenation is exactly the original payload.

use vstd::prelude::*;

verus! {

use crate::address::{Address, AddrModel, addr_model_wf, addr_model_len};
use crate::error::ProtocolError;
use crate::header::{Header, HeaderModel, PacketHeader, PacketHeaderModel, PACKET_HEADER_FIXED_LEN};
use crate::side::SideMarker;

/// Payload space left in the first fragment, which carries the full address
/// of byte length `alen`.
pub open spec fn first_frag_cap(max: int, alen: int) -> int {
    max - PACKET_HEADER_FIXED_LEN - alen
}

/// Payload space left in every fragment after the first, whose header
/// carries the one-byte absent address.
pub open spec fn rest_frag_cap(max: int) -> int {
    max - PACKET_HEADER_FIXED_LEN - 1
}

/// The fragment count the engine uses for a payload of length `len`. Where
/// the payload spills past the first fragment, the count is one first
/// fragment, one fragment per started run of `rest_frag_cap` bytes, and one
/// more: the formula deliberately rounds past the ceiling when the spill
/// divides evenly, so the last fragment may then carry zero payload bytes —
/// a receiver must tolerate an empty trailing fragment.
pub open spec fn spec_frag_total(max: int, alen: int, len: int) -> int {
    if len <= first_frag_cap(max, alen) {
        1
    } else {
        1 + (len - first_frag_cap(max, alen)) / rest_frag_cap(max) + 1
    }
}

/// Byte offset into the payload at which fragment `i` begins; clamped to the
/// payload length once the payload is exhausted.
pub open spec fn frag_start(max: int, alen: int, len: int, i: int) -> int {
    if i <= 0 {
        0
    } else {
        let unclamped = first_frag_cap(max, alen) + (i - 1) * rest_frag_cap(max);
        if unclamped <= len {
            unclamped
        } else {
            len
        }
    }
}

/// The payload slice fragment `i` carries.
pub open spec fn spec_fragment_payload(payload: Seq<u8>, max: int, alen: int, i: int) -> Seq<u8> {
    payload.subrange(
        frag_start(max, alen, payload.len() as int, i),
        frag_start(max, alen, payload.len() as int, i + 1),
    )
}

/// The address fragment `i` carries: the real address on the first fragment,
/// the absent address on every later one.
pub open spec fn spec_fragment_addr(init: AddrModel, i: int) -> AddrModel {
    if i == 0 {
        init
    } else {
        AddrModel::Absent
    }
}

/// Concatenation of the payload slices of fragments `0 .. k`, in order.
pub open spec fn spec_concat_fragments(payload: Seq<u8>, max: int, alen: int, k: int) -> Seq<u8>
    decreases k,
{
    if k <= 0 {
        Seq::empty()
    } else {
        spec_concat_fragments(payload, max, alen, k - 1) + spec_fragment_payload(
            payload,
            max,
            alen,
            k - 1,
        )
    }
}

/// Transmit-side state of a UDP packet: everything the fragmentation engine
/// needs, fixed at construction.
pub struct Tx {
    pub assoc_id: u16,
    pub pkt_id: u16,
    pub addr: Address,
    pub max_pkt_size: usize,
}

/// Receive-side placeholder: a packet observed from the wire is populated by
/// the decode path, never through the transmit constructor.
pub struct Rx;

impl SideMarker for Tx {

}

impl SideMarker for Rx {

}

/// A UDP packet protocol object, statically tagged with the side it is valid
/// for.
pub struct Packet<M: SideMarker> {
    pub side: M,
}

/// The byte budget admits the header with the full address, leaves at least
/// one payload byte per non-first fragment, and keeps every fragment's
/// payload length within the u16 `size` field.
pub open spec fn tx_budget_wf(addr: AddrModel, max_pkt_size: usize) -> bool {
    &&& addr_model_wf(addr)
    &&& max_pkt_size >= PACKET_HEADER_FIXED_LEN + addr_model_len(addr)
    &&& max_pkt_size >= PACKET_HEADER_FIXED_LEN + 2
    &&& max_pkt_size <= u16::MAX
}

impl Packet<Tx> {
    pub open spec fn wf(&self) -> bool {
        tx_budget_wf(self.side.addr@, self.side.max_pkt_size)
    }

    pub fn new(assoc_id: u16, pkt_id: u16, addr: Address, max_pkt_size: usize) -> (p: Self)
        requires
            tx_budget_wf(addr@, max_pkt_size),
        ensures
            p.wf(),
            p.side.assoc_id == assoc_id,
            p.side.pkt_id == pkt_id,
            p.side.addr == addr,
            p.side.max_pkt_size == max_pkt_size,
    {
        Packet { side: Tx { assoc_id, pkt_id, addr, max_pkt_size } }
    }

    /// Consumes this packet into the fragment iterator over `payload`.
    /// Succeeds exactly when the payload splits into at most 255 fragments;
    /// otherwise nothing is emitted and the payload is too large.
    pub fn into_fragments<'a>(self, payload: &'a [u8]) -> (r: Result<
        Fragment<'a>,
        ProtocolError,
    >)
        requires
            self.wf(),
        ensures
            match r {
                Ok(f) => {
                    &&& f.wf()
                    &&& spec_frag_total(
                        self.side.max_pkt_size as int,
                        addr_model_len(self.side.addr@),
                        payload@.len() as int,
                    ) <= 255
                    &&& f.assoc_id == self.side.assoc_id
                    &&& f.pkt_id == self.side.pkt_id
                    &&& f.init_addr@ == self.side.addr@
                    &&& f.max_pkt_size == self.side.max_pkt_size
                    &&& f.payload@ == payload@
                    &&& f.next_frag_id == 0
                    &&& f.frag_total as int == spec_frag_total(
                        self.side.max_pkt_size as int,
                        addr_model_len(self.side.addr@),
                        payload@.len() as int,
                    )
                },
                Err(e) => {
                    &&& spec_frag_total(
                        self.side.max_pkt_size as int,
                        addr_model_len(self.side.addr@),
                        payload@.len() as int,
                    ) > 255
                    &&& e == ProtocolError::PacketTooLarge
                },
            },
    {
        let tx = self.side;
        Fragment::new(tx.assoc_id, tx.pkt_id, tx.addr, tx.max_pkt_size, payload)
    }
}

/// The fragmentation engine: a lazy, finite, non-restartable run of
/// `(header, payload slice)` pairs over one borrowed payload.
pub struct Fragment<'a> {
    pub assoc_id: u16,
    pub pkt_id: u16,
    pub addr: Address,
    pub max_pkt_size: usize,
    pub frag_total: u8,
    pub next_frag_id: u8,
    pub next_frag_start: usize,
    pub payload: &'a [u8],
    pub init_addr: Ghost<AddrModel>,
}

impl<'a> Fragment<'a> {
    /// The iterator's invariant: the budget is well formed, the fragment
    /// count is the engine's formula, the cursor stands at the start of the
    /// next fragment, and the address is still held exactly until the first
    /// fragment has been emitted.
    pub open spec fn wf(&self) -> bool {
        &&& tx_budget_wf(self.init_addr@, self.max_pkt_size)
        &&& self.frag_total as int == spec_frag_total(
            self.max_pkt_size as int,
            addr_model_len(self.init_addr@),
            self.payload@.len() as int,
        )
        &&& self.next_frag_id <= self.frag_total
        &&& self.next_frag_start as int == frag_start(
            self.max_pkt_size as int,
            addr_model_len(self.init_addr@),
            self.payload@.len() as int,
            self.next_frag_id as int,
        )
        &&& self.addr@ == spec_fragment_addr(self.init_addr@, self.next_frag_id as int)
    }

    pub fn new(
        assoc_id: u16,
        pkt_id: u16,
        addr: Address,
        max_pkt_size: usize,
        payload: &'a [u8],
    ) -> (r: Result<Fragment<'a>, ProtocolError>)
        requires
            tx_budget_wf(addr@, max_pkt_size),
        ensures
            match r {
                Ok(f) => {
                    &&& f.wf()
                    &&& spec_frag_total(
                        max_pkt_size as int,
                        addr_model_len(addr@),
                        payload@.len() as int,
                    ) <= 255
                    &&& f.assoc_id == assoc_id
                    &&& f.pkt_id == pkt_id
                    &&& f.init_addr@ == addr@
                    &&& f.max_pkt_size == max_pkt_size
                    &&& f.payload@ == payload@
                    &&& f.next_frag_id == 0
                    &&& f.frag_total as int == spec_frag_total(
                        max_pkt_size as int,
                        addr_model_len(addr@),
                        payload@.len() as int,
                    )
                },
                Err(e) => {
                    &&& spec_frag_total(
                        max_pkt_size as int,
                        addr_model_len(addr@),
                        payload@.len() as int,
                    ) > 255
                    &&& e == ProtocolError::PacketTooLarge
                },
            },
    {
        let ghost init_addr: AddrModel = addr@;
        let first_cap = max_pkt_size - PACKET_HEADER_FIXED_LEN - addr.len();
        let rest_cap = max_pkt_size - PACKET_HEADER_FIXED_LEN - 1;
        let frag_total: u8;
        if payload.len() <= first_cap {
            frag_total = 1;
        } else {
            let q = (payload.len() - first_cap) / rest_cap;
            if q > 253 {
                return Err(ProtocolError::PacketTooLarge);
            }
            frag_total = q as u8 + 2;
        }
        Ok(
            Fragment {
                assoc_id,
                pkt_id,
                addr,
                max_pkt_size,
                frag_total,
                next_frag_id: 0,
                next_frag_start: 0,
                payload,
                init_addr: Ghost(init_addr),
            },
        )
    }

    /// Number of fragments this run was built for; fixed for its whole life.
    pub fn len(&self) -> (n: usize)
        ensures
            n == self.frag_total as usize,
    {
        self.frag_total as usize
    }

    /// Emits the next fragment: its header and its payload slice. The header
    /// carries the real address exactly on the fragment with `frag_id == 0`
    /// and the absent address on every later one; the slice is the next run
    /// of payload bytes. Yields `None` exactly when all `frag_total`
    /// fragments are out, and never again anything after that.
    pub fn next(&mut self) -> (r: Option<(Header, &'a [u8])>)
        requires
            old(self).wf(),
        ensures
            final(self).wf(),
            final(self).assoc_id == old(self).assoc_id,
            final(self).pkt_id == old(self).pkt_id,
            final(self).max_pkt_size == old(self).max_pkt_size,
            final(self).frag_total == old(self).frag_total,
            final(self).payload@ == old(self).payload@,
            final(self).init_addr@ == old(self).init_addr@,
            match r {
                Some(item) => {
                    &&& old(self).next_frag_id < old(self).frag_total
                    &&& final(self).next_frag_id == old(self).next_frag_id + 1
                    &&& item.1@ == spec_fragment_payload(
                        old(self).payload@,
                        old(self).max_pkt_size as int,
                        addr_model_len(old(self).init_addr@),
                        old(self).next_frag_id as int,
                    )
                    &&& item.0@ == HeaderModel::Packet(
                        PacketHeaderModel {
                            assoc_id: old(self).assoc_id,
                            pkt_id: old(self).pkt_id,
                            frag_total: old(self).frag_total,
                            frag_id: old(self).next_frag_id,
                            size: item.1@.len() as u16,
                            addr: spec_fragment_addr(
                                old(self).init_addr@,
                                old(self).next_frag_id as int,
                            ),
                        },
                    )
                },
                None => {
                    &&& old(self).next_frag_id == old(self).frag_total
                    &&& *final (self) == *old(self)
                },
            },
    {
        if self.next_frag_id < self.frag_total {
            let ghost max = self.max_pkt_size as int;
            let ghost alen = addr_model_len(self.init_addr@);
            let ghost plen = self.payload@.len() as int;
            let ghost i = self.next_frag_id as int;
            let payload_size = self.max_pkt_size - PACKET_HEADER_FIXED_LEN - self.addr.len();
            let pl: &'a [u8] = self.payload;
            let remaining = pl.len() - self.next_frag_start;
            let next_frag_end = if payload_size < remaining {
                self.next_frag_start + payload_size
            } else {
                pl.len()
            };
            proof {
                let c0 = first_frag_cap(max, alen);
                let c = rest_frag_cap(max);
                assert(i * c == (i - 1) * c + c) by (nonlinear_arith);
                assert((i + 1 - 1) * c == i * c);
                if i == 0 {
                    assert(payload_size as int == c0);
                    assert(self.next_frag_start as int == 0);
                    assert(frag_start(max, alen, plen, 1) == if c0 + 0 * c <= plen {
                        c0 + 0 * c
                    } else {
                        plen
                    });
                    assert(0 * c == 0) by (nonlinear_arith);
                } else {
                    assert(self.addr@ == AddrModel::Absent);
                    assert(payload_size as int == c);
                    assert(self.next_frag_start as int == frag_start(max, alen, plen, i));
                }
                assert(next_frag_end as int == frag_start(max, alen, plen, i + 1));
            }
            let size = (next_frag_end - self.next_frag_start) as u16;
            let taken = self.addr.take();
            let header = Header::Packet(
                PacketHeader::new(
                    self.assoc_id,
                    self.pkt_id,
                    self.frag_total,
                    self.next_frag_id,
                    size,
                    taken,
                ),
            );
            let fragment = &pl[self.next_frag_start..next_frag_end];
            self.next_frag_id = self.next_frag_id + 1;
            self.next_frag_start = next_frag_end;
            Some((header, fragment))
        } else {
            None
        }
    }
}

/// Fragmentation is complete: concatenating the payload slices of all
/// `spec_frag_total` fragments, in fragment order, is exactly the original
/// payload, for every payload and every budget that admits the header and at
/// least one payload byte per non-first fragment.
pub proof fn lemma_fragmentation_complete(payload: Seq<u8>, max: int, alen: int)
    requires
        first_frag_cap(max, alen) >= 0,
        rest_frag_cap(max) >= 1,
    ensures
        spec_concat_fragments(payload, max, alen, spec_frag_total(max, alen, payload.len() as int))
            == payload,
{
    let len = payload.len() as int;
    let total = spec_frag_total(max, alen, len);
    lemma_concat_fragments_prefix(payload, max, alen, total);
    lemma_frag_start_total(max, alen, len);
    assert(payload.subrange(0, len) =~= payload);
}

/// The fragment count is at least one, and the start offset of the
/// one-past-last fragment is exactly the payload length: the fragments cover
/// the whole payload.
pub proof fn lemma_frag_start_total(max: int, alen: int, len: int)
    requires
        first_frag_cap(max, alen) >= 0,
        rest_frag_cap(max) >= 1,
        len >= 0,
    ensures
        spec_frag_total(max, alen, len) >= 1,
        frag_start(max, alen, len, spec_frag_total(max, alen, len)) == len,
{
    let total = spec_frag_total(max, alen, len);
    let c0 = first_frag_cap(max, alen);
    let c = rest_frag_cap(max);
    if len <= c0 {
        assert(frag_start(max, alen, len, 1) == len);
    } else {
        let q = (len - c0) / c;
        vstd::arithmetic::div_mod::lemma_fundamental_div_mod(len - c0, c);
        vstd::arithmetic::div_mod::lemma_mod_bound(len - c0, c);
        assert(total == q + 2);
        assert((total - 1) * c == q * c + c) by (nonlinear_arith)
            requires
                total == q + 2,
        ;
        assert(q * c == (len - c0) - (len - c0) % c);
        assert(c0 + (total - 1) * c >= len);
        assert(frag_start(max, alen, len, total) == len);
    }
}

/// The concatenation of the first `k` fragment slices is the payload prefix
/// up to the start of fragment `k`.
proof fn lemma_concat_fragments_prefix(payload: Seq<u8>, max: int, alen: int, k: int)
    requires
        first_frag_cap(max, alen) >= 0,
        rest_frag_cap(max) >= 1,
        k >= 0,
    ensures
        spec_concat_fragments(payload, max, alen, k) == payload.subrange(
            0,
            frag_start(max, alen, payload.len() as int, k),
        ),
    decreases k,
{
    let len = payload.len() as int;
    if k == 0 {
        assert(spec_concat_fragments(payload, max, alen, 0) =~= payload.subrange(0, 0));
    } else {
        lemma_concat_fragments_prefix(payload, max, alen, k - 1);
        lemma_frag_start_monotone(max, alen, len, k - 1);
        assert(payload.subrange(0, frag_start(max, alen, len, k - 1)) + payload.subrange(
            frag_start(max, alen, len, k - 1),
            frag_start(max, alen, len, k),
        ) =~= payload.subrange(0, frag_start(max, alen, len, k)));
    }
}

/// Fragment start offsets are in range and nondecreasing.
pub proof fn lemma_frag_start_monotone(max: int, alen: int, len: int, i: int)
    requires
        first_frag_cap(max, alen) >= 0,
        rest_frag_cap(max) >= 1,
        i >= 0,
        len >= 0,
    ensures
        0 <= frag_start(max, alen, len, i),
        frag_start(max, alen, len, i) <= frag_start(max, alen, len, i + 1),
        frag_start(max, alen, len, i + 1) <= len,
{
    let c = rest_frag_cap(max);
    if i >= 1 {
        assert(i * c == (i - 1) * c + c) by (nonlinear_arith);
        assert((i - 1) * c >= 0) by (nonlinear_arith)
            requires
                i >= 1 && c >= 1,
        ;
    }
}

} // verus!
