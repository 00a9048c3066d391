//! Receive-side reassembly: fragments of one logical UDP datagram arrive in
//! arbitrary order over an unreliable channel, keyed by association id and
//! packet id, and are accumulated until every fragment slot is filled; the
//! slices are then concatenated in fragment order and delivered with the
//! address the first fragment carried. Duplicates overwrite idempotently, a
//! fragment whose total disagrees with the record in progress is dropped, and
//! stale partial records can be evicted to bound memory.

use vstd::prelude::*;

verus! {

use crate::address::{Address, AddrModel};
use crate::header::PacketHeader;

/// Abstract value of one partial-assembly record.
#[verifier::ext_equal]
pub struct RecModel {
    pub frag_total: u8,
    pub addr: Option<AddrModel>,
    pub slots: Seq<Option<Seq<u8>>>,
    pub created_at: u64,
}

/// Number of filled slots.
pub open spec fn count_filled(s: Seq<Option<Seq<u8>>>) -> int
    decreases s.len(),
{
    if s.len() == 0 {
        0
    } else {
        count_filled(s.drop_last()) + if s.last() is Some {
            1int
        } else {
            0int
        }
    }
}

/// Concatenation of the filled slots in slot order; an unfilled slot
/// contributes nothing.
pub open spec fn assembled(s: Seq<Option<Seq<u8>>>) -> Seq<u8>
    decreases s.len(),
{
    if s.len() == 0 {
        Seq::empty()
    } else {
        (match s[0] {
            Option::Some(v) => v,
            Option::None => Seq::empty(),
        }) + assembled(s.skip(1))
    }
}

/// The record a first-arriving fragment of a fresh packet starts from: all
/// slots empty, no address yet, stamped with the arrival tick.
pub open spec fn empty_rec(frag_total: u8, now: u64) -> RecModel {
    RecModel {
        frag_total,
        addr: Option::None,
        slots: Seq::new(frag_total as nat, |i: int| Option::None),
        created_at: now,
    }
}

/// One fragment delivered into a record: its slot is filled (a duplicate
/// overwrites), and the address is captured exactly from the fragment with
/// `frag_id == 0`.
pub open spec fn fill_rec(r: RecModel, frag_id: u8, addr: AddrModel, payload: Seq<u8>) -> RecModel {
    RecModel {
        frag_total: r.frag_total,
        addr: if frag_id == 0 {
            Option::Some(addr)
        } else {
            r.addr
        },
        slots: r.slots.update(frag_id as int, Option::Some(payload)),
        created_at: r.created_at,
    }
}

/// All slots are filled: the datagram can be delivered.
pub open spec fn rec_complete(r: RecModel) -> bool {
    count_filled(r.slots) == r.slots.len()
}

/// One partial-assembly record: the fragment total recorded at creation, a
/// slot per fragment, the address captured from fragment 0, a filled-slot
/// counter, and the arrival tick of the first fragment.
pub struct PartialPacket {
    pub frag_total: u8,
    pub addr: Option<Address>,
    pub slots: Vec<Option<Vec<u8>>>,
    pub filled: usize,
    pub created_at: u64,
}

impl View for PartialPacket {
    type V = RecModel;

    open spec fn view(&self) -> RecModel {
        RecModel {
            frag_total: self.frag_total,
            addr: match self.addr {
                Option::Some(a) => Option::Some(a@),
                Option::None => Option::None,
            },
            slots: self.slots.deep_view(),
            created_at: self.created_at,
        }
    }
}

/// Internal consistency of one record: one slot per fragment, the counter
/// counts the filled slots, and the address is held exactly when slot 0 is.
pub open spec fn rec_inv(p: PartialPacket) -> bool {
    &&& p.frag_total >= 1
    &&& p.slots.len() == p.frag_total as int
    &&& p.filled as int == count_filled(p@.slots)
    &&& (p@.addr is Some <==> p@.slots[0] is Some)
}

/// One table entry: the record for one `(assoc_id, pkt_id)` key.
pub struct Entry {
    pub assoc_id: u16,
    pub pkt_id: u16,
    pub rec: PartialPacket,
}

pub open spec fn entry_key(e: Entry) -> (u16, u16) {
    (e.assoc_id, e.pkt_id)
}

/// No two entries carry the same key.
pub open spec fn entries_distinct(s: Seq<Entry>) -> bool {
    forall|i: int, j: int|
        #![trigger entry_key(s[i]), entry_key(s[j])]
        0 <= i < j < s.len() ==> entry_key(s[i]) != entry_key(s[j])
}

/// Every stored record is internally consistent and still incomplete: a
/// completed one is delivered and removed at once.
pub open spec fn entries_inv(s: Seq<Entry>) -> bool {
    forall|i: int|
        0 <= i < s.len() ==> rec_inv(#[trigger] s[i].rec) && (s[i].rec.filled as int) < (
        s[i].rec.frag_total as int)
}

/// The mapping the entry list stands for.
pub open spec fn map_of(s: Seq<Entry>) -> Map<(u16, u16), RecModel>
    decreases s.len(),
{
    if s.len() == 0 {
        Map::empty()
    } else {
        map_of(s.drop_last()).insert(entry_key(s.last()), s.last().rec@)
    }
}

/// The reassembly engine: a table of in-progress records, one per
/// `(assoc_id, pkt_id)` key.
pub struct Reassembly {
    pub entries: Vec<Entry>,
}

impl View for Reassembly {
    type V = Map<(u16, u16), RecModel>;

    open spec fn view(&self) -> Map<(u16, u16), RecModel> {
        map_of(self.entries@)
    }
}

impl Reassembly {
    pub open spec fn wf(&self) -> bool {
        entries_distinct(self.entries@) && entries_inv(self.entries@)
    }

    pub fn new() -> (r: Reassembly)
        ensures
            r.wf(),
            r@ == Map::<(u16, u16), RecModel>::empty(),
    {
        Reassembly { entries: Vec::new() }
    }

    /// Delivers one decoded fragment into the table.
    ///
    /// A fragment whose header is inconsistent (`frag_total == 0` or
    /// `frag_id >= frag_total`), or whose `frag_total` disagrees with the
    /// record already in progress under its key, is dropped and the table is
    /// left unchanged. Otherwise the fragment fills its slot in the record
    /// under its key (started fresh at tick `now` if none is in progress),
    /// and when that fills the last open slot the record is removed and the
    /// datagram is delivered: the address captured from fragment 0 and the
    /// slot payloads concatenated in fragment order.
    pub fn insert_fragment(&mut self, header: PacketHeader, fragment: Vec<u8>, now: u64) -> (r:
        Option<(Address, Vec<u8>)>)
        requires
            old(self).wf(),
        ensures
            final(self).wf(),
            ({
                let k = (header.assoc_id, header.pkt_id);
                let m = old(self)@;
                if header.frag_total == 0 || header.frag_id >= header.frag_total {
                    final(self)@ == m && r is None
                } else if m.contains_key(k) && m[k].frag_total != header.frag_total {
                    final(self)@ == m && r is None
                } else {
                    let r0 = if m.contains_key(k) {
                        m[k]
                    } else {
                        empty_rec(header.frag_total, now)
                    };
                    let r1 = fill_rec(r0, header.frag_id, header.addr@, fragment@);
                    if rec_complete(r1) {
                        &&& final(self)@ == m.remove(k)
                        &&& r matches Some(out) && Option::Some(out.0@) == r1.addr && out.1@
                            == assembled(r1.slots)
                    } else {
                        &&& final(self)@ == m.insert(k, r1)
                        &&& r is None
                    }
                }
            }),
    {
        let assoc_id = header.assoc_id;
        let pkt_id = header.pkt_id;
        let frag_total = header.frag_total;
        let frag_id = header.frag_id;
        let addr = header.addr;
        let ghost k = (assoc_id, pkt_id);
        let ghost m = map_of(self.entries@);
        if frag_total == 0 || frag_id >= frag_total {
            return None;
        }
        let n = self.entries.len();
        let mut idx: usize = 0;
        let mut found: bool = false;
        while idx < n && !found
            invariant
                idx <= n,
                n == self.entries@.len(),
                self.entries@ == old(self).entries@,
                !found ==> forall|j: int|
                    0 <= j < idx ==> !((#[trigger] self.entries@[j]).assoc_id == assoc_id
                        && self.entries@[j].pkt_id == pkt_id),
                found ==> idx < n && self.entries@[idx as int].assoc_id == assoc_id
                    && self.entries@[idx as int].pkt_id == pkt_id,
            decreases n - idx + if found {
                0int
            } else {
                1int
            },
        {
            if self.entries[idx].assoc_id == assoc_id && self.entries[idx].pkt_id == pkt_id {
                found = true;
            } else {
                idx = idx + 1;
            }
        }
        proof {
            assert forall|j: int| 0 <= j < self.entries@.len() && !found implies entry_key(
                #[trigger] self.entries@[j],
            ) != k by {
                assert(!(self.entries@[j].assoc_id == assoc_id && self.entries@[j].pkt_id
                    == pkt_id));
            }
            lemma_map_of_contains(self.entries@, k);
            if found {
                assert(entry_key(self.entries@[idx as int]) == k);
                lemma_map_of_index(self.entries@, idx as int);
            } else {
                assert(!m.contains_key(k));
                assert(m.remove(k) =~= m);
            }
        }
        let mut rec: PartialPacket;
        if found {
            if self.entries[idx].rec.frag_total != frag_total {
                return None;
            }
            proof {
                lemma_map_of_remove(old(self).entries@, idx as int);
                lemma_entries_remove(old(self).entries@, idx as int);
            }
            let e = self.entries.remove(idx);
            rec = e.rec;
        } else {
            let mut slots: Vec<Option<Vec<u8>>> = Vec::new();
            let total = frag_total as usize;
            let mut j: usize = 0;
            while j < total
                invariant
                    j <= total,
                    slots@.len() == j,
                    forall|t: int| 0 <= t < j ==> slots@[t] is None,
                decreases total - j,
            {
                slots.push(None);
                j = j + 1;
            }
            proof {
                assert forall|t: int| 0 <= t < slots.deep_view().len() implies slots.deep_view()[t]
                    is None by {
                    assert(slots@[t] is None);
                }
                assert(slots.deep_view() =~~= empty_rec(frag_total, now).slots);
                lemma_count_filled_all_none(slots.deep_view());
            }
            rec = PartialPacket { frag_total, addr: None, slots, filled: 0, created_at: now };
            proof {
                assert(rec@ =~~= empty_rec(frag_total, now));
            }
        }
        let ghost pre = self.entries@;
        let ghost r0 = rec@;
        let ghost r1 = fill_rec(r0, frag_id, addr@, fragment@);
        // at this point the table holds everything but the record for k
        proof {
            assert(rec_inv(rec));
            assert(map_of(pre) == m.remove(k));
            assert(!map_of(pre).contains_key(k));
            lemma_map_of_contains(pre, k);
        }
        // fill the slot
        let slot_index = frag_id as usize;
        let was_filled = rec.slots[slot_index].is_some();
        proof {
            lemma_count_filled_update(rec@.slots, slot_index as int, fragment@);
            lemma_count_filled_bounds(rec@.slots);
        }
        let ghost slots_before = rec.slots.deep_view();
        rec.slots[slot_index] = Some(fragment);
        proof {
            assert(rec.slots.deep_view() =~~= slots_before.update(
                slot_index as int,
                Option::Some(fragment@),
            ));
        }
        if !was_filled {
            rec.filled = rec.filled + 1;
        }
        if frag_id == 0 {
            rec.addr = Some(addr);
        }
        proof {
            assert(rec@ =~~= r1);
            assert(rec_inv(rec));
            lemma_count_filled_bounds(rec@.slots);
        }
        if rec.filled == rec.frag_total as usize {
            proof {
                lemma_count_filled_full(rec@.slots);
                assert(rec@.slots[0] is Some);
            }
            let out_addr = match rec.addr {
                Some(a) => a,
                None => {
                    proof {
                        assert(false);
                    }
                    Address::Absent
                },
            };
            let payload = assemble(rec.slots);
            Some((out_addr, payload))
        } else {
            let e = Entry { assoc_id, pkt_id, rec };
            self.entries.push(e);
            proof {
                assert(self.entries@.drop_last() =~= pre);
                assert(self.entries@.last() == e);
                assert(map_of(self.entries@) == map_of(pre).insert(k, r1));
                assert(map_of(self.entries@) =~= m.insert(k, r1));
                assert forall|i: int, j: int|
                    #![trigger entry_key(self.entries@[i]), entry_key(self.entries@[j])]
                    0 <= i < j < self.entries@.len() implies entry_key(self.entries@[i])
                    != entry_key(self.entries@[j]) by {
                    if j < self.entries@.len() - 1 {
                        assert(entry_key(pre[i]) != entry_key(pre[j]));
                    } else {
                        assert(entry_key(pre[i]) != k);
                    }
                }
                assert(entries_inv(self.entries@)) by {
                    assert forall|i: int| 0 <= i < self.entries@.len() implies rec_inv(
                        #[trigger] self.entries@[i].rec,
                    ) && (self.entries@[i].rec.filled as int) < (
                    self.entries@[i].rec.frag_total as int) by {
                        if i < self.entries@.len() - 1 {
                            assert(self.entries@[i] == pre[i]);
                        }
                    }
                }
            }
            None
        }
    }

    /// Drops every record whose first fragment arrived more than `max_age`
    /// ticks before `now`; every younger record stays, with its state
    /// untouched.
    pub fn evict_expired(&mut self, now: u64, max_age: u64)
        requires
            old(self).wf(),
        ensures
            final(self).wf(),
            forall|k: (u16, u16)| #[trigger]
                final(self)@.contains_key(k) <==> old(self)@.contains_key(k) && old(
                    self,
                )@[k].created_at + max_age >= now,
            forall|k: (u16, u16)| #[trigger]
                final(self)@.contains_key(k) ==> final(self)@[k] == old(self)@[k],
    {
        let mut i: usize = 0;
        while i < self.entries.len()
            invariant
                self.wf(),
                i <= self.entries@.len(),
                forall|j: int|
                    0 <= j < i ==> (#[trigger] self.entries@[j].rec.created_at) + max_age >= now,
                forall|k: (u16, u16)| #[trigger]
                    map_of(self.entries@).contains_key(k) ==> old(self)@.contains_key(k) && map_of(
                        self.entries@,
                    )[k] == old(self)@[k],
                forall|k: (u16, u16)|
                    old(self)@.contains_key(k) && old(self)@[k].created_at + max_age >= now
                        ==> #[trigger] map_of(self.entries@).contains_key(k),
            decreases self.entries@.len() - i,
        {
            let created = self.entries[i].rec.created_at;
            let keep = if now < created {
                true
            } else {
                now - created <= max_age
            };
            if keep {
                i = i + 1;
            } else {
                proof {
                    lemma_map_of_index(self.entries@, i as int);
                    lemma_map_of_remove(self.entries@, i as int);
                    lemma_entries_remove(self.entries@, i as int);
                    let ghost s = self.entries@;
                    assert forall|k: (u16, u16)|
                        old(self)@.contains_key(k) && old(self)@[k].created_at + max_age
                            >= now implies #[trigger] map_of(s.remove(i as int)).contains_key(
                        k,
                    ) by {
                        assert(map_of(s).contains_key(k));
                        assert(k != entry_key(s[i as int]));
                    }
                }
                let _ = self.entries.remove(i);
            }
        }
        proof {
            assert forall|k: (u16, u16)| #[trigger]
                map_of(self.entries@).contains_key(k) implies map_of(
                self.entries@,
            )[k].created_at + max_age >= now by {
                lemma_map_of_contains(self.entries@, k);
                let j = choose|i: int|
                    0 <= i < self.entries@.len() && entry_key(#[trigger] self.entries@[i]) == k;
                lemma_map_of_index(self.entries@, j);
            }
        }
    }
}

/// Concatenates the slot payloads in slot order; every slot must be filled.
fn assemble(slots: Vec<Option<Vec<u8>>>) -> (out: Vec<u8>)
    requires
        count_filled(slots.deep_view()) == slots.deep_view().len(),
    ensures
        out@ == assembled(slots.deep_view()),
{
    proof {
        lemma_count_filled_full(slots.deep_view());
    }
    let ghost whole = slots.deep_view();
    let mut rest = slots;
    let mut out: Vec<u8> = Vec::new();
    while rest.len() > 0
        invariant
            assembled(whole) == out@ + assembled(rest.deep_view()),
            forall|t: int| 0 <= t < rest.deep_view().len() ==> rest.deep_view()[t] is Some,
        decreases rest.len(),
    {
        let ghost before = rest.deep_view();
        let first = rest.remove(0);
        proof {
            assert(rest.deep_view() =~~= before.skip(1));
        }
        match first {
            Some(mut part) => {
                proof {
                    assert(before[0] == Option::Some(part@));
                    assert(assembled(before) == part@ + assembled(before.skip(1)));
                }
                out.append(&mut part);
            },
            None => {
                proof {
                    assert(before[0] is Some);
                    assert(false);
                }
            },
        }
    }
    proof {
        assert(assembled(rest.deep_view()) =~= Seq::<u8>::empty());
        assert(out@ =~= assembled(whole));
    }
    out
}

/// One fragment message as the reassembly engine sees it: which slot it
/// fills, the address its header carried, and its payload slice.
pub struct FragMsg {
    pub frag_id: u8,
    pub addr: AddrModel,
    pub payload: Seq<u8>,
}

/// A whole run of fragment deliveries into one record, first to last.
pub open spec fn fill_all(r: RecModel, frags: Seq<FragMsg>) -> RecModel
    decreases frags.len(),
{
    if frags.len() == 0 {
        r
    } else {
        fill_all(fill_rec(r, frags[0].frag_id, frags[0].addr, frags[0].payload), frags.skip(1))
    }
}

/// Re-delivering an already-seen fragment changes nothing: if the record
/// already holds this fragment's payload in its slot (and, for the first
/// fragment, its address), delivering it again leaves the record exactly as
/// it was — the eventual reconstructed payload is neither corrupted nor
/// duplicated.
pub proof fn lemma_duplicate_fragment_idempotent(
    r: RecModel,
    frag_id: u8,
    addr: AddrModel,
    payload: Seq<u8>,
)
    requires
        (frag_id as int) < r.slots.len(),
        r.slots[frag_id as int] == Option::Some(payload),
        frag_id == 0 ==> r.addr == Option::Some(addr),
    ensures
        fill_rec(r, frag_id, addr, payload) == r,
{
    assert(fill_rec(r, frag_id, addr, payload).slots =~= r.slots);
    assert(fill_rec(r, frag_id, addr, payload) =~~= r);
}

/// What a run of deliveries with pairwise-distinct fragment ids leaves
/// behind depends only on which fragments were delivered, not on their
/// order: each delivered fragment's payload sits in its own slot, every
/// other slot is untouched, and the address is exactly that of the fragment
/// with `frag_id == 0`, if one was delivered.
pub proof fn lemma_fill_all_describes(r: RecModel, frags: Seq<FragMsg>)
    requires
        forall|j1: int, j2: int|
            0 <= j1 < j2 < frags.len() ==> (#[trigger] frags[j1]).frag_id != (
            #[trigger] frags[j2]).frag_id,
        forall|j: int| 0 <= j < frags.len() ==> ((#[trigger] frags[j]).frag_id as int)
            < r.slots.len(),
    ensures
        fill_all(r, frags).frag_total == r.frag_total,
        fill_all(r, frags).created_at == r.created_at,
        fill_all(r, frags).slots.len() == r.slots.len(),
        forall|j: int|
            0 <= j < frags.len() ==> fill_all(r, frags).slots[(
            #[trigger] frags[j]).frag_id as int] == Option::Some(frags[j].payload),
        forall|i: int|
            0 <= i < r.slots.len() && (forall|j: int|
                0 <= j < frags.len() ==> ((#[trigger] frags[j]).frag_id as int) != i)
                ==> #[trigger] fill_all(r, frags).slots[i] == r.slots[i],
        (forall|j: int| 0 <= j < frags.len() ==> (#[trigger] frags[j]).frag_id != 0) ==> fill_all(
            r,
            frags,
        ).addr == r.addr,
        forall|j: int|
            0 <= j < frags.len() && (#[trigger] frags[j]).frag_id == 0 ==> fill_all(r, frags).addr
                == Option::Some(frags[j].addr),
    decreases frags.len(),
{
    if frags.len() > 0 {
        let f0 = frags[0];
        let r1 = fill_rec(r, f0.frag_id, f0.addr, f0.payload);
        let rest = frags.skip(1);
        assert forall|j: int| 0 <= j < rest.len() implies rest[j] == frags[j + 1] by {}
        assert forall|j: int| 0 <= j < rest.len() implies (#[trigger] rest[j]).frag_id
            != f0.frag_id by {
            assert(frags[0].frag_id != frags[j + 1].frag_id);
        }
        lemma_fill_all_describes(r1, rest);
        assert(fill_all(r, frags) == fill_all(r1, rest));
        // the slot frags[0] filled is untouched by the rest of the run
        assert(fill_all(r1, rest).slots[f0.frag_id as int] == r1.slots[f0.frag_id as int]);
        assert forall|j: int| 0 <= j < frags.len() implies fill_all(r, frags).slots[(
        #[trigger] frags[j]).frag_id as int] == Option::Some(frags[j].payload) by {
            if j > 0 {
                assert(rest[j - 1] == frags[j]);
            }
        }
        if f0.frag_id == 0 {
            assert(forall|j: int| 0 <= j < rest.len() ==> (#[trigger] rest[j]).frag_id != 0);
            assert(fill_all(r1, rest).addr == r1.addr);
        }
        assert forall|j: int|
            0 <= j < frags.len() && (#[trigger] frags[j]).frag_id == 0 implies fill_all(
            r,
            frags,
        ).addr == Option::Some(frags[j].addr) by {
            if j > 0 {
                assert(rest[j - 1] == frags[j]);
            }
        }
    }
}

/// Out-of-order delivery: two runs that deliver the same set of fragments —
/// in particular, one in fragment order and one in reverse — leave an
/// identical record, so the reconstructed payload is identical.
pub proof fn lemma_reassembly_order_independent(
    r: RecModel,
    frags1: Seq<FragMsg>,
    frags2: Seq<FragMsg>,
)
    requires
        forall|j1: int, j2: int|
            0 <= j1 < j2 < frags1.len() ==> (#[trigger] frags1[j1]).frag_id != (
            #[trigger] frags1[j2]).frag_id,
        forall|j1: int, j2: int|
            0 <= j1 < j2 < frags2.len() ==> (#[trigger] frags2[j1]).frag_id != (
            #[trigger] frags2[j2]).frag_id,
        forall|j: int| 0 <= j < frags1.len() ==> ((#[trigger] frags1[j]).frag_id as int)
            < r.slots.len(),
        forall|j: int| 0 <= j < frags2.len() ==> ((#[trigger] frags2[j]).frag_id as int)
            < r.slots.len(),
        forall|j: int| 0 <= j < frags1.len() ==> frags2.contains(#[trigger] frags1[j]),
        forall|j: int| 0 <= j < frags2.len() ==> frags1.contains(#[trigger] frags2[j]),
    ensures
        fill_all(r, frags1) == fill_all(r, frags2),
{
    lemma_fill_all_describes(r, frags1);
    lemma_fill_all_describes(r, frags2);
    let a = fill_all(r, frags1);
    let b = fill_all(r, frags2);
    assert forall|i: int| 0 <= i < r.slots.len() implies a.slots[i] == b.slots[i] by {
        if exists|j: int| 0 <= j < frags1.len() && ((#[trigger] frags1[j]).frag_id as int) == i {
            let j1 = choose|j: int|
                0 <= j < frags1.len() && ((#[trigger] frags1[j]).frag_id as int) == i;
            assert(frags2.contains(frags1[j1]));
            let j2 = choose|j: int| 0 <= j < frags2.len() && frags2[j] == frags1[j1];
            assert(a.slots[i] == Option::Some(frags1[j1].payload));
            assert(b.slots[i] == Option::Some(frags2[j2].payload));
        } else {
            assert forall|j: int| 0 <= j < frags2.len() implies ((
            #[trigger] frags2[j]).frag_id as int) != i by {
                assert(frags1.contains(frags2[j]));
                let j1 = choose|t: int| 0 <= t < frags1.len() && frags1[t] == frags2[j];
                assert(((frags1[j1]).frag_id as int) != i);
            }
            assert(a.slots[i] == r.slots[i]);
            assert(b.slots[i] == r.slots[i]);
        }
    }
    assert(a.slots =~= b.slots);
    if exists|j: int| 0 <= j < frags1.len() && (#[trigger] frags1[j]).frag_id == 0 {
        let j1 = choose|j: int| 0 <= j < frags1.len() && (#[trigger] frags1[j]).frag_id == 0;
        assert(frags2.contains(frags1[j1]));
        let j2 = choose|j: int| 0 <= j < frags2.len() && frags2[j] == frags1[j1];
        assert(a.addr == Option::Some(frags1[j1].addr));
        assert(b.addr == Option::Some(frags2[j2].addr));
    } else {
        assert forall|j: int| 0 <= j < frags2.len() implies (#[trigger] frags2[j]).frag_id
            != 0 by {
            assert(frags1.contains(frags2[j]));
            let j1 = choose|t: int| 0 <= t < frags1.len() && frags1[t] == frags2[j];
            assert(frags1[j1].frag_id != 0);
        }
        assert(forall|j: int| 0 <= j < frags1.len() ==> (#[trigger] frags1[j]).frag_id != 0);
        assert(a.addr == r.addr);
        assert(b.addr == r.addr);
    }
    assert(a =~~= b);
}

/// Reassembly inverts fragmentation exactly: when every slot of a record
/// holds the payload slice of the fragment with its slot number — whatever
/// order the fragments arrived in — the concatenation the engine delivers is
/// the original payload.
pub proof fn lemma_reassembly_inverts_fragmentation(payload: Seq<u8>, max: int, alen: int)
    requires
        crate::packet::first_frag_cap(max, alen) >= 0,
        crate::packet::rest_frag_cap(max) >= 1,
    ensures
        ({
            let total = crate::packet::spec_frag_total(max, alen, payload.len() as int);
            assembled(
                Seq::new(
                    total as nat,
                    |i: int| Option::Some(
                        crate::packet::spec_fragment_payload(payload, max, alen, i),
                    ),
                ),
            ) == payload
        }),
{
    let len = payload.len() as int;
    let total = crate::packet::spec_frag_total(max, alen, len);
    crate::packet::lemma_frag_start_total(max, alen, len);
    lemma_assembled_fragments(payload, max, alen, 0, total);
    assert(Seq::new(
        total as nat,
        |i: int| Option::Some(crate::packet::spec_fragment_payload(payload, max, alen, i)),
    ) =~= Seq::new(
        total as nat,
        |t: int| Option::Some(crate::packet::spec_fragment_payload(payload, max, alen, 0 + t)),
    ));
    assert(payload.subrange(0, len) =~= payload);
}

/// Concatenating the fragment payloads of fragments `lo .. hi`, in order, is
/// the payload between the start offsets of fragments `lo` and `hi`.
proof fn lemma_assembled_fragments(payload: Seq<u8>, max: int, alen: int, lo: int, hi: int)
    requires
        crate::packet::first_frag_cap(max, alen) >= 0,
        crate::packet::rest_frag_cap(max) >= 1,
        0 <= lo <= hi,
    ensures
        assembled(
            Seq::new(
                (hi - lo) as nat,
                |t: int| Option::Some(
                    crate::packet::spec_fragment_payload(payload, max, alen, lo + t),
                ),
            ),
        ) == payload.subrange(
            crate::packet::frag_start(max, alen, payload.len() as int, lo),
            crate::packet::frag_start(max, alen, payload.len() as int, hi),
        ),
    decreases hi - lo,
{
    let len = payload.len() as int;
    let s = Seq::new(
        (hi - lo) as nat,
        |t: int| Option::Some(crate::packet::spec_fragment_payload(payload, max, alen, lo + t)),
    );
    crate::packet::lemma_frag_start_monotone(max, alen, len, lo);
    if lo == hi {
        assert(s.len() == 0);
        assert(payload.subrange(
            crate::packet::frag_start(max, alen, len, lo),
            crate::packet::frag_start(max, alen, len, hi),
        ) =~= Seq::<u8>::empty());
    } else {
        lemma_assembled_fragments(payload, max, alen, lo + 1, hi);
        assert(s.skip(1) =~= Seq::new(
            (hi - lo - 1) as nat,
            |t: int| Option::Some(
                crate::packet::spec_fragment_payload(payload, max, alen, lo + 1 + t),
            ),
        ));
        assert(s[0] == Option::Some(
            crate::packet::spec_fragment_payload(payload, max, alen, lo),
        ));
        lemma_frag_start_le(max, alen, len, lo + 1, hi);
        assert(payload.subrange(
            crate::packet::frag_start(max, alen, len, lo),
            crate::packet::frag_start(max, alen, len, lo + 1),
        ) + payload.subrange(
            crate::packet::frag_start(max, alen, len, lo + 1),
            crate::packet::frag_start(max, alen, len, hi),
        ) =~= payload.subrange(
            crate::packet::frag_start(max, alen, len, lo),
            crate::packet::frag_start(max, alen, len, hi),
        ));
    }
}

/// Fragment start offsets are nondecreasing across any span.
proof fn lemma_frag_start_le(max: int, alen: int, len: int, i: int, j: int)
    requires
        crate::packet::first_frag_cap(max, alen) >= 0,
        crate::packet::rest_frag_cap(max) >= 1,
        0 <= i <= j,
        len >= 0,
    ensures
        crate::packet::frag_start(max, alen, len, i) <= crate::packet::frag_start(
            max,
            alen,
            len,
            j,
        ),
    decreases j - i,
{
    if i < j {
        crate::packet::lemma_frag_start_monotone(max, alen, len, i);
        lemma_frag_start_le(max, alen, len, i + 1, j);
    }
}

/// A sequence with no filled slot counts zero.
proof fn lemma_count_filled_all_none(s: Seq<Option<Seq<u8>>>)
    requires
        forall|t: int| 0 <= t < s.len() ==> s[t] is None,
    ensures
        count_filled(s) == 0,
    decreases s.len(),
{
    if s.len() > 0 {
        lemma_count_filled_all_none(s.drop_last());
    }
}

/// The filled count is between zero and the slot count.
proof fn lemma_count_filled_bounds(s: Seq<Option<Seq<u8>>>)
    ensures
        0 <= count_filled(s) <= s.len(),
    decreases s.len(),
{
    if s.len() > 0 {
        lemma_count_filled_bounds(s.drop_last());
    }
}

/// Filling one slot raises the count by one if it was empty and leaves it
/// unchanged if it was already filled.
proof fn lemma_count_filled_update(s: Seq<Option<Seq<u8>>>, i: int, v: Seq<u8>)
    requires
        0 <= i < s.len(),
    ensures
        count_filled(s.update(i, Option::Some(v))) == count_filled(s) + if s[i] is Some {
            0int
        } else {
            1int
        },
    decreases s.len(),
{
    let s2 = s.update(i, Option::Some(v));
    if i == s.len() - 1 {
        assert(s2.drop_last() =~= s.drop_last());
    } else {
        assert(s2.drop_last() =~= s.drop_last().update(i, Option::Some(v)));
        lemma_count_filled_update(s.drop_last(), i, v);
        assert(s2.last() == s.last());
    }
}

/// A full count means every slot is filled.
proof fn lemma_count_filled_full(s: Seq<Option<Seq<u8>>>)
    requires
        count_filled(s) == s.len(),
    ensures
        forall|t: int| 0 <= t < s.len() ==> s[t] is Some,
    decreases s.len(),
{
    if s.len() > 0 {
        lemma_count_filled_bounds(s.drop_last());
        lemma_count_filled_full(s.drop_last());
        assert forall|t: int| 0 <= t < s.len() implies s[t] is Some by {
            if t < s.len() - 1 {
                assert(s.drop_last()[t] is Some);
            }
        }
    }
}

/// A key is in the mapping exactly when some entry carries it.
proof fn lemma_map_of_contains(s: Seq<Entry>, k: (u16, u16))
    ensures
        map_of(s).contains_key(k) <==> exists|i: int|
            0 <= i < s.len() && entry_key(#[trigger] s[i]) == k,
    decreases s.len(),
{
    if s.len() > 0 {
        lemma_map_of_contains(s.drop_last(), k);
        if entry_key(s.last()) == k {
            assert(entry_key(s[s.len() - 1]) == k);
        } else {
            if map_of(s).contains_key(k) {
                let i = choose|i: int|
                    0 <= i < s.drop_last().len() && entry_key(#[trigger] s.drop_last()[i]) == k;
                assert(entry_key(s[i]) == k);
            }
            if exists|i: int| 0 <= i < s.len() && entry_key(#[trigger] s[i]) == k {
                let i = choose|i: int| 0 <= i < s.len() && entry_key(#[trigger] s[i]) == k;
                assert(entry_key(s.drop_last()[i]) == k);
            }
        }
    }
}

/// With unique keys, the mapping holds each entry's record under its key.
proof fn lemma_map_of_index(s: Seq<Entry>, i: int)
    requires
        0 <= i < s.len(),
        entries_distinct(s),
    ensures
        map_of(s).contains_key(entry_key(s[i])),
        map_of(s)[entry_key(s[i])] == s[i].rec@,
    decreases s.len(),
{
    if i == s.len() - 1 {
    } else {
        assert(entry_key(s[i]) != entry_key(s[s.len() - 1]));
        assert(entries_distinct(s.drop_last())) by {
            assert forall|i1: int, j1: int|
                #![trigger entry_key(s.drop_last()[i1]), entry_key(s.drop_last()[j1])]
                0 <= i1 < j1 < s.drop_last().len() implies entry_key(s.drop_last()[i1])
                != entry_key(s.drop_last()[j1]) by {
                assert(entry_key(s[i1]) != entry_key(s[j1]));
            }
        }
        lemma_map_of_index(s.drop_last(), i);
        assert(s.drop_last()[i] == s[i]);
    }
}

/// With unique keys, removing the entry at `i` removes exactly its key.
proof fn lemma_map_of_remove(s: Seq<Entry>, i: int)
    requires
        0 <= i < s.len(),
        entries_distinct(s),
    ensures
        map_of(s.remove(i)) == map_of(s).remove(entry_key(s[i])),
    decreases s.len(),
{
    let k = entry_key(s[i]);
    assert(entries_distinct(s.drop_last())) by {
        assert forall|i1: int, j1: int|
            #![trigger entry_key(s.drop_last()[i1]), entry_key(s.drop_last()[j1])]
            0 <= i1 < j1 < s.drop_last().len() implies entry_key(s.drop_last()[i1]) != entry_key(
            s.drop_last()[j1],
        ) by {
            assert(entry_key(s[i1]) != entry_key(s[j1]));
        }
    }
    if i == s.len() - 1 {
        assert(s.remove(i) =~= s.drop_last());
        assert forall|i1: int| 0 <= i1 < s.drop_last().len() implies entry_key(
            #[trigger] s.drop_last()[i1],
        ) != k by {
            assert(entry_key(s[i1]) != entry_key(s[i]));
        }
        lemma_map_of_contains(s.drop_last(), k);
        assert(!map_of(s.drop_last()).contains_key(k));
        assert(map_of(s).remove(k) =~= map_of(s.drop_last()));
    } else {
        s.remove_ensures(i);
        assert(s.remove(i).drop_last() =~= s.drop_last().remove(i));
        assert(s.remove(i).last() == s.last());
        lemma_map_of_remove(s.drop_last(), i);
        assert(entry_key(s.last()) != k);
        assert(map_of(s.remove(i)) == map_of(s.drop_last()).remove(k).insert(
            entry_key(s.last()),
            s.last().rec@,
        ));
        assert(map_of(s.drop_last()).remove(k).insert(entry_key(s.last()), s.last().rec@)
            =~= map_of(s.drop_last()).insert(entry_key(s.last()), s.last().rec@).remove(k));
    }
}

/// Removing one entry keeps keys unique and records consistent, and no
/// remaining entry carries the removed entry's key.
proof fn lemma_entries_remove(s: Seq<Entry>, i: int)
    requires
        0 <= i < s.len(),
        entries_distinct(s),
        entries_inv(s),
    ensures
        entries_distinct(s.remove(i)),
        entries_inv(s.remove(i)),
        forall|j: int|
            0 <= j < s.remove(i).len() ==> entry_key(#[trigger] s.remove(i)[j]) != entry_key(s[i]),
{
    s.remove_ensures(i);
    let s2 = s.remove(i);
    assert forall|i1: int, j1: int|
        #![trigger entry_key(s2[i1]), entry_key(s2[j1])]
        0 <= i1 < j1 < s2.len() implies entry_key(s2[i1]) != entry_key(s2[j1]) by {
        let a = if i1 < i {
            i1
        } else {
            i1 + 1
        };
        let b = if j1 < i {
            j1
        } else {
            j1 + 1
        };
        assert(s2[i1] == s[a] && s2[j1] == s[b]);
        assert(entry_key(s[a]) != entry_key(s[b]));
    }
    assert forall|j: int| 0 <= j < s2.len() implies rec_inv(#[trigger] s2[j].rec) && (
    s2[j].rec.filled as int) < (s2[j].rec.frag_total as int) by {
        let a = if j < i {
            j
        } else {
            j + 1
        };
        assert(s2[j] == s[a]);
    }
    assert forall|j: int| 0 <= j < s2.len() implies entry_key(#[trigger] s2[j]) != entry_key(
        s[i],
    ) by {
        let a = if j < i {
            j
        } else {
            j + 1
        };
        assert(s2[j] == s[a]);
        assert(a != i);
        if a < i {
            assert(entry_key(s[a]) != entry_key(s[i]));
        } else {
            assert(entry_key(s[i]) != entry_key(s[a]));
        }
    }
}

} // verus!
