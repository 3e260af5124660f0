//! The packets that can still be sent again.

use vstd::arithmetic::div_mod::{lemma_mod_mod, lemma_small_mod};
use vstd::arithmetic::power2::{
    is_pow2_exists, lemma2_to64, lemma_pow2, lemma_pow2_adds, lemma_pow2_pos, lemma_pow2_strictly_increases, pow2,
};
use vstd::bits::{lemma_usize_low_bits_mask_is_mod, low_bits_mask};
use vstd::prelude::*;
use vstd::set_lib::{lemma_int_range, lemma_len_subset, lemma_map_size, set_int_range};

verus! {

/// What a ring of `cap` slots holds after `pkt` was put in under `seq`: the
/// new packet, and all others but those that share its slot.
pub open spec fn stored(m: Map<u16, Seq<u8>>, cap: nat, seq: u16, pkt: Seq<u8>) -> Map<u16, Seq<u8>> {
    Map::new(
        |k: u16| k == seq || (m.contains_key(k) && k as nat % cap != seq as nat % cap),
        |k: u16| if k == seq { pkt } else { m[k] },
    )
}

/// Bounded, fixed-memory ring of recently sent audio packets, indexed by
/// sequence number. Used to answer retransmit requests without unbounded
/// buffering.
pub struct History {
    slots: Vec<Option<(u16, Vec<u8>)>>,
    mask: usize,
}

impl View for History {
    type V = Map<u16, Seq<u8>>;

    /// The packets that can be had, by sequence number.
    closed spec fn view(&self) -> Map<u16, Seq<u8>> {
        Map::new(
            |k: u16| self.slots@[(k as nat % self.cap()) as int] matches Some(e) && e.0 == k,
            |k: u16| (self.slots@[(k as nat % self.cap()) as int]->0).1@,
        )
    }
}

impl History {
    /// The number of slots.
    pub closed spec fn cap(&self) -> nat {
        self.slots@.len()
    }

    /// There is a power of two of slots, and the mask selects one.
    pub closed spec fn wf(&self) -> bool {
        &&& is_pow2_exists(self.cap() as int)
        &&& self.mask == self.cap() - 1
    }

    /// An empty ring. `cap_pow2` must be a power of two.
    pub fn new(cap_pow2: usize) -> (h: Self)
        requires
            is_pow2_exists(cap_pow2 as int),
        ensures
            h.wf(),
            h.cap() == cap_pow2,
            h@ == Map::<u16, Seq<u8>>::empty(),
    {
        proof {
            lemma_pow2_exists_positive(cap_pow2 as int);
        }
        let mut slots: Vec<Option<(u16, Vec<u8>)>> = Vec::with_capacity(cap_pow2);
        while slots.len() < cap_pow2
            invariant
                slots@.len() <= cap_pow2,
                forall|i: int| 0 <= i < slots@.len() ==> #[trigger] slots@[i] is None,
            decreases cap_pow2 - slots@.len(),
        {
            slots.push(None);
        }
        let h = History { slots, mask: cap_pow2 - 1 };
        assert(h@ =~= Map::<u16, Seq<u8>>::empty());
        h
    }

    /// Where a packet goes.
    fn slot(&self, seq: u16) -> (i: usize)
        requires
            self.wf(),
        ensures
            i == seq as nat % self.cap(),
            i < self.slots@.len(),
    {
        assert(self.slots.len() <= usize::MAX);
        proof {
            lemma_mask_is_mod(seq as usize, self.mask);
        }
        (seq as usize) & self.mask
    }

    /// Keep `pkt` under `seq`, in place of what was in its slot.
    pub fn put(&mut self, seq: u16, pkt: Vec<u8>)
        requires
            old(self).wf(),
        ensures
            final(self).wf(),
            final(self).cap() == old(self).cap(),
            final(self)@ == stored(old(self)@, old(self).cap(), seq, pkt@),
    {
        let i: usize = self.slot(seq);
        self.slots.set(i, Some((seq, pkt)));
        proof {
            let cap = self.cap();
            assert forall|k: u16| 0 <= #[trigger] (k as nat % cap) < cap by {}
            assert(self@ =~= stored(old(self)@, cap, seq, pkt@));
        }
    }

    /// The packet that was last put in under `seq`, if it is still there.
    pub fn get(&self, seq: u16) -> (r: Option<&[u8]>)
        requires
            self.wf(),
        ensures
            r is Some <==> self@.contains_key(seq),
            r matches Some(p) ==> p@ == self@[seq],
    {
        let i: usize = self.slot(seq);
        match &self.slots[i] {
            Some((s, p)) => if *s == seq {
                Some(p.as_slice())
            } else {
                None
            },
            None => None,
        }
    }
}

proof fn lemma_pow2_exists_positive(n: int)
    requires
        is_pow2_exists(n),
    ensures
        n > 0,
{
    let k = choose|k: nat| vstd::arithmetic::power::pow(2, k) == n;
    lemma_pow2(k);
    lemma_pow2_pos(k);
}

/// A mask of ones below a power of two takes the remainder.
proof fn lemma_mask_is_mod(x: usize, mask: usize)
    requires
        is_pow2_exists(mask + 1),
        mask < usize::MAX,
    ensures
        x & mask == x as nat % (mask as nat + 1),
{
    let k = choose|k: nat| vstd::arithmetic::power::pow(2, k) == mask + 1;
    lemma_pow2(k);
    lemma2_to64();
    if k >= usize::BITS {
        if k > usize::BITS {
            lemma_pow2_strictly_increases(usize::BITS as nat, k);
        }
        assert(false);
    } else {
        lemma_usize_low_bits_mask_is_mod(x, k);
        assert(low_bits_mask(k) == mask);
    }
}

// ---------------------------------------------------------------------------
// What the ring promises

/// Sequence number `i` of a run that starts at `first`; they wrap around.
pub open spec fn seq_after(first: u16, i: int) -> u16 {
    ((first + i) % 0x1_0000) as u16
}

/// What a ring holds after a run of packets with consecutive sequence numbers.
pub open spec fn stored_run(m: Map<u16, Seq<u8>>, cap: nat, first: u16, pkts: Seq<Seq<u8>>) -> Map<u16, Seq<u8>>
    decreases pkts.len(),
{
    if pkts.len() == 0 {
        m
    } else {
        stored(
            stored_run(m, cap, first, pkts.drop_last()),
            cap,
            seq_after(first, pkts.len() - 1),
            pkts.last(),
        )
    }
}

/// No two packets share a slot.
pub open spec fn one_per_slot(m: Map<u16, Seq<u8>>, cap: nat) -> bool {
    forall|a: u16, b: u16| #[trigger]
        m.contains_key(a) && #[trigger] m.contains_key(b) && a as nat % cap == b as nat % cap ==> a == b
}

/// Numbers go up by one from the first on, and 0 follows 65535.
pub proof fn lemma_numbers_wrap(first: u16, i: int)
    requires
        0 <= i,
    ensures
        seq_after(first, 0) == first,
        seq_after(first, i + 1) == (if seq_after(first, i) == 65_535 {
            0
        } else {
            seq_after(first, i) + 1
        }),
{
}

/// What was put in last can be had under its number.
pub proof fn lemma_put_then_get(m: Map<u16, Seq<u8>>, cap: nat, seq: u16, pkt: Seq<u8>)
    ensures
        stored(m, cap, seq, pkt).contains_key(seq),
        stored(m, cap, seq, pkt)[seq] == pkt,
{
}

/// A packet leaves only when another one takes its slot, and comes back
/// unchanged until it does.
pub proof fn lemma_put_keeps_others(m: Map<u16, Seq<u8>>, cap: nat, seq: u16, pkt: Seq<u8>, other: u16)
    requires
        other as nat % cap != seq as nat % cap,
    ensures
        stored(m, cap, seq, pkt).contains_key(other) == m.contains_key(other),
        m.contains_key(other) ==> stored(m, cap, seq, pkt)[other] == m[other],
{
}

/// Nothing can be had that was not put in, and what shares the slot of the
/// new packet is gone.
pub proof fn lemma_put_adds_nothing_else(m: Map<u16, Seq<u8>>, cap: nat, seq: u16, pkt: Seq<u8>, other: u16)
    requires
        other != seq,
    ensures
        stored(m, cap, seq, pkt).contains_key(other) <==> m.contains_key(other) && other as nat % cap != seq as nat
            % cap,
        stored(m, cap, seq, pkt).contains_key(other) ==> stored(m, cap, seq, pkt)[other] == m[other],
{
}

/// Two numbers of a run that are less than `cap` apart have different slots.
proof fn lemma_run_slots_differ(cap: nat, first: u16, i: int, j: int)
    requires
        is_pow2_exists(cap as int),
        0 <= i < j,
        j - i < cap,
        j - i < 0x1_0000,
    ensures
        seq_after(first, i) as nat % cap != seq_after(first, j) as nat % cap,
{
    let a = first + i;
    let b = first + j;
    if cap <= 0x1_0000 {
        let k = choose|k: nat| vstd::arithmetic::power::pow(2, k) == cap;
        lemma_pow2(k);
        lemma2_to64();
        if k > 16 {
            lemma_pow2_strictly_increases(16, k);
        }
        lemma_pow2_adds(k, (16 - k) as nat);
        lemma_pow2_pos(k);
        lemma_pow2_pos((16 - k) as nat);
        let q = pow2((16 - k) as nat);
        assert(0x1_0000 == cap * q);
        lemma_mod_mod(a, cap as int, q as int);
        lemma_mod_mod(b, cap as int, q as int);
        if a % (cap as int) == b % (cap as int) {
            vstd::arithmetic::div_mod::lemma_mod_equivalence(b, a, cap as int);
            lemma_small_mod((b - a) as nat, cap);
        }
    } else {
        lemma_small_mod(seq_after(first, i) as nat, cap);
        lemma_small_mod(seq_after(first, j) as nat, cap);
    }
}

/// The ring answers for the recent past: of a run of consecutively numbered
/// packets, however long and wherever the numbers wrap, each of the last
/// `cap` can be had unchanged (there being at most 65536 numbers).
pub proof fn lemma_recent_packets_stay(
    m: Map<u16, Seq<u8>>,
    cap: nat,
    first: u16,
    pkts: Seq<Seq<u8>>,
    i: int,
)
    requires
        is_pow2_exists(cap as int),
        0 <= i < pkts.len(),
        pkts.len() - i <= cap,
        pkts.len() - i <= 0x1_0000,
    ensures
        stored_run(m, cap, first, pkts).contains_key(seq_after(first, i)),
        stored_run(m, cap, first, pkts)[seq_after(first, i)] == pkts[i],
    decreases pkts.len(),
{
    let n = pkts.len() - 1;
    if i < n {
        lemma_recent_packets_stay(m, cap, first, pkts.drop_last(), i);
        lemma_run_slots_differ(cap, first, i, n);
    }
}

/// Putting a packet in never makes two share a slot.
pub proof fn lemma_put_keeps_one_per_slot(m: Map<u16, Seq<u8>>, cap: nat, seq: u16, pkt: Seq<u8>)
    requires
        one_per_slot(m, cap),
    ensures
        one_per_slot(stored(m, cap, seq, pkt), cap),
{
}

/// A ring in which no two packets share a slot holds at most `cap` of them.
pub proof fn lemma_bounded(m: Map<u16, Seq<u8>>, cap: nat)
    requires
        cap > 0,
        m.dom().finite(),
        one_per_slot(m, cap),
    ensures
        m.dom().len() <= cap,
{
    let f = |k: u16| (k as nat % cap) as int;
    let slots = m.dom().map(f);
    assert forall|a: u16, b: u16| m.dom().contains(a) && m.dom().contains(b) && #[trigger] f(a) == #[trigger] f(
        b,
    ) implies a == b by {
        assert(m.contains_key(a) && m.contains_key(b));
    }
    lemma_map_size(m.dom(), slots, f);
    lemma_int_range(0, cap as int);
    assert(slots.subset_of(set_int_range(0, cap as int)));
    lemma_len_subset(slots, set_int_range(0, cap as int));
}

/// Memory is bounded in every state: a ring never holds more packets than it
/// has slots.
pub proof fn lemma_history_is_bounded(h: History)
    requires
        h.wf(),
    ensures
        h@.dom().finite(),
        h@.dom().len() <= h.cap(),
{
    lemma_pow2_exists_positive(h.cap() as int);
    let all = set_int_range(0, 0x1_0000);
    lemma_int_range(0, 0x1_0000);
    let f = |i: int| i as u16;
    all.lemma_map_finite(f);
    assert forall|k: u16| #[trigger] h@.dom().contains(k) implies all.map(f).contains(k) by {
        assert(all.contains(k as int) && f(k as int) == k);
    }
    assert(h@.dom().subset_of(all.map(f)));
    lemma_len_subset(h@.dom(), all.map(f));
    lemma_bounded(h@, h.cap());
}

} // verus!
