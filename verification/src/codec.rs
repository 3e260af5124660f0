//! Audio payload encoders for RAOP.
//!
//! Input is always interleaved little-endian 16-bit stereo PCM (`s16le`, two
//! channels), that is 4 bytes per frame. One block of it becomes either
//!   * a raw "uncompressed" ALAC frame (codec `cn=1`), or
//!   * raw big-endian 16-bit PCM (codec `cn=0`).

use vstd::arithmetic::power2::pow2;
use vstd::bits::lemma_u32_shr_is_div;
use vstd::prelude::*;

verus! {

/// The payload format of a session.
#[derive(Clone, Copy, PartialEq, Eq, Structural)]
pub enum Codec {
    Alac,
    Pcm,
}

// ---------------------------------------------------------------------------
// Bit strings

/// What bit `j` of a byte is worth, counted from the most significant one.
pub open spec fn place(j: int) -> int {
    if j <= 0 {
        128
    } else if j == 1 {
        64
    } else if j == 2 {
        32
    } else if j == 3 {
        16
    } else if j == 4 {
        8
    } else if j == 5 {
        4
    } else if j == 6 {
        2
    } else {
        1
    }
}

/// Bit `j` of `b`, counted from the most significant one.
pub open spec fn byte_bit(b: u8, j: int) -> bool {
    b as int / place(j) % 2 == 1
}

/// A bit is what a shift brings to the end.
proof fn lemma_byte_bit(b: u8, j: int)
    requires
        0 <= j < 8,
    ensures
        byte_bit(b, j) == ((b >> ((7 - j) as u8)) & 1u8 == 1u8),
{
    assert((b / 128 % 2 == 1) == ((b >> 7u8) & 1u8 == 1u8) && (b / 64 % 2 == 1) == ((b >> 6u8) & 1u8 == 1u8) && (b
        / 32 % 2 == 1) == ((b >> 5u8) & 1u8 == 1u8) && (b / 16 % 2 == 1) == ((b >> 4u8) & 1u8 == 1u8) && (b / 8
        % 2 == 1) == ((b >> 3u8) & 1u8 == 1u8) && (b / 4 % 2 == 1) == ((b >> 2u8) & 1u8 == 1u8) && (b / 2 % 2
        == 1) == ((b >> 1u8) & 1u8 == 1u8) && (b % 2 == 1) == ((b >> 0u8) & 1u8 == 1u8)) by (bit_vector);
    assert(j == 0 || j == 1 || j == 2 || j == 3 || j == 4 || j == 5 || j == 6 || j == 7);
}

/// All bits of `bytes`, each byte most significant bit first.
pub open spec fn stream_bits(bytes: Seq<u8>) -> Seq<bool> {
    Seq::new(8 * bytes.len(), |i: int| byte_bit(bytes[i / 8], i % 8))
}

/// The low `n` bits of `value`, most significant first.
pub open spec fn field_bits(value: u32, n: nat) -> Seq<bool> {
    Seq::new(n, |i: int| (value >> ((n - 1 - i) as u32)) & 1u32 == 1u32)
}

/// What bit `i` adds to a byte in which it has the given weight. There are
/// only zeros past the end of a bit string.
pub open spec fn bit_weight(bits: Seq<bool>, i: int, weight: int) -> int {
    if 0 <= i < bits.len() && bits[i] {
        weight
    } else {
        0
    }
}

/// The byte that bits `at .. at + 8` spell.
pub open spec fn byte_at(bits: Seq<bool>, at: int) -> u8 {
    (bit_weight(bits, at, 128) + bit_weight(bits, at + 1, 64) + bit_weight(bits, at + 2, 32)
        + bit_weight(bits, at + 3, 16) + bit_weight(bits, at + 4, 8) + bit_weight(bits, at + 5, 4)
        + bit_weight(bits, at + 6, 2) + bit_weight(bits, at + 7, 1)) as u8
}

/// The bytes that hold `bits`, the last one filled up with zeros.
pub open spec fn pack_bits(bits: Seq<bool>) -> Seq<u8> {
    Seq::new(((bits.len() + 7) / 8) as nat, |k: int| byte_at(bits, 8 * k))
}

/// The weights of a byte's own bits add up to the byte.
/// A byte is the sum of what its bits are worth, the first one the most.
pub proof fn lemma_byte_from_bits(b: u8)
    ensures
        b == (if byte_bit(b, 0) { 128int } else { 0 }) + (if byte_bit(b, 1) { 64int } else { 0 })
            + (if byte_bit(b, 2) { 32int } else { 0 }) + (if byte_bit(b, 3) { 16int } else { 0 })
            + (if byte_bit(b, 4) { 8int } else { 0 }) + (if byte_bit(b, 5) { 4int } else { 0 })
            + (if byte_bit(b, 6) { 2int } else { 0 }) + (if byte_bit(b, 7) { 1int } else { 0 }),
{
    assert(b == (if b / 128 % 2 == 1 { 128u8 } else { 0u8 }) + (if b / 64 % 2 == 1 { 64u8 } else { 0u8 })
        + (if b / 32 % 2 == 1 { 32u8 } else { 0u8 }) + (if b / 16 % 2 == 1 { 16u8 } else { 0u8 })
        + (if b / 8 % 2 == 1 { 8u8 } else { 0u8 }) + (if b / 4 % 2 == 1 { 4u8 } else { 0u8 })
        + (if b / 2 % 2 == 1 { 2u8 } else { 0u8 }) + (if b % 2 == 1 { 1u8 } else { 0u8 })) by (bit_vector);
}

/// A byte is spelled by the eight bits that agree with its own.
proof fn lemma_byte_at(bits: Seq<bool>, at: int, b: u8)
    requires
        forall|j: int| 0 <= j < 8 ==> #[trigger] byte_bit(b, j) == (0 <= at + j < bits.len() && bits[at + j]),
    ensures
        byte_at(bits, at) == b,
{
    lemma_byte_from_bits(b);
    assert(byte_bit(b, 0) == (0 <= at + 0 < bits.len() && bits[at + 0]));
    assert(byte_bit(b, 1) == (0 <= at + 1 < bits.len() && bits[at + 1]));
    assert(byte_bit(b, 2) == (0 <= at + 2 < bits.len() && bits[at + 2]));
    assert(byte_bit(b, 3) == (0 <= at + 3 < bits.len() && bits[at + 3]));
    assert(byte_bit(b, 4) == (0 <= at + 4 < bits.len() && bits[at + 4]));
    assert(byte_bit(b, 5) == (0 <= at + 5 < bits.len() && bits[at + 5]));
    assert(byte_bit(b, 6) == (0 <= at + 6 < bits.len() && bits[at + 6]));
    assert(byte_bit(b, 7) == (0 <= at + 7 < bits.len() && bits[at + 7]));
}

// ---------------------------------------------------------------------------
// The bit writer

/// The bits of a byte into which a chunk of `value` has been merged: the used
/// ones stay, the chunk follows, the rest is still zero.
proof fn lemma_merge(last: u8, value: u32, used: u32, take: u32, shift: u32, j: u8)
    by (bit_vector)
    requires
        used < 8,
        1 <= take,
        take <= 8 - used,
        shift + take <= 32,
        j < 8,
        j >= used ==> (last >> ((7 - j) as u8)) & 1u8 != 1u8,
    ensures
        (((last | ((((value >> shift) & ((1u32 << take) - 1) as u32) as u8) << ((8 - used - take) as u8)))
            >> ((7 - j) as u8)) & 1u8 == 1u8) == (if j < used {
            (last >> ((7 - j) as u8)) & 1u8 == 1u8
        } else {
            j < used + take && (value >> ((shift + take - 1 - (j - used)) as u32)) & 1u32 == 1u32
        }),
{
}

/// MSB-first bit writer over a reused `Vec<u8>`.
pub struct BitWriter {
    buf: Vec<u8>,
    /// Bits already used in the final byte (0..8), 0 if it is full.
    used: u32,
}

impl BitWriter {
    /// How many bits have been written.
    spec fn count(self) -> nat {
        (8 * self.buf@.len() - (if self.used == 0 { 0 } else { 8 - self.used })) as nat
    }

    /// The bits written so far.
    pub closed spec fn bits(self) -> Seq<bool> {
        stream_bits(self.buf@).take(self.count() as int)
    }

    /// The buffer.
    pub closed spec fn bytes(self) -> Seq<u8> {
        self.buf@
    }

    /// How many bits of the final byte are used, 0 if it is full.
    pub closed spec fn used(self) -> u32 {
        self.used
    }

    /// The unused low bits of the final byte are zero.
    pub closed spec fn wf(self) -> bool {
        &&& self.used < 8
        &&& self.used > 0 ==> self.buf@.len() > 0
        &&& self.used > 0 ==> forall|j: int|
            self.used <= j < 8 ==> !#[trigger] byte_bit(self.buf@.last(), j)
    }

    /// What was written is all that a writer holds: the buffer is its packed
    /// form, with zeros behind it in the last byte.
    pub proof fn lemma_packed(self)
        requires
            self.wf(),
        ensures
            self.bytes() == pack_bits(self.bits()),
            self.bytes().len() == (self.bits().len() + 7) / 8,
            self.used() == self.bits().len() % 8,
    {
        let bits = self.bits();
        assert(bits.len() == self.count());
        assert forall|k: int| 0 <= k < self.buf@.len() implies self.buf@[k] == #[trigger] pack_bits(bits)[k] by {
            let b = self.buf@[k];
            assert forall|j: int| 0 <= j < 8 implies #[trigger] byte_bit(b, j) == (0 <= 8 * k + j < bits.len()
                && bits[8 * k + j]) by {
                let p = 8 * k + j;
                assert(p / 8 == k && p % 8 == j);
                assert(stream_bits(self.buf@)[p] == byte_bit(b, j));
                if p >= bits.len() {
                    assert(b == self.buf@.last() && j >= self.used);
                }
            }
            lemma_byte_at(bits, 8 * k, b);
        }
        assert(self.buf@ =~= pack_bits(bits));
    }

    /// A writer that has written nothing; what `buf` held is gone.
    pub fn new(buf: Vec<u8>) -> (w: Self)
        ensures
            w.wf(),
            w.bits() == Seq::<bool>::empty(),
            w.bytes() == Seq::<u8>::empty(),
            w.used() == 0,
    {
        let mut buf = buf;
        buf.clear();
        BitWriter { buf, used: 0 }
    }

    /// Write the low `bits` bits of `value`, most-significant bit first.
    pub fn write(&mut self, value: u32, bits: u32)
        requires
            old(self).wf(),
            bits <= 32,
        ensures
            final(self).wf(),
            final(self).bits() == old(self).bits() + field_bits(value, bits as nat),
            final(self).bytes() == pack_bits(final(self).bits()),
            final(self).used() == final(self).bits().len() % 8,
    {
        let mut remaining: u32 = bits;
        proof {
            assert(self.bits() =~= old(self).bits() + field_bits(value, bits as nat).take(0));
        }
        while remaining > 0
            invariant
                self.wf(),
                remaining <= bits <= 32,
                self.bits() == old(self).bits() + field_bits(value, bits as nat).take(bits - remaining),
            decreases remaining,
        {
            let ghost before = self.bits();
            let ghost n0 = self.count();
            let ghost w0 = *self;
            assert(before.len() == n0);
            if self.used == 0 {
                self.buf.push(0);
            }
            let free: u32 = 8 - self.used;
            let take: u32 = if remaining < free { remaining } else { free };
            let shift: u32 = remaining - take;
            let used: u32 = self.used;
            let ghost bytes0 = self.buf@;
            let i: usize = self.buf.len() - 1;
            let last: u8 = self.buf[i];
            proof {
                assert(forall|j: u8| j < 8 ==> #[trigger] ((0u8 >> ((7 - j) as u8)) & 1u8) != 1u8)
                    by (bit_vector);
                assert forall|j: int| used <= j < 8 implies !#[trigger] byte_bit(last, j) by {
                    lemma_byte_bit(last, j);
                    if used == 0 {
                        let ju = j as u8;
                        assert((0u8 >> ((7 - ju) as u8)) & 1u8 != 1u8);
                    } else {
                        assert(last == w0.buf@.last());
                    }
                }
            }
            assert(1 <= take <= 8 ==> 1u32 << take >= 1) by (bit_vector);
            let mask: u32 = (1u32 << take) - 1;
            let chunk: u32 = (value >> shift) & mask;
            let merged: u8 = last | ((chunk as u8) << ((free - take) as u8));
            self.buf.set(i, merged);
            let sum: u32 = used + take;
            self.used = sum & 7;
            remaining = remaining - take;
            proof {
                assert(sum <= 8 ==> sum & 7 == (if sum == 8 { 0u32 } else { sum })) by (bit_vector);
                assert forall|j: int| 0 <= j < 8 implies #[trigger] byte_bit(merged, j) == (if j < used {
                    byte_bit(last, j)
                } else {
                    j < used + take && (value >> ((shift + take - 1 - (j - used)) as u32)) & 1u32 == 1u32
                }) by {
                    assert(j >= used ==> !byte_bit(last, j));
                    lemma_byte_bit(last, j);
                    lemma_byte_bit(merged, j);
                    lemma_merge(last, value, used, take, shift, j as u8);
                }
                let all = field_bits(value, bits as nat);
                let done = old(self).bits() + all.take(bits - remaining);
                assert(self.count() == n0 + take);
                assert(self.bits().len() == done.len());
                assert forall|p: int| 0 <= p < done.len() implies self.bits()[p] == done[p] by {
                    assert(self.bits()[p] == byte_bit(self.buf@[p / 8], p % 8));
                    if p < n0 {
                        assert(before[p] == done[p]);
                        assert(byte_bit(bytes0[p / 8], p % 8) == before[p]);
                    } else {
                        assert(p / 8 == i && p % 8 == p - 8 * i);
                        assert(done[p] == all[p - old(self).bits().len()]);
                    }
                }
                assert(self.bits() =~= done);
            }
        }
        proof {
            assert(field_bits(value, bits as nat).take(bits as int) =~= field_bits(value, bits as nat));
            self.lemma_packed();
        }
    }

    /// The bytes that hold what was written.
    pub fn finish(self) -> (bytes: Vec<u8>)
        requires
            self.wf(),
        ensures
            bytes@ == pack_bits(self.bits()),
    {
        proof {
            self.lemma_packed();
        }
        self.buf
    }
}

/// Writing a field in two parts is writing it at once.
pub proof fn lemma_field_splits(v: u32, a: nat, b: nat)
    requires
        a + b <= 32,
        b < 32,
    ensures
        field_bits(v, a + b) == field_bits(v >> (b as u32), a) + field_bits(v, b),
{
    let high = v >> (b as u32);
    assert forall|i: int| 0 <= i < a implies field_bits(v, a + b)[i] == field_bits(high, a)[i] by {
        let k = (a - 1 - i) as u32;
        let low = b as u32;
        assert(((v >> low) >> k) & 1u32 == (v >> ((k + low) as u32)) & 1u32) by (bit_vector)
            requires
                k < 32,
                low < 32,
                k + low < 32,
        ;
    }
    assert(field_bits(v, a + b) =~= field_bits(high, a) + field_bits(v, b));
}

/// Writers that have written the same are the same, so one that writes a field
/// at once and one that writes it in two parts end alike.
pub proof fn lemma_parts_end_alike(once: BitWriter, twice: BitWriter, before: Seq<bool>, v: u32, a: nat, b: nat)
    requires
        a + b <= 32,
        b < 32,
        once.wf(),
        twice.wf(),
        once.bits() == before + field_bits(v, a + b),
        twice.bits() == before + field_bits(v >> (b as u32), a) + field_bits(v, b),
    ensures
        once.bits() == twice.bits(),
        once.bytes() == twice.bytes(),
        once.used() == twice.used(),
{
    lemma_field_splits(v, a, b);
    assert(once.bits() =~= twice.bits());
    once.lemma_packed();
    twice.lemma_packed();
}

/// A field of no bits is nothing, and the bits of a value above a field never
/// matter.
pub proof fn lemma_field_ignores_high_bits(v: u32, n: nat)
    requires
        n < 32,
    ensures
        field_bits(v, 0) == Seq::<bool>::empty(),
        field_bits(v & ((1u32 << (n as u32)) - 1) as u32, n) == field_bits(v, n),
{
    let width = n as u32;
    let low = v & ((1u32 << width) - 1) as u32;
    assert forall|i: int| 0 <= i < n implies field_bits(low, n)[i] == field_bits(v, n)[i] by {
        let k = (n - 1 - i) as u32;
        assert(((v & ((1u32 << width) - 1) as u32) >> k) & 1u32 == (v >> k) & 1u32) by (bit_vector)
            requires
                k < width,
                width < 32,
        ;
    }
    assert(field_bits(low, n) =~= field_bits(v, n));
}

// ---------------------------------------------------------------------------
// The encoders

/// 16-bit samples with their two bytes exchanged; a trailing odd byte is
/// dropped.
pub open spec fn swap16(pcm: Seq<u8>) -> Seq<u8> {
    Seq::new(
        (pcm.len() / 2 * 2) as nat,
        |i: int| if i % 2 == 0 { pcm[i + 1] } else { pcm[i - 1] },
    )
}

/// The whole stereo frames in `pcm`: a trailing part of a frame is dropped.
pub open spec fn whole_frames(pcm: Seq<u8>) -> Seq<u8> {
    pcm.take(pcm.len() as int / 4 * 4)
}

/// The 23 bits in front of the samples: the element tag of a stereo channel
/// pair, 19 zero bits, and the flag that says "not compressed".
pub open spec fn alac_header() -> Seq<bool> {
    seq![false, false, true] + Seq::new(19, |i: int| false) + seq![true]
}

/// The 3-bit end tag.
pub open spec fn alac_end() -> Seq<bool> {
    seq![true, true, true]
}

/// The bitstream of an uncompressed ALAC frame: the header, each sample
/// big-endian, and the end tag.
pub open spec fn alac_bits(pcm: Seq<u8>) -> Seq<bool> {
    alac_header() + stream_bits(swap16(whole_frames(pcm))) + alac_end()
}

/// The bytes of an uncompressed ALAC frame.
pub open spec fn alac_frame(pcm: Seq<u8>) -> Seq<u8> {
    pack_bits(alac_bits(pcm))
}

/// The payload of one audio packet.
pub open spec fn payload_of(codec: Codec, pcm: Seq<u8>) -> Seq<u8> {
    match codec {
        Codec::Alac => alac_frame(pcm),
        Codec::Pcm => swap16(pcm),
    }
}

/// A byte written as an 8-bit field is that byte in the stream.
proof fn lemma_field_of_byte(bytes: Seq<u8>, b: u8)
    ensures
        stream_bits(bytes) + field_bits(b as u32, 8) == stream_bits(bytes.push(b)),
{
    let after = stream_bits(bytes.push(b));
    assert forall|p: int| 0 <= p < after.len() implies (stream_bits(bytes) + field_bits(b as u32, 8))[p]
        == after[p] by {
        if p >= 8 * bytes.len() {
            let j = (p - 8 * bytes.len()) as u8;
            assert(p / 8 == bytes.len() && p % 8 == j);
            lemma_byte_bit(b, j as int);
            assert(j < 8 ==> (((b as u32) >> ((8 - 1 - j) as u32)) & 1u32 == 1u32) == ((b >> ((7 - j) as u8))
                & 1u8 == 1u8)) by (bit_vector);
        }
    }
    assert(stream_bits(bytes) + field_bits(b as u32, 8) =~= after);
}

/// The header and the end tag as the fields that they are written in.
proof fn lemma_header_fields()
    ensures
        alac_header() == Seq::<bool>::empty() + field_bits(1, 3) + field_bits(0, 4) + field_bits(0, 8)
            + field_bits(0, 4) + field_bits(0, 1) + field_bits(0, 2) + field_bits(1, 1),
        alac_end() == field_bits(7, 3),
{
    assert forall|n: nat, i: int| n <= 32 && 0 <= i < n implies !#[trigger] field_bits(0, n)[i] by {
        let k = (n - 1 - i) as u32;
        assert(k < 32 ==> (0u32 >> k) & 1u32 != 1u32) by (bit_vector);
    }
    assert((1u32 >> 2u32) & 1u32 != 1u32 && (1u32 >> 1u32) & 1u32 != 1u32 && (1u32 >> 0u32) & 1u32 == 1u32)
        by (bit_vector);
    assert((7u32 >> 2u32) & 1u32 == 1u32 && (7u32 >> 1u32) & 1u32 == 1u32 && (7u32 >> 0u32) & 1u32 == 1u32)
        by (bit_vector);
    assert(field_bits(1, 3) =~= seq![false, false, true]);
    assert(field_bits(1, 1) =~= seq![true]);
    assert(alac_end() =~= field_bits(7, 3));
    assert(alac_header() =~= Seq::<bool>::empty() + field_bits(1, 3) + field_bits(0, 4) + field_bits(0, 8)
        + field_bits(0, 4) + field_bits(0, 1) + field_bits(0, 2) + field_bits(1, 1));
}

/// One more frame of input is four more bytes of swapped output.
proof fn lemma_swap_frame(pcm: Seq<u8>, at: int)
    requires
        0 <= at,
        at % 4 == 0,
        at + 4 <= pcm.len(),
    ensures
        swap16(pcm.take(at + 4)) == swap16(pcm.take(at)).push(pcm[at + 1]).push(pcm[at]).push(
            pcm[at + 3],
        ).push(pcm[at + 2]),
{
    assert(swap16(pcm.take(at + 4)) =~= swap16(pcm.take(at)).push(pcm[at + 1]).push(pcm[at]).push(
        pcm[at + 3],
    ).push(pcm[at + 2]));
}

/// Write one byte behind others.
fn write_byte(w: &mut BitWriter, b: u8, Ghost(head): Ghost<Seq<bool>>, Ghost(bytes): Ghost<Seq<u8>>)
    requires
        old(w).wf(),
        old(w).bits() == head + stream_bits(bytes),
    ensures
        final(w).wf(),
        final(w).bits() == head + stream_bits(bytes.push(b)),
{
    w.write(b as u32, 8);
    proof {
        lemma_field_of_byte(bytes, b);
        assert(w.bits() =~= head + (stream_bits(bytes) + field_bits(b as u32, 8)));
    }
}

/// Encode one block of interleaved LE 16-bit stereo PCM into a raw ALAC frame.
///
/// The layout is the well-known "uncompressed ALAC" bitstream: a 23-bit
/// header, then each stereo sample written big-endian, then a 3-bit end tag.
#[verifier::rlimit(40)]
pub fn encode_alac(out: &mut Vec<u8>, pcm: &[u8])
    ensures
        final(out)@ == alac_frame(pcm@),
{
    let mut buf: Vec<u8> = Vec::new();
    core::mem::swap(out, &mut buf);
    let mut w = BitWriter::new(buf);
    w.write(1, 3); // element tag: stereo channel pair
    w.write(0, 4);
    w.write(0, 8);
    w.write(0, 4);
    w.write(0, 1); // hassize = 0
    w.write(0, 2); // unused
    w.write(1, 1); // is-not-compressed = 1
    proof {
        lemma_header_fields();
        assert(w.bits() =~= alac_header() + stream_bits(swap16(pcm@.take(0))));
    }
    let len: usize = pcm.len();
    let frames: usize = len / 4;
    let mut f: usize = 0;
    while f < frames
        invariant
            w.wf(),
            f <= frames,
            len == pcm@.len(),
            frames == len / 4,
            w.bits() == alac_header() + stream_bits(swap16(pcm@.take(4 * f))),
        decreases frames - f,
    {
        let at: usize = 4 * f;
        let ghost s0 = swap16(pcm@.take(4 * f));
        // LE in: L = [lo, hi], R = [lo, hi]; BE out.
        let (b0, b1, b2, b3) = (pcm[at], pcm[at + 1], pcm[at + 2], pcm[at + 3]);
        write_byte(&mut w, b1, Ghost(alac_header()), Ghost(s0));
        write_byte(&mut w, b0, Ghost(alac_header()), Ghost(s0.push(b1)));
        write_byte(&mut w, b3, Ghost(alac_header()), Ghost(s0.push(b1).push(b0)));
        write_byte(&mut w, b2, Ghost(alac_header()), Ghost(s0.push(b1).push(b0).push(b3)));
        proof {
            lemma_swap_frame(pcm@, at as int);
        }
        f = f + 1;
    }
    w.write(7, 3); // end tag
    let mut frame: Vec<u8> = w.finish();
    core::mem::swap(out, &mut frame);
}

/// Encode one block of interleaved LE 16-bit PCM into big-endian PCM (cn=0).
pub fn encode_pcm_be(out: &mut Vec<u8>, pcm: &[u8])
    ensures
        final(out)@ == swap16(pcm@),
{
    out.clear();
    out.reserve(pcm.len());
    let len: usize = pcm.len();
    let samples: usize = len / 2;
    let mut k: usize = 0;
    while k < samples
        invariant
            k <= samples,
            len == pcm@.len(),
            samples == pcm@.len() / 2,
            out@ == swap16(pcm@).take(2 * k),
        decreases samples - k,
    {
        out.push(pcm[2 * k + 1]);
        out.push(pcm[2 * k]);
        assert(out@ =~= swap16(pcm@).take(2 * k + 2));
        k = k + 1;
    }
    assert(out@ =~= swap16(pcm@));
}

/// Encode one block in the format of a session.
pub fn encode(codec: Codec, out: &mut Vec<u8>, pcm: &[u8])
    ensures
        final(out)@ == payload_of(codec, pcm@),
{
    match codec {
        Codec::Alac => encode_alac(out, pcm),
        Codec::Pcm => encode_pcm_be(out, pcm),
    }
}

// ---------------------------------------------------------------------------
// What a frame carries

/// The samples in an ALAC frame of `frames` stereo frames, as a receiver
/// reads them: the bytes behind the 23-bit header, little-endian again.
pub open spec fn alac_samples(frame: Seq<u8>, frames: nat) -> Seq<u8> {
    swap16(Seq::new(4 * frames, |k: int| byte_at(stream_bits(frame), 23 + 8 * k)))
}

/// The bits of packed bytes are the bits that were packed.
#[verifier::rlimit(40)]
pub proof fn lemma_pack_keeps_bits(bits: Seq<bool>, i: int)
    requires
        0 <= i < bits.len(),
    ensures
        i < stream_bits(pack_bits(bits)).len(),
        stream_bits(pack_bits(bits))[i] == bits[i],
{
    let k = i / 8;
    let b = byte_at(bits, 8 * k);
    let w0 = bit_weight(bits, 8 * k, 128) as u8;
    let w1 = bit_weight(bits, 8 * k + 1, 64) as u8;
    let w2 = bit_weight(bits, 8 * k + 2, 32) as u8;
    let w3 = bit_weight(bits, 8 * k + 3, 16) as u8;
    let w4 = bit_weight(bits, 8 * k + 4, 8) as u8;
    let w5 = bit_weight(bits, 8 * k + 5, 4) as u8;
    let w6 = bit_weight(bits, 8 * k + 6, 2) as u8;
    let w7 = bit_weight(bits, 8 * k + 7, 1) as u8;
    assert(b == w0 + w1 + w2 + w3 + w4 + w5 + w6 + w7);
    assert(((b >> 7u8) & 1u8 == 1u8) == (w0 == 128) && ((b >> 6u8) & 1u8 == 1u8) == (w1 == 64) && ((b >> 5u8)
        & 1u8 == 1u8) == (w2 == 32) && ((b >> 4u8) & 1u8 == 1u8) == (w3 == 16) && ((b >> 3u8) & 1u8 == 1u8) == (
    w4 == 8) && ((b >> 2u8) & 1u8 == 1u8) == (w5 == 4) && ((b >> 1u8) & 1u8 == 1u8) == (w6 == 2) && ((b >> 0u8)
        & 1u8 == 1u8) == (w7 == 1)) by (bit_vector)
        requires
            b == w0 + w1 + w2 + w3 + w4 + w5 + w6 + w7,
            w0 == 0 || w0 == 128,
            w1 == 0 || w1 == 64,
            w2 == 0 || w2 == 32,
            w3 == 0 || w3 == 16,
            w4 == 0 || w4 == 8,
            w5 == 0 || w5 == 4,
            w6 == 0 || w6 == 2,
            w7 == 0 || w7 == 1,
    ;
    assert(pack_bits(bits)[k] == b);
    let j = i % 8;
    lemma_byte_bit(b, j);
    assert(i == 8 * k + j);
    assert(j == 0 || j == 1 || j == 2 || j == 3 || j == 4 || j == 5 || j == 6 || j == 7);
}

/// Byte `k` of the samples stands behind the header in the packed stream.
#[verifier::rlimit(40)]
proof fn lemma_sample_byte(head: Seq<bool>, samples: Seq<u8>, tail: Seq<bool>, k: int)
    requires
        0 <= k < samples.len(),
    ensures
        byte_at(stream_bits(pack_bits(head + stream_bits(samples) + tail)), head.len() + 8 * k) == samples[k],
{
    let bits = head + stream_bits(samples) + tail;
    let all = stream_bits(pack_bits(bits));
    let at = head.len() + 8 * k;
    assert forall|j: int| 0 <= j < 8 implies #[trigger] byte_bit(samples[k], j) == (0 <= at + j < all.len()
        && all[at + j]) by {
        lemma_pack_keeps_bits(bits, at + j);
        let p = 8 * k + j;
        assert(p / 8 == k && p % 8 == j);
        assert(bits[at + j] == stream_bits(samples)[p]);
    }
    lemma_byte_at(all, at, samples[k]);
}

proof fn lemma_samples_behind(head: Seq<bool>, samples: Seq<u8>, tail: Seq<bool>)
    ensures
        Seq::new(
            samples.len(),
            |k: int| byte_at(stream_bits(pack_bits(head + stream_bits(samples) + tail)), head.len() + 8 * k),
        ) == samples,
{
    let got = Seq::new(
        samples.len(),
        |k: int| byte_at(stream_bits(pack_bits(head + stream_bits(samples) + tail)), head.len() + 8 * k),
    );
    assert forall|k: int| 0 <= k < samples.len() implies got[k] == samples[k] by {
        lemma_sample_byte(head, samples, tail, k);
    }
    assert(got =~= samples);
}

/// Encoding loses nothing: a receiver reads back from an ALAC frame every
/// whole stereo frame of the PCM that went in.
#[verifier::rlimit(40)]
pub proof fn lemma_alac_round_trip(pcm: Seq<u8>)
    ensures
        alac_samples(alac_frame(pcm), pcm.len() / 4) == whole_frames(pcm),
{
    assert(alac_header().len() == 23);
    let samples = swap16(whole_frames(pcm));
    let frames = pcm.len() / 4;
    assert(samples.len() == 4 * frames);
    lemma_samples_behind(alac_header(), samples, alac_end());
    assert(Seq::new(4 * frames, |k: int| byte_at(stream_bits(alac_frame(pcm)), 23 + 8 * k)) =~= Seq::new(
        samples.len(),
        |k: int| byte_at(stream_bits(alac_frame(pcm)), alac_header().len() + 8 * k),
    ));
    lemma_pcm_round_trip(whole_frames(pcm));
    assert(whole_frames(pcm).take(whole_frames(pcm).len() as int / 2 * 2) =~= whole_frames(pcm));
}

/// The same for PCM: exchanging the bytes a second time gives the input back,
/// up to a trailing odd byte.
pub proof fn lemma_pcm_round_trip(pcm: Seq<u8>)
    ensures
        swap16(swap16(pcm)) == pcm.take(pcm.len() as int / 2 * 2),
{
    assert(swap16(swap16(pcm)) =~= pcm.take(pcm.len() as int / 2 * 2));
}

/// Each sample goes out with its high byte first and its value unchanged, in
/// its place; a trailing odd byte does not go out.
pub proof fn lemma_samples_keep_value(pcm: Seq<u8>, k: int)
    requires
        0 <= k < pcm.len() / 2,
    ensures
        swap16(pcm).len() == pcm.len() / 2 * 2,
        swap16(pcm)[2 * k] * 256 + swap16(pcm)[2 * k + 1] == pcm[2 * k] + pcm[2 * k + 1] * 256,
        payload_of(Codec::Pcm, pcm) == swap16(pcm),
{
}

/// Eight bits that lie across two bytes: the last one of the first, and the
/// first seven of the second.
#[verifier::spinoff_prover]
#[verifier::rlimit(40)]
proof fn lemma_across(bits: Seq<bool>, at: int)
    requires
        0 <= at,
        at % 8 == 7,
    ensures
        byte_at(bits, at) == byte_at(bits, at - 7) % 2 * 128 + byte_at(bits, at + 1) / 2,
{
    let one = bit_weight(bits, at, 1);
    let before = bit_weight(bits, at - 7, 64) + bit_weight(bits, at - 6, 32) + bit_weight(bits, at - 5, 16)
        + bit_weight(bits, at - 4, 8) + bit_weight(bits, at - 3, 4) + bit_weight(bits, at - 2, 2) + bit_weight(
        bits,
        at - 1,
        1,
    );
    let behind = bit_weight(bits, at + 1, 64) + bit_weight(bits, at + 2, 32) + bit_weight(bits, at + 3, 16)
        + bit_weight(bits, at + 4, 8) + bit_weight(bits, at + 5, 4) + bit_weight(bits, at + 6, 2) + bit_weight(
        bits,
        at + 7,
        1,
    );
    let last = bit_weight(bits, at + 8, 1);
    assert(byte_at(bits, at - 7) == 2 * before + one);
    assert(byte_at(bits, at + 1) == 2 * behind + last);
    assert(byte_at(bits, at) == 128 * one + behind);
}

/// What the header makes of the first bytes.
#[verifier::spinoff_prover]
#[verifier::rlimit(40)]
proof fn lemma_head_bytes(bits: Seq<bool>)
    requires
        bits.len() >= 23,
        forall|i: int| 0 <= i < 23 ==> #[trigger] bits[i] == (i == 2 || i == 22),
    ensures
        byte_at(bits, 0) == 0x20,
        byte_at(bits, 8) == 0,
        byte_at(bits, 16) / 2 == 1,
{
    assert(!bits[0] && !bits[1] && bits[2] && !bits[3] && !bits[4] && !bits[5] && !bits[6] && !bits[7]);
    assert(!bits[8] && !bits[9] && !bits[10] && !bits[11] && !bits[12] && !bits[13] && !bits[14] && !bits[15]);
    assert(!bits[16] && !bits[17] && !bits[18] && !bits[19] && !bits[20] && !bits[21] && bits[22]);
    assert(byte_at(bits, 16) == 2 + bit_weight(bits, 23, 1));
}

/// What the end tag makes of the last bytes.
#[verifier::rlimit(40)]
proof fn lemma_tail_bytes(bits: Seq<bool>, at: int)
    requires
        7 <= at,
        bits.len() == at + 3,
        bits[at],
        bits[at + 1],
        bits[at + 2],
    ensures
        byte_at(bits, at - 7) % 2 == 1,
        byte_at(bits, at + 1) == 0xC0,
{
}

/// How much of a frame the samples take.
proof fn lemma_sample_len(pcm: Seq<u8>)
    ensures
        swap16(whole_frames(pcm)).len() == 4 * (pcm.len() as int / 4),
        stream_bits(swap16(whole_frames(pcm))).len() == 32 * (pcm.len() as int / 4),
{
    let q = pcm.len() as int / 4;
    assert(whole_frames(pcm).len() == 4 * q);
}

/// Three bit strings, one after the other.
proof fn lemma_three_parts(a: Seq<bool>, b: Seq<bool>, c: Seq<bool>)
    ensures
        (a + b + c).len() == a.len() + b.len() + c.len(),
        forall|i: int| 0 <= i < a.len() ==> #[trigger] (a + b + c)[i] == a[i],
        forall|i: int| a.len() <= i < a.len() + b.len() ==> #[trigger] (a + b + c)[i] == b[i - a.len()],
        forall|i: int|
            a.len() + b.len() <= i < a.len() + b.len() + c.len() ==> #[trigger] (a + b + c)[i] == c[i - a.len()
                - b.len()],
{
}

/// The bits of a frame: 23 of the header, the samples, three of the end tag.
#[verifier::spinoff_prover]
#[verifier::rlimit(40)]
proof fn lemma_frame_bits(pcm: Seq<u8>)
    ensures
        ({
            let bits = alac_bits(pcm);
            let n = 4 * (pcm.len() as int / 4);
            &&& bits.len() == 26 + 8 * n
            &&& forall|i: int| 0 <= i < 23 ==> #[trigger] bits[i] == (i == 2 || i == 22)
            &&& bits[23 + 8 * n] && bits[24 + 8 * n] && bits[25 + 8 * n]
        }),
{
    let bits = alac_bits(pcm);
    let n = 4 * (pcm.len() as int / 4);
    let middle = stream_bits(swap16(whole_frames(pcm)));
    lemma_sample_len(pcm);
    lemma_three_parts(alac_header(), middle, alac_end());
    assert(alac_header().len() == 23);
    assert forall|i: int| 0 <= i < 23 implies #[trigger] bits[i] == (i == 2 || i == 22) by {
        assert(bits[i] == alac_header()[i]);
    }
    assert(bits[23 + 8 * n] == alac_end()[0]);
    assert(bits[24 + 8 * n] == alac_end()[1]);
    assert(bits[25 + 8 * n] == alac_end()[2]);
}

/// Byte `j` of the samples in the bits of a frame.
#[verifier::spinoff_prover]
#[verifier::rlimit(40)]
proof fn lemma_frame_sample(pcm: Seq<u8>, j: int)
    requires
        0 <= j < 4 * (pcm.len() as int / 4),
    ensures
        byte_at(alac_bits(pcm), 23 + 8 * j) == (if j % 2 == 0 {
            pcm[j + 1]
        } else {
            pcm[j - 1]
        }),
{
    let bits = alac_bits(pcm);
    let samples = swap16(whole_frames(pcm));
    let at = 23 + 8 * j;
    lemma_sample_len(pcm);
    lemma_three_parts(alac_header(), stream_bits(samples), alac_end());
    assert(alac_header().len() == 23);
    assert forall|b: int| 0 <= b < 8 implies #[trigger] byte_bit(samples[j], b) == (0 <= at + b < bits.len()
        && bits[at + b]) by {
        let q = 8 * j + b;
        assert(q / 8 == j && q % 8 == b);
        assert(bits[at + b] == stream_bits(samples)[q]);
    }
    lemma_byte_at(bits, at, samples[j]);
}

/// The start and the end of an ALAC frame, whatever the input: it starts with
/// 0x20 0x00 and the seven bits 0000001 (the element tag of a channel pair,
/// zeros, and "not compressed"); behind the samples, which take as many bytes
/// as the whole frames that went in, there are three ones, and zeros fill the
/// last byte up.
#[verifier::rlimit(40)]
pub proof fn lemma_frame_ends(pcm: Seq<u8>)
    ensures
        ({
            let frame = payload_of(Codec::Alac, pcm);
            let n = 4 * (pcm.len() as int / 4);
            &&& frame == alac_frame(pcm)
            &&& frame.len() == n + 4
            &&& frame[0] == 0x20
            &&& frame[1] == 0x00
            &&& frame[2] / 2 == 1
            &&& frame[n + 2] % 2 == 1
            &&& frame[n + 3] == 0xC0
        }),
{
    let frame = alac_frame(pcm);
    let bits = alac_bits(pcm);
    let n = 4 * (pcm.len() as int / 4);
    lemma_frame_bits(pcm);
    lemma_head_bytes(bits);
    lemma_tail_bytes(bits, 23 + 8 * n);
    assert(frame.len() == n + 4);
    assert(frame[0] == byte_at(bits, 0));
    assert(frame[1] == byte_at(bits, 8));
    assert(frame[2] == byte_at(bits, 16));
    assert(frame[n + 2] == byte_at(bits, 8 * (n + 2)));
    assert(frame[n + 3] == byte_at(bits, 8 * (n + 3)));
}

/// The samples of an ALAC frame: behind the 23 bits of its header, so across
/// two bytes each, stand the bytes of all samples in order, the high byte of
/// each sample first.
#[verifier::rlimit(40)]
pub proof fn lemma_frame_samples(pcm: Seq<u8>, j: int)
    requires
        0 <= j < 4 * (pcm.len() as int / 4),
    ensures
        ({
            let frame = payload_of(Codec::Alac, pcm);
            &&& j + 3 < frame.len()
            &&& frame[j + 2] % 2 * 128 + frame[j + 3] / 2 == (if j % 2 == 0 {
                pcm[j + 1]
            } else {
                pcm[j - 1]
            })
        }),
{
    let frame = alac_frame(pcm);
    let bits = alac_bits(pcm);
    lemma_frame_bits(pcm);
    lemma_frame_sample(pcm, j);
    lemma_across(bits, 23 + 8 * j);
    assert(frame[j + 2] == byte_at(bits, 8 * (j + 2)));
    assert(frame[j + 3] == byte_at(bits, 8 * (j + 3)));
}

/// Bit `i` of a field of `n` bits is what it is worth in the value: the first
/// bit is worth the most, the last one 1.
pub proof fn lemma_field_bit(v: u32, n: nat, i: int)
    requires
        n <= 32,
        0 <= i < n,
    ensures
        field_bits(v, n).len() == n,
        field_bits(v, n)[i] <==> v as nat / pow2((n - 1 - i) as nat) % 2 == 1,
{
    let k = (n - 1 - i) as u32;
    lemma_u32_shr_is_div(v, k);
    let w = v >> k;
    assert((w & 1u32 == 1u32) == (w % 2 == 1)) by (bit_vector);
}

/// Packing takes as many bytes as it needs, and fills the last one with zeros.
pub proof fn lemma_pack_pads(bits: Seq<bool>, i: int)
    ensures
        pack_bits(bits).len() == (bits.len() + 7) / 8,
        bits.len() <= i < 8 * pack_bits(bits).len() ==> !stream_bits(pack_bits(bits))[i],
{
    if bits.len() <= i < 8 * pack_bits(bits).len() {
        let full = bits + Seq::new((8 * pack_bits(bits).len() - bits.len()) as nat, |j: int| false);
        assert forall|k: int| 0 <= k < pack_bits(bits).len() implies pack_bits(bits)[k] == pack_bits(full)[k] by {
            assert(byte_at(bits, 8 * k) == byte_at(full, 8 * k));
        }
        assert(pack_bits(bits) =~= pack_bits(full));
        lemma_pack_keeps_bits(full, i);
    }
}

/// The size of a payload follows from the size of the block alone.
#[verifier::rlimit(40)]
pub proof fn lemma_payload_len(codec: Codec, pcm: Seq<u8>)
    ensures
        payload_of(codec, pcm).len() == match codec {
            Codec::Alac => (33 + 32 * (pcm.len() / 4)) / 8,
            Codec::Pcm => pcm.len() / 2 * 2,
        },
{
    match codec {
        Codec::Alac => {
            let q = pcm.len() / 4;
            let samples = swap16(whole_frames(pcm));
            assert(whole_frames(pcm).len() == 4 * q);
            assert(samples.len() == 4 * q);
            assert(stream_bits(samples).len() == 32 * q);
            assert(alac_header().len() == 23);
            assert(alac_bits(pcm).len() == 26 + 32 * q);
        },
        Codec::Pcm => {},
    }
}

} // verus!
