//! Bit-level I/O: a writer that packs bits into bytes, most significant bit
//! first, and a reader that hands them out again in the same order.
//!
//! Bits travel through the executable interface as `u8` values, where any
//! non-zero value stands for a set bit; the contracts speak of `Seq<bool>`.

use vstd::prelude::*;

verus! {

/// Whether the bit `shift` places above the least significant one is set.
pub open spec fn nth_bit(byte: u8, shift: u8) -> bool {
    (byte >> shift) & 1u8 == 1u8
}

/// Bit `k` of `byte`, counted from the most significant bit: `k` is in `0..8`.
pub open spec fn bit_at(byte: u8, k: int) -> bool {
    nth_bit(byte, (7 - k) as u8)
}

/// `weight` if `bit` is set, else nothing.
pub open spec fn place(bit: bool, weight: u8) -> u8 {
    if bit {
        weight
    } else {
        0
    }
}

/// The byte whose bits, most significant first, are `b0` to `b7`.
pub open spec fn compose(
    b0: bool,
    b1: bool,
    b2: bool,
    b3: bool,
    b4: bool,
    b5: bool,
    b6: bool,
    b7: bool,
) -> u8 {
    place(b0, 0x80) | place(b1, 0x40) | place(b2, 0x20) | place(b3, 0x10) | place(b4, 0x08)
        | place(b5, 0x04) | place(b6, 0x02) | place(b7, 0x01)
}

/// The byte whose bits are the first eight entries of `bits`.
pub open spec fn byte_of(bits: Seq<bool>) -> u8 {
    compose(bits[0], bits[1], bits[2], bits[3], bits[4], bits[5], bits[6], bits[7])
}

/// The eight bits of `byte`, most significant first.
pub open spec fn bits_of_byte(byte: u8) -> Seq<bool> {
    Seq::new(8, |k: int| bit_at(byte, k))
}

/// The bits of `bytes`, byte after byte, each most significant bit first.
pub open spec fn bits_of_bytes(bytes: Seq<u8>) -> Seq<bool> {
    Seq::new(8 * bytes.len(), |i: int| bit_at(bytes[i / 8], i % 8))
}

/// `n` cleared bits.
pub open spec fn zeros(n: nat) -> Seq<bool> {
    Seq::new(n, |i: int| false)
}

/// `bits` followed by as few cleared bits as reach a byte boundary.
pub open spec fn pad_to_byte(bits: Seq<bool>) -> Seq<bool> {
    bits + zeros(((8 - bits.len() % 8) % 8) as nat)
}

/// `bits` packed into bytes, the last byte filled up with cleared bits.
pub open spec fn packed(bits: Seq<bool>) -> Seq<u8> {
    Seq::new(
        (bits.len() + 7) / 8,
        |j: int| byte_of(pad_to_byte(bits).subrange(8 * j, 8 * j + 8)),
    )
}

/// The bits that a slice of `u8` flags stands for: non-zero means set.
pub open spec fn as_bits(flags: Seq<u8>) -> Seq<bool> {
    Seq::new(flags.len(), |i: int| flags[i] != 0)
}

/// The flag a bit is handed out as: `1` if set, else `0`.
pub open spec fn flag_of(bit: bool) -> u8 {
    if bit {
        1
    } else {
        0
    }
}

/// The bits of a composed byte are the bits it was composed of.
proof fn lemma_nth_bit_of_compose(
    b0: bool,
    b1: bool,
    b2: bool,
    b3: bool,
    b4: bool,
    b5: bool,
    b6: bool,
    b7: bool,
)
    by (bit_vector)
    ensures
        nth_bit(compose(b0, b1, b2, b3, b4, b5, b6, b7), 7) == b0,
        nth_bit(compose(b0, b1, b2, b3, b4, b5, b6, b7), 6) == b1,
        nth_bit(compose(b0, b1, b2, b3, b4, b5, b6, b7), 5) == b2,
        nth_bit(compose(b0, b1, b2, b3, b4, b5, b6, b7), 4) == b3,
        nth_bit(compose(b0, b1, b2, b3, b4, b5, b6, b7), 3) == b4,
        nth_bit(compose(b0, b1, b2, b3, b4, b5, b6, b7), 2) == b5,
        nth_bit(compose(b0, b1, b2, b3, b4, b5, b6, b7), 1) == b6,
        nth_bit(compose(b0, b1, b2, b3, b4, b5, b6, b7), 0) == b7,
{
}

/// Composing the bits of a byte gives the byte back.
proof fn lemma_compose_of_bits(x: u8)
    by (bit_vector)
    ensures
        compose(
            nth_bit(x, 7),
            nth_bit(x, 6),
            nth_bit(x, 5),
            nth_bit(x, 4),
            nth_bit(x, 3),
            nth_bit(x, 2),
            nth_bit(x, 1),
            nth_bit(x, 0),
        ) == x,
{
}

/// Setting one bit of a byte changes that bit and no other.
proof fn lemma_set_bit(x: u8, p: u8, s: u8)
    by (bit_vector)
    requires
        p < 8,
        s < 8,
    ensures
        nth_bit(x | (1u8 << p), s) == (s == p || nth_bit(x, s)),
{
}

/// No bit of the zero byte is set.
proof fn lemma_zero_has_no_bit(s: u8)
    by (bit_vector)
    requires
        s < 8,
    ensures
        !nth_bit(0u8, s),
{
}

/// The zero byte has no bit set.
proof fn lemma_zero_is_clear()
    ensures
        forall|k: int| 0 <= k < 8 ==> !#[trigger] bit_at(0u8, k),
{
    assert forall|k: int| 0 <= k < 8 implies !#[trigger] bit_at(0u8, k) by {
        lemma_zero_has_no_bit((7 - k) as u8);
    }
}

/// A byte shifted and masked with one is the flag of the bit at that place.
proof fn lemma_read_mask(x: u8, s: u8)
    by (bit_vector)
    requires
        s < 8,
    ensures
        (x >> s) & 1u8 == place(nth_bit(x, s), 1),
{
}

/// Packing the bits of a byte gives the byte back.
pub proof fn lemma_byte_of_bits_of_byte(x: u8)
    ensures
        byte_of(bits_of_byte(x)) == x,
{
    lemma_compose_of_bits(x);
}

/// The bits of a packed byte are the bits it was packed from.
pub proof fn lemma_bits_of_byte_of(bits: Seq<bool>)
    requires
        bits.len() == 8,
    ensures
        bits_of_byte(byte_of(bits)) == bits,
{
    lemma_nth_bit_of_compose(
        bits[0],
        bits[1],
        bits[2],
        bits[3],
        bits[4],
        bits[5],
        bits[6],
        bits[7],
    );
    assert(bits_of_byte(byte_of(bits)) =~= bits);
}

/// Appending a byte appends its eight bits.
pub proof fn lemma_bits_of_bytes_push(bytes: Seq<u8>, byte: u8)
    ensures
        bits_of_bytes(bytes.push(byte)) == bits_of_bytes(bytes) + bits_of_byte(byte),
{
    assert(bits_of_bytes(bytes.push(byte)) =~= bits_of_bytes(bytes) + bits_of_byte(byte));
}

/// Padding adds fewer than eight bits and ends on a byte boundary.
pub proof fn lemma_pad_to_byte_len(bits: Seq<bool>)
    ensures
        pad_to_byte(bits).len() == 8 * ((bits.len() + 7) / 8),
        pad_to_byte(bits).len() % 8 == 0,
        bits.len() <= pad_to_byte(bits).len() < bits.len() + 8,
        bits.len() % 8 == 0 ==> pad_to_byte(bits) == bits,
{
    if bits.len() % 8 == 0 {
        assert(pad_to_byte(bits) =~= bits);
    }
}

/// Packing the bits of whole bytes gives the bytes back.
pub proof fn lemma_packed_bits_of_bytes(bytes: Seq<u8>)
    ensures
        packed(bits_of_bytes(bytes)) == bytes,
{
    let bits = bits_of_bytes(bytes);
    lemma_pad_to_byte_len(bits);
    assert forall|j: int| 0 <= j < bytes.len() implies #[trigger] packed(bits)[j] == bytes[j] by {
        assert(bits.subrange(8 * j, 8 * j + 8) =~= bits_of_byte(bytes[j]));
        lemma_byte_of_bits_of_byte(bytes[j]);
    }
    assert(packed(bits) =~= bytes);
}

/// The bits of packed bits are the bits padded to a byte boundary.
pub proof fn lemma_bits_of_packed(bits: Seq<bool>)
    ensures
        bits_of_bytes(packed(bits)) == pad_to_byte(bits),
{
    let padded = pad_to_byte(bits);
    lemma_pad_to_byte_len(bits);
    assert forall|i: int| 0 <= i < padded.len() implies #[trigger] bits_of_bytes(packed(bits))[i]
        == padded[i] by {
        let j = i / 8;
        let chunk = padded.subrange(8 * j, 8 * j + 8);
        lemma_bits_of_byte_of(chunk);
        assert(bits_of_byte(byte_of(chunk))[i % 8] == chunk[i % 8]);
    }
    assert(bits_of_bytes(packed(bits)) =~= padded);
}

/// Packing ignores the padding: bits and padded bits pack to the same bytes.
pub proof fn lemma_packed_of_padded(bits: Seq<bool>)
    ensures
        packed(pad_to_byte(bits)) == packed(bits),
{
    let padded = pad_to_byte(bits);
    lemma_pad_to_byte_len(bits);
    lemma_pad_to_byte_len(padded);
    assert(pad_to_byte(padded) == padded);
    assert(packed(padded) =~= packed(bits));
}

/// Bits that are written, flushed and read back come out as they went in:
/// the first `bits.len()` bits of the packed bytes are `bits`, and fewer than
/// eight bits follow them.
pub proof fn lemma_bits_round_trip(bits: Seq<bool>)
    ensures
        bits_of_bytes(packed(bits)).take(bits.len() as int) == bits,
        bits_of_bytes(packed(bits)).len() < bits.len() + 8,
{
    lemma_bits_of_packed(bits);
    lemma_pad_to_byte_len(bits);
    assert(pad_to_byte(bits).take(bits.len() as int) =~= bits);
}

/// The last byte of a writer while it is being filled: fewer than eight
/// bits, and nothing behind them.
struct PendingByte {
    byte: u8,
    count: u8,
}

impl PendingByte {
    #[verifier::type_invariant]
    spec fn well_formed(self) -> bool {
        &&& self.count < 8
        &&& forall|k: int| self.count <= k < 8 ==> !#[trigger] bit_at(self.byte, k)
    }

    /// The bits that the byte holds so far.
    spec fn bits(self) -> Seq<bool> {
        Seq::new(self.count as nat, |k: int| bit_at(self.byte, k))
    }
}

/// Accumulates bits into bytes, most significant bit first.
pub struct BitWriter {
    buffer: Vec<u8>,
    pending: PendingByte,
}

impl BitWriter {
    /// The bits written so far, in the order they were written.
    pub closed spec fn bits(self) -> Seq<bool> {
        bits_of_bytes(self.buffer@) + self.pending.bits()
    }

    /// A writer that holds no bits.
    pub fn new() -> (w: Self)
        ensures
            w.bits() == Seq::<bool>::empty(),
    {
        proof {
            lemma_zero_is_clear();
        }
        let w = BitWriter { buffer: Vec::new(), pending: PendingByte { byte: 0, count: 0 } };
        proof {
            assert(w.bits() =~= Seq::<bool>::empty());
        }
        w
    }

    /// Writes one bit: set if `bit` is non-zero, cleared otherwise.
    pub fn write_bit(&mut self, bit: u8)
        ensures
            final(self).bits() == old(self).bits().push(bit != 0),
    {
        proof {
            use_type_invariant(&self.pending);
            lemma_zero_is_clear();
        }
        let pos = self.pending.count;
        let current = self.pending.byte;
        let byte = if bit != 0 {
            current | (1u8 << (7 - pos))
        } else {
            current
        };
        proof {
            assert forall|k: int| 0 <= k < 8 implies #[trigger] bit_at(byte, k) == (if k == pos {
                bit != 0
            } else {
                bit_at(current, k)
            }) by {
                if bit != 0 {
                    lemma_set_bit(current, (7 - pos) as u8, (7 - k) as u8);
                }
            }
        }
        let ghost before = self.bits();
        if pos == 7 {
            self.buffer.push(byte);
            self.pending = PendingByte { byte: 0, count: 0 };
            proof {
                lemma_bits_of_bytes_push(old(self).buffer@, byte);
                assert(bits_of_byte(byte) =~= old(self).pending.bits().push(bit != 0));
                assert(self.bits() =~= before.push(bit != 0));
            }
        } else {
            self.pending = PendingByte { byte, count: pos + 1 };
            proof {
                assert(self.bits() =~= before.push(bit != 0));
            }
        }
    }

    /// Writes the bits of `bits` in order.
    pub fn write_bits(&mut self, bits: &[u8])
        ensures
            final(self).bits() == old(self).bits() + as_bits(bits@),
    {
        let mut i: usize = 0;
        proof {
            assert(self.bits() =~= old(self).bits() + as_bits(bits@.take(0)));
        }
        while i < bits.len()
            invariant
                0 <= i <= bits.len(),
                self.bits() == old(self).bits() + as_bits(bits@.take(i as int)),
            decreases bits.len() - i,
        {
            self.write_bit(bits[i]);
            proof {
                assert(as_bits(bits@.take(i + 1)) =~= as_bits(bits@.take(i as int)).push(
                    bits@[i as int] != 0,
                ));
                assert(self.bits() =~= old(self).bits() + as_bits(bits@.take(i + 1)));
            }
            i += 1;
        }
        proof {
            assert(bits@.take(bits.len() as int) =~= bits@);
        }
    }

    /// Completes a partial last byte with cleared bits.
    pub fn flush(&mut self)
        ensures
            final(self).bits() == pad_to_byte(old(self).bits()),
            final(self).bits().len() % 8 == 0,
    {
        proof {
            use_type_invariant(&self.pending);
            lemma_pad_to_byte_len(self.bits());
            lemma_zero_is_clear();
        }
        if self.pending.count > 0 {
            let byte = self.pending.byte;
            let ghost pos = self.pending.count;
            self.buffer.push(byte);
            self.pending = PendingByte { byte: 0, count: 0 };
            proof {
                lemma_bits_of_bytes_push(old(self).buffer@, byte);
                assert(bits_of_byte(byte) =~= old(self).pending.bits() + zeros((8 - pos) as nat));
                assert(self.bits() =~= pad_to_byte(old(self).bits()));
            }
        } else {
            proof {
                assert(self.bits() =~= pad_to_byte(old(self).bits()));
            }
        }
    }

    /// Flushes and hands out the bytes that hold the written bits.
    pub fn into_bytes(self) -> (out: Vec<u8>)
        ensures
            out@ == packed(self.bits()),
    {
        let mut w = self;
        w.flush();
        proof {
            use_type_invariant(&w.pending);
            assert(w.pending.count == 0) by {
                if w.pending.count > 0 {
                    assert(w.bits().len() == 8 * w.buffer@.len() + w.pending.count);
                }
            }
            assert(w.bits() =~= bits_of_bytes(w.buffer@));
            lemma_packed_bits_of_bytes(w.buffer@);
            lemma_packed_of_padded(self.bits());
        }
        w.buffer
    }
}

/// Hands out the bits of a byte buffer, most significant bit first.
pub struct BitReader {
    buffer: Vec<u8>,
    byte_pos: usize,
    bit_pos: u8,
}

impl BitReader {
    #[verifier::type_invariant]
    spec fn well_formed(self) -> bool {
        &&& self.bit_pos < 8
        &&& self.byte_pos <= self.buffer@.len()
        &&& self.byte_pos == self.buffer@.len() ==> self.bit_pos == 0
    }

    /// All bits of the loaded buffer.
    pub closed spec fn stream(self) -> Seq<bool> {
        bits_of_bytes(self.buffer@)
    }

    /// The number of bits read so far.
    pub closed spec fn position(self) -> nat {
        (8 * self.byte_pos + self.bit_pos) as nat
    }

    /// A reader with no data loaded.
    pub fn new() -> (r: Self)
        ensures
            r.stream() == Seq::<bool>::empty(),
            r.position() == 0,
    {
        let r = BitReader { buffer: Vec::new(), byte_pos: 0, bit_pos: 0 };
        proof {
            assert(r.stream() =~= Seq::<bool>::empty());
        }
        r
    }

    /// Replaces the buffer by `bytes` and rewinds to its first bit.
    pub fn load(&mut self, bytes: Vec<u8>)
        ensures
            final(self).stream() == bits_of_bytes(bytes@),
            final(self).position() == 0,
    {
        proof {
            use_type_invariant(&*self);
        }
        self.bit_pos = 0;
        self.byte_pos = 0;
        self.buffer = bytes;
    }

    /// The number of bits that are left to read.
    pub fn remaining_bits(&self) -> (left: u128)
        ensures
            self.position() <= self.stream().len(),
            left == self.stream().len() - self.position(),
    {
        proof {
            use_type_invariant(self);
        }
        let bytes_left = (self.buffer.len() - self.byte_pos) as u128;
        bytes_left * 8 - self.bit_pos as u128
    }

    /// Reads the next bit as `0` or `1`; `None` once every bit has been read.
    pub fn read_bit(&mut self) -> (bit: Option<u8>)
        ensures
            final(self).stream() == old(self).stream(),
            old(self).position() <= old(self).stream().len(),
            match bit {
                Some(b) => {
                    &&& old(self).position() < old(self).stream().len()
                    &&& b == flag_of(old(self).stream()[old(self).position() as int])
                    &&& final(self).position() == old(self).position() + 1
                },
                None => {
                    &&& old(self).position() == old(self).stream().len()
                    &&& final(self).position() == old(self).position()
                },
            },
    {
        proof {
            use_type_invariant(&*self);
        }
        if self.byte_pos >= self.buffer.len() {
            return None;
        }
        let pos = self.bit_pos;
        let byte = self.buffer[self.byte_pos];
        let bit = (byte >> (7 - pos)) & 1;
        proof {
            lemma_read_mask(byte, (7 - pos) as u8);
            let i = 8 * self.byte_pos + pos;
            assert(i / 8 == self.byte_pos && i % 8 == pos);
        }
        if pos == 7 {
            self.bit_pos = 0;
            self.byte_pos = self.byte_pos + 1;
        } else {
            self.bit_pos = pos + 1;
        }
        Some(bit)
    }
}

/// Packs a slice of bit flags into bytes, most significant bit first; the last
/// byte is filled up with cleared bits.
pub fn bits_to_bytes(bits: &[u8]) -> (out: Vec<u8>)
    ensures
        out@ == packed(as_bits(bits@)),
{
    let mut writer = BitWriter::new();
    writer.write_bits(bits);
    proof {
        assert(writer.bits() =~= as_bits(bits@));
    }
    writer.into_bytes()
}

} // verus!
