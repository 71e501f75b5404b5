//! The framed Huffman payload: the number of table entries and the number
//! of code bits as 32-bit fields, the table as pairs of 8-bit fields, then
//! the code bits; every field most significant bit first.

use crate::bits::{
    as_bits, bits_of_bytes, lemma_bits_of_packed, lemma_pad_to_byte_len, packed, pad_to_byte,
    BitReader, BitWriter,
};
use crate::container::CodecError;
use crate::huffman::canonical::is_flags;
use crate::huffman::kraft::{lemma_two_to_monotonic, two_to, MAX_CODE_LENGTH};
use vstd::prelude::*;

verus! {

/// The width of the two length fields.
pub const LENGTH_FIELD_BITS: u8 = 32;

/// The width of the fields of a table entry.
pub const ENTRY_FIELD_BITS: u8 = 8;

/// The largest number that a length field can record.
pub const MAX_FIELD_VALUE: usize = 0xffff_ffff;

/// The `width` low bits of `value`, most significant first.
pub open spec fn be_bits(value: nat, width: nat) -> Seq<bool>
    decreases width,
{
    if width == 0 {
        Seq::empty()
    } else {
        be_bits(value / 2, (width - 1) as nat).push(value % 2 == 1)
    }
}

/// The number that `bits` spell, most significant bit first.
pub open spec fn be_value(bits: Seq<bool>) -> nat
    decreases bits.len(),
{
    if bits.len() == 0 {
        0
    } else {
        2 * be_value(bits.drop_last()) + if bits.last() {
            1nat
        } else {
            0nat
        }
    }
}

/// The number in the field of `width` bits that starts at `start`.
pub open spec fn field(bits: Seq<bool>, start: int, width: int) -> nat {
    be_value(bits.subrange(start, start + width))
}

/// The bits of a table: for each entry the byte, then the code length.
pub open spec fn table_bits(table: Seq<(u8, usize)>) -> Seq<bool>
    decreases table.len(),
{
    if table.len() == 0 {
        Seq::empty()
    } else {
        table_bits(table.drop_last()) + be_bits(table.last().0 as nat, 8) + be_bits(
            table.last().1 as nat,
            8,
        )
    }
}

/// The bits of a frame.
pub open spec fn frame_bits(table: Seq<(u8, usize)>, code_bits: Seq<bool>) -> Seq<bool> {
    be_bits(table.len(), 32) + be_bits(code_bits.len(), 32) + table_bits(table) + code_bits
}

/// The bytes of a frame: its bits, packed.
pub open spec fn framed(table: Seq<(u8, usize)>, code_bits: Seq<bool>) -> Seq<u8> {
    packed(frame_bits(table, code_bits))
}

/// The table of `count` entries that stands behind the length fields.
pub open spec fn parsed_table(bits: Seq<bool>, count: nat) -> Seq<(u8, usize)> {
    Seq::new(
        count,
        |i: int| (field(bits, 64 + 16 * i, 8) as u8, field(bits, 64 + 16 * i + 8, 8) as usize),
    )
}

/// What reading a frame from `bytes` yields: the table and the code bits.
/// The bytes must hold both length fields, and as many table entries and
/// code bits as the fields say.
pub open spec fn parsed_frame(bytes: Seq<u8>) -> Result<(Seq<(u8, usize)>, Seq<bool>), CodecError> {
    let bits = bits_of_bytes(bytes);
    if bits.len() < 64 {
        Err(CodecError::CorruptInput("truncated frame"))
    } else {
        let entries = field(bits, 0, 32);
        let code_bits = field(bits, 32, 32);
        if 64 + 16 * entries + code_bits > bits.len() {
            Err(CodecError::CorruptInput("truncated frame"))
        } else {
            Ok(
                (
                    parsed_table(bits, entries),
                    bits.subrange(
                        (64 + 16 * entries) as int,
                        (64 + 16 * entries + code_bits) as int,
                    ),
                ),
            )
        }
    }
}

/// Whether a table and a number of code bits fit the fields of a frame.
pub open spec fn fits_frame(table: Seq<(u8, usize)>, code_bits: nat) -> bool {
    &&& table.len() <= MAX_FIELD_VALUE
    &&& code_bits <= MAX_FIELD_VALUE
    &&& forall|i: int| 0 <= i < table.len() ==> (#[trigger] table[i]).1 <= MAX_CODE_LENGTH
}

/// A field has as many bits as it is wide.
pub proof fn lemma_be_bits_len(value: nat, width: nat)
    ensures
        be_bits(value, width).len() == width,
    decreases width,
{
    if width > 0 {
        lemma_be_bits_len(value / 2, (width - 1) as nat);
    }
}

/// A number comes back from the bits of a field that is wide enough.
pub proof fn lemma_be_round_trip(value: nat, width: nat)
    requires
        value < two_to(width),
    ensures
        be_value(be_bits(value, width)) == value,
    decreases width,
{
    if width > 0 {
        lemma_be_round_trip(value / 2, (width - 1) as nat);
        assert(be_bits(value, width).drop_last() =~= be_bits(value / 2, (width - 1) as nat));
    }
}

/// What bits spell is less than two to the power of their number.
pub proof fn lemma_be_value_bound(bits: Seq<bool>)
    ensures
        be_value(bits) < two_to(bits.len()),
    decreases bits.len(),
{
    if bits.len() > 0 {
        lemma_be_value_bound(bits.drop_last());
    }
}

/// The powers of two that bound the fields of a frame.
pub proof fn lemma_two_to_values()
    ensures
        two_to(8) == 0x100,
        two_to(16) == 0x1_0000,
        two_to(32) == 0x1_0000_0000,
{
    assert(two_to(4) == 16) by {
        reveal_with_fuel(two_to, 5);
    }
    assert(two_to(8) == 0x100) by {
        reveal_with_fuel(two_to, 5);
    }
    assert(two_to(12) == 0x1000) by {
        reveal_with_fuel(two_to, 5);
    }
    assert(two_to(16) == 0x1_0000) by {
        reveal_with_fuel(two_to, 5);
    }
    assert(two_to(20) == 0x10_0000) by {
        reveal_with_fuel(two_to, 5);
    }
    assert(two_to(24) == 0x100_0000) by {
        reveal_with_fuel(two_to, 5);
    }
    assert(two_to(28) == 0x1000_0000) by {
        reveal_with_fuel(two_to, 5);
    }
    assert(two_to(32) == 0x1_0000_0000) by {
        reveal_with_fuel(two_to, 5);
    }
}

/// The bits of a table are sixteen per entry, and each entry stands at its
/// place.
pub proof fn lemma_table_bits(table: Seq<(u8, usize)>, i: int)
    requires
        0 <= i < table.len(),
    ensures
        table_bits(table).len() == 16 * table.len(),
        table_bits(table).subrange(16 * i, 16 * i + 8) == be_bits(table[i].0 as nat, 8),
        table_bits(table).subrange(16 * i + 8, 16 * i + 16) == be_bits(table[i].1 as nat, 8),
    decreases table.len(),
{
    let front = table.drop_last();
    lemma_table_bits_len(front);
    lemma_be_bits_len(table.last().0 as nat, 8);
    lemma_be_bits_len(table.last().1 as nat, 8);
    if i == table.len() - 1 {
        assert(table_bits(table).subrange(16 * i, 16 * i + 8) =~= be_bits(table[i].0 as nat, 8));
        assert(table_bits(table).subrange(16 * i + 8, 16 * i + 16) =~= be_bits(
            table[i].1 as nat,
            8,
        ));
    } else {
        lemma_table_bits(front, i);
        assert(table_bits(table).subrange(16 * i, 16 * i + 8) =~= table_bits(front).subrange(
            16 * i,
            16 * i + 8,
        ));
        assert(table_bits(table).subrange(16 * i + 8, 16 * i + 16) =~= table_bits(
            front,
        ).subrange(16 * i + 8, 16 * i + 16));
    }
}

/// The bits of a table are sixteen per entry.
pub proof fn lemma_table_bits_len(table: Seq<(u8, usize)>)
    ensures
        table_bits(table).len() == 16 * table.len(),
    decreases table.len(),
{
    if table.len() > 0 {
        lemma_table_bits_len(table.drop_last());
        lemma_be_bits_len(table.last().0 as nat, 8);
        lemma_be_bits_len(table.last().1 as nat, 8);
    }
}

/// The length fields and the code bits of a frame stand at their places in
/// the bits of its bytes.
proof fn lemma_frame_fields(table: Seq<(u8, usize)>, code_bits: Seq<bool>)
    requires
        fits_frame(table, code_bits.len()),
    ensures
        bits_of_bytes(framed(table, code_bits)).len() >= 64 + 16 * table.len() + code_bits.len(),
        field(bits_of_bytes(framed(table, code_bits)), 0, 32) == table.len(),
        field(bits_of_bytes(framed(table, code_bits)), 32, 32) == code_bits.len(),
        bits_of_bytes(framed(table, code_bits)).subrange(
            (64 + 16 * table.len()) as int,
            (64 + 16 * table.len() + code_bits.len()) as int,
        ) == code_bits,
{
    let bits = bits_of_bytes(framed(table, code_bits));
    lemma_bits_of_packed(frame_bits(table, code_bits));
    lemma_be_bits_len(table.len(), 32);
    lemma_be_bits_len(code_bits.len(), 32);
    lemma_table_bits_len(table);
    lemma_two_to_values();
    lemma_be_round_trip(table.len(), 32);
    lemma_be_round_trip(code_bits.len(), 32);
    lemma_frame_parts(
        be_bits(table.len(), 32),
        be_bits(code_bits.len(), 32),
        table_bits(table),
        code_bits,
        bits,
        0,
        0,
    );
}

/// An entry of the table of a frame stands at its place in the bits of its
/// bytes.
proof fn lemma_frame_entry(table: Seq<(u8, usize)>, code_bits: Seq<bool>, i: int)
    requires
        fits_frame(table, code_bits.len()),
        0 <= i < table.len(),
    ensures
        field(bits_of_bytes(framed(table, code_bits)), 64 + 16 * i, 8) == table[i].0,
        field(bits_of_bytes(framed(table, code_bits)), 64 + 16 * i + 8, 8) == table[i].1,
{
    let bits = bits_of_bytes(framed(table, code_bits));
    lemma_bits_of_packed(frame_bits(table, code_bits));
    lemma_be_bits_len(table.len(), 32);
    lemma_be_bits_len(code_bits.len(), 32);
    lemma_table_bits(table, i);
    lemma_two_to_values();
    lemma_frame_parts(
        be_bits(table.len(), 32),
        be_bits(code_bits.len(), 32),
        table_bits(table),
        code_bits,
        bits,
        16 * i,
        16 * i + 8,
    );
    lemma_frame_parts(
        be_bits(table.len(), 32),
        be_bits(code_bits.len(), 32),
        table_bits(table),
        code_bits,
        bits,
        16 * i + 8,
        16 * i + 16,
    );
    lemma_be_round_trip(table[i].0 as nat, 8);
    lemma_be_round_trip(table[i].1 as nat, 8);
}

/// A frame that is read back gives the table and the code bits that it was
/// written with.
pub proof fn lemma_frame_round_trip(table: Seq<(u8, usize)>, code_bits: Seq<bool>)
    requires
        fits_frame(table, code_bits.len()),
    ensures
        parsed_frame(framed(table, code_bits)) == Ok::<
            (Seq<(u8, usize)>, Seq<bool>),
            CodecError,
        >((table, code_bits)),
{
    let bits = bits_of_bytes(framed(table, code_bits));
    lemma_frame_fields(table, code_bits);
    assert forall|i: int| 0 <= i < table.len() implies #[trigger] parsed_table(
        bits,
        table.len(),
    )[i] == table[i] by {
        lemma_frame_entry(table, code_bits, i);
    }
    assert(parsed_table(bits, table.len()) =~= table);
}

/// The parts of a frame stand at their places in its bits, whatever
/// padding follows them.
proof fn lemma_frame_parts(
    first: Seq<bool>,
    second: Seq<bool>,
    third: Seq<bool>,
    fourth: Seq<bool>,
    bits: Seq<bool>,
    from: int,
    to: int,
)
    requires
        first.len() == 32,
        second.len() == 32,
        0 <= from <= to <= third.len(),
        bits == pad_to_byte(first + second + third + fourth),
    ensures
        bits.len() >= 64 + third.len() + fourth.len(),
        bits.subrange(0, 32) == first,
        bits.subrange(32, 64) == second,
        bits.subrange(64 + from, 64 + to) == third.subrange(from, to),
        bits.subrange(
            (64 + third.len()) as int,
            (64 + third.len() + fourth.len()) as int,
        ) == fourth,
{
    lemma_pad_to_byte_len(first + second + third + fourth);
    assert(bits.subrange(0, 32) =~= first);
    assert(bits.subrange(32, 64) =~= second);
    assert(bits.subrange(64 + from, 64 + to) =~= third.subrange(from, to));
    assert(bits.subrange((64 + third.len()) as int, (64 + third.len() + fourth.len()) as int)
        =~= fourth);
}

/// Writes the `width` low bits of `value`, most significant first.
fn write_field(writer: &mut BitWriter, value: usize, width: u8)
    ensures
        final(writer).bits() == old(writer).bits() + be_bits(value as nat, width as nat),
    decreases width,
{
    if width > 0 {
        write_field(writer, value / 2, width - 1);
        writer.write_bit((value % 2) as u8);
        proof {
            assert(writer.bits() =~= old(writer).bits() + be_bits(value as nat, width as nat));
        }
    } else {
        proof {
            assert(writer.bits() =~= old(writer).bits() + be_bits(value as nat, width as nat));
        }
    }
}

/// Frames a table and the code bits, given as flags, into bytes: the
/// number of entries, the number of code bits, the entries, the code bits,
/// and cleared bits up to the next byte boundary.
pub fn write_data_canonical(byte_lengths: &[(u8, usize)], compressed_bits: &[u8]) -> (out: Vec<u8>)
    requires
        fits_frame(byte_lengths@, compressed_bits@.len()),
    ensures
        out@ == framed(byte_lengths@, as_bits(compressed_bits@)),
{
    let mut writer = BitWriter::new();
    write_field(&mut writer, byte_lengths.len(), LENGTH_FIELD_BITS);
    write_field(&mut writer, compressed_bits.len(), LENGTH_FIELD_BITS);
    let ghost head = writer.bits();
    let mut i: usize = 0;
    proof {
        assert(head =~= be_bits(byte_lengths@.len(), 32) + be_bits(compressed_bits@.len(), 32));
        assert(byte_lengths@.take(0) =~= Seq::<(u8, usize)>::empty());
        assert(head + table_bits(byte_lengths@.take(0)) =~= head);
    }
    while i < byte_lengths.len()
        invariant
            0 <= i <= byte_lengths@.len(),
            writer.bits() == head + table_bits(byte_lengths@.take(i as int)),
        decreases byte_lengths@.len() - i,
    {
        let (byte, length) = byte_lengths[i];
        write_field(&mut writer, byte as usize, ENTRY_FIELD_BITS);
        write_field(&mut writer, length, ENTRY_FIELD_BITS);
        proof {
            assert(byte_lengths@.take(i + 1).drop_last() =~= byte_lengths@.take(i as int));
            assert(byte_lengths@.take(i + 1).last() == byte_lengths@[i as int]);
            assert(writer.bits() =~= head + table_bits(byte_lengths@.take(i + 1)));
        }
        i += 1;
    }
    proof {
        assert(byte_lengths@.take(byte_lengths@.len() as int) =~= byte_lengths@);
    }
    writer.write_bits(compressed_bits);
    proof {
        assert(writer.bits() =~= frame_bits(byte_lengths@, as_bits(compressed_bits@)));
    }
    writer.into_bytes()
}

/// Reads a field of `width` bits, most significant first. Nothing comes
/// back, and nothing is read, if fewer bits are left.
fn read_field(reader: &mut BitReader, width: u8) -> (value: Option<u64>)
    requires
        width <= 32,
    ensures
        final(reader).stream() == old(reader).stream(),
        old(reader).position() <= old(reader).stream().len(),
        match value {
            Some(v) => {
                &&& old(reader).position() + width <= old(reader).stream().len()
                &&& final(reader).position() == old(reader).position() + width
                &&& v == field(old(reader).stream(), old(reader).position() as int, width as int)
            },
            None => old(reader).position() + width > old(reader).stream().len(),
        },
{
    let ghost stream = reader.stream();
    let ghost start = reader.position() as int;
    if reader.remaining_bits() < width as u128 {
        return None;
    }
    let mut value: u64 = 0;
    let mut i: u8 = 0;
    proof {
        assert(stream.subrange(start, start) =~= Seq::<bool>::empty());
    }
    while i < width
        invariant
            0 <= i <= width <= 32,
            reader.stream() == stream,
            reader.position() == start + i,
            0 <= start,
            start + width <= stream.len(),
            value == be_value(stream.subrange(start, start + i)),
        decreases width - i,
    {
        let bit = match reader.read_bit() {
            Some(bit) => bit,
            None => {
                return None;
            },
        };
        proof {
            let seen = stream.subrange(start, start + i);
            let more = stream.subrange(start, start + i + 1);
            assert(more.drop_last() =~= seen);
            assert(more.last() == stream[start + i]);
            lemma_be_value_bound(seen);
            lemma_two_to_values();
            lemma_two_to_monotonic(i as nat, 32);
        }
        value = value * 2 + bit as u64;
        i += 1;
    }
    Some(value)
}

/// Copies `data` into a vector.
fn copy_of(data: &[u8]) -> (copy: Vec<u8>)
    ensures
        copy@ == data@,
{
    let mut copy: Vec<u8> = Vec::new();
    copy.extend_from_slice(data);
    copy
}

/// Reads a frame: the table and the code bits, as flags. A frame that is
/// shorter than its length fields say is corrupt.
pub fn read_frame(payload: &[u8]) -> (r: Result<(Vec<(u8, usize)>, Vec<u8>), CodecError>)
    ensures
        match parsed_frame(payload@) {
            Ok((table, code_bits)) => {
                &&& r.is_ok()
                &&& r.unwrap().0@ == table
                &&& is_flags(r.unwrap().1@)
                &&& as_bits(r.unwrap().1@) == code_bits
            },
            Err(e) => r == Err::<(Vec<(u8, usize)>, Vec<u8>), CodecError>(e),
        },
{
    let mut reader = BitReader::new();
    reader.load(copy_of(payload));
    let ghost bits = bits_of_bytes(payload@);
    let entries = match read_field(&mut reader, LENGTH_FIELD_BITS) {
        Some(entries) => entries,
        None => {
            return Err(CodecError::CorruptInput("truncated frame"));
        },
    };
    let code_bits = match read_field(&mut reader, LENGTH_FIELD_BITS) {
        Some(code_bits) => code_bits,
        None => {
            return Err(CodecError::CorruptInput("truncated frame"));
        },
    };
    proof {
        lemma_be_value_bound(bits.subrange(0, 32));
        lemma_be_value_bound(bits.subrange(32, 64));
        lemma_two_to_values();
    }
    let available: u128 = (payload.len() as u128) * 8;
    let needed: u128 = 64 + 16 * (entries as u128) + (code_bits as u128);
    if needed > available {
        return Err(CodecError::CorruptInput("truncated frame"));
    }
    let mut table: Vec<(u8, usize)> = Vec::new();
    let mut i: u64 = 0;
    while i < entries
        invariant
            0 <= i <= entries,
            reader.stream() == bits,
            bits.len() == 8 * payload@.len(),
            reader.position() == 64 + 16 * i,
            64 + 16 * entries + code_bits <= bits.len(),
            table@ == parsed_table(bits, i as nat),
        decreases entries - i,
    {
        let byte = match read_field(&mut reader, ENTRY_FIELD_BITS) {
            Some(byte) => byte,
            None => {
                return Err(CodecError::CorruptInput("truncated frame"));
            },
        };
        let length = match read_field(&mut reader, ENTRY_FIELD_BITS) {
            Some(length) => length,
            None => {
                return Err(CodecError::CorruptInput("truncated frame"));
            },
        };
        proof {
            lemma_be_value_bound(bits.subrange(64 + 16 * i, 64 + 16 * i + 8));
            lemma_be_value_bound(bits.subrange(64 + 16 * i + 8, 64 + 16 * i + 8 + 8));
            lemma_two_to_values();
        }
        table.push((byte as u8, length as usize));
        i += 1;
        proof {
            assert(table@ =~= parsed_table(bits, i as nat));
        }
    }
    let ghost start = 64 + 16 * entries;
    let mut flags: Vec<u8> = Vec::new();
    let mut n: u64 = 0;
    proof {
        assert(as_bits(flags@) =~= bits.subrange(start, start + 0));
    }
    while n < code_bits
        invariant
            0 <= n <= code_bits,
            reader.stream() == bits,
            start == 64 + 16 * entries,
            reader.position() == start + n,
            start + code_bits <= bits.len(),
            is_flags(flags@),
            as_bits(flags@) == bits.subrange(start, start + n),
        decreases code_bits - n,
    {
        let bit = match reader.read_bit() {
            Some(bit) => bit,
            None => {
                return Err(CodecError::CorruptInput("truncated frame"));
            },
        };
        let ghost before = flags@;
        flags.push(bit);
        n += 1;
        proof {
            assert(as_bits(flags@) =~= as_bits(before).push(bits[start + n - 1]));
            assert(bits.subrange(start, start + n) =~= bits.subrange(start, start + n - 1).push(
                bits[start + n - 1],
            ));
        }
    }
    Ok((table, flags))
}

} // verus!
