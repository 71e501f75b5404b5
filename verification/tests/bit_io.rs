use purgepack::bits::{bits_to_bytes, BitReader, BitWriter};

#[test]
fn writer_packs_most_significant_bit_first() {
    let mut writer = BitWriter::new();
    writer.write_bits(&[1, 0, 1, 0, 0, 0, 0, 1]);
    assert_eq!(writer.into_bytes(), vec![0b1010_0001]);
}

#[test]
fn writer_pads_the_last_byte_with_cleared_bits() {
    let mut writer = BitWriter::new();
    writer.write_bit(1);
    writer.flush();
    writer.write_bit(7);
    writer.write_bit(0);
    writer.write_bit(1);
    assert_eq!(writer.into_bytes(), vec![0b1000_0000, 0b1010_0000]);
}

#[test]
fn flush_of_whole_bytes_adds_nothing() {
    let mut writer = BitWriter::new();
    writer.flush();
    writer.write_bits(&[1; 8]);
    writer.flush();
    writer.flush();
    assert_eq!(writer.into_bytes(), vec![0xff]);
}

#[test]
fn reader_reads_back_what_was_written() {
    let bits: Vec<u8> = vec![1, 1, 0, 1, 0, 0, 1, 0, 1, 1, 1];
    let mut writer = BitWriter::new();
    writer.write_bits(&bits);
    let bytes = writer.into_bytes();
    assert_eq!(bytes.len(), 2);
    let mut reader = BitReader::new();
    assert_eq!(reader.read_bit(), None);
    reader.load(bytes);
    assert_eq!(reader.remaining_bits(), 16);
    let mut back = Vec::new();
    for _ in 0..bits.len() {
        back.push(reader.read_bit().unwrap());
    }
    assert_eq!(back, bits);
    assert_eq!(reader.remaining_bits(), 5);
    for _ in 0..5 {
        assert_eq!(reader.read_bit(), Some(0));
    }
    assert_eq!(reader.read_bit(), None);
    assert_eq!(reader.read_bit(), None);
}

#[test]
fn bits_to_bytes_example() {
    assert_eq!(bits_to_bytes(&[1, 0, 1, 0, 0, 0, 0, 1]), vec![0b1010_0001]);
    assert_eq!(bits_to_bytes(&[]), Vec::<u8>::new());
    assert_eq!(bits_to_bytes(&[0, 0, 0, 0, 0, 0, 0, 0, 1]), vec![0, 0x80]);
}
