use babencoin::bit_reader::{BitReadError, BitReader, BitSequence};

#[test]
fn read_bits() {
    let data: &[u8] = &[0b01100011, 0b11011011, 0b10101111];
    let mut reader = BitReader::new(data);
    assert_eq!(reader.read_bits(1).unwrap(), BitSequence::new(0b1, 1));
    assert_eq!(reader.read_bits(2).unwrap(), BitSequence::new(0b01, 2));
    assert_eq!(reader.read_bits(3).unwrap(), BitSequence::new(0b100, 3));
    assert_eq!(reader.read_bits(4).unwrap(), BitSequence::new(0b1101, 4));
    assert_eq!(reader.read_bits(5).unwrap(), BitSequence::new(0b10110, 5));
    assert_eq!(reader.read_bits(8).unwrap(), BitSequence::new(0b01011111, 8));
    assert_eq!(reader.read_bits(2).unwrap_err(), BitReadError::UnexpectedEof);
}

#[test]
fn borrow_reader_from_boundary() {
    let data: &[u8] = &[0b01100011, 0b11011011, 0b10101111];
    let mut reader = BitReader::new(data);
    assert_eq!(reader.read_bits(3).unwrap(), BitSequence::new(0b011, 3));
    assert_eq!(reader.borrow_reader_from_boundary().read_u8().unwrap(), 0b11011011);
    assert_eq!(reader.read_bits(8).unwrap(), BitSequence::new(0b10101111, 8));
}

#[test]
fn concat_puts_first_bits_high() {
    let a = BitSequence::new(0b101, 3);
    let b = BitSequence::new(0b01, 2);
    let c = a.concat(b);
    assert_eq!(c.bits(), 0b10101);
    assert_eq!(c.len(), 5);
    assert_eq!(BitSequence::new(0, 0).concat(b), b);
    assert_eq!(a.concat(BitSequence::new(0, 0)), a);
}

#[test]
fn read_sixteen_bits_and_zero_bits() {
    let data: &[u8] = &[0x34, 0x12];
    let mut reader = BitReader::new(data);
    assert_eq!(reader.read_bits(0).unwrap(), BitSequence::new(0, 0));
    assert_eq!(reader.read_bits(16).unwrap(), BitSequence::new(0x1234, 16));
    assert_eq!(reader.read_u8().unwrap_err(), BitReadError::UnexpectedEof);
}
