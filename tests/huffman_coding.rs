use babencoin::bit_reader::{BitReader, BitSequence};
use babencoin::huffman_coding::{
    DistanceToken, FromCodeWord, HuffmanCodeWord, HuffmanCoding, HuffmanError, LitLenToken,
    TreeCodeToken,
};

#[derive(Clone, Copy, Debug, PartialEq)]
struct Value(u16);

impl FromCodeWord for Value {
    fn spec_from_code_word(word: u16) -> Result<Self, HuffmanError> {
        Ok(Self(word))
    }

    fn from_code_word(x: HuffmanCodeWord) -> Result<Self, HuffmanError> {
        Ok(Self(x.0))
    }
}

#[test]
fn from_lengths() {
    let code = HuffmanCoding::<Value>::from_lengths(&[2, 3, 4, 3, 3, 4, 2]).unwrap();

    assert_eq!(code.decode_symbol(BitSequence::new(0b00, 2)), Some(Value(0)));
    assert_eq!(code.decode_symbol(BitSequence::new(0b100, 3)), Some(Value(1)));
    assert_eq!(code.decode_symbol(BitSequence::new(0b1110, 4)), Some(Value(2)));
    assert_eq!(code.decode_symbol(BitSequence::new(0b101, 3)), Some(Value(3)));
    assert_eq!(code.decode_symbol(BitSequence::new(0b110, 3)), Some(Value(4)));
    assert_eq!(code.decode_symbol(BitSequence::new(0b1111, 4)), Some(Value(5)));
    assert_eq!(code.decode_symbol(BitSequence::new(0b01, 2)), Some(Value(6)));

    assert_eq!(code.decode_symbol(BitSequence::new(0b0, 1)), None);
    assert_eq!(code.decode_symbol(BitSequence::new(0b10, 2)), None);
    assert_eq!(code.decode_symbol(BitSequence::new(0b111, 3)), None);
}

#[test]
fn read_symbol() {
    let code = HuffmanCoding::<Value>::from_lengths(&[2, 3, 4, 3, 3, 4, 2]).unwrap();
    let data: &[u8] = &[0b10111001, 0b11001010, 0b11101101];
    let mut reader = BitReader::new(data);

    assert_eq!(code.read_symbol(&mut reader).unwrap(), Value(1));
    assert_eq!(code.read_symbol(&mut reader).unwrap(), Value(2));
    assert_eq!(code.read_symbol(&mut reader).unwrap(), Value(3));
    assert_eq!(code.read_symbol(&mut reader).unwrap(), Value(6));
    assert_eq!(code.read_symbol(&mut reader).unwrap(), Value(0));
    assert_eq!(code.read_symbol(&mut reader).unwrap(), Value(2));
    assert_eq!(code.read_symbol(&mut reader).unwrap(), Value(4));
    assert!(code.read_symbol(&mut reader).is_err());
}

#[test]
fn lengths_over_fifteen_bits_are_refused() {
    let r = HuffmanCoding::<Value>::from_lengths(&[16, 1]);
    assert_eq!(r.unwrap_err(), HuffmanError::InvalidLengths);
}

#[test]
fn oversubscribed_lengths_are_refused() {
    let r = HuffmanCoding::<Value>::from_lengths(&[1, 1, 1]);
    assert_eq!(r.unwrap_err(), HuffmanError::InvalidLengths);
}

#[test]
fn unknown_code_word_is_refused() {
    let mut lengths = vec![0u8; 20];
    lengths[19] = 1;
    lengths[0] = 1;
    let r = HuffmanCoding::<TreeCodeToken>::from_lengths(&lengths);
    assert_eq!(r.unwrap_err(), HuffmanError::UnknownCodeWord(19));
}

#[test]
fn no_matching_code_within_fifteen_bits() {
    let code = HuffmanCoding::<Value>::from_lengths(&[1]).unwrap();
    let data: &[u8] = &[0xff, 0xff];
    let mut reader = BitReader::new(data);
    assert_eq!(code.read_symbol(&mut reader).unwrap_err(), HuffmanError::NoMatchingCode);
}

#[test]
fn token_tables() {
    assert_eq!(TreeCodeToken::from_code_word(HuffmanCodeWord(7)).unwrap(), TreeCodeToken::Length(7));
    assert_eq!(TreeCodeToken::from_code_word(HuffmanCodeWord(16)).unwrap(), TreeCodeToken::CopyPrev);
    assert_eq!(
        TreeCodeToken::from_code_word(HuffmanCodeWord(18)).unwrap(),
        TreeCodeToken::RepeatZero { base: 11, extra_bits: 7 }
    );
    assert_eq!(LitLenToken::from_code_word(HuffmanCodeWord(65)).unwrap(), LitLenToken::Literal(65));
    assert_eq!(LitLenToken::from_code_word(HuffmanCodeWord(256)).unwrap(), LitLenToken::EndOfBlock);
    assert_eq!(
        LitLenToken::from_code_word(HuffmanCodeWord(266)).unwrap(),
        LitLenToken::Length { base: 13, extra_bits: 1 }
    );
    assert_eq!(
        LitLenToken::from_code_word(HuffmanCodeWord(284)).unwrap(),
        LitLenToken::Length { base: 227, extra_bits: 5 }
    );
    assert_eq!(
        LitLenToken::from_code_word(HuffmanCodeWord(285)).unwrap(),
        LitLenToken::Length { base: 258, extra_bits: 0 }
    );
    assert_eq!(
        LitLenToken::from_code_word(HuffmanCodeWord(286)).unwrap_err(),
        HuffmanError::UnknownCodeWord(286)
    );
    assert_eq!(
        DistanceToken::from_code_word(HuffmanCodeWord(3)).unwrap(),
        DistanceToken { base: 4, extra_bits: 0 }
    );
    assert_eq!(
        DistanceToken::from_code_word(HuffmanCodeWord(5)).unwrap(),
        DistanceToken { base: 7, extra_bits: 1 }
    );
    assert_eq!(
        DistanceToken::from_code_word(HuffmanCodeWord(29)).unwrap(),
        DistanceToken { base: 24577, extra_bits: 13 }
    );
    assert_eq!(
        DistanceToken::from_code_word(HuffmanCodeWord(30)).unwrap_err(),
        HuffmanError::UnknownCodeWord(30)
    );
}
