use babencoin::gzip::{GzipError, GzipReader, MemberFlags};
use babencoin::ripgzip::decompress;

const WORDS: &[u8] = b"alpha beta gamma delta epsilon zeta eta theta iota kappa lambda mu nu xi omicron pi rho sigma tau upsilon phi chi psi omega ";

fn dynamic_member() -> Vec<u8> {
    vec![0x1f,0x8b,0x8,0x0,0x0,0x0,0x0,0x0,0x2,0x3,0xed,0x4d,0x5b,0xa,0x80,0x30,0xc,0xbb,0x4a,0xae,0x16,0xe7,0xd8,0x8a,0xab,0x2b,0x7b,0x80,0x78,0x7a,0x3b,0xf0,0xc,0x7e,0xf9,0x91,0xd0,0x90,0x34,0x61,0xb1,0x4c,0x6c,0x71,0x10,0x89,0xaa,0xc4,0x1e,0x8b,0xdf,0xd1,0xba,0x94,0x7a,0xe2,0x5e,0xc6,0xc2,0xc8,0x8b,0xa5,0x3a,0x1d,0x34,0x23,0xa,0x75,0xdb,0x9,0x9d,0x38,0x27,0x2e,0x41,0x55,0x9,0xcd,0x3f,0x4c,0xd0,0x72,0x45,0x97,0xe4,0x65,0x83,0x13,0xf3,0xad,0xb2,0x2c,0x8,0xe,0x97,0x1e,0x8e,0x89,0xe0,0xbf,0xfd,0xf9,0xf6,0x3,0x0,0x2f,0x3f,0x45,0xf0,0x1,0x0,0x0]
}

fn stored_member(data: &[u8], crc: u32) -> Vec<u8> {
    let mut g = vec![0x1f, 0x8b, 0x08, 0x00, 0, 0, 0, 0, 0x02, 0x03];
    // final block, stored
    g.push(0x01);
    let len = data.len() as u16;
    g.extend_from_slice(&len.to_le_bytes());
    g.extend_from_slice(&(!len).to_le_bytes());
    g.extend_from_slice(data);
    g.extend_from_slice(&crc.to_le_bytes());
    g.extend_from_slice(&(data.len() as u32).to_le_bytes());
    g
}

#[test]
fn stored_block_round_trip() {
    let g = stored_member(b"hello", 0x3610a686);
    assert_eq!(decompress(&g).unwrap(), b"hello".to_vec());
}

#[test]
fn dynamic_block_decodes() {
    let out = decompress(&dynamic_member()).unwrap();
    assert_eq!(out, WORDS.repeat(4));
}

#[test]
fn members_are_concatenated() {
    let mut g = stored_member(b"hello", 0x3610a686);
    g.extend(dynamic_member());
    let mut expected = b"hello".to_vec();
    expected.extend(WORDS.repeat(4));
    assert_eq!(decompress(&g).unwrap(), expected);
}

#[test]
fn empty_input_gives_empty_output() {
    assert_eq!(decompress(&[]).unwrap(), Vec::<u8>::new());
}

#[test]
fn wrong_id_error() {
    let mut g = stored_member(b"hello", 0x3610a686);
    g[1] = 0x8c;
    assert_eq!(decompress(&g).unwrap_err(), GzipError::WrongId);
    assert_eq!(GzipError::WrongId.message(), "wrong id values");
}

#[test]
fn unsupported_compression_method() {
    let mut g = stored_member(b"hello", 0x3610a686);
    g[2] = 7;
    let e = decompress(&g).unwrap_err();
    assert_eq!(e, GzipError::UnsupportedCompressionMethod);
    assert!(e.message().contains("unsupported compression method"));
}

#[test]
fn crc32_check_error() {
    let g = stored_member(b"hello", 0x3610a687);
    let e = decompress(&g).unwrap_err();
    assert_eq!(e, GzipError::Crc32Check);
    assert!(e.message().contains("crc32 check failed"));
}

#[test]
fn length_check_error() {
    let mut g = stored_member(b"hello", 0x3610a686);
    let n = g.len();
    g[n - 4] = 6;
    let e = decompress(&g).unwrap_err();
    assert_eq!(e, GzipError::LengthCheck);
    assert!(e.message().contains("length check failed"));
}

#[test]
fn nlen_check_error() {
    let mut g = stored_member(b"hello", 0x3610a686);
    g[13] ^= 1;
    let e = decompress(&g).unwrap_err();
    assert_eq!(e, GzipError::NlenCheck);
    assert!(e.message().contains("nlen check failed"));
}

#[test]
fn unsupported_block_type_error() {
    let mut g = stored_member(b"hello", 0x3610a686);
    g[10] = 0x07;
    let e = decompress(&g).unwrap_err();
    assert_eq!(e, GzipError::UnsupportedBlockType);
    assert!(e.message().contains("unsupported block type"));
}

#[test]
fn unexpected_eof_error() {
    let g = stored_member(b"hello", 0x3610a686);
    assert_eq!(decompress(&g[..g.len() - 3]).unwrap_err(), GzipError::UnexpectedEof);
}

#[test]
fn header_eof_error() {
    let g = stored_member(b"hello", 0x3610a686);
    assert_eq!(decompress(&g[..5]).unwrap_err(), GzipError::UnexpectedEof);
}

#[test]
fn crc16_error() {
    let mut g = vec![0x1f, 0x8b, 0x08, 0x02, 0, 0, 0, 0, 0x00, 0x03];
    g.extend_from_slice(&[0x12, 0x34]);
    g.extend_from_slice(&[0x01, 0, 0, 0xff, 0xff, 0, 0, 0, 0, 0, 0, 0, 0]);
    let e = decompress(&g).unwrap_err();
    assert_eq!(e, GzipError::HeaderCrc16);
    assert!(e.message().contains("header crc16 check failed"));
}

#[test]
fn header_with_name_and_crc16() {
    let mut g = vec![0x1f, 0x8b, 0x08, 0x0a, 1, 2, 3, 4, 0x00, 0x03];
    g.extend_from_slice(b"a.txt\0");
    let reader = GzipReader::new(&{
        let mut probe = g.clone();
        probe.extend_from_slice(&[0, 0]);
        probe
    });
    // the stored CRC-16 is wrong: the header is refused
    match reader.next_member() {
        Some(Err(e)) => assert_eq!(e, GzipError::HeaderCrc16),
        _ => panic!("expected a CRC-16 error"),
    }
    // with the right CRC-16 it is read
    let crc = (crc32_of_bytes(&g) & 0xffff) as u16;
    let mut good = g.clone();
    good.extend_from_slice(&crc.to_le_bytes());
    good.push(0x01);
    good.extend_from_slice(&[0, 0, 0xff, 0xff]);
    good.extend_from_slice(&0u32.to_le_bytes());
    good.extend_from_slice(&0u32.to_le_bytes());
    match GzipReader::new(&good).next_member() {
        Some(Ok((h, _))) => {
            assert_eq!(h.name, Some(b"a.txt".to_vec()));
            assert!(h.has_crc);
            assert_eq!(h.modification_time, 0x04030201);
            assert_eq!(h.crc16(), crc);
            let f = h.flags();
            assert!(f.has_crc() && f.has_name() && !f.has_extra() && !f.has_comment() && !f.is_text());
        }
        _ => panic!("expected a header"),
    }
    assert_eq!(decompress(&good).unwrap(), Vec::<u8>::new());
}

/// The gzip CRC-32, computed bit by bit.
fn crc32_of_bytes(data: &[u8]) -> u32 {
    let mut crc = 0xffff_ffffu32;
    for &b in data {
        crc ^= b as u32;
        for _ in 0..8 {
            crc = if crc & 1 != 0 { (crc >> 1) ^ 0xedb8_8320 } else { crc >> 1 };
        }
    }
    !crc
}

#[test]
fn member_flags_bits() {
    let mut f = MemberFlags(0);
    f.set_has_name(true);
    f.set_is_text(true);
    assert_eq!(f.0, 0b1001);
    f.set_is_text(false);
    assert_eq!(f.0, 0b1000);
    assert!(f.has_name());
    f.set_has_comment(true);
    f.set_has_extra(true);
    f.set_has_crc(true);
    assert_eq!(f.0, 0b11110);
}
