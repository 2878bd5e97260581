//! Gzip decompression: members, their DEFLATE blocks, and the checks of their footers.
use vstd::prelude::*;
use crate::bit_reader::BitReader;
use crate::deflate::{CompressionType, read_block_header};
use crate::gzip::{GzipError, GzipReader, ID1, ID2, CM_DEFLATE};
use crate::huffman_coding::{HuffmanError, LitLenToken, decode_litlen_distance_trees};
use crate::tracking_writer::TrackingWriter;

verus! {

/// The gzip error for a failure to decode a Huffman-coded block.
pub open spec fn code_error(e: HuffmanError) -> GzipError {
    if e == HuffmanError::UnexpectedEof {
        GzipError::UnexpectedEof
    } else {
        GzipError::InvalidCode
    }
}

fn from_huffman(e: HuffmanError) -> (r: GzipError)
    ensures
        r == code_error(e),
{
    match e {
        HuffmanError::UnexpectedEof => GzipError::UnexpectedEof,
        _ => GzipError::InvalidCode,
    }
}

/// A stored block: after the byte boundary, its length and the length's complement,
/// little-endian, then that many bytes, which are copied out.
fn stored_block(r: &mut BitReader, w: &mut TrackingWriter) -> (res: Result<(), GzipError>)
    requires
        old(r).well_formed(),
        old(w).well_formed(),
    ensures
        final(r).well_formed(),
        final(r).data() == old(r).data(),
        final(r).position() >= old(r).position(),
        final(w).well_formed(),
        final(w).member_start() == old(w).member_start(),
        final(w).written().len() >= old(w).written().len(),
        res is Ok ==> {
            let d = old(r).data();
            let q = (final(r).position() / 8) as int;
            let len = final(w).written().len() - old(w).written().len();
            &&& q - len - 4 >= 0
            &&& final(w).written() == old(w).written() + d.subrange(q - len, q)
            &&& d[q - len - 4] + 256 * d[q - len - 3] == len
            &&& d[q - len - 2] + 256 * d[q - len - 1] == 65535 - len
        },
{
    r.skip_to_boundary();
    let ghost q0: int = r.position() as int / 8;
    assert(q0 >= 0);
    let ghost d = r.data();
    let mut head: Vec<u8> = Vec::new();
    let mut i: usize = 0;
    while i < 4
        invariant
            i <= 4,
            r.well_formed(),
            r.data() == d,
            r.position() % 8 == 0,
            r.position() == 8 * (q0 + i),
            r.position() >= old(r).position(),
            d == old(r).data(),
            q0 >= 0,
            q0 + i <= d.len(),
            head@ == d.subrange(q0, q0 + i),
            w.well_formed(),
            w.member_start() == old(w).member_start(),
            w.written() == old(w).written(),
        decreases 4 - i,
    {
        let ghost pos = r.position();
        assert(pos / 8 == q0 + i);
        match r.read_aligned_byte() {
            Some(b) => {
                assert(pos / 8 < d.len());
                assert(b == d[q0 + i]);
                let ghost prev = head@;
                head.push(b);
                assert(d.subrange(q0, q0 + i + 1) =~= prev.push(b));
            },
            None => {
                return Err(GzipError::UnexpectedEof);
            },
        }
        i = i + 1;
    }
    let len: u16 = head[0] as u16 + (head[1] as u16) * 256;
    let nlen: u16 = head[2] as u16 + (head[3] as u16) * 256;
    if len != !nlen {
        return Err(GzipError::NlenCheck);
    }
    assert(len == 65535 - nlen) by (bit_vector)
        requires
            len == !nlen,
    ;
    let ghost before = w.written();
    let mut k: u16 = 0;
    while k < len
        invariant
            k <= len,
            r.well_formed(),
            r.data() == d,
            r.position() % 8 == 0,
            r.position() == 8 * (q0 + 4 + k),
            r.position() >= old(r).position(),
            d == old(r).data(),
            q0 >= 0,
            q0 + 4 + k <= d.len(),
            head@ == d.subrange(q0, q0 + 4),
            w.well_formed(),
            w.member_start() == old(w).member_start(),
            w.written() == before + d.subrange(q0 + 4, q0 + 4 + k),
            before == old(w).written(),
        decreases len - k,
    {
        let ghost pos = r.position();
        assert(pos / 8 == q0 + 4 + k);
        match r.read_aligned_byte() {
            Some(b) => {
                assert(pos / 8 < d.len());
                assert(b == d[q0 + 4 + k]);
                let one = [b];
                let ghost prev = w.written();
                w.write(&one);
                assert(q0 + 4 + k + 1 <= d.len());
                assert(one@ =~= seq![b]);
                assert(before + d.subrange(q0 + 4, q0 + 4 + k + 1) =~= prev + one@);
            },
            None => {
                return Err(GzipError::UnexpectedEof);
            },
        }
        k = k + 1;
    }
    Ok(())
}

/// A block with dynamic Huffman codes: literals are copied out, lengths and distances
/// copy earlier output, until the end-of-block symbol.
fn dynamic_block(r: &mut BitReader, w: &mut TrackingWriter) -> (res: Result<(), GzipError>)
    requires
        old(r).well_formed(),
        old(w).well_formed(),
    ensures
        final(r).well_formed(),
        final(r).data() == old(r).data(),
        final(r).position() >= old(r).position(),
        final(w).well_formed(),
        final(w).member_start() == old(w).member_start(),
        final(w).written().len() >= old(w).written().len(),
{
    let (litlen, distance) = match decode_litlen_distance_trees(r) {
        Ok(codes) => codes,
        Err(e) => {
            return Err(from_huffman(e));
        },
    };
    loop
        invariant
            r.well_formed(),
            r.data() == old(r).data(),
            r.position() >= old(r).position(),
            w.well_formed(),
            w.member_start() == old(w).member_start(),
            w.written().len() >= old(w).written().len(),
        decreases r.remaining(),
    {
        let token = match litlen.read_symbol(r) {
            Ok(t) => t,
            Err(e) => {
                return Err(from_huffman(e));
            },
        };
        match token {
            LitLenToken::Literal(lit) => {
                let one = [lit];
                w.write(&one);
            },
            LitLenToken::EndOfBlock => {
                return Ok(());
            },
            LitLenToken::Length { base, extra_bits } => {
                if extra_bits > 16 {
                    return Err(GzipError::InvalidCode);
                }
                let extra = match r.read_bits(extra_bits) {
                    Ok(s) => s.bits(),
                    Err(_) => {
                        return Err(GzipError::UnexpectedEof);
                    },
                };
                let len = base as usize + extra as usize;
                let token = match distance.read_symbol(r) {
                    Ok(t) => t,
                    Err(e) => {
                        return Err(from_huffman(e));
                    },
                };
                if token.extra_bits > 16 {
                    return Err(GzipError::InvalidCode);
                }
                let extra = match r.read_bits(token.extra_bits) {
                    Ok(s) => s.bits(),
                    Err(_) => {
                        return Err(GzipError::UnexpectedEof);
                    },
                };
                let dist = token.base as usize + extra as usize;
                if w.write_previous(dist, len).is_err() {
                    return Err(GzipError::OutOfHistory);
                }
            },
        }
    }
}

/// The DEFLATE stream of one member, block after block until the final one.
fn inflate_member(r: &mut BitReader, w: &mut TrackingWriter) -> (res: Result<(), GzipError>)
    requires
        old(r).well_formed(),
        old(w).well_formed(),
    ensures
        final(r).well_formed(),
        final(r).data() == old(r).data(),
        final(r).position() >= old(r).position(),
        final(w).well_formed(),
        final(w).member_start() == old(w).member_start(),
{
    loop
        invariant
            r.well_formed(),
            r.data() == old(r).data(),
            r.position() >= old(r).position(),
            w.well_formed(),
            w.member_start() == old(w).member_start(),
        decreases r.remaining(),
    {
        let header = read_block_header(r)?;
        match header.compression_type {
            CompressionType::Uncompressed => stored_block(r, w)?,
            CompressionType::DynamicTree => dynamic_block(r, w)?,
            _ => {
                return Err(GzipError::UnsupportedBlockType);
            },
        }
        if header.is_final {
            return Ok(());
        }
    }
}

/// Decompresses a gzip stream of any number of members. Each member's output must have
/// the length and the CRC-32 that its footer gives.
pub fn decompress(input: &[u8]) -> (r: Result<Vec<u8>, GzipError>)
    requires
        8 * input@.len() <= usize::MAX,
    ensures
        input@.len() == 0 ==> r is Ok && r->Ok_0@.len() == 0,
        input@.len() > 0 && input@[0] != ID1 ==> r == Err::<Vec<u8>, GzipError>(GzipError::WrongId),
        input@.len() > 1 && input@[0] == ID1 && input@[1] != ID2 ==> r == Err::<Vec<u8>, GzipError>(
            GzipError::WrongId,
        ),
        input@.len() > 2 && input@[0] == ID1 && input@[1] == ID2 && input@[2] != CM_DEFLATE ==> r
            == Err::<Vec<u8>, GzipError>(GzipError::UnsupportedCompressionMethod),
{
    let mut writer = TrackingWriter::new();
    let mut gzip = GzipReader::new(input);
    let mut first = true;
    loop
        invariant
            gzip.well_formed(),
            gzip.cursor().data() == input@,
            writer.well_formed(),
            first ==> gzip.cursor().position() == 0 && writer.written().len() == 0,
            !first ==> input@.len() > 2 && input@[0] == ID1 && input@[1] == ID2 && input@[2]
                == CM_DEFLATE,
        decreases 8 * input@.len() - gzip.cursor().position(),
    {
        let (_, mut member) = match gzip.next_member() {
            None => {
                return Ok(writer.into_inner());
            },
            Some(Err(e)) => {
                return Err(e);
            },
            Some(Ok(m)) => m,
        };
        first = false;
        inflate_member(member.inner_mut(), &mut writer)?;
        let (footer, next) = member.read_footer()?;
        if footer.data_size as usize != writer.byte_count() {
            return Err(GzipError::LengthCheck);
        }
        if footer.data_crc32 != writer.crc32() {
            return Err(GzipError::Crc32Check);
        }
        writer.flush();
        gzip = next;
    }
}

} // verus!
