//! DEFLATE block headers.
use vstd::prelude::*;
use crate::bit_reader::{BitReader, bit_at, bits_value};
use crate::gzip::GzipError;

verus! {

#[derive(Clone, Copy, Debug, PartialEq, Eq, Structural)]
pub enum CompressionType {
    Uncompressed,
    FixedTree,
    DynamicTree,
    Reserved,
}

/// The compression type with the two-bit code `code`.
pub open spec fn compression_type_of(code: nat) -> CompressionType {
    if code == 0 {
        CompressionType::Uncompressed
    } else if code == 1 {
        CompressionType::FixedTree
    } else if code == 2 {
        CompressionType::DynamicTree
    } else {
        CompressionType::Reserved
    }
}

#[derive(Clone, Copy, Debug, PartialEq, Eq, Structural)]
pub struct BlockHeader {
    pub is_final: bool,
    pub compression_type: CompressionType,
}

/// Reads a block header: the final-block bit, then the two bits of the type.
pub fn read_block_header(r: &mut BitReader) -> (res: Result<BlockHeader, GzipError>)
    requires
        old(r).well_formed(),
    ensures
        final(r).well_formed(),
        final(r).data() == old(r).data(),
        final(r).position() >= old(r).position(),
        res is Ok <==> old(r).remaining() >= 3,
        res is Err ==> res == Err::<BlockHeader, GzipError>(GzipError::UnexpectedEof),
        res is Ok ==> {
            let h = res->Ok_0;
            let p = old(r).position() as int;
            &&& final(r).position() == p + 3
            &&& h.is_final == bit_at(old(r).data(), p)
            &&& h.compression_type == compression_type_of(bits_value(old(r).data(), p + 1, 2))
        },
{
    if r.remaining_bits() < 3 {
        return Err(GzipError::UnexpectedEof);
    }
    let ghost p = r.position() as int;
    let final_bit = match r.read_bits(1) {
        Ok(b) => b,
        Err(_) => {
            return Err(GzipError::UnexpectedEof);
        },
    };
    let code = match r.read_bits(2) {
        Ok(b) => b,
        Err(_) => {
            return Err(GzipError::UnexpectedEof);
        },
    };
    proof {
        vstd::arithmetic::power2::lemma2_to64();
        reveal_with_fuel(bits_value, 2);
    }
    let compression_type = match code.bits() {
        0 => CompressionType::Uncompressed,
        1 => CompressionType::FixedTree,
        2 => CompressionType::DynamicTree,
        _ => CompressionType::Reserved,
    };
    Ok(BlockHeader { is_final: final_bit.bits() == 1, compression_type })
}

/// Reads the blocks of one DEFLATE stream.
pub struct DeflateReader {
    bit_reader: BitReader,
}

impl DeflateReader {
    pub closed spec fn reader(&self) -> BitReader {
        self.bit_reader
    }

    pub fn new(bit_reader: BitReader) -> (r: Self)
        ensures
            r.reader() == bit_reader,
    {
        DeflateReader { bit_reader }
    }

    /// The next block's header; the block's data follows in `inner_mut()`.
    pub fn next_block(&mut self) -> (r: Option<Result<BlockHeader, GzipError>>)
        requires
            old(self).reader().well_formed(),
        ensures
            r is Some,
            final(self).reader().well_formed(),
            final(self).reader().data() == old(self).reader().data(),
            r->Some_0 is Ok <==> old(self).reader().remaining() >= 3,
            r->Some_0 is Ok ==> {
                let h = r->Some_0->Ok_0;
                let p = old(self).reader().position() as int;
                &&& final(self).reader().position() == p + 3
                &&& h.is_final == bit_at(old(self).reader().data(), p)
                &&& h.compression_type == compression_type_of(
                    bits_value(old(self).reader().data(), p + 1, 2),
                )
            },
    {
        Some(read_block_header(&mut self.bit_reader))
    }

    /// The reader, placed after the last header read.
    pub fn inner_mut(&mut self) -> (r: &mut BitReader)
        ensures
            *r == old(self).reader(),
            final(self).reader() == *final(r),
    {
        &mut self.bit_reader
    }
}

} // verus!
