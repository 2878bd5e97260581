//! The gzip container: member headers, flags and footers.
use vstd::prelude::*;
use crate::bit_reader::BitReader;
use crate::tracking_writer::{crc32, crc32_of};

verus! {

pub const ID1: u8 = 0x1f;

pub const ID2: u8 = 0x8b;

pub const CM_DEFLATE: u8 = 8;

pub const FTEXT_OFFSET: u8 = 0;

pub const FHCRC_OFFSET: u8 = 1;

pub const FEXTRA_OFFSET: u8 = 2;

pub const FNAME_OFFSET: u8 = 3;

pub const FCOMMENT_OFFSET: u8 = 4;

/// Why a gzip stream could not be decoded.
#[derive(Clone, Copy, Debug, PartialEq, Eq, Structural)]
pub enum GzipError {
    WrongId,
    UnsupportedCompressionMethod,
    UnexpectedEof,
    HeaderCrc16,
    UnsupportedBlockType,
    NlenCheck,
    LengthCheck,
    Crc32Check,
    InvalidCode,
    OutOfHistory,
}

impl GzipError {
    /// The error in words.
    pub fn message(&self) -> (r: &'static str) {
        match self {
            GzipError::WrongId => "wrong id values",
            GzipError::UnsupportedCompressionMethod => "unsupported compression method",
            GzipError::UnexpectedEof => "unexpected end of file",
            GzipError::HeaderCrc16 => "header crc16 check failed",
            GzipError::UnsupportedBlockType => "unsupported block type",
            GzipError::NlenCheck => "nlen check failed",
            GzipError::LengthCheck => "length check failed",
            GzipError::Crc32Check => "crc32 check failed",
            GzipError::InvalidCode => "invalid huffman code",
            GzipError::OutOfHistory => "copy reaches before the start of the output",
        }
    }
}

/// Bit `n` of `b`.
pub open spec fn flag_bit(b: u8, n: u8) -> bool {
    (b >> n) & 1 == 1
}

#[derive(Clone, Copy, Debug, PartialEq, Eq, Structural)]
pub enum CompressionMethod {
    Deflate,
    Unknown(u8),
}

impl CompressionMethod {
    pub fn from_byte(value: u8) -> (r: Self)
        ensures
            r == if value == CM_DEFLATE {
                CompressionMethod::Deflate
            } else {
                CompressionMethod::Unknown(value)
            },
    {
        if value == CM_DEFLATE {
            CompressionMethod::Deflate
        } else {
            CompressionMethod::Unknown(value)
        }
    }

    pub open spec fn byte(self) -> u8 {
        match self {
            CompressionMethod::Deflate => CM_DEFLATE,
            CompressionMethod::Unknown(x) => x,
        }
    }

    pub fn to_byte(self) -> (r: u8)
        ensures
            r == self.byte(),
    {
        match self {
            CompressionMethod::Deflate => CM_DEFLATE,
            CompressionMethod::Unknown(x) => x,
        }
    }
}

/// The flag byte of a member header.
#[derive(Clone, Copy, Debug, PartialEq, Eq, Structural)]
pub struct MemberFlags(pub u8);

impl MemberFlags {
    fn bit(&self, n: u8) -> (r: bool)
        requires
            n < 8,
        ensures
            r == flag_bit(self.0, n),
    {
        let x = self.0 >> n;
        assert((x & 1 != 0) == (x & 1 == 1)) by (bit_vector);
        x & 1 != 0
    }

    fn set_bit(&mut self, n: u8, value: bool)
        requires
            n < 8,
        ensures
            forall|m: u8| m < 8 ==> #[trigger] flag_bit(final(self).0, m) == if m == n {
                value
            } else {
                flag_bit(old(self).0, m)
            },
    {
        let b = self.0;
        let nb = if value { b | (1u8 << n) } else { b & !(1u8 << n) };
        proof {
            assert forall|m: u8| m < 8 implies #[trigger] flag_bit(nb, m) == if m == n {
                value
            } else {
                flag_bit(b, m)
            } by {
                if value {
                    assert((((b | (1u8 << n)) >> m) & 1 == 1) == (m == n || (b >> m) & 1 == 1)) by (bit_vector)
                        requires
                            n < 8,
                            m < 8,
                    ;
                } else {
                    assert((((b & !(1u8 << n)) >> m) & 1 == 1) == (m != n && (b >> m) & 1 == 1)) by (bit_vector)
                        requires
                            n < 8,
                            m < 8,
                    ;
                }
            }
        }
        self.0 = nb;
    }

    pub fn is_text(&self) -> (r: bool)
        ensures
            r == flag_bit(self.0, FTEXT_OFFSET),
    {
        self.bit(FTEXT_OFFSET)
    }

    pub fn set_is_text(&mut self, value: bool)
        ensures
            forall|m: u8| m < 8 ==> #[trigger] flag_bit(final(self).0, m) == if m == FTEXT_OFFSET {
                value
            } else {
                flag_bit(old(self).0, m)
            },
    {
        self.set_bit(FTEXT_OFFSET, value)
    }

    pub fn has_crc(&self) -> (r: bool)
        ensures
            r == flag_bit(self.0, FHCRC_OFFSET),
    {
        self.bit(FHCRC_OFFSET)
    }

    pub fn set_has_crc(&mut self, value: bool)
        ensures
            forall|m: u8| m < 8 ==> #[trigger] flag_bit(final(self).0, m) == if m == FHCRC_OFFSET {
                value
            } else {
                flag_bit(old(self).0, m)
            },
    {
        self.set_bit(FHCRC_OFFSET, value)
    }

    pub fn has_extra(&self) -> (r: bool)
        ensures
            r == flag_bit(self.0, FEXTRA_OFFSET),
    {
        self.bit(FEXTRA_OFFSET)
    }

    pub fn set_has_extra(&mut self, value: bool)
        ensures
            forall|m: u8| m < 8 ==> #[trigger] flag_bit(final(self).0, m) == if m == FEXTRA_OFFSET {
                value
            } else {
                flag_bit(old(self).0, m)
            },
    {
        self.set_bit(FEXTRA_OFFSET, value)
    }

    pub fn has_name(&self) -> (r: bool)
        ensures
            r == flag_bit(self.0, FNAME_OFFSET),
    {
        self.bit(FNAME_OFFSET)
    }

    pub fn set_has_name(&mut self, value: bool)
        ensures
            forall|m: u8| m < 8 ==> #[trigger] flag_bit(final(self).0, m) == if m == FNAME_OFFSET {
                value
            } else {
                flag_bit(old(self).0, m)
            },
    {
        self.set_bit(FNAME_OFFSET, value)
    }

    pub fn has_comment(&self) -> (r: bool)
        ensures
            r == flag_bit(self.0, FCOMMENT_OFFSET),
    {
        self.bit(FCOMMENT_OFFSET)
    }

    pub fn set_has_comment(&mut self, value: bool)
        ensures
            forall|m: u8| m < 8 ==> #[trigger] flag_bit(final(self).0, m) == if m == FCOMMENT_OFFSET {
                value
            } else {
                flag_bit(old(self).0, m)
            },
    {
        self.set_bit(FCOMMENT_OFFSET, value)
    }
}

/// A member header. The name and the comment are kept as the bytes found, without
/// their terminating NUL.
#[derive(Debug)]
pub struct MemberHeader {
    pub compression_method: CompressionMethod,
    pub modification_time: u32,
    pub extra: Option<Vec<u8>>,
    pub name: Option<Vec<u8>>,
    pub comment: Option<Vec<u8>>,
    pub extra_flags: u8,
    pub os: u8,
    pub has_crc: bool,
    pub is_text: bool,
}

/// The bytes of `v` in little-endian order.
pub open spec fn le_bytes32(v: u32) -> Seq<u8> {
    seq![(v % 256) as u8, ((v / 256) % 256) as u8, ((v / 65536) % 256) as u8, (v / 16777216) as u8]
}

pub open spec fn le_bytes16(v: u16) -> Seq<u8> {
    seq![(v % 256) as u8, (v / 256) as u8]
}

/// The little-endian number in four bytes.
pub open spec fn le_u32(b: Seq<u8>) -> u32 {
    (b[0] + 256 * b[1] + 65536 * b[2] + 16777216 * b[3]) as u32
}

/// The little-endian number in two bytes.
pub open spec fn le_u16(b: Seq<u8>) -> u16 {
    (b[0] + 256 * b[1]) as u16
}

/// The flag byte that a header's fields call for.
pub open spec fn flags_byte_ok(b: u8, h: MemberHeader) -> bool {
    &&& flag_bit(b, FTEXT_OFFSET) == h.is_text
    &&& flag_bit(b, FHCRC_OFFSET) == h.has_crc
    &&& flag_bit(b, FEXTRA_OFFSET) == h.extra is Some
    &&& flag_bit(b, FNAME_OFFSET) == h.name is Some
    &&& flag_bit(b, FCOMMENT_OFFSET) == h.comment is Some
    &&& forall|m: u8| 5 <= m < 8 ==> !#[trigger] flag_bit(b, m)
}

/// The header as written in a stream, its CRC-16 left out; `flags` is its flag byte.
pub open spec fn header_bytes(h: MemberHeader, flags: u8) -> Seq<u8> {
    seq![ID1, ID2, h.compression_method.byte(), flags] + le_bytes32(h.modification_time) + seq![
        h.extra_flags,
        h.os,
    ] + match h.extra {
        Some(e) => le_bytes16(e@.len() as u16) + e@,
        None => Seq::empty(),
    } + match h.name {
        Some(n) => n@.push(0),
        None => Seq::empty(),
    } + match h.comment {
        Some(c) => c@.push(0),
        None => Seq::empty(),
    }
}

fn push_all(out: &mut Vec<u8>, bytes: &Vec<u8>)
    ensures
        final(out)@ == old(out)@ + bytes@,
{
    let ghost before = out@;
    let mut i: usize = 0;
    while i < bytes.len()
        invariant
            i <= bytes@.len(),
            out@ == before + bytes@.subrange(0, i as int),
        decreases bytes@.len() - i,
    {
        out.push(bytes[i]);
        i = i + 1;
        assert(out@ =~= before + bytes@.subrange(0, i as int));
    }
    assert(bytes@.subrange(0, bytes@.len() as int) =~= bytes@);
}

impl MemberHeader {
    /// The flag byte for this header.
    pub fn flags(&self) -> (r: MemberFlags)
        ensures
            flags_byte_ok(r.0, *self),
    {
        let mut flags = MemberFlags(0);
        assert(forall|m: u8| m < 8 ==> !#[trigger] flag_bit(0u8, m)) by (bit_vector);
        flags.set_is_text(self.is_text);
        flags.set_has_crc(self.has_crc);
        flags.set_has_extra(self.extra.is_some());
        flags.set_has_name(self.name.is_some());
        flags.set_has_comment(self.comment.is_some());
        flags
    }

    /// The low sixteen bits of the CRC-32 of the header's bytes, as stored after a header
    /// whose flags say it has one.
    pub fn crc16(&self) -> (r: u16)
        ensures
            exists|f: u8| flags_byte_ok(f, *self) && r == crc32_of(header_bytes(*self, f)) % 65536,
    {
        let flags = self.flags();
        let mut bytes: Vec<u8> = Vec::new();
        bytes.push(ID1);
        bytes.push(ID2);
        bytes.push(self.compression_method.to_byte());
        bytes.push(flags.0);
        let t = self.modification_time;
        bytes.push((t % 256) as u8);
        bytes.push(((t / 256) % 256) as u8);
        bytes.push(((t / 65536) % 256) as u8);
        bytes.push((t / 16777216) as u8);
        bytes.push(self.extra_flags);
        bytes.push(self.os);
        let ghost fixed = bytes@;
        assert(fixed =~= seq![ID1, ID2, self.compression_method.byte(), flags.0] + le_bytes32(t) + seq![self.extra_flags, self.os]);
        match &self.extra {
            Some(e) => {
                let n = e.len() as u16;
                bytes.push((n % 256) as u8);
                bytes.push((n / 256) as u8);
                push_all(&mut bytes, e);
                assert(bytes@ =~= fixed + (le_bytes16(n) + e@));
            },
            None => {
                assert(bytes@ =~= fixed + Seq::<u8>::empty());
            },
        }
        let ghost with_extra = bytes@;
        match &self.name {
            Some(nm) => {
                push_all(&mut bytes, nm);
                bytes.push(0);
                assert(bytes@ =~= with_extra + nm@.push(0));
            },
            None => {
                assert(bytes@ =~= with_extra + Seq::<u8>::empty());
            },
        }
        let ghost with_name = bytes@;
        match &self.comment {
            Some(c) => {
                push_all(&mut bytes, c);
                bytes.push(0);
                assert(bytes@ =~= with_name + c@.push(0));
            },
            None => {
                assert(bytes@ =~= with_name + Seq::<u8>::empty());
            },
        }
        assert(bytes@ == header_bytes(*self, flags.0));
        let sum = crc32(bytes.as_slice());
        (sum % 65536) as u16
    }
}

#[derive(Clone, Copy, Debug, PartialEq, Eq, Structural)]
pub struct MemberFooter {
    pub data_crc32: u32,
    pub data_size: u32,
}

/// Reads the byte at a byte boundary, or fails at the end of the input.
fn byte(r: &mut BitReader) -> (res: Result<u8, GzipError>)
    requires
        old(r).well_formed(),
        old(r).position() % 8 == 0,
    ensures
        final(r).data() == old(r).data(),
        final(r).well_formed(),
        final(r).position() % 8 == 0,
        final(r).position() >= old(r).position(),
        old(r).position() / 8 < old(r).data().len() ==> res == Ok::<u8, GzipError>(
            old(r).data()[(old(r).position() / 8) as int],
        ) && final(r).position() == old(r).position() + 8,
        old(r).position() / 8 >= old(r).data().len() ==> res == Err::<u8, GzipError>(
            GzipError::UnexpectedEof,
        ),
{
    match r.read_aligned_byte() {
        Some(b) => Ok(b),
        None => Err(GzipError::UnexpectedEof),
    }
}

/// Reads a little-endian `u16` at a byte boundary.
fn read_u16_le(r: &mut BitReader) -> (res: Result<u16, GzipError>)
    requires
        old(r).well_formed(),
        old(r).position() % 8 == 0,
    ensures
        final(r).data() == old(r).data(),
        final(r).well_formed(),
        final(r).position() % 8 == 0,
        res is Ok ==> {
            let p = (old(r).position() / 8) as int;
            &&& p + 2 <= old(r).data().len()
            &&& res->Ok_0 == le_u16(old(r).data().subrange(p, p + 2))
            &&& final(r).position() == old(r).position() + 16
        },
        res is Err ==> res == Err::<u16, GzipError>(GzipError::UnexpectedEof),
{
    let ghost p = (r.position() / 8) as int;
    let b0 = byte(r)?;
    let b1 = byte(r)?;
    let v = b0 as u16 + (b1 as u16) * 256;
    Ok(v)
}

/// Reads a little-endian `u32` at a byte boundary.
fn read_u32_le(r: &mut BitReader) -> (res: Result<u32, GzipError>)
    requires
        old(r).well_formed(),
        old(r).position() % 8 == 0,
    ensures
        final(r).data() == old(r).data(),
        final(r).well_formed(),
        final(r).position() % 8 == 0,
        res is Ok ==> {
            let p = (old(r).position() / 8) as int;
            &&& p + 4 <= old(r).data().len()
            &&& res->Ok_0 == le_u32(old(r).data().subrange(p, p + 4))
            &&& final(r).position() == old(r).position() + 32
        },
        res is Err ==> res == Err::<u32, GzipError>(GzipError::UnexpectedEof),
{
    let ghost p = (r.position() / 8) as int;
    let b0 = byte(r)?;
    let b1 = byte(r)?;
    let b2 = byte(r)?;
    let b3 = byte(r)?;
    let v = b0 as u32 + (b1 as u32) * 256 + (b2 as u32) * 65536 + (b3 as u32) * 16777216;
    Ok(v)
}

/// Reads bytes up to a NUL, which is consumed and not kept.
fn read_zero_terminated(r: &mut BitReader) -> (res: Result<Vec<u8>, GzipError>)
    requires
        old(r).well_formed(),
        old(r).position() % 8 == 0,
    ensures
        final(r).data() == old(r).data(),
        final(r).well_formed(),
        final(r).position() % 8 == 0,
        final(r).position() >= old(r).position(),
        res is Ok ==> forall|i: int| 0 <= i < res->Ok_0@.len() ==> res->Ok_0@[i] != 0,
        res is Err ==> res == Err::<Vec<u8>, GzipError>(GzipError::UnexpectedEof),
{
    let mut buffer: Vec<u8> = Vec::new();
    loop
        invariant
            r.data() == old(r).data(),
            r.well_formed(),
            r.position() % 8 == 0,
            r.position() >= old(r).position(),
            forall|i: int| 0 <= i < buffer@.len() ==> buffer@[i] != 0,
        decreases 8 * r.data().len() - r.position(),
    {
        let b = byte(r)?;
        if b == 0 {
            return Ok(buffer);
        }
        buffer.push(b);
    }
}

/// A cursor at the start of a gzip member, or at the end of the input.
pub struct GzipReader {
    reader: BitReader,
}

/// A cursor inside a member, past its header.
pub struct MemberReader {
    inner: BitReader,
}

impl GzipReader {
    pub closed spec fn cursor(&self) -> BitReader {
        self.reader
    }

    pub open spec fn well_formed(&self) -> bool {
        self.cursor().well_formed() && self.cursor().position() % 8 == 0
    }

    /// A reader at the start of `input`.
    pub fn new(input: &[u8]) -> (r: Self)
        requires
            8 * input@.len() <= usize::MAX,
        ensures
            r.well_formed(),
            r.cursor().data() == input@,
            r.cursor().position() == 0,
    {
        GzipReader { reader: BitReader::new(input) }
    }

    /// Reads the next member's header: `None` at the end of the input.
    pub fn next_member(self) -> (r: Option<Result<(MemberHeader, MemberReader), GzipError>>)
        requires
            self.well_formed(),
        ensures
            ({
                let d = self.cursor().data();
                let p = (self.cursor().position() / 8) as int;
                &&& r is None <==> p >= d.len()
                &&& p < d.len() && d[p] != ID1 ==> r == Some(
                    Err::<(MemberHeader, MemberReader), GzipError>(GzipError::WrongId),
                )
                &&& p + 1 < d.len() && d[p] == ID1 && d[p + 1] != ID2 ==> r == Some(
                    Err::<(MemberHeader, MemberReader), GzipError>(GzipError::WrongId),
                )
                &&& p + 2 < d.len() && d[p] == ID1 && d[p + 1] == ID2 && d[p + 2] != CM_DEFLATE
                    ==> r == Some(
                    Err::<(MemberHeader, MemberReader), GzipError>(
                        GzipError::UnsupportedCompressionMethod,
                    ),
                )
                &&& (r is Some && r->Some_0 is Ok) ==> {
                    let (h, m) = r->Some_0->Ok_0;
                    &&& p + 10 <= d.len()
                    &&& d[p] == ID1 && d[p + 1] == ID2 && d[p + 2] == CM_DEFLATE
                    &&& h.compression_method == CompressionMethod::Deflate
                    &&& flag_bit(d[p + 3], FTEXT_OFFSET) == h.is_text
                    &&& flag_bit(d[p + 3], FHCRC_OFFSET) == h.has_crc
                    &&& flag_bit(d[p + 3], FEXTRA_OFFSET) == h.extra is Some
                    &&& flag_bit(d[p + 3], FNAME_OFFSET) == h.name is Some
                    &&& flag_bit(d[p + 3], FCOMMENT_OFFSET) == h.comment is Some
                    &&& h.modification_time == le_u32(d.subrange(p + 4, p + 8))
                    &&& h.extra_flags == d[p + 8]
                    &&& h.os == d[p + 9]
                    &&& m.well_formed()
                    &&& m.cursor().data() == d
                    &&& m.cursor().position() > self.cursor().position()
                }
                &&& r == Some(Err::<(MemberHeader, MemberReader), GzipError>(GzipError::HeaderCrc16))
                    ==> p + 3 < d.len() && flag_bit(d[p + 3], FHCRC_OFFSET)
            }),
    {
        let reader = self.reader;
        let total = reader.data_len();
        if reader.byte_position() >= total {
            return None;
        }
        Some(Self::header(reader))
    }

    fn header(start: BitReader) -> (r: Result<(MemberHeader, MemberReader), GzipError>)
        requires
            start.well_formed(),
            start.position() % 8 == 0,
        ensures
            ({
                let d = start.data();
                let p = (start.position() / 8) as int;
                &&& p < d.len() && d[p] != ID1 ==> r == Err::<(MemberHeader, MemberReader), GzipError>(GzipError::WrongId)
                &&& p + 1 < d.len() && d[p] == ID1 && d[p + 1] != ID2 ==> r == Err::<(MemberHeader, MemberReader), GzipError>(GzipError::WrongId)
                &&& p + 2 < d.len() && d[p] == ID1 && d[p + 1] == ID2 && d[p + 2] != CM_DEFLATE
                    ==> r == Err::<(MemberHeader, MemberReader), GzipError>(GzipError::UnsupportedCompressionMethod)
                &&& r is Ok ==> {
                    let (h, m) = r->Ok_0;
                    &&& p + 10 <= d.len()
                    &&& d[p] == ID1 && d[p + 1] == ID2 && d[p + 2] == CM_DEFLATE
                    &&& h.compression_method == CompressionMethod::Deflate
                    &&& flag_bit(d[p + 3], FTEXT_OFFSET) == h.is_text
                    &&& flag_bit(d[p + 3], FHCRC_OFFSET) == h.has_crc
                    &&& flag_bit(d[p + 3], FEXTRA_OFFSET) == h.extra is Some
                    &&& flag_bit(d[p + 3], FNAME_OFFSET) == h.name is Some
                    &&& flag_bit(d[p + 3], FCOMMENT_OFFSET) == h.comment is Some
                    &&& h.modification_time == le_u32(d.subrange(p + 4, p + 8))
                    &&& h.extra_flags == d[p + 8]
                    &&& h.os == d[p + 9]
                    &&& m.well_formed()
                    &&& m.cursor().data() == d
                    &&& m.cursor().position() >= start.position() + 80
                }
                &&& r == Err::<(MemberHeader, MemberReader), GzipError>(GzipError::HeaderCrc16)
                    ==> p + 3 < d.len() && flag_bit(d[p + 3], FHCRC_OFFSET)
            }),
    {
        let mut reader = start;
        let ghost d = reader.data();
        let ghost p = (reader.position() / 8) as int;
        if byte(&mut reader)? != ID1 {
            return Err(GzipError::WrongId);
        }
        if byte(&mut reader)? != ID2 {
            return Err(GzipError::WrongId);
        }
        let method = CompressionMethod::from_byte(byte(&mut reader)?);
        match method {
            CompressionMethod::Unknown(_) => {
                return Err(GzipError::UnsupportedCompressionMethod);
            },
            CompressionMethod::Deflate => {},
        }
        let flags = MemberFlags(byte(&mut reader)?);
        let is_text = flags.is_text();
        let has_crc = flags.has_crc();
        let has_extra = flags.has_extra();
        let has_name = flags.has_name();
        let has_comment = flags.has_comment();
        let modification_time = read_u32_le(&mut reader)?;
        let extra_flags = byte(&mut reader)?;
        let os = byte(&mut reader)?;
        let mut extra = None;
        if has_extra {
            let xlen = read_u16_le(&mut reader)?;
            let mut temp: Vec<u8> = Vec::new();
            let mut i: u16 = 0;
            while i < xlen
                invariant
                    reader.data() == d,
                    d == start.data(),
                    p == (start.position() / 8) as int,
                    reader.position() >= start.position() + 80,
                    reader.well_formed(),
                    reader.position() % 8 == 0,
                    p + 9 < d.len(),
                    d[p] == ID1 && d[p + 1] == ID2 && d[p + 2] == CM_DEFLATE,
                    flag_bit(d[p + 3], FTEXT_OFFSET) == is_text,
                    flag_bit(d[p + 3], FHCRC_OFFSET) == has_crc,
                    flag_bit(d[p + 3], FEXTRA_OFFSET) == has_extra,
                    flag_bit(d[p + 3], FNAME_OFFSET) == has_name,
                    flag_bit(d[p + 3], FCOMMENT_OFFSET) == has_comment,
                    modification_time == le_u32(d.subrange(p + 4, p + 8)),
                    extra_flags == d[p + 8],
                    os == d[p + 9],
                decreases xlen - i,
            {
                temp.push(byte(&mut reader)?);
                i = i + 1;
            }
            extra = Some(temp);
        }
        let mut name = None;
        if has_name {
            name = Some(read_zero_terminated(&mut reader)?);
        }
        let mut comment = None;
        if has_comment {
            comment = Some(read_zero_terminated(&mut reader)?);
        }
        let header = MemberHeader {
            compression_method: method,
            modification_time,
            extra,
            name,
            comment,
            extra_flags,
            os,
            has_crc,
            is_text,
        };
        if has_crc {
            let stored = read_u16_le(&mut reader)?;
            if header.crc16() != stored {
                return Err(GzipError::HeaderCrc16);
            }
        }
        Ok((header, MemberReader { inner: reader }))
    }
}

impl MemberReader {
    pub closed spec fn cursor(&self) -> BitReader {
        self.inner
    }

    pub open spec fn well_formed(&self) -> bool {
        self.cursor().well_formed()
    }

    /// The reader of the member's compressed data.
    pub fn inner_mut(&mut self) -> (r: &mut BitReader)
        ensures
            *r == old(self).cursor(),
            final(self).cursor() == *final(r),
    {
        &mut self.inner
    }

    /// Skips to the next byte boundary and reads the footer: the CRC-32 and the size
    /// of the member's data, little-endian.
    pub fn read_footer(self) -> (r: Result<(MemberFooter, GzipReader), GzipError>)
        requires
            self.well_formed(),
        ensures
            r is Ok ==> {
                let (f, g) = r->Ok_0;
                &&& g.well_formed()
                &&& g.cursor().data() == self.cursor().data()
                &&& g.cursor().position() >= self.cursor().position()
            },
            r is Err ==> r == Err::<(MemberFooter, GzipReader), GzipError>(GzipError::UnexpectedEof),
    {
        let mut inner = self.inner;
        inner.skip_to_boundary();
        let data_crc32 = read_u32_le(&mut inner)?;
        let data_size = read_u32_le(&mut inner)?;
        Ok((MemberFooter { data_crc32, data_size }, GzipReader { reader: inner }))
    }
}

} // verus!
