//! The output side of decompression: it keeps what was written, so that earlier bytes
//! can be copied again, and the length and checksum of the current member.
use vstd::prelude::*;

verus! {

/// How far back a copy may reach.
pub const HISTORY_SIZE: usize = 32768;

/// The CRC-32 of `data`, as gzip computes it.
pub uninterp spec fn crc32_of(data: Seq<u8>) -> u32;

/// Relies on `crc::Crc::<u32>::checksum` with the `CRC_32_ISO_HDLC` parameters, the
/// checksum of gzip: the result depends on the bytes alone.
#[verifier::external_body]
pub(crate) fn crc32(data: &[u8]) -> (r: u32)
    ensures
        r == crc32_of(data@),
{
    crc::Crc::<u32>::new(&crc::CRC_32_ISO_HDLC).checksum(data)
}

/// `len` bytes made by repeating `window` from its start.
pub open spec fn repeat_window(window: Seq<u8>, len: nat) -> Seq<u8> {
    Seq::new(len, |i: int| window[i % window.len() as int])
}

pub struct TrackingWriter {
    output: Vec<u8>,
    start: usize,
}

impl TrackingWriter {
    /// Everything written so far.
    pub closed spec fn written(&self) -> Seq<u8> {
        self.output@
    }

    /// Where the current member's output begins in `written()`.
    pub closed spec fn member_start(&self) -> nat {
        self.start as nat
    }

    pub open spec fn well_formed(&self) -> bool {
        self.member_start() <= self.written().len()
    }

    /// The current member's output.
    pub open spec fn member(&self) -> Seq<u8> {
        self.written().subrange(self.member_start() as int, self.written().len() as int)
    }

    pub fn new() -> (r: Self)
        ensures
            r.well_formed(),
            r.written().len() == 0,
    {
        TrackingWriter { output: Vec::new(), start: 0 }
    }

    /// Appends `buf`; returns how many bytes were written, which is all of them.
    pub fn write(&mut self, buf: &[u8]) -> (r: usize)
        requires
            old(self).well_formed(),
        ensures
            final(self).well_formed(),
            final(self).written() == old(self).written() + buf@,
            final(self).member_start() == old(self).member_start(),
            r == buf@.len(),
    {
        let ghost before = self.output@;
        let mut i: usize = 0;
        while i < buf.len()
            invariant
                i <= buf@.len(),
                self.output@ == before + buf@.subrange(0, i as int),
                self.start == old(self).start,
                self.start <= before.len(),
            decreases buf@.len() - i,
        {
            self.output.push(buf[i]);
            i = i + 1;
            assert(self.output@ =~= before + buf@.subrange(0, i as int));
        }
        assert(buf@.subrange(0, buf@.len() as int) =~= buf@);
        buf.len()
    }

    /// Appends the `len` bytes that start `dist` bytes back, the copy running on into the
    /// bytes it appends. Fails, writing nothing, unless `dist` is between one and the
    /// length of the member's output and at most `HISTORY_SIZE`.
    pub fn write_previous(&mut self, dist: usize, len: usize) -> (r: Result<(), CopyError>)
        requires
            old(self).well_formed(),
        ensures
            final(self).well_formed(),
            final(self).member_start() == old(self).member_start(),
            (r is Ok) <==> (1 <= dist <= old(self).member().len() && dist <= HISTORY_SIZE),
            r is Ok ==> final(self).written() == old(self).written() + repeat_window(
                old(self).written().subrange(
                    old(self).written().len() - dist,
                    old(self).written().len() as int,
                ),
                len as nat,
            ),
            r is Err ==> final(self).written() == old(self).written(),
    {
        if dist == 0 || dist > self.output.len() - self.start || dist > HISTORY_SIZE {
            return Err(CopyError::OutOfHistory);
        }
        let ghost before = self.output@;
        let n = self.output.len();
        let first = n - dist;
        let ghost window = before.subrange(first as int, n as int);
        let mut k: usize = 0;
        while k < len
            invariant
                k <= len,
                n == before.len(),
                first + dist == n,
                1 <= dist,
                window == before.subrange(first as int, n as int),
                self.output@ == before + repeat_window(window, k as nat),
                self.start == old(self).start,
                self.start <= before.len(),
            decreases len - k,
        {
            let b = self.output[first + k % dist];
            assert(b == window[(k % dist) as int]);
            self.output.push(b);
            k = k + 1;
            assert(self.output@ =~= before + repeat_window(window, k as nat));
        }
        Ok(())
    }

    /// How many bytes the current member has produced.
    pub fn byte_count(&self) -> (r: usize)
        requires
            self.well_formed(),
        ensures
            r == self.member().len(),
    {
        self.output.len() - self.start
    }

    /// The CRC-32 of the current member's output.
    pub fn crc32(&self) -> (r: u32)
        requires
            self.well_formed(),
        ensures
            r == crc32_of(self.member()),
    {
        let slice = vstd::slice::slice_subrange(self.output.as_slice(), self.start, self.output.len());
        crc32(slice)
    }

    /// Ends the current member: the next one starts empty.
    pub fn flush(&mut self)
        requires
            old(self).well_formed(),
        ensures
            final(self).well_formed(),
            final(self).written() == old(self).written(),
            final(self).member().len() == 0,
    {
        self.start = self.output.len();
    }

    /// Everything written.
    pub fn into_inner(self) -> (r: Vec<u8>)
        ensures
            r@ == self.written(),
    {
        self.output
    }
}

/// A copy that reaches before the start of the member's output.
#[derive(Clone, Copy, Debug, PartialEq, Eq, Structural)]
pub enum CopyError {
    OutOfHistory,
}

} // verus!
