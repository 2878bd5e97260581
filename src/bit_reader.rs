//! Reading a byte string as a stream of bits, least significant bit of each byte first.
use vstd::prelude::*;
use vstd::arithmetic::power2::{pow2, lemma2_to64, lemma_pow2_adds, lemma_pow2_unfold, lemma_pow2_pos};
use vstd::bits::{lemma_u16_shl_is_mul, lemma_u8_shr_is_div};

verus! {

/// Up to sixteen bits, the first read in the most significant position of `bits`.
#[derive(Clone, Copy, Debug, PartialEq, Eq, Hash, Structural)]
pub struct BitSequence {
    bits: u16,
    len: u8,
}

impl BitSequence {
    pub closed spec fn value(&self) -> nat {
        self.bits as nat
    }

    pub closed spec fn length(&self) -> nat {
        self.len as nat
    }

    /// The value fits in the length.
    pub open spec fn well_formed(&self) -> bool {
        self.length() <= 16 && self.value() < pow2(self.length())
    }

    pub fn new(bits: u16, len: u8) -> (r: Self)
        ensures
            r.value() == bits,
            r.length() == len,
    {
        BitSequence { bits, len }
    }

    pub fn bits(&self) -> (r: u16)
        ensures
            r == self.value(),
    {
        self.bits
    }

    pub fn len(&self) -> (r: u8)
        ensures
            r == self.length(),
    {
        self.len
    }

    /// `self` followed by `other`: the bits of `self` move above those of `other`.
    pub fn concat(self, other: Self) -> (r: Self)
        requires
            self.length() + other.length() <= 16,
        ensures
            r.length() == self.length() + other.length(),
            self.well_formed() && other.well_formed() ==> r.well_formed() && r.value()
                == self.value() * pow2(other.length()) + other.value(),
    {
        let bits: u16;
        let len: u8;
        if self.len == 0 {
            bits = other.bits;
            len = other.len;
            proof {
                if self.well_formed() {
                    lemma2_to64();
                    assert(self.value() == 0);
                    assert(bits == self.value() * pow2(other.length()) + other.value());
                }
            }
        } else if other.len == 0 {
            bits = self.bits;
            len = self.len;
            proof {
                if other.well_formed() {
                    lemma2_to64();
                }
            }
        } else {
            let a = self.bits;
            let b = other.bits;
            let n = other.len as u16;
            proof {
                let m = self.len as nat;
                if self.well_formed() && other.well_formed() {
                    lemma_pow2_adds(m, n as nat);
                    lemma_pow2_pos(n as nat);
                    assert(a * pow2(n as nat) + b < pow2(m + n as nat)) by (nonlinear_arith)
                        requires
                            a < pow2(m),
                            b < pow2(n as nat),
                            pow2(m) * pow2(n as nat) == pow2(m + n as nat),
                            pow2(n as nat) > 0,
                    ;
                    lemma_pow2_no_overflow_16(m + n as nat);
                    lemma_u16_shl_is_mul(a, n);
                }
            }
            let shifted = a << n;
            bits = if shifted <= u16::MAX - b { shifted + b } else { shifted | b };
            len = self.len + other.len;
            assert(self.well_formed() && other.well_formed() ==> shifted == a * pow2(n as nat));
            assert(self.well_formed() && other.well_formed() ==> bits == a * pow2(n as nat) + b);
        }
        BitSequence { bits, len }
    }
}

/// `pow2(16)` is the first power of two beyond `u16`.
proof fn lemma_pow2_no_overflow_16(e: nat)
    requires
        e <= 16,
    ensures
        pow2(e) <= 0x10000,
{
    lemma2_to64();
    if e < 16 {
        vstd::arithmetic::power2::lemma_pow2_strictly_increases(e, 16);
    }
}

/// Reading past the end of the input.
#[derive(Clone, Copy, Debug, PartialEq, Eq, Structural)]
pub enum BitReadError {
    UnexpectedEof,
}

/// Bit `i` of the byte string, numbering the bits of each byte from its least
/// significant one.
pub open spec fn bit_at(data: Seq<u8>, i: int) -> bool {
    (data[i / 8] as nat / pow2((i % 8) as nat)) % 2 == 1
}

/// The number whose binary digits are the `n` bits from `from` on, the first bit
/// least significant.
pub open spec fn bits_value(data: Seq<u8>, from: int, n: nat) -> nat
    decreases n,
{
    if n == 0 {
        0
    } else {
        bits_value(data, from, (n - 1) as nat) + if bit_at(data, from + n - 1) {
            pow2((n - 1) as nat)
        } else {
            0
        }
    }
}


/// At a byte boundary, the first `n` bits are the low `n` bits of the byte.
pub proof fn lemma_aligned_bits(data: Seq<u8>, k: int, n: nat)
    requires
        0 <= k < data.len(),
        n <= 8,
    ensures
        bits_value(data, 8 * k, n) == data[k] as nat % pow2(n),
    decreases n,
{
    lemma2_to64();
    if n > 0 {
        let m = (n - 1) as nat;
        lemma_aligned_bits(data, k, m);
        let i = 8 * k + m;
        vstd::arithmetic::div_mod::lemma_fundamental_div_mod_converse(i, 8, k, m as int);
        lemma_pow2_pos(m);
        vstd::arithmetic::div_mod::lemma_mod_breakdown(data[k] as int, pow2(m) as int, 2);
        lemma_pow2_unfold(n);
        assert(pow2(m) * 2 == pow2(n));
        let d = data[k] as int;
        let x = d / pow2(m) as int;
        assert(i / 8 == k && i % 8 == m);
        assert(bit_at(data, 8 * k + n - 1) == (x % 2 == 1));
        assert(x % 2 == 0 || x % 2 == 1);
        if x % 2 == 1 {
            assert(pow2(m) * (x % 2) == pow2(m));
        } else {
            assert(pow2(m) * (x % 2) == 0);
        }
    }
}

/// A cursor over a byte string that hands out bits.
pub struct BitReader {
    stream: Vec<u8>,
    bit_pos: usize,
}

impl BitReader {
    /// The bytes being read.
    pub closed spec fn data(&self) -> Seq<u8> {
        self.stream@
    }

    /// How many bits have been consumed.
    pub closed spec fn position(&self) -> nat {
        self.bit_pos as nat
    }

    pub open spec fn well_formed(&self) -> bool {
        &&& self.position() <= 8 * self.data().len()
        &&& 8 * self.data().len() <= usize::MAX
    }

    /// How many bits are left.
    pub open spec fn remaining(&self) -> nat {
        (8 * self.data().len() - self.position()) as nat
    }

    pub fn new(stream: &[u8]) -> (r: Self)
        requires
            8 * stream@.len() <= usize::MAX,
        ensures
            r.data() == stream@,
            r.position() == 0,
            r.well_formed(),
    {
        let mut data: Vec<u8> = Vec::new();
        let mut k: usize = 0;
        while k < stream.len()
            invariant
                k <= stream@.len(),
                data@ == stream@.subrange(0, k as int),
            decreases stream@.len() - k,
        {
            data.push(stream[k]);
            k = k + 1;
        }
        assert(stream@.subrange(0, stream@.len() as int) =~= stream@);
        BitReader { stream: data, bit_pos: 0 }
    }

    /// The next bit.
    fn read_bit(&mut self) -> (r: bool)
        requires
            old(self).well_formed(),
            old(self).remaining() >= 1,
        ensures
            final(self).data() == old(self).data(),
            final(self).position() == old(self).position() + 1,
            r == bit_at(old(self).data(), old(self).position() as int),
    {
        let byte = self.stream[self.bit_pos / 8];
        let shift = (self.bit_pos % 8) as u8;
        let shifted = byte >> shift;
        proof {
            lemma_u8_shr_is_div(byte, shift);
            assert(shifted & 1 == shifted % 2) by (bit_vector);
        }
        self.bit_pos = self.bit_pos + 1;
        shifted & 1 == 1
    }

    /// Reads `len` bits; fails, consuming nothing, when fewer are left.
    pub fn read_bits(&mut self, len: u8) -> (r: Result<BitSequence, BitReadError>)
        requires
            old(self).well_formed(),
            len <= 16,
        ensures
            final(self).data() == old(self).data(),
            final(self).well_formed(),
            len <= old(self).remaining() <==> r is Ok,
            r is Ok ==> {
                &&& final(self).position() == old(self).position() + len
                &&& r.unwrap().length() == len
                &&& r.unwrap().value() == bits_value(old(self).data(), old(self).position() as int, len as nat)
                &&& r.unwrap().well_formed()
            },
            r is Err ==> final(self).position() == old(self).position(),
    {
        let total = self.stream.len();
        if (len as usize) > total * 8 - self.bit_pos {
            return Err(BitReadError::UnexpectedEof);
        }
        let ghost start = self.bit_pos as int;
        let mut acc: u32 = 0;
        let mut p: u32 = 1;
        let mut k: u8 = 0;
        proof {
            lemma2_to64();
        }
        while k < len
            invariant
                self.data() == old(self).data(),
                self.well_formed(),
                k <= len <= 16,
                start + len <= 8 * self.data().len(),
                self.position() == start + k,
                p == pow2(k as nat),
                acc == bits_value(self.data(), start, k as nat),
                acc < p,
            decreases len - k,
        {
            proof {
                lemma_pow2_no_overflow_16(k as nat);
                lemma_pow2_unfold((k + 1) as nat);
            }
            let b = self.read_bit();
            if b {
                acc = acc + p;
            }
            p = p * 2;
            k = k + 1;
        }
        proof {
            lemma_pow2_no_overflow_16(len as nat);
        }
        Ok(BitSequence { bits: acc as u16, len })
    }

    /// Reads the next eight bits as a byte.
    pub fn read_u8(&mut self) -> (r: Result<u8, BitReadError>)
        requires
            old(self).well_formed(),
        ensures
            final(self).data() == old(self).data(),
            final(self).well_formed(),
            8 <= old(self).remaining() <==> r is Ok,
            r is Ok ==> final(self).position() == old(self).position() + 8 && r.unwrap()
                == bits_value(old(self).data(), old(self).position() as int, 8),
            r is Err ==> final(self).position() == old(self).position(),
    {
        match self.read_bits(8) {
            Ok(seq) => {
                proof {
                    lemma2_to64();
                }
                Ok(seq.bits() as u8)
            },
            Err(e) => Err(e),
        }
    }

    /// The number of bytes being read.
    pub fn data_len(&self) -> (r: usize)
        ensures
            r == self.data().len(),
    {
        self.stream.len()
    }

    /// The number of bits left.
    pub fn remaining_bits(&self) -> (r: usize)
        requires
            self.well_formed(),
        ensures
            r == self.remaining(),
    {
        self.stream.len() * 8 - self.bit_pos
    }

    /// The number of whole bytes consumed.
    pub fn byte_position(&self) -> (r: usize)
        ensures
            r == self.position() / 8,
    {
        self.bit_pos / 8
    }

    /// Reads the byte at the current position, which is at a byte boundary.
    pub fn read_aligned_byte(&mut self) -> (r: Option<u8>)
        requires
            old(self).well_formed(),
            old(self).position() % 8 == 0,
        ensures
            final(self).data() == old(self).data(),
            final(self).well_formed(),
            final(self).position() % 8 == 0,
            old(self).position() / 8 < old(self).data().len() ==> r == Some(
                old(self).data()[(old(self).position() / 8) as int],
            ) && final(self).position() == old(self).position() + 8,
            old(self).position() / 8 >= old(self).data().len() ==> r is None && final(self).position()
                == old(self).position(),
    {
        let ghost k = self.position() / 8;
        match self.read_u8() {
            Ok(b) => {
                proof {
                    lemma_aligned_bits(self.data(), k as int, 8);
                    lemma2_to64();
                    assert(8 * k == old(self).position());
                }
                Some(b)
            },
            Err(_) => None,
        }
    }

    /// Discards the unread bits of the current byte, so that reading continues at the
    /// start of the next one.
    pub fn skip_to_boundary(&mut self)
        requires
            old(self).well_formed(),
        ensures
            final(self).data() == old(self).data(),
            final(self).well_formed(),
            final(self).position() % 8 == 0,
            old(self).position() <= final(self).position() < old(self).position() + 8,
    {
        if self.bit_pos % 8 != 0 {
            self.bit_pos = self.bit_pos + (8 - self.bit_pos % 8);
        }
    }

    /// Discards the unread bits of the current byte, so that reading continues at the
    /// start of the next one, and hands the reader back for byte-wise reads.
    pub fn borrow_reader_from_boundary(&mut self) -> (r: &mut Self)
        requires
            old(self).well_formed(),
        ensures
            r.data() == old(self).data(),
            r.well_formed(),
            r.position() % 8 == 0,
            old(self).position() <= r.position() < old(self).position() + 8,
            *final(self) == *final(r),
    {
        self.skip_to_boundary();
        self
    }
}

} // verus!
