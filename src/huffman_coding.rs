//! Canonical Huffman codes as used by DEFLATE, and the tokens they decode to.
use vstd::prelude::*;
use vstd::arithmetic::power2::{pow2, lemma2_to64, lemma_pow2_unfold, lemma_pow2_strictly_increases};
use crate::bit_reader::{BitReader, BitSequence, bit_at, bits_value};

verus! {

pub const MAX_BITS: usize = 15;

/// Why a code could not be built or a symbol not decoded.
#[derive(Clone, Copy, Debug, PartialEq, Eq, Structural)]
pub enum HuffmanError {
    /// A code word that no token stands for.
    UnknownCodeWord(u16),
    /// Code lengths above fifteen bits, or more codes of some length than fit.
    InvalidLengths,
    /// The input ended inside a code.
    UnexpectedEof,
    /// No code of up to fifteen bits matches the input.
    NoMatchingCode,
}

/// The index of a symbol in a table of code lengths.
pub struct HuffmanCodeWord(pub u16);

/// A token that a code word decodes to.
pub trait FromCodeWord: Sized + Copy {
    spec fn spec_from_code_word(word: u16) -> Result<Self, HuffmanError>;

    fn from_code_word(word: HuffmanCodeWord) -> (r: Result<Self, HuffmanError>)
        ensures
            r == Self::spec_from_code_word(word.0),
    ;
}

/// How many of the first `upto` lengths equal `l`.
pub open spec fn count_len(ls: Seq<u8>, l: int, upto: int) -> nat
    decreases upto,
{
    if upto <= 0 {
        0
    } else {
        count_len(ls, l, upto - 1) + if ls[upto - 1] == l {
            1nat
        } else {
            0nat
        }
    }
}

/// How many symbols have a code of `l` bits; symbols of length zero have none.
pub open spec fn bl_count(ls: Seq<u8>, l: int) -> nat {
    if l <= 0 {
        0
    } else {
        count_len(ls, l, ls.len() as int)
    }
}

/// The first code of length `b` in the canonical code.
pub open spec fn base_code(ls: Seq<u8>, b: nat) -> nat
    decreases b,
{
    if b == 0 {
        0
    } else {
        2 * (base_code(ls, (b - 1) as nat) + bl_count(ls, b - 1))
    }
}

/// The lengths describe a code: none is over fifteen bits and the codes of each length
/// fit in that many bits.
pub open spec fn valid_lengths(ls: Seq<u8>) -> bool {
    &&& forall|i: int| 0 <= i < ls.len() ==> #[trigger] ls[i] <= MAX_BITS
    &&& forall|l: nat| 1 <= l <= MAX_BITS ==> #[trigger] base_code(ls, l) + bl_count(ls, l as int) <= pow2(l)
}

/// The canonical code of symbol `i`: codes of one length are consecutive, in symbol order.
pub open spec fn code_of(ls: Seq<u8>, i: int) -> nat {
    base_code(ls, ls[i] as nat) + count_len(ls, ls[i] as int, i)
}

/// The entries `(code, length, token)` of the canonical code over the first `upto`
/// symbols, in symbol order, skipping symbols of length zero.
pub open spec fn canonical_entries<T: FromCodeWord>(ls: Seq<u8>, upto: int) -> Seq<(nat, nat, T)>
    decreases upto,
{
    if upto <= 0 {
        seq![]
    } else {
        let i = upto - 1;
        let rest = canonical_entries::<T>(ls, i);
        if ls[i] > 0 {
            rest.push((code_of(ls, i), ls[i] as nat, T::spec_from_code_word(i as u16)->Ok_0))
        } else {
            rest
        }
    }
}

/// Every symbol of non-zero length has a token.
pub open spec fn all_tokens_known<T: FromCodeWord>(ls: Seq<u8>) -> bool {
    forall|i: int| 0 <= i < ls.len() && ls[i] > 0 ==> (#[trigger] T::spec_from_code_word(i as u16)) is Ok
}

/// The first symbol of the lengths whose token is unknown, if any.
pub open spec fn first_unknown<T: FromCodeWord>(ls: Seq<u8>, upto: int) -> Option<u16>
    decreases upto,
{
    if upto <= 0 {
        None
    } else {
        match first_unknown::<T>(ls, upto - 1) {
            Some(w) => Some(w),
            None => if ls[upto - 1] > 0 && T::spec_from_code_word((upto - 1) as u16) is Err {
                Some((upto - 1) as u16)
            } else {
                None
            },
        }
    }
}

/// The token of the first entry with the given code and length.
pub open spec fn lookup<T>(es: Seq<(nat, nat, T)>, code: nat, len: nat) -> Option<T>
    decreases es.len(),
{
    if es.len() == 0 {
        None
    } else if es[0].0 == code && es[0].1 == len {
        Some(es[0].2)
    } else {
        lookup(es.drop_first(), code, len)
    }
}

/// The number whose binary digits are the `n` bits from `from` on, the first bit most
/// significant: the way Huffman codes are read.
pub open spec fn msb_value(data: Seq<u8>, from: int, n: nat) -> nat
    decreases n,
{
    if n == 0 {
        0
    } else {
        2 * msb_value(data, from, (n - 1) as nat) + if bit_at(data, from + n - 1) {
            1nat
        } else {
            0nat
        }
    }
}

#[derive(Debug)]
pub struct HuffmanCoding<T> {
    map: Vec<(BitSequence, T)>,
}

impl<T: FromCodeWord> HuffmanCoding<T> {
    /// The entries `(code, length, token)`.
    pub closed spec fn entries(&self) -> Seq<(nat, nat, T)> {
        self.map@.map_values(|e: (BitSequence, T)| (e.0.value(), e.0.length(), e.1))
    }

    /// The token of the code `seq`, if there is one.
    pub fn decode_symbol(&self, seq: BitSequence) -> (r: Option<T>)
        ensures
            r == lookup(self.entries(), seq.value(), seq.length()),
    {
        let mut i: usize = 0;
        assert(self.entries().subrange(0, self.entries().len() as int) =~= self.entries());
        while i < self.map.len()
            invariant
                i <= self.map@.len(),
                lookup(self.entries(), seq.value(), seq.length()) == lookup(
                    self.entries().subrange(i as int, self.entries().len() as int),
                    seq.value(),
                    seq.length(),
                ),
            decreases self.map@.len() - i,
        {
            let e = &self.map[i];
            assert(self.entries().subrange(i as int, self.entries().len() as int).drop_first()
                =~= self.entries().subrange(i + 1, self.entries().len() as int));
            if e.0.bits() == seq.bits() && e.0.len() == seq.len() {
                return Some(e.1);
            }
            i = i + 1;
        }
        None
    }

    /// Reads bits one at a time until they form a code, and returns its token.
    pub fn read_symbol(&self, bit_reader: &mut BitReader) -> (r: Result<T, HuffmanError>)
        requires
            old(bit_reader).well_formed(),
        ensures
            final(bit_reader).well_formed(),
            final(bit_reader).data() == old(bit_reader).data(),
            final(bit_reader).position() >= old(bit_reader).position(),
            r is Ok ==> {
                let k = final(bit_reader).position() - old(bit_reader).position();
                &&& 1 <= k <= MAX_BITS
                &&& lookup(
                    self.entries(),
                    msb_value(old(bit_reader).data(), old(bit_reader).position() as int, k as nat),
                    k as nat,
                ) == Some(r.unwrap())
                &&& forall|j: nat|
                    1 <= j < k ==> lookup(
                        self.entries(),
                        #[trigger] msb_value(old(bit_reader).data(), old(bit_reader).position() as int, j),
                        j,
                    ) is None
            },
            r is Err ==> forall|j: nat|
                1 <= j <= MAX_BITS && j <= old(bit_reader).remaining() ==> lookup(
                    self.entries(),
                    #[trigger] msb_value(old(bit_reader).data(), old(bit_reader).position() as int, j),
                    j,
                ) is None,
            r == Err::<T, HuffmanError>(HuffmanError::UnexpectedEof) ==> old(bit_reader).remaining()
                < MAX_BITS,
    {
        let ghost start = bit_reader.position() as int;
        let ghost data = bit_reader.data();
        let mut seq = BitSequence::new(0, 0);
        let mut k: u8 = 0;
        proof {
            lemma2_to64();
        }
        while k < 15
            invariant
                bit_reader.well_formed(),
                bit_reader.data() == data,
                data == old(bit_reader).data(),
                start == old(bit_reader).position(),
                bit_reader.position() >= old(bit_reader).position(),
                k <= MAX_BITS,
                bit_reader.position() == start + k,
                seq.length() == k,
                seq.well_formed(),
                seq.value() == msb_value(data, start, k as nat),
                forall|j: nat|
                    1 <= j <= k ==> lookup(self.entries(), #[trigger] msb_value(data, start, j), j)
                        is None,
            decreases 15 - k,
        {
            let bit = match bit_reader.read_bits(1) {
                Ok(b) => b,
                Err(_) => {
                    return Err(HuffmanError::UnexpectedEof);
                },
            };
            proof {
                lemma2_to64();
                reveal_with_fuel(crate::bit_reader::bits_value, 2);
            }
            let ghost prev = seq.value();
            assert(bit.value() == if bit_at(data, start + k) { 1nat } else { 0nat });
            seq = seq.concat(bit);
            assert(seq.value() == prev * 2 + bit.value());
            k = k + 1;
            assert(seq.value() == msb_value(data, start, k as nat));
            match self.decode_symbol(seq) {
                Some(t) => {
                    return Ok(t);
                },
                None => {},
            }
        }
        Err(HuffmanError::NoMatchingCode)
    }

    /// Builds the canonical code in which symbol `i` has a code of `code_lengths[i]` bits
    /// (none where that is zero).
    pub fn from_lengths(code_lengths: &[u8]) -> (r: Result<Self, HuffmanError>)
        requires
            code_lengths@.len() <= 0x10000,
        ensures
            r is Ok <==> valid_lengths(code_lengths@) && all_tokens_known::<T>(code_lengths@),
            r is Ok ==> r.unwrap().entries() == canonical_entries::<T>(
                code_lengths@,
                code_lengths@.len() as int,
            ),
            r is Err && valid_lengths(code_lengths@) ==> r == Err::<Self, HuffmanError>(
                HuffmanError::UnknownCodeWord(
                    first_unknown::<T>(code_lengths@, code_lengths@.len() as int)->Some_0,
                ),
            ),
            !valid_lengths(code_lengths@) ==> r == Err::<Self, HuffmanError>(
                HuffmanError::InvalidLengths,
            ),
    {
        let ghost ls = code_lengths@;
        let n = code_lengths.len();
        // bl[l]: how many symbols have length l
        let mut bl: Vec<u64> = Vec::new();
        let mut l: usize = 0;
        while l <= MAX_BITS
            invariant
                l <= MAX_BITS + 1,
                bl@.len() == l,
                forall|j: int| 0 <= j < l ==> bl@[j] == 0,
            decreases MAX_BITS + 1 - l,
        {
            bl.push(0);
            l = l + 1;
        }
        let mut i: usize = 0;
        while i < n
            invariant
                n == ls.len(),
                ls == code_lengths@,
                n <= 0x10000,
                i <= n,
                bl@.len() == MAX_BITS + 1,
                bl@[0] == 0,
                forall|j: int| 0 <= j < i ==> #[trigger] ls[j] <= MAX_BITS,
                forall|b: int| 1 <= b <= MAX_BITS ==> #[trigger] bl@[b] == count_len(ls, b, i as int),
            decreases n - i,
        {
            let len = code_lengths[i];
            if len as usize > MAX_BITS {
                return Err(HuffmanError::InvalidLengths);
            }
            proof {
                assert forall|b: int| 1 <= b <= MAX_BITS implies count_len(ls, b, i as int) <= i by {
                    lemma_count_len_le(ls, b, i as int);
                }
            }
            if len > 0 {
                let c = bl[len as usize];
                bl.set(len as usize, c + 1);
            }
            i = i + 1;
        }
        // next[l]: the next free code of length l
        let mut next: Vec<u64> = Vec::new();
        next.push(0);
        let mut code: u64 = 0;
        let mut b: usize = 1;
        proof {
            lemma2_to64();
        }
        while b <= MAX_BITS
            invariant
                1 <= b <= MAX_BITS + 1,
                n == ls.len(),
                ls == code_lengths@,
                bl@.len() == MAX_BITS + 1,
                bl@[0] == 0,
                forall|c: int| 1 <= c <= MAX_BITS ==> #[trigger] bl@[c] == bl_count(ls, c),
                forall|j: int| 0 <= j < n ==> #[trigger] ls[j] <= MAX_BITS,
                next@.len() == b,
                forall|c: int| 0 <= c < b ==> #[trigger] next@[c] == base_code(ls, c as nat),
                code == base_code(ls, (b - 1) as nat),
                code + bl_count(ls, b - 1) <= pow2((b - 1) as nat),
                pow2((b - 1) as nat) <= 0x8000,
                forall|c: nat| 1 <= c < b ==> #[trigger] base_code(ls, c) + bl_count(ls, c as int) <= pow2(c),
            decreases MAX_BITS + 1 - b,
        {
            proof {
                lemma_pow2_unfold(b as nat);
                lemma2_to64();
            }
            code = (code + bl[b - 1]) * 2;
            next.push(code);
            if bl[b] > 0x10000 || code + bl[b] > (1u64 << (b as u64)) {
                proof {
                    lemma_shl_pow2(b as u64);
                    lemma_pow2_no_overflow_15(b as nat);
                    assert(!(base_code(ls, b as nat) + bl_count(ls, b as int) <= pow2(b as nat)));
                }
                return Err(HuffmanError::InvalidLengths);
            }
            proof {
                lemma_shl_pow2(b as u64);
                if b < MAX_BITS {
                    lemma_pow2_strictly_increases(b as nat, MAX_BITS as nat);
                }
            }
            b = b + 1;
        }
        assert(valid_lengths(ls));
        let mut map: Vec<(BitSequence, T)> = Vec::new();
        let mut i: usize = 0;
        while i < n
            invariant
                n == ls.len(),
                ls == code_lengths@,
                n <= 0x10000,
                i <= n,
                valid_lengths(ls),
                next@.len() == MAX_BITS + 1,
                forall|c: int| 1 <= c <= MAX_BITS ==> #[trigger] next@[c] == base_code(ls, c as nat) + count_len(ls, c, i as int),
                map@.map_values(|e: (BitSequence, T)| (e.0.value(), e.0.length(), e.1))
                    == canonical_entries::<T>(ls, i as int),
                first_unknown::<T>(ls, i as int) is None,
                forall|j: int| 0 <= j < i && ls[j] > 0 ==> (#[trigger] T::spec_from_code_word(j as u16)) is Ok,
            decreases n - i,
        {
            let len = code_lengths[i];
            proof {
                assert forall|c: int| 1 <= c <= MAX_BITS implies count_len(ls, c, i as int) < bl_count(ls, c) || ls[i as int] != c by {
                    lemma_count_len_mono(ls, c, i as int + 1, n as int);
                }
            }
            if len > 0 {
                let c = next[len as usize];
                proof {
                    assert(base_code(ls, len as nat) + bl_count(ls, len as int) <= pow2(len as nat));
                    lemma_pow2_no_overflow_15(len as nat);
                }
                let token = match T::from_code_word(HuffmanCodeWord(i as u16)) {
                    Ok(t) => t,
                    Err(_) => {
                        assert(first_unknown::<T>(ls, i + 1) == Some(i as u16));
                        proof {
                            lemma_first_unknown_stays::<T>(ls, i as int + 1, n as int);
                            assert(!all_tokens_known::<T>(ls));
                        }
                        return Err(HuffmanError::UnknownCodeWord(i as u16));
                    },
                };
                let ghost before = map@;
                map.push((BitSequence::new(c as u16, len), token));
                assert(map@.map_values(|e: (BitSequence, T)| (e.0.value(), e.0.length(), e.1))
                    =~= before.map_values(|e: (BitSequence, T)| (e.0.value(), e.0.length(), e.1)).push((code_of(ls, i as int), len as nat, token)));
                next.set(len as usize, c + 1);
            }
            i = i + 1;
        }
        proof {
            assert forall|j: int| 0 <= j < ls.len() && ls[j] > 0 implies (#[trigger] T::spec_from_code_word(j as u16)) is Ok by {}
        }
        Ok(HuffmanCoding { map })
    }
}



/// Reads `n` bits as a number.
fn bits(r: &mut BitReader, n: u8) -> (res: Result<u16, HuffmanError>)
    requires
        old(r).well_formed(),
        n <= 16,
    ensures
        final(r).well_formed(),
        final(r).data() == old(r).data(),
        final(r).position() >= old(r).position(),
        res is Ok ==> res->Ok_0 == bits_value(old(r).data(), old(r).position() as int, n as nat)
            && final(r).position() == old(r).position() + n && res->Ok_0 < pow2(n as nat),
        res is Err ==> res == Err::<u16, HuffmanError>(HuffmanError::UnexpectedEof),
{
    match r.read_bits(n) {
        Ok(s) => Ok(s.bits()),
        Err(_) => Err(HuffmanError::UnexpectedEof),
    }
}

/// Fills `table[..rows]` with code lengths read with the code-length code `tree`: a
/// length is stored as it is, `CopyPrev` repeats the previous length three to six times,
/// `RepeatZero` skips a run of zero lengths.
fn build_huffman_coding(
    tree: &HuffmanCoding<TreeCodeToken>,
    table: &mut Vec<u8>,
    reader: &mut BitReader,
    rows: usize,
) -> (r: Result<(), HuffmanError>)
    requires
        old(reader).well_formed(),
        rows <= old(table)@.len(),
    ensures
        final(reader).well_formed(),
        final(reader).data() == old(reader).data(),
        final(reader).position() >= old(reader).position(),
        final(table)@.len() == old(table)@.len(),
{
    let mut index: usize = 0;
    let mut prev: u8 = 0;
    let n = table.len();
    while index < rows
        invariant
            reader.well_formed(),
            reader.data() == old(reader).data(),
            reader.position() >= old(reader).position(),
            table@.len() == n,
            n == old(table)@.len(),
            rows <= n,
            index <= n,
        decreases n - index,
    {
        match tree.read_symbol(reader)? {
            TreeCodeToken::Length(len) => {
                table.set(index, len);
                prev = len;
                index = index + 1;
            },
            TreeCodeToken::CopyPrev => {
                let extra = bits(reader, 2)?;
                proof {
                    lemma2_to64();
                }
                let repeats = extra + 3;
                let mut k: u16 = 0;
                let ghost first = index;
                while k < repeats
                    invariant
                        table@.len() == n,
                        n == old(table)@.len(),
                        reader.well_formed(),
                        reader.data() == old(reader).data(),
                        reader.position() >= old(reader).position(),
                        index == first + k,
                        index <= n,
                        k <= repeats,
                    decreases repeats - k,
                {
                    if index >= n {
                        return Err(HuffmanError::InvalidLengths);
                    }
                    table.set(index, prev);
                    index = index + 1;
                    k = k + 1;
                }
            },
            TreeCodeToken::RepeatZero { base, extra_bits } => {
                if extra_bits > 16 || base == 0 {
                    return Err(HuffmanError::InvalidLengths);
                }
                let extra = bits(reader, extra_bits)?;
                let zeros = base as usize + extra as usize;
                if zeros > n - index {
                    return Err(HuffmanError::InvalidLengths);
                }
                index = index + zeros;
            },
        }
    }
    Ok(())
}

/// Where the `i`-th stored length of the code-length code goes: the lengths come in the
/// order 16, 17, 18, 0, 8, 7, 9, 6, 10, 5, 11, 4, 12, 3, 13, 2, 14, 1, 15.
fn code_length_slot(i: usize) -> (r: usize)
    requires
        i < 19,
    ensures
        r < 19,
{
    if i < 3 {
        16 + i
    } else if i == 3 {
        0
    } else if i % 2 == 0 {
        8 + (i - 4) / 2
    } else {
        7 - (i - 5) / 2
    }
}

/// Reads the header of a block with dynamic codes and builds its literal/length and
/// distance codes.
pub fn decode_litlen_distance_trees(bit_reader: &mut BitReader) -> (r: Result<
    (HuffmanCoding<LitLenToken>, HuffmanCoding<DistanceToken>),
    HuffmanError,
>)
    requires
        old(bit_reader).well_formed(),
    ensures
        final(bit_reader).well_formed(),
        final(bit_reader).data() == old(bit_reader).data(),
        final(bit_reader).position() >= old(bit_reader).position(),
{
    let rows = bits(bit_reader, 5)? as usize + 257;
    let distance_rows = bits(bit_reader, 5)? as usize + 1;
    let code_length_codes = bits(bit_reader, 4)? as usize + 4;
    let mut lengths: Vec<u8> = Vec::new();
    let mut i: usize = 0;
    while i < 19
        invariant
            lengths@.len() == i,
            i <= 19,
        decreases 19 - i,
    {
        lengths.push(0);
        i = i + 1;
    }
    let mut i: usize = 0;
    while i < code_length_codes && i < 19
        invariant
            lengths@.len() == 19,
            bit_reader.well_formed(),
            bit_reader.data() == old(bit_reader).data(),
            bit_reader.position() >= old(bit_reader).position(),
        decreases 19 - i,
    {
        let len = bits(bit_reader, 3)?;
        let slot = code_length_slot(i);
        if len > 15 {
            return Err(HuffmanError::InvalidLengths);
        }
        lengths.set(slot, len as u8);
        i = i + 1;
    }
    let tree = HuffmanCoding::<TreeCodeToken>::from_lengths(lengths.as_slice())?;
    let mut table: Vec<u8> = Vec::new();
    let mut i: usize = 0;
    while i < 286
        invariant
            table@.len() == i,
            i <= 286,
        decreases 286 - i,
    {
        table.push(0);
        i = i + 1;
    }
    if rows > 286 || distance_rows > 30 {
        return Err(HuffmanError::InvalidLengths);
    }
    build_huffman_coding(&tree, &mut table, bit_reader, rows)?;
    let literal = HuffmanCoding::<LitLenToken>::from_lengths(table.as_slice())?;
    let mut distances: Vec<u8> = Vec::new();
    let mut i: usize = 0;
    while i < 30
        invariant
            distances@.len() == i,
            i <= 30,
        decreases 30 - i,
    {
        distances.push(0);
        i = i + 1;
    }
    build_huffman_coding(&tree, &mut distances, bit_reader, distance_rows)?;
    let distance = HuffmanCoding::<DistanceToken>::from_lengths(distances.as_slice())?;
    Ok((literal, distance))
}

/// A symbol of the code-length alphabet.
#[derive(Clone, Copy, Debug, PartialEq, Eq, Structural)]
pub enum TreeCodeToken {
    Length(u8),
    CopyPrev,
    RepeatZero { base: u16, extra_bits: u8 },
}

impl FromCodeWord for TreeCodeToken {
    open spec fn spec_from_code_word(word: u16) -> Result<Self, HuffmanError> {
        if word <= 15 {
            Ok(TreeCodeToken::Length(word as u8))
        } else if word == 16 {
            Ok(TreeCodeToken::CopyPrev)
        } else if word == 17 {
            Ok(TreeCodeToken::RepeatZero { base: 3, extra_bits: 3 })
        } else if word == 18 {
            Ok(TreeCodeToken::RepeatZero { base: 11, extra_bits: 7 })
        } else {
            Err(HuffmanError::UnknownCodeWord(word))
        }
    }

    fn from_code_word(word: HuffmanCodeWord) -> (r: Result<Self, HuffmanError>) {
        let w = word.0;
        if w <= 15 {
            Ok(TreeCodeToken::Length(w as u8))
        } else if w == 16 {
            Ok(TreeCodeToken::CopyPrev)
        } else if w == 17 {
            Ok(TreeCodeToken::RepeatZero { base: 3, extra_bits: 3 })
        } else if w == 18 {
            Ok(TreeCodeToken::RepeatZero { base: 11, extra_bits: 7 })
        } else {
            Err(HuffmanError::UnknownCodeWord(w))
        }
    }
}

/// A symbol of the literal/length alphabet.
#[derive(Clone, Copy, Debug, PartialEq, Eq, Structural)]
pub enum LitLenToken {
    Literal(u8),
    EndOfBlock,
    Length { base: u16, extra_bits: u8 },
}

/// The base length and number of extra bits of the length symbols 257 to 285.
pub open spec fn length_code(word: int) -> (int, int) {
    if word <= 264 {
        (3 + (word - 257), 0)
    } else if word <= 284 {
        let extra = (word - 261) / 4;
        (pow2((extra + 2) as nat) + 3 + ((word - 265) % 4) * pow2(extra as nat), extra)
    } else {
        (258, 0)
    }
}

impl FromCodeWord for LitLenToken {
    open spec fn spec_from_code_word(word: u16) -> Result<Self, HuffmanError> {
        if word < 256 {
            Ok(LitLenToken::Literal(word as u8))
        } else if word == 256 {
            Ok(LitLenToken::EndOfBlock)
        } else if word <= 285 {
            Ok(
                LitLenToken::Length {
                    base: length_code(word as int).0 as u16,
                    extra_bits: length_code(word as int).1 as u8,
                },
            )
        } else {
            Err(HuffmanError::UnknownCodeWord(word))
        }
    }

    fn from_code_word(word: HuffmanCodeWord) -> (r: Result<Self, HuffmanError>) {
        let w = word.0;
        proof {
            lemma2_to64();
        }
        if w == 256 {
            Ok(LitLenToken::EndOfBlock)
        } else if w < 256 {
            Ok(LitLenToken::Literal(w as u8))
        } else if w <= 264 {
            Ok(LitLenToken::Length { base: 3 + (w - 257), extra_bits: 0 })
        } else if w <= 268 {
            Ok(LitLenToken::Length { base: 11 + (w - 265) * 2, extra_bits: 1 })
        } else if w <= 272 {
            Ok(LitLenToken::Length { base: 19 + (w - 269) * 4, extra_bits: 2 })
        } else if w <= 276 {
            Ok(LitLenToken::Length { base: 35 + (w - 273) * 8, extra_bits: 3 })
        } else if w <= 280 {
            Ok(LitLenToken::Length { base: 67 + (w - 277) * 16, extra_bits: 4 })
        } else if w <= 284 {
            Ok(LitLenToken::Length { base: 131 + (w - 281) * 32, extra_bits: 5 })
        } else if w == 285 {
            Ok(LitLenToken::Length { base: 258, extra_bits: 0 })
        } else {
            Err(HuffmanError::UnknownCodeWord(w))
        }
    }
}

/// A symbol of the distance alphabet: the base distance and how many extra bits follow.
#[derive(Clone, Copy, Debug, PartialEq, Eq, Structural)]
pub struct DistanceToken {
    pub base: u16,
    pub extra_bits: u8,
}

/// The base distance and number of extra bits of distance symbol `word` (at most 29):
/// symbols pair up, each pair doubling the range of the one before.
pub open spec fn distance_code(word: int) -> (int, int) {
    if word <= 3 {
        (word + 1, 0)
    } else {
        let extra = (word - 2) / 2;
        (pow2((extra + 1) as nat) + 1 + (word % 2) * pow2(extra as nat), extra)
    }
}

impl FromCodeWord for DistanceToken {
    open spec fn spec_from_code_word(word: u16) -> Result<Self, HuffmanError> {
        if word <= 29 {
            Ok(
                DistanceToken {
                    base: distance_code(word as int).0 as u16,
                    extra_bits: distance_code(word as int).1 as u8,
                },
            )
        } else {
            Err(HuffmanError::UnknownCodeWord(word))
        }
    }

    fn from_code_word(word: HuffmanCodeWord) -> (r: Result<Self, HuffmanError>) {
        let w = word.0;
        if w > 29 {
            return Err(HuffmanError::UnknownCodeWord(w));
        }
        if w <= 3 {
            return Ok(DistanceToken { base: w + 1, extra_bits: 0 });
        }
        let extra = (w - 2) / 2;
        proof {
            lemma2_to64();
            vstd::bits::lemma_u16_shl_is_mul(1, extra);
            vstd::bits::lemma_u16_shl_is_mul(1, (extra + 1) as u16);
            assert(pow2(extra as nat) <= 0x2000) by {
                if extra < 13 {
                    lemma_pow2_strictly_increases(extra as nat, 13);
                }
            }
            assert(pow2((extra + 1) as nat) <= 0x4000) by {
                if extra < 13 {
                    lemma_pow2_strictly_increases((extra + 1) as nat, 14);
                }
            }
        }
        let low: u16 = 1u16 << extra;
        let high: u16 = 1u16 << (extra + 1);
        Ok(DistanceToken { base: high + 1 + (w % 2) * low, extra_bits: extra as u8 })
    }
}

/// `count_len` never exceeds the number of lengths looked at.
proof fn lemma_count_len_le(ls: Seq<u8>, l: int, upto: int)
    requires
        0 <= upto,
    ensures
        count_len(ls, l, upto) <= upto,
    decreases upto,
{
    if upto > 0 {
        lemma_count_len_le(ls, l, upto - 1);
    }
}

/// `count_len` grows with the prefix.
proof fn lemma_count_len_mono(ls: Seq<u8>, l: int, a: int, b: int)
    requires
        0 <= a <= b,
    ensures
        count_len(ls, l, a) <= count_len(ls, l, b),
    decreases b - a,
{
    if a < b {
        lemma_count_len_mono(ls, l, a, b - 1);
    }
}

/// Once a symbol without a token is found, it stays the first one.
proof fn lemma_first_unknown_stays<T: FromCodeWord>(ls: Seq<u8>, a: int, b: int)
    requires
        0 <= a <= b,
        first_unknown::<T>(ls, a) is Some,
    ensures
        first_unknown::<T>(ls, b) == first_unknown::<T>(ls, a),
    decreases b - a,
{
    if a < b {
        lemma_first_unknown_stays::<T>(ls, a, b - 1);
    }
}

proof fn lemma_shl_pow2(b: u64)
    requires
        b < 64,
    ensures
        (1u64 << b) == pow2(b as nat),
{
    vstd::bits::lemma_u64_pow2_no_overflow(b as nat);
    vstd::bits::lemma_u64_shl_is_mul(1, b);
}

proof fn lemma_pow2_no_overflow_15(e: nat)
    requires
        e <= 15,
    ensures
        pow2(e) <= 0x8000,
{
    lemma2_to64();
    if e < 15 {
        lemma_pow2_strictly_increases(e, 15);
    }
}

} // verus!
