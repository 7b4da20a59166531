//! Tags packed into the unused low and high bits of a pointer word.

use vstd::prelude::*;

verus! {

/// Number of bits in a pointer word.
pub const WORD_BITS: usize = 64;

/// Bit `i` of the word `x`.
pub open spec fn bit(x: u64, i: u64) -> bool {
    (x >> i) & 1u64 == 1u64
}

/// The `n` bits of `x` that start at bit `skip`, lowest first.
pub open spec fn bits_at(x: u64, skip: nat, n: nat) -> Seq<bool> {
    Seq::new(n, |i: int| bit(x, (skip + i) as u64))
}

/// Bit `j` of the word after `bits` were written from bit `skip` on into `x`.
pub open spec fn written_bit(x: u64, bits: Seq<bool>, skip: nat, j: u64) -> bool {
    if skip <= j < skip + bits.len() {
        bits[j - skip]
    } else {
        bit(x, j)
    }
}

/// Where a tag lives in a pointer word.
pub enum TagPosition {
    Lo,
    Hi,
}

impl TagPosition {
    /// The first bit of an `n`-bit tag at this position.
    pub open spec fn skip_of(&self, n: usize) -> usize {
        match self {
            TagPosition::Lo => 0,
            TagPosition::Hi => (WORD_BITS - n) as usize,
        }
    }

    /// The first bit of an `N`-bit tag at this position: low tags start at bit 0, high tags end at
    /// the top bit.
    pub fn to_skip<T: Tag<N>, const N: usize>(&self) -> (r: usize)
        requires
            N <= WORD_BITS,
        ensures
            r == self.skip_of(N),
    {
        match self {
            TagPosition::Lo => 0,
            TagPosition::Hi => WORD_BITS - N,
        }
    }
}

/// A value that serializes to `N` bits and can be packed into a pointer word.
pub trait Tag<const N: usize>: Copy {
    /// The tag that the bits `bits`, lowest first, stand for.
    spec fn from_bits(bits: Seq<bool>) -> Self;

    /// The bits of this tag, lowest first.
    spec fn to_bits(self) -> Seq<bool>;

    /// Builds the tag from its bits, lowest first.
    fn deserialize(bits: Vec<bool>) -> (r: Self)
        requires
            bits@.len() == N,
        ensures
            r == Self::from_bits(bits@),
    ;

    /// The bits of the tag, lowest first.
    fn serialize(self) -> (r: Vec<bool>)
        ensures
            r@ == self.to_bits(),
            r@.len() == N,
    ;
}

/// The empty tag: no bits, no state.
#[derive(Debug, Clone, Copy)]
pub struct NullTag;

impl Tag<0> for NullTag {
    open spec fn from_bits(bits: Seq<bool>) -> NullTag {
        NullTag
    }

    open spec fn to_bits(self) -> Seq<bool> {
        Seq::empty()
    }

    fn deserialize(bits: Vec<bool>) -> (r: NullTag) {
        NullTag
    }

    fn serialize(self) -> (r: Vec<bool>) {
        let r: Vec<bool> = Vec::new();
        assert(r@ =~= Seq::<bool>::empty());
        r
    }
}

/// A tag of two flags, the first in the lower bit.
#[derive(Debug, Clone, Copy, PartialEq, Eq)]
pub struct PairTag(pub bool, pub bool);

impl Tag<2> for PairTag {
    open spec fn from_bits(bits: Seq<bool>) -> PairTag {
        PairTag(bits[0], bits[1])
    }

    open spec fn to_bits(self) -> Seq<bool> {
        seq![self.0, self.1]
    }

    fn deserialize(bits: Vec<bool>) -> (r: PairTag) {
        PairTag(bits[0], bits[1])
    }

    fn serialize(self) -> (r: Vec<bool>) {
        let mut r: Vec<bool> = Vec::new();
        r.push(self.0);
        r.push(self.1);
        assert(r@ =~= seq![self.0, self.1]);
        r
    }
}

proof fn lemma_write_bit(x: u64, v: u64, i: u64, j: u64)
    requires
        i < 64,
        j < 64,
        v <= 1,
    ensures
        bit((x & !(1u64 << i)) | (v << i), j) == if j == i {
            v == 1
        } else {
            bit(x, j)
        },
{
    assert(((((x & !(1u64 << i)) | (v << i)) >> j) & 1u64 == 1u64) == if j == i {
        v == 1u64
    } else {
        (x >> j) & 1u64 == 1u64
    }) by (bit_vector)
        requires
            i < 64,
            j < 64,
            v <= 1,
    ;
}

proof fn lemma_strip_bit(x: u64, n1: u64, n2: u64, j: u64)
    requires
        n1 < 64,
        n2 < 64,
        j < 64,
    ensures
        bit(x & (u64::MAX << n1) & (u64::MAX >> n2), j) == (n1 <= j && j < 64 - n2 && bit(x, j)),
{
    assert((((x & (u64::MAX << n1) & (u64::MAX >> n2)) >> j) & 1u64 == 1u64) == (n1 <= j && j < 64
        - n2 && (x >> j) & 1u64 == 1u64)) by (bit_vector)
        requires
            n1 < 64,
            n2 < 64,
            j < 64,
    ;
}

/// Zeroes the low `N1` tag bits and the high `N2` tag bits of a pointer word.
pub fn strip<T1: Tag<N1>, T2: Tag<N2>, const N1: usize, const N2: usize>(data: u64) -> (r: u64)
    requires
        N1 < WORD_BITS,
        N2 < WORD_BITS,
    ensures
        forall|j: u64|
            j < WORD_BITS ==> #[trigger] bit(r, j) == (N1 <= j && j < WORD_BITS - N2 && bit(data, j)),
{
    let n1 = N1 as u64;
    let n2 = N2 as u64;
    let mask_lo: u64 = u64::MAX << n1;
    let mask_hi: u64 = u64::MAX >> n2;
    let r = data & mask_lo & mask_hi;
    assert forall|j: u64| j < WORD_BITS implies #[trigger] bit(r, j) == (N1 <= j && j < WORD_BITS
        - N2 && bit(data, j)) by {
        lemma_strip_bit(data, n1, n2, j);
    }
    r
}

/// Reads the `N` bits of the tag at `position` in a pointer word, lowest first.
pub fn read_tag<T: Tag<N>, const N: usize>(data: u64, position: TagPosition) -> (r: Vec<bool>)
    requires
        N <= WORD_BITS,
    ensures
        r@ == bits_at(data, position.skip_of(N) as nat, N as nat),
{
    let skip = position.to_skip::<T, N>();
    let mut bits: Vec<bool> = Vec::new();
    let mut i: usize = 0;
    while i < N
        invariant
            i <= N,
            N <= WORD_BITS,
            skip == position.skip_of(N),
            skip + N <= WORD_BITS,
            bits@ =~= bits_at(data, skip as nat, i as nat),
        decreases N - i,
    {
        let index = (skip + i) as u64;
        bits.push(((data >> index) & 1) == 1);
        i = i + 1;
        assert(bits@ =~= bits_at(data, skip as nat, i as nat));
    }
    bits
}

/// Writes `bits` as the tag at `position` of a pointer word; every other bit stays as it was.
pub fn set_tag<T: Tag<N>, const N: usize>(data: u64, bits: Vec<bool>, position: TagPosition) -> (r:
    u64)
    requires
        N <= WORD_BITS,
        bits@.len() == N,
    ensures
        forall|j: u64|
            j < WORD_BITS ==> #[trigger] bit(r, j) == written_bit(
                data,
                bits@,
                position.skip_of(N) as nat,
                j,
            ),
{
    let skip = position.to_skip::<T, N>();
    let mut word = data;
    let mut i: usize = 0;
    while i < N
        invariant
            i <= N,
            N <= WORD_BITS,
            bits@.len() == N,
            skip == position.skip_of(N),
            skip + N <= WORD_BITS,
            forall|j: u64|
                j < WORD_BITS ==> #[trigger] bit(word, j) == if skip <= j < skip + i {
                    bits@[j - skip]
                } else {
                    bit(data, j)
                },
        decreases N - i,
    {
        let index = (skip + i) as u64;
        let value: u64 = if bits[i] {
            1
        } else {
            0
        };
        let old_word = word;
        word = (word & !(1u64 << index)) | (value << index);
        assert forall|j: u64| j < WORD_BITS implies #[trigger] bit(word, j) == if skip <= j < skip
            + i + 1 {
            bits@[j - skip]
        } else {
            bit(data, j)
        } by {
            lemma_write_bit(old_word, value, index, j);
        }
        i = i + 1;
    }
    word
}

/// Reading a tag back after writing it gives the bits that were written, and writing a tag
/// leaves every bit outside it as it was.
pub proof fn lemma_tag_round_trip(data: u64, written: u64, bits: Seq<bool>, skip: nat)
    requires
        skip + bits.len() <= WORD_BITS,
        forall|j: u64| j < WORD_BITS ==> #[trigger] bit(written, j) == written_bit(data, bits, skip, j),
    ensures
        bits_at(written, skip, bits.len()) == bits,
        forall|j: u64|
            j < WORD_BITS && !(skip <= j < skip + bits.len()) ==> #[trigger] bit(written, j) == bit(
                data,
                j,
            ),
{
    assert forall|i: int| 0 <= i < bits.len() implies #[trigger] bits_at(written, skip, bits.len())[i]
        == bits[i] by {
        let j = (skip + i) as u64;
        assert(bit(written, j) == written_bit(data, bits, skip, j));
    }
    assert(bits_at(written, skip, bits.len()) =~= bits);
}

} // verus!
