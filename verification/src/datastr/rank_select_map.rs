//! Bit vectors, a rank index over one, and a bit vector that clears in constant time.
use vstd::prelude::*;

verus! {

/// Number of bits in one storage word.
pub const WORD_BITS: usize = 64;

/// Setting bit `b` of a word changes that bit and no other.
proof fn lemma_set_bit(w: u64, b: u64, c: u64)
    requires
        b < 64,
        c < 64,
    ensures
        ((w | (1u64 << b)) >> c) & 1 == (if c == b { 1u64 } else { (w >> c) & 1 }),
{
    assert(((w | (1u64 << b)) >> c) & 1 == (if c == b { 1u64 } else { (w >> c) & 1 })) by (bit_vector)
        requires
            b < 64,
            c < 64,
    ;
}

/// The empty word has no bit set.
proof fn lemma_zero_bit(c: u64)
    requires
        c < 64,
    ensures
        (0u64 >> c) & 1 == 0,
{
    assert((0u64 >> c) & 1 == 0) by (bit_vector)
        requires
            c < 64,
    ;
}

/// Whether bit `c` of word `w` is set.
pub open spec fn word_bit(w: u64, c: int) -> bool {
    (w >> (c as u64)) & 1 == 1
}

/// A fixed number of bits, packed into words.
#[derive(Debug)]
pub struct BitVec {
    words: Vec<u64>,
    size: usize,
}

impl BitVec {
    /// Representation invariant: enough words for the bits.
    pub closed spec fn wf(&self) -> bool {
        &&& self.words.len() * 64 >= self.size
        &&& self.words.len() == (self.size + 63) / 64
    }

    /// The bits as booleans.
    pub closed spec fn view(&self) -> Seq<bool> {
        Seq::new(self.size as nat, |i: int| word_bit(self.words[i / 64], i % 64))
    }

    /// `size` bits, none of them set.
    pub fn new(size: usize) -> (r: Self)
        ensures
            r.wf(),
            r@.len() == size,
            forall|i: int| 0 <= i < size ==> !r@[i],
    {
        let n_words: usize = size / 64 + if size % 64 != 0 { 1 } else { 0 };
        let mut words: Vec<u64> = Vec::new();
        let mut i: usize = 0;
        while i < n_words
            invariant
                i <= n_words,
                words.len() == i,
                forall|j: int| 0 <= j < i ==> words[j] == 0u64,
            decreases n_words - i,
        {
            words.push(0u64);
            i += 1;
        }
        let r = BitVec { words, size };
        proof {
            assert forall|i: int| 0 <= i < size implies !r@[i] by {
                lemma_zero_bit((i % 64) as u64);
            }
        }
        r
    }

    /// Number of bits.
    pub fn len(&self) -> (n: usize)
        ensures
            n == self@.len(),
    {
        self.size
    }

    /// Reads bit `i`.
    pub fn get(&self, i: usize) -> (b: bool)
        requires
            self.wf(),
            i < self@.len(),
        ensures
            b == self@[i as int],
    {
        let w: u64 = self.words[i / 64];
        let c: u64 = (i % 64) as u64;
        (w >> c) & 1 == 1
    }

    /// Sets bit `i`.
    pub fn set(&mut self, i: usize)
        requires
            old(self).wf(),
            i < old(self)@.len(),
        ensures
            final(self).wf(),
            final(self)@ == old(self)@.update(i as int, true),
    {
        let w: u64 = self.words[i / 64];
        let c: u64 = (i % 64) as u64;
        self.words[i / 64] = w | (1u64 << c);
        proof {
            assert forall|j: int| 0 <= j < self.size implies self@[j] == old(self)@.update(
                i as int,
                true,
            )[j] by {
                if j / 64 == i as int / 64 {
                    lemma_set_bit(w, c, (j % 64) as u64);
                }
            }
            assert(self@ =~= old(self)@.update(i as int, true));
        }
    }
}

/// Number of set bits among the first `i` bits.
pub open spec fn spec_rank(bits: Seq<bool>, i: int) -> nat
    decreases i,
{
    if i <= 0 {
        0
    } else {
        spec_rank(bits, i - 1) + if bits[i - 1] { 1nat } else { 0nat }
    }
}

/// The rank never exceeds the position.
pub proof fn lemma_rank_bounded(bits: Seq<bool>, i: int)
    requires
        0 <= i,
    ensures
        spec_rank(bits, i) <= i,
    decreases i,
{
    if i > 0 {
        lemma_rank_bounded(bits, i - 1);
    }
}

/// The rank grows with the position, and strictly across a set bit.
pub proof fn lemma_rank_monotone(bits: Seq<bool>, i: int, j: int)
    requires
        0 <= i <= j,
    ensures
        spec_rank(bits, i) <= spec_rank(bits, j),
        i < j && bits[i] ==> spec_rank(bits, i) < spec_rank(bits, j),
    decreases j - i,
{
    if i < j {
        if i + 1 < j {
            lemma_rank_monotone(bits, i, j - 1);
        } else {
            assert(spec_rank(bits, j) == spec_rank(bits, i) + if bits[i] { 1nat } else { 0nat });
        }
    }
}

/// Maps the positions of the set bits of a bit vector to their ranks, with
/// the help of one stored rank per word.
#[derive(Debug)]
pub struct RankSelectMap {
    contained: BitVec,
    prefix: Vec<usize>,
}

impl RankSelectMap {
    /// Representation invariant: `prefix[j]` is the rank at the start of word `j`.
    pub closed spec fn wf(&self) -> bool {
        &&& self.contained.wf()
        &&& self.prefix.len() == self.contained@.len() / 64 + 1
        &&& forall|j: int|
            0 <= j < self.prefix.len() ==> self.prefix[j] == spec_rank(self.contained@, j * 64)
    }

    /// The bits that the map was built over.
    pub closed spec fn bits(&self) -> Seq<bool> {
        self.contained@
    }

    /// Builds the index over `bits`.
    pub fn new(bits: BitVec) -> (r: Self)
        requires
            bits.wf(),
        ensures
            r.wf(),
            r.bits() == bits@,
    {
        let n: usize = bits.len();
        let mut prefix: Vec<usize> = Vec::new();
        prefix.push(0);
        let mut count: usize = 0;
        let mut i: usize = 0;
        while i < n
            invariant
                i <= n,
                n == bits@.len(),
                bits.wf(),
                count == spec_rank(bits@, i as int),
                count <= i,
                prefix.len() == i / 64 + 1,
                forall|j: int| 0 <= j < prefix.len() ==> prefix[j] == spec_rank(bits@, j * 64),
            decreases n - i,
        {
            if bits.get(i) {
                count += 1;
            }
            i += 1;
            if i % 64 == 0 {
                prefix.push(count);
            }
        }
        RankSelectMap { contained: bits, prefix }
    }

    /// Number of positions.
    pub fn len(&self) -> (n: usize)
        ensures
            n == self.bits().len(),
    {
        self.contained.len()
    }

    /// Number of set bits before position `i`.
    pub fn rank(&self, i: usize) -> (r: usize)
        requires
            self.wf(),
            i <= self.bits().len(),
        ensures
            r == spec_rank(self.bits(), i as int),
    {
        let block: usize = i / 64;
        let mut count: usize = self.prefix[block];
        let mut k: usize = block * 64;
        proof {
            lemma_rank_bounded(self.contained@, k as int);
        }
        while k < i
            invariant
                block * 64 <= k <= i,
                i <= self.contained@.len(),
                self.contained.wf(),
                count == spec_rank(self.contained@, k as int),
                count <= k,
            decreases i - k,
        {
            if self.contained.get(k) {
                count += 1;
            }
            k += 1;
        }
        count
    }

    /// The rank of position `i` if its bit is set.
    pub fn get(&self, i: usize) -> (r: Option<usize>)
        requires
            self.wf(),
            i < self.bits().len(),
        ensures
            r == (if self.bits()[i as int] {
                Some(spec_rank(self.bits(), i as int) as usize)
            } else {
                None
            }),
    {
        if self.contained.get(i) {
            Some(self.rank(i))
        } else {
            None
        }
    }
}

/// A rank map that also finds the position of the set bit with a given rank.
#[derive(Debug)]
pub struct InvertableRankSelectMap {
    map: RankSelectMap,
    positions: Vec<usize>,
}

impl InvertableRankSelectMap {
    /// Representation invariant: `positions[k]` is the position of the set bit with rank `k`.
    pub closed spec fn wf(&self) -> bool {
        &&& self.map.wf()
        &&& self.positions@.len() == spec_rank(self.map.bits(), self.map.bits().len() as int)
        &&& forall|k: int|
            0 <= k < self.positions@.len() ==> (#[trigger] self.positions@[k]) < self.map.bits().len()
                && self.map.bits()[self.positions@[k] as int] && spec_rank(
                self.map.bits(),
                self.positions@[k] as int,
            ) == k
    }

    /// The bits that the map was built over.
    pub closed spec fn bits(&self) -> Seq<bool> {
        self.map.bits()
    }

    /// Number of set bits.
    pub open spec fn spec_count(&self) -> nat {
        spec_rank(self.bits(), self.bits().len() as int)
    }

    /// Builds the map over the bits of `map`.
    pub fn new(map: RankSelectMap) -> (r: Self)
        requires
            map.wf(),
        ensures
            r.wf(),
            r.bits() == map.bits(),
    {
        let n = map.len();
        let mut positions: Vec<usize> = Vec::new();
        let mut i: usize = 0;
        while i < n
            invariant
                i <= n,
                n == map.bits().len(),
                map.wf(),
                positions@.len() == spec_rank(map.bits(), i as int),
                forall|k: int|
                    0 <= k < positions@.len() ==> (#[trigger] positions@[k]) < i && map.bits()[positions@[k] as int]
                        && spec_rank(map.bits(), positions@[k] as int) == k,
            decreases n - i,
        {
            if map.get(i).is_some() {
                positions.push(i);
            }
            i += 1;
        }
        InvertableRankSelectMap { map, positions }
    }

    /// Number of positions.
    pub fn len(&self) -> (n: usize)
        ensures
            n == self.bits().len(),
    {
        self.map.len()
    }

    /// Number of set bits.
    pub fn count(&self) -> (n: usize)
        requires
            self.wf(),
        ensures
            n == self.spec_count(),
    {
        self.positions.len()
    }

    /// The rank of position `i` if its bit is set.
    pub fn get(&self, i: usize) -> (r: Option<usize>)
        requires
            self.wf(),
            i < self.bits().len(),
        ensures
            r == (if self.bits()[i as int] {
                Some(spec_rank(self.bits(), i as int) as usize)
            } else {
                None
            }),
            r matches Some(rank) ==> rank < self.spec_count() && rank == spec_rank(
                self.bits(),
                i as int,
            ),
    {
        proof {
            lemma_rank_monotone(self.map.bits(), i as int, self.map.bits().len() as int);
            lemma_rank_bounded(self.map.bits(), i as int);
        }
        self.map.get(i)
    }

    /// The position of the set bit with rank `rank`.
    pub fn inverse(&self, rank: usize) -> (position: usize)
        requires
            self.wf(),
            rank < self.spec_count(),
        ensures
            position < self.bits().len(),
            self.bits()[position as int],
            spec_rank(self.bits(), position as int) == rank,
    {
        self.positions[rank]
    }
}

/// A bit vector whose bits are all cleared at once by starting a new epoch.
#[derive(Debug)]
pub struct FastClearBitVec {
    stamps: Vec<u32>,
    epoch: u32,
}

impl FastClearBitVec {
    /// Representation invariant: no stamp is from a later epoch, and the epoch is not zero.
    pub closed spec fn wf(&self) -> bool {
        &&& self.epoch >= 1
        &&& forall|i: int| 0 <= i < self.stamps.len() ==> self.stamps[i] <= self.epoch
    }

    /// The bits as booleans.
    pub closed spec fn view(&self) -> Seq<bool> {
        Seq::new(self.stamps.len() as nat, |i: int| self.stamps[i] == self.epoch)
    }

    /// `size` bits, none of them set.
    pub fn new(size: usize) -> (r: Self)
        ensures
            r.wf(),
            r@.len() == size,
            forall|i: int| 0 <= i < size ==> !r@[i],
    {
        let mut stamps: Vec<u32> = Vec::new();
        let mut i: usize = 0;
        while i < size
            invariant
                i <= size,
                stamps.len() == i,
                forall|j: int| 0 <= j < i ==> stamps[j] == 0,
            decreases size - i,
        {
            stamps.push(0);
            i += 1;
        }
        FastClearBitVec { stamps, epoch: 1 }
    }

    /// Reads bit `i`.
    pub fn get(&self, i: usize) -> (b: bool)
        requires
            i < self@.len(),
        ensures
            b == self@[i as int],
    {
        self.stamps[i] == self.epoch
    }

    /// Sets bit `i`.
    pub fn set(&mut self, i: usize)
        requires
            old(self).wf(),
            i < old(self)@.len(),
        ensures
            final(self).wf(),
            final(self)@ == old(self)@.update(i as int, true),
    {
        self.stamps[i] = self.epoch;
        assert(self@ =~= old(self)@.update(i as int, true));
    }

    /// Clears every bit.
    pub fn clear(&mut self)
        requires
            old(self).wf(),
        ensures
            final(self).wf(),
            final(self)@.len() == old(self)@.len(),
            forall|i: int| 0 <= i < final(self)@.len() ==> !final(self)@[i],
    {
        if self.epoch < u32::MAX {
            self.epoch += 1;
        } else {
            let n = self.stamps.len();
            let mut i: usize = 0;
            while i < n
                invariant
                    i <= n,
                    n == self.stamps.len(),
                    forall|j: int| 0 <= j < i ==> self.stamps[j] == 0,
                decreases n - i,
            {
                self.stamps[i] = 0;
                i += 1;
            }
            self.epoch = 1;
        }
    }
}

} // verus!
