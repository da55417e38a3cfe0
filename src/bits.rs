//! A compact, append-only sequence of booleans packed into 64-bit words.
use vstd::prelude::*;
use crate::grid::{Grid, ceil_sqrt, lemma_side_exists, side_for};

verus! {

/// Number of bits held by one backing word.
pub const NUM_BITS: u64 = 64;

/// Whether bit `i` of the word `w` is on.
pub open spec fn bit_of(w: u64, i: u64) -> bool {
    (w >> i) & 1u64 == 1u64
}

/// Number of positions of `s` that hold `true`.
pub open spec fn count_true(s: Seq<bool>) -> nat
    decreases s.len(),
{
    if s.len() == 0 {
        0
    } else {
        count_true(s.drop_last()) + if s.last() { 1nat } else { 0nat }
    }
}

/// Number of positions at which two equally long sequences differ.
pub open spec fn count_differences(a: Seq<bool>, b: Seq<bool>) -> nat
    decreases a.len(),
{
    if a.len() == 0 {
        0
    } else {
        count_differences(a.drop_last(), b.drop_last()) + if a.last() != b.last() {
            1nat
        } else {
            0nat
        }
    }
}

/// The elementwise exclusive or of two sequences, as long as the first.
pub open spec fn xor_seq(a: Seq<bool>, b: Seq<bool>) -> Seq<bool> {
    Seq::new(a.len(), |k: int| a[k] != b[k])
}

proof fn lemma_set_bit(w: u64, i: u64, j: u64)
    requires
        i < 64,
        j < 64,
    ensures
        ((w | (1u64 << i)) >> j) & 1u64 == 1u64 <==> (i == j || (w >> j) & 1u64 == 1u64),
        ((w & !(1u64 << i)) >> j) & 1u64 == 1u64 <==> (i != j && (w >> j) & 1u64 == 1u64),
{
    assert(((w | (1u64 << i)) >> j) & 1u64 == 1u64 <==> (i == j || (w >> j) & 1u64 == 1u64))
        by (bit_vector)
        requires
            i < 64,
            j < 64,
    ;
    assert(((w & !(1u64 << i)) >> j) & 1u64 == 1u64 <==> (i != j && (w >> j) & 1u64 == 1u64))
        by (bit_vector)
        requires
            i < 64,
            j < 64,
    ;
}

proof fn lemma_xor_bit(a: u64, b: u64, j: u64)
    requires
        j < 64,
    ensures
        ((a ^ b) >> j) & 1u64 == 1u64 <==> (((a >> j) & 1u64 == 1u64) != ((b >> j) & 1u64
            == 1u64)),
{
    assert(((a ^ b) >> j) & 1u64 == 1u64 <==> (((a >> j) & 1u64 == 1u64) != ((b >> j) & 1u64
        == 1u64))) by (bit_vector)
        requires
            j < 64,
    ;
}

/// The number of `true` positions grows by one exactly when a `true` is appended.
pub proof fn lemma_count_true_push(s: Seq<bool>, b: bool)
    ensures
        count_true(s.push(b)) == count_true(s) + if b { 1nat } else { 0nat },
{
    assert(s.push(b).drop_last() =~= s);
}

/// Counting the positions of an exclusive or counts the differences.
pub proof fn lemma_count_xor(a: Seq<bool>, b: Seq<bool>)
    requires
        a.len() == b.len(),
    ensures
        count_true(xor_seq(a, b)) == count_differences(a, b),
    decreases a.len(),
{
    if a.len() > 0 {
        assert(xor_seq(a, b).drop_last() =~= xor_seq(a.drop_last(), b.drop_last()));
        lemma_count_xor(a.drop_last(), b.drop_last());
    }
}

pub proof fn lemma_count_true_bound(s: Seq<bool>)
    ensures
        count_true(s) <= s.len(),
    decreases s.len(),
{
    if s.len() > 0 {
        lemma_count_true_bound(s.drop_last());
    }
}

/// A sequence of booleans, packed 64 to a word.
#[derive(Clone, Debug)]
pub struct BitArray {
    bits: Vec<u64>,
    size: u64,
}

impl View for BitArray {
    type V = Seq<bool>;

    closed spec fn view(&self) -> Seq<bool> {
        Seq::new(
            self.size as nat,
            |k: int| k / 64 < self.bits@.len() && bit_of(self.bits@[k / 64], (k % 64) as u64),
        )
    }
}

impl BitArray {
    /// The backing words are exactly those that the logical bits need.
    pub closed spec fn wf(&self) -> bool {
        self.bits@.len() == (self.size as int + 63) / 64
    }

    /// An empty bit sequence.
    pub fn new() -> (r: BitArray)
        ensures
            r.wf(),
            r@ == Seq::<bool>::empty(),
    {
        let r = BitArray { bits: Vec::new(), size: 0 };
        assert(r@ =~= Seq::<bool>::empty());
        r
    }

    /// The number of bits held by one backing word.
    pub fn word_size() -> (r: u64)
        ensures
            r == 64,
    {
        NUM_BITS
    }

    /// The number of bits held.
    pub fn len(&self) -> (r: u64)
        ensures
            r == self@.len(),
    {
        self.size
    }

    /// Appends one bit; a new word is allocated only when every word is full.
    pub fn add(&mut self, value: bool)
        requires
            old(self).wf(),
            old(self)@.len() < u64::MAX,
        ensures
            final(self).wf(),
            final(self)@ == old(self)@.push(value),
    {
        if self.size % NUM_BITS == 0 {
            self.bits.push(0);
            proof {
                let n = old(self).bits@.len();
                let size = old(self).size;
                assert forall|k: int| 0 <= k < self.size implies self@[k] == old(self)@[k] by {
                    assert(k / 64 < n) by (nonlinear_arith)
                        requires
                            0 <= k < size,
                            n == (size as int + 63) / 64,
                    ;
                }
            }
        }
        let ghost before = self@;
        self.size = self.size + 1;
        proof {
            assert forall|k: int| 0 <= k < self.size - 1 implies self@[k] == before[k] by {}
            assert(self.bits@.len() == (self.size as int + 63) / 64);
            assert((self.size - 1) as int / 64 < self.bits@.len());
        }
        self.set_bit(self.size - 1, value);
        proof {
            assert(self@ =~= old(self)@.push(value));
        }
    }

    /// Sets the bit `index`, which must lie in a word already allocated.
    fn set_bit(&mut self, index: u64, value: bool)
        requires
            (index as int) / 64 < old(self).bits@.len(),
        ensures
            final(self).size == old(self).size,
            final(self).bits@.len() == old(self).bits@.len(),
            forall|k: int|
                0 <= k < old(self)@.len() ==> #[trigger] final(self)@[k] == if k == index {
                    value
                } else {
                    old(self)@[k]
                },
    {
        let n = self.bits.len();
        assert(index / NUM_BITS < n);
        let word = (index / NUM_BITS) as usize;
        let offset = index % NUM_BITS;
        let mask: u64 = 1u64 << offset;
        let old_word = self.bits[word];
        if value {
            self.bits.set(word, old_word | mask);
        } else {
            self.bits.set(word, old_word & !mask);
        }
        proof {
            assert forall|k: int| 0 <= k < old(self)@.len() implies #[trigger] self@[k] == if k
                == index {
                value
            } else {
                old(self)@[k]
            } by {
                let kw = k / 64;
                let ko = (k % 64) as u64;
                assert(k == kw * 64 + ko);
                assert(index == word * 64 + offset);
                if kw == word {
                    lemma_set_bit(old_word, offset, ko);
                }
            }
        }
    }

    /// Sets bit `index` to `value`.
    pub fn set(&mut self, index: u64, value: bool)
        requires
            old(self).wf(),
            index < old(self)@.len(),
        ensures
            final(self).wf(),
            final(self)@ == old(self)@.update(index as int, value),
    {
        proof {
            assert((index as int) / 64 < self.bits@.len()) by (nonlinear_arith)
                requires
                    index < self.size,
                    self.bits@.len() == (self.size as int + 63) / 64,
            ;
        }
        self.set_bit(index, value);
        proof {
            assert(self@ =~= old(self)@.update(index as int, value));
        }
    }

    /// Whether bit `index` is on.
    pub fn is_set(&self, index: u64) -> (r: bool)
        requires
            index < self@.len(),
        ensures
            r == self@[index as int],
    {
        let word = index / NUM_BITS;
        if word < self.bits.len() as u64 {
            let w = self.bits[word as usize];
            (w >> (index % NUM_BITS)) & 1u64 == 1u64
        } else {
            false
        }
    }

    /// The number of bits that are on.
    pub fn count_bits_on(&self) -> (r: u32)
        requires
            self@.len() <= u32::MAX,
        ensures
            r == count_true(self@),
    {
        let mut count: u32 = 0;
        let mut i: u64 = 0;
        while i < self.size
            invariant
                    self.size <= u32::MAX,
                i <= self.size,
                count == count_true(self@.subrange(0, i as int)),
            decreases self.size - i,
        {
            proof {
                assert(self@.subrange(0, i + 1) =~= self@.subrange(0, i as int).push(self@[i as int]));
                lemma_count_true_push(self@.subrange(0, i as int), self@[i as int]);
                lemma_count_true_bound(self@.subrange(0, i as int));
            }
            if self.is_set(i) {
                count = count + 1;
            }
            i = i + 1;
        }
        proof {
            assert(self@.subrange(0, self.size as int) =~= self@);
        }
        count
    }

    /// The bitwise exclusive or of two bit sequences of equal length.
    pub fn xor(&self, rhs: &BitArray) -> (r: BitArray)
        requires
            self.wf(),
            rhs.wf(),
            self@.len() == rhs@.len(),
        ensures
            r.wf(),
            r@ == xor_seq(self@, rhs@),
    {
        let mut words: Vec<u64> = Vec::new();
        let n = self.bits.len();
        let mut i: usize = 0;
        while i < n
            invariant
                n == self.bits@.len(),
                n == rhs.bits@.len(),
                i <= n,
                words@.len() == i,
                forall|j: int| 0 <= j < i ==> words@[j] == self.bits@[j] ^ rhs.bits@[j],
            decreases n - i,
        {
            words.push(self.bits[i] ^ rhs.bits[i]);
            i = i + 1;
        }
        let r = BitArray { bits: words, size: self.size };
        proof {
            assert forall|k: int| 0 <= k < self.size implies #[trigger] r@[k] == (self@[k]
                != rhs@[k]) by {
                assert(k / 64 < n) by (nonlinear_arith)
                    requires
                        0 <= k < self.size,
                        n == (self.size as int + 63) / 64,
                ;
                lemma_xor_bit(self.bits@[k / 64], rhs.bits@[k / 64], (k % 64) as u64);
            }
            assert(r@ =~= xor_seq(self@, rhs@));
        }
        r
    }

    /// Whether two bit sequences hold the same bits.
    pub fn equals(&self, other: &BitArray) -> (r: bool)
        requires
        ensures
            r == (self@ == other@),
    {
        if self.size != other.size {
            assert(self@.len() != other@.len());
            return false;
        }
        let mut i: u64 = 0;
        while i < self.size
            invariant
                        self.size == other.size,
                i <= self.size,
                forall|k: int| 0 <= k < i ==> self@[k] == other@[k],
            decreases self.size - i,
        {
            if self.is_set(i) != other.is_set(i) {
                return false;
            }
            i = i + 1;
        }
        proof {
            assert(self@ =~= other@);
        }
        true
    }
}

impl PartialEq for BitArray {
    fn eq(&self, other: &BitArray) -> (r: bool) {
        self.equals(other)
    }
}

impl vstd::std_specs::cmp::PartialEqSpecImpl for BitArray {
    open spec fn obeys_eq_spec() -> bool {
        true
    }

    open spec fn eq_spec(&self, other: &BitArray) -> bool {
        self@ == other@
    }
}

/// The Hamming distance between two bit sequences of equal length.
pub fn distance(b1: &BitArray, b2: &BitArray) -> (r: u32)
    requires
        b1.wf(),
        b2.wf(),
        b1@.len() == b2@.len(),
        b1@.len() <= u32::MAX,
    ensures
        r == count_differences(b1@, b2@),
{
    let x = b1.xor(b2);
    proof {
        lemma_count_xor(b1@, b2@);
    }
    x.count_bits_on()
}

/// Each bit sequence is at distance zero from itself.
pub proof fn lemma_distance_to_self(s: Seq<bool>)
    ensures
        count_differences(s, s) == 0,
    decreases s.len(),
{
    if s.len() > 0 {
        lemma_distance_to_self(s.drop_last());
    }
}

/// The distance between two bit sequences does not depend on their order.
pub proof fn lemma_distance_symmetric(a: Seq<bool>, b: Seq<bool>)
    requires
        a.len() == b.len(),
    ensures
        count_differences(a, b) == count_differences(b, a),
    decreases a.len(),
{
    if a.len() > 0 {
        lemma_distance_symmetric(a.drop_last(), b.drop_last());
    }
}

impl BitArray {
    /// The number of bits that are on, whatever the length.
    fn count_on(&self) -> (r: u64)
        ensures
            r == count_true(self@),
    {
        let mut count: u64 = 0;
        let mut i: u64 = 0;
        while i < self.size
            invariant
                i <= self.size,
                count == count_true(self@.subrange(0, i as int)),
                count <= i,
            decreases self.size - i,
        {
            proof {
                assert(self@.subrange(0, i + 1) =~= self@.subrange(0, i as int).push(self@[i as int]));
                lemma_count_true_push(self@.subrange(0, i as int), self@[i as int]);
            }
            if self.is_set(i) {
                count = count + 1;
            }
            i = i + 1;
        }
        proof {
            assert(self@.subrange(0, self.size as int) =~= self@);
        }
        count
    }
}

impl Grid<bool> for BitArray {
    open spec fn cells(&self) -> Seq<bool> {
        self@
    }

    open spec fn side_spec(&self) -> nat {
        side_for(self@.len())
    }

    open spec fn grid_wf(&self) -> bool {
        self.wf() && self@.len() <= usize::MAX
    }

    open spec fn blank() -> bool {
        false
    }

    /// A window becomes an on bit when fewer of its bits are on than the distance.
    open spec fn pixel_for(&self, distance: u32, kernel_size: usize) -> bool {
        count_true(self@) < distance
    }

    proof fn lemma_grid_side(&self) {
        lemma_side_exists(self@.len());
    }

    fn add(&mut self, pixel: bool) {
        self.add(pixel);
    }

    fn get(&self, x: usize, y: usize) -> bool {
        let side = Grid::side(self);
        self.is_set((y * side + x) as u64)
    }

    fn side(&self) -> usize {
        ceil_sqrt(self.len() as usize)
    }

    fn len(&self) -> usize {
        self.len() as usize
    }

    fn blank_cell() -> bool {
        false
    }

    fn default(&self) -> BitArray {
        BitArray::new()
    }

    fn pixelize(&self, distance: u32, kernel_size: usize) -> bool {
        self.count_on() < distance as u64
    }
}

/// `distance(b, b)` is zero for every bit sequence `b`, and `distance(a, b)` equals
/// `distance(b, a)` for bit sequences of equal length: both are the number of positions at
/// which `is_set` differs.
pub proof fn lemma_bit_array_distance(a: &BitArray, b: &BitArray)
    ensures
        count_differences(a@, a@) == 0,
        a@.len() == b@.len() ==> count_differences(a@, b@) == count_differences(b@, a@),
{
    lemma_distance_to_self(a@);
    if a@.len() == b@.len() {
        lemma_distance_symmetric(a@, b@);
    }
}

} // verus!
