//! A Bloom filter: a row of bits and a list of hash functions. Putting a key
//! in sets one bit per hash function; a key may be in the filter only if all
//! of its bits are set.
use vstd::prelude::*;

verus! {

pub struct BloomFilter<K, F: Fn(K) -> u64> {
    /// Number of bits.
    size: usize,
    /// The bits, eight to a byte, the first in the most significant place.
    bitset: Vec<u8>,
    /// The hash functions, in the order in which they are asked.
    hashers: Vec<Box<F>>,
    key: core::marker::PhantomData<K>,
}

/// Bit `j` of a byte, counted from the most significant bit.
pub open spec fn bit_of(byte: u8, j: u8) -> bool {
    byte & (1u8 << ((7 - j) as u8)) != 0
}

/// The bits `bits` with one more bit set for each hash value in `hs`, at the
/// hash value's remainder by the number of bits.
pub open spec fn with_marks(bits: Seq<bool>, hs: Seq<u64>) -> Seq<bool>
    decreases hs.len(),
{
    if hs.len() == 0 {
        bits
    } else {
        with_marks(bits, hs.drop_last()).update(hs.last() as int % bits.len() as int, true)
    }
}

/// Every hash value in `hs` stands for a bit that is set in `bits`.
pub open spec fn all_marked(bits: Seq<bool>, hs: Seq<u64>) -> bool {
    forall|i: int| 0 <= i < hs.len() ==> bits[#[trigger] hs[i] as int % bits.len() as int]
}

/// `h` is a value that the hash function `f` may give for a clone of `k`.
pub open spec fn hashed_by<K: Clone, F: Fn(K) -> u64>(f: F, k: K, h: u64) -> bool {
    exists|key: K| cloned(k, key) && #[trigger] call_ensures(f, (key,), h)
}

impl<K, F: Fn(K) -> u64> View for BloomFilter<K, F> {
    type V = Seq<bool>;

    /// The bits of the filter, one `bool` per position.
    closed spec fn view(&self) -> Seq<bool> {
        Seq::new(self.size as nat, |p: int| bit_of(self.bitset@[p / 8], (p % 8) as u8))
    }
}

impl<K: Clone, F: Fn(K) -> u64> BloomFilter<K, F> {
    /// The hash functions of the filter.
    pub closed spec fn hashers(self) -> Seq<Box<F>> {
        self.hashers@
    }

    /// The bytes of the filter are as many as its bits need.
    pub closed spec fn wf(self) -> bool {
        self.bitset@.len() * 8 >= self.size > self.bitset@.len() * 8 - 8
    }

    /// Every hash function of the filter may be called on a clone of `k`.
    pub open spec fn can_hash(self, k: K) -> bool {
        forall|i: int, key: K|
            0 <= i < self.hashers().len() && cloned(k, key) ==> #[trigger] call_requires(
                *self.hashers()[i],
                (key,),
            )
    }

    /// `hs` holds, in order, values that the first hash functions of the
    /// filter may give for `k`, one for each.
    pub open spec fn probes(self, k: K, hs: Seq<u64>) -> bool {
        &&& hs.len() <= self.hashers().len()
        &&& forall|i: int|
            0 <= i < hs.len() ==> hashed_by(*self.hashers()[i], k, #[trigger] hs[i])
    }

    /// A filter of `size` bits, none of them set.
    pub fn new(size: usize, hashers: Vec<Box<F>>) -> (res: Self)
        ensures
            res.wf(),
            res@ == Seq::new(size as nat, |p: int| false),
            res.hashers() == hashers@,
    {
        let bitset_size = if size % 8 == 0 {
            size / 8
        } else {
            size / 8 + 1
        };
        let bitset = vec![0_u8; bitset_size];
        let res = BloomFilter { size, bitset, hashers, key: core::marker::PhantomData };
        proof {
            assert forall|p: int| 0 <= p < size implies !bit_of(
                #[trigger] res.bitset@[p / 8],
                (p % 8) as u8,
            ) by {
                let shift = (7 - p % 8) as u8;
                assert(0u8 & (1u8 << shift) == 0) by (bit_vector);
            }
        }
        res
    }

    /// Sets the bit that the hash value `h` stands for.
    pub fn insert_hash(self, h: u64) -> (res: Self)
        requires
            self.wf(),
            self@.len() > 0,
        ensures
            res.wf(),
            res@ == self@.update(h as int % self@.len() as int, true),
            res.hashers() == self.hashers(),
    {
        let mut this = self;
        let pos = h % this.size as u64;
        let byte = (pos / 8) as usize;
        let j = (pos % 8) as u8;
        let mask = 1u8 << (7 - j);
        let before = this.bitset[byte];
        this.bitset.set(byte, before | mask);
        proof {
            assert forall|p: int| 0 <= p < this.size implies #[trigger] this@[p] == self@.update(
                pos as int,
                true,
            )[p] by {
                let there = (7 - p % 8) as u8;
                let here = (7 - j) as u8;
                if p / 8 == byte {
                    assert(there < 8 && here < 8 ==> (((before | (1u8 << here)) & (1u8 << there)
                        != 0) == ((before & (1u8 << there) != 0) || there == here)))
                        by (bit_vector);
                }
            }
        }
        this
    }

    /// Whether the bit that the hash value `h` stands for is set.
    pub fn contains_hash(&self, h: u64) -> (set: bool)
        requires
            self.wf(),
            self@.len() > 0,
        ensures
            set == self@[h as int % self@.len() as int],
    {
        let pos = h % self.size as u64;
        let byte = (pos / 8) as usize;
        let j = (pos % 8) as u8;
        let mask = 1u8 << (7 - j);
        self.bitset[byte] & mask != 0
    }

    /// Puts `k` into the filter: every hash function is called on a clone
    /// of `k`, and the bit that its value stands for is set.
    pub fn insert(self, k: K) -> (res: Self)
        requires
            self.wf(),
            self.hashers().len() > 0 ==> self@.len() > 0,
            self.can_hash(k),
        ensures
            res.wf(),
            res.hashers() == self.hashers(),
            exists|hs: Seq<u64>|
                {
                    &&& #[trigger] self.probes(k, hs)
                    &&& hs.len() == self.hashers().len()
                    &&& res@ == with_marks(self@, hs)
                },
    {
        let mut this = self;
        let ghost mut hs: Seq<u64> = Seq::empty();
        let mut i: usize = 0;
        while i < this.hashers.len()
            invariant
                this.wf(),
                this@.len() == self@.len(),
                this.hashers().len() > 0 ==> this@.len() > 0,
                this.hashers() == self.hashers(),
                self.can_hash(k),
                i <= this.hashers().len(),
                hs.len() == i,
                self.probes(k, hs),
                this@ == with_marks(self@, hs),
            decreases this.hashers().len() - i,
        {
            let key = k.clone();
            let h = (this.hashers[i])(key);
            proof {
                assert(hs.push(h).drop_last() =~= hs);
                hs = hs.push(h);
            }
            this = this.insert_hash(h);
            i += 1;
        }
        this
    }

    /// Whether `k` may be in the filter. The hash functions are called in
    /// turn on clones of `k`; the answer is `false` as soon as one of them
    /// gives a value whose bit is not set, and `true` if none does.
    pub fn contains(&mut self, k: K) -> (res: bool)
        requires
            old(self).wf(),
            old(self).hashers().len() > 0 ==> old(self)@.len() > 0,
            old(self).can_hash(k),
        ensures
            *final(self) == *old(self),
            exists|hs: Seq<u64>|
                {
                    &&& #[trigger] old(self).probes(k, hs)
                    &&& if res {
                        &&& hs.len() == old(self).hashers().len()
                        &&& all_marked(old(self)@, hs)
                    } else {
                        &&& hs.len() > 0
                        &&& all_marked(old(self)@, hs.drop_last())
                        &&& !old(self)@[hs.last() as int % old(self)@.len() as int]
                    }
                },
    {
        let ghost mut hs: Seq<u64> = Seq::empty();
        let mut i: usize = 0;
        while i < self.hashers.len()
            invariant
                *self == *old(self),
                self.wf(),
                self.hashers().len() > 0 ==> self@.len() > 0,
                self.can_hash(k),
                i <= self.hashers().len(),
                hs.len() == i,
                self.probes(k, hs),
                all_marked(self@, hs),
            decreases self.hashers().len() - i,
        {
            let key = k.clone();
            let h = (self.hashers[i])(key);
            proof {
                hs = hs.push(h);
            }
            if !self.contains_hash(h) {
                assert(self.probes(k, hs));
                return false;
            }
            i += 1;
        }
        true
    }
}

/// Setting the bits for `hs` sets them all and clears none: every hash
/// value in `hs` then stands for a set bit, and so does every hash value
/// that stood for one before.
pub proof fn lemma_marks_stay(bits: Seq<bool>, hs: Seq<u64>, earlier: Seq<u64>)
    requires
        bits.len() > 0,
        all_marked(bits, earlier),
    ensures
        with_marks(bits, hs).len() == bits.len(),
        all_marked(with_marks(bits, hs), hs),
        all_marked(with_marks(bits, hs), earlier),
    decreases hs.len(),
{
    if hs.len() > 0 {
        let front = hs.drop_last();
        lemma_marks_stay(bits, front, earlier);
        assert forall|i: int| 0 <= i < hs.len() implies with_marks(bits, hs)[#[trigger] hs[i] as int
            % bits.len() as int] by {
            if i < hs.len() - 1 {
                assert(front[i] == hs[i]);
            }
        }
    }
}

} // verus!
