//! Allocation bitmaps: a run of blocks whose bits mark units as used.
use vstd::prelude::*;

use crate::block_cache::{block_at, write_spec, BlockCache};
use crate::block_dev::BlockDevice;
use crate::BLOCK_SZ;

verus! {

/// Bits held by one bitmap block.
pub const BLOCK_BITS: usize = 4096;

/// Whether bit `k` (lowest-order first) of `b` is set.
pub open spec fn bit_set(b: u8, k: int) -> bool {
    (b >> (k as u8)) & 1u8 == 1u8
}

/// Whether bit `i` of the bitmap starting at block `start` is set on `disk`.
pub open spec fn bit_of(disk: Seq<Seq<u8>>, start: int, i: int) -> bool {
    bit_set(block_at(disk, start + i / (BLOCK_BITS as int))[(i % (BLOCK_BITS as int)) / 8], i % 8)
}

/// The block holding bit `i` of a bitmap starting at block `start`.
pub open spec fn bit_block(start: int, i: int) -> int {
    start + i / (BLOCK_BITS as int)
}

/// The offset, within its block, of the byte holding bit `i`.
pub open spec fn bit_byte(i: int) -> int {
    (i % (BLOCK_BITS as int)) / 8
}

proof fn lemma_byte_full(b: u8)
    ensures
        b == 0xffu8 ==> forall|k: u8| k < 8 ==> #[trigger] ((b >> k) & 1u8) == 1u8,
{
    assert(b == 0xffu8 ==> forall|k: u8| k < 8 ==> #[trigger] ((b >> k) & 1u8) == 1u8) by (bit_vector);
}

proof fn lemma_byte_not_full(b: u8)
    requires
        b != 0xffu8,
    ensures
        exists|k: u8| k < 8 && #[trigger] ((b >> k) & 1u8) != 1u8,
{
    assert(b != 0xffu8 ==> ((b >> 0u8) & 1u8) != 1u8 || ((b >> 1u8) & 1u8) != 1u8 || ((b >> 2u8)
        & 1u8) != 1u8 || ((b >> 3u8) & 1u8) != 1u8 || ((b >> 4u8) & 1u8) != 1u8 || ((b >> 5u8)
        & 1u8) != 1u8 || ((b >> 6u8) & 1u8) != 1u8 || ((b >> 7u8) & 1u8) != 1u8) by (bit_vector);
}

proof fn lemma_set(b: u8, k: u8)
    requires
        k < 8,
    ensures
        forall|j: u8|
            j < 8 ==> #[trigger] (((b | (1u8 << k)) >> j) & 1u8) == (if j == k {
                1u8
            } else {
                (b >> j) & 1u8
            }),
{
    assert(forall|j: u8|
        j < 8 ==> #[trigger] (((b | (1u8 << k)) >> j) & 1u8) == (if j == k {
            1u8
        } else {
            (b >> j) & 1u8
        })) by (bit_vector)
        requires
            k < 8,
    ;
}

proof fn lemma_clear(b: u8, k: u8)
    requires
        k < 8,
    ensures
        forall|j: u8|
            j < 8 ==> #[trigger] (((b & !(1u8 << k)) >> j) & 1u8) == (if j == k {
                0u8
            } else {
                (b >> j) & 1u8
            }),
{
    assert(forall|j: u8|
        j < 8 ==> #[trigger] (((b & !(1u8 << k)) >> j) & 1u8) == (if j == k {
            0u8
        } else {
            (b >> j) & 1u8
        })) by (bit_vector)
        requires
            k < 8,
    ;
}

proof fn lemma_bit_is_01(b: u8, k: u8)
    ensures
        (b >> k) & 1u8 == 0u8 || (b >> k) & 1u8 == 1u8,
{
    assert((b >> k) & 1u8 == 0u8 || (b >> k) & 1u8 == 1u8) by (bit_vector);
}

/// A bitmap over `blocks` blocks starting at block `start_block_id`.
#[derive(Clone, Copy, Debug, PartialEq, Eq)]
pub struct Bitmap {
    pub start_block_id: usize,
    pub blocks: usize,
}

/// Index of the first bit of `bits` that is clear, or its length if none is.
pub open spec fn first_clear(bits: Seq<bool>) -> int
    decreases bits.len(),
{
    if bits.len() == 0 {
        0
    } else if !bits[0] {
        0
    } else {
        1 + first_clear(bits.drop_first())
    }
}

impl Bitmap {
    /// A bitmap over `blocks` blocks starting at `start_block_id`.
    pub fn new(start_block_id: usize, blocks: usize) -> (r: Self)
        ensures
            r.start_block_id == start_block_id,
            r.blocks == blocks,
    {
        Bitmap { start_block_id, blocks }
    }

    /// The number of bits the bitmap holds.
    pub open spec fn max_spec(&self) -> int {
        self.blocks * BLOCK_BITS
    }

    /// The bitmap's bits as they stand on `disk`.
    pub open spec fn bits(&self, disk: Seq<Seq<u8>>) -> Seq<bool> {
        Seq::new(self.max_spec() as nat, |i: int| bit_of(disk, self.start_block_id as int, i))
    }

    /// The bitmap lies within a disk of `n` blocks and its size fits a `usize`.
    pub open spec fn fits(&self, n: int) -> bool {
        &&& self.start_block_id + self.blocks <= n
        &&& self.blocks * BLOCK_BITS <= usize::MAX
    }

    /// The number of bits the bitmap holds.
    pub fn maximum(&self) -> (r: usize)
        requires
            self.blocks * BLOCK_BITS <= usize::MAX,
        ensures
            r == self.max_spec(),
    {
        self.blocks * BLOCK_BITS
    }

    proof fn lemma_write_bit(&self, d0: Seq<Seq<u8>>, d1: Seq<Seq<u8>>, i: int, nb: u8, v: bool)
        requires
            self.fits(d0.len() as int),
            crate::block_dev::blocks_sized(d0),
            0 <= i < self.max_spec(),
            d1 == write_spec(d0, bit_block(self.start_block_id as int, i), bit_byte(i), seq![nb]),
            forall|j: u8|
                j < 8 ==> #[trigger] ((nb >> j) & 1u8) == (if j == (i % 8) as u8 {
                    if v { 1u8 } else { 0u8 }
                } else {
                    (block_at(d0, bit_block(self.start_block_id as int, i))[bit_byte(i)] >> j) & 1u8
                }),
        ensures
            self.bits(d1) == self.bits(d0).update(i, v),
    {
        let s = self.start_block_id as int;
        assert(0 <= i / (BLOCK_BITS as int) < self.blocks) by (nonlinear_arith)
            requires
                0 <= i < self.blocks * BLOCK_BITS,
        ;
        assert forall|t: int| 0 <= t < self.max_spec() implies #[trigger] self.bits(d1)[t] == self.bits(d0).update(i, v)[t] by {
            assert(0 <= t / (BLOCK_BITS as int) < self.blocks) by (nonlinear_arith)
                requires
                    0 <= t < self.blocks * BLOCK_BITS,
            ;
            if bit_block(s, t) == bit_block(s, i) && bit_byte(t) == bit_byte(i) {
                assert(block_at(d1, bit_block(s, t))[bit_byte(t)] == nb);
                if t % 8 == i % 8 {
                    assert(t == i) by (nonlinear_arith)
                        requires
                            t / 4096 == i / 4096,
                            (t % 4096) / 8 == (i % 4096) / 8,
                            t % 8 == i % 8,
                            t >= 0,
                            i >= 0,
                    ;
                    lemma_bit_is_01(nb, (t % 8) as u8);
                } else {
                    assert(t != i);
                    assert(((nb >> ((t % 8) as u8)) & 1u8) == (block_at(d0, bit_block(s, i))[bit_byte(i)] >> ((t % 8) as u8)) & 1u8);
                }
            } else {
                assert(t != i);
                assert(block_at(d1, bit_block(s, t))[bit_byte(t)] == block_at(d0, bit_block(s, t))[bit_byte(t)]);
            }
        }
        assert(self.bits(d1) =~= self.bits(d0).update(i, v));
    }

    /// The bits depend on the bitmap's own blocks alone.
    pub proof fn lemma_bits_frame(&self, d1: Seq<Seq<u8>>, d2: Seq<Seq<u8>>)
        requires
            forall|b: int|
                self.start_block_id <= b < self.start_block_id + self.blocks ==> #[trigger] block_at(d1, b)
                    == block_at(d2, b),
        ensures
            self.bits(d1) == self.bits(d2),
    {
        assert forall|i: int| 0 <= i < self.max_spec() implies self.bits(d1)[i] == self.bits(d2)[i] by {
            assert(0 <= i / 4096 < self.blocks) by (nonlinear_arith)
                requires
                    0 <= i < self.blocks * 4096,
            ;
            assert(block_at(d1, self.start_block_id + i / 4096) == block_at(d2, self.start_block_id + i / 4096));
        }
        assert(self.bits(d1) =~= self.bits(d2));
    }

    /// A bitmap whose blocks are all zero has every bit clear.
    pub proof fn lemma_zero_clear(&self, d: Seq<Seq<u8>>)
        requires
            forall|b: int|
                self.start_block_id <= b < self.start_block_id + self.blocks ==> #[trigger] block_at(d, b)
                    == crate::block_cache::zero_block(),
        ensures
            forall|i: int| 0 <= i < self.max_spec() ==> !#[trigger] self.bits(d)[i],
    {
        assert forall|i: int| 0 <= i < self.max_spec() implies !#[trigger] self.bits(d)[i] by {
            assert(0 <= i / 4096 < self.blocks) by (nonlinear_arith)
                requires
                    0 <= i < self.blocks * 4096,
            ;
            assert(block_at(d, self.start_block_id + i / 4096) == crate::block_cache::zero_block());
            let k = (i % 8) as u8;
            assert((0u8 >> k) & 1u8 == 0u8) by (bit_vector);
        }
    }

    /// Whether bit `bit` is set.
    pub fn is_set<D: BlockDevice>(&self, cache: &mut BlockCache<D>, bit: usize) -> (r: bool)
        requires
            old(cache).wf(),
            self.fits(old(cache).disk().len() as int),
            bit < self.max_spec(),
        ensures
            final(cache).wf(),
            final(cache).disk() == old(cache).disk(),
            r == self.bits(old(cache).disk())[bit as int],
    {
        let block_pos = bit / BLOCK_BITS;
        let byte = (bit % BLOCK_BITS) / 8;
        let k = (bit % 8) as u8;
        proof {
            assert(block_pos < self.blocks) by (nonlinear_arith)
                requires
                    bit < self.blocks * 4096,
                    block_pos == bit / 4096,
            ;
        }
        let data = cache.read(self.start_block_id + block_pos, byte, 1);
        (data[0] >> k) & 1u8 == 1u8
    }

    /// Sets the first clear bit, scanning blocks in order and bits from the
    /// lowest, and returns its index; `None` when every bit is set.
    pub fn allocate<D: BlockDevice>(&self, cache: &mut BlockCache<D>) -> (r: Option<usize>)
        requires
            old(cache).wf(),
            self.fits(old(cache).disk().len() as int),
        ensures
            final(cache).wf(),
            final(cache).disk().len() == old(cache).disk().len(),
            first_clear(self.bits(old(cache).disk())) <= self.max_spec(),
            match r {
                Some(i) => {
                    &&& i == first_clear(self.bits(old(cache).disk()))
                    &&& i < self.max_spec()
                    &&& self.bits(final(cache).disk()) == self.bits(old(cache).disk()).update(i as int, true)
                    &&& forall|b: int| (b < self.start_block_id || b >= self.start_block_id + self.blocks)
                        ==> #[trigger] block_at(final(cache).disk(), b) == block_at(old(cache).disk(), b)
                },
                None => {
                    &&& first_clear(self.bits(old(cache).disk())) == self.max_spec()
                    &&& final(cache).disk() == old(cache).disk()
                },
            },
    {
        let ghost d0 = cache.disk();
        let ghost bits = self.bits(d0);
        let mut b: usize = 0;
        while b < self.blocks
            invariant
                cache.wf(),
                cache.disk() == d0,
                d0 == old(cache).disk(),
                bits == self.bits(d0),
                self.fits(d0.len() as int),
                b <= self.blocks,
                forall|j: int| 0 <= j < b * BLOCK_BITS ==> #[trigger] bits[j],
            decreases self.blocks - b,
        {
            let blk = self.start_block_id + b;
            let data = cache.read(blk, 0, BLOCK_SZ);
            let mut byte: usize = 0;
            while byte < BLOCK_SZ
                invariant
                    cache.wf(),
                    cache.disk() == d0,
                    d0 == old(cache).disk(),
                    bits == self.bits(d0),
                    self.fits(d0.len() as int),
                    b < self.blocks,
                    blk == self.start_block_id + b,
                    data@ == block_at(d0, blk as int).subrange(0, BLOCK_SZ as int),
                    byte <= BLOCK_SZ,
                    forall|j: int| 0 <= j < b * BLOCK_BITS + byte * 8 ==> #[trigger] bits[j],
                decreases BLOCK_SZ - byte,
            {
                let x = data[byte];
                if x != 0xffu8 {
                    proof { lemma_byte_not_full(x); }
                    let mut k: u8 = 0;
                    while k < 8 && (x >> k) & 1u8 == 1u8
                        invariant
                            k <= 8,
                            x != 0xffu8,
                            forall|j: u8| j < k ==> #[trigger] ((x >> j) & 1u8) == 1u8,
                        decreases 8 - k,
                    {
                        k = k + 1;
                    }
                    if k == 8 {
                        let ghost kk = choose|kk: u8| kk < 8 && #[trigger] ((x >> kk) & 1u8) != 1u8;
                        assert(((x >> kk) & 1u8) == 1u8);
                        assert(false);
                    }
                    let nb = x | (1u8 << k);
                    proof { lemma_set(x, k); }
                    let ghost i = b * BLOCK_BITS + byte * 8 + k;
                    let mut w: Vec<u8> = Vec::new();
                    w.push(nb);
                    cache.write(blk, byte, w.as_slice());
                    proof {
                        assert(0 <= i < self.max_spec()) by (nonlinear_arith)
                            requires
                                i == b * 4096 + byte * 8 + k,
                                b < self.blocks,
                                byte < 512,
                                k < 8,
                        ;
                        assert(i / 4096 == b && (i % 4096) / 8 == byte && i % 8 == k) by (nonlinear_arith)
                            requires
                                i == b * 4096 + byte * 8 + k,
                                byte < 512,
                                k < 8,
                                b >= 0,
                        ;
                        assert(w@ =~= seq![nb]);
                        assert(block_at(d0, bit_block(self.start_block_id as int, i))[bit_byte(i)] == x);
                        self.lemma_write_bit(d0, cache.disk(), i, nb, true);
                        lemma_bit_is_01(x, k);
                        assert(!bits[i]);
                        lemma_first_clear(bits, i);
                        assert(cache.disk().len() == d0.len());
                    }
                    return Some(b * BLOCK_BITS + byte * 8 + k as usize);
                }
                proof {
                    lemma_byte_full(x);
                    assert forall|j: int| 0 <= j < b * BLOCK_BITS + (byte + 1) * 8 implies #[trigger] bits[j] by {
                        if j >= b * BLOCK_BITS + byte * 8 {
                            assert(j / 4096 == b && (j % 4096) / 8 == byte && j % 8 == j - (b * 4096 + byte * 8)) by (nonlinear_arith)
                                requires
                                    b * 4096 + byte * 8 <= j < b * 4096 + byte * 8 + 8,
                                    byte < 512,
                                    b >= 0,
                            ;
                            assert(0 <= j < self.max_spec()) by (nonlinear_arith)
                                requires
                                    0 <= j < b * 4096 + byte * 8 + 8,
                                    b < self.blocks,
                                    byte < 512,
                            ;
                            assert(((x >> ((j % 8) as u8)) & 1u8) == 1u8);
                        }
                    }
                }
                byte = byte + 1;
            }
            proof {
                assert forall|j: int| 0 <= j < (b + 1) * BLOCK_BITS implies #[trigger] bits[j] by {
                    assert(b * BLOCK_BITS + BLOCK_SZ * 8 == (b + 1) * BLOCK_BITS);
                }
            }
            b = b + 1;
        }
        proof {
            assert forall|j: int| 0 <= j < self.max_spec() implies #[trigger] bits[j] by {}
            lemma_first_clear(bits, self.max_spec());
        }
        None
    }

    /// Clears bit `bit`, which must be set.
    pub fn deallocate<D: BlockDevice>(&self, cache: &mut BlockCache<D>, bit: usize)
        requires
            old(cache).wf(),
            self.fits(old(cache).disk().len() as int),
            bit < self.max_spec(),
            self.bits(old(cache).disk())[bit as int],
        ensures
            final(cache).wf(),
            final(cache).disk().len() == old(cache).disk().len(),
            self.bits(final(cache).disk()) == self.bits(old(cache).disk()).update(bit as int, false),
            forall|b: int| (b < self.start_block_id || b >= self.start_block_id + self.blocks)
                ==> #[trigger] block_at(final(cache).disk(), b) == block_at(old(cache).disk(), b),
    {
        let ghost d0 = cache.disk();
        let block_pos = bit / BLOCK_BITS;
        let byte = (bit % BLOCK_BITS) / 8;
        let k = (bit % 8) as u8;
        proof {
            assert(block_pos < self.blocks) by (nonlinear_arith)
                requires
                    bit < self.blocks * 4096,
                    block_pos == bit / 4096,
            ;
        }
        let blk = self.start_block_id + block_pos;
        let data = cache.read(blk, byte, 1);
        let x = data[0];
        let nb = x & !(1u8 << k);
        proof { lemma_clear(x, k); }
        let mut w: Vec<u8> = Vec::new();
        w.push(nb);
        cache.write(blk, byte, w.as_slice());
        proof {
            assert(w@ =~= seq![nb]);
            self.lemma_write_bit(d0, cache.disk(), bit as int, nb, false);
        }
    }
}

/// `first_clear` names the first clear bit: every bit before it is set.
pub proof fn lemma_first_clear(bits: Seq<bool>, i: int)
    requires
        0 <= i <= bits.len(),
        forall|j: int| 0 <= j < i ==> #[trigger] bits[j],
        i < bits.len() ==> !bits[i],
    ensures
        first_clear(bits) == i,
    decreases bits.len(),
{
    if bits.len() > 0 && i > 0 {
        assert(bits[0]);
        lemma_first_clear(bits.drop_first(), i - 1);
    }
}


/// Every bit before `first_clear` is set, and the bit it names is clear.
pub proof fn lemma_first_clear_props(bits: Seq<bool>)
    ensures
        0 <= first_clear(bits) <= bits.len(),
        first_clear(bits) < bits.len() ==> !bits[first_clear(bits)],
        forall|j: int| 0 <= j < first_clear(bits) ==> #[trigger] bits[j],
    decreases bits.len(),
{
    if bits.len() > 0 && bits[0] {
        lemma_first_clear_props(bits.drop_first());
        assert forall|j: int| 0 <= j < first_clear(bits) implies #[trigger] bits[j] by {
            if j > 0 {
                assert(bits.drop_first()[j - 1] == bits[j]);
            }
        }
    }
}


/// Freed bits are handed out before bits never used: when every bit from `n`
/// on is clear and some bit below `n` has been cleared again, the next
/// allocation returns a bit below `n`, the lowest one cleared.
pub proof fn lemma_freed_before_unused(bits: Seq<bool>, n: int, freed: int)
    requires
        0 <= freed < n <= bits.len(),
        !bits[freed],
        forall|j: int| n <= j < bits.len() ==> !#[trigger] bits[j],
    ensures
        first_clear(bits) <= freed < n,
        !bits[first_clear(bits)],
        forall|j: int| 0 <= j < first_clear(bits) ==> #[trigger] bits[j],
{
    lemma_first_clear_props(bits);
}

} // verus!
