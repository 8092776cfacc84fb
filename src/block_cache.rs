//! A bounded write-back cache of blocks with least-recently-used eviction.
//!
//! The cache presents a logical disk: each block as the cache holds it, or as
//! the device holds it where it is not cached. Reads and writes go to the
//! logical disk; the device catches up on eviction and on `sync_all`.
use vstd::prelude::*;

use crate::block_dev::{blocks_sized, BlockDevice};
use crate::layout::{le_bytes, le_u32, lemma_le_round_trip, read_u32};
use crate::BLOCK_SZ;

verus! {

/// How many blocks the cache holds at most.
pub const BLOCK_CACHE_SIZE: usize = 16;

/// A block of zero bytes.
pub open spec fn zero_block() -> Seq<u8> {
    Seq::new(BLOCK_SZ as nat, |k: int| 0u8)
}

/// Block `i` of `d`; a block beyond the end of `d` reads as zeros.
pub open spec fn block_at(d: Seq<Seq<u8>>, i: int) -> Seq<u8> {
    if 0 <= i < d.len() {
        d[i]
    } else {
        zero_block()
    }
}

/// `s` with the bytes from `off` on replaced by `data`.
pub open spec fn splice(s: Seq<u8>, off: int, data: Seq<u8>) -> Seq<u8> {
    Seq::new(s.len(), |k: int| if off <= k < off + data.len() { data[k - off] } else { s[k] })
}

/// `d` after `data` is written at `off` in block `i`; a write beyond the end of
/// `d` changes nothing.
pub open spec fn write_spec(d: Seq<Seq<u8>>, i: int, off: int, data: Seq<u8>) -> Seq<Seq<u8>> {
    if 0 <= i < d.len() {
        d.update(i, splice(d[i], off, data))
    } else {
        d
    }
}

spec fn cached_in(es: Seq<CachedBlock>, i: int) -> bool {
    exists|k: int| 0 <= k < es.len() && #[trigger] es[k].block_id == i
}

struct CachedBlock {
    block_id: usize,
    data: Vec<u8>,
    modified: bool,
}

/// The cache, which owns the device it stands in front of.
pub struct BlockCache<D: BlockDevice> {
    device: D,
    entries: Vec<CachedBlock>,
    disk: Ghost<Seq<Seq<u8>>>,
}

impl<D: BlockDevice> BlockCache<D> {
    /// The logical disk: what every read through the cache sees.
    pub closed spec fn disk(&self) -> Seq<Seq<u8>> {
        self.disk@
    }

    /// What the device itself holds.
    pub closed spec fn device_blocks(&self) -> Seq<Seq<u8>> {
        self.device.blocks()
    }

    /// The internal invariant: every cached block agrees with the logical disk,
    /// and every other block agrees with the device.
    pub closed spec fn inv(&self) -> bool {
        &&& self.disk@.len() == self.device.blocks().len()
        &&& blocks_sized(self.disk@)
        &&& blocks_sized(self.device.blocks())
        &&& self.entries@.len() <= BLOCK_CACHE_SIZE
        &&& forall|k: int|
            #![trigger self.entries@[k]]
            0 <= k < self.entries@.len() ==> {
                &&& self.entries@[k].block_id < self.disk@.len()
                &&& self.entries@[k].data@ == self.disk@[self.entries@[k].block_id as int]
                &&& !self.entries@[k].modified ==> self.device.blocks()[self.entries@[k].block_id as int]
                    == self.entries@[k].data@
            }
        &&& forall|k1: int, k2: int|
            0 <= k1 < self.entries@.len() && 0 <= k2 < self.entries@.len() && k1 != k2
                ==> #[trigger] self.entries@[k1].block_id != #[trigger] self.entries@[k2].block_id
        &&& forall|i: int|
            0 <= i < self.disk@.len() && !#[trigger] cached_in(self.entries@, i) ==> self.disk@[i]
                == self.device.blocks()[i]
    }

    /// Well-formed: the invariant holds and every block has block size.
    pub open spec fn wf(&self) -> bool {
        &&& self.inv()
        &&& blocks_sized(self.disk())
        &&& self.disk().len() == self.device_blocks().len()
        &&& self.disk().len() <= usize::MAX
    }

    /// An empty cache in front of `device`.
    pub fn new(device: D) -> (r: Self)
        requires
            blocks_sized(device.blocks()),
        ensures
            r.wf(),
            r.disk() == device.blocks(),
            r.device_blocks() == device.blocks(),
    {
        let _n = device.num_blocks();
        BlockCache { disk: Ghost(device.blocks()), device, entries: Vec::new() }
    }

    /// The device behind the cache.
    pub fn device(&self) -> (r: &D)
        ensures
            r.blocks() == self.device_blocks(),
    {
        &self.device
    }

    /// The number of blocks of the logical disk.
    pub fn num_blocks(&self) -> (r: usize)
        requires
            self.wf(),
        ensures
            r == self.disk().len(),
    {
        self.device.num_blocks()
    }

    fn position(&self, block_id: usize) -> (r: Option<usize>)
        requires
            self.inv(),
        ensures
            r matches Some(k) ==> k < self.entries@.len() && self.entries@[k as int].block_id
                == block_id,
            r is None ==> !cached_in(self.entries@, block_id as int),
    {
        let mut k: usize = 0;
        while k < self.entries.len()
            invariant
                k <= self.entries@.len(),
                forall|j: int| 0 <= j < k ==> self.entries@[j].block_id != block_id,
            decreases self.entries@.len() - k,
        {
            if self.entries[k].block_id == block_id {
                return Some(k);
            }
            k = k + 1;
        }
        None
    }

    /// Takes the entry at `k` out of the cache, writing it back if it was modified.
    fn evict(&mut self, k: usize) -> (e: CachedBlock)
        requires
            old(self).inv(),
            k < old(self).entries@.len(),
        ensures
            final(self).inv(),
            final(self).disk@ == old(self).disk@,
            final(self).entries@ == old(self).entries@.remove(k as int),
            e == old(self).entries@[k as int],
            final(self).device.blocks()[e.block_id as int] == e.data@,
    {
        let e = self.entries.remove(k);
        if e.modified {
            self.device.write_block(e.block_id, e.data.as_slice());
        }
        let ghost id = e.block_id as int;
        assert forall|i: int| 0 <= i < self.disk@.len() && !#[trigger] cached_in(self.entries@, i) implies self.disk@[i]
            == self.device.blocks()[i] by {
            if i != id {
                if cached_in(old(self).entries@, i) {
                    let j = choose|j: int| 0 <= j < old(self).entries@.len() && #[trigger] old(self).entries@[j].block_id == i;
                    if j < k {
                        assert(self.entries@[j].block_id == i);
                    } else {
                        assert(j != k);
                        assert(self.entries@[j - 1].block_id == i);
                    }
                }
            }
        }
        assert forall|j: int|
            #![trigger self.entries@[j]]
            0 <= j < self.entries@.len() && !self.entries@[j].modified implies self.device.blocks()[self.entries@[j].block_id as int] == self.entries@[j].data@ by {
            if j < k {
                assert(self.entries@[j] == old(self).entries@[j]);
            } else {
                assert(self.entries@[j] == old(self).entries@[j + 1]);
            }
        }
        e
    }

    /// Moves the entry at `k` to the back, as the most recently used.
    fn touch(&mut self, k: usize)
        requires
            old(self).inv(),
            k < old(self).entries@.len(),
        ensures
            final(self).inv(),
            final(self).disk@ == old(self).disk@,
            final(self).entries@.len() == old(self).entries@.len(),
            final(self).entries@.last() == old(self).entries@[k as int],
    {
        let ghost es = self.entries@;
        let e = self.entries.remove(k);
        self.entries.push(e);
        let ghost ns = self.entries@;
        assert(ns =~= es.remove(k as int).push(es[k as int]));
        assert forall|i: int| cached_in(ns, i) <==> cached_in(es, i) by {
            if cached_in(es, i) {
                let j = choose|j: int| 0 <= j < es.len() && #[trigger] es[j].block_id == i;
                if j < k {
                    assert(ns[j].block_id == i);
                } else if j == k {
                    assert(ns[ns.len() - 1].block_id == i);
                } else {
                    assert(ns[j - 1].block_id == i);
                }
            }
            if cached_in(ns, i) {
                let j = choose|j: int| 0 <= j < ns.len() && #[trigger] ns[j].block_id == i;
                if j < k {
                    assert(es[j].block_id == i);
                } else if j == ns.len() - 1 {
                    assert(es[k as int].block_id == i);
                } else {
                    assert(es[j + 1].block_id == i);
                }
            }
        }
        assert forall|j: int| 0 <= j < ns.len() implies #[trigger] ns[j] == es[if j < k {
            j
        } else if j == ns.len() - 1 {
            k as int
        } else {
            j + 1
        }] by {}
        assert forall|k1: int, k2: int|
            0 <= k1 < ns.len() && 0 <= k2 < ns.len() && k1 != k2 implies #[trigger] ns[k1].block_id
                != #[trigger] ns[k2].block_id by {
            let a = if k1 < k {
                k1
            } else if k1 == ns.len() - 1 {
                k as int
            } else {
                k1 + 1
            };
            let b = if k2 < k {
                k2
            } else if k2 == ns.len() - 1 {
                k as int
            } else {
                k2 + 1
            };
            assert(ns[k1] == es[a]);
            assert(ns[k2] == es[b]);
        }
        assert forall|i: int|
            0 <= i < self.disk@.len() && !#[trigger] cached_in(self.entries@, i) implies self.disk@[i]
                == self.device.blocks()[i] by {
            assert(!cached_in(es, i));
        }
    }

    /// Appends an entry that agrees with the logical disk.
    fn append(&mut self, e: CachedBlock)
        requires
            old(self).inv(),
            old(self).entries@.len() < BLOCK_CACHE_SIZE,
            e.block_id < old(self).disk@.len(),
            !cached_in(old(self).entries@, e.block_id as int),
            e.data@ == old(self).disk@[e.block_id as int],
            !e.modified ==> old(self).device.blocks()[e.block_id as int] == e.data@,
        ensures
            final(self).inv(),
            final(self).disk@ == old(self).disk@,
            final(self).entries@ == old(self).entries@.push(e),
    {
        self.entries.push(e);
        assert forall|i: int| 0 <= i < self.disk@.len() && !#[trigger] cached_in(self.entries@, i) implies self.disk@[i]
            == self.device.blocks()[i] by {
            if cached_in(old(self).entries@, i) {
                let j = choose|j: int| 0 <= j < old(self).entries@.len() && #[trigger] old(self).entries@[j].block_id == i;
                assert(self.entries@[j].block_id == i);
            }
        }
    }

    /// The index of the entry holding `block_id`, loading it if needed; the
    /// entry becomes the most recently used.
    fn slot(&mut self, block_id: usize) -> (k: usize)
        requires
            old(self).wf(),
            block_id < old(self).disk().len(),
        ensures
            final(self).wf(),
            final(self).disk() == old(self).disk(),
            k < final(self).entries@.len(),
            final(self).entries@[k as int].block_id == block_id,
    {
        match self.position(block_id) {
            Some(k) => {
                self.touch(k);
            },
            None => {
                if self.entries.len() == BLOCK_CACHE_SIZE {
                    let _ = self.evict(0);
                    assert(!cached_in(self.entries@, block_id as int)) by {
                        if cached_in(self.entries@, block_id as int) {
                            let j = choose|j: int| 0 <= j < self.entries@.len() && #[trigger] self.entries@[j].block_id == block_id;
                            assert(old(self).entries@[j + 1].block_id == block_id);
                        }
                    }
                }
                let mut data: Vec<u8> = vec![0u8; BLOCK_SZ];
                self.device.read_block(block_id, data.as_mut_slice());
                self.append(CachedBlock { block_id, data, modified: false });
            },
        }
        (self.entries.len() - 1) as usize
    }

    /// Reads `len` bytes at `offset` of block `block_id`; a block beyond the
    /// end of the disk reads as zeros.
    pub fn read(&mut self, block_id: usize, offset: usize, len: usize) -> (r: Vec<u8>)
        requires
            old(self).wf(),
            offset + len <= BLOCK_SZ,
        ensures
            final(self).wf(),
            final(self).disk() == old(self).disk(),
            r@ == block_at(old(self).disk(), block_id as int).subrange(offset as int, offset + len),
    {
        let mut r: Vec<u8> = Vec::new();
        if block_id >= self.num_blocks() {
            let mut i: usize = 0;
            while i < len
                invariant
                    i <= len,
                    r@ == Seq::new(i as nat, |k: int| 0u8),
                decreases len - i,
            {
                r.push(0u8);
                i = i + 1;
                assert(r@ =~= Seq::new(i as nat, |k: int| 0u8));
            }
            assert(r@ =~= block_at(old(self).disk(), block_id as int).subrange(
                offset as int,
                offset + len,
            ));
            return r;
        }
        let k = self.slot(block_id);
        let data = &self.entries[k].data;
        assert(data@ == self.disk()[block_id as int]);
        let mut i: usize = 0;
        while i < len
            invariant
                i <= len,
                offset + len <= BLOCK_SZ,
                data@.len() == BLOCK_SZ,
                r@ == data@.subrange(offset as int, offset + i),
            decreases len - i,
        {
            r.push(data[offset + i]);
            i = i + 1;
            assert(r@ =~= data@.subrange(offset as int, offset + i));
        }
        r
    }

    /// Writes `buf` at `offset` of block `block_id`; a write beyond the end of
    /// the disk is dropped.
    pub fn write(&mut self, block_id: usize, offset: usize, buf: &[u8])
        requires
            old(self).wf(),
            offset + buf@.len() <= BLOCK_SZ,
        ensures
            final(self).wf(),
            final(self).disk() == write_spec(old(self).disk(), block_id as int, offset as int, buf@),
    {
        if block_id >= self.num_blocks() {
            return;
        }
        let k = self.slot(block_id);
        let ghost loaded = self.entries@;
        proof {
            assert(forall|i: int| 0 <= i < self.disk@.len() && !cached_in(loaded, i) ==> self.disk@[i] == self.device.blocks()[i]);
        }
        let mut e = self.entries.remove(k);
        let ghost e0 = e;
        let mut i: usize = 0;
        while i < buf.len()
            invariant
                i <= buf@.len(),
                offset + buf@.len() <= BLOCK_SZ,
                e.block_id == e0.block_id,
                e.data@.len() == BLOCK_SZ,
                e.data@ == splice(e0.data@, offset as int, buf@.subrange(0, i as int)),
            decreases buf@.len() - i,
        {
            e.data.set(offset + i, buf[i]);
            i = i + 1;
            assert(e.data@ =~= splice(e0.data@, offset as int, buf@.subrange(0, i as int)));
        }
        assert(buf@.subrange(0, buf@.len() as int) =~= buf@);
        e.modified = true;
        let ghost prev = self.entries@;
        proof {
            assert(!cached_in(prev, block_id as int)) by {
                if cached_in(prev, block_id as int) {
                    let j = choose|j: int| 0 <= j < prev.len() && #[trigger] prev[j].block_id == block_id;
                    if j < k {
                        assert(loaded[j].block_id == block_id);
                    } else {
                        assert(loaded[j + 1].block_id == block_id);
                    }
                }
            }
        }
        self.entries.push(e);
        proof {
            let nd = write_spec(self.disk@, block_id as int, offset as int, buf@);
            assert forall|i: int| 0 <= i < nd.len() && !#[trigger] cached_in(self.entries@, i) implies nd[i]
                == self.device.blocks()[i] by {
                if cached_in(loaded, i) {
                    let j = choose|j: int| 0 <= j < loaded.len() && #[trigger] loaded[j].block_id == i;
                    if j < k {
                        assert(self.entries@[j].block_id == i);
                    } else if j == k {
                        assert(self.entries@[prev.len() as int].block_id == i);
                    } else {
                        assert(self.entries@[j - 1].block_id == i);
                    }
                }
                if cached_in(prev, i) {
                    let j = choose|j: int| 0 <= j < prev.len() && #[trigger] prev[j].block_id == i;
                    assert(self.entries@[j].block_id == i);
                }
                if i == block_id {
                    assert(self.entries@[prev.len() as int].block_id == i);
                }
            }
            assert forall|j: int|
                #![trigger self.entries@[j]]
                0 <= j < self.entries@.len() implies self.entries@[j].data@ == nd[self.entries@[j].block_id as int] by {
                if j < prev.len() {
                    assert(prev[j].block_id != block_id);
                }
            }
            self.disk@ = nd;
        }
    }

    /// Writes every modified cached block back to the device; afterwards the
    /// device holds exactly the logical disk.
    pub fn sync_all(&mut self)
        requires
            old(self).wf(),
        ensures
            final(self).wf(),
            final(self).disk() == old(self).disk(),
            final(self).device_blocks() == old(self).disk(),
    {
        let mut k: usize = 0;
        while k < self.entries.len()
            invariant
                self.wf(),
                self.disk() == old(self).disk(),
                k <= self.entries@.len(),
                forall|j: int| 0 <= j < k ==> !(#[trigger] self.entries@[j]).modified,
            decreases self.entries@.len() - k,
        {
            if self.entries[k].modified {
                let ghost prev = self.entries@;
                let ghost pd = self.device.blocks();
                assert(forall|i: int| 0 <= i < self.disk@.len() && !cached_in(prev, i) ==> self.disk@[i] == pd[i]);
                let mut e = self.entries.remove(k);
                self.device.write_block(e.block_id, e.data.as_slice());
                e.modified = false;
                self.entries.insert(k, e);
                assert(self.entries@ =~= prev.update(k as int, e));
                assert forall|i: int| 0 <= i < self.disk@.len() && !#[trigger] cached_in(self.entries@, i) implies self.disk@[i]
                    == self.device.blocks()[i] by {
                    if i != e.block_id {
                        assert(self.device.blocks()[i] == pd[i]);
                        if exists|j: int| 0 <= j < prev.len() && #[trigger] prev[j].block_id == i {
                            let j = choose|j: int| 0 <= j < prev.len() && #[trigger] prev[j].block_id == i;
                            assert(self.entries@[j].block_id == i);
                        }
                    }
                }
                assert forall|j: int|
                    #![trigger self.entries@[j]]
                    0 <= j < self.entries@.len() && !self.entries@[j].modified implies self.device.blocks()[self.entries@[j].block_id as int] == self.entries@[j].data@ by {
                    if j != k {
                        assert(prev[j].block_id != prev[k as int].block_id);
                    }
                }
            }
            k = k + 1;
        }
        assert(self.device.blocks() =~= self.disk@) by {
            assert forall|i: int| 0 <= i < self.disk@.len() implies self.device.blocks()[i] == self.disk@[i] by {
                if cached_in(self.entries@, i) {
                    let j = choose|j: int| 0 <= j < self.entries@.len() && #[trigger] self.entries@[j].block_id == i;
                    assert(!self.entries@[j].modified);
                }
            }
        }
    }

    /// Reads the little-endian `u32` at `offset` of block `block_id`.
    pub fn read_u32(&mut self, block_id: usize, offset: usize) -> (r: u32)
        requires
            old(self).wf(),
            offset + 4 <= BLOCK_SZ,
        ensures
            final(self).wf(),
            final(self).disk() == old(self).disk(),
            r as int == le_u32(block_at(old(self).disk(), block_id as int), offset as int),
    {
        let b = self.read(block_id, offset, 4);
        let r = read_u32(b.as_slice(), 0);
        r
    }

    /// Writes `v` little-endian at `offset` of block `block_id`.
    pub fn write_u32(&mut self, block_id: usize, offset: usize, v: u32)
        requires
            old(self).wf(),
            offset + 4 <= BLOCK_SZ,
        ensures
            final(self).wf(),
            final(self).disk() == write_spec(old(self).disk(), block_id as int, offset as int, le_bytes(v)),
            0 <= block_id < old(self).disk().len() ==> le_u32(block_at(final(self).disk(), block_id as int), offset as int) == v,
    {
        let mut b: Vec<u8> = Vec::new();
        b.push((v % 256) as u8);
        b.push(((v / 256) % 256) as u8);
        b.push(((v / 65536) % 256) as u8);
        b.push((v / 16777216) as u8);
        assert(b@ =~= le_bytes(v));
        self.write(block_id, offset, b.as_slice());
        proof {
            if 0 <= block_id < old(self).disk().len() {
                let nb = block_at(self.disk(), block_id as int);
                assert(nb.subrange(offset as int, offset + 4) =~= le_bytes(v));
                lemma_le_round_trip(v, nb, offset as int);
            }
        }
    }

    /// Writes everything back and hands over the device.
    pub fn into_device(self) -> (r: D)
        requires
            self.wf(),
        ensures
            r.blocks() == self.disk(),
    {
        let mut c = self;
        c.sync_all();
        c.device
    }
}

} // verus!
