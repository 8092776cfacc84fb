//! The on-disk inode and its direct / indirect / doubly-indirect block index.
use vstd::prelude::*;

use crate::block_cache::{block_at, splice, write_spec, BlockCache};
use crate::block_dev::BlockDevice;
use crate::layout::{
    block_of, content, data_blocks_spec, inode_of, le_bytes, le_u32, lemma_le_round_trip, push_u32,
    read_u32, total_blocks_spec, DiskInodeType, InodeModel, DIRECT_BOUND, DISK_INODE_SZ,
    INDIRECT1_BOUND, INDIRECT2_BOUND, INODE_DIRECT_COUNT, INODE_INDIRECT1_COUNT,
};
use crate::BLOCK_SZ;

verus! {

/// Largest size in bytes that the block index can address.
pub const MAX_FILE_SIZE: u32 = 8_468_480;

/// An inode as it sits in memory between a load and a store.
pub struct DiskInode {
    pub size: u32,
    pub direct: Vec<u32>,
    pub indirect1: u32,
    pub indirect2: u32,
    pub type_: DiskInodeType,
}

impl View for DiskInode {
    type V = InodeModel;

    open spec fn view(&self) -> InodeModel {
        InodeModel {
            size: self.size,
            direct: self.direct@,
            indirect1: self.indirect1,
            indirect2: self.indirect2,
            type_: self.type_,
        }
    }
}

/// The inode's fields have their fixed shape.
pub open spec fn model_wf(m: InodeModel) -> bool {
    m.direct.len() == INODE_DIRECT_COUNT
}

/// The inode's size is one its block index can address.
pub open spec fn model_sized(m: InodeModel) -> bool {
    m.size <= MAX_FILE_SIZE
}

/// How many bytes a read or write of `len` bytes at `offset` covers in a
/// file of `size` bytes.
pub open spec fn span(size: int, offset: int, len: int) -> int {
    if offset >= size {
        0
    } else if offset + len <= size {
        len
    } else {
        size - offset
    }
}

/// The `n` bytes of `s` from `off` on.
pub open spec fn window(s: Seq<u8>, off: int, n: int) -> Seq<u8> {
    Seq::new(n as nat, |t: int| s[off + t])
}

proof fn lemma_div_bounds(p: int, start: int)
    requires
        0 <= start <= p < (start / 512 + 1) * 512,
    ensures
        p / 512 == start / 512,
        p % 512 == start % 512 + (p - start),
{
    assert(p / 512 == start / 512 && p % 512 == start % 512 + (p - start)) by (nonlinear_arith)
        requires
            0 <= start <= p < (start / 512 + 1) * 512,
    ;
}

impl DiskInode {
    /// The direct pointers have their fixed count.
    pub open spec fn wf(&self) -> bool {
        model_wf(self@)
    }

    /// A fresh inode of `type_`: size zero, every pointer zero.
    pub fn new(type_: DiskInodeType) -> (r: Self)
        ensures
            r.wf(),
            r.size == 0,
            r.type_ == type_,
            r.indirect1 == 0,
            r.indirect2 == 0,
            forall|i: int| 0 <= i < INODE_DIRECT_COUNT ==> r.direct@[i] == 0,
    {
        let mut direct: Vec<u32> = Vec::new();
        let mut i: usize = 0;
        while i < INODE_DIRECT_COUNT
            invariant
                i <= INODE_DIRECT_COUNT,
                direct@.len() == i,
                forall|k: int| 0 <= k < i ==> direct@[k] == 0,
            decreases INODE_DIRECT_COUNT - i,
        {
            direct.push(0);
            i = i + 1;
        }
        DiskInode { size: 0, direct, indirect1: 0, indirect2: 0, type_ }
    }

    /// Resets the inode to a fresh one of `type_`.
    pub fn initialize(&mut self, type_: DiskInodeType)
        ensures
            final(self).wf(),
            final(self).size == 0,
            final(self).type_ == type_,
            final(self).indirect1 == 0,
            final(self).indirect2 == 0,
            forall|i: int| 0 <= i < INODE_DIRECT_COUNT ==> final(self).direct@[i] == 0,
    {
        *self = DiskInode::new(type_);
    }

    /// Whether the inode is a directory.
    pub fn is_dir(&self) -> (r: bool)
        ensures
            r == (self.type_ == DiskInodeType::Directory),
    {
        match self.type_ {
            DiskInodeType::Directory => true,
            DiskInodeType::File => false,
        }
    }

    /// Whether the inode is a regular file.
    pub fn is_file(&self) -> (r: bool)
        ensures
            r == (self.type_ == DiskInodeType::File),
    {
        match self.type_ {
            DiskInodeType::Directory => false,
            DiskInodeType::File => true,
        }
    }

    /// The inode that the 128 bytes of `b` from `off` encode.
    pub fn decode(b: &[u8], off: usize) -> (r: Self)
        requires
            off + DISK_INODE_SZ <= b@.len(),
        ensures
            r.wf(),
            r@ == inode_of(b@, off as int),
    {
        let size = read_u32(b, off);
        let blen = b.len();
        let mut direct: Vec<u32> = Vec::new();
        let mut i: usize = 0;
        while i < INODE_DIRECT_COUNT
            invariant
                i <= INODE_DIRECT_COUNT,
                blen == b@.len(),
                off + DISK_INODE_SZ <= b@.len(),
                direct@.len() == i,
                forall|k: int| 0 <= k < i ==> direct@[k] as int == le_u32(b@, off + 4 + 4 * k),
            decreases INODE_DIRECT_COUNT - i,
        {
            direct.push(read_u32(b, off + 4 + 4 * i));
            i = i + 1;
        }
        let indirect1 = read_u32(b, off + 116);
        let indirect2 = read_u32(b, off + 120);
        let type_ = if b[off + 124] == 1 {
            DiskInodeType::Directory
        } else {
            DiskInodeType::File
        };
        let r = DiskInode { size, direct, indirect1, indirect2, type_ };
        assert(r@.direct =~= inode_of(b@, off as int).direct);
        r
    }

    /// The inode's 128 bytes: size, direct pointers, the two index pointers,
    /// then the type, little-endian and zero-padded.
    pub fn encode(&self) -> (r: Vec<u8>)
        requires
            self.wf(),
        ensures
            r@.len() == DISK_INODE_SZ,
            inode_of(r@, 0) == self@,
    {
        let mut out: Vec<u8> = Vec::new();
        push_u32(&mut out, self.size);
        let mut i: usize = 0;
        while i < INODE_DIRECT_COUNT
            invariant
                i <= INODE_DIRECT_COUNT,
                self.wf(),
                out@.len() == 4 + 4 * i,
                le_u32(out@, 0) == self.size as int,
                forall|k: int| 0 <= k < i ==> #[trigger] le_u32(out@, 4 + 4 * k) == self.direct@[k] as int,
            decreases INODE_DIRECT_COUNT - i,
        {
            let ghost prev = out@;
            push_u32(&mut out, self.direct[i]);
            proof {
                assert(out@.subrange(4 + 4 * i, 8 + 4 * i) =~= le_bytes(self.direct@[i as int]));
                lemma_le_round_trip(self.direct@[i as int], out@, 4 + 4 * i);
                assert forall|k: int| 0 <= k < i + 1 implies #[trigger] le_u32(out@, 4 + 4 * k) == self.direct@[k] as int by {
                    if k < i {
                        assert(le_u32(prev, 4 + 4 * k) == self.direct@[k] as int);
                        assert(out@[4 + 4 * k] == prev[4 + 4 * k]);
                        assert(out@[5 + 4 * k] == prev[5 + 4 * k]);
                        assert(out@[6 + 4 * k] == prev[6 + 4 * k]);
                        assert(out@[7 + 4 * k] == prev[7 + 4 * k]);
                    }
                }
                assert(out@[0] == prev[0] && out@[1] == prev[1] && out@[2] == prev[2] && out@[3] == prev[3]);
            }
            i = i + 1;
        }
        let ghost mid = out@;
        push_u32(&mut out, self.indirect1);
        push_u32(&mut out, self.indirect2);
        let t: u32 = match self.type_ {
            DiskInodeType::Directory => 1,
            DiskInodeType::File => 0,
        };
        push_u32(&mut out, t);
        proof {
            assert(out@.subrange(116, 120) =~= le_bytes(self.indirect1));
            assert(out@.subrange(120, 124) =~= le_bytes(self.indirect2));
            lemma_le_round_trip(self.indirect1, out@, 116);
            lemma_le_round_trip(self.indirect2, out@, 120);
            assert forall|k: int| 0 <= k < 116 implies out@[k] == mid[k] by {}
            assert forall|k: int| 0 <= k < INODE_DIRECT_COUNT implies #[trigger] le_u32(out@, 4 + 4 * k) == self.direct@[k] as int by {
                assert(le_u32(mid, 4 + 4 * k) == self.direct@[k] as int);
            }
            assert(le_u32(out@, 0) == le_u32(mid, 0));
            assert(inode_of(out@, 0).direct =~= self.direct@);
        }
        out
    }

    /// Loads the inode stored at `offset` of block `block_id`.
    pub fn load<D: BlockDevice>(cache: &mut BlockCache<D>, block_id: usize, offset: usize) -> (r: Self)
        requires
            old(cache).wf(),
            offset + DISK_INODE_SZ <= BLOCK_SZ,
        ensures
            final(cache).wf(),
            final(cache).disk() == old(cache).disk(),
            r.wf(),
            r@ == inode_of(block_at(old(cache).disk(), block_id as int), offset as int),
    {
        let b = cache.read(block_id, offset, DISK_INODE_SZ);
        let r = DiskInode::decode(b.as_slice(), 0);
        proof {
            let blk = block_at(old(cache).disk(), block_id as int);
            assert forall|k: int| 0 <= k < DISK_INODE_SZ implies b@[k] == blk[offset + k] by {}
            assert(r@.direct =~= inode_of(blk, offset as int).direct);
        }
        r
    }

    /// Stores the inode at `offset` of block `block_id`.
    pub fn store<D: BlockDevice>(&self, cache: &mut BlockCache<D>, block_id: usize, offset: usize)
        requires
            old(cache).wf(),
            self.wf(),
            offset + DISK_INODE_SZ <= BLOCK_SZ,
        ensures
            final(cache).wf(),
            final(cache).disk().len() == old(cache).disk().len(),
            forall|b: int| b != block_id ==> #[trigger] block_at(final(cache).disk(), b) == block_at(old(cache).disk(), b),
            forall|k: int|
                0 <= k < BLOCK_SZ && !(offset <= k < offset + DISK_INODE_SZ) ==> #[trigger] block_at(final(cache).disk(), block_id as int)[k]
                    == block_at(old(cache).disk(), block_id as int)[k],
            block_id < old(cache).disk().len() ==> inode_of(block_at(final(cache).disk(), block_id as int), offset as int) == self@,
    {
        let rec = self.encode();
        cache.write(block_id, offset, rec.as_slice());
        proof {
            if block_id < old(cache).disk().len() {
                let nb = block_at(cache.disk(), block_id as int);
                assert forall|k: int| 0 <= k < DISK_INODE_SZ implies nb[offset + k] == rec@[k] by {}
                let m = inode_of(nb, offset as int);
                assert(m.direct =~= inode_of(rec@, 0).direct);
            }
        }
    }

    /// Data blocks the inode's size needs.
    pub fn data_blocks(&self) -> (r: u32)
        ensures
            r as int == data_blocks_spec(self.size as int),
    {
        Self::data_blocks_of(self.size)
    }

    fn data_blocks_of(size: u32) -> (r: u32)
        ensures
            r as int == data_blocks_spec(size as int),
    {
        (size / 512) + if size % 512 == 0 {
            0
        } else {
            1
        }
    }

    /// Blocks, data and index together, that an inode of `size` bytes occupies.
    pub fn total_blocks(size: u32) -> (r: u32)
        ensures
            r as int == total_blocks_spec(size as int),
    {
        let data_blocks = Self::data_blocks_of(size);
        let mut total = data_blocks;
        if data_blocks > INODE_DIRECT_COUNT as u32 {
            total = total + 1;
        }
        if data_blocks > INDIRECT1_BOUND as u32 {
            total = total + 1 + (data_blocks - INDIRECT1_BOUND as u32 + INODE_INDIRECT1_COUNT as u32 - 1)
                / INODE_INDIRECT1_COUNT as u32;
        }
        total
    }

    /// Blocks that must be added to grow from the current size to `new_size`.
    pub fn blocks_num_needed(&self, new_size: u32) -> (r: u32)
        requires
            self.size <= new_size,
        ensures
            r as int == total_blocks_spec(new_size as int) - total_blocks_spec(self.size as int),
    {
        proof { lemma_total_monotone(self.size as int, new_size as int); }
        Self::total_blocks(new_size) - Self::total_blocks(self.size)
    }

    /// The physical block holding data block `inner_id`.
    pub fn get_block_id<D: BlockDevice>(&self, inner_id: u32, cache: &mut BlockCache<D>) -> (r: u32)
        requires
            self.wf(),
            old(cache).wf(),
            inner_id < INDIRECT2_BOUND,
        ensures
            final(cache).wf(),
            final(cache).disk() == old(cache).disk(),
            r as int == block_of(old(cache).disk(), self@, inner_id as int),
    {
        let inner_id = inner_id as usize;
        if inner_id < DIRECT_BOUND {
            self.direct[inner_id]
        } else if inner_id < INDIRECT1_BOUND {
            cache.read_u32(self.indirect1 as usize, (inner_id - DIRECT_BOUND) * 4)
        } else {
            let last = inner_id - INDIRECT1_BOUND;
            let mid = cache.read_u32(self.indirect2 as usize, (last / INODE_INDIRECT1_COUNT) * 4);
            cache.read_u32(mid as usize, (last % INODE_INDIRECT1_COUNT) * 4)
        }
    }

    /// Reads into `buf` the content from `offset` on, as far as the content and
    /// `buf` reach, and returns how many bytes were read.
    pub fn read_at<D: BlockDevice>(&self, offset: usize, buf: &mut [u8], cache: &mut BlockCache<D>) -> (r: usize)
        requires
            self.wf(),
            model_sized(self@),
            old(cache).wf(),
        ensures
            final(cache).wf(),
            final(cache).disk() == old(cache).disk(),
            r as int == span(self.size as int, offset as int, old(buf)@.len() as int),
            final(buf)@.len() == old(buf)@.len(),
            final(buf)@ == splice(old(buf)@, 0, window(content(old(cache).disk(), self@), offset as int, r as int)),
    {
        let ghost d0 = cache.disk();
        let ghost c = content(d0, self@);
        let ghost b0 = buf@;
        let size = self.size as usize;
        if offset >= size {
            assert(buf@ =~= splice(b0, 0, window(c, offset as int, 0)));
            return 0;
        }
        let n_total: usize = if buf.len() <= size - offset {
            buf.len()
        } else {
            size - offset
        };
        let end = offset + n_total;
        let blen = buf.len();
        let mut start = offset;
        let mut read_size: usize = 0;
        while start < end
            invariant
                self.wf(),
                model_sized(self@),
                cache.wf(),
                cache.disk() == d0,
                c == content(d0, self@),
                offset <= start <= end,
                end <= size,
                size == self.size,
                end - offset <= b0.len(),
                read_size == start - offset,
                buf@.len() == b0.len(),
                blen == b0.len(),
                buf@ == splice(b0, 0, window(c, offset as int, start - offset)),
            decreases end - start,
        {
            let block_end = (start / BLOCK_SZ + 1) * BLOCK_SZ;
            let stop = if block_end < end {
                block_end
            } else {
                end
            };
            let n = stop - start;
            proof {
                assert(start / 512 < INDIRECT2_BOUND) by (nonlinear_arith)
                    requires
                        start < end,
                        end <= 8_468_480,
                ;
            }
            let bid = self.get_block_id((start / BLOCK_SZ) as u32, cache);
            let data = cache.read(bid as usize, start % BLOCK_SZ, n);
            let ghost before = buf@;
            let mut k: usize = 0;
            while k < n
                invariant
                    k <= n,
                    read_size + n <= buf@.len(),
                    buf@.len() == before.len(),
                    blen == buf@.len(),
                    data@.len() == n,
                    forall|t: int| 0 <= t < read_size + k ==> buf@[t] == if t < read_size {
                        before[t]
                    } else {
                        data@[t - read_size]
                    },
                    forall|t: int| read_size + k <= t < buf@.len() ==> buf@[t] == before[t],
                decreases n - k,
            {
                buf[read_size + k] = data[k];
                k = k + 1;
            }
            proof {
                assert forall|t: int| start <= t < stop implies data@[t - start] == c[t] by {
                    lemma_div_bounds(t, start as int);
                }
                let w = splice(b0, 0, window(c, offset as int, stop - offset));
                let w0 = splice(b0, 0, window(c, offset as int, start - offset));
                assert(before == w0);
                assert forall|t: int| 0 <= t < buf@.len() implies buf@[t] == w[t] by {
                    if t < read_size {
                        assert(buf@[t] == before[t]);
                        assert(w0[t] == c[offset + t]);
                    } else if t < read_size + n {
                        assert(buf@[t] == data@[t - read_size]);
                        assert(data@[(offset + t) - start] == c[offset + t]);
                    } else {
                        assert(buf@[t] == before[t]);
                    }
                }
                assert(buf@ =~= w);
            }
            read_size = read_size + n;
            start = stop;
        }
        read_size
    }
}

/// More bytes never occupy fewer blocks.
pub proof fn lemma_total_monotone(a: int, b: int)
    requires
        0 <= a <= b,
    ensures
        total_blocks_spec(a) <= total_blocks_spec(b),
{
    let da = data_blocks_spec(a);
    let db = data_blocks_spec(b);
    assert(da <= db) by (nonlinear_arith)
        requires
            0 <= a <= b,
            da == (a + 511) / 512,
            db == (b + 511) / 512,
    ;
    if da > INDIRECT1_BOUND {
        assert((da - 156 + 127) / 128 <= (db - 156 + 127) / 128) by (nonlinear_arith)
            requires
                156 < da <= db,
        ;
    }
}


/// The `q`-th block of pointers reached through the doubly-indirect block.
pub open spec fn mid_of(disk: Seq<Seq<u8>>, m: InodeModel, q: int) -> int {
    le_u32(block_at(disk, m.indirect2 as int), 4 * q)
}

/// How many blocks of pointers hang below the doubly-indirect block for
/// `db` data blocks.
pub open spec fn mids_needed(db: int) -> int {
    if db > INDIRECT1_BOUND {
        (db - INDIRECT1_BOUND + 127) / 128
    } else {
        0
    }
}

/// Whether `b` is one of the index blocks that inode `m` uses on `disk`.
pub open spec fn is_index_block(disk: Seq<Seq<u8>>, m: InodeModel, b: int) -> bool {
    used_index(disk, m, data_blocks_spec(m.size as int), b)
}

/// Whether `b` is one of the index blocks that the first `db` data blocks of
/// `m` go through on `disk`.
pub open spec fn used_index(disk: Seq<Seq<u8>>, m: InodeModel, db: int, b: int) -> bool {
    ||| (db > DIRECT_BOUND && b == m.indirect1)
    ||| (db > INDIRECT1_BOUND && b == m.indirect2)
    ||| exists|q: int| 0 <= q < mids_needed(db) && b == #[trigger] mid_of(disk, m, q)
}

/// The inode's data blocks are pairwise distinct and none of them is one of
/// its index blocks: writing one data block changes no other part of the file.
pub open spec fn sound(disk: Seq<Seq<u8>>, m: InodeModel) -> bool {
    let db = data_blocks_spec(m.size as int);
    &&& forall|j1: int, j2: int|
        0 <= j1 < db && 0 <= j2 < db && j1 != j2 ==> #[trigger] block_of(disk, m, j1)
            != #[trigger] block_of(disk, m, j2)
    &&& forall|j: int| 0 <= j < db ==> !is_index_block(disk, m, #[trigger] block_of(disk, m, j))
    &&& forall|j: int| 0 <= j < db ==> 0 <= #[trigger] block_of(disk, m, j) < disk.len()
}

/// Two disks that agree on the index blocks of `m` map its data blocks alike.
pub proof fn lemma_same_index(d0: Seq<Seq<u8>>, d1: Seq<Seq<u8>>, m: InodeModel)
    requires
        forall|b: int| is_index_block(d0, m, b) ==> block_at(d1, b) == block_at(d0, b),
        data_blocks_spec(m.size as int) <= INDIRECT2_BOUND,
    ensures
        forall|j: int|
            0 <= j < data_blocks_spec(m.size as int) ==> #[trigger] block_of(d1, m, j) == block_of(d0, m, j),
        forall|q: int| 0 <= q < mids_needed(data_blocks_spec(m.size as int)) ==> #[trigger] mid_of(d1, m, q) == mid_of(d0, m, q),
        forall|b: int| is_index_block(d1, m, b) <==> is_index_block(d0, m, b),
{
    let db = data_blocks_spec(m.size as int);
    if db > INDIRECT1_BOUND {
        assert(is_index_block(d0, m, m.indirect2 as int));
    }
    assert forall|q: int| 0 <= q < mids_needed(db) implies #[trigger] mid_of(d1, m, q) == mid_of(d0, m, q) by {
        assert(is_index_block(d0, m, m.indirect2 as int));
    }
    assert forall|j: int| 0 <= j < db implies #[trigger] block_of(d1, m, j) == block_of(d0, m, j) by {
        if j >= DIRECT_BOUND && j < INDIRECT1_BOUND {
            assert(is_index_block(d0, m, m.indirect1 as int));
        } else if j >= INDIRECT1_BOUND {
            let k = j - INDIRECT1_BOUND;
            let q = k / 128;
            assert(0 <= q < mids_needed(db)) by (nonlinear_arith)
                requires
                    0 <= k,
                    q == k / 128,
                    k < db - 156,
                    mids_needed(db) == (db - 156 + 127) / 128,
            ;
            assert(mid_of(d1, m, q) == mid_of(d0, m, q));
            assert(is_index_block(d0, m, mid_of(d0, m, q)));
        }
    }
    assert forall|b: int| is_index_block(d1, m, b) <==> is_index_block(d0, m, b) by {
        if exists|q: int| 0 <= q < mids_needed(db) && b == #[trigger] mid_of(d1, m, q) {
            let q = choose|q: int| 0 <= q < mids_needed(db) && b == #[trigger] mid_of(d1, m, q);
            assert(mid_of(d0, m, q) == b);
        }
        if exists|q: int| 0 <= q < mids_needed(db) && b == #[trigger] mid_of(d0, m, q) {
            let q = choose|q: int| 0 <= q < mids_needed(db) && b == #[trigger] mid_of(d0, m, q);
            assert(mid_of(d1, m, q) == b);
        }
    }
}

/// Writing part of data block `j0` of a sound inode changes its content
/// there and nowhere else, and leaves it sound.
proof fn lemma_write_data_block(
    d0: Seq<Seq<u8>>,
    m: InodeModel,
    j0: int,
    off: int,
    data: Seq<u8>,
)
    requires
        sound(d0, m),
        crate::block_dev::blocks_sized(d0),
        data_blocks_spec(m.size as int) <= INDIRECT2_BOUND,
        0 <= j0 < data_blocks_spec(m.size as int),
        0 <= off,
        off + data.len() <= BLOCK_SZ,
    ensures
        ({
            let d1 = write_spec(d0, block_of(d0, m, j0), off, data);
            &&& sound(d1, m)
            &&& d1.len() == d0.len()
            &&& crate::block_dev::blocks_sized(d1)
            &&& forall|p: int|
                0 <= p < m.size ==> #[trigger] content(d1, m)[p] == if p / 512 == j0 && off <= p % 512
                    < off + data.len() {
                    data[p % 512 - off]
                } else {
                    content(d0, m)[p]
                }
        }),
{
    let bid = block_of(d0, m, j0);
    let d1 = write_spec(d0, bid, off, data);
    let db = data_blocks_spec(m.size as int);
    assert forall|b: int| is_index_block(d0, m, b) implies block_at(d1, b) == block_at(d0, b) by {
        assert(b != bid);
    }
    lemma_same_index(d0, d1, m);
    assert forall|j: int| 0 <= j < db implies !is_index_block(d1, m, #[trigger] block_of(d1, m, j)) by {
        assert(block_of(d1, m, j) == block_of(d0, m, j));
    }
    assert forall|j: int| 0 <= j < db implies 0 <= #[trigger] block_of(d1, m, j) < d1.len() by {
        assert(block_of(d1, m, j) == block_of(d0, m, j));
    }
    assert forall|j1: int, j2: int|
        0 <= j1 < db && 0 <= j2 < db && j1 != j2 implies #[trigger] block_of(d1, m, j1)
            != #[trigger] block_of(d1, m, j2) by {
        assert(block_of(d1, m, j1) == block_of(d0, m, j1));
        assert(block_of(d1, m, j2) == block_of(d0, m, j2));
    }
    assert forall|p: int|
        0 <= p < m.size implies #[trigger] content(d1, m)[p] == if p / 512 == j0 && off <= p % 512 < off
            + data.len() {
            data[p % 512 - off]
        } else {
            content(d0, m)[p]
        } by {
        let j = p / 512;
        assert(0 <= j < db) by (nonlinear_arith)
            requires
                0 <= p < m.size,
                j == p / 512,
                db == (m.size + 511) / 512,
        ;
        assert(block_of(d1, m, j) == block_of(d0, m, j));
        if j != j0 {
            assert(block_of(d0, m, j) != bid);
            assert(block_at(d1, block_of(d0, m, j)) == block_at(d0, block_of(d0, m, j)));
        } else {
            assert(block_at(d1, bid) == splice(d0[bid], off, data));
        }
    }
}

impl DiskInode {
    /// Writes `buf` over the content from `offset` on, as far as the content
    /// reaches, and returns how many bytes were written.
    ///
    /// On a sound inode exactly those bytes of the content change.
    pub fn write_at<D: BlockDevice>(&self, offset: usize, buf: &[u8], cache: &mut BlockCache<D>) -> (r: usize)
        requires
            self.wf(),
            model_sized(self@),
            old(cache).wf(),
        ensures
            final(cache).wf(),
            final(cache).disk().len() == old(cache).disk().len(),
            r as int == span(self.size as int, offset as int, buf@.len() as int),
            sound(old(cache).disk(), self@) ==> sound(final(cache).disk(), self@)
                && content(final(cache).disk(), self@) == splice(
                content(old(cache).disk(), self@),
                offset as int,
                buf@.subrange(0, r as int),
            ),
            sound(old(cache).disk(), self@) ==> forall|b: int|
                !is_data_block(old(cache).disk(), self@, b) ==> #[trigger] block_at(final(cache).disk(), b) == block_at(
                    old(cache).disk(),
                    b,
                ),
    {
        let ghost d0 = cache.disk();
        let ghost c0 = content(d0, self@);
        let size = self.size as usize;
        proof {
            assert(data_blocks_spec(self.size as int) <= INDIRECT2_BOUND) by (nonlinear_arith)
                requires
                    self.size <= 8_468_480,
            ;
        }
        if offset >= size {
            assert(content(d0, self@) =~= splice(c0, offset as int, buf@.subrange(0, 0)));
            return 0;
        }
        let n_total: usize = if buf.len() <= size - offset {
            buf.len()
        } else {
            size - offset
        };
        let end = offset + n_total;
        let mut start = offset;
        let mut done: usize = 0;
        while start < end
            invariant
                self.wf(),
                model_sized(self@),
                data_blocks_spec(self.size as int) <= INDIRECT2_BOUND,
                cache.wf(),
                cache.disk().len() == d0.len(),
                c0 == content(d0, self@),
                offset <= start <= end,
                end <= size,
                size == self.size,
                end - offset <= buf@.len(),
                done == start - offset,
                sound(d0, self@) ==> sound(cache.disk(), self@) && content(cache.disk(), self@) == splice(
                    c0,
                    offset as int,
                    buf@.subrange(0, done as int),
                ),
                sound(d0, self@) ==> forall|b: int|
                    !is_data_block(d0, self@, b) ==> #[trigger] block_at(cache.disk(), b) == block_at(d0, b),
            decreases end - start,
        {
            let block_end = (start / BLOCK_SZ + 1) * BLOCK_SZ;
            let stop = if block_end < end {
                block_end
            } else {
                end
            };
            let n = stop - start;
            let ghost d = cache.disk();
            proof {
                assert(start / 512 < INDIRECT2_BOUND) by (nonlinear_arith)
                    requires
                        start < end,
                        end <= 8_468_480,
                ;
                assert(start / 512 < data_blocks_spec(self.size as int)) by (nonlinear_arith)
                    requires
                        start < end,
                        end <= self.size,
                ;
                lemma_div_bounds(start as int, start as int);
            }
            let bid = self.get_block_id((start / BLOCK_SZ) as u32, cache);
            cache.write(bid as usize, start % BLOCK_SZ, &buf[done..done + n]);
            proof {
                if sound(d0, self@) {
                    let part = buf@.subrange(done as int, done + n);
                    lemma_write_data_block(d, self@, (start / 512) as int, (start % 512) as int, part);
                    let cur = content(cache.disk(), self@);
                    let prev = splice(c0, offset as int, buf@.subrange(0, done as int));
                    let want = splice(c0, offset as int, buf@.subrange(0, done + n));
                    assert forall|p: int| 0 <= p < self.size implies cur[p] == want[p] by {
                        if start <= p < stop {
                            lemma_div_bounds(p, start as int);
                        } else if p / 512 == start / 512 && (start % 512) as int <= p % 512 < (start % 512) + n {
                            assert(start <= p < stop) by (nonlinear_arith)
                                requires
                                    p / 512 == start / 512,
                                    start % 512 <= p % 512 < start % 512 + n,
                                    stop == start + n,
                                    p >= 0,
                                    start >= 0,
                            ;
                        }
                    }
                    assert(cur =~= want);
                    assert forall|b: int| is_index_block(d0, self@, b) implies block_at(d, b) == block_at(d0, b) by {
                        if is_data_block(d0, self@, b) {
                            let j = choose|j: int| 0 <= j < data_blocks_spec(self.size as int) && #[trigger] block_of(d0, self@, j) == b;
                        }
                    }
                    lemma_same_index(d0, d, self@);
                    assert forall|b: int| !is_data_block(d0, self@, b) implies #[trigger] block_at(cache.disk(), b) == block_at(d0, b) by {
                        let j0 = (start / 512) as int;
                        assert(bid as int == block_of(d, self@, j0));
                        assert(block_of(d, self@, j0) == block_of(d0, self@, j0));
                        assert(b != block_of(d0, self@, j0));
                        assert(block_at(cache.disk(), b) == block_at(d, b));
                    }
                }
            }
            done = done + n;
            start = stop;
        }
        done
    }
}


/// Whether `b` is one of the data blocks of inode `m` on `disk`.
pub open spec fn is_data_block(disk: Seq<Seq<u8>>, m: InodeModel, b: int) -> bool {
    exists|j: int| 0 <= j < data_blocks_spec(m.size as int) && #[trigger] block_of(disk, m, j) == b
}

/// Blocks, data and index together, that `d` data blocks occupy.
pub open spec fn blocks_for(d: int) -> int {
    d + (if d > DIRECT_BOUND {
        1int
    } else {
        0int
    }) + (if d > INDIRECT1_BOUND {
        1 + mids_needed(d)
    } else {
        0int
    })
}

/// Blocks that adding data block `j` takes: the block itself and any index
/// block that it is the first to need.
pub open spec fn step_cost(j: int) -> int {
    1 + (if j == DIRECT_BOUND {
        1int
    } else {
        0int
    }) + (if j == INDIRECT1_BOUND {
        1int
    } else {
        0int
    }) + (if j >= INDIRECT1_BOUND && (j - INDIRECT1_BOUND) % 128 == 0 {
        1int
    } else {
        0int
    })
}

proof fn lemma_blocks_step(j: int)
    requires
        0 <= j,
    ensures
        blocks_for(j + 1) == blocks_for(j) + step_cost(j),
{
    if j >= INDIRECT1_BOUND {
        let k = j - INDIRECT1_BOUND;
        assert((k + 1 + 127) / 128 == (k + 127) / 128 + (if k % 128 == 0 {
            1int
        } else {
            0int
        })) by (nonlinear_arith)
            requires
                k >= 0,
        ;
    }
}

proof fn lemma_blocks_monotone(a: int, b: int)
    requires
        0 <= a <= b,
    ensures
        blocks_for(a) <= blocks_for(b),
    decreases b - a,
{
    if a < b {
        lemma_blocks_step(b - 1);
        lemma_blocks_monotone(a, b - 1);
    }
}

proof fn lemma_total_is_blocks_for(size: int)
    requires
        0 <= size,
    ensures
        total_blocks_spec(size) == blocks_for(data_blocks_spec(size)),
{
}

impl DiskInode {
    /// Grows the inode to `new_size`, taking in order from `new_blocks` the
    /// data blocks and the index blocks that the new size needs.
    #[verifier::rlimit(50)]
    pub fn increase_size<D: BlockDevice>(&mut self, new_size: u32, new_blocks: &[u32], cache: &mut BlockCache<D>)
        requires
            old(self).wf(),
            old(cache).wf(),
            old(self).size <= new_size <= MAX_FILE_SIZE,
            new_blocks@.len() == total_blocks_spec(new_size as int) - total_blocks_spec(old(self).size as int),
        ensures
            final(self).wf(),
            final(cache).wf(),
            final(cache).disk().len() == old(cache).disk().len(),
            final(self).size == new_size,
            final(self).type_ == old(self).type_,
            forall|j: int|
                0 <= j < data_blocks_spec(old(self).size as int) && j < DIRECT_BOUND ==> #[trigger] final(self).direct@[j]
                    == old(self).direct@[j],
            data_blocks_spec(old(self).size as int) > DIRECT_BOUND ==> final(self).indirect1 == old(self).indirect1,
            data_blocks_spec(old(self).size as int) > INDIRECT1_BOUND ==> final(self).indirect2 == old(self).indirect2,
            ({
                let od = data_blocks_spec(old(self).size as int);
                index_ok(old(cache).disk(), old(self)@, od) && fresh_from(old(cache).disk(), old(self)@, od, new_blocks@, 0)
                    ==> {
                    &&& forall|i: int|
                        0 <= i < od ==> #[trigger] block_of(final(cache).disk(), final(self)@, i) == block_of(
                            old(cache).disk(),
                            old(self)@,
                            i,
                        )
                    &&& forall|i: int|
                        od <= i < data_blocks_spec(new_size as int) ==> #[trigger] block_of(final(cache).disk(), final(self)@, i)
                            == new_blocks@[blocks_for(i + 1) - blocks_for(od) - 1]
                    &&& index_ok(final(cache).disk(), final(self)@, data_blocks_spec(new_size as int))
                    &&& blocks_list(final(cache).disk(), final(self)@, data_blocks_spec(new_size as int)) == blocks_list(
                        old(cache).disk(),
                        old(self)@,
                        od,
                    ) + new_blocks@
                    &&& forall|b: int|
                        !used_index(final(cache).disk(), final(self)@, data_blocks_spec(new_size as int), b) ==> #[trigger] block_at(
                            final(cache).disk(),
                            b,
                        ) == block_at(old(cache).disk(), b)
                    &&& sound(old(cache).disk(), old(self)@) && fresh_data(old(cache).disk(), old(self)@, od, new_blocks@)
                        ==> sound(final(cache).disk(), final(self)@)
                }
            }),
    {
        let old_db = self.data_blocks() as usize;
        let new_db = Self::data_blocks_of(new_size) as usize;
        proof {
            lemma_total_is_blocks_for(old(self).size as int);
            lemma_total_is_blocks_for(new_size as int);
            let os = old(self).size as int;
            assert(old_db <= new_db <= INDIRECT2_BOUND) by (nonlinear_arith)
                requires
                    old_db == (os + 511) / 512,
                    new_db == (new_size + 511) / 512,
                    os <= new_size <= 8_468_480,
            ;
        }
        let ghost d0 = cache.disk();
        let ghost m0 = self@;
        let ghost good = index_ok(d0, m0, old_db as int) && fresh_from(d0, m0, old_db as int, new_blocks@, 0);
        let mut t: usize = 0;
        let mut j: usize = old_db;
        while j < new_db
            invariant
                self.wf(),
                d0 == old(cache).disk(),
                m0 == old(self)@,
                good == (index_ok(d0, m0, old_db as int) && fresh_from(d0, m0, old_db as int, new_blocks@, 0)),
                good ==> forall|i: int| 0 <= i < old_db ==> #[trigger] block_of(cache.disk(), self@, i) == block_of(d0, m0, i),
                good ==> forall|i: int|
                    old_db <= i < j ==> #[trigger] block_of(cache.disk(), self@, i) == new_blocks@[blocks_for(i + 1)
                        - blocks_for(old_db as int) - 1],
                good ==> index_ok(cache.disk(), self@, j as int) && fresh_from(cache.disk(), self@, j as int, new_blocks@, t as int),
                good ==> blocks_list(cache.disk(), self@, j as int) == blocks_list(d0, m0, old_db as int) + new_blocks@.subrange(0, t as int),
                good ==> forall|b: int| !used_index(cache.disk(), self@, j as int, b) ==> #[trigger] block_at(cache.disk(), b) == block_at(d0, b),
                good ==> forall|b: int|
                    #[trigger] used_index(cache.disk(), self@, j as int, b) ==> used_index(d0, m0, old_db as int, b)
                        || exists|x: int|
                        0 <= x < t && b == #[trigger] new_blocks@[x] as int && !is_data_pos(x, old_db as int, j as int),
                cache.wf(),
                cache.disk().len() == old(cache).disk().len(),
                self.size == old(self).size,
                self.type_ == old(self).type_,
                old_db == data_blocks_spec(old(self).size as int),
                forall|i: int| 0 <= i < old_db && i < DIRECT_BOUND ==> #[trigger] self.direct@[i] == old(self).direct@[i],
                old_db > DIRECT_BOUND ==> self.indirect1 == old(self).indirect1,
                old_db > INDIRECT1_BOUND ==> self.indirect2 == old(self).indirect2,
                old_db <= j <= new_db <= INDIRECT2_BOUND,
                t == blocks_for(j as int) - blocks_for(old_db as int),
                new_blocks@.len() == blocks_for(new_db as int) - blocks_for(old_db as int),
            decreases new_db - j,
        {
            proof {
                lemma_blocks_step(j as int);
                lemma_blocks_monotone((j + 1) as int, new_db as int);
            }
            let ghost dj = cache.disk();
            let ghost mj = self@;
            let ghost tj = t;
            t = self.add_block(j, new_blocks, t, cache);
            proof {
                if good {
                    assert forall|i: int| 0 <= i < old_db implies #[trigger] block_of(cache.disk(), self@, i) == block_of(
                        d0,
                        m0,
                        i,
                    ) by {
                        assert(block_of(cache.disk(), self@, i) == block_of(dj, mj, i));
                    }
                    assert forall|i: int| old_db <= i < j + 1 implies #[trigger] block_of(cache.disk(), self@, i)
                        == new_blocks@[blocks_for(i + 1) - blocks_for(old_db as int) - 1] by {
                        if i < j {
                            assert(block_of(cache.disk(), self@, i) == block_of(dj, mj, i));
                        }
                    }
                    lemma_step_list(dj, mj, cache.disk(), self@, j as int, new_blocks@, tj as int, t as int);
                    assert forall|b: int| !used_index(cache.disk(), self@, j + 1, b) implies #[trigger] block_at(cache.disk(), b) == block_at(d0, b) by {
                        if used_index(dj, mj, j as int, b) {
                            if !(j > DIRECT_BOUND && b == mj.indirect1) && !(j > INDIRECT1_BOUND && b == mj.indirect2) {
                                let q = choose|q: int| 0 <= q < mids_needed(j as int) && b == #[trigger] mid_of(dj, mj, q);
                                assert(mids_needed(j as int) <= mids_needed(j + 1)) by (nonlinear_arith)
                                    requires
                                        mids_needed(j as int) == (if j > 156 { (j - 156 + 127) / 128 } else { 0int }),
                                        mids_needed(j + 1) == (if j + 1 > 156 { (j + 1 - 156 + 127) / 128 } else { 0int }),
                                ;
                                assert(mid_of(cache.disk(), self@, q) == b);
                            }
                        }
                    }
                    assert(blocks_list(cache.disk(), self@, j + 1) =~= blocks_list(d0, m0, old_db as int) + new_blocks@.subrange(0, t as int));
                    let base = blocks_for(old_db as int);
                    assert forall|b: int| #[trigger] used_index(cache.disk(), self@, j + 1, b) implies used_index(
                        d0,
                        m0,
                        old_db as int,
                        b,
                    ) || exists|x: int|
                        0 <= x < t && b == #[trigger] new_blocks@[x] as int && !is_data_pos(x, old_db as int, j + 1) by {
                        if !used_index(d0, m0, old_db as int, b) {
                            if used_index(dj, mj, j as int, b) {
                                let x = choose|x: int|
                                    0 <= x < tj && b == #[trigger] new_blocks@[x] as int && !is_data_pos(x, old_db as int, j as int);
                                assert(!is_data_pos(x, old_db as int, j + 1)) by {
                                    if is_data_pos(x, old_db as int, j + 1) {
                                        let i = choose|i: int| old_db <= i < j + 1 && x == #[trigger] blocks_for(i + 1) - base - 1;
                                        if i < j {
                                            assert(is_data_pos(x, old_db as int, j as int));
                                        }
                                    }
                                }
                                assert(0 <= x < t && b == new_blocks@[x] as int);
                            } else {
                                let x = choose|x: int| tj <= x < t - 1 && b == #[trigger] new_blocks@[x] as int;
                                assert(!is_data_pos(x, old_db as int, j + 1)) by {
                                    if is_data_pos(x, old_db as int, j + 1) {
                                        let i = choose|i: int| old_db <= i < j + 1 && x == #[trigger] blocks_for(i + 1) - base - 1;
                                        if i < j {
                                            lemma_pos_increasing(old_db as int, i, j as int);
                                        }
                                    }
                                }
                            }
                        }
                    }
                }
            }
            j = j + 1;
        }
        let ghost before = self@;
        self.size = new_size;
        proof {
            let d = cache.disk();
            assert forall|i: int| 0 <= i < new_db implies #[trigger] block_of(d, self@, i) == block_of(d, before, i) by {}
            assert forall|q: int| #[trigger] mid_of(d, self@, q) == mid_of(d, before, q) by {}
            if good {
                assert(new_db == data_blocks_spec(new_size as int));
                assert(index_ok(d, self@, new_db as int));
                lemma_blocks_list_frame(d, before, d, self@, new_db as int);
                assert(new_blocks@.subrange(0, t as int) =~= new_blocks@);
                assert forall|b: int| !used_index(d, self@, new_db as int, b) implies #[trigger] block_at(d, b) == block_at(d0, b) by {
                    if used_index(d, before, new_db as int, b) {
                        if exists|q: int| 0 <= q < mids_needed(new_db as int) && b == #[trigger] mid_of(d, before, q) {
                            let q = choose|q: int| 0 <= q < mids_needed(new_db as int) && b == #[trigger] mid_of(d, before, q);
                            assert(mid_of(d, self@, q) == b);
                        }
                    }
                }
                if sound(d0, m0) && fresh_data(d0, m0, old_db as int, new_blocks@) {
                    let base = blocks_for(old_db as int);
                    let nb = new_blocks@;
                    assert forall|b: int| #[trigger] used_index(d, self@, new_db as int, b) implies used_index(
                        d0,
                        m0,
                        old_db as int,
                        b,
                    ) || exists|x: int| 0 <= x < t && b == #[trigger] nb[x] as int && !is_data_pos(x, old_db as int, new_db as int) by {
                        assert(used_index(d, before, new_db as int, b));
                    }
                    assert forall|i: int| 0 <= i < new_db implies 0 <= #[trigger] block_of(d, self@, i) < d.len() by {
                        if i >= old_db {
                            assert(nb[blocks_for(i + 1) - base - 1] < d0.len());
                        }
                    }
                    assert forall|i1: int, i2: int|
                        0 <= i1 < new_db && 0 <= i2 < new_db && i1 != i2 implies #[trigger] block_of(d, self@, i1)
                            != #[trigger] block_of(d, self@, i2) by {
                        if i1 >= old_db && i2 >= old_db {
                            if i1 < i2 {
                                lemma_pos_increasing(old_db as int, i1, i2);
                            } else {
                                lemma_pos_increasing(old_db as int, i2, i1);
                            }
                        } else if i1 >= old_db {
                            assert(nb[blocks_for(i1 + 1) - base - 1] as int != block_of(d0, m0, i2));
                        } else if i2 >= old_db {
                            assert(nb[blocks_for(i2 + 1) - base - 1] as int != block_of(d0, m0, i1));
                        }
                    }
                    assert forall|i: int| 0 <= i < new_db implies !is_index_block(d, self@, #[trigger] block_of(d, self@, i)) by {
                        let b = block_of(d, self@, i);
                        if used_index(d, self@, new_db as int, b) {
                            if i < old_db {
                                assert(b == block_of(d0, m0, i));
                                if used_index(d0, m0, old_db as int, b) {
                                    assert(is_index_block(d0, m0, b));
                                } else {
                                    let x = choose|x: int|
                                        0 <= x < t && b == #[trigger] nb[x] as int && !is_data_pos(x, old_db as int, new_db as int);
                                    assert(nb[x] as int != block_of(d0, m0, i));
                                }
                            } else {
                                let p = blocks_for(i + 1) - base - 1;
                                assert(b == nb[p] as int);
                                if used_index(d0, m0, old_db as int, b) {
                                    assert(!used_index(d0, m0, old_db as int, nb[p] as int));
                                } else {
                                    let x = choose|x: int|
                                        0 <= x < t && b == #[trigger] nb[x] as int && !is_data_pos(x, old_db as int, new_db as int);
                                    assert(is_data_pos(p, old_db as int, new_db as int));
                                    assert(x != p);
                                }
                            }
                        }
                    }
                }
            }
        }
    }

    /// Empties the inode and returns every block it occupied, data and index
    /// blocks alike, in index order.
    pub fn clear_size<D: BlockDevice>(&mut self, cache: &mut BlockCache<D>) -> (r: Vec<u32>)
        requires
            old(self).wf(),
            model_sized(old(self)@),
            old(cache).wf(),
        ensures
            final(self).wf(),
            final(cache).wf(),
            final(cache).disk() == old(cache).disk(),
            final(self).size == 0,
            final(self).type_ == old(self).type_,
            r@.len() == total_blocks_spec(old(self).size as int),
            r@ == blocks_list(old(cache).disk(), old(self)@, data_blocks_spec(old(self).size as int)),
            forall|j: int|
                0 <= j < data_blocks_spec(old(self).size as int) ==> r@.contains(
                    #[trigger] block_of(old(cache).disk(), old(self)@, j) as u32,
                ),
            forall|k: int|
                0 <= k < r@.len() ==> {
                    let b = #[trigger] r@[k] as int;
                    is_index_block(old(cache).disk(), old(self)@, b) || exists|j: int|
                        0 <= j < data_blocks_spec(old(self).size as int) && b == #[trigger] block_of(
                            old(cache).disk(),
                            old(self)@,
                            j,
                        )
                },
    {
        let ghost d0 = cache.disk();
        let ghost m = self@;
        let db = self.data_blocks() as usize;
        proof {
            lemma_total_is_blocks_for(self.size as int);
            assert(db <= INDIRECT2_BOUND) by (nonlinear_arith)
                requires
                    db == (self.size + 511) / 512,
                    self.size <= 8_468_480,
            ;
        }
        let mut v: Vec<u32> = Vec::new();
        let mut j: usize = 0;
        while j < db
            invariant
                self.wf(),
                self@ == m,
                cache.wf(),
                cache.disk() == d0,
                j <= db <= INDIRECT2_BOUND,
                db == data_blocks_spec(m.size as int),
                v@.len() == blocks_for(j as int),
                v@ == blocks_list(d0, m, j as int),
                forall|i: int| 0 <= i < j ==> v@.contains(#[trigger] block_of(d0, m, i) as u32),
                forall|k: int|
                    0 <= k < v@.len() ==> {
                        let b = #[trigger] v@[k] as int;
                        is_index_block(d0, m, b) || exists|i: int|
                            0 <= i < db && b == #[trigger] block_of(d0, m, i)
                    },
            decreases db - j,
        {
            proof {
                lemma_blocks_step(j as int);
            }
            let ghost before = v@;
            if j == DIRECT_BOUND {
                v.push(self.indirect1);
                assert(is_index_block(d0, m, m.indirect1 as int));
            }
            if j == INDIRECT1_BOUND {
                v.push(self.indirect2);
                assert(is_index_block(d0, m, m.indirect2 as int));
            }
            if j >= INDIRECT1_BOUND && (j - INDIRECT1_BOUND) % INODE_INDIRECT1_COUNT == 0 {
                let q = (j - INDIRECT1_BOUND) / INODE_INDIRECT1_COUNT;
                let mid = cache.read_u32(self.indirect2 as usize, q * 4);
                proof {
                    assert(q < mids_needed(db as int)) by (nonlinear_arith)
                        requires
                            q == (j - 156) / 128,
                            156 <= j < db,
                            mids_needed(db as int) == (db - 156 + 127) / 128,
                    ;
                    assert(mid as int == mid_of(d0, m, q as int));
                }
                v.push(mid);
            }
            let b = self.get_block_id(j as u32, cache);
            v.push(b);
            proof {
                assert(v@ =~= blocks_list(d0, m, j as int) + step_blocks(d0, m, j as int));
                assert(v@[v@.len() - 1] == block_of(d0, m, j as int) as u32);
                assert forall|i: int| 0 <= i < j + 1 implies v@.contains(#[trigger] block_of(d0, m, i) as u32) by {
                    if i < j {
                        let k = choose|k: int| 0 <= k < before.len() && before[k] == block_of(d0, m, i) as u32;
                        assert(v@[k] == before[k]);
                    } else {
                        assert(v@[v@.len() - 1] == block_of(d0, m, i) as u32);
                    }
                }
                assert forall|k: int| 0 <= k < v@.len() implies {
                    let b = #[trigger] v@[k] as int;
                    is_index_block(d0, m, b) || exists|i: int|
                        0 <= i < db && b == #[trigger] block_of(d0, m, i)
                } by {
                    if k < before.len() {
                        assert(v@[k] == before[k]);
                    } else if k == v@.len() - 1 {
                        assert(v@[k] as int == block_of(d0, m, j as int));
                    }
                }
            }
            j = j + 1;
        }
        let ty = self.type_;
        self.initialize(ty);
        v
    }
}


/// What is written at offset 0 reads back unchanged: on a sound inode `m`
/// at least as long as `data`, once `write_at(0, data)` has taken the disk
/// from `d0` to `d1`, `read_at(0, ..)` over `data.len()` bytes returns `data`.
pub proof fn lemma_write_then_read(d0: Seq<Seq<u8>>, d1: Seq<Seq<u8>>, m: InodeModel, data: Seq<u8>)
    requires
        sound(d0, m),
        data.len() <= m.size,
        content(d1, m) == splice(content(d0, m), 0, data.subrange(0, span(m.size as int, 0, data.len() as int))),
    ensures
        span(m.size as int, 0, data.len() as int) == data.len(),
        window(content(d1, m), 0, span(m.size as int, 0, data.len() as int)) == data,
{
    assert(data.subrange(0, data.len() as int) =~= data);
    assert(window(content(d1, m), 0, data.len() as int) =~= data);
}

/// Clearing accounts for every block: an inode of `size` bytes lists (and
/// `clear_size` hands back) exactly `total_blocks(size)` blocks, and once
/// emptied it reads as nothing from any offset.
pub proof fn lemma_clear_accounts(disk: Seq<Seq<u8>>, m: InodeModel, offset: int, len: int)
    requires
        0 <= offset,
        0 <= len,
    ensures
        blocks_list(disk, m, data_blocks_spec(m.size as int)).len() == total_blocks_spec(m.size as int),
        span(0, offset, len) == 0,
{
    lemma_blocks_list_len(disk, m, data_blocks_spec(m.size as int));
    lemma_total_is_blocks_for(m.size as int);
}

proof fn lemma_blocks_list_len(disk: Seq<Seq<u8>>, m: InodeModel, db: int)
    requires
        0 <= db,
    ensures
        blocks_list(disk, m, db).len() == blocks_for(db),
    decreases db,
{
    if db > 0 {
        lemma_blocks_list_len(disk, m, db - 1);
        lemma_blocks_step(db - 1);
    }
}


/// The index blocks that the first `db` data blocks of `m` go through on
/// `disk` lie on the disk and are pairwise distinct.
pub open spec fn index_ok(disk: Seq<Seq<u8>>, m: InodeModel, db: int) -> bool {
    &&& db > DIRECT_BOUND ==> m.indirect1 < disk.len()
    &&& db > INDIRECT1_BOUND ==> m.indirect2 < disk.len() && m.indirect2 != m.indirect1
    &&& forall|q: int|
        0 <= q < mids_needed(db) ==> 0 <= #[trigger] mid_of(disk, m, q) < disk.len() && mid_of(disk, m, q)
            != m.indirect1 && mid_of(disk, m, q) != m.indirect2
    &&& forall|q1: int, q2: int|
        0 <= q1 < mids_needed(db) && 0 <= q2 < mids_needed(db) && q1 != q2 ==> #[trigger] mid_of(disk, m, q1)
            != #[trigger] mid_of(disk, m, q2)
}

/// The blocks of `nb` from `t` on lie on the disk, are pairwise distinct,
/// and none is an index block the first `db` data blocks of `m` go through.
pub open spec fn fresh_from(disk: Seq<Seq<u8>>, m: InodeModel, db: int, nb: Seq<u32>, t: int) -> bool {
    &&& forall|i: int|
        t <= i < nb.len() ==> (#[trigger] nb[i]) < disk.len() && !used_index(disk, m, db, nb[i] as int)
    &&& forall|i1: int, i2: int|
        t <= i1 < nb.len() && t <= i2 < nb.len() && i1 != i2 ==> #[trigger] nb[i1] != #[trigger] nb[i2]
}

/// The blocks that data block `j` of `m` brings into use, in the order the
/// index meets them: an index block it is the first to need, then itself.
pub open spec fn step_blocks(disk: Seq<Seq<u8>>, m: InodeModel, j: int) -> Seq<u32> {
    (if j == DIRECT_BOUND {
        seq![m.indirect1]
    } else {
        Seq::<u32>::empty()
    }) + (if j == INDIRECT1_BOUND {
        seq![m.indirect2]
    } else {
        Seq::<u32>::empty()
    }) + (if j >= INDIRECT1_BOUND && (j - INDIRECT1_BOUND) % 128 == 0 {
        seq![mid_of(disk, m, (j - INDIRECT1_BOUND) / 128) as u32]
    } else {
        Seq::<u32>::empty()
    }) + seq![block_of(disk, m, j) as u32]
}

/// Every block, index and data, that the first `db` data blocks of `m` use,
/// in index order.
pub open spec fn blocks_list(disk: Seq<Seq<u8>>, m: InodeModel, db: int) -> Seq<u32>
    decreases db,
{
    if db <= 0 {
        Seq::empty()
    } else {
        blocks_list(disk, m, db - 1) + step_blocks(disk, m, db - 1)
    }
}

pub proof fn lemma_blocks_list_frame(d: Seq<Seq<u8>>, m: InodeModel, d2: Seq<Seq<u8>>, m2: InodeModel, j: int)
    requires
        0 <= j <= INDIRECT2_BOUND,
        forall|i: int| 0 <= i < j ==> #[trigger] block_of(d2, m2, i) == block_of(d, m, i),
        j > DIRECT_BOUND ==> m2.indirect1 == m.indirect1,
        j > INDIRECT1_BOUND ==> m2.indirect2 == m.indirect2,
        forall|q: int| 0 <= q < mids_needed(j) ==> #[trigger] mid_of(d2, m2, q) == mid_of(d, m, q),
    ensures
        blocks_list(d2, m2, j) == blocks_list(d, m, j),
    decreases j,
{
    if j > 0 {
        let i = j - 1;
        assert forall|q: int| 0 <= q < mids_needed(i) implies #[trigger] mid_of(d2, m2, q) == mid_of(d, m, q) by {
            assert(mids_needed(i) <= mids_needed(j)) by (nonlinear_arith)
                requires
                    i == j - 1,
                    mids_needed(i) == (if i > 156 { (i - 156 + 127) / 128 } else { 0int }),
                    mids_needed(j) == (if j > 156 { (j - 156 + 127) / 128 } else { 0int }),
            ;
        }
        lemma_blocks_list_frame(d, m, d2, m2, i);
        if i >= INDIRECT1_BOUND && (i - INDIRECT1_BOUND) % 128 == 0 {
            let q = (i - INDIRECT1_BOUND) / 128;
            assert(q < mids_needed(j)) by (nonlinear_arith)
                requires
                    i == j - 1,
                    i >= 156,
                    q == (i - 156) / 128,
                    mids_needed(j) == (j - 156 + 127) / 128,
            ;
        }
        assert(step_blocks(d2, m2, i) =~= step_blocks(d, m, i));
    }
}

proof fn lemma_step_list(
    d: Seq<Seq<u8>>,
    m: InodeModel,
    d2: Seq<Seq<u8>>,
    m2: InodeModel,
    j: int,
    nb: Seq<u32>,
    t: int,
    t2: int,
)
    requires
        0 <= j < INDIRECT2_BOUND,
        0 <= t,
        t2 == t + step_cost(j),
        t2 <= nb.len(),
        forall|i: int| 0 <= i < j ==> #[trigger] block_of(d2, m2, i) == block_of(d, m, i),
        j > DIRECT_BOUND ==> m2.indirect1 == m.indirect1,
        j > INDIRECT1_BOUND ==> m2.indirect2 == m.indirect2,
        forall|q: int| 0 <= q < mids_needed(j) ==> #[trigger] mid_of(d2, m2, q) == mid_of(d, m, q),
        block_of(d2, m2, j) == nb[t2 - 1],
        j == DIRECT_BOUND ==> m2.indirect1 == nb[t],
        j == INDIRECT1_BOUND ==> m2.indirect2 == nb[t],
        j >= INDIRECT1_BOUND && (j - INDIRECT1_BOUND) % 128 == 0 ==> mid_of(d2, m2, (j - INDIRECT1_BOUND) / 128) == nb[t2 - 2] as int,
    ensures
        blocks_list(d2, m2, j + 1) == blocks_list(d, m, j) + nb.subrange(t, t2),
{
    lemma_blocks_list_frame(d, m, d2, m2, j);
    assert(step_blocks(d2, m2, j) =~= nb.subrange(t, t2));
}

/// None of the blocks of `nb` is one of the first `db` data blocks of `m`.
pub open spec fn fresh_data(disk: Seq<Seq<u8>>, m: InodeModel, db: int, nb: Seq<u32>) -> bool {
    forall|i: int, j: int| 0 <= i < nb.len() && 0 <= j < db ==> #[trigger] nb[i] as int != #[trigger] block_of(disk, m, j)
}

/// Whether position `x` of the blocks handed to `increase_size` from `od`
/// data blocks on holds the data block of one of the data blocks `od..db`.
pub open spec fn is_data_pos(x: int, od: int, db: int) -> bool {
    exists|i: int| od <= i < db && x == #[trigger] blocks_for(i + 1) - blocks_for(od) - 1
}

proof fn lemma_pos_increasing(od: int, i1: int, i2: int)
    requires
        0 <= od <= i1 < i2,
    ensures
        blocks_for(i1 + 1) - blocks_for(od) - 1 < blocks_for(i2 + 1) - blocks_for(od) - 1,
        blocks_for(i1 + 1) <= blocks_for(i2),
{
    lemma_blocks_monotone(i1 + 1, i2);
    lemma_blocks_step(i2);
}

/// What threading data block `j` into the index does, when it goes from
/// `(d0, m0)` to `(d1, m1)` taking the blocks of `nb` from `t` up to `t2`.
pub open spec fn added(
    d0: Seq<Seq<u8>>,
    m0: InodeModel,
    d1: Seq<Seq<u8>>,
    m1: InodeModel,
    j: int,
    nb: Seq<u32>,
    t: int,
    t2: int,
) -> bool {
    &&& d1.len() == d0.len()
    &&& m1.size == m0.size
    &&& m1.type_ == m0.type_
    &&& m1.direct.len() == INODE_DIRECT_COUNT
    &&& t2 == t + step_cost(j)
    &&& forall|i: int| 0 <= i < j && i < DIRECT_BOUND ==> #[trigger] m1.direct[i] == m0.direct[i]
    &&& j > DIRECT_BOUND ==> m1.indirect1 == m0.indirect1
    &&& j > INDIRECT1_BOUND ==> m1.indirect2 == m0.indirect2
    &&& index_ok(d0, m0, j) && fresh_from(d0, m0, j, nb, t) ==> {
        &&& forall|i: int| 0 <= i < j ==> #[trigger] block_of(d1, m1, i) == block_of(d0, m0, i)
        &&& block_of(d1, m1, j) == nb[t2 - 1]
        &&& index_ok(d1, m1, j + 1)
        &&& fresh_from(d1, m1, j + 1, nb, t2)
        &&& j == DIRECT_BOUND ==> m1.indirect1 == nb[t]
        &&& j == INDIRECT1_BOUND ==> m1.indirect2 == nb[t]
        &&& j >= INDIRECT1_BOUND && (j - INDIRECT1_BOUND) % 128 == 0 ==> mid_of(d1, m1, (j - INDIRECT1_BOUND) / 128)
            == nb[t2 - 2] as int
        &&& forall|q: int| 0 <= q < mids_needed(j) ==> #[trigger] mid_of(d1, m1, q) == mid_of(d0, m0, q)
        &&& forall|b: int|
            #[trigger] used_index(d1, m1, j + 1, b) ==> used_index(d0, m0, j, b) || exists|x: int|
                t <= x < t2 - 1 && b == #[trigger] nb[x] as int
        &&& forall|b: int| !used_index(d1, m1, j + 1, b) ==> #[trigger] block_at(d1, b) == block_at(d0, b)
    }
}

/// A four-byte write leaves every other aligned four-byte word as it was.
proof fn lemma_word_frame(d: Seq<Seq<u8>>, blk: int, off: int, v: u32, x: int, o: int)
    requires
        crate::block_dev::blocks_sized(d),
        off % 4 == 0,
        o % 4 == 0,
        0 <= off,
        off + 4 <= BLOCK_SZ,
        0 <= o,
        o + 4 <= BLOCK_SZ,
        x != blk || o != off,
    ensures
        le_u32(block_at(write_spec(d, blk, off, le_bytes(v)), x), o) == le_u32(block_at(d, x), o),
{
    let d2 = write_spec(d, blk, off, le_bytes(v));
    if x == blk && 0 <= blk < d.len() {
        assert(o + 4 <= off || off + 4 <= o) by (nonlinear_arith)
            requires
                off % 4 == 0,
                o % 4 == 0,
                o != off,
        ;
        assert(block_at(d2, x)[o] == block_at(d, x)[o]);
        assert(block_at(d2, x)[o + 1] == block_at(d, x)[o + 1]);
        assert(block_at(d2, x)[o + 2] == block_at(d, x)[o + 2]);
        assert(block_at(d2, x)[o + 3] == block_at(d, x)[o + 3]);
    } else {
        assert(block_at(d2, x) == block_at(d, x));
    }
}

impl DiskInode {
    /// Threads data block `j` into the index, taking from `nb` at `t` first
    /// any index block that `j` is the first to need, then the data block;
    /// returns where the next block to take is.
    fn add_block<D: BlockDevice>(&mut self, j: usize, nb: &[u32], t: usize, cache: &mut BlockCache<D>) -> (t2: usize)
        requires
            old(self).wf(),
            old(cache).wf(),
            j < INDIRECT2_BOUND,
            t + step_cost(j as int) <= nb@.len(),
        ensures
            final(self).wf(),
            final(cache).wf(),
            added(old(cache).disk(), old(self)@, final(cache).disk(), final(self)@, j as int, nb@, t as int, t2 as int),
    {
        if j < DIRECT_BOUND {
            self.add_direct(j, nb, t, cache)
        } else if j < INDIRECT1_BOUND {
            self.add_indirect(j, nb, t, cache)
        } else {
            self.add_doubly(j, nb, t, cache)
        }
    }

    /// `add_block` for a data block reached by a direct pointer.
    fn add_direct<D: BlockDevice>(&mut self, j: usize, nb: &[u32], t: usize, cache: &mut BlockCache<D>) -> (t2: usize)
        requires
            old(self).wf(),
            old(cache).wf(),
            j < DIRECT_BOUND,
            t + step_cost(j as int) <= nb@.len(),
        ensures
            final(self).wf(),
            final(cache).wf(),
            added(old(cache).disk(), old(self)@, final(cache).disk(), final(self)@, j as int, nb@, t as int, t2 as int),
    {
        let ghost d0 = cache.disk();
        let ghost m0 = self@;
        let ghost good = index_ok(d0, m0, j as int) && fresh_from(d0, m0, j as int, nb@, t as int);
        let mut t = t;
        self.direct.set(j, nb[t]);
        t = t + 1;
        proof {
            if good {
                assert forall|i: int| t <= i < nb@.len() implies (#[trigger] nb@[i]) < d0.len() && !used_index(
                    d0,
                    self@,
                    j + 1,
                    nb@[i] as int,
                ) by {
                    assert(mids_needed(j + 1) == 0);
                }
                assert(mids_needed(j + 1) == 0);
                assert forall|b: int| #[trigger] used_index(d0, self@, j + 1, b) implies used_index(d0, m0, j as int, b)
                    || exists|x: int| t - 1 <= x < t - 1 && b == #[trigger] nb@[x] as int by {}
            }
        }
        t
    }

    /// `add_block` for a data block reached through the indirect block.
    fn add_indirect<D: BlockDevice>(&mut self, j: usize, nb: &[u32], t: usize, cache: &mut BlockCache<D>) -> (t2: usize)
        requires
            old(self).wf(),
            old(cache).wf(),
            DIRECT_BOUND <= j < INDIRECT1_BOUND,
            t + step_cost(j as int) <= nb@.len(),
        ensures
            final(self).wf(),
            final(cache).wf(),
            added(old(cache).disk(), old(self)@, final(cache).disk(), final(self)@, j as int, nb@, t as int, t2 as int),
    {
        let ghost d0 = cache.disk();
        let ghost m0 = self@;
        let ghost good = index_ok(d0, m0, j as int) && fresh_from(d0, m0, j as int, nb@, t as int);
        let mut t = t;
        if j == DIRECT_BOUND {
            self.indirect1 = nb[t];
            t = t + 1;
        }
        let ghost t1 = t;
        cache.write_u32(self.indirect1 as usize, (j - DIRECT_BOUND) * 4, nb[t]);
        t = t + 1;
        proof {
            if good {
                let d1 = cache.disk();
                assert(self.indirect1 < d0.len()) by {
                    if j == DIRECT_BOUND {
                        assert(nb@[t1 - 1] < d0.len());
                    }
                }
                assert forall|i: int| 0 <= i < j implies #[trigger] block_of(d1, self@, i) == block_of(d0, m0, i) by {
                    if i >= DIRECT_BOUND {
                        lemma_word_frame(d0, self.indirect1 as int, 4 * (j - 28), nb@[t1 as int], self.indirect1 as int, 4 * (i - 28));
                    }
                }
                assert(mids_needed(j + 1) == 0);
                assert forall|i: int| t <= i < nb@.len() implies (#[trigger] nb@[i]) < d1.len() && !used_index(
                    d1,
                    self@,
                    j + 1,
                    nb@[i] as int,
                ) by {
                    if j == DIRECT_BOUND {
                        assert(nb@[i] != nb@[t1 - 1]);
                    } else {
                        assert(!used_index(d0, m0, j as int, nb@[i] as int));
                    }
                }
                let t0 = if j == DIRECT_BOUND { t1 - 1 } else { t1 as int };
                assert forall|b: int| #[trigger] used_index(d1, self@, j + 1, b) implies used_index(d0, m0, j as int, b)
                    || exists|x: int| t0 <= x < t - 1 && b == #[trigger] nb@[x] as int by {
                    if j == DIRECT_BOUND {
                        assert(b == nb@[t1 - 1] as int);
                    }
                }
                assert forall|b: int| !used_index(d1, self@, j + 1, b) implies #[trigger] block_at(d1, b) == block_at(d0, b) by {
                    assert(b != self.indirect1);
                }
            }
        }
        t
    }

    /// `add_block` for a data block reached through the doubly-indirect block.
    #[verifier::rlimit(80)]
    fn add_doubly<D: BlockDevice>(&mut self, j: usize, nb: &[u32], t: usize, cache: &mut BlockCache<D>) -> (t2: usize)
        requires
            old(self).wf(),
            old(cache).wf(),
            INDIRECT1_BOUND <= j < INDIRECT2_BOUND,
            t + step_cost(j as int) <= nb@.len(),
        ensures
            final(self).wf(),
            final(cache).wf(),
            added(old(cache).disk(), old(self)@, final(cache).disk(), final(self)@, j as int, nb@, t as int, t2 as int),
    {
        let ghost d0 = cache.disk();
        let ghost m0 = self@;
        let ghost good = index_ok(d0, m0, j as int) && fresh_from(d0, m0, j as int, nb@, t as int);
        let mut t = t;
        let k = j - INDIRECT1_BOUND;
        let q = k / INODE_INDIRECT1_COUNT;
        let r = k % INODE_INDIRECT1_COUNT;
        if k == 0 {
            self.indirect2 = nb[t];
            t = t + 1;
        }
        let ghost m1 = self@;
        let ghost ta = t;
        if r == 0 {
            cache.write_u32(self.indirect2 as usize, q * 4, nb[t]);
            t = t + 1;
        }
        let ghost d1 = cache.disk();
        let ghost tb = t;
        let mid = cache.read_u32(self.indirect2 as usize, q * 4);
        cache.write_u32(mid as usize, r * 4, nb[t]);
        t = t + 1;
        proof {
            if good {
                let d2 = cache.disk();
                let jj = j as int;
                assert(mids_needed(jj) == (if r == 0 { q as int } else { q + 1 })) by (nonlinear_arith)
                    requires
                        k == jj - 156,
                        q == k / 128,
                        r == k % 128,
                        k >= 0,
                        mids_needed(jj) == (jj - 156 + 127) / 128,
                ;
                assert(mids_needed(jj + 1) == q + 1) by (nonlinear_arith)
                    requires
                        k == jj - 156,
                        q == k / 128,
                        k >= 0,
                        mids_needed(jj + 1) == (jj + 1 - 156 + 127) / 128,
                ;
                // the doubly-indirect block lies on the disk and differs from the indirect block
                assert(self.indirect2 < d0.len() && self.indirect2 != self.indirect1) by {
                    if k == 0 {
                        assert(nb@[ta - 1] < d0.len());
                        assert(used_index(d0, m0, jj, m0.indirect1 as int));
                    }
                }
                // mids already in use keep their place through the first write
                assert forall|qq: int| 0 <= qq < mids_needed(jj) implies #[trigger] mid_of(d1, m1, qq) == mid_of(d0, m0, qq) by {
                    if r == 0 {
                        lemma_word_frame(d0, self.indirect2 as int, 4 * q, nb@[ta as int], self.indirect2 as int, 4 * qq);
                    }
                }
                assert(mid as int == mid_of(d1, m1, q as int));
                // the mid block for `j` lies on the disk and is no other index block
                assert(mid < d0.len() && mid != self.indirect1 && mid != self.indirect2) by {
                    if r == 0 {
                        assert(mid == nb@[ta as int]);
                        assert(used_index(d0, m0, jj, m0.indirect1 as int));
                        if k != 0 {
                            assert(used_index(d0, m0, jj, m0.indirect2 as int));
                        } else {
                            assert(nb@[ta as int] != nb@[ta - 1]);
                        }
                    } else {
                        assert(mid_of(d1, m1, q as int) == mid_of(d0, m0, q as int));
                    }
                }
                assert(mid == nb@[ta as int] ==> r == 0);
                // every mid in use after the step
                assert forall|qq: int| 0 <= qq < mids_needed(jj + 1) implies #[trigger] mid_of(d2, self@, qq) == (if qq == q {
                    mid as int
                } else {
                    mid_of(d0, m0, qq)
                }) by {
                    lemma_word_frame(d1, mid as int, 4 * r, nb@[tb as int], self.indirect2 as int, 4 * qq);
                    if qq != q {
                        assert(qq < mids_needed(jj));
                    }
                }
                assert forall|i: int| 0 <= i < jj implies #[trigger] block_of(d2, self@, i) == block_of(d0, m0, i) by {
                    if DIRECT_BOUND <= i < INDIRECT1_BOUND {
                        assert(used_index(d0, m0, jj, m0.indirect1 as int));
                        if r == 0 {
                            lemma_word_frame(d0, self.indirect2 as int, 4 * q, nb@[ta as int], self.indirect1 as int, 4 * (i - 28));
                        }
                        lemma_word_frame(d1, mid as int, 4 * r, nb@[tb as int], self.indirect1 as int, 4 * (i - 28));
                    } else if i >= INDIRECT1_BOUND {
                        let ki = i - 156;
                        let qi = ki / 128;
                        let ri = ki % 128;
                        assert(qi < mids_needed(jj) && (qi < q || (qi == q && ri < r))) by (nonlinear_arith)
                            requires
                                ki == i - 156,
                                qi == ki / 128,
                                ri == ki % 128,
                                0 <= ki < k,
                                q == k / 128,
                                r == k % 128,
                                mids_needed(jj) == (if r == 0 { q as int } else { q + 1 }),
                        ;
                        let mi = mid_of(d0, m0, qi);
                        assert(mid_of(d2, self@, qi) == mi);
                        if r == 0 {
                            lemma_word_frame(d0, self.indirect2 as int, 4 * q, nb@[ta as int], mi, 4 * ri);
                        }
                        if qi != q {
                            assert(mid != mi) by {
                                if r == 0 {
                                    assert(used_index(d0, m0, jj, mi));
                                } else {
                                    assert(mid == mid_of(d0, m0, q as int));
                                }
                            }
                        }
                        lemma_word_frame(d1, mid as int, 4 * r, nb@[tb as int], mi, 4 * ri);
                    }
                }
                assert(block_of(d2, self@, jj) == nb@[tb as int]) by {
                    assert(mid_of(d2, self@, q as int) == mid as int);
                }
                // index blocks after the step
                assert forall|qq: int| 0 <= qq < mids_needed(jj + 1) implies 0 <= #[trigger] mid_of(d2, self@, qq) < d2.len()
                    && mid_of(d2, self@, qq) != self.indirect1 && mid_of(d2, self@, qq) != self.indirect2 by {
                    if qq != q {
                        assert(qq < mids_needed(jj));
                    }
                }
                assert forall|q1: int, q2: int|
                    0 <= q1 < mids_needed(jj + 1) && 0 <= q2 < mids_needed(jj + 1) && q1 != q2 implies #[trigger] mid_of(d2, self@, q1)
                        != #[trigger] mid_of(d2, self@, q2) by {
                    if q1 == q && r == 0 {
                        assert(used_index(d0, m0, jj, mid_of(d0, m0, q2)));
                    } else if q2 == q && r == 0 {
                        assert(used_index(d0, m0, jj, mid_of(d0, m0, q1)));
                    }
                }
                assert forall|i: int| t <= i < nb@.len() implies (#[trigger] nb@[i]) < d2.len() && !used_index(
                    d2,
                    self@,
                    jj + 1,
                    nb@[i] as int,
                ) by {
                    assert(!used_index(d0, m0, jj, nb@[i] as int));
                    if k == 0 {
                        assert(nb@[i] != nb@[ta - 1]);
                    }
                    if r == 0 {
                        assert(nb@[i] != nb@[ta as int]);
                    }
                    if exists|qq: int| 0 <= qq < mids_needed(jj + 1) && nb@[i] as int == #[trigger] mid_of(d2, self@, qq) {
                        let qq = choose|qq: int| 0 <= qq < mids_needed(jj + 1) && nb@[i] as int == #[trigger] mid_of(d2, self@, qq);
                        if qq != q {
                            assert(qq < mids_needed(jj));
                            assert(used_index(d0, m0, jj, nb@[i] as int));
                        }
                    }
                }
                let t0 = if k == 0 { ta - 1 } else { ta as int };
                assert forall|b: int| #[trigger] used_index(d2, self@, jj + 1, b) implies used_index(d0, m0, jj, b)
                    || exists|x: int| t0 <= x < t - 1 && b == #[trigger] nb@[x] as int by {
                    if b == self.indirect1 {
                        assert(used_index(d0, m0, jj, b));
                    } else if b == self.indirect2 {
                        if k == 0 {
                            assert(b == nb@[ta - 1] as int);
                        } else {
                            assert(used_index(d0, m0, jj, b));
                        }
                    } else {
                        let qq = choose|qq: int| 0 <= qq < mids_needed(jj + 1) && b == #[trigger] mid_of(d2, self@, qq);
                        if qq != q {
                            assert(qq < mids_needed(jj));
                            assert(b == mid_of(d0, m0, qq));
                            assert(used_index(d0, m0, jj, b));
                        } else if r == 0 {
                            assert(b == nb@[ta as int] as int);
                        } else {
                            assert(b == mid_of(d0, m0, q as int));
                            assert(used_index(d0, m0, jj, b));
                        }
                    }
                }
                assert forall|qq: int| 0 <= qq < mids_needed(jj) implies #[trigger] mid_of(d2, self@, qq) == mid_of(d0, m0, qq) by {
                    assert(qq < mids_needed(jj + 1));
                    if qq == q {
                        assert(r != 0);
                    }
                }
                if r == 0 {
                    assert(mid_of(d2, self@, q as int) == nb@[ta as int] as int);
                }
                assert forall|b: int| !used_index(d2, self@, jj + 1, b) implies #[trigger] block_at(d2, b) == block_at(d0, b) by {
                    assert(b != self.indirect2);
                    assert(mid_of(d2, self@, q as int) == mid as int);
                    assert(b != mid);
                    assert(block_at(d2, b) == block_at(d1, b));
                }
            }
        }
        t
    }
}


/// Each data block's step sits in `blocks_list` at its own range of positions.
pub proof fn lemma_list_steps(d: Seq<Seq<u8>>, m: InodeModel, db: int)
    requires
        0 <= db,
    ensures
        blocks_list(d, m, db).len() == blocks_for(db),
        forall|j: int, x: int|
            0 <= j < db && 0 <= x < step_cost(j) ==> blocks_list(d, m, db)[blocks_for(j) + x] == #[trigger] step_blocks(
                d,
                m,
                j,
            )[x],
    decreases db,
{
    lemma_blocks_list_len(d, m, db);
    if db > 0 {
        lemma_list_steps(d, m, db - 1);
        lemma_blocks_list_len(d, m, db - 1);
        let l = blocks_list(d, m, db);
        let p = blocks_list(d, m, db - 1);
        assert(l == p + step_blocks(d, m, db - 1));
        assert(step_blocks(d, m, db - 1).len() == step_cost(db - 1));
        assert forall|j: int, x: int| 0 <= j < db && 0 <= x < step_cost(j) implies l[blocks_for(j) + x] == #[trigger] step_blocks(d, m, j)[x] by {
            if j < db - 1 {
                lemma_blocks_step(j);
                lemma_blocks_monotone(j + 1, db - 1);
                assert(l[blocks_for(j) + x] == p[blocks_for(j) + x]);
            }
        }
    }
}

/// A block pointer read from the disk fits a `u32`.
proof fn lemma_block_of_bound(d: Seq<Seq<u8>>, m: InodeModel, j: int)
    ensures
        0 <= block_of(d, m, j) <= u32::MAX,
{
    let k = j - INDIRECT1_BOUND;
    assert forall|b: Seq<u8>, o: int| 0 <= #[trigger] le_u32(b, o) <= u32::MAX by {
        let b0 = b[o];
        let b1 = b[o + 1];
        let b2 = b[o + 2];
        let b3 = b[o + 3];
        assert(0 <= b0 + 256 * b1 + 65536 * b2 + 16777216 * b3 <= 0xffff_ffff) by (nonlinear_arith)
            requires
                0 <= b0 < 256,
                0 <= b1 < 256,
                0 <= b2 < 256,
                0 <= b3 < 256,
        ;
    }
}

/// Blocks listed at different positions of a list without repeats differ; so a
/// list without repeats makes the inode sound and its index consistent.
#[verifier::rlimit(100)]
pub proof fn lemma_distinct_list_sound(d: Seq<Seq<u8>>, m: InodeModel)
    requires
        model_wf(m),
        model_sized(m),
        ({
            let l = blocks_list(d, m, data_blocks_spec(m.size as int));
            &&& forall|k1: int, k2: int| 0 <= k1 < l.len() && 0 <= k2 < l.len() && k1 != k2 ==> #[trigger] l[k1] != #[trigger] l[k2]
            &&& forall|k: int| 0 <= k < l.len() ==> (#[trigger] l[k] as int) < d.len()
        }),
    ensures
        sound(d, m),
        index_ok(d, m, data_blocks_spec(m.size as int)),
{
    let db = data_blocks_spec(m.size as int);
    assert(db <= INDIRECT2_BOUND) by (nonlinear_arith)
        requires
            db == (m.size + 511) / 512,
            m.size <= 8_468_480,
    ;
    let l = blocks_list(d, m, db);
    lemma_list_steps(d, m, db);
    // position of data block j, and of the index blocks
    assert forall|j: int| 0 <= j < db implies l[blocks_for(j + 1) - 1] == block_of(d, m, j) as u32 && blocks_for(j) <= blocks_for(j + 1) - 1
        < l.len() by {
        lemma_blocks_step(j);
        lemma_blocks_monotone(j + 1, db);
        assert(step_blocks(d, m, j)[step_cost(j) - 1] == block_of(d, m, j) as u32);
    }
    let pos1 = 28int;
    let pos2 = blocks_for(156);
    assert(db > DIRECT_BOUND ==> l[pos1] == m.indirect1 && pos1 == blocks_for(28)) by {
        if db > DIRECT_BOUND {
            assert(step_blocks(d, m, 28)[0] == m.indirect1);
        }
    }
    assert(db > INDIRECT1_BOUND ==> l[pos2] == m.indirect2) by {
        if db > INDIRECT1_BOUND {
            assert(step_blocks(d, m, 156)[0] == m.indirect2);
        }
    }
    // the position of mid block q
    assert forall|q: int|
        #![trigger mid_of(d, m, q)]
        0 <= q < mids_needed(db) implies ({
        let j = 156 + 128 * q;
        let p = blocks_for(j) + (if q == 0 { 1int } else { 0int });
        &&& j < db
        &&& l[p] == mid_of(d, m, q) as u32
        &&& blocks_for(j) <= p < blocks_for(j + 1) - 1
    }) by {
        let j = 156 + 128 * q;
        assert(j < db) by (nonlinear_arith)
            requires
                0 <= q,
                q < (db - 156 + 127) / 128,
                j == 156 + 128 * q,
        ;
        assert((j - 156) % 128 == 0 && (j - 156) / 128 == q) by (nonlinear_arith)
            requires
                j == 156 + 128 * q,
                q >= 0,
        ;
        lemma_blocks_step(j);
        let x = if q == 0 { 1int } else { 0int };
        assert(step_blocks(d, m, j)[x] == mid_of(d, m, q) as u32);
    }
    // values fit u32, so equal casts mean equal blocks
    assert forall|j: int| 0 <= j < db implies 0 <= #[trigger] block_of(d, m, j) <= u32::MAX by {
        lemma_block_of_bound(d, m, j);
    }
    assert forall|q: int| 0 <= #[trigger] mid_of(d, m, q) <= u32::MAX by {
        lemma_block_of_bound(d, m, 156 + 128 * q);
        assert(mid_of(d, m, q) == le_u32(block_at(d, m.indirect2 as int), 4 * q));
        let b = block_at(d, m.indirect2 as int);
        let o = 4 * q;
        assert(0 <= b[o] + 256 * b[o + 1] + 65536 * b[o + 2] + 16777216 * b[o + 3] <= 0xffff_ffff) by (nonlinear_arith)
            requires
                0 <= b[o] < 256,
                0 <= b[o + 1] < 256,
                0 <= b[o + 2] < 256,
                0 <= b[o + 3] < 256,
        ;
    }
    // data positions never meet index positions of another step
    assert forall|j1: int, j2: int| 0 <= j1 < j2 <= db implies #[trigger] blocks_for(j1 + 1) <= #[trigger] blocks_for(j2) by {
        lemma_blocks_monotone(j1 + 1, j2);
    }
    // sound
    assert forall|j1: int, j2: int|
        0 <= j1 < db && 0 <= j2 < db && j1 != j2 implies #[trigger] block_of(d, m, j1) != #[trigger] block_of(d, m, j2) by {
        assert(l[blocks_for(j1 + 1) - 1] != l[blocks_for(j2 + 1) - 1]);
    }
    assert forall|j: int| 0 <= j < db implies !is_index_block(d, m, #[trigger] block_of(d, m, j)) by {
        let pj = blocks_for(j + 1) - 1;
        if db > DIRECT_BOUND {
            if j < 28 {
                assert(blocks_for(j + 1) <= blocks_for(28));
            } else if j > 28 {
                assert(blocks_for(29) <= blocks_for(j));
                lemma_blocks_step(28);
            } else {
                lemma_blocks_step(28);
            }
            assert(l[pj] != l[pos1]);
        }
        if db > INDIRECT1_BOUND {
            if j < 156 {
                assert(blocks_for(j + 1) <= blocks_for(156));
            } else if j > 156 {
                assert(blocks_for(157) <= blocks_for(j));
                lemma_blocks_step(156);
            } else {
                lemma_blocks_step(156);
            }
            assert(l[pj] != l[pos2]);
        }
        if exists|q: int| 0 <= q < mids_needed(db) && block_of(d, m, j) == #[trigger] mid_of(d, m, q) {
            let q = choose|q: int| 0 <= q < mids_needed(db) && block_of(d, m, j) == #[trigger] mid_of(d, m, q);
            let jq = 156 + 128 * q;
            let p = blocks_for(jq) + (if q == 0 { 1int } else { 0int });
            if j < jq {
                assert(blocks_for(j + 1) <= blocks_for(jq));
            } else if j > jq {
                assert(blocks_for(jq + 1) <= blocks_for(j));
            }
            assert(l[pj] != l[p]);
        }
    }
    assert forall|j: int| 0 <= j < db implies 0 <= #[trigger] block_of(d, m, j) < d.len() by {
        assert((l[blocks_for(j + 1) - 1] as int) < d.len());
    }
    // index_ok
    if db > INDIRECT1_BOUND {
        lemma_blocks_step(28);
        lemma_blocks_monotone(29, 156);
        assert(l[pos1] != l[pos2]);
    }
    assert forall|q: int|
        0 <= q < mids_needed(db) implies 0 <= #[trigger] mid_of(d, m, q) < d.len() && mid_of(d, m, q) != m.indirect1
            && mid_of(d, m, q) != m.indirect2 by {
        let jq = 156 + 128 * q;
        let p = blocks_for(jq) + (if q == 0 { 1int } else { 0int });
        assert((l[p] as int) < d.len());
        lemma_blocks_step(28);
        lemma_blocks_monotone(29, jq);
        assert(l[p] != l[pos1]);
        assert(l[p] != l[pos2]);
    }
    assert forall|q1: int, q2: int|
        0 <= q1 < mids_needed(db) && 0 <= q2 < mids_needed(db) && q1 != q2 implies #[trigger] mid_of(d, m, q1)
            != #[trigger] mid_of(d, m, q2) by {
        let j1 = 156 + 128 * q1;
        let j2 = 156 + 128 * q2;
        let p1 = blocks_for(j1) + (if q1 == 0 { 1int } else { 0int });
        let p2 = blocks_for(j2) + (if q2 == 0 { 1int } else { 0int });
        if j1 < j2 {
            assert(blocks_for(j1 + 1) <= blocks_for(j2));
        } else {
            assert(blocks_for(j2 + 1) <= blocks_for(j1));
        }
        assert(l[p1] != l[p2]);
    }
    assert(db > DIRECT_BOUND ==> (m.indirect1 as int) < d.len());
    assert(db > INDIRECT1_BOUND ==> (m.indirect2 as int) < d.len());
}


/// Every data block and every index block of `m` appears in its `blocks_list`.
pub proof fn lemma_list_members(d: Seq<Seq<u8>>, m: InodeModel)
    requires
        model_sized(m),
    ensures
        ({
            let db = data_blocks_spec(m.size as int);
            let l = blocks_list(d, m, db);
            &&& forall|j: int| 0 <= j < db ==> l.contains(#[trigger] block_of(d, m, j) as u32) && 0 <= block_of(d, m, j) <= u32::MAX
            &&& forall|b: int| #[trigger] used_index(d, m, db, b) ==> l.contains(b as u32) && 0 <= b <= u32::MAX
        }),
{
    let db = data_blocks_spec(m.size as int);
    assert(db <= INDIRECT2_BOUND) by (nonlinear_arith)
        requires
            db == (m.size + 511) / 512,
            m.size <= 8_468_480,
    ;
    let l = blocks_list(d, m, db);
    lemma_list_steps(d, m, db);
    assert forall|j: int| 0 <= j < db implies l.contains(#[trigger] block_of(d, m, j) as u32) && 0 <= block_of(d, m, j) <= u32::MAX by {
        lemma_blocks_step(j);
        lemma_blocks_monotone(j + 1, db);
        lemma_block_of_bound(d, m, j);
        assert(step_blocks(d, m, j)[step_cost(j) - 1] == block_of(d, m, j) as u32);
        assert(l[blocks_for(j + 1) - 1] == block_of(d, m, j) as u32);
    }
    assert forall|b: int| #[trigger] used_index(d, m, db, b) implies l.contains(b as u32) && 0 <= b <= u32::MAX by {
        if db > DIRECT_BOUND && b == m.indirect1 {
            lemma_blocks_monotone(29, db);
            lemma_blocks_step(28);
            assert(step_blocks(d, m, 28)[0] == m.indirect1);
            assert(l[blocks_for(28)] == m.indirect1);
        } else if db > INDIRECT1_BOUND && b == m.indirect2 {
            lemma_blocks_monotone(157, db);
            lemma_blocks_step(156);
            assert(step_blocks(d, m, 156)[0] == m.indirect2);
            assert(l[blocks_for(156)] == m.indirect2);
        } else {
            let q = choose|q: int| 0 <= q < mids_needed(db) && b == #[trigger] mid_of(d, m, q);
            let j = 156 + 128 * q;
            assert(j < db) by (nonlinear_arith)
                requires
                    0 <= q,
                    q < (db - 156 + 127) / 128,
                    j == 156 + 128 * q,
            ;
            assert((j - 156) % 128 == 0 && (j - 156) / 128 == q) by (nonlinear_arith)
                requires
                    j == 156 + 128 * q,
                    q >= 0,
            ;
            lemma_blocks_step(j);
            lemma_blocks_monotone(j + 1, db);
            let x = if q == 0 { 1int } else { 0int };
            assert(step_blocks(d, m, j)[x] == mid_of(d, m, q) as u32);
            assert(l[blocks_for(j) + x] == b as u32);
            let bb = block_at(d, m.indirect2 as int);
            let o = 4 * q;
            assert(0 <= bb[o] + 256 * bb[o + 1] + 65536 * bb[o + 2] + 16777216 * bb[o + 3] <= 0xffff_ffff) by (nonlinear_arith)
                requires
                    0 <= bb[o] < 256,
                    0 <= bb[o + 1] < 256,
                    0 <= bb[o + 2] < 256,
                    0 <= bb[o + 3] < 256,
            ;
        }
    }
}

} // verus!
