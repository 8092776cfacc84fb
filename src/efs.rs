//! The filesystem manager: the region layout, the two allocators, and where
//! each inode lives.
use vstd::prelude::*;

use crate::bitmap::{first_clear, lemma_first_clear, lemma_first_clear_props, Bitmap, BLOCK_BITS};
use crate::block_cache::{block_at, write_spec, zero_block, BlockCache};
use crate::block_dev::{blocks_sized, BlockDevice};
use crate::disk_inode::DiskInode;
use crate::layout::{
    inode_of, super_block_of, DiskInodeType, SuperBlock, DISK_INODE_SZ, INODES_PER_BLOCK,
    SUPER_BLOCK_SZ,
};
use crate::BLOCK_SZ;

verus! {

/// Blocks of inode area that one block of inode bitmap needs.
pub const INODE_AREA_PER_BITMAP_BLOCK: u32 = 1024;

/// A mounted filesystem over device `D`, reached through its block cache.
pub struct EasyFileSystem<D: BlockDevice> {
    pub cache: BlockCache<D>,
    pub inode_bitmap: Bitmap,
    pub data_bitmap: Bitmap,
    pub inode_area_start_block: u32,
    pub data_area_start_block: u32,
    pub data_area_blocks: u32,
}

/// Whether a super-block describes a layout that fits a device of `n` blocks.
pub open spec fn layout_fits(sb: SuperBlock, n: int) -> bool {
    &&& sb.magic == crate::layout::EFS_MAGIC
    &&& sb.inode_bitmap_blocks >= 1
    &&& sb.inode_area_blocks == sb.inode_bitmap_blocks * INODE_AREA_PER_BITMAP_BLOCK
    &&& sb.data_area_blocks <= sb.data_bitmap_blocks * BLOCK_BITS
    &&& 1 + sb.inode_bitmap_blocks + sb.inode_area_blocks + sb.data_bitmap_blocks + sb.data_area_blocks
        <= sb.total_blocks
    &&& sb.total_blocks <= n
    &&& sb.total_blocks * BLOCK_BITS <= usize::MAX
    &&& sb.inode_bitmap_blocks * BLOCK_BITS <= u32::MAX
}

/// Whether `create` can lay out `total` blocks with `ibb` inode-bitmap blocks
/// on a device of `n` blocks.
pub open spec fn create_fits(total: int, ibb: int, n: int) -> bool {
    &&& ibb >= 1
    &&& 1 + ibb * 1025 <= total
    &&& total <= n
    &&& total <= u32::MAX
    &&& total * BLOCK_BITS <= usize::MAX
    &&& ibb * BLOCK_BITS <= u32::MAX
}

/// Data-bitmap blocks that `create` gives `data_total` blocks of data region.
pub open spec fn data_bitmap_blocks_for(data_total: int) -> int {
    (data_total + 4096) / 4097
}

impl<D: BlockDevice> EasyFileSystem<D> {
    /// The logical disk.
    pub open spec fn disk(&self) -> Seq<Seq<u8>> {
        self.cache.disk()
    }

    /// How many inodes the filesystem can hold.
    pub open spec fn inode_count(&self) -> int {
        self.inode_bitmap.blocks * BLOCK_BITS
    }

    /// The layout is consistent and lies within the disk.
    pub open spec fn wf(&self) -> bool {
        let n = self.disk().len();
        &&& self.cache.wf()
        &&& self.inode_bitmap.start_block_id == 1
        &&& self.inode_bitmap.blocks >= 1
        &&& self.inode_area_start_block == 1 + self.inode_bitmap.blocks
        &&& self.inode_area_start_block + self.inode_bitmap.blocks * INODE_AREA_PER_BITMAP_BLOCK
            <= self.data_bitmap.start_block_id
        &&& self.data_bitmap.start_block_id + self.data_bitmap.blocks == self.data_area_start_block
        &&& self.data_area_start_block + self.data_area_blocks <= n
        &&& self.data_area_start_block + self.data_area_blocks <= u32::MAX
        &&& self.data_area_blocks <= self.data_bitmap.blocks * BLOCK_BITS
        &&& self.inode_bitmap.fits(n as int)
        &&& self.data_bitmap.fits(n as int)
        &&& self.inode_bitmap.blocks * BLOCK_BITS <= u32::MAX
    }

    /// Where inode `id` is stored: its block and its offset in the block.
    pub open spec fn inode_pos(&self, id: int) -> (int, int) {
        (self.inode_area_start_block + id / INODES_PER_BLOCK as int, (id % INODES_PER_BLOCK as int) * DISK_INODE_SZ as int)
    }

    /// The data bits that stand for blocks of the data area.
    pub open spec fn data_bits(&self) -> Seq<bool> {
        self.data_bitmap.bits(self.disk()).take(self.data_area_blocks as int)
    }

    /// How many blocks of the data area are free.
    pub open spec fn free_data(&self) -> int {
        clear_count(self.data_bits())
    }

    /// Lays out a fresh filesystem of `total_blocks` blocks on `device`: zeroes
    /// every block, writes the super-block, and makes inode 0 an empty root
    /// directory. `None` when the layout does not fit.
    pub fn create(device: D, total_blocks: u32, inode_bitmap_blocks: u32) -> (r: Option<Self>)
        requires
            blocks_sized(device.blocks()),
        ensures
            r is Some <==> create_fits(total_blocks as int, inode_bitmap_blocks as int, device.blocks().len() as int),
            r matches Some(fs) ==> {
                let ibb = inode_bitmap_blocks as int;
                let data_total = total_blocks - 1 - ibb * 1025;
                let dbb = data_bitmap_blocks_for(data_total);
                &&& fs.wf()
                &&& fs.disk().len() == device.blocks().len()
                &&& fs.cache.device_blocks() == fs.disk()
                &&& fs.inode_bitmap.start_block_id == 1
                &&& fs.inode_bitmap.blocks == ibb
                &&& fs.inode_area_start_block == 1 + ibb
                &&& fs.data_bitmap.start_block_id == 1 + ibb * 1025
                &&& fs.data_bitmap.blocks == dbb
                &&& fs.data_area_start_block == 1 + ibb * 1025 + dbb
                &&& fs.data_area_blocks == data_total - dbb
                &&& super_block_of(block_at(fs.disk(), 0)) == (SuperBlock {
                    magic: crate::layout::EFS_MAGIC,
                    total_blocks,
                    inode_bitmap_blocks,
                    inode_area_blocks: (ibb * 1024) as u32,
                    data_bitmap_blocks: dbb as u32,
                    data_area_blocks: (data_total - dbb) as u32,
                })
                &&& fs.inode_bitmap.bits(fs.disk()) == Seq::new(fs.inode_count() as nat, |i: int| i == 0)
                &&& forall|i: int| 0 <= i < fs.data_bits().len() ==> !#[trigger] fs.data_bits()[i]
                &&& inode_of(block_at(fs.disk(), 1 + ibb), 0).size == 0
                &&& inode_of(block_at(fs.disk(), 1 + ibb), 0).type_ == DiskInodeType::Directory
                &&& fs.free_data() == fs.data_area_blocks
                &&& fs.inode_ok(inode_of(block_at(fs.disk(), 1 + ibb), 0))
            },
    {
        let n = device.num_blocks();
        if inode_bitmap_blocks == 0 || total_blocks as usize > n {
            return None;
        }
        let ibb = inode_bitmap_blocks as u64;
        if 1 + ibb * 1025 > total_blocks as u64 {
            return None;
        }
        if total_blocks as u64 * 4096 > usize::MAX as u64 || ibb * 4096 > u32::MAX as u64 {
            return None;
        }
        let inode_area_blocks = (ibb * 1024) as u32;
        let inode_total_blocks = (ibb * 1025) as u32;
        let data_total_blocks = total_blocks - 1 - inode_total_blocks;
        let data_bitmap_blocks = ((data_total_blocks as u64 + 4096) / 4097) as u32;
        proof {
            let dt = data_total_blocks as int;
            let dbb = data_bitmap_blocks as int;
            assert(dbb == (dt + 4096) / 4097);
            assert(dbb <= dt && dt - dbb <= dbb * 4096) by (nonlinear_arith)
                requires
                    dbb == (dt + 4096) / 4097,
                    dt >= 0,
            ;
        }
        let data_area_blocks = data_total_blocks - data_bitmap_blocks;
        let cache = BlockCache::new(device);
        let fs = Self::format(cache, total_blocks, inode_bitmap_blocks, inode_area_blocks, data_bitmap_blocks, data_area_blocks);
        proof {
            lemma_clear_count_all(fs.data_bits());
            let m = inode_of(block_at(fs.disk(), 1 + inode_bitmap_blocks as int), 0);
            assert(crate::disk_inode::blocks_list(fs.disk(), m, crate::layout::data_blocks_spec(m.size as int)) =~= Seq::<u32>::empty());
        }
        Some(fs)
    }

    /// Formats the logical disk of `cache` with the given region sizes.
    #[verifier::rlimit(40)]
    fn format(
        cache: BlockCache<D>,
        total_blocks: u32,
        inode_bitmap_blocks: u32,
        inode_area_blocks: u32,
        data_bitmap_blocks: u32,
        data_area_blocks: u32,
    ) -> (fs: Self)
        requires
            cache.wf(),
            inode_bitmap_blocks >= 1,
            inode_area_blocks == inode_bitmap_blocks * 1024,
            1 + inode_bitmap_blocks + inode_area_blocks + data_bitmap_blocks + data_area_blocks == total_blocks,
            total_blocks <= cache.disk().len(),
            total_blocks * 4096 <= usize::MAX,
            inode_bitmap_blocks * 4096 <= u32::MAX,
            data_area_blocks <= data_bitmap_blocks * 4096,
        ensures
            fs.wf(),
            fs.disk().len() == cache.disk().len(),
            fs.cache.device_blocks() == fs.disk(),
            fs.inode_bitmap.start_block_id == 1,
            fs.inode_bitmap.blocks == inode_bitmap_blocks,
            fs.inode_area_start_block == 1 + inode_bitmap_blocks,
            fs.data_bitmap.start_block_id == 1 + inode_bitmap_blocks + inode_area_blocks,
            fs.data_bitmap.blocks == data_bitmap_blocks,
            fs.data_area_start_block == 1 + inode_bitmap_blocks + inode_area_blocks + data_bitmap_blocks,
            fs.data_area_blocks == data_area_blocks,
            super_block_of(block_at(fs.disk(), 0)) == (SuperBlock {
                magic: crate::layout::EFS_MAGIC,
                total_blocks,
                inode_bitmap_blocks,
                inode_area_blocks,
                data_bitmap_blocks,
                data_area_blocks,
            }),
            fs.inode_bitmap.bits(fs.disk()) == Seq::new(fs.inode_count() as nat, |i: int| i == 0),
            forall|i: int| 0 <= i < fs.data_bits().len() ==> !#[trigger] fs.data_bits()[i],
            inode_of(block_at(fs.disk(), 1 + inode_bitmap_blocks), 0).size == 0,
            inode_of(block_at(fs.disk(), 1 + inode_bitmap_blocks), 0).type_ == DiskInodeType::Directory,
    {
        let mut cache = cache;
        let inode_total_blocks = inode_bitmap_blocks + inode_area_blocks;
        zero_blocks(&mut cache, total_blocks);
        let ghost d0 = cache.disk();
        let sb = SuperBlock::new(
            total_blocks,
            inode_bitmap_blocks,
            inode_area_blocks,
            data_bitmap_blocks,
            data_area_blocks,
        );
        let rec = sb.encode();
        cache.write(0, 0, rec.as_slice());
        let ghost d1 = cache.disk();
        let inode_bitmap = Bitmap::new(1, inode_bitmap_blocks as usize);
        let data_bitmap = Bitmap::new((1 + inode_total_blocks) as usize, data_bitmap_blocks as usize);
        proof {
            assert(super_block_of(block_at(d1, 0)) == sb) by {
                assert forall|k: int| 0 <= k < 24 implies block_at(d1, 0)[k] == rec@[k] by {}
            }
            assert forall|b: int| 1 <= b < total_blocks implies #[trigger] block_at(d1, b) == zero_block() by {
                assert(block_at(d1, b) == block_at(d0, b));
            }
            inode_bitmap.lemma_zero_clear(d1);
            lemma_first_clear(inode_bitmap.bits(d1), 0);
        }
        let mut fs = EasyFileSystem {
            cache,
            inode_bitmap,
            data_bitmap,
            inode_area_start_block: 1 + inode_bitmap_blocks,
            data_area_start_block: 1 + inode_total_blocks + data_bitmap_blocks,
            data_area_blocks,
        };
        let root = fs.inode_bitmap.allocate(&mut fs.cache);
        let ghost d2 = fs.cache.disk();
        let root_inode = DiskInode::new(DiskInodeType::Directory);
        root_inode.store(&mut fs.cache, fs.inode_area_start_block as usize, 0);
        fs.cache.sync_all();
        proof {
            let d3 = fs.cache.disk();
            let rb = 1 + inode_bitmap_blocks as int;
            assert(root == Some(0usize));
            assert forall|blk: int| blk != rb implies #[trigger] block_at(d3, blk) == block_at(d2, blk) by {}
            fs.inode_bitmap.lemma_bits_frame(d3, d2);
            assert(fs.inode_bitmap.bits(d3) =~= Seq::new(fs.inode_count() as nat, |i: int| i == 0));
            assert forall|b: int|
                data_bitmap.start_block_id <= b < data_bitmap.start_block_id + data_bitmap.blocks implies #[trigger] block_at(d3, b)
                    == zero_block() by {
                assert(block_at(d3, b) == block_at(d2, b));
                assert(block_at(d2, b) == block_at(d1, b));
            }
            data_bitmap.lemma_zero_clear(d3);
            assert forall|i: int| 0 <= i < fs.data_bits().len() implies !#[trigger] fs.data_bits()[i] by {
                assert(fs.data_bits()[i] == data_bitmap.bits(d3)[i]);
            }
            assert(block_at(d3, 0) == block_at(d1, 0));
        }
        fs
    }

}


/// Writes zeros over blocks `0..total` of the logical disk.
fn zero_blocks<D: BlockDevice>(cache: &mut BlockCache<D>, total: u32)
    requires
        old(cache).wf(),
        total <= old(cache).disk().len(),
    ensures
        final(cache).wf(),
        final(cache).disk().len() == old(cache).disk().len(),
        forall|k: int| 0 <= k < total ==> #[trigger] block_at(final(cache).disk(), k) == zero_block(),
{
    let zeros: Vec<u8> = vec![0u8; BLOCK_SZ];
    let mut b: u32 = 0;
    while b < total
        invariant
            cache.wf(),
            cache.disk().len() == old(cache).disk().len(),
            total <= cache.disk().len(),
            zeros@.len() == BLOCK_SZ,
            forall|k: int| 0 <= k < BLOCK_SZ ==> zeros@[k] == 0,
            b <= total,
            forall|k: int| 0 <= k < b ==> #[trigger] block_at(cache.disk(), k) == zero_block(),
        decreases total - b,
    {
        let ghost prev = cache.disk();
        cache.write(b as usize, 0, zeros.as_slice());
        proof {
            assert(block_at(cache.disk(), b as int) =~= zero_block());
            assert forall|k: int| 0 <= k < b + 1 implies #[trigger] block_at(cache.disk(), k) == zero_block() by {
                if k < b {
                    assert(block_at(cache.disk(), k) == block_at(prev, k));
                }
            }
        }
        b = b + 1;
    }
}


impl<D: BlockDevice> EasyFileSystem<D> {
    /// Mounts the filesystem that `device` holds, from its super-block alone;
    /// `None` when block 0 holds no valid super-block or its layout does not
    /// fit the device.
    pub fn open(device: D) -> (r: Option<Self>)
        requires
            blocks_sized(device.blocks()),
        ensures
            r is Some <==> layout_fits(super_block_of(block_at(device.blocks(), 0)), device.blocks().len() as int),
            r matches Some(fs) ==> {
                let sb = super_block_of(block_at(device.blocks(), 0));
                &&& fs.wf()
                &&& fs.disk() == device.blocks()
                &&& fs.inode_bitmap.start_block_id == 1
                &&& fs.inode_bitmap.blocks == sb.inode_bitmap_blocks
                &&& fs.inode_area_start_block == 1 + sb.inode_bitmap_blocks
                &&& fs.data_bitmap.start_block_id == 1 + sb.inode_bitmap_blocks + sb.inode_area_blocks
                &&& fs.data_bitmap.blocks == sb.data_bitmap_blocks
                &&& fs.data_area_start_block == 1 + sb.inode_bitmap_blocks + sb.inode_area_blocks
                    + sb.data_bitmap_blocks
                &&& fs.data_area_blocks == sb.data_area_blocks
            },
    {
        let n = device.num_blocks();
        let mut cache = BlockCache::new(device);
        let b = cache.read(0, 0, SUPER_BLOCK_SZ);
        let sb = SuperBlock::decode(b.as_slice());
        proof {
            assert forall|k: int| 0 <= k < 24 implies b@[k] == block_at(cache.disk(), 0)[k] by {}
            assert(sb == super_block_of(block_at(cache.disk(), 0)));
        }
        let ibb = sb.inode_bitmap_blocks as u64;
        let iab = sb.inode_area_blocks as u64;
        let dbb = sb.data_bitmap_blocks as u64;
        let dab = sb.data_area_blocks as u64;
        let total = sb.total_blocks as u64;
        if !sb.is_valid() || ibb < 1 || iab != ibb * 1024 || dab > dbb * 4096 || 1 + ibb + iab + dbb + dab
            > total || total > n as u64 || total * 4096 > usize::MAX as u64 || ibb * 4096 > u32::MAX as u64 {
            return None;
        }
        Some(EasyFileSystem {
            cache,
            inode_bitmap: Bitmap::new(1, ibb as usize),
            data_bitmap: Bitmap::new((1 + ibb + iab) as usize, dbb as usize),
            inode_area_start_block: (1 + ibb) as u32,
            data_area_start_block: (1 + ibb + iab + dbb) as u32,
            data_area_blocks: dab as u32,
        })
    }

    /// Writes every cached change back and hands over the device.
    pub fn into_device(self) -> (r: D)
        requires
            self.wf(),
        ensures
            r.blocks() == self.disk(),
    {
        self.cache.into_device()
    }

    /// Writes every cached change back to the device.
    pub fn sync(&mut self)
        requires
            old(self).wf(),
        ensures
            final(self).wf(),
            final(self).disk() == old(self).disk(),
            final(self).cache.device_blocks() == old(self).disk(),
            final(self).inode_bitmap == old(self).inode_bitmap,
            final(self).data_bitmap == old(self).data_bitmap,
            final(self).inode_area_start_block == old(self).inode_area_start_block,
            final(self).data_area_start_block == old(self).data_area_start_block,
            final(self).data_area_blocks == old(self).data_area_blocks,
    {
        self.cache.sync_all();
    }

    /// The same layout as `other`.
    pub open spec fn same_layout(&self, other: &Self) -> bool {
        &&& self.inode_bitmap == other.inode_bitmap
        &&& self.data_bitmap == other.data_bitmap
        &&& self.inode_area_start_block == other.inode_area_start_block
        &&& self.data_area_start_block == other.data_area_start_block
        &&& self.data_area_blocks == other.data_area_blocks
    }

    /// Takes the first free inode number.
    pub fn alloc_inode(&mut self) -> (r: Option<u32>)
        requires
            old(self).wf(),
        ensures
            final(self).wf(),
            final(self).same_layout(old(self)),
            final(self).disk().len() == old(self).disk().len(),
            ({
                let bits = old(self).inode_bitmap.bits(old(self).disk());
                match r {
                    Some(i) => {
                        &&& i == first_clear(bits)
                        &&& i < old(self).inode_count()
                        &&& final(self).inode_bitmap.bits(final(self).disk()) == bits.update(i as int, true)
                        &&& forall|b: int|
                            (b < 1 || b >= old(self).inode_area_start_block) ==> #[trigger] block_at(final(self).disk(), b)
                                == block_at(old(self).disk(), b)
                    },
                    None => {
                        &&& first_clear(bits) == old(self).inode_count()
                        &&& final(self).disk() == old(self).disk()
                    },
                }
            }),
    {
        let r = self.inode_bitmap.allocate(&mut self.cache);
        match r {
            Some(i) => {
                proof {
                    assert(i < self.inode_bitmap.blocks * 4096);
                }
                Some(i as u32)
            },
            None => None,
        }
    }

    /// Takes the first free data block and returns its absolute block index;
    /// `None` when every block of the data area is taken.
    pub fn alloc_data(&mut self) -> (r: Option<u32>)
        requires
            old(self).wf(),
        ensures
            final(self).wf(),
            final(self).same_layout(old(self)),
            final(self).disk().len() == old(self).disk().len(),
            forall|b: int|
                (b < old(self).data_bitmap.start_block_id || b >= old(self).data_area_start_block)
                    ==> #[trigger] block_at(final(self).disk(), b) == block_at(old(self).disk(), b),
            old(self).free_data() > 0 ==> r is Some,
            r is Some ==> final(self).free_data() == old(self).free_data() - 1,
            ({
                let bits = old(self).data_bitmap.bits(old(self).disk());
                let f = first_clear(bits);
                &&& f < old(self).data_area_blocks ==> r == Some((old(self).data_area_start_block + f) as u32)
                    && final(self).data_bitmap.bits(final(self).disk()) == bits.update(f, true)
                &&& f >= old(self).data_area_blocks ==> r is None && final(self).data_bitmap.bits(final(self).disk())
                    == bits
            }),
    {
        let ghost bits = self.data_bitmap.bits(self.disk());
        let ghost dab = self.data_area_blocks as int;
        proof {
            lemma_first_clear_props(bits);
            if self.free_data() > 0 {
                let j = lemma_clear_exists(bits.take(dab));
                assert(!bits[j]);
                assert(first_clear(bits) <= j);
            }
        }
        match self.data_bitmap.allocate(&mut self.cache) {
            Some(i) => {
                if i < self.data_area_blocks as usize {
                    proof {
                        assert(bits.update(i as int, true).take(dab) =~= bits.take(dab).update(i as int, true));
                        lemma_clear_count_set(bits.take(dab), i as int);
                    }
                    Some(self.data_area_start_block + i as u32)
                } else {
                    self.data_bitmap.deallocate(&mut self.cache, i);
                    proof {
                        lemma_first_clear_props(bits);
                        assert(bits.update(i as int, true).update(i as int, false) =~= bits);
                    }
                    None
                }
            },
            None => None,
        }
    }

    /// Wipes data block `block_id` and returns it to the free pool.
    pub fn dealloc_data(&mut self, block_id: u32)
        requires
            old(self).wf(),
            old(self).data_area_start_block <= block_id < old(self).data_area_start_block + old(self).data_area_blocks,
            old(self).data_bitmap.bits(old(self).disk())[block_id - old(self).data_area_start_block],
        ensures
            final(self).wf(),
            final(self).same_layout(old(self)),
            final(self).disk().len() == old(self).disk().len(),
            final(self).data_bitmap.bits(final(self).disk()) == old(self).data_bitmap.bits(old(self).disk()).update(
                block_id - old(self).data_area_start_block,
                false,
            ),
            block_at(final(self).disk(), block_id as int) == zero_block(),
            forall|b: int|
                b != block_id && (b < old(self).data_bitmap.start_block_id || b >= old(self).data_area_start_block)
                    ==> #[trigger] block_at(final(self).disk(), b) == block_at(old(self).disk(), b),
    {
        let ghost d0 = self.disk();
        let zeros: Vec<u8> = vec![0u8; BLOCK_SZ];
        self.cache.write(block_id as usize, 0, zeros.as_slice());
        proof {
            assert(block_at(self.disk(), block_id as int) =~= zero_block());
            self.data_bitmap.lemma_bits_frame(self.disk(), d0);
        }
        let bit = (block_id - self.data_area_start_block) as usize;
        self.data_bitmap.deallocate(&mut self.cache, bit);
    }

    /// Where inode `inode_id` is stored: its block and its byte offset there.
    pub fn get_disk_inode_pos(&self, inode_id: u32) -> (r: (u32, usize))
        requires
            self.wf(),
            inode_id < self.inode_count(),
        ensures
            r.0 as int == self.inode_pos(inode_id as int).0,
            r.1 as int == self.inode_pos(inode_id as int).1,
            self.inode_area_start_block <= r.0 < self.data_bitmap.start_block_id,
            r.1 + DISK_INODE_SZ <= BLOCK_SZ,
            r.1 % DISK_INODE_SZ == 0,
    {
        proof {
            assert(inode_id / 4 < self.inode_bitmap.blocks * 1024) by (nonlinear_arith)
                requires
                    inode_id < self.inode_bitmap.blocks * 4096,
            ;
        }
        let block_id = self.inode_area_start_block + inode_id / INODES_PER_BLOCK as u32;
        proof {
            let q = (inode_id % 4) as int;
            assert((q * 128) % 128 == 0) by (nonlinear_arith)
                requires
                    0 <= q < 4,
            ;
        }
        (block_id, (inode_id as usize % INODES_PER_BLOCK) * DISK_INODE_SZ)
    }

    /// The absolute block index of block `data_block_id` of the data area.
    pub fn get_data_block_id(&self, data_block_id: u32) -> (r: u32)
        requires
            self.wf(),
            data_block_id < self.data_area_blocks,
        ensures
            r == self.data_area_start_block + data_block_id,
    {
        self.data_area_start_block + data_block_id
    }

    /// Whether `block_id` is a block of the data area marked in use.
    pub fn data_block_in_use(&mut self, block_id: u32) -> (r: bool)
        requires
            old(self).wf(),
        ensures
            final(self).wf(),
            final(self).disk() == old(self).disk(),
            final(self).same_layout(old(self)),
            r == (old(self).data_area_start_block <= block_id < old(self).data_area_start_block
                + old(self).data_area_blocks && old(self).data_bitmap.bits(old(self).disk())[block_id
                - old(self).data_area_start_block]),
    {
        if block_id < self.data_area_start_block || block_id - self.data_area_start_block >= self.data_area_blocks {
            return false;
        }
        self.data_bitmap.is_set(&mut self.cache, (block_id - self.data_area_start_block) as usize)
    }

    /// Returns inode number `inode_id` to the free pool if it is in use.
    pub fn dealloc_inode(&mut self, inode_id: u32)
        requires
            old(self).wf(),
            inode_id < old(self).inode_count(),
        ensures
            final(self).wf(),
            final(self).same_layout(old(self)),
            final(self).disk().len() == old(self).disk().len(),
            final(self).inode_bitmap.bits(final(self).disk()) == old(self).inode_bitmap.bits(old(self).disk()).update(
                inode_id as int,
                false,
            ),
    {
        let ghost bits = self.inode_bitmap.bits(self.disk());
        if self.inode_bitmap.is_set(&mut self.cache, inode_id as usize) {
            self.inode_bitmap.deallocate(&mut self.cache, inode_id as usize);
        } else {
            assert(bits.update(inode_id as int, false) =~= bits);
        }
    }
}


/// How many bits of `s` are clear.
pub open spec fn clear_count(s: Seq<bool>) -> int
    decreases s.len(),
{
    if s.len() == 0 {
        0
    } else {
        clear_count(s.drop_last()) + (if !s.last() {
            1int
        } else {
            0int
        })
    }
}

/// Some bit is clear where the count of clear bits is positive.
proof fn lemma_clear_exists(s: Seq<bool>) -> (j: int)
    requires
        clear_count(s) > 0,
    ensures
        0 <= j < s.len(),
        !s[j],
    decreases s.len(),
{
    if !s.last() {
        (s.len() - 1) as int
    } else {
        let j = lemma_clear_exists(s.drop_last());
        j
    }
}

/// Setting a clear bit takes one from the count of clear bits.
proof fn lemma_clear_count_set(s: Seq<bool>, f: int)
    requires
        0 <= f < s.len(),
        !s[f],
    ensures
        clear_count(s.update(f, true)) == clear_count(s) - 1,
    decreases s.len(),
{
    let t = s.update(f, true);
    if f == s.len() - 1 {
        assert(t.drop_last() =~= s.drop_last());
    } else {
        assert(t.drop_last() =~= s.drop_last().update(f, true));
        lemma_clear_count_set(s.drop_last(), f);
    }
}


/// No count of clear bits is negative.
pub proof fn lemma_clear_count_nonneg(s: Seq<bool>)
    ensures
        clear_count(s) >= 0,
    decreases s.len(),
{
    if s.len() > 0 {
        lemma_clear_count_nonneg(s.drop_last());
    }
}


/// A run with every bit clear counts all of them.
pub proof fn lemma_clear_count_all(s: Seq<bool>)
    requires
        forall|i: int| 0 <= i < s.len() ==> !#[trigger] s[i],
    ensures
        clear_count(s) == s.len(),
    decreases s.len(),
{
    if s.len() > 0 {
        lemma_clear_count_all(s.drop_last());
    }
}

impl<D: BlockDevice> EasyFileSystem<D> {
    /// How many blocks of the data area are free.
    pub fn free_data_count(&mut self) -> (r: u32)
        requires
            old(self).wf(),
        ensures
            final(self).wf(),
            final(self).disk() == old(self).disk(),
            final(self).same_layout(old(self)),
            r == old(self).free_data(),
    {
        let ghost bits = self.data_bitmap.bits(self.disk());
        let mut count: u32 = 0;
        let mut x: u32 = 0;
        while x < self.data_area_blocks
            invariant
                self.wf(),
                self.disk() == old(self).disk(),
                self.same_layout(old(self)),
                bits == self.data_bitmap.bits(self.disk()),
                x <= self.data_area_blocks,
                count == clear_count(bits.take(x as int)),
                count <= x,
            decreases self.data_area_blocks - x,
        {
            assert(bits.take(x + 1).drop_last() =~= bits.take(x as int));
            if !self.data_bitmap.is_set(&mut self.cache, x as usize) {
                count = count + 1;
            }
            x = x + 1;
        }
        assert(self.data_bits() =~= bits.take(x as int));
        count
    }
}

} // verus!
