//! On-disk records and the byte encoding they share.
use vstd::prelude::*;

use crate::BLOCK_SZ;

verus! {

/// Marks a block 0 that holds a super-block.
pub const EFS_MAGIC: u32 = 0x3b80_0001;
/// Direct block pointers per inode.
pub const INODE_DIRECT_COUNT: usize = 28;
/// Longest name a directory entry holds, in bytes.
pub const NAME_LENGTH_LIMIT: usize = 27;
/// Block pointers that fit in one index block.
pub const INODE_INDIRECT1_COUNT: usize = 128;
/// Data blocks reachable through the doubly-indirect pointer.
pub const INODE_INDIRECT2_COUNT: usize = 16384;
/// Data blocks reachable through direct pointers.
pub const DIRECT_BOUND: usize = 28;
/// Data blocks reachable through direct and indirect pointers.
pub const INDIRECT1_BOUND: usize = 156;
/// Data blocks an inode can address at all.
pub const INDIRECT2_BOUND: usize = 16540;
/// Bytes of one on-disk inode.
pub const DISK_INODE_SZ: usize = 128;
/// Inodes stored in one block.
pub const INODES_PER_BLOCK: usize = 4;
/// Bytes of one directory entry.
pub const DIRENT_SZ: usize = 32;
/// Bytes of the name field of a directory entry.
pub const NAME_FIELD_SZ: usize = 28;
/// Bytes of a super-block record.
pub const SUPER_BLOCK_SZ: usize = 24;

/// The unsigned value of four bytes read in little-endian order.
pub open spec fn le_u32(b: Seq<u8>, off: int) -> int {
    b[off] as int + 256 * (b[off + 1] as int) + 65536 * (b[off + 2] as int) + 16777216 * (
    b[off + 3] as int)
}

/// Reads the little-endian `u32` stored at `off` in `b`.
pub fn read_u32(b: &[u8], off: usize) -> (r: u32)
    requires
        off + 4 <= b@.len(),
    ensures
        r as int == le_u32(b@, off as int),
{
    let b0 = b[off] as u32;
    let b1 = b[off + 1] as u32;
    let b2 = b[off + 2] as u32;
    let b3 = b[off + 3] as u32;
    assert(b0 + 256 * b1 + 65536 * b2 + 16777216 * b3 <= 0xffff_ffff) by (nonlinear_arith)
        requires
            b0 < 256,
            b1 < 256,
            b2 < 256,
            b3 < 256,
    ;
    b0 + 256 * b1 + 65536 * b2 + 16777216 * b3
}

/// Stores `v` in little-endian order at `off` in `b`, leaving the other bytes.
pub fn write_u32(b: &mut [u8], off: usize, v: u32)
    requires
        off + 4 <= old(b)@.len(),
    ensures
        final(b)@.len() == old(b)@.len(),
        le_u32(final(b)@, off as int) == v as int,
        forall|i: int|
            0 <= i < old(b)@.len() && !(off <= i < off + 4) ==> final(b)@[i] == old(b)@[i],
{
    b[off] = (v % 256) as u8;
    b[off + 1] = ((v / 256) % 256) as u8;
    b[off + 2] = ((v / 65536) % 256) as u8;
    b[off + 3] = (v / 16777216) as u8;
    assert((v % 256) + 256 * ((v / 256) % 256) + 65536 * ((v / 65536) % 256) + 16777216 * (v
        / 16777216) == v) by (nonlinear_arith);
}


/// Four bytes holding `v` in little-endian order.
pub open spec fn le_bytes(v: u32) -> Seq<u8> {
    seq![(v % 256) as u8, ((v / 256) % 256) as u8, ((v / 65536) % 256) as u8, (v / 16777216) as u8]
}

/// Reading back what `le_bytes` wrote gives the value.
pub proof fn lemma_le_round_trip(v: u32, s: Seq<u8>, off: int)
    requires
        0 <= off,
        off + 4 <= s.len(),
        s.subrange(off, off + 4) == le_bytes(v),
    ensures
        le_u32(s, off) == v as int,
{
    assert(s[off] == le_bytes(v)[0]);
    assert(s[off + 1] == le_bytes(v)[1]);
    assert(s[off + 2] == le_bytes(v)[2]);
    assert(s[off + 3] == le_bytes(v)[3]);
    assert((v % 256) + 256 * ((v / 256) % 256) + 65536 * ((v / 65536) % 256) + 16777216 * (v
        / 16777216) == v) by (nonlinear_arith);
}

/// Appends the four little-endian bytes of `v` to `out`.
pub fn push_u32(out: &mut Vec<u8>, v: u32)
    ensures
        final(out)@ == old(out)@ + le_bytes(v),
{
    out.push((v % 256) as u8);
    out.push(((v / 256) % 256) as u8);
    out.push(((v / 65536) % 256) as u8);
    out.push((v / 16777216) as u8);
    assert(final(out)@ =~= old(out)@ + le_bytes(v));
}

// ---------------------------------------------------------------- super-block

/// The super-block: the sizes of the five regions of the disk.
#[derive(Clone, Copy, Debug, PartialEq, Eq)]
pub struct SuperBlock {
    pub magic: u32,
    pub total_blocks: u32,
    pub inode_bitmap_blocks: u32,
    pub inode_area_blocks: u32,
    pub data_bitmap_blocks: u32,
    pub data_area_blocks: u32,
}

/// The super-block that the first bytes of `b` encode.
pub open spec fn super_block_of(b: Seq<u8>) -> SuperBlock {
    SuperBlock {
        magic: le_u32(b, 0) as u32,
        total_blocks: le_u32(b, 4) as u32,
        inode_bitmap_blocks: le_u32(b, 8) as u32,
        inode_area_blocks: le_u32(b, 12) as u32,
        data_bitmap_blocks: le_u32(b, 16) as u32,
        data_area_blocks: le_u32(b, 20) as u32,
    }
}

impl SuperBlock {
    /// A valid super-block for the given region sizes.
    pub fn new(
        total_blocks: u32,
        inode_bitmap_blocks: u32,
        inode_area_blocks: u32,
        data_bitmap_blocks: u32,
        data_area_blocks: u32,
    ) -> (r: Self)
        ensures
            r.is_valid_spec(),
            r.total_blocks == total_blocks,
            r.inode_bitmap_blocks == inode_bitmap_blocks,
            r.inode_area_blocks == inode_area_blocks,
            r.data_bitmap_blocks == data_bitmap_blocks,
            r.data_area_blocks == data_area_blocks,
    {
        SuperBlock {
            magic: EFS_MAGIC,
            total_blocks,
            inode_bitmap_blocks,
            inode_area_blocks,
            data_bitmap_blocks,
            data_area_blocks,
        }
    }

    /// The record carries the magic number.
    pub open spec fn is_valid_spec(&self) -> bool {
        self.magic == EFS_MAGIC
    }

    /// Whether the record carries the filesystem's magic number.
    pub fn is_valid(&self) -> (r: bool)
        ensures
            r == self.is_valid_spec(),
    {
        self.magic == EFS_MAGIC
    }

    /// The record's bytes, in field order, little-endian.
    pub fn encode(&self) -> (r: Vec<u8>)
        ensures
            r@.len() == SUPER_BLOCK_SZ,
            super_block_of(r@) == *self,
    {
        let mut out: Vec<u8> = Vec::new();
        push_u32(&mut out, self.magic);
        push_u32(&mut out, self.total_blocks);
        push_u32(&mut out, self.inode_bitmap_blocks);
        push_u32(&mut out, self.inode_area_blocks);
        push_u32(&mut out, self.data_bitmap_blocks);
        push_u32(&mut out, self.data_area_blocks);
        proof {
            assert(out@.subrange(0, 4) =~= le_bytes(self.magic));
            assert(out@.subrange(4, 8) =~= le_bytes(self.total_blocks));
            assert(out@.subrange(8, 12) =~= le_bytes(self.inode_bitmap_blocks));
            assert(out@.subrange(12, 16) =~= le_bytes(self.inode_area_blocks));
            assert(out@.subrange(16, 20) =~= le_bytes(self.data_bitmap_blocks));
            assert(out@.subrange(20, 24) =~= le_bytes(self.data_area_blocks));
            lemma_le_round_trip(self.magic, out@, 0);
            lemma_le_round_trip(self.total_blocks, out@, 4);
            lemma_le_round_trip(self.inode_bitmap_blocks, out@, 8);
            lemma_le_round_trip(self.inode_area_blocks, out@, 12);
            lemma_le_round_trip(self.data_bitmap_blocks, out@, 16);
            lemma_le_round_trip(self.data_area_blocks, out@, 20);
        }
        out
    }

    /// The record that the first bytes of `b` encode.
    pub fn decode(b: &[u8]) -> (r: Self)
        requires
            b@.len() >= SUPER_BLOCK_SZ,
        ensures
            r == super_block_of(b@),
    {
        SuperBlock {
            magic: read_u32(b, 0),
            total_blocks: read_u32(b, 4),
            inode_bitmap_blocks: read_u32(b, 8),
            inode_area_blocks: read_u32(b, 12),
            data_bitmap_blocks: read_u32(b, 16),
            data_area_blocks: read_u32(b, 20),
        }
    }
}

// ---------------------------------------------------------------- inodes

/// What an inode describes: a file or a directory.
#[derive(Clone, Copy, Debug, PartialEq, Eq)]
pub enum DiskInodeType {
    File,
    Directory,
}

/// An inode as plain values.
pub struct InodeModel {
    pub size: u32,
    pub direct: Seq<u32>,
    pub indirect1: u32,
    pub indirect2: u32,
    pub type_: DiskInodeType,
}

/// The inode that the 128 bytes of `b` from `off` encode.
pub open spec fn inode_of(b: Seq<u8>, off: int) -> InodeModel {
    InodeModel {
        size: le_u32(b, off) as u32,
        direct: Seq::new(INODE_DIRECT_COUNT as nat, |i: int| le_u32(b, off + 4 + 4 * i) as u32),
        indirect1: le_u32(b, off + 116) as u32,
        indirect2: le_u32(b, off + 120) as u32,
        type_: if b[off + 124] == 1 {
            DiskInodeType::Directory
        } else {
            DiskInodeType::File
        },
    }
}

/// An inode reads the same from two blocks that agree on its 128 bytes.
pub proof fn lemma_inode_frame(b1: Seq<u8>, b2: Seq<u8>, off: int)
    requires
        0 <= off,
        off + DISK_INODE_SZ <= b1.len(),
        b1.len() == b2.len(),
        forall|k: int| off <= k < off + DISK_INODE_SZ ==> b1[k] == b2[k],
    ensures
        inode_of(b1, off) == inode_of(b2, off),
{
    assert forall|i: int| 0 <= i < INODE_DIRECT_COUNT implies #[trigger] le_u32(b1, off + 4 + 4 * i) == le_u32(b2, off + 4 + 4 * i) by {
        assert(b1[off + 4 + 4 * i] == b2[off + 4 + 4 * i]);
        assert(b1[off + 5 + 4 * i] == b2[off + 5 + 4 * i]);
        assert(b1[off + 6 + 4 * i] == b2[off + 6 + 4 * i]);
        assert(b1[off + 7 + 4 * i] == b2[off + 7 + 4 * i]);
    }
    assert(inode_of(b1, off).direct =~= inode_of(b2, off).direct);
    assert(b1[off] == b2[off] && b1[off + 1] == b2[off + 1] && b1[off + 2] == b2[off + 2] && b1[off + 3] == b2[off + 3]);
    assert(b1[off + 116] == b2[off + 116] && b1[off + 117] == b2[off + 117] && b1[off + 118] == b2[off + 118] && b1[off + 119] == b2[off + 119]);
    assert(b1[off + 120] == b2[off + 120] && b1[off + 121] == b2[off + 121] && b1[off + 122] == b2[off + 122] && b1[off + 123] == b2[off + 123]);
    assert(b1[off + 124] == b2[off + 124]);
}

/// Data blocks needed to hold `size` bytes.
pub open spec fn data_blocks_spec(size: int) -> int {
    (size + BLOCK_SZ - 1) / BLOCK_SZ as int
}

/// Blocks, data and index together, an inode of `size` bytes occupies.
pub open spec fn total_blocks_spec(size: int) -> int {
    let d = data_blocks_spec(size);
    d + (if d > DIRECT_BOUND {
        1int
    } else {
        0int
    }) + (if d > INDIRECT1_BOUND {
        1 + (d - INDIRECT1_BOUND + INODE_INDIRECT1_COUNT - 1) / INODE_INDIRECT1_COUNT as int
    } else {
        0int
    })
}

/// The physical block of data block `j` of inode `m` on `disk`.
pub open spec fn block_of(disk: Seq<Seq<u8>>, m: InodeModel, j: int) -> int {
    if j < DIRECT_BOUND {
        m.direct[j] as int
    } else if j < INDIRECT1_BOUND {
        le_u32(crate::block_cache::block_at(disk, m.indirect1 as int), 4 * (j - DIRECT_BOUND))
    } else {
        let k = j - INDIRECT1_BOUND;
        let mid = le_u32(crate::block_cache::block_at(disk, m.indirect2 as int), 4 * (k / 128));
        le_u32(crate::block_cache::block_at(disk, mid), 4 * (k % 128))
    }
}

/// The content of inode `m` on `disk`: `size` bytes, block after block.
pub open spec fn content(disk: Seq<Seq<u8>>, m: InodeModel) -> Seq<u8> {
    Seq::new(
        m.size as nat,
        |p: int| crate::block_cache::block_at(disk, block_of(disk, m, p / BLOCK_SZ as int))[p % BLOCK_SZ as int],
    )
}


// ---------------------------------------------------------------- directory entries

/// Index of the first zero byte of `s`, or its length if it has none.
pub open spec fn first_zero(s: Seq<u8>) -> int
    decreases s.len(),
{
    if s.len() == 0 {
        0
    } else if s[0] == 0 {
        0
    } else {
        1 + first_zero(s.drop_first())
    }
}

/// The name a name field holds: its bytes before the first zero byte.
pub open spec fn name_of(field: Seq<u8>) -> Seq<u8> {
    field.take(first_zero(field))
}

/// The name of entry `i` of directory content `c`.
pub open spec fn entry_name(c: Seq<u8>, i: int) -> Seq<u8> {
    name_of(c.subrange(DIRENT_SZ * i, DIRENT_SZ * i + NAME_FIELD_SZ))
}

/// The inode number of entry `i` of directory content `c`.
pub open spec fn entry_inode(c: Seq<u8>, i: int) -> int {
    le_u32(c, DIRENT_SZ * i + NAME_FIELD_SZ)
}

/// The field that holds `name`: its bytes, then zeros.
pub open spec fn name_field(name: Seq<u8>) -> Seq<u8> {
    Seq::new(NAME_FIELD_SZ as nat, |k: int| if k < name.len() { name[k] } else { 0u8 })
}

proof fn lemma_first_zero(s: Seq<u8>, i: int)
    requires
        0 <= i <= s.len(),
        forall|k: int| 0 <= k < i ==> s[k] != 0,
        i < s.len() ==> s[i] == 0,
    ensures
        first_zero(s) == i,
    decreases s.len(),
{
    if s.len() > 0 && i > 0 {
        lemma_first_zero(s.drop_first(), i - 1);
    }
}

/// A name without zero bytes reads back from its field unchanged.
pub proof fn lemma_name_field(name: Seq<u8>)
    requires
        name.len() <= NAME_LENGTH_LIMIT,
        forall|k: int| 0 <= k < name.len() ==> name[k] != 0,
    ensures
        name_of(name_field(name)) == name,
{
    lemma_first_zero(name_field(name), name.len() as int);
    assert(name_of(name_field(name)) =~= name);
}

/// One directory entry: a name and the number of the inode it names.
pub struct DirEntry {
    name: Vec<u8>,
    inode_number: u32,
}

impl DirEntry {
    /// The raw name field.
    pub closed spec fn field(&self) -> Seq<u8> {
        self.name@
    }

    /// The inode number, as contracts speak of it.
    pub closed spec fn inode_spec(&self) -> u32 {
        self.inode_number
    }

    /// An entry naming inode `inode_number` by `name`.
    pub fn new(name: &[u8], inode_number: u32) -> (r: Self)
        requires
            name@.len() <= NAME_LENGTH_LIMIT,
        ensures
            r.field() == name_field(name@),
            r.inode_spec() == inode_number,
    {
        let mut field: Vec<u8> = Vec::new();
        let mut i: usize = 0;
        while i < NAME_FIELD_SZ
            invariant
                i <= NAME_FIELD_SZ,
                name@.len() <= NAME_LENGTH_LIMIT,
                field@ == name_field(name@).take(i as int),
            decreases NAME_FIELD_SZ - i,
        {
            if i < name.len() {
                field.push(name[i]);
            } else {
                field.push(0u8);
            }
            i = i + 1;
            assert(field@ =~= name_field(name@).take(i as int));
        }
        assert(field@ =~= name_field(name@));
        DirEntry { name: field, inode_number }
    }

    /// The entry's 32 bytes: the name field, then the inode number.
    pub fn encode(&self) -> (r: Vec<u8>)
        requires
            self.field().len() == NAME_FIELD_SZ,
        ensures
            r@.len() == DIRENT_SZ,
            r@.subrange(0, NAME_FIELD_SZ as int) == self.field(),
            le_u32(r@, NAME_FIELD_SZ as int) == self.inode_spec(),
    {
        let mut out: Vec<u8> = Vec::new();
        let mut i: usize = 0;
        while i < NAME_FIELD_SZ
            invariant
                i <= NAME_FIELD_SZ,
                self.name@.len() == NAME_FIELD_SZ,
                out@ == self.name@.take(i as int),
            decreases NAME_FIELD_SZ - i,
        {
            out.push(self.name[i]);
            i = i + 1;
            assert(out@ =~= self.name@.take(i as int));
        }
        push_u32(&mut out, self.inode_number);
        proof {
            assert(out@.subrange(0, 28) =~= self.name@);
            assert(out@.subrange(28, 32) =~= le_bytes(self.inode_number));
            lemma_le_round_trip(self.inode_number, out@, 28);
        }
        out
    }

    /// The entry whose 32 bytes start at `off` in `b`.
    pub fn decode(b: &[u8], off: usize) -> (r: Self)
        requires
            off + DIRENT_SZ <= b@.len(),
        ensures
            r.field() == b@.subrange(off as int, off + NAME_FIELD_SZ),
            r.inode_spec() as int == le_u32(b@, off + NAME_FIELD_SZ),
    {
        let blen = b.len();
        let mut field: Vec<u8> = Vec::new();
        let mut i: usize = 0;
        while i < NAME_FIELD_SZ
            invariant
                i <= NAME_FIELD_SZ,
                blen == b@.len(),
                off + DIRENT_SZ <= b@.len(),
                field@ == b@.subrange(off as int, off + i),
            decreases NAME_FIELD_SZ - i,
        {
            field.push(b[off + i]);
            i = i + 1;
            assert(field@ =~= b@.subrange(off as int, off + i));
        }
        DirEntry { name: field, inode_number: read_u32(b, off + NAME_FIELD_SZ) }
    }

    /// The entry's name: the name field up to its first zero byte.
    pub fn name(&self) -> (r: Vec<u8>)
        ensures
            r@ == name_of(self.field()),
    {
        let mut out: Vec<u8> = Vec::new();
        let mut i: usize = 0;
        while i < self.name.len() && self.name[i] != 0
            invariant
                i <= self.name@.len(),
                out@ == self.name@.take(i as int),
                forall|k: int| 0 <= k < i ==> self.name@[k] != 0,
            decreases self.name@.len() - i,
        {
            out.push(self.name[i]);
            i = i + 1;
            assert(out@ =~= self.name@.take(i as int));
        }
        proof {
            lemma_first_zero(self.name@, i as int);
        }
        out
    }

    /// The number of the inode the entry names.
    pub fn inode_number(&self) -> (r: u32)
        ensures
            r == self.inode_spec(),
    {
        self.inode_number
    }
}

} // verus!
