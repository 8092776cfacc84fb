//! Handles on inodes: path resolution, directories, and file content.
use vstd::prelude::*;
use vstd::string::StringSliceAdditionalSpecFns;

use crate::bitmap::first_clear;
use crate::block_cache::{block_at, zero_block};
use crate::block_dev::BlockDevice;
use crate::bitmap::lemma_first_clear_props;
use crate::disk_inode::{
    model_wf, blocks_list, is_index_block, lemma_distinct_list_sound, lemma_list_members, lemma_same_index, model_sized, span,
    used_index, window, DiskInode, MAX_FILE_SIZE,
};
use crate::layout::data_blocks_spec;
use crate::efs::EasyFileSystem;
use crate::layout::{
    block_of, content, entry_inode, entry_name, inode_of, name_field, name_of, total_blocks_spec, NAME_FIELD_SZ,
    NAME_LENGTH_LIMIT, DirEntry, DiskInodeType, InodeModel, DIRENT_SZ,
};
use crate::BLOCK_SZ;

verus! {

/// A handle on one inode, identified by where the inode is stored. Two
/// handles are equal when they name the same place.
#[derive(Clone, Copy, Debug, PartialEq, Eq, Structural)]
pub struct Inode {
    pub block_id: usize,
    pub block_offset: usize,
}

/// The inode stored at `(block, off)` on `disk`.
pub open spec fn model_at(disk: Seq<Seq<u8>>, block: int, off: int) -> InodeModel {
    inode_of(block_at(disk, block), off)
}

/// Index of the first of the first `count` entries of directory content `c`
/// whose name is `name`.
pub open spec fn lookup(c: Seq<u8>, name: Seq<u8>, count: int) -> Option<int>
    decreases count,
{
    if count <= 0 {
        None
    } else {
        match lookup(c, name, count - 1) {
            Some(i) => Some(i),
            None => if entry_name(c, count - 1) == name {
                Some(count - 1)
            } else {
                None
            },
        }
    }
}

/// Number of entries a directory of `size` bytes holds.
pub open spec fn entry_count(size: int) -> int {
    size / DIRENT_SZ as int
}

/// The inode number that `name` names in directory `m` on `disk`.
pub open spec fn dir_lookup(disk: Seq<Seq<u8>>, m: InodeModel, name: Seq<u8>) -> Option<int> {
    let c = content(disk, m);
    match lookup(c, name, entry_count(m.size as int)) {
        Some(i) => Some(entry_inode(c, i)),
        None => None,
    }
}

proof fn lemma_lookup_found(c: Seq<u8>, name: Seq<u8>, i: int, count: int)
    requires
        0 <= i < count,
        lookup(c, name, i + 1) == Some(i),
    ensures
        lookup(c, name, count) == Some(i),
    decreases count - i,
{
    if count > i + 1 {
        lemma_lookup_found(c, name, i, count - 1);
    }
}

/// `a` and `b` hold the same bytes.
fn bytes_eq(a: &[u8], b: &[u8]) -> (r: bool)
    ensures
        r == (a@ == b@),
{
    if a.len() != b.len() {
        return false;
    }
    let mut i: usize = 0;
    while i < a.len()
        invariant
            i <= a@.len(),
            a@.len() == b@.len(),
            forall|k: int| 0 <= k < i ==> a@[k] == b@[k],
        decreases a@.len() - i,
    {
        if a[i] != b[i] {
            return false;
        }
        i = i + 1;
    }
    assert(a@ =~= b@);
    true
}

impl<D: BlockDevice> EasyFileSystem<D> {
    /// Where `name`, looked up in the directory stored at `loc`, leads: `None`
    /// when `loc` holds a file or an inode of impossible size, when no entry
    /// has that name, or when the entry names no inode of this filesystem.
    pub open spec fn step(&self, loc: (int, int), name: Seq<u8>) -> Option<(int, int)> {
        let m = model_at(self.disk(), loc.0, loc.1);
        if m.type_ == DiskInodeType::File || !model_sized(m) {
            None
        } else {
            match dir_lookup(self.disk(), m, name) {
                Some(id) => if id < self.inode_count() {
                    Some(self.inode_pos(id))
                } else {
                    None
                },
                None => None,
            }
        }
    }

    /// `step` from a place that may be missing.
    pub open spec fn step_from(&self, loc: Option<(int, int)>, name: Seq<u8>) -> Option<(int, int)> {
        match loc {
            Some(l) => self.step(l, name),
            None => None,
        }
    }

    /// Walks `path` from `start`, one name between slashes at a time, empty
    /// names skipped; returns where the walk stands and the name read since
    /// the last slash.
    pub open spec fn walk(&self, start: (int, int), path: Seq<u8>) -> (Option<(int, int)>, Seq<u8>)
        decreases path.len(),
    {
        if path.len() == 0 {
            (Some(start), Seq::empty())
        } else {
            let (loc, name) = self.walk(start, path.drop_last());
            if path.last() == 0x2fu8 {
                if name.len() > 0 {
                    (self.step_from(loc, name), Seq::empty())
                } else {
                    (loc, name)
                }
            } else {
                (loc, name.push(path.last()))
            }
        }
    }

    /// Where `path` leads from `start`; the path `.` leads to `start` itself.
    pub open spec fn resolve(&self, start: (int, int), path: Seq<u8>) -> Option<(int, int)> {
        if path == seq![0x2eu8] {
            Some(start)
        } else {
            let (loc, name) = self.walk(start, path);
            if name.len() > 0 {
                self.step_from(loc, name)
            } else {
                loc
            }
        }
    }

    /// From this state to `f1` no bit set here was cleared, and in the data
    /// area only blocks free here, or listed in `l`, changed.
    pub open spec fn kept_others(&self, f1: &EasyFileSystem<D>, l: Seq<u32>) -> bool {
        let start = self.data_area_start_block as int;
        let b0 = self.data_bitmap.bits(self.disk());
        let b1 = f1.data_bitmap.bits(f1.disk());
        &&& forall|x: int| 0 <= x < b0.len() && b0[x] ==> #[trigger] b1[x]
        &&& forall|b: int|
            start <= b < start + self.data_area_blocks && #[trigger] block_at(f1.disk(), b) != block_at(self.disk(), b) ==> !b0[b
                - start] || l.contains(b as u32)
    }

    /// Every block of `l1` is listed in `l0` or free here.
    pub open spec fn fresh_or_listed(&self, l1: Seq<u32>, l0: Seq<u32>) -> bool {
        forall|k: int|
            0 <= k < l1.len() ==> l0.contains(#[trigger] l1[k]) || !self.data_bitmap.bits(self.disk())[l1[k] - self.data_area_start_block]
    }

    /// Inode `m` is consistent with this filesystem: its size is one the
    /// index addresses, and the blocks it uses (index and data blocks, as
    /// `blocks_list` lists them) are pairwise distinct, lie in the data area,
    /// and are marked in use in the data bitmap.
    pub open spec fn inode_ok(&self, m: InodeModel) -> bool {
        let l = blocks_list(self.disk(), m, data_blocks_spec(m.size as int));
        &&& model_sized(m)
        &&& forall|k1: int, k2: int| 0 <= k1 < l.len() && 0 <= k2 < l.len() && k1 != k2 ==> #[trigger] l[k1] != #[trigger] l[k2]
        &&& forall|k: int|
            0 <= k < l.len() ==> self.data_area_start_block <= #[trigger] l[k] < self.data_area_start_block
                + self.data_area_blocks && self.data_bitmap.bits(self.disk())[l[k] - self.data_area_start_block]
    }

    /// A handle on the root directory, inode 0.
    pub fn root_inode(&self) -> (r: Inode)
        requires
            self.wf(),
        ensures
            r.block_id == self.inode_pos(0).0,
            r.block_offset == self.inode_pos(0).1,
            r.placed(self),
    {
        let (block_id, block_offset) = self.get_disk_inode_pos(0);
        Inode::new(block_id, block_offset)
    }
}

impl Inode {
    /// The handle's location as a pair.
    pub open spec fn loc(&self) -> (int, int) {
        (self.block_id as int, self.block_offset as int)
    }

    /// The handle is one that a filesystem of this layout can hand out.
    pub open spec fn placed<D: BlockDevice>(&self, fs: &EasyFileSystem<D>) -> bool {
        &&& self.block_offset + crate::layout::DISK_INODE_SZ <= BLOCK_SZ
        &&& self.block_offset % crate::layout::DISK_INODE_SZ == 0
        &&& fs.inode_area_start_block <= self.block_id < fs.data_bitmap.start_block_id
    }

    /// From `d0` to `d1`, nothing below block `limit` changed but this
    /// handle's own inode: every other block there, and every other byte of
    /// this handle's block.
    pub open spec fn meta_kept(&self, d0: Seq<Seq<u8>>, d1: Seq<Seq<u8>>, limit: int) -> bool {
        &&& forall|b: int| b < limit && b != self.block_id ==> #[trigger] block_at(d1, b) == block_at(d0, b)
        &&& forall|k: int|
            0 <= k < BLOCK_SZ && !(self.block_offset <= k < self.block_offset + crate::layout::DISK_INODE_SZ) ==> #[trigger] block_at(
                d1,
                self.block_id as int,
            )[k] == block_at(d0, self.block_id as int)[k]
    }

    /// From `f0` to `f1` every inode slot other than this handle's and
    /// `other` kept the inode it held.
    pub open spec fn slots_kept<D: BlockDevice>(&self, f0: &EasyFileSystem<D>, f1: &EasyFileSystem<D>, other: (int, int)) -> bool {
        forall|b: int, o: int|
            f0.inode_area_start_block <= b < f0.data_bitmap.start_block_id && 0 <= o && o + crate::layout::DISK_INODE_SZ <= BLOCK_SZ
                && o % crate::layout::DISK_INODE_SZ as int == 0 && (b, o) != self.loc() && (b, o) != other ==> #[trigger] model_at(
                f1.disk(),
                b,
                o,
            ) == model_at(f0.disk(), b, o)
    }

    /// The inode this handle names, as it stands on `fs`.
    pub open spec fn model<D: BlockDevice>(&self, fs: &EasyFileSystem<D>) -> InodeModel {
        model_at(fs.disk(), self.block_id as int, self.block_offset as int)
    }

    /// Whether the handle lies where `fs` keeps inodes can be read.
    pub fn is_placed<D: BlockDevice>(&self, fs: &EasyFileSystem<D>) -> (r: bool)
        requires
            fs.wf(),
        ensures
            r == self.placed(fs),
    {
        self.block_offset <= BLOCK_SZ - crate::layout::DISK_INODE_SZ && self.block_offset
            % crate::layout::DISK_INODE_SZ == 0 && fs.inode_area_start_block as usize <= self.block_id
            && self.block_id < fs.data_bitmap.start_block_id
    }

    /// A handle on the inode stored at `block_offset` of block `block_id`.
    pub fn new(block_id: u32, block_offset: usize) -> (r: Self)
        ensures
            r.block_id == block_id,
            r.block_offset == block_offset,
    {
        Inode { block_id: block_id as usize, block_offset }
    }

    /// The block the inode is stored in.
    pub fn get_block_id(&self) -> (r: usize)
        ensures
            r == self.block_id,
    {
        self.block_id
    }

    fn read_disk_inode<D: BlockDevice>(&self, fs: &mut EasyFileSystem<D>) -> (r: DiskInode)
        requires
            old(fs).wf(),
            self.placed(old(fs)),
        ensures
            final(fs).wf(),
            final(fs).disk() == old(fs).disk(),
            final(fs).same_layout(old(fs)),
            r.wf(),
            r@ == self.model(old(fs)),
    {
        DiskInode::load(&mut fs.cache, self.block_id, self.block_offset)
    }

    /// The inode number that `name` names in directory `disk_inode`.
    fn find_inode_id<D: BlockDevice>(
        fs: &mut EasyFileSystem<D>,
        name: &[u8],
        disk_inode: &DiskInode,
    ) -> (r: Option<u32>)
        requires
            old(fs).wf(),
            disk_inode.wf(),
            model_sized(disk_inode@),
        ensures
            final(fs).wf(),
            final(fs).disk() == old(fs).disk(),
            final(fs).same_layout(old(fs)),
            r matches Some(id) ==> dir_lookup(old(fs).disk(), disk_inode@, name@) == Some(id as int),
            r is None ==> dir_lookup(old(fs).disk(), disk_inode@, name@) is None,
    {
        let ghost c = content(fs.disk(), disk_inode@);
        let count = disk_inode.size as usize / DIRENT_SZ;
        let mut i: usize = 0;
        while i < count
            invariant
                fs.wf(),
                fs.disk() == old(fs).disk(),
                fs.same_layout(old(fs)),
                disk_inode.wf(),
                model_sized(disk_inode@),
                c == content(fs.disk(), disk_inode@),
                count == entry_count(disk_inode.size as int),
                i <= count,
                lookup(c, name@, i as int) is None,
            decreases count - i,
        {
            let mut buf: Vec<u8> = vec![0u8; DIRENT_SZ];
            let n = disk_inode.read_at(DIRENT_SZ * i, buf.as_mut_slice(), &mut fs.cache);
            proof {
                assert(DIRENT_SZ * i + DIRENT_SZ <= disk_inode.size) by (nonlinear_arith)
                    requires
                        i < count,
                        count == disk_inode.size / 32,
                ;
            }
            let entry = DirEntry::decode(buf.as_slice(), 0);
            let entry_name_bytes = entry.name();
            proof {
                assert(n == 32);
                assert forall|k: int| 0 <= k < 32 implies buf@[k] == c[32 * i + k] by {}
                assert(entry.field() =~= c.subrange(32 * i, 32 * i + 28));
            }
            if bytes_eq(entry_name_bytes.as_slice(), name) {
                proof {
                    assert(lookup(c, name@, i + 1) == Some(i as int));
                    lemma_lookup_found(c, name@, i as int, count as int);
                    le_u32_window(c, buf@, i as int);
                }
                return Some(entry.inode_number());
            }
            i = i + 1;
        }
        None
    }
}

proof fn le_u32_window(c: Seq<u8>, buf: Seq<u8>, i: int)
    requires
        buf.len() == 32,
        0 <= i,
        32 * i + 32 <= c.len(),
        forall|k: int| 0 <= k < 32 ==> buf[k] == c[32 * i + k],
    ensures
        crate::layout::le_u32(buf, 28) == entry_inode(c, i),
{
    assert(buf[28] == c[32 * i + 28]);
    assert(buf[29] == c[32 * i + 29]);
    assert(buf[30] == c[32 * i + 30]);
    assert(buf[31] == c[32 * i + 31]);
}


impl Inode {
    /// One step of path resolution: `name` looked up in the directory at `loc`.
    fn step<D: BlockDevice>(fs: &mut EasyFileSystem<D>, loc: (usize, usize), name: &[u8]) -> (r: Option<(usize, usize)>)
        requires
            old(fs).wf(),
            loc.1 + crate::layout::DISK_INODE_SZ <= BLOCK_SZ,
        ensures
            final(fs).wf(),
            final(fs).disk() == old(fs).disk(),
            final(fs).same_layout(old(fs)),
            r matches Some(l) ==> l.1 + crate::layout::DISK_INODE_SZ <= BLOCK_SZ && old(fs).inode_area_start_block <= l.0 < old(fs).data_bitmap.start_block_id && l.1
                % crate::layout::DISK_INODE_SZ == 0,
            r matches Some(l) ==> old(fs).step((loc.0 as int, loc.1 as int), name@) == Some((l.0 as int, l.1 as int)),
            r is None ==> old(fs).step((loc.0 as int, loc.1 as int), name@) is None,
    {
        let disk_inode = DiskInode::load(&mut fs.cache, loc.0, loc.1);
        if disk_inode.is_file() || disk_inode.size > MAX_FILE_SIZE {
            return None;
        }
        match Self::find_inode_id(fs, name, &disk_inode) {
            Some(id) => {
                if (id as u64) < fs.inode_bitmap.blocks as u64 * 4096 {
                    let (b, o) = fs.get_disk_inode_pos(id);
                    Some((b as usize, o))
                } else {
                    None
                }
            },
            None => None,
        }
    }

    /// Resolves `path` from this inode: names between slashes are looked up
    /// one directory at a time, empty names are skipped, and the path `.` is
    /// this inode itself. `None` when some name is missing or a name before
    /// the last stands for a file.
    pub fn find<D: BlockDevice>(&self, fs: &mut EasyFileSystem<D>, path: &str) -> (r: Option<Inode>)
        requires
            old(fs).wf(),
            self.placed(old(fs)),
        ensures
            final(fs).wf(),
            final(fs).disk() == old(fs).disk(),
            final(fs).same_layout(old(fs)),
            r matches Some(i) ==> i.placed(final(fs)),
            r matches Some(i) ==> old(fs).resolve(self.loc(), path.spec_bytes()) == Some(i.loc()),
            r is None ==> old(fs).resolve(self.loc(), path.spec_bytes()) is None,
    {
        let bytes = path.as_bytes();
        if bytes.len() == 1 && bytes[0] == 0x2eu8 {
            assert(bytes@ =~= seq![0x2eu8]);
            return Some(*self);
        }
        let ghost start = self.loc();

        let mut cur: Option<(usize, usize)> = Some((self.block_id, self.block_offset));
        let mut name: Vec<u8> = Vec::new();
        let mut i: usize = 0;
        while i < bytes.len()
            invariant
                fs.wf(),
                fs.disk() == old(fs).disk(),
                fs.same_layout(old(fs)),
                i <= bytes@.len(),
                cur matches Some(l) ==> l.1 + crate::layout::DISK_INODE_SZ <= BLOCK_SZ && old(fs).inode_area_start_block <= l.0 < old(fs).data_bitmap.start_block_id && l.1
                    % crate::layout::DISK_INODE_SZ == 0,
                ({
                    let (l, n) = old(fs).walk(start, bytes@.take(i as int));
                    &&& n == name@
                    &&& match cur {
                        Some(c) => l == Some((c.0 as int, c.1 as int)),
                        None => l is None,
                    }
                }),
            decreases bytes@.len() - i,
        {
            let ghost prev = bytes@.take(i as int);
            assert(bytes@.take(i + 1).drop_last() =~= prev);
            let c = bytes[i];
            if c == 0x2fu8 {
                if name.len() > 0 {
                    cur = match cur {
                        Some(l) => Self::step(fs, l, name.as_slice()),
                        None => None,
                    };
                    name = Vec::new();
                }
            } else {
                name.push(c);
            }
            i = i + 1;
        }
        assert(bytes@.take(bytes@.len() as int) =~= bytes@);
        if name.len() > 0 {
            cur = match cur {
                Some(l) => Self::step(fs, l, name.as_slice()),
                None => None,
            };
        }
        match cur {
            Some(l) => Some(Inode { block_id: l.0, block_offset: l.1 }),
            None => None,
        }
    }
}


/// A name that can stand between two slashes of a path.
pub open spec fn plain_name(name: Seq<u8>) -> bool {
    &&& name.len() > 0
    &&& forall|k: int| 0 <= k < name.len() ==> name[k] != 0x2fu8
    &&& name != seq![0x2eu8]
}

impl<D: BlockDevice> EasyFileSystem<D> {
    proof fn lemma_walk_name(&self, start: (int, int), pre: Seq<u8>, name: Seq<u8>)
        requires
            self.walk(start, pre).1.len() == 0,
            forall|k: int| 0 <= k < name.len() ==> name[k] != 0x2fu8,
        ensures
            self.walk(start, pre + name) == (self.walk(start, pre).0, name),
        decreases name.len(),
    {
        if name.len() == 0 {
            assert(pre + name =~= pre);
            assert(self.walk(start, pre).1 =~= name);
        } else {
            let front = name.drop_last();
            self.lemma_walk_name(start, pre, front);
            assert((pre + name).drop_last() =~= pre + front);
            assert(front.push(name.last()) =~= name);
        }
    }

    proof fn lemma_walk_slash(&self, start: (int, int), pre: Seq<u8>, name: Seq<u8>)
        requires
            self.walk(start, pre).1.len() == 0,
            name.len() > 0,
            forall|k: int| 0 <= k < name.len() ==> name[k] != 0x2fu8,
        ensures
            self.walk(start, pre + name + seq![0x2fu8]) == (
                self.step_from(self.walk(start, pre).0, name),
                Seq::<u8>::empty(),
            ),
    {
        self.lemma_walk_name(start, pre, name);
        assert((pre + name + seq![0x2fu8]).drop_last() =~= pre + name);
    }

    /// Resolving a path of several names from `start` is resolving its names
    /// one after another: `/a/b/c` leads where `a`, then `b` from there, then
    /// `c` from there leads.
    pub proof fn lemma_resolve_composes(
        &self,
        start: (int, int),
        a: Seq<u8>,
        b: Seq<u8>,
        c: Seq<u8>,
    )
        requires
            plain_name(a),
            plain_name(b),
            plain_name(c),
        ensures
            self.resolve(start, seq![0x2fu8] + a + seq![0x2fu8] + b + seq![0x2fu8] + c) == match self.resolve(start, a) {
                Some(l1) => match self.resolve(l1, b) {
                    Some(l2) => self.resolve(l2, c),
                    None => None,
                },
                None => None,
            },
    {
        let slash = seq![0x2fu8];
        // each single name resolves by one step
        assert forall|l: (int, int), n: Seq<u8>| plain_name(n) implies #[trigger] self.resolve(l, n) == self.step(l, n) by {
            assert(self.walk(l, Seq::<u8>::empty()).1.len() == 0);
            self.lemma_walk_name(l, Seq::<u8>::empty(), n);
            assert(Seq::<u8>::empty() + n =~= n);
        }
        let empty_path = Seq::<u8>::empty();
        let lead = slash;
        assert(lead.drop_last() =~= empty_path);
        assert(self.walk(start, empty_path) == (Some(start), Seq::<u8>::empty()));
        assert(lead.last() == 0x2fu8);
        assert(self.walk(start, lead) == (Some(start), Seq::<u8>::empty()));
        self.lemma_walk_slash(start, lead, a);
        let upto_b = lead + a + slash;
        self.lemma_walk_slash(start, upto_b, b);
        let upto_c = upto_b + b + slash;
        self.lemma_walk_name(start, upto_c, c);
        let full = slash + a + slash + b + slash + c;
        assert(full =~= upto_c + c);
        assert(full != seq![0x2eu8]) by {
            assert(full.len() > 1);
        }
    }
}


/// The size a write of `len` bytes at `offset` asks a file of `size` bytes to
/// grow to: the end of the write, up to the largest size an inode addresses.
pub open spec fn grow_target(size: int, offset: int, len: int) -> int {
    if offset + len <= size {
        size
    } else if offset + len <= MAX_FILE_SIZE {
        offset + len
    } else {
        MAX_FILE_SIZE as int
    }
}

impl Inode {
    /// Reads into `buf` this inode's content from `offset` on, as far as the
    /// content and `buf` reach, and returns how many bytes were read.
    pub fn read_at<D: BlockDevice>(&self, fs: &mut EasyFileSystem<D>, offset: usize, buf: &mut [u8]) -> (r: usize)
        requires
            old(fs).wf(),
            self.placed(old(fs)),
        ensures
            final(fs).wf(),
            final(fs).disk() == old(fs).disk(),
            final(fs).same_layout(old(fs)),
            final(buf)@.len() == old(buf)@.len(),
            ({
                let m = self.model(old(fs));
                if model_sized(m) {
                    &&& r as int == span(m.size as int, offset as int, old(buf)@.len() as int)
                    &&& final(buf)@ == crate::block_cache::splice(
                        old(buf)@,
                        0,
                        window(content(old(fs).disk(), m), offset as int, r as int),
                    )
                } else {
                    r == 0 && final(buf)@ == old(buf)@
                }
            }),
    {
        let disk_inode = self.read_disk_inode(fs);
        if disk_inode.size > MAX_FILE_SIZE {
            return 0;
        }
        disk_inode.read_at(offset, buf, &mut fs.cache)
    }

    /// Grows `disk_inode` to `new_size`, taking the blocks it needs from the
    /// data allocator; when the data area runs out, gives back what it took and
    /// leaves the inode as it was. On an inode consistent with the filesystem
    /// the result is consistent too, and the bytes it held are kept.
    fn increase_size<D: BlockDevice>(fs: &mut EasyFileSystem<D>, new_size: u32, disk_inode: &mut DiskInode) -> (ok: bool)
        requires
            old(fs).wf(),
            old(disk_inode).wf(),
            new_size <= MAX_FILE_SIZE,
        ensures
            final(fs).wf(),
            final(fs).same_layout(old(fs)),
            final(fs).disk().len() == old(fs).disk().len(),
            final(disk_inode).wf(),
            final(disk_inode).type_ == old(disk_inode).type_,
            new_size < old(disk_inode).size ==> ok && *final(disk_inode) == *old(disk_inode) && final(fs).disk() == old(fs).disk(),
            ok && old(disk_inode).size <= new_size ==> final(disk_inode).size == new_size,
            !ok ==> *final(disk_inode) == *old(disk_inode),
            !ok ==> old(fs).free_data() < total_blocks_spec(new_size as int) - total_blocks_spec(old(disk_inode).size as int),
            old(fs).inode_ok(old(disk_inode)@) ==> {
                &&& final(fs).inode_ok(final(disk_inode)@)
                &&& old(fs).kept_others(final(fs), blocks_list(old(fs).disk(), old(disk_inode)@, data_blocks_spec(old(disk_inode).size as int)))
                &&& old(fs).fresh_or_listed(
                    blocks_list(final(fs).disk(), final(disk_inode)@, data_blocks_spec(final(disk_inode).size as int)),
                    blocks_list(old(fs).disk(), old(disk_inode)@, data_blocks_spec(old(disk_inode).size as int)),
                )
                &&& ok && old(disk_inode).size <= new_size ==> final(fs).free_data() == old(fs).free_data() - (total_blocks_spec(new_size as int) - total_blocks_spec(
                    old(disk_inode).size as int,
                ))
                &&& forall|b: int| b < old(fs).data_bitmap.start_block_id ==> #[trigger] block_at(final(fs).disk(), b) == block_at(old(fs).disk(), b)
                &&& forall|p: int|
                    0 <= p < old(disk_inode).size ==> #[trigger] content(final(fs).disk(), final(disk_inode)@)[p] == content(
                        old(fs).disk(),
                        old(disk_inode)@,
                    )[p]
            },
    {
        if new_size < disk_inode.size {
            proof {
                let m = disk_inode@;
                let l = blocks_list(fs.disk(), m, data_blocks_spec(m.size as int));
                assert forall|k: int| 0 <= k < l.len() implies l.contains(#[trigger] l[k]) || !fs.data_bitmap.bits(fs.disk())[l[k]
                    - fs.data_area_start_block] by {
                    assert(l[k] == l[k]);
                }
            }
            return true;
        }
        let ghost d0 = fs.disk();
        let ghost m0 = disk_inode@;
        let ghost good = fs.inode_ok(m0);
        let ghost od = data_blocks_spec(m0.size as int);
        let ghost l = blocks_list(d0, m0, od);
        let ghost start = fs.data_area_start_block as int;
        let ghost dab = fs.data_area_blocks as int;
        let needed = disk_inode.blocks_num_needed(new_size) as usize;
        let mut v: Vec<u32> = Vec::new();
        while v.len() < needed
            invariant
                fs.wf(),
                fs.same_layout(old(fs)),
                fs.disk().len() == old(fs).disk().len(),
                *disk_inode == *old(disk_inode),
                disk_inode.wf(),
                needed == total_blocks_spec(new_size as int) - total_blocks_spec(disk_inode.size as int),
                v@.len() <= needed,
                start == fs.data_area_start_block,
                dab == fs.data_area_blocks,
                good == old(fs).inode_ok(m0),
                d0 == old(fs).disk(),
                m0 == disk_inode@,
                l == blocks_list(d0, m0, od),
                od == data_blocks_spec(m0.size as int),
                good ==> owned_blocks(fs, l, v@),
                good ==> forall|b: int| start <= b < start + dab ==> #[trigger] block_at(fs.disk(), b) == block_at(d0, b),
                good ==> forall|b: int| b < fs.data_bitmap.start_block_id ==> #[trigger] block_at(fs.disk(), b) == block_at(d0, b),
                good ==> old(fs).kept_others(&*fs, l),
                good ==> forall|k: int| 0 <= k < v@.len() ==> !old(fs).data_bitmap.bits(d0)[#[trigger] v@[k] - start],
                fs.free_data() == old(fs).free_data() - v@.len(),
            decreases needed - v@.len(),
        {
            let ghost bits = fs.data_bitmap.bits(fs.disk());
            let ghost vv = v@;
            match fs.alloc_data() {
                Some(b) => {
                    v.push(b);
                    proof {
                        if good {
                            lemma_first_clear_props(bits);
                            let f = first_clear(bits);
                            let bn = fs.data_bitmap.bits(fs.disk());
                            assert(bn == bits.update(f, true));
                            assert(!bits[f]);
                            assert forall|k: int| 0 <= k < vv.len() implies vv[k] != b by {
                                assert(bits[vv[k] - start]);
                            }
                            assert forall|k: int| 0 <= k < l.len() implies l[k] != b by {
                                assert(bits[l[k] - start]);
                            }
                            lemma_owned_grow(fs, l, vv, b, bits);
                            let b0 = old(fs).data_bitmap.bits(d0);
                            assert(!b0[b - start]) by {
                                if b0[b - start] {
                                    assert(bits[b - start]);
                                }
                            }
                            assert forall|x: int| 0 <= x < b0.len() && b0[x] implies #[trigger] bn[x] by {
                                assert(bits[x]);
                            }
                            assert forall|k: int| 0 <= k < v@.len() implies !b0[#[trigger] v@[k] - start] by {
                                if k < vv.len() {
                                    assert(v@[k] == vv[k]);
                                }
                            }
                        }
                    }
                },
                None => {
                    proof {
                        if good {
                            let b0 = old(fs).data_bitmap.bits(d0);
                            let bn = fs.data_bitmap.bits(fs.disk());
                            assert(bn == bits);
                            assert forall|x: int| 0 <= x < b0.len() && b0[x] implies #[trigger] bn[x] by {
                                assert(bits[x]);
                            }
                        }
                    }
                    while v.len() > 0
                        invariant
                            fs.wf(),
                            fs.same_layout(old(fs)),
                            fs.disk().len() == old(fs).disk().len(),
                            *disk_inode == *old(disk_inode),
                            disk_inode.wf(),
                            start == fs.data_area_start_block,
                            dab == fs.data_area_blocks,
                            good ==> owned_blocks(fs, l, v@),
                            good ==> forall|k: int| 0 <= k < l.len() ==> #[trigger] block_at(fs.disk(), l[k] as int) == block_at(d0, l[k] as int),
                            good ==> forall|b: int| b < fs.data_bitmap.start_block_id ==> #[trigger] block_at(fs.disk(), b) == block_at(d0, b),
                            good ==> old(fs).kept_others(&*fs, l),
                            good ==> forall|k: int| 0 <= k < v@.len() ==> !old(fs).data_bitmap.bits(d0)[#[trigger] v@[k] - start],
                            d0 == old(fs).disk(),
                            good == old(fs).inode_ok(m0),
                        decreases v@.len(),
                    {
                        let ghost vv = v@;
                        let ghost dp = fs.disk();
                        let ghost bp = fs.data_bitmap.bits(fs.disk());
                        proof {
                            if good {
                                assert(old(fs).kept_others(&*fs, l));
                                let b0 = old(fs).data_bitmap.bits(d0);
                                assert(forall|x: int| 0 <= x < b0.len() && b0[x] ==> #[trigger] bp[x]);
                                assert(forall|bk: int|
                                    start <= bk < start + dab && #[trigger] block_at(dp, bk) != block_at(d0, bk) ==> !b0[bk - start]
                                        || l.contains(bk as u32));
                            }
                        }
                        let b = v.pop().unwrap();
                        if fs.data_block_in_use(b) {
                            fs.dealloc_data(b);
                        }
                        proof {
                            if good {
                                assert(v@ =~= vv.drop_last());
                                assert(b == vv[vv.len() - 1]);
                                lemma_owned_shrink(fs, l, vv, bp, dp);
                                let b0 = old(fs).data_bitmap.bits(d0);
                                let bn = fs.data_bitmap.bits(fs.disk());
                                assert(!b0[b - start]);
                                assert forall|x: int| 0 <= x < b0.len() && b0[x] implies #[trigger] bn[x] by {
                                    assert(bp[x]);
                                }
                                assert forall|bk: int|
                                    start <= bk < start + dab && #[trigger] block_at(fs.disk(), bk) != block_at(d0, bk) implies !b0[bk
                                        - start] || l.contains(bk as u32) by {
                                    if bk != b {
                                        assert(block_at(fs.disk(), bk) == block_at(dp, bk));
                                    }
                                }
                                assert forall|k: int| 0 <= k < v@.len() implies !b0[#[trigger] v@[k] - start] by {
                                    assert(v@[k] == vv[k]);
                                }
                            }
                        }
                    }
                    proof {
                        if good {
                            lemma_list_frame(d0, fs.disk(), m0);
                        }
                    }
                    return false;
                },
            }
        }
        let ghost d1 = fs.disk();
        proof {
            if good {
                assert forall|k: int| 0 <= k < l.len() implies #[trigger] block_at(d1, l[k] as int) == block_at(d0, l[k] as int) by {
                    assert(owned_blocks(fs, l, v@));
                }
                lemma_list_frame(d0, d1, m0);
                lemma_distinct_list_sound(d1, m0);
                lemma_list_members(d1, m0);
                assert forall|i: int| 0 <= i < v@.len() implies (#[trigger] v@[i]) < d1.len() && !used_index(d1, m0, od, v@[i] as int) by {
                    if used_index(d1, m0, od, v@[i] as int) {
                        let k = choose|k: int| 0 <= k < l.len() && l[k] == v@[i];
                    }
                }
                assert forall|i: int, j: int| 0 <= i < v@.len() && 0 <= j < od implies #[trigger] v@[i] as int != #[trigger] block_of(d1, m0, j) by {
                    if v@[i] as int == block_of(d1, m0, j) {
                        let k = choose|k: int| 0 <= k < l.len() && l[k] == block_of(d1, m0, j) as u32;
                    }
                }
            }
        }
        disk_inode.increase_size(new_size, v.as_slice(), &mut fs.cache);
        proof {
            if good {
                let d2 = fs.disk();
                let m2 = disk_inode@;
                let nd = data_blocks_spec(new_size as int);
                let l2 = blocks_list(d2, m2, nd);
                assert(l2 == l + v@);
                lemma_list_members(d2, m2);
                // bitmap blocks hold no index block, so the bits stay
                assert forall|b: int|
                    fs.data_bitmap.start_block_id <= b < fs.data_bitmap.start_block_id + fs.data_bitmap.blocks implies #[trigger] block_at(d2, b)
                        == block_at(d1, b) by {
                    if used_index(d2, m2, nd, b) {
                        let k = choose|k: int| 0 <= k < l2.len() && l2[k] == b as u32;
                        if k < l.len() {
                            assert(l2[k] == l[k]);
                        } else {
                            assert(l2[k] == v@[k - l.len()]);
                        }
                    }
                }
                fs.data_bitmap.lemma_bits_frame(d2, d1);
                lemma_owned_ok(fs, l, v@, m2, nd);
                let b0 = old(fs).data_bitmap.bits(d0);
                assert forall|k: int| 0 <= k < l2.len() implies l.contains(#[trigger] l2[k]) || !b0[l2[k] - start] by {
                    if k < l.len() {
                        assert(l2[k] == l[k]);
                    } else {
                        assert(l2[k] == v@[k - l.len()]);
                    }
                }
                assert forall|bk: int|
                    start <= bk < start + dab && #[trigger] block_at(d2, bk) != block_at(d0, bk) implies !b0[bk - start] || l.contains(bk as u32) by {
                    if used_index(d2, m2, nd, bk) {
                        let k = choose|k: int| 0 <= k < l2.len() && l2[k] == bk as u32;
                        if k < l.len() {
                            assert(l2[k] == l[k]);
                        } else {
                            assert(l2[k] == v@[k - l.len()]);
                        }
                    } else {
                        assert(block_at(d1, bk) == block_at(d0, bk));
                    }
                }
                assert forall|b: int| b < fs.data_bitmap.start_block_id implies #[trigger] block_at(d2, b) == block_at(d0, b) by {
                    if used_index(d2, m2, nd, b) {
                        let k = choose|k: int| 0 <= k < l2.len() && l2[k] == b as u32;
                        if k < l.len() {
                            assert(l2[k] == l[k]);
                        } else {
                            assert(l2[k] == v@[k - l.len()]);
                        }
                    }
                    assert(block_at(d1, b) == block_at(d0, b));
                }
                assert forall|p: int| 0 <= p < m0.size implies #[trigger] content(d2, m2)[p] == content(d0, m0)[p] by {
                    let j = p / 512;
                    assert(0 <= j < od) by (nonlinear_arith)
                        requires
                            0 <= p < m0.size,
                            j == p / 512,
                            od == (m0.size + 511) / 512,
                    ;
                    let bb = block_of(d1, m0, j);
                    assert(block_of(d2, m2, j) == bb);
                    assert(!is_index_block(d2, m2, bb)) by {
                        assert(is_index_block(d2, m2, block_of(d2, m2, j)) == false);
                    }
                    assert(block_at(d2, bb) == block_at(d1, bb));
                    assert(content(d1, m0)[p] == content(d0, m0)[p]);
                }
            }
        }
        true
    }

    /// Writes `buf` into this file at `offset`, growing the file first when the
    /// write reaches past its end, then writes everything back to the device.
    /// Returns how many bytes were written. The handle must be on a file.
    #[verifier::rlimit(40)]
    pub fn write_at<D: BlockDevice>(&self, fs: &mut EasyFileSystem<D>, offset: usize, buf: &[u8]) -> (r: usize)
        requires
            self.model(old(fs)).type_ == DiskInodeType::File,
            old(fs).wf(),
            self.placed(old(fs)),
        ensures
            final(fs).wf(),
            final(fs).same_layout(old(fs)),
            final(fs).disk().len() == old(fs).disk().len(),
            ({
                let m0 = self.model(old(fs));
                let m1 = self.model(final(fs));
                if m0.type_ == DiskInodeType::File && model_sized(m0) {
                    &&& m1.type_ == DiskInodeType::File
                    &&& m1.size == m0.size || m1.size == grow_target(m0.size as int, offset as int, buf@.len() as int)
                    &&& old(fs).free_data() >= total_blocks_spec(grow_target(m0.size as int, offset as int, buf@.len() as int))
                        - total_blocks_spec(m0.size as int) ==> m1.size == grow_target(m0.size as int, offset as int, buf@.len() as int)
                    &&& r as int == span(m1.size as int, offset as int, buf@.len() as int)
                    &&& final(fs).cache.device_blocks() == final(fs).disk()
                } else {
                    r == 0 && final(fs).disk() == old(fs).disk()
                }
            }),
            ({
                let m0 = self.model(old(fs));
                let m1 = self.model(final(fs));
                let c1 = content(final(fs).disk(), m1);
                m0.type_ == DiskInodeType::File && old(fs).inode_ok(m0) ==> {
                    &&& final(fs).inode_ok(m1)
                    &&& window(c1, offset as int, r as int) == buf@.subrange(0, r as int)
                    &&& forall|p: int|
                        0 <= p < m0.size && !(offset <= p < offset + r) ==> #[trigger] c1[p] == content(old(fs).disk(), m0)[p]
                    &&& self.slots_kept(old(fs), final(fs), self.loc())
                    &&& forall|b: int| b < old(fs).inode_area_start_block ==> #[trigger] block_at(final(fs).disk(), b) == block_at(old(fs).disk(), b)
                    &&& old(fs).kept_others(final(fs), blocks_list(old(fs).disk(), m0, data_blocks_spec(m0.size as int)))
                    &&& offset + buf@.len() <= m0.size ==> final(fs).free_data() == old(fs).free_data()
                    &&& old(fs).fresh_or_listed(
                        blocks_list(final(fs).disk(), m1, data_blocks_spec(m1.size as int)),
                        blocks_list(old(fs).disk(), m0, data_blocks_spec(m0.size as int)),
                    )
                }
            }),
    {
        let ghost f0 = *fs;
        let mut disk_inode = self.read_disk_inode(fs);
        if !disk_inode.is_file() || disk_inode.size > MAX_FILE_SIZE {
            return 0;
        }
        let size = disk_inode.size as usize;
        if buf.len() > size || offset > size - buf.len() {
            let target: u32 = if offset <= MAX_FILE_SIZE as usize && buf.len() <= MAX_FILE_SIZE as usize - offset {
                (offset + buf.len()) as u32
            } else {
                MAX_FILE_SIZE
            };
            Self::increase_size(fs, target, &mut disk_inode);
        }
        let ghost fm = *fs;
        let ghost c0 = content(old(fs).disk(), self.model(old(fs)));
        let ghost c1 = content(fs.disk(), disk_inode@);
        proof {
            let m0 = self.model(old(fs));
            let l0 = blocks_list(f0.disk(), m0, data_blocks_spec(m0.size as int));
            if f0.inode_ok(m0) && fm.disk() == f0.disk() {
                assert forall|k: int| 0 <= k < l0.len() implies l0.contains(#[trigger] l0[k]) || !f0.data_bitmap.bits(f0.disk())[l0[k]
                    - f0.data_area_start_block] by {
                    assert(l0[k] == l0[k]);
                }
            }
        }
        let n = self.write_and_store(fs, &disk_inode, offset, buf);
        proof {
            let m0 = self.model(old(fs));
            if old(fs).inode_ok(m0) {
                let l0 = blocks_list(f0.disk(), m0, data_blocks_spec(m0.size as int));
                let l1 = blocks_list(fm.disk(), disk_inode@, data_blocks_spec(disk_inode.size as int));
                lemma_kept_trans(&f0, &fm, &*fs, l0, l1);
                assert(self.meta_kept(f0.disk(), fs.disk(), f0.data_bitmap.start_block_id as int)) by {
                    assert forall|b: int| b < f0.data_bitmap.start_block_id && b != self.block_id implies #[trigger] block_at(fs.disk(), b)
                        == block_at(f0.disk(), b) by {
                        assert(block_at(fm.disk(), b) == block_at(f0.disk(), b));
                    }
                    assert forall|k: int|
                        0 <= k < BLOCK_SZ && !(self.block_offset <= k < self.block_offset + crate::layout::DISK_INODE_SZ) implies #[trigger] block_at(
                            fs.disk(),
                            self.block_id as int,
                        )[k] == block_at(f0.disk(), self.block_id as int)[k] by {
                        assert(block_at(fm.disk(), self.block_id as int) == block_at(f0.disk(), self.block_id as int));
                    }
                }
                lemma_slots_from_meta(*self, &f0, &*fs, self.loc());
            }
            if old(fs).inode_ok(self.model(old(fs))) {
                let c2 = content(fs.disk(), disk_inode@);
                assert forall|t: int| 0 <= t < n implies window(c2, offset as int, n as int)[t] == buf@.subrange(0, n as int)[t] by {}
                assert(window(c2, offset as int, n as int) =~= buf@.subrange(0, n as int));
            }
        }
        n
    }

    /// Writes `buf` into the file `disk_inode` at `offset`, stores the inode
    /// at this handle, and writes everything back to the device.
    fn write_and_store<D: BlockDevice>(&self, fs: &mut EasyFileSystem<D>, disk_inode: &DiskInode, offset: usize, buf: &[u8]) -> (r: usize)
        requires
            old(fs).wf(),
            self.placed(old(fs)),
            disk_inode.wf(),
            model_sized(disk_inode@),
        ensures
            final(fs).wf(),
            final(fs).same_layout(old(fs)),
            final(fs).disk().len() == old(fs).disk().len(),
            self.model(final(fs)) == disk_inode@,
            r as int == span(disk_inode.size as int, offset as int, buf@.len() as int),
            final(fs).cache.device_blocks() == final(fs).disk(),
            old(fs).inode_ok(disk_inode@) ==> final(fs).inode_ok(disk_inode@) && content(final(fs).disk(), disk_inode@)
                == crate::block_cache::splice(content(old(fs).disk(), disk_inode@), offset as int, buf@.subrange(0, r as int)),
            old(fs).inode_ok(disk_inode@) ==> self.meta_kept(old(fs).disk(), final(fs).disk(), old(fs).data_bitmap.start_block_id as int),
            old(fs).inode_ok(disk_inode@) ==> blocks_list(final(fs).disk(), disk_inode@, data_blocks_spec(disk_inode.size as int))
                == blocks_list(old(fs).disk(), disk_inode@, data_blocks_spec(disk_inode.size as int)),
            old(fs).inode_ok(disk_inode@) ==> final(fs).free_data() == old(fs).free_data() && old(fs).kept_others(
                final(fs),
                blocks_list(old(fs).disk(), disk_inode@, data_blocks_spec(disk_inode.size as int)),
            ),
    {
        let ghost m = disk_inode@;
        let ghost d1 = fs.disk();
        let ghost good = fs.inode_ok(m);
        let ghost db = data_blocks_spec(m.size as int);
        proof {
            if good {
                lemma_distinct_list_sound(d1, m);
            }
        }
        let n = disk_inode.write_at(offset, buf, &mut fs.cache);
        let ghost d2 = fs.disk();
        proof {
            if good {
                lemma_list_members(d1, m);
                let l = blocks_list(d1, m, db);
                assert forall|b: int| is_index_block(d1, m, b) implies block_at(d2, b) == block_at(d1, b) by {
                    if crate::disk_inode::is_data_block(d1, m, b) {
                        let j = choose|j: int| 0 <= j < db && #[trigger] block_of(d1, m, j) == b;
                    }
                }
                assert(db <= crate::layout::INDIRECT2_BOUND) by (nonlinear_arith)
                    requires
                        db == (m.size + 511) / 512,
                        m.size <= 8_468_480,
                ;
                lemma_same_index(d1, d2, m);
                crate::disk_inode::lemma_blocks_list_frame(d1, m, d2, m, db);
                // the bitmap blocks hold no data block of this inode
                assert forall|b: int|
                    fs.data_bitmap.start_block_id <= b < fs.data_bitmap.start_block_id + fs.data_bitmap.blocks implies #[trigger] block_at(d2, b)
                        == block_at(d1, b) by {
                    if crate::disk_inode::is_data_block(d1, m, b) {
                        let j = choose|j: int| 0 <= j < db && #[trigger] block_of(d1, m, j) == b;
                        let k = choose|k: int| 0 <= k < l.len() && l[k] == block_of(d1, m, j) as u32;
                        assert(l[k] as int == b);
                    }
                }
                fs.data_bitmap.lemma_bits_frame(d2, d1);
            }
        }
        disk_inode.store(&mut fs.cache, self.block_id, self.block_offset);
        let ghost d3 = fs.disk();
        fs.cache.sync_all();
        proof {
            if good {
                let l = blocks_list(d2, m, db);
                assert forall|k: int| 0 <= k < l.len() implies #[trigger] block_at(d3, l[k] as int) == block_at(d2, l[k] as int) by {
                    assert(l[k] as int != self.block_id);
                }
                lemma_list_frame(d2, d3, m);
                fs.data_bitmap.lemma_bits_frame(fs.disk(), d2);
                let l1 = blocks_list(d1, m, db);
                let start = fs.data_area_start_block as int;
                assert forall|bk: int|
                    start <= bk < start + fs.data_area_blocks && #[trigger] block_at(fs.disk(), bk) != block_at(d1, bk) implies !fs.data_bitmap.bits(
                        d1,
                    )[bk - start] || l1.contains(bk as u32) by {
                    assert(bk != self.block_id);
                    assert(block_at(fs.disk(), bk) == block_at(d2, bk));
                    if crate::disk_inode::is_data_block(d1, m, bk) {
                        let j = choose|j: int| 0 <= j < db && #[trigger] block_of(d1, m, j) == bk;
                        let k = choose|k: int| 0 <= k < l1.len() && l1[k] == block_of(d1, m, j) as u32;
                        assert(l1[k] as int == bk);
                    }
                }
                assert(fs.data_bitmap.bits(fs.disk()) == fs.data_bitmap.bits(d1));
                assert(fs.data_bits() =~= fs.data_bitmap.bits(d1).take(fs.data_area_blocks as int));
                assert forall|b: int| b < fs.data_bitmap.start_block_id implies #[trigger] block_at(d2, b) == block_at(d1, b) by {
                    if crate::disk_inode::is_data_block(d1, m, b) {
                        let j = choose|j: int| 0 <= j < db && #[trigger] block_of(d1, m, j) == b;
                        let k = choose|k: int| 0 <= k < l1.len() && l1[k] == block_of(d1, m, j) as u32;
                        assert(l1[k] as int == b);
                    }
                }
            }
        }
        n
    }

    /// Empties this file and returns every block it held to the free pool,
    /// then writes everything back to the device. The handle must be on a
    /// file.
    #[verifier::rlimit(40)]
    pub fn clear<D: BlockDevice>(&self, fs: &mut EasyFileSystem<D>)
        requires
            self.model(old(fs)).type_ == DiskInodeType::File,
            old(fs).wf(),
            self.placed(old(fs)),
        ensures
            final(fs).wf(),
            final(fs).same_layout(old(fs)),
            final(fs).disk().len() == old(fs).disk().len(),
            ({
                let m0 = self.model(old(fs));
                let m1 = self.model(final(fs));
                if m0.type_ == DiskInodeType::File && model_sized(m0) {
                    &&& m1.type_ == DiskInodeType::File
                    &&& m1.size == 0
                    &&& final(fs).cache.device_blocks() == final(fs).disk()
                } else {
                    final(fs).disk() == old(fs).disk()
                }
            }),
            ({
                let m0 = self.model(old(fs));
                let l = blocks_list(old(fs).disk(), m0, data_blocks_spec(m0.size as int));
                let start = old(fs).data_area_start_block as int;
                let b0 = old(fs).data_bitmap.bits(old(fs).disk());
                let b1 = final(fs).data_bitmap.bits(final(fs).disk());
                m0.type_ == DiskInodeType::File && old(fs).inode_ok(m0) ==> {
                    &&& l.len() == total_blocks_spec(m0.size as int)
                    &&& forall|k: int| 0 <= k < l.len() ==> !b1[#[trigger] l[k] - start] && block_at(final(fs).disk(), l[k] as int) == zero_block()
                    &&& forall|x: int| 0 <= x < b0.len() && !l.contains((x + start) as u32) ==> #[trigger] b1[x] == b0[x]
                    &&& self.slots_kept(old(fs), final(fs), self.loc())
                    &&& forall|b: int| b < old(fs).inode_area_start_block ==> #[trigger] block_at(final(fs).disk(), b) == block_at(old(fs).disk(), b)
                    &&& forall|b: int|
                        start <= b < start + old(fs).data_area_blocks && !l.contains(b as u32) ==> #[trigger] block_at(final(fs).disk(), b)
                            == block_at(old(fs).disk(), b)
                }
            }),
    {
        let mut disk_inode = self.read_disk_inode(fs);
        if !disk_inode.is_file() || disk_inode.size > MAX_FILE_SIZE {
            return;
        }
        let ghost m0 = disk_inode@;
        let ghost ok = old(fs).inode_ok(m0);
        let ghost start = fs.data_area_start_block as int;
        let ghost b0 = fs.data_bitmap.bits(fs.disk());
        let blocks = disk_inode.clear_size(&mut fs.cache);
        let ghost l = blocks@;
        let mut i: usize = 0;
        while i < blocks.len()
            invariant
                fs.wf(),
                fs.same_layout(old(fs)),
                fs.disk().len() == old(fs).disk().len(),
                i <= blocks@.len(),
                l == blocks@,
                start == fs.data_area_start_block,
                b0 == old(fs).data_bitmap.bits(old(fs).disk()),
                ok ==> l == blocks_list(old(fs).disk(), m0, data_blocks_spec(m0.size as int)),
                ok ==> old(fs).inode_ok(m0),
                ok ==> forall|k: int| 0 <= k < i ==> !fs.data_bitmap.bits(fs.disk())[#[trigger] l[k] - start] && block_at(fs.disk(), l[k] as int)
                    == zero_block(),
                ok ==> forall|k: int| i <= k < l.len() ==> fs.data_bitmap.bits(fs.disk())[#[trigger] l[k] - start],
                ok ==> forall|x: int|
                    0 <= x < b0.len() && !l.take(i as int).contains((x + start) as u32) ==> #[trigger] fs.data_bitmap.bits(fs.disk())[x]
                        == b0[x],
                ok ==> forall|b: int| b < fs.data_bitmap.start_block_id ==> #[trigger] block_at(fs.disk(), b) == block_at(old(fs).disk(), b),
                ok ==> forall|b: int|
                    start <= b < start + fs.data_area_blocks && !l.contains(b as u32) ==> #[trigger] block_at(fs.disk(), b) == block_at(
                        old(fs).disk(),
                        b,
                    ),
            decreases blocks@.len() - i,
        {
            let ghost bi = fs.data_bitmap.bits(fs.disk());
            let ghost di = fs.disk();
            if fs.data_block_in_use(blocks[i]) {
                fs.dealloc_data(blocks[i]);
            }
            proof {
                if ok {
                    let x0 = l[i as int] - start;
                    let bn = fs.data_bitmap.bits(fs.disk());
                    assert(bn == bi.update(x0, false));
                    assert forall|k: int| 0 <= k < i + 1 implies !bn[#[trigger] l[k] - start] && block_at(fs.disk(), l[k] as int)
                        == zero_block() by {
                        if k < i {
                            assert(l[k] != l[i as int]);
                            assert(block_at(fs.disk(), l[k] as int) == block_at(di, l[k] as int));
                        }
                    }
                    assert forall|k: int| i + 1 <= k < l.len() implies bn[#[trigger] l[k] - start] by {
                        assert(l[k] != l[i as int]);
                    }
                    assert forall|b: int| b < fs.data_bitmap.start_block_id implies #[trigger] block_at(fs.disk(), b) == block_at(old(fs).disk(), b) by {
                        assert(block_at(fs.disk(), b) == block_at(di, b));
                    }
                    assert forall|b: int|
                        start <= b < start + fs.data_area_blocks && !l.contains(b as u32) implies #[trigger] block_at(fs.disk(), b) == block_at(
                            old(fs).disk(),
                            b,
                        ) by {
                        assert(b != l[i as int]);
                        assert(block_at(fs.disk(), b) == block_at(di, b));
                    }
                    assert forall|x: int|
                        0 <= x < b0.len() && !l.take(i + 1).contains((x + start) as u32) implies #[trigger] bn[x] == b0[x] by {
                        assert(l.take(i + 1)[i as int] == l[i as int]);
                        assert forall|k: int| 0 <= k < i implies l.take(i as int)[k] == l.take(i + 1)[k] by {}
                        if l.take(i as int).contains((x + start) as u32) {
                            let k = choose|k: int| 0 <= k < i && l.take(i as int)[k] == (x + start) as u32;
                            assert(l.take(i + 1)[k] == (x + start) as u32);
                        }
                        assert(x != x0);
                    }
                }
            }
            i = i + 1;
        }
        let ghost d3 = fs.disk();
        disk_inode.store(&mut fs.cache, self.block_id, self.block_offset);
        fs.cache.sync_all();
        proof {
            fs.data_bitmap.lemma_bits_frame(fs.disk(), d3);
            if ok {
                let f0 = *old(fs);
                assert(self.meta_kept(f0.disk(), fs.disk(), f0.data_bitmap.start_block_id as int)) by {
                    assert forall|b: int| b < f0.data_bitmap.start_block_id && b != self.block_id implies #[trigger] block_at(fs.disk(), b)
                        == block_at(f0.disk(), b) by {
                        assert(block_at(d3, b) == block_at(f0.disk(), b));
                    }
                    assert forall|k: int|
                        0 <= k < BLOCK_SZ && !(self.block_offset <= k < self.block_offset + crate::layout::DISK_INODE_SZ) implies #[trigger] block_at(
                            fs.disk(),
                            self.block_id as int,
                        )[k] == block_at(f0.disk(), self.block_id as int)[k] by {
                        assert(block_at(d3, self.block_id as int) == block_at(f0.disk(), self.block_id as int));
                    }
                }
                lemma_slots_from_meta(*self, &f0, &*fs, self.loc());
                assert forall|b: int|
                    start <= b < start + fs.data_area_blocks && !l.contains(b as u32) implies #[trigger] block_at(fs.disk(), b) == block_at(
                        f0.disk(),
                        b,
                    ) by {
                    assert(block_at(d3, b) == block_at(f0.disk(), b));
                }
                assert(l.take(l.len() as int) =~= l);
                assert forall|k: int| 0 <= k < l.len() implies block_at(fs.disk(), #[trigger] l[k] as int) == block_at(d3, l[k] as int) by {}
            }
        }
    }
}


/// Relies on `String::from_utf8`: it succeeds exactly on valid UTF-8 and the
/// string then holds the characters those bytes encode.
#[verifier::external_body]
pub(crate) fn utf8_string(bytes: Vec<u8>) -> (r: Option<String>)
    ensures
        r is Some <==> vstd::utf8::valid_utf8(bytes@),
        r matches Some(s) ==> s@ == vstd::utf8::decode_utf8(bytes@),
{
    String::from_utf8(bytes).ok()
}

impl Inode {
    /// Reads entry `i` of directory `disk_inode`.
    fn read_entry<D: BlockDevice>(fs: &mut EasyFileSystem<D>, disk_inode: &DiskInode, i: usize) -> (r: DirEntry)
        requires
            old(fs).wf(),
            disk_inode.wf(),
            model_sized(disk_inode@),
            i < entry_count(disk_inode.size as int),
        ensures
            final(fs).wf(),
            final(fs).disk() == old(fs).disk(),
            final(fs).same_layout(old(fs)),
            name_of(r.field()) == entry_name(content(old(fs).disk(), disk_inode@), i as int),
            r.inode_spec() as int == entry_inode(content(old(fs).disk(), disk_inode@), i as int),
    {
        let ghost c = content(fs.disk(), disk_inode@);
        let mut buf: Vec<u8> = vec![0u8; DIRENT_SZ];
        proof {
            assert(DIRENT_SZ * i + DIRENT_SZ <= disk_inode.size) by (nonlinear_arith)
                requires
                    i < disk_inode.size / 32,
            ;
        }
        let _n = disk_inode.read_at(DIRENT_SZ * i, buf.as_mut_slice(), &mut fs.cache);
        let entry = DirEntry::decode(buf.as_slice(), 0);
        proof {
            assert forall|k: int| 0 <= k < 32 implies buf@[k] == c[32 * i + k] by {}
            assert(entry.field() =~= c.subrange(32 * i, 32 * i + 28));
            le_u32_window(c, buf@, i as int);
        }
        entry
    }

    /// The names of every entry of this directory, in order; empty for a file.
    /// A name that is not valid UTF-8 comes back as the empty string.
    pub fn ls<D: BlockDevice>(&self, fs: &mut EasyFileSystem<D>) -> (r: Vec<String>)
        requires
            old(fs).wf(),
            self.placed(old(fs)),
        ensures
            final(fs).wf(),
            final(fs).disk() == old(fs).disk(),
            final(fs).same_layout(old(fs)),
            ({
                let m = self.model(old(fs));
                let c = content(old(fs).disk(), m);
                if m.type_ == DiskInodeType::Directory && model_sized(m) {
                    &&& r@.len() == entry_count(m.size as int)
                    &&& forall|i: int|
                        0 <= i < r@.len() ==> #[trigger] r@[i]@ == if vstd::utf8::valid_utf8(entry_name(c, i)) {
                            vstd::utf8::decode_utf8(entry_name(c, i))
                        } else {
                            Seq::<char>::empty()
                        }
                } else {
                    r@.len() == 0
                }
            }),
    {
        let disk_inode = self.read_disk_inode(fs);
        let mut v: Vec<String> = Vec::new();
        if disk_inode.is_file() || disk_inode.size > MAX_FILE_SIZE {
            return v;
        }
        let ghost c = content(fs.disk(), disk_inode@);
        let count = disk_inode.size as usize / DIRENT_SZ;
        let mut i: usize = 0;
        while i < count
            invariant
                fs.wf(),
                fs.disk() == old(fs).disk(),
                fs.same_layout(old(fs)),
                disk_inode.wf(),
                model_sized(disk_inode@),
                disk_inode@ == self.model(old(fs)),
                c == content(fs.disk(), disk_inode@),
                count == entry_count(disk_inode.size as int),
                i <= count,
                v@.len() == i,
                forall|k: int|
                    0 <= k < i ==> #[trigger] v@[k]@ == if vstd::utf8::valid_utf8(entry_name(c, k)) {
                        vstd::utf8::decode_utf8(entry_name(c, k))
                    } else {
                        Seq::<char>::empty()
                    },
            decreases count - i,
        {
            let entry = Self::read_entry(fs, &disk_inode, i);
            let name = match utf8_string(entry.name()) {
                Some(s) => s,
                None => String::new(),
            };
            v.push(name);
            i = i + 1;
        }
        v
    }

    /// Whether the inode at this handle is a directory.
    pub fn is_dir<D: BlockDevice>(&self, fs: &mut EasyFileSystem<D>) -> (r: bool)
        requires
            old(fs).wf(),
            self.placed(old(fs)),
        ensures
            final(fs).wf(),
            final(fs).disk() == old(fs).disk(),
            final(fs).same_layout(old(fs)),
            r == (self.model(old(fs)).type_ == DiskInodeType::Directory),
    {
        let disk_inode = self.read_disk_inode(fs);
        disk_inode.is_dir()
    }

    /// Whether the inode at this handle is a regular file.
    pub fn is_file<D: BlockDevice>(&self, fs: &mut EasyFileSystem<D>) -> (r: bool)
        requires
            old(fs).wf(),
            self.placed(old(fs)),
        ensures
            final(fs).wf(),
            final(fs).disk() == old(fs).disk(),
            final(fs).same_layout(old(fs)),
            r == (self.model(old(fs)).type_ == DiskInodeType::File),
    {
        let disk_inode = self.read_disk_inode(fs);
        disk_inode.is_file()
    }

    /// Whether this handle names the root directory.
    pub fn is_root<D: BlockDevice>(&self, fs: &EasyFileSystem<D>) -> (r: bool)
        requires
            fs.wf(),
        ensures
            r == (self.loc() == fs.inode_pos(0)),
    {
        let (b, o) = fs.get_disk_inode_pos(0);
        self.block_id == b as usize && self.block_offset == o
    }

    /// The inode number that `name` names in the directory at this handle,
    /// reading the inode first; `None` for a file or an impossible size.
    fn lookup_here<D: BlockDevice>(&self, fs: &mut EasyFileSystem<D>, name: &[u8]) -> (r: Option<u32>)
        requires
            old(fs).wf(),
            self.placed(old(fs)),
        ensures
            final(fs).wf(),
            final(fs).disk() == old(fs).disk(),
            final(fs).same_layout(old(fs)),
            ({
                let m = self.model(old(fs));
                if m.type_ == DiskInodeType::Directory && model_sized(m) {
                    match r {
                        Some(id) => dir_lookup(old(fs).disk(), m, name@) == Some(id as int),
                        None => dir_lookup(old(fs).disk(), m, name@) is None,
                    }
                } else {
                    r is None
                }
            }),
    {
        let disk_inode = self.read_disk_inode(fs);
        if disk_inode.is_file() || disk_inode.size > MAX_FILE_SIZE {
            return None;
        }
        Self::find_inode_id(fs, name, &disk_inode)
    }

    /// This directory's own inode number: 0 for the root, otherwise what its
    /// `.` entry names.
    pub fn get_current_inode_id<D: BlockDevice>(&self, fs: &mut EasyFileSystem<D>) -> (r: Option<u32>)
        requires
            self.loc() == old(fs).inode_pos(0) || self.model(old(fs)).type_ == DiskInodeType::Directory,
            old(fs).wf(),
            self.placed(old(fs)),
        ensures
            final(fs).wf(),
            final(fs).disk() == old(fs).disk(),
            final(fs).same_layout(old(fs)),
            self.loc() == old(fs).inode_pos(0) ==> r == Some(0u32),
            self.loc() != old(fs).inode_pos(0) ==> ({
                let m = self.model(old(fs));
                if m.type_ == DiskInodeType::Directory && model_sized(m) {
                    match r {
                        Some(id) => dir_lookup(old(fs).disk(), m, seq![0x2eu8]) == Some(id as int),
                        None => dir_lookup(old(fs).disk(), m, seq![0x2eu8]) is None,
                    }
                } else {
                    r is None
                }
            }),
    {
        if self.is_root(fs) {
            return Some(0);
        }
        let dot: [u8; 1] = [0x2eu8];
        assert(dot@ =~= seq![0x2eu8]);
        self.lookup_here(fs, dot.as_slice())
    }

    /// The directory holding this one, through its `..` entry; `None` for the
    /// root, for a file, and where no such entry leads to an inode.
    pub fn get_parent<D: BlockDevice>(&self, fs: &mut EasyFileSystem<D>) -> (r: Option<Inode>)
        requires
            old(fs).wf(),
            self.placed(old(fs)),
        ensures
            final(fs).wf(),
            final(fs).disk() == old(fs).disk(),
            final(fs).same_layout(old(fs)),
            r matches Some(p) ==> p.placed(final(fs)),
            self.loc() == old(fs).inode_pos(0) ==> r is None,
            self.loc() != old(fs).inode_pos(0) ==> match r {
                Some(p) => old(fs).step(self.loc(), seq![0x2eu8, 0x2eu8]) == Some(p.loc()),
                None => old(fs).step(self.loc(), seq![0x2eu8, 0x2eu8]) is None,
            },
    {
        if self.is_root(fs) {
            return None;
        }
        let dotdot: [u8; 2] = [0x2eu8, 0x2eu8];
        assert(dotdot@ =~= seq![0x2eu8, 0x2eu8]);
        match Self::step(fs, (self.block_id, self.block_offset), dotdot.as_slice()) {
            Some(l) => Some(Inode { block_id: l.0, block_offset: l.1 }),
            None => None,
        }
    }
}


impl Inode {
    /// Appends one entry, `name` for inode `inode_id`, to the directory at
    /// this handle, growing it by one entry. `false`, with nothing changed
    /// here, when the handle is not on a directory, or when the data area has
    /// no room for it.
    fn append_entry<D: BlockDevice>(&self, fs: &mut EasyFileSystem<D>, name: &[u8], inode_id: u32) -> (ok: bool)
        requires
            old(fs).wf(),
            self.placed(old(fs)),
            name@.len() <= NAME_LENGTH_LIMIT,
        ensures
            final(fs).wf(),
            final(fs).same_layout(old(fs)),
            final(fs).disk().len() == old(fs).disk().len(),
            ok ==> self.model(final(fs)).type_ == DiskInodeType::Directory,
            ok ==> self.model(old(fs)).size + DIRENT_SZ <= MAX_FILE_SIZE,
            ok ==> self.model(final(fs)).size == (entry_count(self.model(old(fs)).size as int) + 1) * DIRENT_SZ,
            ({
                let m0 = self.model(old(fs));
                let cnt = entry_count(m0.size as int);
                old(fs).inode_ok(m0) && m0.type_ == DiskInodeType::Directory && m0.size + DIRENT_SZ <= MAX_FILE_SIZE
                    && old(fs).free_data() >= total_blocks_spec((cnt + 1) * DIRENT_SZ) - total_blocks_spec(m0.size as int) ==> ok
            }),
            !ok && old(fs).inode_ok(self.model(old(fs))) ==> self.model(final(fs)) == self.model(old(fs)),
            old(fs).inode_ok(self.model(old(fs))) ==> self.meta_kept(old(fs).disk(), final(fs).disk(), old(fs).data_bitmap.start_block_id as int)
                && old(fs).kept_others(final(fs), blocks_list(old(fs).disk(), self.model(old(fs)), data_blocks_spec(self.model(old(fs)).size as int))),
            ok && old(fs).inode_ok(self.model(old(fs))) ==> {
                let m0 = self.model(old(fs));
                let m1 = self.model(final(fs));
                let c0 = content(old(fs).disk(), m0);
                let c1 = content(final(fs).disk(), m1);
                let cnt = entry_count(m0.size as int);
                &&& final(fs).inode_ok(m1)
                &&& forall|p: int| 0 <= p < cnt * DIRENT_SZ ==> #[trigger] c1[p] == c0[p]
                &&& c1.subrange(cnt * DIRENT_SZ, cnt * DIRENT_SZ + NAME_FIELD_SZ) == name_field(name@)
                &&& entry_inode(c1, cnt) == inode_id
                &&& self.meta_kept(old(fs).disk(), final(fs).disk(), old(fs).data_bitmap.start_block_id as int)
                &&& final(fs).free_data() == old(fs).free_data() - (total_blocks_spec((cnt + 1) * DIRENT_SZ) - total_blocks_spec(
                    m0.size as int,
                ))
                &&& old(fs).kept_others(final(fs), blocks_list(old(fs).disk(), m0, data_blocks_spec(m0.size as int)))
                &&& old(fs).fresh_or_listed(
                    blocks_list(final(fs).disk(), m1, data_blocks_spec(m1.size as int)),
                    blocks_list(old(fs).disk(), m0, data_blocks_spec(m0.size as int)),
                )
            },
    {
        let mut disk_inode = self.read_disk_inode(fs);
        if !disk_inode.is_dir() || disk_inode.size > MAX_FILE_SIZE - DIRENT_SZ as u32 {
            return false;
        }
        let ghost m0 = disk_inode@;
        let ghost d0 = fs.disk();
        let file_count = disk_inode.size / DIRENT_SZ as u32;
        let new_size = (file_count + 1) * DIRENT_SZ as u32;
        if !Self::increase_size(fs, new_size, &mut disk_inode) {
            return false;
        }
        let ghost d1 = fs.disk();
        let ghost f1 = *fs;
        let entry = DirEntry::new(name, inode_id);
        proof {
            assert(entry.field().len() == 28);
        }
        let rec = entry.encode();
        let n = self.write_and_store(fs, &disk_inode, (file_count * DIRENT_SZ as u32) as usize, rec.as_slice());
        proof {
            if old(fs).inode_ok(m0) {
                let cnt = file_count as int;
                let c1 = content(fs.disk(), disk_inode@);
                assert(n == 32);
                assert(rec@.subrange(0, 32) =~= rec@);
                assert forall|p: int| 0 <= p < cnt * DIRENT_SZ implies #[trigger] c1[p] == content(d0, m0)[p] by {
                    assert(content(d1, disk_inode@)[p] == content(d0, m0)[p]);
                }
                assert(c1.subrange(cnt * 32, cnt * 32 + 28) =~= rec@.subrange(0, 28));
                assert(c1[cnt * 32 + 28] == rec@[28]);
                assert(c1[cnt * 32 + 29] == rec@[29]);
                assert(c1[cnt * 32 + 30] == rec@[30]);
                assert(c1[cnt * 32 + 31] == rec@[31]);
                lemma_kept_trans(old(fs), &f1, &*fs, blocks_list(d0, m0, data_blocks_spec(m0.size as int)), blocks_list(
                    d1,
                    disk_inode@,
                    data_blocks_spec(disk_inode.size as int),
                ));
                assert forall|b: int| b < old(fs).data_bitmap.start_block_id && b != self.block_id implies #[trigger] block_at(fs.disk(), b)
                    == block_at(d0, b) by {
                    assert(block_at(d1, b) == block_at(d0, b));
                }
                assert forall|k: int|
                    0 <= k < BLOCK_SZ && !(self.block_offset <= k < self.block_offset + crate::layout::DISK_INODE_SZ) implies #[trigger] block_at(
                        fs.disk(),
                        self.block_id as int,
                    )[k] == block_at(d0, self.block_id as int)[k] by {
                    assert(block_at(d1, self.block_id as int) == block_at(d0, self.block_id as int));
                }
            }
        }
        true
    }

    /// Whether creating `nm` in the directory at this handle is owed to
    /// succeed: the directory is consistent with `fs`, the name is new, has 1
    /// to `NAME_LENGTH_LIMIT` bytes and no zero byte, an inode number is free
    /// (and is not this handle's own slot), and the data area has room for
    /// one more entry.
    pub open spec fn can_create<D: BlockDevice>(&self, fs: &EasyFileSystem<D>, nm: Seq<u8>) -> bool {
        let m0 = self.model(fs);
        let cnt = entry_count(m0.size as int);
        let i = first_clear(fs.inode_bitmap.bits(fs.disk()));
        &&& m0.type_ == DiskInodeType::Directory
        &&& fs.inode_ok(m0)
        &&& 1 <= nm.len() <= NAME_LENGTH_LIMIT
        &&& forall|k: int| 0 <= k < nm.len() ==> nm[k] != 0
        &&& dir_lookup(fs.disk(), m0, nm) is None
        &&& i < fs.inode_count()
        &&& fs.inode_pos(i) != self.loc()
        &&& m0.size + DIRENT_SZ <= MAX_FILE_SIZE
        &&& fs.free_data() >= total_blocks_spec((cnt + 1) * DIRENT_SZ) - total_blocks_spec(m0.size as int)
    }

    /// What creating `nm` of kind `ty` at handle `h` did, from `f0` to `f1`:
    /// it took the lowest free inode number, made it an empty inode of kind
    /// `ty`, and appended to this directory one entry naming it by `nm`.
    pub open spec fn created<D: BlockDevice>(
        &self,
        f0: &EasyFileSystem<D>,
        f1: &EasyFileSystem<D>,
        nm: Seq<u8>,
        ty: DiskInodeType,
        h: Inode,
    ) -> bool {
        let i = first_clear(f0.inode_bitmap.bits(f0.disk()));
        &&& h.loc() == f0.inode_pos(i)
        &&& h.loc() != self.loc()
        &&& h.placed(f1)
        &&& dir_lookup(f1.disk(), self.model(f1), nm) == Some(i)
        &&& h.model(f1).size == 0
        &&& h.model(f1).type_ == ty
        &&& f1.inode_bitmap.bits(f1.disk()) == f0.inode_bitmap.bits(f0.disk()).update(i, true)
        &&& f1.inode_ok(self.model(f1))
        &&& self.model(f1).type_ == DiskInodeType::Directory
        &&& self.model(f1).size == (entry_count(self.model(f0).size as int) + 1) * DIRENT_SZ
        &&& f1.free_data() == f0.free_data() - (total_blocks_spec((entry_count(self.model(f0).size as int) + 1) * DIRENT_SZ)
            - total_blocks_spec(self.model(f0).size as int))
        &&& forall|p: int|
            0 <= p < entry_count(self.model(f0).size as int) * DIRENT_SZ ==> #[trigger] content(f1.disk(), self.model(f1))[p]
                == content(f0.disk(), self.model(f0))[p]
        &&& self.model(f0).size + DIRENT_SZ <= MAX_FILE_SIZE
        &&& self.slots_kept(f0, f1, h.loc())
        &&& block_at(f1.disk(), 0) == block_at(f0.disk(), 0)
        &&& f0.kept_others(f1, blocks_list(f0.disk(), self.model(f0), data_blocks_spec(self.model(f0).size as int)))
        &&& f0.fresh_or_listed(
            blocks_list(f1.disk(), self.model(f1), data_blocks_spec(self.model(f1).size as int)),
            blocks_list(f0.disk(), self.model(f0), data_blocks_spec(self.model(f0).size as int)),
        )
    }

    #[verifier::rlimit(60)]
    fn create_inode<D: BlockDevice>(&self, fs: &mut EasyFileSystem<D>, name: &str, inode_type: DiskInodeType) -> (r: Option<Inode>)
        requires
            self.model(old(fs)).type_ == DiskInodeType::Directory,
            old(fs).wf(),
            self.placed(old(fs)),
        ensures
            final(fs).wf(),
            final(fs).same_layout(old(fs)),
            final(fs).disk().len() == old(fs).disk().len(),
            self.model(old(fs)).type_ == DiskInodeType::Directory && model_sized(self.model(old(fs))) && dir_lookup(
                old(fs).disk(),
                self.model(old(fs)),
                name.spec_bytes(),
            ) is Some ==> r is None && final(fs).disk() == old(fs).disk(),
            self.model(old(fs)).type_ == DiskInodeType::File ==> r is None && final(fs).disk() == old(fs).disk(),
            name.spec_bytes().len() > NAME_LENGTH_LIMIT ==> r is None && final(fs).disk() == old(fs).disk(),
            r matches Some(i) ==> {
                &&& i.placed(final(fs))
                &&& i.loc() == old(fs).inode_pos(first_clear(old(fs).inode_bitmap.bits(old(fs).disk())))
                &&& dir_lookup(old(fs).disk(), self.model(old(fs)), name.spec_bytes()) is None
                &&& self.model(final(fs)).type_ == DiskInodeType::Directory
                &&& self.model(final(fs)).size == (entry_count(self.model(old(fs)).size as int) + 1) * DIRENT_SZ
            },
            self.can_create(old(fs), name.spec_bytes()) ==> r is Some,
            r matches Some(h) ==> h.loc() != self.loc(),
            old(fs).inode_ok(self.model(old(fs))) ==> (r matches Some(h) ==> self.created(old(fs), final(fs), name.spec_bytes(), inode_type, h)),
    {
        let bytes = name.as_bytes();
        let disk_inode = self.read_disk_inode(fs);
        if !disk_inode.is_dir() || disk_inode.size > MAX_FILE_SIZE || bytes.len() > NAME_LENGTH_LIMIT || bytes.len() == 0
            || has_zero(bytes) {
            return None;
        }
        match Self::find_inode_id(fs, bytes, &disk_inode) {
            Some(id) => {
                return None;
            },
            None => {},
        }
        let new_inode_id = match fs.alloc_inode() {
            Some(id) => id,
            None => {
                return None;
            },
        };
        let (b, o) = fs.get_disk_inode_pos(new_inode_id);
        if b as usize == self.block_id && o == self.block_offset {
            fs.dealloc_inode(new_inode_id);
            return None;
        }
        let ghost before = fs.disk();
        let fresh = DiskInode::new(inode_type);
        fresh.store(&mut fs.cache, b as usize, o);
        proof {
            lemma_other_slot(before, fs.disk(), self.block_id as int, self.block_offset as int, b as int, o as int);
            let m0 = self.model(old(fs));
            if old(fs).inode_ok(m0) {
                let l = blocks_list(old(fs).disk(), m0, data_blocks_spec(m0.size as int));
                assert forall|k: int| 0 <= k < l.len() implies #[trigger] block_at(fs.disk(), l[k] as int) == block_at(old(fs).disk(), l[k] as int) by {
                    assert(block_at(before, l[k] as int) == block_at(old(fs).disk(), l[k] as int));
                }
                lemma_list_frame(old(fs).disk(), fs.disk(), m0);
                fs.data_bitmap.lemma_bits_frame(before, old(fs).disk());
                fs.data_bitmap.lemma_bits_frame(fs.disk(), before);
            }
        }
        let ghost mid = fs.disk();
        let ghost fmid = *fs;
        if !self.append_entry(fs, bytes, new_inode_id) {
            fs.dealloc_inode(new_inode_id);
            return None;
        }
        proof {
            let m0 = self.model(old(fs));
            if old(fs).inode_ok(m0) {
                let nm = bytes@;
                let cnt = entry_count(m0.size as int);
                let c0 = content(old(fs).disk(), m0);
                let c1 = content(fs.disk(), self.model(fs));
                crate::layout::lemma_name_field(nm);
                lemma_lookup_prefix(c0, c1, nm, cnt);
                assert(c1.subrange(cnt * 32, cnt * 32 + 28) == name_field(nm));
                assert(entry_name(c1, cnt) == nm);
                assert(lookup(c1, nm, cnt + 1) == Some(cnt));
                assert(entry_count(self.model(fs).size as int) == cnt + 1);
                // the new inode's record was left alone
                if b as usize != self.block_id {
                    assert(block_at(fs.disk(), b as int) == block_at(mid, b as int));
                } else {
                    assert forall|k: int| o <= k < o + 128 implies block_at(fs.disk(), b as int)[k] == block_at(mid, b as int)[k] by {
                        let so = self.block_offset as int;
                        assert(!(so <= k < so + 128)) by (nonlinear_arith)
                            requires
                                so % 128 == 0,
                                o % 128 == 0,
                                so != o,
                                o <= k < o + 128,
                        ;
                    }
                    crate::layout::lemma_inode_frame(block_at(mid, b as int), block_at(fs.disk(), b as int), o as int);
                }
                fs.inode_bitmap.lemma_bits_frame(fs.disk(), mid);
                fs.inode_bitmap.lemma_bits_frame(mid, before);
                // every other inode slot kept its inode
                let f0 = *old(fs);
                lemma_slots_from_meta(*self, &fmid, &*fs, (b as int, o as int));
                assert forall|bb: int, oo: int|
                    f0.inode_area_start_block <= bb < f0.data_bitmap.start_block_id && 0 <= oo && oo + crate::layout::DISK_INODE_SZ
                        <= BLOCK_SZ && oo % crate::layout::DISK_INODE_SZ as int == 0 && (bb, oo) != self.loc() && (bb, oo) != (
                    b as int,
                    o as int,
                ) implies #[trigger] model_at(fs.disk(), bb, oo) == model_at(f0.disk(), bb, oo) by {
                    assert(model_at(fs.disk(), bb, oo) == model_at(mid, bb, oo));
                    assert(block_at(before, bb) == block_at(f0.disk(), bb));
                    if bb != b {
                        assert(block_at(mid, bb) == block_at(before, bb));
                    } else {
                        assert forall|k: int| oo <= k < oo + 128 implies block_at(before, bb)[k] == block_at(mid, bb)[k] by {
                            let o2 = o as int;
                            assert(!(o2 <= k < o2 + 128)) by (nonlinear_arith)
                                requires
                                    oo % 128 == 0,
                                    o2 % 128 == 0,
                                    oo != o2,
                                    oo <= k < oo + 128,
                            ;
                        }
                        assert(block_at(before, bb).len() == 512 && block_at(mid, bb).len() == 512);
                        crate::layout::lemma_inode_frame(block_at(before, bb), block_at(mid, bb), oo);
                    }
                }
                assert(block_at(fs.disk(), 0) == block_at(mid, 0));
                assert(block_at(mid, 0) == block_at(before, 0));
                let l0 = blocks_list(f0.disk(), m0, data_blocks_spec(m0.size as int));
                assert(f0.kept_others(&fmid, l0)) by {
                    let bs0 = f0.data_bitmap.bits(f0.disk());
                    let bs1 = fmid.data_bitmap.bits(fmid.disk());
                    assert(bs1 == bs0);
                    assert forall|bk: int|
                        f0.data_area_start_block <= bk < f0.data_area_start_block + f0.data_area_blocks implies #[trigger] block_at(mid, bk)
                            == block_at(f0.disk(), bk) by {
                        assert(block_at(before, bk) == block_at(f0.disk(), bk));
                    }
                }
                assert forall|k: int| 0 <= k < l0.len() implies l0.contains(#[trigger] l0[k]) || !f0.data_bitmap.bits(f0.disk())[l0[k]
                    - f0.data_area_start_block] by {
                    assert(l0[k] == l0[k]);
                }
                lemma_kept_trans(&f0, &fmid, &*fs, l0, l0);
                assert(fmid.data_bitmap.bits(fmid.disk()) == f0.data_bitmap.bits(f0.disk()));
            }
        }
        Some(Inode::new(b, o))
    }

    /// Creates an empty file `name` in this directory and returns a handle on
    /// it; `None` when the name is taken or too long, or the filesystem has no
    /// room. The handle must be on a directory.
    pub fn create<D: BlockDevice>(&self, fs: &mut EasyFileSystem<D>, name: &str) -> (r: Option<Inode>)
        requires
            self.model(old(fs)).type_ == DiskInodeType::Directory,
            old(fs).wf(),
            self.placed(old(fs)),
        ensures
            final(fs).wf(),
            final(fs).same_layout(old(fs)),
            final(fs).disk().len() == old(fs).disk().len(),
            self.model(old(fs)).type_ == DiskInodeType::Directory && model_sized(self.model(old(fs))) && dir_lookup(
                old(fs).disk(),
                self.model(old(fs)),
                name.spec_bytes(),
            ) is Some ==> r is None && final(fs).disk() == old(fs).disk(),
            self.model(old(fs)).type_ == DiskInodeType::File ==> r is None && final(fs).disk() == old(fs).disk(),
            name.spec_bytes().len() > NAME_LENGTH_LIMIT ==> r is None && final(fs).disk() == old(fs).disk(),
            r matches Some(i) ==> {
                &&& i.placed(final(fs))
                &&& i.loc() == old(fs).inode_pos(first_clear(old(fs).inode_bitmap.bits(old(fs).disk())))
                &&& dir_lookup(old(fs).disk(), self.model(old(fs)), name.spec_bytes()) is None
                &&& self.model(final(fs)).size == (entry_count(self.model(old(fs)).size as int) + 1) * DIRENT_SZ
            },
            self.can_create(old(fs), name.spec_bytes()) ==> r is Some,
            old(fs).inode_ok(self.model(old(fs))) ==> (r matches Some(h) ==> self.created(
                old(fs),
                final(fs),
                name.spec_bytes(),
                DiskInodeType::File,
                h,
            )),
    {
        self.create_inode(fs, name, DiskInodeType::File)
    }

    /// Adds to this directory the entry `path`, which must be `.` or `..`,
    /// naming inode `inode`, and returns a handle on that inode; `None` when
    /// this is not a directory or there is no room.
    pub fn create_dir_link<D: BlockDevice>(&self, fs: &mut EasyFileSystem<D>, path: &str, inode: u32) -> (r: Option<Inode>)
        requires
            path.spec_bytes() == seq![0x2eu8] || path.spec_bytes() == seq![0x2eu8, 0x2eu8],
            old(fs).wf(),
            self.placed(old(fs)),
        ensures
            final(fs).wf(),
            final(fs).same_layout(old(fs)),
            final(fs).disk().len() == old(fs).disk().len(),
            path.spec_bytes() != seq![0x2eu8] && path.spec_bytes() != seq![0x2eu8, 0x2eu8] ==> r is None
                && final(fs).disk() == old(fs).disk(),
            r matches Some(i) ==> i.loc() == old(fs).inode_pos(inode as int) && i.placed(final(fs)),
            r is Some ==> self.model(final(fs)).type_ == DiskInodeType::Directory && self.model(final(fs)).size == (
            entry_count(self.model(old(fs)).size as int) + 1) * DIRENT_SZ,
            ({
                let m0 = self.model(old(fs));
                let cnt = entry_count(m0.size as int);
                (path.spec_bytes() == seq![0x2eu8] || path.spec_bytes() == seq![0x2eu8, 0x2eu8]) && inode < old(fs).inode_count()
                    && old(fs).inode_ok(m0) && m0.type_ == DiskInodeType::Directory && m0.size + DIRENT_SZ <= MAX_FILE_SIZE
                    && old(fs).free_data() >= total_blocks_spec((cnt + 1) * DIRENT_SZ) - total_blocks_spec(m0.size as int) ==> r is Some
            }),
            r is Some && old(fs).inode_ok(self.model(old(fs))) ==> {
                let m0 = self.model(old(fs));
                let m1 = self.model(final(fs));
                let c0 = content(old(fs).disk(), m0);
                let c1 = content(final(fs).disk(), m1);
                let cnt = entry_count(m0.size as int);
                &&& final(fs).inode_ok(m1)
                &&& forall|p: int| 0 <= p < cnt * DIRENT_SZ ==> #[trigger] c1[p] == c0[p]
                &&& entry_name(c1, cnt) == path.spec_bytes()
                &&& entry_inode(c1, cnt) == inode
            },
            old(fs).inode_ok(self.model(old(fs))) ==> {
                &&& self.slots_kept(old(fs), final(fs), self.loc())
                &&& forall|b: int| b < old(fs).inode_area_start_block ==> #[trigger] block_at(final(fs).disk(), b) == block_at(old(fs).disk(), b)
                &&& old(fs).kept_others(final(fs), blocks_list(old(fs).disk(), self.model(old(fs)), data_blocks_spec(self.model(old(fs)).size as int)))
            },
    {
        let bytes = path.as_bytes();
        let is_dot = bytes.len() == 1 && bytes[0] == 0x2eu8;
        let is_dotdot = bytes.len() == 2 && bytes[0] == 0x2eu8 && bytes[1] == 0x2eu8;
        if !is_dot && !is_dotdot {
            proof {
                if bytes@ == seq![0x2eu8] {
                    assert(bytes@[0] == 0x2eu8);
                }
                if bytes@ == seq![0x2eu8, 0x2eu8] {
                    assert(bytes@[0] == 0x2eu8 && bytes@[1] == 0x2eu8);
                }
            }
            return None;
        }
        proof {
            if is_dot {
                assert(bytes@ =~= seq![0x2eu8]);
            } else {
                assert(bytes@ =~= seq![0x2eu8, 0x2eu8]);
            }
        }
        if (inode as u64) >= fs.inode_bitmap.blocks as u64 * 4096 {
            return None;
        }
        let ghost f0 = *fs;
        let ok = self.append_entry(fs, bytes, inode);
        proof {
            if f0.inode_ok(self.model(&f0)) {
                lemma_slots_from_meta(*self, &f0, &*fs, self.loc());
            }
        }
        if !ok {
            return None;
        }
        proof {
            crate::layout::lemma_name_field(bytes@);
            if old(fs).inode_ok(self.model(old(fs))) {
                let cnt = entry_count(self.model(old(fs)).size as int);
                let c1 = content(fs.disk(), self.model(fs));
                assert(c1.subrange(cnt * 32, cnt * 32 + 28) == name_field(bytes@));
            }
        }
        let (b, o) = fs.get_disk_inode_pos(inode);
        Some(Inode::new(b, o))
    }

    /// Creates an empty directory `name` in this directory, holding the
    /// entries `.` (itself) and `..` (this directory), and returns a handle on
    /// it; `None` when the name is taken or too long, or the filesystem has no
    /// room for the new entry and the new directory's first block.
    pub fn create_dir<D: BlockDevice>(&self, fs: &mut EasyFileSystem<D>, name: &str) -> (r: Option<Inode>)
        requires
            self.model(old(fs)).type_ == DiskInodeType::Directory,
            old(fs).wf(),
            self.placed(old(fs)),
        ensures
            final(fs).wf(),
            final(fs).same_layout(old(fs)),
            final(fs).disk().len() == old(fs).disk().len(),
            self.model(old(fs)).type_ == DiskInodeType::Directory && model_sized(self.model(old(fs))) && dir_lookup(
                old(fs).disk(),
                self.model(old(fs)),
                name.spec_bytes(),
            ) is Some ==> r is None && final(fs).disk() == old(fs).disk(),
            self.model(old(fs)).type_ == DiskInodeType::File ==> r is None && final(fs).disk() == old(fs).disk(),
            name.spec_bytes().len() > NAME_LENGTH_LIMIT ==> r is None && final(fs).disk() == old(fs).disk(),
            r matches Some(i) ==> {
                &&& i.placed(final(fs))
                &&& i.loc() == old(fs).inode_pos(first_clear(old(fs).inode_bitmap.bits(old(fs).disk())))
                &&& dir_lookup(old(fs).disk(), self.model(old(fs)), name.spec_bytes()) is None
            },
            ({
                let m0 = self.model(old(fs));
                self.can_create(old(fs), name.spec_bytes()) && old(fs).free_data() >= total_blocks_spec((entry_count(m0.size as int) + 1)
                    * DIRENT_SZ) - total_blocks_spec(m0.size as int) + 1 ==> r is Some
            }),
            old(fs).inode_ok(self.model(old(fs))) ==> (r matches Some(h) ==> {
                let m0 = self.model(old(fs));
                let i = first_clear(old(fs).inode_bitmap.bits(old(fs).disk()));
                let cnt = entry_count(m0.size as int);
                &&& dir_lookup(final(fs).disk(), self.model(final(fs)), name.spec_bytes()) == Some(i)
                &&& self.model(final(fs)).type_ == DiskInodeType::Directory
                &&& self.model(final(fs)).size == (cnt + 1) * DIRENT_SZ
                &&& final(fs).inode_ok(self.model(final(fs)))
                &&& final(fs).inode_bitmap.bits(final(fs).disk()) == old(fs).inode_bitmap.bits(old(fs).disk()).update(i, true)
                &&& h.model(final(fs)).type_ == DiskInodeType::Directory
                &&& self.slots_kept(old(fs), final(fs), h.loc())
                &&& block_at(final(fs).disk(), 0) == block_at(old(fs).disk(), 0)
                &&& old(fs).kept_others(final(fs), blocks_list(old(fs).disk(), m0, data_blocks_spec(m0.size as int)))
                &&& self.loc() == old(fs).inode_pos(0) || dir_lookup(old(fs).disk(), m0, seq![0x2eu8]) is Some ==> {
                    let c = content(final(fs).disk(), h.model(final(fs)));
                    let pid = if self.loc() == old(fs).inode_pos(0) {
                        0int
                    } else {
                        dir_lookup(old(fs).disk(), m0, seq![0x2eu8])->0
                    };
                    &&& h.model(final(fs)).size == 2 * DIRENT_SZ
                    &&& entry_name(c, 0) == seq![0x2eu8]
                    &&& entry_inode(c, 0) == i
                    &&& entry_name(c, 1) == seq![0x2eu8, 0x2eu8]
                    &&& entry_inode(c, 1) == pid
                    &&& final(fs).inode_ok(h.model(final(fs)))
                }
            }),
    {
        let probe = self.read_disk_inode(fs);
        if probe.size <= MAX_FILE_SIZE - DIRENT_SZ as u32 {
            let grown = (probe.size / DIRENT_SZ as u32 + 1) * DIRENT_SZ as u32;
            let need = probe.blocks_num_needed(grown);
            let free = fs.free_data_count();
            if free <= need {
                return None;
            }
        }
        let ghost fp = *fs;
        let r = self.make_dir(fs, name);
        proof {
            lemma_make_dir_transfer(old(fs), &fp, &*fs, *self, name.spec_bytes(), r);
        }
        r
    }

    #[verifier::rlimit(80)]
    fn make_dir<D: BlockDevice>(&self, fs: &mut EasyFileSystem<D>, name: &str) -> (r: Option<Inode>)
        requires
            self.model(old(fs)).type_ == DiskInodeType::Directory,
            old(fs).wf(),
            self.placed(old(fs)),
        ensures
            old(fs).inode_ok(self.model(old(fs))) ==> (r is Some ==> self.model(old(fs)).size + DIRENT_SZ <= MAX_FILE_SIZE),
            final(fs).wf(),
            final(fs).same_layout(old(fs)),
            final(fs).disk().len() == old(fs).disk().len(),
            self.model(old(fs)).type_ == DiskInodeType::Directory && model_sized(self.model(old(fs))) && dir_lookup(
                old(fs).disk(),
                self.model(old(fs)),
                name.spec_bytes(),
            ) is Some ==> r is None && final(fs).disk() == old(fs).disk(),
            self.model(old(fs)).type_ == DiskInodeType::File ==> r is None && final(fs).disk() == old(fs).disk(),
            name.spec_bytes().len() > NAME_LENGTH_LIMIT ==> r is None && final(fs).disk() == old(fs).disk(),
            r matches Some(i) ==> {
                &&& i.placed(final(fs))
                &&& i.loc() == old(fs).inode_pos(first_clear(old(fs).inode_bitmap.bits(old(fs).disk())))
                &&& dir_lookup(old(fs).disk(), self.model(old(fs)), name.spec_bytes()) is None
            },
            self.can_create(old(fs), name.spec_bytes()) ==> r is Some,
            old(fs).inode_ok(self.model(old(fs))) ==> (r matches Some(h) ==> {
                let m0 = self.model(old(fs));
                let i = first_clear(old(fs).inode_bitmap.bits(old(fs).disk()));
                let cnt = entry_count(m0.size as int);
                &&& dir_lookup(final(fs).disk(), self.model(final(fs)), name.spec_bytes()) == Some(i)
                &&& self.model(final(fs)).type_ == DiskInodeType::Directory
                &&& self.model(final(fs)).size == (cnt + 1) * DIRENT_SZ
                &&& final(fs).inode_ok(self.model(final(fs)))
                &&& final(fs).inode_bitmap.bits(final(fs).disk()) == old(fs).inode_bitmap.bits(old(fs).disk()).update(i, true)
                &&& h.model(final(fs)).type_ == DiskInodeType::Directory
                &&& self.slots_kept(old(fs), final(fs), h.loc())
                &&& block_at(final(fs).disk(), 0) == block_at(old(fs).disk(), 0)
                &&& old(fs).kept_others(final(fs), blocks_list(old(fs).disk(), m0, data_blocks_spec(m0.size as int)))
                &&& old(fs).free_data() - (total_blocks_spec((cnt + 1) * DIRENT_SZ) - total_blocks_spec(m0.size as int)) >= 1 && (
                self.loc() == old(fs).inode_pos(0) || dir_lookup(old(fs).disk(), m0, seq![0x2eu8]) is Some) ==> {
                    let c = content(final(fs).disk(), h.model(final(fs)));
                    let pid = if self.loc() == old(fs).inode_pos(0) {
                        0int
                    } else {
                        dir_lookup(old(fs).disk(), m0, seq![0x2eu8])->0
                    };
                    &&& h.model(final(fs)).size == 2 * DIRENT_SZ
                    &&& entry_name(c, 0) == seq![0x2eu8]
                    &&& entry_inode(c, 0) == i
                    &&& entry_name(c, 1) == seq![0x2eu8, 0x2eu8]
                    &&& entry_inode(c, 1) == pid
                    &&& final(fs).inode_ok(h.model(final(fs)))
                }
            }),
    {
        let ghost f0 = *fs;
        let inode = self.create_inode(fs, name, DiskInodeType::Directory);
        if let Some(dir) = inode {
            let ghost f1 = *fs;
            let ghost good = f0.inode_ok(self.model(&f0));
            let ghost m0 = self.model(&f0);
            let ghost pm = self.model(&f1);
            let ghost cnt = entry_count(m0.size as int);
            let id = match self.lookup_here(fs, name.as_bytes()) {
                Some(id) => id,
                None => {
                    return inode;
                },
            };
            proof {
                if good {
                    // what `.` names in this directory did not change
                    let c0 = content(f0.disk(), m0);
                    let c1 = content(f1.disk(), pm);
                    lemma_lookup_prefix(c0, c1, seq![0x2eu8], cnt);
                    if dir_lookup(f0.disk(), m0, seq![0x2eu8]) is Some {
                        let k = lookup(c0, seq![0x2eu8], cnt)->0;
                        lemma_lookup_bound(c0, seq![0x2eu8], cnt);
                        assert(c1[32 * k + 28] == c0[32 * k + 28]);
                        assert(c1[32 * k + 29] == c0[32 * k + 29]);
                        assert(c1[32 * k + 30] == c0[32 * k + 30]);
                        assert(c1[32 * k + 31] == c0[32 * k + 31]);
                        assert(dir_lookup(f1.disk(), pm, seq![0x2eu8]) == dir_lookup(f0.disk(), m0, seq![0x2eu8]));
                    }
                }
            }
            self.link_new_dir(fs, dir, id);
            proof {
                if good {
                    let l0 = blocks_list(f0.disk(), m0, data_blocks_spec(m0.size as int));
                    lemma_kept_trans(&f0, &f1, &*fs, l0, Seq::<u32>::empty());
                    assert forall|bb: int, oo: int|
                        f0.inode_area_start_block <= bb < f0.data_bitmap.start_block_id && 0 <= oo && oo + crate::layout::DISK_INODE_SZ
                            <= BLOCK_SZ && oo % crate::layout::DISK_INODE_SZ as int == 0 && (bb, oo) != self.loc() && (bb, oo) != dir.loc()
                            implies #[trigger] model_at(fs.disk(), bb, oo) == model_at(f0.disk(), bb, oo) by {
                        assert(model_at(fs.disk(), bb, oo) == model_at(f1.disk(), bb, oo));
                        assert(model_at(f1.disk(), bb, oo) == model_at(f0.disk(), bb, oo));
                    }
                }
            }
        }
        inode
    }

    /// Gives the new directory at `dir`, just created in this directory as
    /// inode `id`, its entries `.` (naming `id`) and `..` (naming this
    /// directory).
    #[verifier::rlimit(60)]
    fn link_new_dir<D: BlockDevice>(&self, fs: &mut EasyFileSystem<D>, dir: Inode, id: u32)
        requires
            old(fs).wf(),
            self.placed(old(fs)),
            dir.placed(old(fs)),
            dir.loc() != self.loc(),
        ensures
            final(fs).wf(),
            final(fs).same_layout(old(fs)),
            final(fs).disk().len() == old(fs).disk().len(),
            ({
                let pm = self.model(old(fs));
                let dm = dir.model(old(fs));
                old(fs).inode_ok(pm) && dm.size == 0 && model_wf(dm) ==> {
                    &&& self.model(final(fs)) == pm
                    &&& dir.slots_kept(old(fs), final(fs), self.loc())
                    &&& block_at(final(fs).disk(), 0) == block_at(old(fs).disk(), 0)
                    &&& old(fs).kept_others(final(fs), Seq::<u32>::empty())
                    &&& content(final(fs).disk(), pm) == content(old(fs).disk(), pm)
                    &&& final(fs).inode_ok(pm)
                    &&& final(fs).inode_bitmap.bits(final(fs).disk()) == old(fs).inode_bitmap.bits(old(fs).disk())
                    &&& dm.type_ == DiskInodeType::Directory ==> dir.model(final(fs)).type_ == DiskInodeType::Directory
                    &&& dm.type_ == DiskInodeType::Directory && pm.type_ == DiskInodeType::Directory && old(fs).free_data() >= 1 && (self.loc() == old(fs).inode_pos(0)
                        || dir_lookup(old(fs).disk(), pm, seq![0x2eu8]) is Some) ==> {
                        let c = content(final(fs).disk(), dir.model(final(fs)));
                        let pid = if self.loc() == old(fs).inode_pos(0) {
                            0int
                        } else {
                            dir_lookup(old(fs).disk(), pm, seq![0x2eu8])->0
                        };
                        &&& dir.model(final(fs)).size == 2 * DIRENT_SZ
                        &&& entry_name(c, 0) == seq![0x2eu8]
                        &&& entry_inode(c, 0) == id
                        &&& entry_name(c, 1) == seq![0x2eu8, 0x2eu8]
                        &&& entry_inode(c, 1) == pid
                        &&& final(fs).inode_ok(dir.model(final(fs)))
                    }
                }
            }),
    {
        let ghost f1 = *fs;
        let ghost pm = self.model(&f1);
        let ghost good = f1.inode_ok(pm) && dir.model(&f1).size == 0 && model_wf(dir.model(&f1));
        let ghost lp = blocks_list(f1.disk(), pm, data_blocks_spec(pm.size as int));
        let dot: [u8; 1] = [0x2eu8];
        proof {
            assert(dot@ =~= seq![0x2eu8]);
            if good {
                assert(blocks_list(f1.disk(), dir.model(&f1), 0) =~= Seq::<u32>::empty());
                assert(f1.inode_ok(dir.model(&f1)));
            }
        }
        proof {
            assert(total_blocks_spec(32) == 1 && total_blocks_spec(0) == 0);
            assert(entry_count(0) == 0);
        }
        let ok1 = dir.append_entry(fs, dot.as_slice(), id);
        let ghost f2 = *fs;
        proof {
            crate::efs::lemma_clear_count_nonneg(f2.data_bits());
            if good {
                lemma_slots_from_meta(dir, &f1, &f2, self.loc());
                assert(blocks_list(f1.disk(), dir.model(&f1), data_blocks_spec(dir.model(&f1).size as int)) =~= Seq::<u32>::empty());
            }
        }
        proof {
            if good {
                lemma_other_inode_kept(&f1, &f2, dir, *self, Seq::<u32>::empty());
                f2.inode_bitmap.lemma_bits_frame(f2.disk(), f1.disk());
            }
        }
        let ghost cond = good && dir.model(&f1).type_ == DiskInodeType::Directory && pm.type_ == DiskInodeType::Directory
            && f1.free_data() >= 1 && (self.loc()
            == f1.inode_pos(0) || dir_lookup(f1.disk(), pm, seq![0x2eu8]) is Some);
        if !ok1 {
            proof {
                if cond {
                    assert(dir.model(&f1).size + 32 <= MAX_FILE_SIZE);
                    assert(false);
                }
            }
            return;
        }
        let ghost dm = dir.model(&f2);
        let ghost ld = blocks_list(f2.disk(), dm, data_blocks_spec(dm.size as int));
        let ghost c2 = content(f2.disk(), dm);
        proof {
            if good {
                crate::layout::lemma_name_field(seq![0x2eu8]);
                assert(c2.subrange(0, 28) == name_field(seq![0x2eu8]));
                assert(entry_name(c2, 0) == seq![0x2eu8]);
            }
        }
        let here_is_dir = self.is_dir(fs);
        if !here_is_dir {
            proof {
                if cond {
                    assert(self.model(&f2) == pm);
                    assert(false);
                }
            }
            return;
        }
        if let Some(parent_id) = self.get_current_inode_id(fs) {
            let dotdot: [u8; 2] = [0x2eu8, 0x2eu8];
            proof {
                assert(dotdot@ =~= seq![0x2eu8, 0x2eu8]);
            }
            proof {
                if good {
                    assert(dm.size == 32);
                    assert(entry_count(32) == 1);
                    assert(total_blocks_spec(64) == 1 && total_blocks_spec(32) == 1);
                    assert(fs.inode_ok(dir.model(fs)));
                    assert(fs.free_data() >= 0);
                }
            }
            let ok2 = dir.append_entry(fs, dotdot.as_slice(), parent_id);
            proof {
                if good {
                    assert(ok2);
                    assert forall|k: int| 0 <= k < lp.len() implies !ld.contains(#[trigger] lp[k]) by {
                        if ld.contains(lp[k]) {
                            let x = choose|x: int| 0 <= x < ld.len() && ld[x] == lp[k];
                            assert(Seq::<u32>::empty().contains(ld[x]) || !f1.data_bitmap.bits(f1.disk())[ld[x] - f1.data_area_start_block]);
                            assert(f1.data_bitmap.bits(f1.disk())[lp[k] - f1.data_area_start_block]);
                        }
                    }
                    lemma_other_inode_kept(&f2, &*fs, dir, *self, ld);
                    fs.inode_bitmap.lemma_bits_frame(fs.disk(), f2.disk());
                    lemma_slots_from_meta(dir, &f2, &*fs, self.loc());
                    lemma_kept_trans(&f1, &f2, &*fs, Seq::<u32>::empty(), ld);
                    if ok2 && cond {
                        crate::layout::lemma_name_field(seq![0x2eu8, 0x2eu8]);
                        let c3 = content(fs.disk(), dir.model(fs));
                        assert(c3.subrange(32, 60) == name_field(seq![0x2eu8, 0x2eu8]));
                        assert(entry_name(c3, 1) == seq![0x2eu8, 0x2eu8]);
                        assert(c3.subrange(0, 28) =~= c2.subrange(0, 28));
                        assert(c3[28] == c2[28] && c3[29] == c2[29] && c3[30] == c2[30] && c3[31] == c2[31]);
                    }
                }
            }
        } else {
            proof {
                if cond {
                    assert(self.model(&f2) == pm);
                    assert(content(f2.disk(), pm) == content(f1.disk(), pm));
                    assert(dir_lookup(f2.disk(), pm, seq![0x2eu8]) == dir_lookup(f1.disk(), pm, seq![0x2eu8]));
                    assert(false);
                }
            }
        }
    }
}

/// Growing one directory leaves every other consistent inode as it was,
/// provided none of its blocks is among those the growing one already held.
proof fn lemma_other_inode_kept<D: BlockDevice>(f1: &EasyFileSystem<D>, f2: &EasyFileSystem<D>, h: Inode, p: Inode, lh: Seq<u32>)
    requires
        f1.wf(),
        f2.wf(),
        f2.same_layout(f1),
        f2.disk().len() == f1.disk().len(),
        p.placed(f1),
        h.placed(f1),
        p.loc() != h.loc(),
        h.meta_kept(f1.disk(), f2.disk(), f1.data_bitmap.start_block_id as int),
        f1.kept_others(f2, lh),
        f1.inode_ok(p.model(f1)),
        ({
            let pm = p.model(f1);
            let lp = blocks_list(f1.disk(), pm, data_blocks_spec(pm.size as int));
            forall|k: int| 0 <= k < lp.len() ==> !lh.contains(#[trigger] lp[k])
        }),
    ensures
        p.model(f2) == p.model(f1),
        content(f2.disk(), p.model(f1)) == content(f1.disk(), p.model(f1)),
        blocks_list(f2.disk(), p.model(f1), data_blocks_spec(p.model(f1).size as int)) == blocks_list(
            f1.disk(),
            p.model(f1),
            data_blocks_spec(p.model(f1).size as int),
        ),
        f2.inode_ok(p.model(f1)),
{
    let pm = p.model(f1);
    let d1 = f1.disk();
    let d2 = f2.disk();
    if p.block_id != h.block_id {
        assert(block_at(d2, p.block_id as int) == block_at(d1, p.block_id as int));
    } else {
        let so = p.block_offset as int;
        let o = h.block_offset as int;
        assert forall|k: int| so <= k < so + 128 implies block_at(d1, p.block_id as int)[k] == block_at(d2, p.block_id as int)[k] by {
            assert(!(o <= k < o + 128)) by (nonlinear_arith)
                requires
                    so % 128 == 0,
                    o % 128 == 0,
                    so != o,
                    so <= k < so + 128,
            ;
        }
        crate::layout::lemma_inode_frame(block_at(d1, p.block_id as int), block_at(d2, p.block_id as int), so);
    }
    let lp = blocks_list(d1, pm, data_blocks_spec(pm.size as int));
    let start = f1.data_area_start_block as int;
    assert forall|k: int| 0 <= k < lp.len() implies #[trigger] block_at(d2, lp[k] as int) == block_at(d1, lp[k] as int) by {
        let b = lp[k] as int;
        assert(f1.data_bitmap.bits(d1)[b - start]);
        if block_at(d2, b) != block_at(d1, b) {
            assert((b as u32) == lp[k]);
        }
    }
    lemma_list_frame(d1, d2, pm);
    assert forall|k: int| 0 <= k < lp.len() implies f2.data_bitmap.bits(d2)[#[trigger] lp[k] - start] by {
        assert(f1.data_bitmap.bits(d1)[lp[k] - start]);
    }
}

/// Index of the first of the first `count` entries of directory content `c`
/// that names inode `id` by a name other than `.`.
pub open spec fn lookup_id(c: Seq<u8>, id: int, count: int) -> Option<int>
    decreases count,
{
    if count <= 0 {
        None
    } else {
        match lookup_id(c, id, count - 1) {
            Some(i) => Some(i),
            None => if entry_inode(c, count - 1) == id && entry_name(c, count - 1) != seq![0x2eu8] {
                Some(count - 1)
            } else {
                None
            },
        }
    }
}

proof fn lemma_lookup_id_found(c: Seq<u8>, id: int, i: int, count: int)
    requires
        0 <= i < count,
        lookup_id(c, id, i + 1) == Some(i),
    ensures
        lookup_id(c, id, count) == Some(i),
    decreases count - i,
{
    if count > i + 1 {
        lemma_lookup_id_found(c, id, i, count - 1);
    }
}

impl Inode {
    /// The name under which the directory at `parent` lists inode `id`,
    /// skipping its `.` entry.
    fn name_in<D: BlockDevice>(fs: &mut EasyFileSystem<D>, parent: &Inode, id: u32) -> (r: Option<Vec<u8>>)
        requires
            old(fs).wf(),
            parent.placed(old(fs)),
        ensures
            final(fs).wf(),
            final(fs).disk() == old(fs).disk(),
            final(fs).same_layout(old(fs)),
            ({
                let m = parent.model(old(fs));
                let c = content(old(fs).disk(), m);
                if m.type_ == DiskInodeType::Directory && model_sized(m) {
                    match lookup_id(c, id as int, entry_count(m.size as int)) {
                        Some(i) => r matches Some(n) && n@ == entry_name(c, i),
                        None => r is None,
                    }
                } else {
                    r is None
                }
            }),
    {
        let disk_inode = parent.read_disk_inode(fs);
        if disk_inode.is_file() || disk_inode.size > MAX_FILE_SIZE {
            return None;
        }
        let ghost c = content(fs.disk(), disk_inode@);
        let count = disk_inode.size as usize / DIRENT_SZ;
        let mut i: usize = 0;
        while i < count
            invariant
                fs.wf(),
                fs.disk() == old(fs).disk(),
                fs.same_layout(old(fs)),
                disk_inode.wf(),
                model_sized(disk_inode@),
                disk_inode@ == parent.model(old(fs)),
                disk_inode.type_ == DiskInodeType::Directory,
                c == content(fs.disk(), disk_inode@),
                count == entry_count(disk_inode.size as int),
                i <= count,
                lookup_id(c, id as int, i as int) is None,
            decreases count - i,
        {
            let entry = Self::read_entry(fs, &disk_inode, i);
            let name = entry.name();
            let dot: [u8; 1] = [0x2eu8];
            assert(dot@ =~= seq![0x2eu8]);
            if entry.inode_number() == id && !bytes_eq(name.as_slice(), dot.as_slice()) {
                proof {
                    lemma_lookup_id_found(c, id as int, i as int, count as int);
                }
                return Some(name);
            }
            i = i + 1;
        }
        None
    }

    /// The name of this directory in its parent; `/` for the root. `None`
    /// where the parent, this directory's own number, or an entry of the
    /// parent naming it cannot be found.
    pub fn get_name<D: BlockDevice>(&self, fs: &mut EasyFileSystem<D>) -> (r: Option<String>)
        requires
            old(fs).wf(),
            self.placed(old(fs)),
        ensures
            final(fs).wf(),
            final(fs).disk() == old(fs).disk(),
            final(fs).same_layout(old(fs)),
            self.loc() == old(fs).inode_pos(0) ==> (r matches Some(s) && s@ == seq!['/']),
            self.loc() != old(fs).inode_pos(0) ==> match r {
                Some(s) => self.name_spec(old(fs)) == Some(s@),
                None => self.name_spec(old(fs)) is None,
            },
    {
        if self.is_root(fs) {
            proof {
                reveal_strlit("/");
            }
            return Some("/".to_owned());
        }
        let parent = match self.get_parent(fs) {
            Some(p) => p,
            None => {
                return None;
            },
        };
        let id = match self.get_current_inode_id(fs) {
            Some(id) => id,
            None => {
                return None;
            },
        };
        match Self::name_in(fs, &parent, id) {
            Some(name) => {
                let ghost m = parent.model(old(fs));
                let ghost c = content(old(fs).disk(), m);
                let ghost i = lookup_id(c, id as int, entry_count(m.size as int))->0;
                let r = utf8_string(name);
                proof {
                    assert(old(fs).step(self.loc(), seq![0x2eu8, 0x2eu8]) == Some(parent.loc()));
                }
                r
            },
            None => None,
        }
    }

    /// The name of this (non-root) directory: the first entry, other than
    /// `.`, of the directory its `..` entry leads to that names the number
    /// its own `.` entry holds, when that name is valid UTF-8.
    pub open spec fn name_spec<D: BlockDevice>(&self, fs: &EasyFileSystem<D>) -> Option<Seq<char>> {
        let m = self.model(fs);
        match fs.step(self.loc(), seq![0x2eu8, 0x2eu8]) {
            None => None,
            Some(p) => match dir_lookup(fs.disk(), m, seq![0x2eu8]) {
                None => None,
                Some(id) => {
                    let pm = model_at(fs.disk(), p.0, p.1);
                    let pc = content(fs.disk(), pm);
                    if pm.type_ == DiskInodeType::Directory && model_sized(pm) {
                        match lookup_id(pc, id as u32 as int, entry_count(pm.size as int)) {
                            None => None,
                            Some(k) => if vstd::utf8::valid_utf8(entry_name(pc, k)) {
                                Some(vstd::utf8::decode_utf8(entry_name(pc, k)))
                            } else {
                                None
                            },
                        }
                    } else {
                        None
                    }
                },
            },
        }
    }

    /// The raw name of this (non-root) directory in the directory its `..`
    /// entry leads to, as `name_spec` finds it.
    pub open spec fn raw_name<D: BlockDevice>(&self, fs: &EasyFileSystem<D>) -> Option<Seq<u8>> {
        let m = self.model(fs);
        match fs.step(self.loc(), seq![0x2eu8, 0x2eu8]) {
            None => None,
            Some(p) => if m.type_ == DiskInodeType::Directory && model_sized(m) {
                match dir_lookup(fs.disk(), m, seq![0x2eu8]) {
                    None => None,
                    Some(id) => {
                        let pm = model_at(fs.disk(), p.0, p.1);
                        let pc = content(fs.disk(), pm);
                        if pm.type_ == DiskInodeType::Directory && model_sized(pm) {
                            match lookup_id(pc, id as u32 as int, entry_count(pm.size as int)) {
                                None => None,
                                Some(k) => Some(entry_name(pc, k)),
                            }
                        } else {
                            None
                        }
                    },
                }
            } else {
                None
            },
        }
    }

    /// The path from the root to this directory, names joined by `/`; `/`
    /// for the root. The walk up stops where a parent or a name cannot be
    /// found, and after as many steps as the filesystem has inodes.
    pub fn cwd<D: BlockDevice>(&self, fs: &mut EasyFileSystem<D>) -> (r: String)
        requires
            self.model(old(fs)).type_ == DiskInodeType::Directory,
            old(fs).wf(),
            self.placed(old(fs)),
        ensures
            final(fs).wf(),
            final(fs).disk() == old(fs).disk(),
            final(fs).same_layout(old(fs)),
            self.loc() == old(fs).inode_pos(0) ==> r@ == seq!['/'],
            self.loc() != old(fs).inode_pos(0) ==> ({
                let b = path_bytes(up_names(old(fs), *self, old(fs).inode_count() as nat));
                r@ == if vstd::utf8::valid_utf8(b) {
                    vstd::utf8::decode_utf8(b)
                } else {
                    Seq::<char>::empty()
                }
            }),
    {
        if self.is_root(fs) {
            proof {
                reveal_strlit("/");
            }
            return "/".to_owned();
        }
        let ghost f0 = *fs;
        let ghost total = fs.inode_count() as nat;
        let mut names: Vec<Vec<u8>> = Vec::new();
        let mut cur = *self;
        let mut steps: u64 = fs.inode_bitmap.blocks as u64 * 4096;
        while steps > 0
            invariant
                fs.wf(),
                fs.disk() == old(fs).disk(),
                fs.same_layout(old(fs)),
                cur.placed(fs),
                f0.disk() == fs.disk(),
                f0.same_layout(fs),
                names@.map_values(|v: Vec<u8>| v@) + up_names(&f0, cur, steps as nat) == up_names(&f0, *self, total),
            ensures
                names@.map_values(|v: Vec<u8>| v@) == up_names(&f0, *self, total),
            decreases steps,
        {
            let ghost ns = names@.map_values(|v: Vec<u8>| v@);
            if cur.is_root(fs) {
                proof {
                    assert(up_names(&f0, cur, steps as nat) == Seq::<Seq<u8>>::empty());
                    assert(ns + Seq::<Seq<u8>>::empty() =~= ns);
                }
                break;
            }
            let parent = match cur.get_parent(fs) {
                Some(p) => p,
                None => {
                    proof {
                        assert(ns + Seq::<Seq<u8>>::empty() =~= ns);
                    }
                    break;
                },
            };
            let id = match cur.get_current_inode_id(fs) {
                Some(id) => id,
                None => {
                    proof {
                        assert(ns + Seq::<Seq<u8>>::empty() =~= ns);
                    }
                    break;
                },
            };
            match Self::name_in(fs, &parent, id) {
                Some(name) => {
                    let ghost nm = name@;
                    names.push(name);
                    proof {
                        assert(cur.raw_name(&f0) == Some(nm));
                        assert(up_names(&f0, cur, steps as nat) == seq![nm] + up_names(&f0, parent, (steps - 1) as nat));
                        assert(names@.map_values(|v: Vec<u8>| v@) =~= ns.push(nm));
                        assert(ns.push(nm) + up_names(&f0, parent, (steps - 1) as nat) =~= ns + (seq![nm] + up_names(
                            &f0,
                            parent,
                            (steps - 1) as nat,
                        )));
                    }
                },
                None => {
                    proof {
                        assert(cur.raw_name(&f0) is None);
                        assert(ns + Seq::<Seq<u8>>::empty() =~= ns);
                    }
                    break;
                },
            }
            cur = parent;
            steps = steps - 1;
        }
        proof {
            if steps == 0 {
                let ns = names@.map_values(|v: Vec<u8>| v@);
                assert(ns + Seq::<Seq<u8>>::empty() =~= ns);
            }
        }
        let ghost ns = names@.map_values(|v: Vec<u8>| v@);
        let mut path: Vec<u8> = Vec::new();
        if names.len() == 0 {
            path.push(0x2fu8);
            proof {
                assert(path@ =~= seq![0x2fu8]);
            }
        }
        let mut k: usize = names.len();
        while k > 0
            invariant
                k <= names@.len(),
                ns == names@.map_values(|v: Vec<u8>| v@),
                names@.len() > 0 ==> path@ == join_path(ns.skip(k as int)),
                names@.len() == 0 ==> path@ == seq![0x2fu8],
            decreases k,
        {
            k = k - 1;
            let ghost before = path@;
            path.push(0x2fu8);
            let name = &names[k];
            let mut j: usize = 0;
            while j < name.len()
                invariant
                    j <= name@.len(),
                    path@ == before.push(0x2fu8) + name@.take(j as int),
                decreases name@.len() - j,
            {
                path.push(name[j]);
                j = j + 1;
                assert(path@ =~= before.push(0x2fu8) + name@.take(j as int));
            }
            proof {
                assert(name@.take(name@.len() as int) =~= name@);
                assert(ns.skip(k as int).drop_first() =~= ns.skip(k + 1));
                assert(ns.skip(k as int)[0] == name@);
                assert(path@ =~= join_path(ns.skip(k + 1)) + seq![0x2fu8] + name@);
            }
        }
        proof {
            assert(ns.skip(0) =~= ns);
        }
        match utf8_string(path) {
            Some(s) => s,
            None => String::new(),
        }
    }
}


/// Storing an inode in one slot leaves the inode of every other slot as it was.
proof fn lemma_other_slot(before: Seq<Seq<u8>>, after: Seq<Seq<u8>>, sb: int, so: int, b: int, o: int)
    requires
        crate::block_dev::blocks_sized(before),
        crate::block_dev::blocks_sized(after),
        before.len() == after.len(),
        forall|x: int| x != b ==> #[trigger] block_at(after, x) == block_at(before, x),
        forall|k: int|
            0 <= k < BLOCK_SZ && !(o <= k < o + crate::layout::DISK_INODE_SZ) ==> #[trigger] block_at(after, b)[k]
                == block_at(before, b)[k],
        so % 128 == 0,
        o % 128 == 0,
        0 <= so,
        so + 128 <= 512,
        0 <= o,
        sb != b || so != o,
    ensures
        model_at(after, sb, so) == model_at(before, sb, so),
{
    if sb == b {
        assert forall|k: int| so <= k < so + 128 implies block_at(before, sb)[k] == block_at(after, sb)[k] by {
            assert(!(o <= k < o + 128)) by (nonlinear_arith)
                requires
                    so % 128 == 0,
                    o % 128 == 0,
                    so != o,
                    so <= k < so + 128,
            ;
        }
        crate::layout::lemma_inode_frame(block_at(before, sb), block_at(after, sb), so);
    }
}


/// The blocks of list `l` and of `v` are pairwise distinct, lie in the data
/// area, and are marked in use.
pub open spec fn owned_blocks<D: BlockDevice>(fs: &EasyFileSystem<D>, l: Seq<u32>, v: Seq<u32>) -> bool {
    let start = fs.data_area_start_block as int;
    let bits = fs.data_bitmap.bits(fs.disk());
    &&& forall|k1: int, k2: int| 0 <= k1 < l.len() && 0 <= k2 < l.len() && k1 != k2 ==> #[trigger] l[k1] != #[trigger] l[k2]
    &&& forall|k1: int, k2: int| 0 <= k1 < v.len() && 0 <= k2 < v.len() && k1 != k2 ==> #[trigger] v[k1] != #[trigger] v[k2]
    &&& forall|k1: int, k2: int| 0 <= k1 < l.len() && 0 <= k2 < v.len() ==> #[trigger] l[k1] != #[trigger] v[k2]
    &&& forall|k: int| 0 <= k < l.len() ==> start <= #[trigger] l[k] < start + fs.data_area_blocks && bits[l[k] - start]
    &&& forall|k: int| 0 <= k < v.len() ==> start <= #[trigger] v[k] < start + fs.data_area_blocks && bits[v[k] - start]
}

proof fn lemma_owned_grow<D: BlockDevice>(fs: &EasyFileSystem<D>, l: Seq<u32>, vv: Seq<u32>, b: u32, bits: Seq<bool>)
    requires
        fs.wf(),
        bits.len() == fs.data_bitmap.max_spec(),
        ({
            let start = fs.data_area_start_block as int;
            &&& start <= b < start + fs.data_area_blocks
            &&& fs.data_bitmap.bits(fs.disk()) == bits.update(b - start, true)
            &&& forall|k: int| 0 <= k < vv.len() ==> vv[k] != b
            &&& forall|k: int| 0 <= k < l.len() ==> l[k] != b
            &&& forall|k1: int, k2: int| 0 <= k1 < l.len() && 0 <= k2 < l.len() && k1 != k2 ==> #[trigger] l[k1] != #[trigger] l[k2]
            &&& forall|k1: int, k2: int| 0 <= k1 < vv.len() && 0 <= k2 < vv.len() && k1 != k2 ==> #[trigger] vv[k1] != #[trigger] vv[k2]
            &&& forall|k1: int, k2: int| 0 <= k1 < l.len() && 0 <= k2 < vv.len() ==> #[trigger] l[k1] != #[trigger] vv[k2]
            &&& forall|k: int| 0 <= k < l.len() ==> start <= #[trigger] l[k] < start + fs.data_area_blocks && bits[l[k] - start]
            &&& forall|k: int| 0 <= k < vv.len() ==> start <= #[trigger] vv[k] < start + fs.data_area_blocks && bits[vv[k] - start]
        }),
    ensures
        owned_blocks(fs, l, vv.push(b)),
{
    let v = vv.push(b);
    let start = fs.data_area_start_block as int;
    let bn = fs.data_bitmap.bits(fs.disk());
    assert forall|k: int| 0 <= k < v.len() implies v[k] == if k < vv.len() { vv[k] } else { b } by {}
    assert forall|k: int| 0 <= k < l.len() implies start <= #[trigger] l[k] < start + fs.data_area_blocks && bn[l[k] - start] by {
        assert(l[k] != b);
    }
    assert forall|k: int| 0 <= k < v.len() implies start <= #[trigger] v[k] < start + fs.data_area_blocks && bn[v[k] - start] by {
        if k < vv.len() {
            assert(vv[k] != b);
        }
    }
    assert forall|k1: int, k2: int| 0 <= k1 < v.len() && 0 <= k2 < v.len() && k1 != k2 implies #[trigger] v[k1] != #[trigger] v[k2] by {
        if k1 < vv.len() && k2 < vv.len() {
            assert(vv[k1] != vv[k2]);
        }
    }
    assert forall|k1: int, k2: int| 0 <= k1 < l.len() && 0 <= k2 < v.len() implies #[trigger] l[k1] != #[trigger] v[k2] by {
        if k2 < vv.len() {
            assert(l[k1] != vv[k2]);
        }
    }
}

proof fn lemma_owned_shrink<D: BlockDevice>(fs: &EasyFileSystem<D>, l: Seq<u32>, vv: Seq<u32>, bp: Seq<bool>, dp: Seq<Seq<u8>>)
    requires
        fs.wf(),
        vv.len() > 0,
        bp.len() == fs.data_bitmap.max_spec(),
        ({
            let start = fs.data_area_start_block as int;
            let b = vv[vv.len() - 1];
            let bits = fs.data_bitmap.bits(fs.disk());
            &&& forall|k1: int, k2: int| 0 <= k1 < l.len() && 0 <= k2 < l.len() && k1 != k2 ==> #[trigger] l[k1] != #[trigger] l[k2]
            &&& forall|k1: int, k2: int| 0 <= k1 < vv.len() && 0 <= k2 < vv.len() && k1 != k2 ==> #[trigger] vv[k1] != #[trigger] vv[k2]
            &&& forall|k1: int, k2: int| 0 <= k1 < l.len() && 0 <= k2 < vv.len() ==> #[trigger] l[k1] != #[trigger] vv[k2]
            &&& forall|k: int| 0 <= k < l.len() ==> start <= #[trigger] l[k] < start + fs.data_area_blocks && bp[l[k] - start]
            &&& forall|k: int| 0 <= k < vv.len() ==> start <= #[trigger] vv[k] < start + fs.data_area_blocks && bp[vv[k] - start]
            &&& bits == bp || bits == bp.update(b - start, false)
        }),
    ensures
        owned_blocks(fs, l, vv.drop_last()),
{
    let start = fs.data_area_start_block as int;
    let b = vv[vv.len() - 1];
    let v = vv.drop_last();
    assert forall|k: int| 0 <= k < l.len() implies l[k] != b by {
        assert(l[k] != vv[vv.len() - 1]);
    }
    assert forall|k: int| 0 <= k < v.len() implies v[k] != b by {
        assert(vv[k] != vv[vv.len() - 1]);
    }
    assert forall|k1: int, k2: int| 0 <= k1 < v.len() && 0 <= k2 < v.len() && k1 != k2 implies #[trigger] v[k1] != #[trigger] v[k2] by {
        assert(vv[k1] != vv[k2]);
    }
    assert forall|k1: int, k2: int| 0 <= k1 < l.len() && 0 <= k2 < v.len() implies #[trigger] l[k1] != #[trigger] v[k2] by {
        assert(l[k1] != vv[k2]);
    }
    let bits = fs.data_bitmap.bits(fs.disk());
    assert forall|k: int| 0 <= k < l.len() implies start <= #[trigger] l[k] < start + fs.data_area_blocks && bits[l[k] - start] by {
        assert(l[k] != b);
    }
    assert forall|k: int| 0 <= k < v.len() implies start <= #[trigger] v[k] < start + fs.data_area_blocks && bits[v[k] - start] by {
        assert(vv[k] != b);
        assert(v[k] == vv[k]);
    }
}

proof fn lemma_owned_ok<D: BlockDevice>(fs: &EasyFileSystem<D>, l: Seq<u32>, v: Seq<u32>, m: InodeModel, nd: int)
    requires
        owned_blocks(fs, l, v),
        model_sized(m),
        nd == data_blocks_spec(m.size as int),
        blocks_list(fs.disk(), m, nd) == l + v,
    ensures
        fs.inode_ok(m),
{
    let l2 = l + v;
    assert forall|k: int| 0 <= k < l2.len() implies l2[k] == if k < l.len() { l[k] } else { v[k - l.len()] } by {}
    assert forall|k1: int, k2: int| 0 <= k1 < l2.len() && 0 <= k2 < l2.len() && k1 != k2 implies #[trigger] l2[k1] != #[trigger] l2[k2] by {
        if k1 < l.len() && k2 >= l.len() {
            assert(l[k1] != v[k2 - l.len()]);
        } else if k1 >= l.len() && k2 < l.len() {
            assert(l[k2] != v[k1 - l.len()]);
        }
    }
}

/// An inode reads the same from two disks that agree on every block it lists.
proof fn lemma_list_frame(d: Seq<Seq<u8>>, d2: Seq<Seq<u8>>, m: InodeModel)
    requires
        model_sized(m),
        ({
            let l = blocks_list(d, m, data_blocks_spec(m.size as int));
            forall|k: int| 0 <= k < l.len() ==> #[trigger] block_at(d2, l[k] as int) == block_at(d, l[k] as int)
        }),
    ensures
        blocks_list(d2, m, data_blocks_spec(m.size as int)) == blocks_list(d, m, data_blocks_spec(m.size as int)),
        content(d2, m) == content(d, m),
        forall|j: int| 0 <= j < data_blocks_spec(m.size as int) ==> #[trigger] block_of(d2, m, j) == block_of(d, m, j),
{
    let db = data_blocks_spec(m.size as int);
    assert(db <= crate::layout::INDIRECT2_BOUND) by (nonlinear_arith)
        requires
            db == (m.size + 511) / 512,
            m.size <= 8_468_480,
    ;
    let l = blocks_list(d, m, db);
    lemma_list_members(d, m);
    assert forall|b: int| is_index_block(d, m, b) implies block_at(d2, b) == block_at(d, b) by {
        let k = choose|k: int| 0 <= k < l.len() && l[k] == b as u32;
        assert(l[k] as int == b);
    }
    lemma_same_index(d, d2, m);
    crate::disk_inode::lemma_blocks_list_frame(d, m, d2, m, db);
    assert forall|p: int| 0 <= p < m.size implies #[trigger] content(d2, m)[p] == content(d, m)[p] by {
        let j = p / 512;
        assert(0 <= j < db) by (nonlinear_arith)
            requires
                0 <= p < m.size,
                j == p / 512,
                db == (m.size + 511) / 512,
        ;
        let k = choose|k: int| 0 <= k < l.len() && l[k] == block_of(d, m, j) as u32;
        assert(l[k] as int == block_of(d, m, j));
    }
    assert(content(d2, m) =~= content(d, m));
}


/// Whether some byte of `b` is zero.
fn has_zero(b: &[u8]) -> (r: bool)
    ensures
        r == exists|k: int| 0 <= k < b@.len() && b@[k] == 0,
{
    let mut i: usize = 0;
    while i < b.len()
        invariant
            i <= b@.len(),
            forall|k: int| 0 <= k < i ==> b@[k] != 0,
        decreases b@.len() - i,
    {
        if b[i] == 0 {
            return true;
        }
        i = i + 1;
    }
    false
}

proof fn lemma_lookup_bound(c: Seq<u8>, nm: Seq<u8>, cnt: int)
    ensures
        lookup(c, nm, cnt) matches Some(k) ==> 0 <= k < cnt,
    decreases cnt,
{
    if cnt > 0 {
        lemma_lookup_bound(c, nm, cnt - 1);
    }
}

/// Directory contents that agree on their first `cnt` entries look a name
/// up alike among them.
proof fn lemma_lookup_prefix(c0: Seq<u8>, c1: Seq<u8>, nm: Seq<u8>, cnt: int)
    requires
        0 <= cnt,
        cnt * DIRENT_SZ <= c0.len(),
        cnt * DIRENT_SZ <= c1.len(),
        forall|p: int| 0 <= p < cnt * DIRENT_SZ ==> #[trigger] c1[p] == c0[p],
    ensures
        lookup(c1, nm, cnt) == lookup(c0, nm, cnt),
    decreases cnt,
{
    if cnt > 0 {
        lemma_lookup_prefix(c0, c1, nm, cnt - 1);
        let i = cnt - 1;
        assert(c1.subrange(32 * i, 32 * i + 28) =~= c0.subrange(32 * i, 32 * i + 28));
    }
}


proof fn lemma_kept_trans<D: BlockDevice>(
    f0: &EasyFileSystem<D>,
    f1: &EasyFileSystem<D>,
    f2: &EasyFileSystem<D>,
    l0: Seq<u32>,
    l1: Seq<u32>,
)
    requires
        f0.wf(),
        f1.same_layout(f0),
        f2.same_layout(f0),
        f0.kept_others(f1, l0),
        f1.kept_others(f2, l1),
        f0.fresh_or_listed(l1, l0),
    ensures
        f0.kept_others(f2, l0),
{
    let start = f0.data_area_start_block as int;
    let b0 = f0.data_bitmap.bits(f0.disk());
    let b1 = f1.data_bitmap.bits(f1.disk());
    let b2 = f2.data_bitmap.bits(f2.disk());
    assert forall|x: int| 0 <= x < b0.len() && b0[x] implies #[trigger] b2[x] by {
        assert(b1[x]);
    }
    assert forall|b: int|
        start <= b < start + f0.data_area_blocks && #[trigger] block_at(f2.disk(), b) != block_at(f0.disk(), b) implies !b0[b - start]
            || l0.contains(b as u32) by {
        assert(0 <= b <= u32::MAX);
        if block_at(f1.disk(), b) == block_at(f0.disk(), b) {
            assert(block_at(f2.disk(), b) != block_at(f1.disk(), b));
            if l1.contains(b as u32) {
                let k = choose|k: int| 0 <= k < l1.len() && l1[k] == b as u32;
                assert(l1[k] as int == b);
                assert(l0.contains(l1[k]) || !b0[l1[k] - start]);
            } else {
                assert(!b1[b - start]);
                if b0[b - start] {
                    assert(b1[b - start]);
                }
            }
        }
    }
}


/// The names met walking up from `h` through `..` entries, at most `n` of
/// them, stopping at the root or where a parent or a name is missing.
pub open spec fn up_names<D: BlockDevice>(fs: &EasyFileSystem<D>, h: Inode, n: nat) -> Seq<Seq<u8>>
    decreases n,
{
    if n == 0 || h.loc() == fs.inode_pos(0) {
        Seq::empty()
    } else {
        match (fs.step(h.loc(), seq![0x2eu8, 0x2eu8]), h.raw_name(fs)) {
            (Some(p), Some(nm)) => seq![nm] + up_names(fs, Inode { block_id: p.0 as usize, block_offset: p.1 as usize }, (n - 1) as nat),
            _ => Seq::empty(),
        }
    }
}

/// `/` and the names from the root down, for names listed from the bottom up.
pub open spec fn join_path(ns: Seq<Seq<u8>>) -> Seq<u8>
    decreases ns.len(),
{
    if ns.len() == 0 {
        Seq::empty()
    } else {
        join_path(ns.drop_first()) + seq![0x2fu8] + ns[0]
    }
}

/// The bytes of the path whose names, from the bottom up, are `ns`.
pub open spec fn path_bytes(ns: Seq<Seq<u8>>) -> Seq<u8> {
    if ns.len() == 0 {
        seq![0x2fu8]
    } else {
        join_path(ns)
    }
}


/// The walk up depends on the disk and the layout alone.
pub proof fn lemma_up_names_same<D: BlockDevice>(f1: &EasyFileSystem<D>, f2: &EasyFileSystem<D>, h: Inode, n: nat)
    requires
        f1.disk() == f2.disk(),
        f2.same_layout(f1),
    ensures
        up_names(f1, h, n) == up_names(f2, h, n),
    decreases n,
{
    assert(f1.step(h.loc(), seq![0x2eu8, 0x2eu8]) == f2.step(h.loc(), seq![0x2eu8, 0x2eu8]));
    assert(h.raw_name(f1) == h.raw_name(f2));
    if n > 0 {
        match f1.step(h.loc(), seq![0x2eu8, 0x2eu8]) {
            Some(p) => {
                lemma_up_names_same(f1, f2, Inode { block_id: p.0 as usize, block_offset: p.1 as usize }, (n - 1) as nat);
            },
            None => {},
        }
    }
}


/// Where nothing below the data bitmap changed but one handle's inode, every
/// other inode slot is as it was.
pub proof fn lemma_slots_from_meta<D: BlockDevice>(h: Inode, f0: &EasyFileSystem<D>, f1: &EasyFileSystem<D>, other: (int, int))
    requires
        f0.wf(),
        f1.wf(),
        f1.disk().len() == f0.disk().len(),
        h.placed(f0),
        h.meta_kept(f0.disk(), f1.disk(), f0.data_bitmap.start_block_id as int),
    ensures
        h.slots_kept(f0, f1, other),
{
    assert forall|b: int, o: int|
        f0.inode_area_start_block <= b < f0.data_bitmap.start_block_id && 0 <= o && o + crate::layout::DISK_INODE_SZ <= BLOCK_SZ
            && o % crate::layout::DISK_INODE_SZ as int == 0 && (b, o) != h.loc() && (b, o) != other implies #[trigger] model_at(
            f1.disk(),
            b,
            o,
        ) == model_at(f0.disk(), b, o) by {
        if b == h.block_id {
            let so = h.block_offset as int;
            assert forall|k: int| o <= k < o + 128 implies block_at(f0.disk(), b)[k] == block_at(f1.disk(), b)[k] by {
                assert(!(so <= k < so + 128)) by (nonlinear_arith)
                    requires
                        so % 128 == 0,
                        o % 128 == 0,
                        so != o,
                        o <= k < o + 128,
                ;
            }
            assert(block_at(f0.disk(), b).len() == 512);
            assert(block_at(f1.disk(), b).len() == 512);
            crate::layout::lemma_inode_frame(block_at(f0.disk(), b), block_at(f1.disk(), b), o);
        }
    }
}


/// A step that kept every other inode slot, and changed in the data area
/// only free blocks and blocks of `lh`, leaves alone any other consistent
/// inode none of whose blocks is in `lh`: its record, its content, and its
/// consistency.
pub proof fn lemma_other_inode_frame<D: BlockDevice>(
    f1: &EasyFileSystem<D>,
    f2: &EasyFileSystem<D>,
    h: Inode,
    other: (int, int),
    p: Inode,
    lh: Seq<u32>,
)
    requires
        f1.wf(),
        f2.wf(),
        f2.same_layout(f1),
        f2.disk().len() == f1.disk().len(),
        p.placed(f1),
        p.loc() != h.loc(),
        p.loc() != other,
        h.slots_kept(f1, f2, other),
        f1.kept_others(f2, lh),
        f1.inode_ok(p.model(f1)),
        ({
            let pm = p.model(f1);
            let lp = blocks_list(f1.disk(), pm, data_blocks_spec(pm.size as int));
            forall|k: int| 0 <= k < lp.len() ==> !lh.contains(#[trigger] lp[k])
        }),
    ensures
        p.model(f2) == p.model(f1),
        content(f2.disk(), p.model(f1)) == content(f1.disk(), p.model(f1)),
        f2.inode_ok(p.model(f1)),
{
    let pm = p.model(f1);
    let d1 = f1.disk();
    let d2 = f2.disk();
    assert(model_at(d2, p.block_id as int, p.block_offset as int) == model_at(d1, p.block_id as int, p.block_offset as int));
    let lp = blocks_list(d1, pm, data_blocks_spec(pm.size as int));
    let start = f1.data_area_start_block as int;
    assert forall|k: int| 0 <= k < lp.len() implies #[trigger] block_at(d2, lp[k] as int) == block_at(d1, lp[k] as int) by {
        let b = lp[k] as int;
        assert(f1.data_bitmap.bits(d1)[b - start]);
        if block_at(d2, b) != block_at(d1, b) {
            assert((b as u32) == lp[k]);
        }
    }
    lemma_list_frame(d1, d2, pm);
    assert forall|k: int| 0 <= k < lp.len() implies f2.data_bitmap.bits(d2)[#[trigger] lp[k] - start] by {
        assert(f1.data_bitmap.bits(d1)[lp[k] - start]);
    }
}


/// What `make_dir` states of the state it started from holds of any state
/// with the same disk and layout, given the room `create_dir` checked first.
proof fn lemma_make_dir_transfer<D: BlockDevice>(
    fo: &EasyFileSystem<D>,
    fp: &EasyFileSystem<D>,
    f1: &EasyFileSystem<D>,
    me: Inode,
    nm: Seq<u8>,
    r: Option<Inode>,
)
    requires
        fo.wf(),
        fp.wf(),
        fp.disk() == fo.disk(),
        fp.same_layout(fo),
        me.model(fo).size + DIRENT_SZ <= MAX_FILE_SIZE ==> fo.free_data() > total_blocks_spec((entry_count(me.model(fo).size as int) + 1)
            * DIRENT_SZ) - total_blocks_spec(me.model(fo).size as int),
            fp.inode_ok(me.model(fp)) ==> (r is Some ==> me.model(fp).size + DIRENT_SZ <= MAX_FILE_SIZE),
            f1.wf(),
            f1.same_layout(fp),
            f1.disk().len() == fp.disk().len(),
            me.model(fp).type_ == DiskInodeType::Directory && model_sized(me.model(fp)) && dir_lookup(
                fp.disk(),
                me.model(fp),
                nm,
            ) is Some ==> r is None && f1.disk() == fp.disk(),
            me.model(fp).type_ == DiskInodeType::File ==> r is None && f1.disk() == fp.disk(),
            nm.len() > NAME_LENGTH_LIMIT ==> r is None && f1.disk() == fp.disk(),
            r matches Some(i) ==> {
                &&& i.placed(f1)
                &&& i.loc() == fp.inode_pos(first_clear(fp.inode_bitmap.bits(fp.disk())))
                &&& dir_lookup(fp.disk(), me.model(fp), nm) is None
            },
            me.can_create(fp, nm) ==> r is Some,
            fp.inode_ok(me.model(fp)) ==> (r matches Some(h) ==> {
                let m0 = me.model(fp);
                let i = first_clear(fp.inode_bitmap.bits(fp.disk()));
                let cnt = entry_count(m0.size as int);
                &&& dir_lookup(f1.disk(), me.model(f1), nm) == Some(i)
                &&& me.model(f1).type_ == DiskInodeType::Directory
                &&& me.model(f1).size == (cnt + 1) * DIRENT_SZ
                &&& f1.inode_ok(me.model(f1))
                &&& f1.inode_bitmap.bits(f1.disk()) == fp.inode_bitmap.bits(fp.disk()).update(i, true)
                &&& h.model(f1).type_ == DiskInodeType::Directory
                &&& me.slots_kept(fp, f1, h.loc())
                &&& block_at(f1.disk(), 0) == block_at(fp.disk(), 0)
                &&& fp.kept_others(f1, blocks_list(fp.disk(), m0, data_blocks_spec(m0.size as int)))
                &&& fp.free_data() - (total_blocks_spec((cnt + 1) * DIRENT_SZ) - total_blocks_spec(m0.size as int)) >= 1 && (
                me.loc() == fp.inode_pos(0) || dir_lookup(fp.disk(), m0, seq![0x2eu8]) is Some) ==> {
                    let c = content(f1.disk(), h.model(f1));
                    let pid = if me.loc() == fp.inode_pos(0) {
                        0int
                    } else {
                        dir_lookup(fp.disk(), m0, seq![0x2eu8])->0
                    };
                    &&& h.model(f1).size == 2 * DIRENT_SZ
                    &&& entry_name(c, 0) == seq![0x2eu8]
                    &&& entry_inode(c, 0) == i
                    &&& entry_name(c, 1) == seq![0x2eu8, 0x2eu8]
                    &&& entry_inode(c, 1) == pid
                    &&& f1.inode_ok(h.model(f1))
                }
            }),
    ensures
            f1.wf(),
            f1.same_layout(fo),
            f1.disk().len() == fo.disk().len(),
            me.model(fo).type_ == DiskInodeType::Directory && model_sized(me.model(fo)) && dir_lookup(
                fo.disk(),
                me.model(fo),
                nm,
            ) is Some ==> r is None && f1.disk() == fo.disk(),
            me.model(fo).type_ == DiskInodeType::File ==> r is None && f1.disk() == fo.disk(),
            nm.len() > NAME_LENGTH_LIMIT ==> r is None && f1.disk() == fo.disk(),
            r matches Some(i) ==> {
                &&& i.placed(f1)
                &&& i.loc() == fo.inode_pos(first_clear(fo.inode_bitmap.bits(fo.disk())))
                &&& dir_lookup(fo.disk(), me.model(fo), nm) is None
            },
            ({
                let m0 = me.model(fo);
                me.can_create(fo, nm) && fo.free_data() >= total_blocks_spec((entry_count(m0.size as int) + 1)
                    * DIRENT_SZ) - total_blocks_spec(m0.size as int) + 1 ==> r is Some
            }),
            fo.inode_ok(me.model(fo)) ==> (r matches Some(h) ==> {
                let m0 = me.model(fo);
                let i = first_clear(fo.inode_bitmap.bits(fo.disk()));
                let cnt = entry_count(m0.size as int);
                &&& dir_lookup(f1.disk(), me.model(f1), nm) == Some(i)
                &&& me.model(f1).type_ == DiskInodeType::Directory
                &&& me.model(f1).size == (cnt + 1) * DIRENT_SZ
                &&& f1.inode_ok(me.model(f1))
                &&& f1.inode_bitmap.bits(f1.disk()) == fo.inode_bitmap.bits(fo.disk()).update(i, true)
                &&& h.model(f1).type_ == DiskInodeType::Directory
                &&& me.slots_kept(fo, f1, h.loc())
                &&& block_at(f1.disk(), 0) == block_at(fo.disk(), 0)
                &&& fo.kept_others(f1, blocks_list(fo.disk(), m0, data_blocks_spec(m0.size as int)))
                &&& me.loc() == fo.inode_pos(0) || dir_lookup(fo.disk(), m0, seq![0x2eu8]) is Some ==> {
                    let c = content(f1.disk(), h.model(f1));
                    let pid = if me.loc() == fo.inode_pos(0) {
                        0int
                    } else {
                        dir_lookup(fo.disk(), m0, seq![0x2eu8])->0
                    };
                    &&& h.model(f1).size == 2 * DIRENT_SZ
                    &&& entry_name(c, 0) == seq![0x2eu8]
                    &&& entry_inode(c, 0) == i
                    &&& entry_name(c, 1) == seq![0x2eu8, 0x2eu8]
                    &&& entry_inode(c, 1) == pid
                    &&& f1.inode_ok(h.model(f1))
                }
            }),
{
    assert(me.model(fp) == me.model(fo));
    assert(fp.free_data() == fo.free_data());
    assert(fp.inode_ok(me.model(fo)) == fo.inode_ok(me.model(fo)));
    assert(me.can_create(fp, nm) == me.can_create(fo, nm));
    assert(fp.inode_bitmap.bits(fp.disk()) == fo.inode_bitmap.bits(fo.disk()));
    if fo.inode_ok(me.model(fo)) && r is Some {
        let h = r->0;
        assert(me.slots_kept(fo, f1, h.loc()) == me.slots_kept(fp, f1, h.loc()));
        assert(fo.kept_others(f1, blocks_list(fo.disk(), me.model(fo), data_blocks_spec(me.model(fo).size as int)))
            == fp.kept_others(f1, blocks_list(fp.disk(), me.model(fp), data_blocks_spec(me.model(fp).size as int))));
    }
}

} // verus!
