//! Open files as a kernel hands them to tasks: open flags, the console, files
//! of the filesystem with a cursor, and directory listings.
use std::collections::VecDeque;
use vstd::prelude::*;
use vstd::string::StringSliceAdditionalSpecFns;

use crate::block_dev::BlockDevice;
use crate::disk_inode::{model_sized, span, window};
use crate::efs::EasyFileSystem;
use crate::layout::{content, DiskInodeType};
use crate::vfs::Inode;

verus! {

/// Open for reading only (no bit set).
pub const O_RDONLY: u32 = 0;
/// Open for writing only.
pub const O_WRONLY: u32 = 1;
/// Open for reading and writing.
pub const O_RDWR: u32 = 2;
/// Create the file when it does not exist; empty it when it does.
pub const O_CREATE: u32 = 512;
/// Empty the file on opening.
pub const O_TRUNC: u32 = 1024;
/// Every bit that names a flag.
pub const O_ALL: u32 = 1539;

/// The flags a task opens a file with.
#[derive(Clone, Copy, Debug, PartialEq, Eq, Structural)]
pub struct OpenFlags {
    bits: u32,
}

/// Whether flags `bits` allow reading and writing: read-only when no flag is
/// set, write-only with `O_WRONLY`, otherwise both.
pub open spec fn access_of(bits: u32) -> (bool, bool) {
    if bits == 0 {
        (true, false)
    } else if bits & O_WRONLY == O_WRONLY {
        (false, true)
    } else {
        (true, true)
    }
}

impl OpenFlags {
    /// The raw bits, as contracts speak of them.
    pub closed spec fn bits_spec(&self) -> u32 {
        self.bits
    }

    /// The flags that `bits` names; `None` when it holds a bit no flag uses.
    pub fn from_bits(bits: u32) -> (r: Option<Self>)
        ensures
            r is Some <==> bits & !O_ALL == 0,
            r matches Some(f) ==> f.bits_spec() == bits,
    {
        if bits & !O_ALL == 0 {
            Some(OpenFlags { bits })
        } else {
            None
        }
    }

    /// The raw bits.
    pub fn bits(&self) -> (r: u32)
        ensures
            r == self.bits_spec(),
    {
        self.bits
    }

    /// Whether every bit of `flag` is set.
    pub fn contains(&self, flag: u32) -> (r: bool)
        ensures
            r == (self.bits_spec() & flag == flag),
    {
        self.bits & flag == flag
    }

    /// Whether a file so opened may be read and may be written: read-only
    /// when no flag is set, write-only with `O_WRONLY`, otherwise both.
    pub fn read_write(&self) -> (r: (bool, bool))
        ensures
            r == access_of(self.bits_spec()),
    {
        if self.bits == 0 {
            (true, false)
        } else if self.bits & O_WRONLY == O_WRONLY {
            (false, true)
        } else {
            (true, true)
        }
    }
}

/// What a directory listing says an entry is.
#[derive(Clone, Copy, Debug, PartialEq, Eq, Structural)]
pub enum DirentType {
    File,
    Directory,
}

/// One line of a directory listing: a kind and a name.
pub struct Dirent {
    pub type_: DirentType,
    pub name: Vec<u8>,
}

impl Dirent {
    /// A listing line for `name` of kind `type_`.
    pub fn new(name: Vec<u8>, type_: DirentType) -> (r: Self)
        ensures
            r.name@ == name@,
            r.type_ == type_,
    {
        Dirent { type_, name }
    }
}

/// Something a task can hold open.
pub trait File {
    /// Whether the task may read from it.
    fn readable(&self) -> bool;

    /// Whether the task may write to it.
    fn writable(&self) -> bool;
}

/// The console: bytes typed and not yet read, and bytes written and not yet
/// shown.
pub struct Console {
    pub input: VecDeque<u8>,
    pub output: Vec<u8>,
}

impl Console {
    /// A console with nothing typed and nothing written.
    pub fn new() -> (r: Self)
        ensures
            r.input@ == Seq::<u8>::empty(),
            r.output@ == Seq::<u8>::empty(),
    {
        Console { input: VecDeque::new(), output: Vec::new() }
    }
}

/// Standard input: the keyboard side of the console.
#[derive(Clone, Copy, Debug, PartialEq, Eq, Structural)]
pub struct Stdin;

/// Standard output: the screen side of the console.
#[derive(Clone, Copy, Debug, PartialEq, Eq, Structural)]
pub struct Stdout;

impl File for Stdin {
    fn readable(&self) -> bool {
        true
    }

    fn writable(&self) -> bool {
        false
    }
}

impl File for Stdout {
    fn readable(&self) -> bool {
        false
    }

    fn writable(&self) -> bool {
        true
    }
}

impl Stdin {
    /// Reads one typed byte into `buf`; 0 when nothing is typed or `buf` is
    /// empty.
    pub fn read(&self, console: &mut Console, buf: &mut [u8]) -> (r: usize)
        ensures
            final(buf)@.len() == old(buf)@.len(),
            final(console).output@ == old(console).output@,
            if old(buf)@.len() > 0 && old(console).input@.len() > 0 {
                &&& r == 1
                &&& final(buf)@ == old(buf)@.update(0, old(console).input@[0])
                &&& final(console).input@ == old(console).input@.drop_first()
            } else {
                &&& r == 0
                &&& final(buf)@ == old(buf)@
                &&& final(console).input@ == old(console).input@
            },
    {
        if buf.len() == 0 {
            return 0;
        }
        match console.input.pop_front() {
            Some(c) => {
                buf[0] = c;
                assert(final(console).input@ =~= old(console).input@.drop_first());
                1
            },
            None => 0,
        }
    }
}

impl Stdout {
    /// Writes `buf` to the screen side of the console; returns its length.
    pub fn write(&self, console: &mut Console, buf: &[u8]) -> (r: usize)
        ensures
            r == buf@.len(),
            final(console).output@ == old(console).output@ + buf@,
            final(console).input@ == old(console).input@,
    {
        let mut i: usize = 0;
        while i < buf.len()
            invariant
                i <= buf@.len(),
                console.input@ == old(console).input@,
                console.output@ == old(console).output@ + buf@.subrange(0, i as int),
            decreases buf@.len() - i,
        {
            console.output.push(buf[i]);
            i = i + 1;
            assert(console.output@ =~= old(console).output@ + buf@.subrange(0, i as int));
        }
        assert(buf@.subrange(0, buf@.len() as int) =~= buf@);
        buf.len()
    }
}

/// A file of the filesystem held open: what it may be used for, where the
/// next read or write starts, and the inode.
#[derive(Clone, Copy, Debug, PartialEq, Eq, Structural)]
pub struct OSInode {
    pub readable: bool,
    pub writable: bool,
    pub offset: usize,
    pub inode: Inode,
}

impl File for OSInode {
    fn readable(&self) -> bool {
        self.readable
    }

    fn writable(&self) -> bool {
        self.writable
    }
}

/// What a descriptor of a task stands for.
#[derive(Clone, Copy, Debug, PartialEq, Eq, Structural)]
pub enum FileDesc {
    Stdin,
    Stdout,
    Inode(OSInode),
}

impl OSInode {
    /// `inode` held open with the cursor at the start.
    pub fn new(readable: bool, writable: bool, inode: Inode) -> (r: Self)
        ensures
            r.readable == readable,
            r.writable == writable,
            r.offset == 0,
            r.inode == inode,
    {
        OSInode { readable, writable, offset: 0, inode }
    }

    /// Reads at the cursor into `buf` and moves the cursor past what was read.
    pub fn read<D: BlockDevice>(&mut self, fs: &mut EasyFileSystem<D>, buf: &mut [u8]) -> (r: usize)
        requires
            old(fs).wf(),
            old(self).inode.placed(old(fs)),
        ensures
            final(fs).wf(),
            final(fs).disk() == old(fs).disk(),
            final(fs).same_layout(old(fs)),
            final(self).inode == old(self).inode,
            final(self).readable == old(self).readable,
            final(self).writable == old(self).writable,
            final(buf)@.len() == old(buf)@.len(),
            ({
                let m = old(self).inode.model(old(fs));
                if model_sized(m) {
                    &&& r as int == span(m.size as int, old(self).offset as int, old(buf)@.len() as int)
                    &&& final(buf)@ == crate::block_cache::splice(
                        old(buf)@,
                        0,
                        window(content(old(fs).disk(), m), old(self).offset as int, r as int),
                    )
                } else {
                    r == 0
                }
            }),
            final(self).offset == old(self).offset + r,
    {
        let n = self.inode.read_at(fs, self.offset, buf);
        self.offset = self.offset + n;
        n
    }

    /// Writes `buf` at the cursor and moves the cursor past what was written;
    /// a handle on a directory writes nothing.
    pub fn write<D: BlockDevice>(&mut self, fs: &mut EasyFileSystem<D>, buf: &[u8]) -> (r: usize)
        requires
            old(fs).wf(),
            old(self).inode.placed(old(fs)),
        ensures
            final(fs).wf(),
            final(fs).same_layout(old(fs)),
            final(fs).disk().len() == old(fs).disk().len(),
            final(self).inode == old(self).inode,
            final(self).readable == old(self).readable,
            final(self).writable == old(self).writable,
            final(self).offset == old(self).offset + r,
            ({
                let m0 = old(self).inode.model(old(fs));
                let m1 = old(self).inode.model(final(fs));
                if m0.type_ == DiskInodeType::File && model_sized(m0) {
                    r as int == span(m1.size as int, old(self).offset as int, buf@.len() as int)
                } else {
                    r == 0
                }
            }),
            ({
                let m0 = old(self).inode.model(old(fs));
                let m1 = old(self).inode.model(final(fs));
                m0.type_ == DiskInodeType::File && old(fs).inode_ok(m0) ==> final(fs).inode_ok(m1) && window(
                    content(final(fs).disk(), m1),
                    old(self).offset as int,
                    r as int,
                ) == buf@.subrange(0, r as int)
            }),
            ({
                let m0 = old(self).inode.model(old(fs));
                let m1 = old(self).inode.model(final(fs));
                let g = crate::vfs::grow_target(m0.size as int, old(self).offset as int, buf@.len() as int);
                m0.type_ == DiskInodeType::File && model_sized(m0) && old(fs).free_data() >= crate::layout::total_blocks_spec(g)
                    - crate::layout::total_blocks_spec(m0.size as int) ==> m1.size == g
            }),
    {
        if !self.inode.is_file(fs) {
            return 0;
        }
        let n = self.inode.write_at(fs, self.offset, buf);
        self.offset = self.offset + n;
        n
    }
}


impl OSInode {
    /// Reads everything from the cursor to the end of the file and leaves the
    /// cursor there.
    pub fn read_all<D: BlockDevice>(&mut self, fs: &mut EasyFileSystem<D>) -> (r: Vec<u8>)
        requires
            old(fs).wf(),
            old(self).inode.placed(old(fs)),
        ensures
            final(fs).wf(),
            final(fs).disk() == old(fs).disk(),
            final(fs).same_layout(old(fs)),
            final(self).inode == old(self).inode,
            ({
                let m = old(self).inode.model(old(fs));
                model_sized(m) && old(self).offset <= m.size ==> r@ == content(old(fs).disk(), m).subrange(
                    old(self).offset as int,
                    m.size as int,
                ) && final(self).offset == m.size
            }),
    {
        let ghost m = self.inode.model(fs);
        let ghost c = content(fs.disk(), m);
        let mut v: Vec<u8> = Vec::new();
        let mut buffer: Vec<u8> = vec![0u8; 512];
        loop
            invariant
                fs.wf(),
                fs.disk() == old(fs).disk(),
                fs.same_layout(old(fs)),
                self.inode == old(self).inode,
                self.inode.placed(fs),
                m == self.inode.model(fs),
                c == content(fs.disk(), m),
                buffer@.len() == 512,
                old(self).offset <= self.offset,
                model_sized(m) && old(self).offset <= m.size ==> self.offset <= m.size && v@ == c.subrange(
                    old(self).offset as int,
                    self.offset as int,
                ),
            ensures
                model_sized(m) && old(self).offset <= m.size ==> self.offset == m.size && v@ == c.subrange(
                    old(self).offset as int,
                    m.size as int,
                ),
            decreases usize::MAX - self.offset,
        {
            let before = self.offset;
            let n = self.read(fs, buffer.as_mut_slice());
            if n == 0 {
                proof {
                    if model_sized(m) && old(self).offset <= m.size {
                        assert(self.offset >= m.size);
                    }
                }
                break;
            }
            let ghost v0 = v@;
            let mut k: usize = 0;
            while k < n
                invariant
                    k <= n,
                    n <= buffer@.len(),
                    v@ == v0 + buffer@.subrange(0, k as int),
                decreases n - k,
            {
                v.push(buffer[k]);
                k = k + 1;
                assert(v@ =~= v0 + buffer@.subrange(0, k as int));
            }
            proof {
                if model_sized(m) && old(self).offset <= m.size {
                    assert forall|t: int| 0 <= t < n implies buffer@[t] == c[before + t] by {}
                    assert(v@ =~= c.subrange(old(self).offset as int, self.offset as int));
                }
            }
        }
        v
    }

    /// Moves the handle to what `path` resolves to from it; `false`, with the
    /// handle kept, when it resolves to nothing.
    pub fn chdir<D: BlockDevice>(&mut self, fs: &mut EasyFileSystem<D>, path: &str) -> (r: bool)
        requires
            old(fs).wf(),
            old(self).inode.placed(old(fs)),
        ensures
            final(fs).wf(),
            final(fs).disk() == old(fs).disk(),
            final(fs).same_layout(old(fs)),
            final(self).inode.placed(final(fs)),
            final(self).offset == old(self).offset,
            match old(fs).resolve(old(self).inode.loc(), path.spec_bytes()) {
                Some(l) => r && final(self).inode.loc() == l,
                None => !r && final(self).inode == old(self).inode,
            },
    {
        match self.inode.find(fs, path) {
            Some(inode) => {
                self.inode = inode;
                true
            },
            None => false,
        }
    }

    /// One listing line per entry of the directory, each named as the entry
    /// is and reported as a file.
    pub fn getdents<D: BlockDevice>(&self, fs: &mut EasyFileSystem<D>) -> (r: Vec<Dirent>)
        requires
            old(fs).wf(),
            self.inode.placed(old(fs)),
        ensures
            final(fs).wf(),
            final(fs).disk() == old(fs).disk(),
            final(fs).same_layout(old(fs)),
            ({
                let m = self.inode.model(old(fs));
                m.type_ == DiskInodeType::Directory && model_sized(m) ==> r@.len() == crate::vfs::entry_count(m.size as int)
            }),
            forall|i: int| 0 <= i < r@.len() ==> (#[trigger] r@[i]).type_ == DirentType::File,
            self.inode.model(old(fs)).type_ == DiskInodeType::File ==> r@.len() == 0,
            ({
                let m = self.inode.model(old(fs));
                let c = content(old(fs).disk(), m);
                m.type_ == DiskInodeType::Directory && model_sized(m) ==> forall|i: int|
                    0 <= i < r@.len() ==> (#[trigger] r@[i]).name@ == if vstd::utf8::valid_utf8(crate::layout::entry_name(c, i)) {
                        crate::layout::entry_name(c, i)
                    } else {
                        Seq::<u8>::empty()
                    }
            }),
    {
        let ghost m = self.inode.model(fs);
        let ghost c = content(fs.disk(), m);
        let names = self.inode.ls(fs);
        let mut v: Vec<Dirent> = Vec::new();
        let mut i: usize = 0;
        while i < names.len()
            invariant
                i <= names@.len(),
                v@.len() == i,
                forall|k: int| 0 <= k < i ==> (#[trigger] v@[k]).type_ == DirentType::File,
                m.type_ == DiskInodeType::Directory && model_sized(m) ==> forall|k: int|
                    0 <= k < i ==> (#[trigger] v@[k]).name@ == if vstd::utf8::valid_utf8(crate::layout::entry_name(c, k)) {
                        crate::layout::entry_name(c, k)
                    } else {
                        Seq::<u8>::empty()
                    },
                m.type_ == DiskInodeType::Directory && model_sized(m) ==> forall|k: int|
                    0 <= k < names@.len() ==> #[trigger] names@[k]@ == if vstd::utf8::valid_utf8(crate::layout::entry_name(c, k)) {
                        vstd::utf8::decode_utf8(crate::layout::entry_name(c, k))
                    } else {
                        Seq::<char>::empty()
                    },
            decreases names@.len() - i,
        {
            let bytes = names[i].as_str().as_bytes();
            let mut name: Vec<u8> = Vec::new();
            let mut k: usize = 0;
            while k < bytes.len()
                invariant
                    k <= bytes@.len(),
                    name@ == bytes@.subrange(0, k as int),
                decreases bytes@.len() - k,
            {
                name.push(bytes[k]);
                k = k + 1;
                assert(name@ =~= bytes@.subrange(0, k as int));
            }
            proof {
                assert(bytes@.subrange(0, bytes@.len() as int) =~= bytes@);
                if m.type_ == DiskInodeType::Directory && model_sized(m) {
                    let en = crate::layout::entry_name(c, i as int);
                    if vstd::utf8::valid_utf8(en) {
                        vstd::utf8::decode_utf8_encode_utf8(en);
                    } else {
                        assert(vstd::utf8::encode_utf8(Seq::<char>::empty()) =~= Seq::<u8>::empty()) by {
                            reveal_with_fuel(vstd::utf8::encode_utf8, 1);
                        }
                    }
                }
            }
            v.push(Dirent::new(name, DirentType::File));
            i = i + 1;
        }
        v
    }
}

/// Opens `name`, resolved from `cwd`, with `flags`. With `O_CREATE` a file
/// that exists is emptied and one that does not is created in `cwd`; without
/// it a missing file gives `None`, and `O_TRUNC` empties the file opened. A
/// directory cannot be emptied: asked to, this gives `None`, as does creating
/// in a `cwd` that is not a directory.
pub fn open_file<D: BlockDevice>(fs: &mut EasyFileSystem<D>, cwd: &Inode, name: &str, flags: OpenFlags) -> (r: Option<OSInode>)
    requires
        old(fs).wf(),
        cwd.placed(old(fs)),
    ensures
        final(fs).wf(),
        final(fs).same_layout(old(fs)),
        final(fs).disk().len() == old(fs).disk().len(),
        r matches Some(f) ==> {
            &&& f.inode.placed(final(fs))
            &&& (f.readable, f.writable) == access_of(flags.bits_spec())
            &&& f.offset == 0
        },
        ({
            let emptying = flags.bits_spec() & O_CREATE == O_CREATE || flags.bits_spec() & O_TRUNC == O_TRUNC;
            old(fs).resolve(cwd.loc(), name.spec_bytes()) matches Some(l) ==> {
                let m = crate::vfs::model_at(old(fs).disk(), l.0, l.1);
                &&& !emptying ==> (r matches Some(f) && f.inode.loc() == l && final(fs).disk() == old(fs).disk())
                &&& emptying && m.type_ == DiskInodeType::File ==> (r matches Some(f) && f.inode.loc() == l)
                &&& emptying && m.type_ == DiskInodeType::File && model_sized(m) ==> crate::vfs::model_at(final(fs).disk(), l.0, l.1).size == 0
                &&& emptying && m.type_ == DiskInodeType::Directory ==> r is None && final(fs).disk() == old(fs).disk()
            }
        }),
        old(fs).resolve(cwd.loc(), name.spec_bytes()) is None && flags.bits_spec() & O_CREATE != O_CREATE ==> r is None
            && final(fs).disk() == old(fs).disk(),
        old(fs).resolve(cwd.loc(), name.spec_bytes()) is None && flags.bits_spec() & O_CREATE == O_CREATE && cwd.can_create(
            old(fs),
            name.spec_bytes(),
        ) ==> r is Some,
        old(fs).resolve(cwd.loc(), name.spec_bytes()) is None && flags.bits_spec() & O_CREATE == O_CREATE && old(fs).inode_ok(
            cwd.model(old(fs)),
        ) ==> (r matches Some(f) ==> cwd.created(old(fs), final(fs), name.spec_bytes(), DiskInodeType::File, f.inode)),
{
    let (readable, writable) = flags.read_write();
    let emptying = flags.contains(O_CREATE) || flags.contains(O_TRUNC);
    match cwd.find(fs, name) {
        Some(inode) => {
            if emptying {
                if !inode.is_file(fs) {
                    return None;
                }
                inode.clear(fs);
            }
            Some(OSInode::new(readable, writable, inode))
        },
        None => {
            if !flags.contains(O_CREATE) || !cwd.is_dir(fs) {
                return None;
            }
            match cwd.create(fs, name) {
                Some(inode) => Some(OSInode::new(readable, writable, inode)),
                None => None,
            }
        },
    }
}


impl OSInode {
    /// The path from the root to the directory this handle is on.
    pub fn get_path<D: BlockDevice>(&self, fs: &mut EasyFileSystem<D>) -> (r: String)
        requires
            old(fs).wf(),
            self.inode.placed(old(fs)),
        ensures
            final(fs).wf(),
            final(fs).disk() == old(fs).disk(),
            final(fs).same_layout(old(fs)),
            self.inode.model(old(fs)).type_ == DiskInodeType::Directory && self.inode.loc() == old(fs).inode_pos(0) ==> r@ == seq!['/'],
            self.inode.model(old(fs)).type_ == DiskInodeType::Directory && self.inode.loc() != old(fs).inode_pos(0) ==> ({
                let b = crate::vfs::path_bytes(crate::vfs::up_names(old(fs), self.inode, old(fs).inode_count() as nat));
                r@ == if vstd::utf8::valid_utf8(b) {
                    vstd::utf8::decode_utf8(b)
                } else {
                    Seq::<char>::empty()
                }
            }),
            self.inode.model(old(fs)).type_ == DiskInodeType::File ==> r@ == Seq::<char>::empty(),
    {
        let ghost f0 = *old(fs);
        if !self.inode.is_dir(fs) {
            return String::new();
        }
        proof {
            crate::vfs::lemma_up_names_same(&f0, &*fs, self.inode, f0.inode_count() as nat);
        }
        self.inode.cwd(fs)
    }
}

/// The root directory held open for reading and writing.
pub fn root_os_inode<D: BlockDevice>(fs: &EasyFileSystem<D>) -> (r: OSInode)
    requires
        fs.wf(),
    ensures
        r.readable && r.writable,
        r.offset == 0,
        r.inode.loc() == fs.inode_pos(0),
        r.inode.placed(fs),
{
    OSInode::new(true, true, fs.root_inode())
}

} // verus!
