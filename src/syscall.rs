//! The file and task system calls of a kernel built on the filesystem, and
//! the dispatch from call numbers to them.
use vstd::prelude::*;
use vstd::string::StringSliceAdditionalSpecFns;

use crate::block_dev::BlockDevice;
use crate::efs::EasyFileSystem;
use crate::layout::{le_u32, write_u32};
use crate::fd::{open_file, Console, Dirent, DirentType, FileDesc, OpenFlags, OSInode, Stdin, Stdout};
use crate::task::{TaskControlBlock, TaskManager, TaskStatus, TimeVal};

verus! {

/// Call number: change the working directory.
pub const SYSCALL_CHDIR: usize = 49;
/// Call number: the path of the working directory.
pub const SYSCALL_GETCWD: usize = 17;
/// Call number: the time since boot.
pub const SYSCALL_GET_TIME: usize = 169;
/// Call number: the running task's pid.
pub const SYSCALL_GETPID: usize = 172;
/// Call number: open a file.
pub const SYSCALL_OPEN: usize = 56;
/// Call number: close a descriptor.
pub const SYSCALL_CLOSE: usize = 57;
/// Call number: list a directory.
pub const SYSCALL_GETDENTS: usize = 61;
/// Call number: read from a descriptor.
pub const SYSCALL_READ: usize = 63;
/// Call number: write to a descriptor.
pub const SYSCALL_WRITE: usize = 64;
/// Call number: end the running task.
pub const SYSCALL_EXIT: usize = 93;
/// Call number: give up the processor.
pub const SYSCALL_YIELD: usize = 124;

/// The bytes a listing line takes in a `getdents` buffer: its kind, its
/// name, and a closing zero.
pub open spec fn dirent_record(d: Dirent) -> Seq<u8> {
    seq![
        if d.type_ == DirentType::File {
            0u8
        } else {
            1u8
        },
    ] + d.name@ + seq![0u8]
}

/// The lines of `ds`, in order, that fit in `cap` bytes, stopping at the
/// first that does not.
pub open spec fn packed(ds: Seq<Dirent>, cap: int) -> Seq<u8>
    decreases ds.len(),
{
    if ds.len() == 0 {
        Seq::empty()
    } else if dirent_record(ds[0]).len() > cap {
        Seq::empty()
    } else {
        dirent_record(ds[0]) + packed(ds.drop_first(), cap - dirent_record(ds[0]).len())
    }
}

/// Lays the lines of `dirents` into `buf` as `packed` says and returns how
/// many bytes it used.
pub fn pack_dirents(dirents: &Vec<Dirent>, buf: &mut [u8]) -> (r: usize)
    ensures
        final(buf)@.len() == old(buf)@.len(),
        r <= old(buf)@.len(),
        r == packed(dirents@, old(buf)@.len() as int).len(),
        final(buf)@.subrange(0, r as int) == packed(dirents@, old(buf)@.len() as int),
        final(buf)@.subrange(r as int, old(buf)@.len() as int) == old(buf)@.subrange(r as int, old(buf)@.len() as int),
{
    let cap = buf.len();
    let ghost all = packed(dirents@, cap as int);
    let mut offset: usize = 0;
    let mut i: usize = 0;
    assert(dirents@.skip(0) =~= dirents@);
    assert(buf@.subrange(0, 0) + all =~= all);
    assert(buf@.subrange(0, cap as int) =~= old(buf)@.subrange(0, cap as int));
    while i < dirents.len()
        invariant
            cap == buf@.len(),
            i == dirents@.len() ==> dirents@.skip(i as int) =~= Seq::<Dirent>::empty(),
            buf@.len() == old(buf)@.len(),
            i <= dirents@.len(),
            offset <= cap,
            all == buf@.subrange(0, offset as int) + packed(dirents@.skip(i as int), cap - offset),
            buf@.subrange(offset as int, cap as int) == old(buf)@.subrange(offset as int, cap as int),
        ensures
            offset <= cap,
            buf@.len() == old(buf)@.len(),
            all == buf@.subrange(0, offset as int),
            buf@.subrange(offset as int, cap as int) == old(buf)@.subrange(offset as int, cap as int),
        decreases dirents@.len() - i,
    {
        let d = &dirents[i];
        let ghost rest = dirents@.skip(i as int);
        assert(rest[0] == dirents@[i as int]);
        assert(rest.drop_first() =~= dirents@.skip(i + 1));
        let room = cap - offset;
        if d.name.len() >= room || room - d.name.len() < 2 {
            assert(packed(rest, cap - offset) =~= Seq::<u8>::empty());
            assert(buf@.subrange(0, offset as int) + Seq::<u8>::empty() =~= buf@.subrange(0, offset as int));
            break;
        }
        let need = d.name.len() + 2;
        let ghost before = buf@;
        buf[offset] = match d.type_ {
            DirentType::File => 0u8,
            DirentType::Directory => 1u8,
        };
        let mut k: usize = 0;
        while k < d.name.len()
            invariant
                k <= d.name@.len(),
                offset + d.name@.len() + 2 <= cap,
                buf@.len() == cap,
                before.len() == cap,
                forall|t: int| 0 <= t < cap && !(offset < t < offset + 1 + k) && t != offset ==> buf@[t] == before[t],
                buf@[offset as int] == dirent_record(*d)[0],
                forall|t: int| 0 <= t < k ==> buf@[offset + 1 + t] == d.name@[t],
            decreases d.name@.len() - k,
        {
            buf[offset + 1 + k] = d.name[k];
            k = k + 1;
        }
        buf[offset + 1 + d.name.len()] = 0u8;
        proof {
            let rec = dirent_record(*d);
            assert(buf@.subrange(offset as int, offset + need) =~= rec);
            assert(buf@.subrange(0, offset + need) =~= buf@.subrange(0, offset as int) + rec);
            assert(buf@.subrange(0, offset as int) =~= before.subrange(0, offset as int));
            assert(buf@.subrange(offset + need, cap as int) =~= old(buf)@.subrange(offset + need, cap as int)) by {
                assert(before.subrange(offset as int, cap as int) == old(buf)@.subrange(offset as int, cap as int));
                assert forall|t: int| offset + need <= t < cap implies buf@[t] == old(buf)@[t] by {
                    assert(before[t] == before.subrange(offset as int, cap as int)[t - offset]);
                }
            }
        }
        offset = offset + need;
        i = i + 1;
    }
    offset
}

/// The time `ms` counted from boot, as the kernel reports it.
pub fn sys_get_time(ms: usize, ts: &mut TimeVal) -> (r: isize)
    ensures
        r == 0,
        final(ts).tv_sec == ms / 1_000_000,
        final(ts).tv_usec == ms % 1_000_000,
{
    *ts = TimeVal { tv_sec: ms / 1_000_000, tv_usec: ms % 1_000_000 };
    0
}

/// Whether descriptor `fd` of `task` is open.
pub open spec fn fd_open(task: &TaskControlBlock, fd: usize) -> bool {
    fd < task.fd_table@.len() && task.fd_table@[fd as int] is Some
}

/// Closes descriptor `fd`: 0, or -1 when it is not open.
pub fn sys_close(task: &mut TaskControlBlock, fd: usize) -> (r: isize)
    ensures
        fd_open(old(task), fd) ==> r == 0 && final(task).fd_table@ == old(task).fd_table@.update(fd as int, None),
        !fd_open(old(task), fd) ==> r == -1 && final(task).fd_table@ == old(task).fd_table@,
        final(task).pid == old(task).pid,
        final(task).cwd == old(task).cwd,
        final(task).task_status == old(task).task_status,
{
    if fd >= task.fd_table.len() {
        return -1;
    }
    if task.fd_table[fd].is_none() {
        return -1;
    }
    task.fd_table.set(fd, None);
    0
}

/// Opens `path`, from the task's working directory, with flag bits `flags`,
/// and returns the lowest free descriptor now holding it; -1 when the bits
/// name no flags or the file cannot be opened.
pub fn sys_open<D: BlockDevice>(fs: &mut EasyFileSystem<D>, task: &mut TaskControlBlock, path: &str, flags: u32) -> (r: isize)
    requires
        old(fs).wf(),
        old(task).fd_table@.len() < isize::MAX,
    ensures
        final(fs).wf(),
        final(fs).same_layout(old(fs)),
        final(fs).disk().len() == old(fs).disk().len(),
        final(task).cwd == old(task).cwd,
        final(task).pid == old(task).pid,
        r == -1 ==> final(task).fd_table@ == old(task).fd_table@,
        final(task).fd_table@.len() <= old(task).fd_table@.len() + 1,
        r != -1 ==> {
            &&& final(task).fd_table@[r as int] matches Some(FileDesc::Inode(f)) && f.offset == 0 && (f.readable, f.writable)
                == crate::fd::access_of(flags) && f.inode.placed(final(fs)) && (old(fs).resolve(
                old(task).cwd.loc(),
                path.spec_bytes(),
            ) matches Some(l) ==> f.inode.loc() == l)
            &&& forall|i: int| 0 <= i < old(task).fd_table@.len() && i != r ==> #[trigger] final(task).fd_table@[i] == old(task).fd_table@[i]
            &&& 0 <= r <= old(task).fd_table@.len()
            &&& r < old(task).fd_table@.len() ==> old(task).fd_table@[r as int] is None
            &&& forall|i: int| 0 <= i < r ==> (#[trigger] old(task).fd_table@[i]) is Some
            &&& final(task).fd_table@[r as int] matches Some(FileDesc::Inode(_))
        },
        flags & !crate::fd::O_ALL != 0 ==> r == -1 && final(fs).disk() == old(fs).disk(),
        !old(task).cwd.placed(old(fs)) ==> r == -1 && final(fs).disk() == old(fs).disk(),
        ({
            let rs = old(fs).resolve(old(task).cwd.loc(), path.spec_bytes());
            let emptying = flags & crate::fd::O_CREATE == crate::fd::O_CREATE || flags & crate::fd::O_TRUNC == crate::fd::O_TRUNC;
            flags & !crate::fd::O_ALL == 0 && old(task).cwd.placed(old(fs)) && ((rs matches Some(l) && (!emptying || crate::vfs::model_at(
                old(fs).disk(),
                l.0,
                l.1,
            ).type_ == crate::layout::DiskInodeType::File)) || (rs is None && flags & crate::fd::O_CREATE == crate::fd::O_CREATE
                && old(task).cwd.can_create(old(fs), path.spec_bytes()))) ==> r != -1
        }),
{
    let flags = match OpenFlags::from_bits(flags) {
        Some(f) => f,
        None => {
            return -1;
        },
    };
    let cwd = task.cwd;
    if !cwd.is_placed(fs) {
        return -1;
    }
    match open_file(fs, &cwd, path, flags) {
        Some(inode) => {
            let fd = task.alloc_fd();
            task.fd_table.set(fd, Some(FileDesc::Inode(inode)));
            fd as isize
        },
        None => -1,
    }
}

/// Writes `buf` to descriptor `fd` and returns how many bytes went out; -1
/// when `fd` is not open, is standard input, or names a misplaced inode.
pub fn sys_write<D: BlockDevice>(
    fs: &mut EasyFileSystem<D>,
    console: &mut Console,
    task: &mut TaskControlBlock,
    fd: usize,
    buf: &[u8],
) -> (r: isize)
    requires
        old(fs).wf(),
    ensures
        final(fs).wf(),
        final(fs).same_layout(old(fs)),
        final(fs).disk().len() == old(fs).disk().len(),
        final(task).cwd == old(task).cwd,
        final(task).pid == old(task).pid,
        final(task).fd_table@.len() == old(task).fd_table@.len(),
        !fd_open(old(task), fd) ==> r == -1 && final(fs).disk() == old(fs).disk(),
        fd_open(old(task), fd) && old(task).fd_table@[fd as int] == Some(FileDesc::Stdin) ==> r == -1,
        fd_open(old(task), fd) && old(task).fd_table@[fd as int] == Some(FileDesc::Stdout) ==> r == buf@.len() as isize
            && final(console).output@ == old(console).output@ + buf@,
        fd_open(old(task), fd) ==> match old(task).fd_table@[fd as int] {
            Some(FileDesc::Inode(f)) => {
                let m0 = f.inode.model(old(fs));
                let g = crate::vfs::grow_target(m0.size as int, f.offset as int, buf@.len() as int);
                f.inode.placed(old(fs)) && m0.type_ == crate::layout::DiskInodeType::File && crate::disk_inode::model_sized(m0)
                    && old(fs).free_data() >= crate::layout::total_blocks_spec(g) - crate::layout::total_blocks_spec(m0.size as int)
                    ==> f.inode.model(final(fs)).size == g && r as int == crate::disk_inode::span(g, f.offset as int, buf@.len() as int)
            },
            _ => true,
        },
        fd_open(old(task), fd) ==> match old(task).fd_table@[fd as int] {
            Some(FileDesc::Inode(f)) => f.inode.placed(old(fs)) && f.inode.model(old(fs)).type_ == crate::layout::DiskInodeType::File
                && crate::disk_inode::model_sized(f.inode.model(old(fs))) ==> {
                let n = crate::disk_inode::span(f.inode.model(final(fs)).size as int, f.offset as int, buf@.len() as int);
                &&& r == n as isize
                &&& final(task).fd_table@ == old(task).fd_table@.update(
                    fd as int,
                    Some(FileDesc::Inode(OSInode { readable: f.readable, writable: f.writable, offset: (f.offset + n) as usize, inode: f.inode })),
                )
            },
            _ => true,
        },
{
    if fd >= task.fd_table.len() {
        return -1;
    }
    match task.fd_table[fd] {
        None => -1,
        Some(FileDesc::Stdin) => -1,
        Some(FileDesc::Stdout) => Stdout.write(console, buf) as isize,
        Some(FileDesc::Inode(f)) => {
            let mut f = f;
            if !f.inode.is_placed(fs) {
                return -1;
            }
            let n = f.write(fs, buf);
            task.fd_table.set(fd, Some(FileDesc::Inode(f)));
            n as isize
        },
    }
}

/// Reads from descriptor `fd` into `buf` and returns how many bytes came in;
/// -1 when `fd` is not open, is standard output, or names a misplaced inode.
pub fn sys_read<D: BlockDevice>(
    fs: &mut EasyFileSystem<D>,
    console: &mut Console,
    task: &mut TaskControlBlock,
    fd: usize,
    buf: &mut [u8],
) -> (r: isize)
    requires
        old(fs).wf(),
    ensures
        final(fs).wf(),
        final(fs).same_layout(old(fs)),
        final(fs).disk() == old(fs).disk(),
        final(task).cwd == old(task).cwd,
        final(task).pid == old(task).pid,
        final(task).fd_table@.len() == old(task).fd_table@.len(),
        final(buf)@.len() == old(buf)@.len(),
        !fd_open(old(task), fd) ==> r == -1,
        fd_open(old(task), fd) && old(task).fd_table@[fd as int] == Some(FileDesc::Stdout) ==> r == -1,
        fd_open(old(task), fd) && old(task).fd_table@[fd as int] == Some(FileDesc::Stdin) ==> if old(buf)@.len() > 0
            && old(console).input@.len() > 0 {
            &&& r == 1
            &&& final(buf)@ == old(buf)@.update(0, old(console).input@[0])
            &&& final(console).input@ == old(console).input@.drop_first()
        } else {
            &&& r == 0
            &&& final(buf)@ == old(buf)@
            &&& final(console).input@ == old(console).input@
        },
        fd_open(old(task), fd) ==> match old(task).fd_table@[fd as int] {
            Some(FileDesc::Inode(f)) => f.inode.placed(old(fs)) && crate::disk_inode::model_sized(f.inode.model(old(fs)))
                ==> {
                let n = crate::disk_inode::span(f.inode.model(old(fs)).size as int, f.offset as int, old(buf)@.len() as int);
                &&& r == n as isize
                &&& final(task).fd_table@ == old(task).fd_table@.update(
                    fd as int,
                    Some(FileDesc::Inode(OSInode { readable: f.readable, writable: f.writable, offset: (f.offset + n) as usize, inode: f.inode })),
                )
            },
            _ => true,
        },
{
    if fd >= task.fd_table.len() {
        return -1;
    }
    match task.fd_table[fd] {
        None => -1,
        Some(FileDesc::Stdout) => -1,
        Some(FileDesc::Stdin) => Stdin.read(console, buf) as isize,
        Some(FileDesc::Inode(f)) => {
            let mut f = f;
            if !f.inode.is_placed(fs) {
                return -1;
            }
            let n = f.read(fs, buf);
            task.fd_table.set(fd, Some(FileDesc::Inode(f)));
            n as isize
        },
    }
}

/// Lists the directory open as descriptor `fd` into `buf`, one line after
/// another as `pack_dirents` lays them, and returns the bytes used; -1 when
/// `fd` is not open or names a misplaced inode. The console lists nothing.
pub fn sys_getdents<D: BlockDevice>(fs: &mut EasyFileSystem<D>, task: &TaskControlBlock, fd: usize, buf: &mut [u8]) -> (r: isize)
    requires
        old(fs).wf(),
    ensures
        final(fs).wf(),
        final(fs).same_layout(old(fs)),
        final(fs).disk() == old(fs).disk(),
        final(buf)@.len() == old(buf)@.len(),
        !fd_open(task, fd) ==> r == -1,
        r >= 0 ==> r <= old(buf)@.len(),
        fd_open(task, fd) && (task.fd_table@[fd as int] == Some(FileDesc::Stdin) || task.fd_table@[fd as int] == Some(
            FileDesc::Stdout,
        )) ==> r == 0,
        fd_open(task, fd) ==> match task.fd_table@[fd as int] {
            Some(FileDesc::Inode(f)) => f.inode.placed(old(fs)) && f.inode.model(old(fs)).type_ == crate::layout::DiskInodeType::File
                && old(buf)@.len() <= isize::MAX ==> r == 0,
            _ => true,
        },
        fd_open(task, fd) ==> match task.fd_table@[fd as int] {
            Some(FileDesc::Inode(f)) => f.inode.placed(old(fs)) && f.inode.model(old(fs)).type_ == crate::layout::DiskInodeType::Directory
                && crate::disk_inode::model_sized(f.inode.model(old(fs))) && old(buf)@.len() <= isize::MAX ==> exists|ds: Seq<Dirent>|
                #![trigger packed(ds, old(buf)@.len() as int)]
                {
                    let m = f.inode.model(old(fs));
                    let c = crate::layout::content(old(fs).disk(), m);
                    &&& ds.len() == crate::vfs::entry_count(m.size as int)
                    &&& forall|i: int|
                        0 <= i < ds.len() ==> (#[trigger] ds[i]).type_ == DirentType::File && ds[i].name@ == if vstd::utf8::valid_utf8(
                            crate::layout::entry_name(c, i),
                        ) {
                            crate::layout::entry_name(c, i)
                        } else {
                            Seq::<u8>::empty()
                        }
                    &&& r as int == packed(ds, old(buf)@.len() as int).len()
                    &&& final(buf)@.subrange(0, r as int) == packed(ds, old(buf)@.len() as int)
                },
            _ => true,
        },
{
    if fd >= task.fd_table.len() {
        return -1;
    }
    match task.fd_table[fd] {
        None => -1,
        Some(FileDesc::Stdin) => 0,
        Some(FileDesc::Stdout) => 0,
        Some(FileDesc::Inode(f)) => {
            if !f.inode.is_placed(fs) {
                return -1;
            }
            if buf.len() > isize::MAX as usize {
                return -1;
            }
            let dirents = f.getdents(fs);
            let n = pack_dirents(&dirents, buf);
            proof {
                let ds = dirents@;
                assert(packed(ds, old(buf)@.len() as int) == packed(dirents@, old(buf)@.len() as int));
            }
            n as isize
        },
    }
}


/// A kernel: the filesystem, the console, every task by its pid, the task
/// now running, and the ready queue.
pub struct Kernel<D: BlockDevice> {
    pub fs: EasyFileSystem<D>,
    pub console: Console,
    pub tasks: Vec<TaskControlBlock>,
    pub current: usize,
    pub manager: TaskManager,
    /// Milliseconds since boot, as the clock last said.
    pub now_ms: usize,
}

impl<D: BlockDevice> Kernel<D> {
    /// The filesystem is well formed, the running task exists, and every
    /// queued pid names a task.
    pub open spec fn wf(&self) -> bool {
        &&& self.fs.wf()
        &&& self.current < self.tasks@.len()
        &&& forall|i: int| 0 <= i < self.tasks@.len() ==> (#[trigger] self.tasks@[i]).fd_table@.len() < isize::MAX
        &&& forall|i: int| 0 <= i < self.manager.queue().len() ==> #[trigger] self.manager.queue()[i] < self.tasks@.len()
    }

    /// A kernel over `fs` running one task, pid 0, in the root directory.
    pub fn new(fs: EasyFileSystem<D>) -> (r: Self)
        requires
            fs.wf(),
        ensures
            r.wf(),
            r.current == 0,
            r.tasks@.len() == 1,
            r.tasks@[0].task_status == TaskStatus::Running,
            r.tasks@[0].cwd.loc() == fs.inode_pos(0),
            r.manager.queue() == Seq::<usize>::empty(),
    {
        let root = fs.root_inode();
        let mut init = TaskControlBlock::new(0, root);
        init.task_status = TaskStatus::Running;
        let mut tasks: Vec<TaskControlBlock> = Vec::new();
        tasks.push(init);
        Kernel { fs, console: Console::new(), tasks, current: 0, manager: TaskManager::new(), now_ms: 0 }
    }

    /// Adds a ready task working in the root directory and returns its pid.
    pub fn spawn(&mut self) -> (pid: usize)
        requires
            old(self).wf(),
            old(self).tasks@.len() < usize::MAX,
        ensures
            final(self).wf(),
            pid == old(self).tasks@.len(),
            final(self).tasks@.len() == old(self).tasks@.len() + 1,
            final(self).tasks@[pid as int].task_status == TaskStatus::Ready,
            final(self).current == old(self).current,
            final(self).manager.queue() == old(self).manager.queue().push(pid),
    {
        let pid = self.tasks.len();
        let root = self.fs.root_inode();
        let t = TaskControlBlock::new(pid, root);
        self.tasks.push(t);
        self.manager.add(pid);
        pid
    }

    /// Sets the state of task `pid`.
    fn set_status(&mut self, pid: usize, status: TaskStatus)
        requires
            old(self).wf(),
            pid < old(self).tasks@.len(),
        ensures
            final(self).wf(),
            final(self).tasks@.len() == old(self).tasks@.len(),
            final(self).tasks@[pid as int].task_status == status,
            final(self).tasks@[pid as int].exit_code == old(self).tasks@[pid as int].exit_code,
            forall|i: int| 0 <= i < old(self).tasks@.len() && i != pid ==> #[trigger] final(self).tasks@[i] == old(self).tasks@[i],
            final(self).current == old(self).current,
            final(self).manager.queue() == old(self).manager.queue(),
            final(self).fs == old(self).fs,
    {
        let ghost all = self.tasks@;
        let mut t = self.tasks.remove(pid);
        t.task_status = status;
        self.tasks.insert(pid, t);
        proof {
            assert(self.tasks@ =~= all.update(pid as int, t));
        }
    }

    /// Hands the processor to the task at the front of the ready queue, if
    /// any, marking it running.
    fn run_next(&mut self)
        requires
            old(self).wf(),
        ensures
            final(self).wf(),
            final(self).tasks@.len() == old(self).tasks@.len(),
            final(self).fs == old(self).fs,
            forall|i: int| 0 <= i < old(self).tasks@.len() ==> (#[trigger] final(self).tasks@[i]).exit_code == old(self).tasks@[i].exit_code,
            old(self).manager.queue().len() == 0 ==> final(self).current == old(self).current
                && final(self).tasks@ == old(self).tasks@ && final(self).manager.queue() == old(self).manager.queue(),
            old(self).manager.queue().len() > 0 ==> {
                &&& final(self).current == old(self).manager.queue()[0]
                &&& final(self).manager.queue() == old(self).manager.queue().drop_first()
                &&& final(self).tasks@[final(self).current as int].task_status == TaskStatus::Running
                &&& forall|i: int|
                    0 <= i < old(self).tasks@.len() && i != final(self).current ==> #[trigger] final(self).tasks@[i]
                        == old(self).tasks@[i]
            },
    {
        match self.manager.fetch() {
            Some(next) => {
                proof {
                    assert(next == old(self).manager.queue()[0]);
                }
                self.set_status(next, TaskStatus::Running);
                self.current = next;
            },
            None => {},
        }
    }

    /// The running task gives up the processor: it goes to the back of the
    /// ready queue and the task at the front runs (itself, if it was alone).
    pub fn sys_yield(&mut self) -> (r: isize)
        requires
            old(self).wf(),
        ensures
            final(self).wf(),
            r == 0,
            final(self).tasks@.len() == old(self).tasks@.len(),
            ({
                let q = old(self).manager.queue().push(old(self).current);
                &&& final(self).current == q[0]
                &&& final(self).manager.queue() == q.drop_first()
                &&& final(self).tasks@[final(self).current as int].task_status == TaskStatus::Running
                &&& final(self).current != old(self).current ==> final(self).tasks@[old(self).current as int].task_status
                    == TaskStatus::Ready
            }),
    {
        let cur = self.current;
        self.set_status(cur, TaskStatus::Ready);
        self.manager.add(cur);
        self.run_next();
        0
    }

    /// The running task ends with `exit_code`; the task at the front of the
    /// ready queue runs.
    pub fn sys_exit(&mut self, exit_code: i32) -> (r: isize)
        requires
            old(self).wf(),
        ensures
            final(self).wf(),
            r == 0,
            final(self).tasks@.len() == old(self).tasks@.len(),
            final(self).tasks@[old(self).current as int].exit_code == exit_code,
            old(self).manager.queue().len() > 0 ==> final(self).current == old(self).manager.queue()[0],
            old(self).manager.queue().len() > 0 && old(self).manager.queue()[0] != old(self).current
                ==> final(self).tasks@[old(self).current as int].task_status == TaskStatus::Exited,
            old(self).manager.queue().len() == 0 ==> final(self).current == old(self).current
                && final(self).tasks@[old(self).current as int].task_status == TaskStatus::Exited,
    {
        let cur = self.current;
        let ghost all = self.tasks@;
        let mut t = self.tasks.remove(cur);
        t.task_status = TaskStatus::Exited;
        t.exit_code = exit_code;
        self.tasks.insert(cur, t);
        proof {
            assert(self.tasks@ =~= all.update(cur as int, t));
        }
        self.run_next();
        0
    }
}

/// Whether `syscall` serves call number `id`.
pub open spec fn served(id: usize) -> bool {
    id == SYSCALL_GETCWD || id == SYSCALL_GET_TIME || id == SYSCALL_GETPID || id == SYSCALL_CHDIR || id == SYSCALL_OPEN || id == SYSCALL_CLOSE || id == SYSCALL_GETDENTS || id
        == SYSCALL_READ || id == SYSCALL_WRITE || id == SYSCALL_EXIT || id == SYSCALL_YIELD
}

/// Stores `v` little-endian in the eight bytes at `off` of `buf`.
fn put_u64(buf: &mut [u8], off: usize, v: u64)
    requires
        off + 8 <= old(buf)@.len(),
    ensures
        final(buf)@.len() == old(buf)@.len(),
        le_u32(final(buf)@, off as int) + 4294967296 * le_u32(final(buf)@, off + 4) == v,
        forall|i: int| 0 <= i < old(buf)@.len() && !(off <= i < off + 8) ==> final(buf)@[i] == old(buf)@[i],
{
    let _n = buf.len();
    let lo = (v % 4294967296) as u32;
    let hi = (v / 4294967296) as u32;
    write_u32(buf, off, lo);
    write_u32(buf, off + 4, hi);
    assert(lo + 4294967296 * hi == v) by (nonlinear_arith)
        requires
            lo == v % 4294967296,
            hi == v / 4294967296,
    ;
}

/// The text of a path as a task passes it: its bytes up to the first zero.
fn path_of(buf: &[u8]) -> (r: Option<String>) {
    let mut v: Vec<u8> = Vec::new();
    let mut i: usize = 0;
    while i < buf.len() && buf[i] != 0
        invariant
            i <= buf@.len(),
        decreases buf@.len() - i,
    {
        v.push(buf[i]);
        i = i + 1;
    }
    crate::vfs::utf8_string(v)
}

/// Serves system call `id` for the running task. `args[0]` is the
/// descriptor, flags or exit code the call takes; `buf` is the task's memory
/// the call reads or fills (a zero-terminated path for `open` and `chdir`).
/// Returns the call's result, or -1 for a call number it does not serve.
pub fn syscall<D: BlockDevice>(k: &mut Kernel<D>, id: usize, args: [usize; 3], buf: &mut [u8]) -> (r: isize)
    requires
        served(id),
        old(k).wf(),
    ensures
        final(k).wf(),
        final(k).tasks@.len() == old(k).tasks@.len(),
        id == SYSCALL_YIELD || id == SYSCALL_EXIT ==> r == 0,
        (id == SYSCALL_READ || id == SYSCALL_WRITE || id == SYSCALL_GETDENTS) && !fd_open(&old(k).tasks@[old(k).current as int], args[0])
            ==> r == -1 && final(k).fs.disk() == old(k).fs.disk(),
        id == SYSCALL_WRITE && fd_open(&old(k).tasks@[old(k).current as int], args[0]) && old(k).tasks@[old(k).current as int].fd_table@[args[0] as int]
            == Some(FileDesc::Stdout) ==> r == old(buf)@.len() as isize && final(k).console.output@ == old(k).console.output@ + old(buf)@,
        id == SYSCALL_GETPID ==> r == old(k).current as isize && final(k).current == old(k).current,
        id == SYSCALL_GET_TIME ==> final(k).fs.disk() == old(k).fs.disk() && if old(buf)@.len() >= 16 {
            &&& r == 0
            &&& le_u32(final(buf)@, 0) + 4294967296 * le_u32(final(buf)@, 4) == (old(k).now_ms / 1_000_000) as u64
            &&& le_u32(final(buf)@, 8) + 4294967296 * le_u32(final(buf)@, 12) == (old(k).now_ms % 1_000_000) as u64
        } else {
            r == -1
        },
        id == SYSCALL_GETCWD ==> final(k).fs.disk() == old(k).fs.disk() && (r >= 0 ==> r < old(buf)@.len()
            && final(buf)@[r as int] == 0),
        id == SYSCALL_CLOSE ==> final(k).current == old(k).current && final(k).fs.disk() == old(k).fs.disk() && ({
            let before = old(k).tasks@[old(k).current as int];
            let after = final(k).tasks@[old(k).current as int];
            if fd_open(&before, args[0]) {
                r == 0 && after.fd_table@ == before.fd_table@.update(args[0] as int, None)
            } else {
                r == -1 && after.fd_table@ == before.fd_table@
            }
        }),
{
    if id == SYSCALL_YIELD {
        return k.sys_yield();
    }
    if id == SYSCALL_EXIT {
        return k.sys_exit(args[0] as i32);
    }
    if id == SYSCALL_GETPID {
        return k.current as isize;
    }
    if id == SYSCALL_GET_TIME {
        if buf.len() < 16 {
            return -1;
        }
        let mut ts = TimeVal { tv_sec: 0, tv_usec: 0 };
        let _ = sys_get_time(k.now_ms, &mut ts);
        put_u64(buf, 0, ts.tv_sec as u64);
        put_u64(buf, 8, ts.tv_usec as u64);
        return 0;
    }
    if id == SYSCALL_GETCWD {
        let cwd = k.tasks[k.current].cwd;
        if !cwd.is_placed(&k.fs) {
            return -1;
        }
        let path = OSInode::new(true, false, cwd).get_path(&mut k.fs);
        let bytes = path.as_str().as_bytes();
        if bytes.len() >= buf.len() || bytes.len() > 0x7fff_ffff {
            return -1;
        }
        let mut i: usize = 0;
        while i < bytes.len()
            invariant
                i <= bytes@.len(),
                bytes@.len() < buf@.len(),
                buf@.len() == old(buf)@.len(),
            decreases bytes@.len() - i,
        {
            buf[i] = bytes[i];
            i = i + 1;
        }
        buf[bytes.len()] = 0;
        return bytes.len() as isize;
    }
    if !(id == SYSCALL_CHDIR || id == SYSCALL_OPEN || id == SYSCALL_CLOSE || id == SYSCALL_GETDENTS || id
        == SYSCALL_READ || id == SYSCALL_WRITE) {
        return -1;
    }
    let cur = k.current;
    let ghost all = k.tasks@;
    let mut task = k.tasks.remove(cur);
    proof {
        assert forall|i: int| 0 <= i < k.tasks@.len() implies (#[trigger] k.tasks@[i]).fd_table@.len() < isize::MAX by {
            if i < cur {
                assert(k.tasks@[i] == all[i]);
            } else {
                assert(k.tasks@[i] == all[i + 1]);
            }
        }
        assert(task.fd_table@.len() < isize::MAX) by {
            assert(all[cur as int] == task);
        }
    }
    let r: isize = if id == SYSCALL_CLOSE {
        sys_close(&mut task, args[0])
    } else if id == SYSCALL_READ {
        sys_read(&mut k.fs, &mut k.console, &mut task, args[0], buf)
    } else if id == SYSCALL_WRITE {
        sys_write(&mut k.fs, &mut k.console, &mut task, args[0], buf)
    } else if id == SYSCALL_GETDENTS {
        sys_getdents(&mut k.fs, &task, args[0], buf)
    } else {
        match path_of(buf) {
            None => -1,
            Some(path) => {
                if id == SYSCALL_OPEN && task.fd_table.len() >= (isize::MAX - 1) as usize {
                    -1
                } else if id == SYSCALL_OPEN {
                    sys_open(&mut k.fs, &mut task, path.as_str(), args[0] as u32)
                } else {
                    let mut here = OSInode::new(true, false, task.cwd);
                    if !here.inode.is_placed(&k.fs) {
                        -1
                    } else if here.chdir(&mut k.fs, path.as_str()) {
                        task.cwd = here.inode;
                        0
                    } else {
                        -1
                    }
                }
            },
        }
    };
    let ghost before = k.tasks@;
    let ghost done = task;
    k.tasks.insert(cur, task);
    proof {
        assert forall|i: int| 0 <= i < k.tasks@.len() implies (#[trigger] k.tasks@[i]).fd_table@.len() < isize::MAX by {
            if i < cur {
                assert(k.tasks@[i] == before[i]);
            } else if i > cur {
                assert(k.tasks@[i] == before[i - 1]);
            } else {
                assert(k.tasks@[i] == done);
            }
        }
        assert(k.tasks@[cur as int] == done);
    }
    r
}

} // verus!
