//! Tasks as the kernel sees them: their state, the ready queue, and wait
//! queues that tasks block on.
use std::collections::VecDeque;
use vstd::prelude::*;

use crate::fd::FileDesc;
use crate::vfs::Inode;

verus! {

/// Where a task stands in its life.
#[derive(Clone, Copy, Debug, PartialEq, Eq, Structural)]
pub enum TaskStatus {
    UnInit,
    Ready,
    Running,
    Exited,
}

/// A point in time: seconds and the rest below a second.
#[derive(Clone, Copy, Debug, PartialEq, Eq, Structural)]
pub struct TimeVal {
    pub tv_sec: usize,
    pub tv_usec: usize,
}

/// One task: its identity, its state, its open files and its working
/// directory.
pub struct TaskControlBlock {
    pub pid: usize,
    pub task_status: TaskStatus,
    pub exit_code: i32,
    pub fd_table: Vec<Option<FileDesc>>,
    pub cwd: Inode,
}

impl TaskControlBlock {
    /// A ready task `pid` working in `cwd`, with standard input, output and
    /// error open as descriptors 0, 1 and 2.
    pub fn new(pid: usize, cwd: Inode) -> (r: Self)
        ensures
            r.pid == pid,
            r.task_status == TaskStatus::Ready,
            r.exit_code == 0,
            r.cwd == cwd,
            r.fd_table@.len() == 3,
            r.fd_table@[0] == Some(FileDesc::Stdin),
            r.fd_table@[1] == Some(FileDesc::Stdout),
            r.fd_table@[2] == Some(FileDesc::Stdout),
    {
        let mut fd_table: Vec<Option<FileDesc>> = Vec::new();
        fd_table.push(Some(FileDesc::Stdin));
        fd_table.push(Some(FileDesc::Stdout));
        fd_table.push(Some(FileDesc::Stdout));
        TaskControlBlock { pid, task_status: TaskStatus::Ready, exit_code: 0, fd_table, cwd }
    }

    /// The lowest free descriptor, the table growing by one slot when every
    /// slot is taken.
    pub fn alloc_fd(&mut self) -> (fd: usize)
        requires
            old(self).fd_table@.len() < usize::MAX,
        ensures
            fd < final(self).fd_table@.len(),
            final(self).fd_table@[fd as int] is None,
            forall|i: int| 0 <= i < fd ==> (#[trigger] old(self).fd_table@[i]) is Some,
            fd < old(self).fd_table@.len() ==> final(self).fd_table@ == old(self).fd_table@,
            fd == old(self).fd_table@.len() ==> final(self).fd_table@ == old(self).fd_table@.push(None),
            fd <= old(self).fd_table@.len(),
            final(self).pid == old(self).pid,
            final(self).task_status == old(self).task_status,
            final(self).exit_code == old(self).exit_code,
            final(self).cwd == old(self).cwd,
    {
        let mut i: usize = 0;
        while i < self.fd_table.len()
            invariant
                i <= self.fd_table@.len(),
                *self == *old(self),
                forall|k: int| 0 <= k < i ==> (#[trigger] self.fd_table@[k]) is Some,
            decreases self.fd_table@.len() - i,
        {
            if self.fd_table[i].is_none() {
                return i;
            }
            i = i + 1;
        }
        self.fd_table.push(None);
        i
    }
}

/// The ready queue: tasks run in the order they became ready.
pub struct TaskManager {
    ready_queue: VecDeque<usize>,
}

impl TaskManager {
    /// The tasks waiting to run, first to run first.
    pub closed spec fn queue(&self) -> Seq<usize> {
        self.ready_queue@
    }

    /// An empty ready queue.
    pub fn new() -> (r: Self)
        ensures
            r.queue() == Seq::<usize>::empty(),
    {
        TaskManager { ready_queue: VecDeque::new() }
    }

    /// Puts task `pid` at the back of the queue.
    pub fn add(&mut self, pid: usize)
        ensures
            final(self).queue() == old(self).queue().push(pid),
    {
        self.ready_queue.push_back(pid);
    }

    /// Takes the task at the front of the queue; `None` when it is empty.
    pub fn fetch(&mut self) -> (r: Option<usize>)
        ensures
            old(self).queue().len() == 0 ==> r is None && final(self).queue() == old(self).queue(),
            old(self).queue().len() > 0 ==> r == Some(old(self).queue()[0]) && final(self).queue()
                == old(self).queue().drop_first(),
    {
        self.ready_queue.pop_front()
    }
}

/// The tasks blocked on a condition, first to block first.
pub struct CondvarInner {
    pub wait_queue: VecDeque<usize>,
}

/// A condition variable: tasks wait on it and are woken one at a time, in
/// the order they began to wait.
pub struct Condvar {
    pub inner: CondvarInner,
}

impl Condvar {
    /// A condition variable nobody waits on.
    pub fn new() -> (r: Self)
        ensures
            r.inner.wait_queue@ == Seq::<usize>::empty(),
    {
        Condvar { inner: CondvarInner { wait_queue: VecDeque::new() } }
    }

    /// Takes the task that has waited longest, which the caller is to wake;
    /// `None` when nobody waits.
    pub fn signal(&mut self) -> (r: Option<usize>)
        ensures
            old(self).inner.wait_queue@.len() == 0 ==> r is None && final(self).inner.wait_queue@
                == old(self).inner.wait_queue@,
            old(self).inner.wait_queue@.len() > 0 ==> r == Some(old(self).inner.wait_queue@[0])
                && final(self).inner.wait_queue@ == old(self).inner.wait_queue@.drop_first(),
    {
        self.inner.wait_queue.pop_front()
    }

    /// Enqueues task `pid` as waiting; the caller then blocks it without
    /// switching to another task.
    pub fn wait_no_sched(&mut self, pid: usize)
        ensures
            final(self).inner.wait_queue@ == old(self).inner.wait_queue@.push(pid),
    {
        self.inner.wait_queue.push_back(pid);
    }
}

} // verus!
