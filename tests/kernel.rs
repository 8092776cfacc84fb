use easy_fs::block_dev::MemoryDevice;
use easy_fs::efs::EasyFileSystem;
use easy_fs::fd::{open_file, Dirent, DirentType, FileDesc, OpenFlags, O_CREATE, O_RDWR, O_TRUNC, O_WRONLY};
use easy_fs::syscall::{SYSCALL_GETCWD, SYSCALL_GETPID, SYSCALL_GET_TIME};
use easy_fs::syscall::{
    pack_dirents, sys_close, sys_get_time, syscall, Kernel, SYSCALL_CHDIR, SYSCALL_CLOSE,
    SYSCALL_GETDENTS, SYSCALL_OPEN, SYSCALL_READ, SYSCALL_WRITE,
};
use easy_fs::task::{Condvar, TaskControlBlock, TaskManager, TaskStatus, TimeVal};

fn kernel() -> Kernel<MemoryDevice> {
    let efs = EasyFileSystem::create(MemoryDevice::new(4096), 4096, 1).unwrap();
    Kernel::new(efs)
}

fn path(s: &str) -> Vec<u8> {
    let mut v = s.as_bytes().to_vec();
    v.push(0);
    v
}

#[test]
fn open_flags_decide_access() {
    assert_eq!(OpenFlags::from_bits(0).unwrap().read_write(), (true, false));
    assert_eq!(OpenFlags::from_bits(O_WRONLY).unwrap().read_write(), (false, true));
    assert_eq!(OpenFlags::from_bits(O_RDWR).unwrap().read_write(), (true, true));
    assert_eq!(OpenFlags::from_bits(O_CREATE | O_WRONLY).unwrap().read_write(), (false, true));
    assert_eq!(OpenFlags::from_bits(O_CREATE).unwrap().read_write(), (true, true));
    assert!(OpenFlags::from_bits(4).is_none());
    assert!(OpenFlags::from_bits(O_TRUNC).unwrap().contains(O_TRUNC));
}

#[test]
fn open_write_read_close() {
    let mut k = kernel();
    let mut p = path("notes");
    let fd = syscall(&mut k, SYSCALL_OPEN, [(O_CREATE | O_RDWR) as usize, 0, 0], &mut p);
    assert_eq!(fd, 3);
    let mut data = b"some text".to_vec();
    assert_eq!(syscall(&mut k, SYSCALL_WRITE, [3, 0, 0], &mut data), 9);
    assert_eq!(syscall(&mut k, SYSCALL_CLOSE, [3, 0, 0], &mut []), 0);
    assert_eq!(syscall(&mut k, SYSCALL_CLOSE, [3, 0, 0], &mut []), -1);
    let mut p = path("notes");
    let fd = syscall(&mut k, SYSCALL_OPEN, [0, 0, 0], &mut p);
    assert_eq!(fd, 3);
    let mut buf = vec![0u8; 4];
    assert_eq!(syscall(&mut k, SYSCALL_READ, [3, 0, 0], &mut buf), 4);
    assert_eq!(&buf, b"some");
    assert_eq!(syscall(&mut k, SYSCALL_READ, [3, 0, 0], &mut buf), 4);
    assert_eq!(&buf, b" tex");
    assert_eq!(syscall(&mut k, SYSCALL_READ, [3, 0, 0], &mut buf), 1);
    assert_eq!(buf[0], b't');
    let mut p = path("missing");
    assert_eq!(syscall(&mut k, SYSCALL_OPEN, [0, 0, 0], &mut p), -1);
    let mut p = path("notes");
    assert_eq!(syscall(&mut k, SYSCALL_OPEN, [4, 0, 0], &mut p), -1);
}

#[test]
fn truncate_and_create_empty_existing_files() {
    let mut k = kernel();
    let root = k.fs.root_inode();
    let f = root.create(&mut k.fs, "f").unwrap();
    f.write_at(&mut k.fs, 0, b"0123456789");
    let flags = OpenFlags::from_bits(O_TRUNC).unwrap();
    let mut h = open_file(&mut k.fs, &root, "f", flags).unwrap();
    assert_eq!(h.read_all(&mut k.fs), Vec::<u8>::new());
    f.write_at(&mut k.fs, 0, b"abc");
    let flags = OpenFlags::from_bits(0).unwrap();
    let mut h = open_file(&mut k.fs, &root, "f", flags).unwrap();
    assert_eq!(h.read_all(&mut k.fs), b"abc".to_vec());
    assert_eq!(h.offset, 3);
    let flags = OpenFlags::from_bits(O_CREATE).unwrap();
    let mut h = open_file(&mut k.fs, &root, "f", flags).unwrap();
    assert_eq!(h.read_all(&mut k.fs), Vec::<u8>::new());
    assert!(open_file(&mut k.fs, &root, "g", OpenFlags::from_bits(0).unwrap()).is_none());
}

#[test]
fn console_descriptors() {
    let mut k = kernel();
    let mut out = b"hi".to_vec();
    assert_eq!(syscall(&mut k, SYSCALL_WRITE, [1, 0, 0], &mut out), 2);
    assert_eq!(k.console.output, b"hi".to_vec());
    assert_eq!(syscall(&mut k, SYSCALL_WRITE, [0, 0, 0], &mut out), -1);
    let mut one = [0u8; 1];
    assert_eq!(syscall(&mut k, SYSCALL_READ, [1, 0, 0], &mut one), -1);
    assert_eq!(syscall(&mut k, SYSCALL_READ, [0, 0, 0], &mut one), 0);
    k.console.input.push_back(b'x');
    assert_eq!(syscall(&mut k, SYSCALL_READ, [0, 0, 0], &mut one), 1);
    assert_eq!(one[0], b'x');
    assert_eq!(syscall(&mut k, SYSCALL_WRITE, [9, 0, 0], &mut out), -1);
}

#[test]
fn directory_listing_is_packed() {
    let mut k = kernel();
    let root = k.fs.root_inode();
    let d = root.create_dir(&mut k.fs, "dir").unwrap();
    d.create(&mut k.fs, "ab").unwrap();
    let mut p = path("dir");
    let fd = syscall(&mut k, SYSCALL_OPEN, [0, 0, 0], &mut p);
    assert_eq!(fd, 3);
    let mut buf = vec![0xffu8; 32];
    let n = syscall(&mut k, SYSCALL_GETDENTS, [3, 0, 0], &mut buf);
    assert_eq!(n, 11);
    assert_eq!(&buf[..11], &[0, b'.', 0, 0, b'.', b'.', 0, 0, b'a', b'b', 0][..]);
    assert_eq!(buf[11], 0xff);
    let mut small = vec![0xffu8; 6];
    assert_eq!(syscall(&mut k, SYSCALL_GETDENTS, [3, 0, 0], &mut small), 3);
    assert_eq!(syscall(&mut k, SYSCALL_GETDENTS, [7, 0, 0], &mut small), -1);
}

#[test]
fn pack_stops_at_first_line_that_does_not_fit() {
    let ds = vec![
        Dirent::new(b"abc".to_vec(), DirentType::File),
        Dirent::new(b"defgh".to_vec(), DirentType::Directory),
        Dirent::new(b"i".to_vec(), DirentType::File),
    ];
    let mut buf = [7u8; 8];
    assert_eq!(pack_dirents(&ds, &mut buf), 5);
    assert_eq!(buf, [0, b'a', b'b', b'c', 0, 7, 7, 7]);
    let mut big = [7u8; 16];
    assert_eq!(pack_dirents(&ds, &mut big), 15);
    assert_eq!(&big[5..12], &[1, b'd', b'e', b'f', b'g', b'h', 0]);
}

#[test]
fn chdir_moves_the_working_directory() {
    let mut k = kernel();
    let root = k.fs.root_inode();
    let d = root.create_dir(&mut k.fs, "sub").unwrap();
    d.create(&mut k.fs, "inner").unwrap();
    let mut p = path("sub");
    assert_eq!(syscall(&mut k, SYSCALL_CHDIR, [0, 0, 0], &mut p), 0);
    assert_eq!(k.tasks[0].cwd, d);
    let mut p = path("inner");
    assert_eq!(syscall(&mut k, SYSCALL_OPEN, [0, 0, 0], &mut p), 3);
    let mut p = path("nowhere");
    assert_eq!(syscall(&mut k, SYSCALL_CHDIR, [0, 0, 0], &mut p), -1);
    assert_eq!(k.tasks[0].cwd, d);
}

#[test]
fn descriptors_are_reused_lowest_first() {
    let mut k = kernel();
    let root = k.fs.root_inode();
    let mut t = TaskControlBlock::new(5, root);
    assert_eq!(t.alloc_fd(), 3);
    assert_eq!(t.fd_table.len(), 4);
    assert_eq!(sys_close(&mut t, 1), 0);
    assert_eq!(sys_close(&mut t, 1), -1);
    assert_eq!(sys_close(&mut t, 40), -1);
    assert_eq!(t.alloc_fd(), 1);
    assert_eq!(t.fd_table[0], Some(FileDesc::Stdin));
}

#[test]
fn ready_queue_is_fifo() {
    let mut m = TaskManager::new();
    assert_eq!(m.fetch(), None);
    m.add(3);
    m.add(1);
    m.add(2);
    assert_eq!(m.fetch(), Some(3));
    assert_eq!(m.fetch(), Some(1));
    m.add(7);
    assert_eq!(m.fetch(), Some(2));
    assert_eq!(m.fetch(), Some(7));
    assert_eq!(m.fetch(), None);
}

#[test]
fn condvar_wakes_in_waiting_order() {
    let mut c = Condvar::new();
    assert_eq!(c.signal(), None);
    c.wait_no_sched(4);
    c.wait_no_sched(2);
    assert_eq!(c.signal(), Some(4));
    assert_eq!(c.signal(), Some(2));
    assert_eq!(c.signal(), None);
}

#[test]
fn yield_and_exit_switch_tasks() {
    let mut k = kernel();
    let pid = k.spawn();
    assert_eq!(pid, 1);
    assert_eq!(k.sys_yield(), 0);
    assert_eq!(k.current, 1);
    assert_eq!(k.tasks[0].task_status, TaskStatus::Ready);
    assert_eq!(k.tasks[1].task_status, TaskStatus::Running);
    assert_eq!(k.sys_exit(7), 0);
    assert_eq!(k.tasks[1].task_status, TaskStatus::Exited);
    assert_eq!(k.tasks[1].exit_code, 7);
    assert_eq!(k.current, 0);
    assert_eq!(k.tasks[0].task_status, TaskStatus::Running);
}

#[test]
fn time_splits_into_seconds_and_rest() {
    let mut ts = TimeVal { tv_sec: 0, tv_usec: 0 };
    assert_eq!(sys_get_time(3_250_000, &mut ts), 0);
    assert_eq!(ts, TimeVal { tv_sec: 3, tv_usec: 250_000 });
}

#[test]
fn open_inodes_report_their_path() {
    let mut k = kernel();
    let root = easy_fs::fd::root_os_inode(&k.fs);
    assert!(root.readable && root.writable);
    assert_eq!(root.get_path(&mut k.fs), "/");
    let d = root.inode.create_dir(&mut k.fs, "home").unwrap();
    let mut h = easy_fs::fd::OSInode::new(true, false, root.inode);
    assert!(h.chdir(&mut k.fs, "home"));
    assert_eq!(h.inode, d);
    assert_eq!(h.get_path(&mut k.fs), "/home");
    assert!(!h.chdir(&mut k.fs, "nowhere"));
    assert_eq!(h.inode, d);
    let names: Vec<Vec<u8>> = h.getdents(&mut k.fs).into_iter().map(|e| e.name).collect();
    assert_eq!(names, vec![b".".to_vec(), b"..".to_vec()]);
}

#[test]
fn pid_time_and_cwd_calls() {
    let mut k = kernel();
    assert_eq!(syscall(&mut k, SYSCALL_GETPID, [0, 0, 0], &mut []), 0);
    k.now_ms = 3_250_000;
    let mut tv = [0u8; 16];
    assert_eq!(syscall(&mut k, SYSCALL_GET_TIME, [0, 0, 0], &mut tv), 0);
    assert_eq!(u64::from_le_bytes(tv[0..8].try_into().unwrap()), 3);
    assert_eq!(u64::from_le_bytes(tv[8..16].try_into().unwrap()), 250_000);
    let mut small = [0u8; 8];
    assert_eq!(syscall(&mut k, SYSCALL_GET_TIME, [0, 0, 0], &mut small), -1);
    let root = k.fs.root_inode();
    root.create_dir(&mut k.fs, "home").unwrap();
    let mut p = path("home");
    assert_eq!(syscall(&mut k, SYSCALL_CHDIR, [0, 0, 0], &mut p), 0);
    let mut cwd = [0xffu8; 32];
    assert_eq!(syscall(&mut k, SYSCALL_GETCWD, [0, 0, 0], &mut cwd), 5);
    assert_eq!(&cwd[..6], b"/home\0");
    let mut tiny = [0u8; 3];
    assert_eq!(syscall(&mut k, SYSCALL_GETCWD, [0, 0, 0], &mut tiny), -1);
}
