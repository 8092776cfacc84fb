use easy_fs::block_dev::MemoryDevice;
use easy_fs::efs::EasyFileSystem;
use easy_fs::vfs::Inode;
use easy_fs::BLOCK_SZ;

fn fresh_fs() -> EasyFileSystem<MemoryDevice> {
    let device = MemoryDevice::new(8192);
    let efs = EasyFileSystem::create(device, 4096, 1).unwrap();
    let device = efs.into_device();
    EasyFileSystem::open(device).unwrap()
}

fn read_string(efs: &mut EasyFileSystem<MemoryDevice>, file: &Inode) -> String {
    let mut read_buffer = [0u8; 512];
    let mut offset = 0usize;
    let mut read_str = String::new();
    loop {
        let len = file.read_at(efs, offset, &mut read_buffer);
        if len == 0 {
            break;
        }
        offset += len;
        read_str.push_str(core::str::from_utf8(&read_buffer[..len]).unwrap());
    }
    read_str
}

fn tree(efs: &mut EasyFileSystem<MemoryDevice>, inode: &Inode, name: &str, depth: usize) {
    println!("{}{}", "  ".repeat(depth), name);
    for name in inode.ls(efs) {
        if name == "." || name == ".." {
            continue;
        }
        let child = inode.find(efs, &name).unwrap();
        if child == *inode {
            continue;
        }
        tree(efs, &child, &name, depth + 1);
    }
}

fn random_str_test(efs: &mut EasyFileSystem<MemoryDevice>, filea: &Inode, buffer: &mut [u8], len: usize) {
    filea.clear(efs);
    assert_eq!(filea.read_at(efs, 0, buffer), 0,);
    let mut str = String::new();
    for _ in 0..len {
        str.push(char::from('0' as u8 + rand::random::<u8>() % 10));
    }
    filea.write_at(efs, 0, str.as_bytes());
    let mut read_buffer = [0u8; 127];
    let mut offset = 0usize;
    let mut read_str = String::new();
    loop {
        let len = filea.read_at(efs, offset, &mut read_buffer);
        if len == 0 {
            break;
        }
        offset += len;
        read_str.push_str(core::str::from_utf8(&read_buffer[..len]).unwrap());
    }
    assert_eq!(str, read_str);
}

#[test]
fn efs_test() {
    let mut efs = fresh_fs();
    let root_inode = efs.root_inode();
    root_inode.create(&mut efs, "filea");
    root_inode.create(&mut efs, "fileb");
    for name in root_inode.ls(&mut efs) {
        println!("{}", name);
    }
    let filea = root_inode.find(&mut efs, "filea").unwrap();
    let greet_str = "Hello, world!";
    filea.write_at(&mut efs, 0, greet_str.as_bytes());
    let mut buffer = [0u8; 233];
    let len = filea.read_at(&mut efs, 0, &mut buffer);
    assert_eq!(greet_str, core::str::from_utf8(&buffer[..len]).unwrap(),);

    random_str_test(&mut efs, &filea, &mut buffer, 4 * BLOCK_SZ);
    random_str_test(&mut efs, &filea, &mut buffer, 8 * BLOCK_SZ + BLOCK_SZ / 2);
    random_str_test(&mut efs, &filea, &mut buffer, 100 * BLOCK_SZ);
    random_str_test(&mut efs, &filea, &mut buffer, 70 * BLOCK_SZ + BLOCK_SZ / 7);
    random_str_test(&mut efs, &filea, &mut buffer, (12 + 128) * BLOCK_SZ);
    random_str_test(&mut efs, &filea, &mut buffer, 400 * BLOCK_SZ);
    random_str_test(&mut efs, &filea, &mut buffer, 1000 * BLOCK_SZ);
    random_str_test(&mut efs, &filea, &mut buffer, 2000 * BLOCK_SZ);
}

#[test]
fn efs_dir_test() {
    let mut efs = fresh_fs();
    let root = efs.root_inode();

    let root_parent = root.get_parent(&mut efs);
    assert!(root_parent.is_none());

    root.create(&mut efs, "f1");
    root.create(&mut efs, "f2");

    let d1 = root.create_dir(&mut efs, "d1").unwrap();

    let f3 = d1.create(&mut efs, "f3").unwrap();
    let d2 = d1.create_dir(&mut efs, "d2").unwrap();
    let f4 = d2.create(&mut efs, "f4").unwrap();
    assert_eq!(d2.find(&mut efs, ".").unwrap().get_block_id(), d2.get_block_id());
    tree(&mut efs, &root, "/", 0);

    let f3_content = "3333333";
    let f4_content = "4444444444444444444";
    f3.write_at(&mut efs, 0, f3_content.as_bytes());
    f4.write_at(&mut efs, 0, f4_content.as_bytes());

    let x = d1.find(&mut efs, "f3").unwrap();
    assert_eq!(read_string(&mut efs, &x), f3_content);
    let x = root.find(&mut efs, "/d1/f3").unwrap();
    assert_eq!(read_string(&mut efs, &x), f3_content);
    let x = d2.find(&mut efs, "f4").unwrap();
    assert_eq!(read_string(&mut efs, &x), f4_content);
    let x = d1.find(&mut efs, "d2/f4").unwrap();
    assert_eq!(read_string(&mut efs, &x), f4_content);
    let x = root.find(&mut efs, "/d1/d2/f4").unwrap();
    assert_eq!(read_string(&mut efs, &x), f4_content);
    assert!(f3.find(&mut efs, "whatever").is_none());
}

#[test]
fn hello_world_reads_back_exactly() {
    let device = MemoryDevice::new(4096);
    let mut efs = EasyFileSystem::create(device, 4096, 1).unwrap();
    let root = efs.root_inode();
    assert!(root.create(&mut efs, "filea").is_some());
    assert!(root.create(&mut efs, "fileb").is_some());
    let filea = root.find(&mut efs, "filea").unwrap();
    assert_eq!(filea.write_at(&mut efs, 0, b"Hello, world!"), 13);
    let mut buffer = [0u8; 233];
    let len = filea.read_at(&mut efs, 0, &mut buffer);
    assert_eq!(len, 13);
    assert_eq!(&buffer[..len], b"Hello, world!");
    assert!(buffer[len..].iter().all(|b| *b == 0));
}

#[test]
fn creating_an_existing_name_changes_nothing() {
    let mut efs = fresh_fs();
    let root = efs.root_inode();
    assert!(root.create(&mut efs, "a").is_some());
    let before = root.ls(&mut efs);
    assert!(root.create(&mut efs, "a").is_none());
    assert!(root.create_dir(&mut efs, "a").is_none());
    assert_eq!(root.ls(&mut efs), before);
    assert_eq!(before, vec!["a".to_string()]);
}

#[test]
fn fresh_directory_lists_only_self_and_parent() {
    let mut efs = fresh_fs();
    let root = efs.root_inode();
    let d = root.create_dir(&mut efs, "d").unwrap();
    assert_eq!(d.ls(&mut efs), vec![".".to_string(), "..".to_string()]);
    assert_eq!(d.get_parent(&mut efs), Some(root));
    assert_eq!(root.ls(&mut efs), vec!["d".to_string()]);
}

#[test]
fn path_resolution_matches_step_by_step() {
    let mut efs = fresh_fs();
    let root = efs.root_inode();
    let d1 = root.create_dir(&mut efs, "d1").unwrap();
    let d2 = d1.create_dir(&mut efs, "d2").unwrap();
    let f4 = d2.create(&mut efs, "f4").unwrap();
    let whole = root.find(&mut efs, "/d1/d2/f4").unwrap();
    let a = root.find(&mut efs, "d1").unwrap();
    let b = a.find(&mut efs, "d2").unwrap();
    let c = b.find(&mut efs, "f4").unwrap();
    assert_eq!(whole, c);
    assert_eq!(whole, f4);
    assert_eq!(root.find(&mut efs, "//d1///d2/f4/"), Some(f4));
    assert_eq!(root.find(&mut efs, "/d1/f4"), None);
    assert_eq!(root.find(&mut efs, "/d1/d2/f4/x"), None);
    assert_eq!(d2.find(&mut efs, "../d2/./f4"), Some(f4));
}

#[test]
fn inode_allocation_reuses_freed_numbers_first() {
    let mut efs = fresh_fs();
    // inode 0 is the root
    let mut ids = Vec::new();
    for _ in 0..10 {
        ids.push(efs.alloc_inode().unwrap());
    }
    assert_eq!(ids, (1..11).collect::<Vec<u32>>());
    for id in ids.iter().step_by(2) {
        efs.dealloc_inode(*id);
    }
    let mut again = Vec::new();
    for _ in 0..5 {
        again.push(efs.alloc_inode().unwrap());
    }
    assert_eq!(again, vec![1, 3, 5, 7, 9]);
    assert_eq!(efs.alloc_inode(), Some(11));
}

#[test]
fn data_allocation_reuses_freed_blocks_first() {
    let mut efs = fresh_fs();
    let start = efs.data_area_start_block;
    let mut blocks = Vec::new();
    for _ in 0..8 {
        blocks.push(efs.alloc_data().unwrap());
    }
    assert_eq!(blocks, (start..start + 8).collect::<Vec<u32>>());
    efs.dealloc_data(blocks[5]);
    efs.dealloc_data(blocks[2]);
    assert_eq!(efs.alloc_data(), Some(start + 2));
    assert_eq!(efs.alloc_data(), Some(start + 5));
    assert_eq!(efs.alloc_data(), Some(start + 8));
}

#[test]
fn data_area_exhaustion_is_reported() {
    let device = MemoryDevice::new(1100);
    let mut efs = EasyFileSystem::create(device, 1100, 1).unwrap();
    // 1100 - 1 - 1025 = 74 blocks: 1 data bitmap block and 73 data blocks
    assert_eq!(efs.data_area_blocks, 73);
    for _ in 0..73 {
        assert!(efs.alloc_data().is_some());
    }
    assert_eq!(efs.alloc_data(), None);
    let root = efs.root_inode();
    let f = root.create(&mut efs, "big");
    assert!(f.is_none());
}

#[test]
fn clear_frees_every_block_and_reads_nothing() {
    let mut efs = fresh_fs();
    let root = efs.root_inode();
    let f = root.create(&mut efs, "f").unwrap();
    let first_free = {
        let b = efs.alloc_data().unwrap();
        efs.dealloc_data(b);
        b
    };
    let data = vec![7u8; 200 * BLOCK_SZ];
    assert_eq!(f.write_at(&mut efs, 0, &data), data.len());
    f.clear(&mut efs);
    let mut buf = [0u8; 16];
    assert_eq!(f.read_at(&mut efs, 0, &mut buf), 0);
    // every block went back: allocation starts over at the same place
    assert_eq!(efs.alloc_data(), Some(first_free));
}

#[test]
fn write_past_end_grows_and_read_is_bounded() {
    let mut efs = fresh_fs();
    let root = efs.root_inode();
    let f = root.create(&mut efs, "f").unwrap();
    assert_eq!(f.write_at(&mut efs, 10, b"abc"), 3);
    let mut buf = [9u8; 20];
    assert_eq!(f.read_at(&mut efs, 0, &mut buf), 13);
    assert_eq!(&buf[10..13], b"abc");
    assert_eq!(buf[13], 9);
    assert_eq!(f.read_at(&mut efs, 13, &mut buf), 0);
    assert_eq!(f.read_at(&mut efs, 100, &mut buf), 0);
}

#[test]
fn directories_refuse_file_operations() {
    let mut efs = fresh_fs();
    let root = efs.root_inode();
    let f = root.create(&mut efs, "f").unwrap();
    assert!(root.is_dir(&mut efs) && !root.is_file(&mut efs));
    assert!(f.is_file(&mut efs) && !f.is_dir(&mut efs));
    assert!(f.ls(&mut efs).is_empty());
    assert!(f.find(&mut efs, "g").is_none());
    assert!(f.get_parent(&mut efs).is_none());
}

#[test]
fn names_are_bounded() {
    let mut efs = fresh_fs();
    let root = efs.root_inode();
    let longest = "n".repeat(27);
    assert!(root.create(&mut efs, &longest).is_some());
    assert!(root.find(&mut efs, &longest).is_some());
    assert!(root.create(&mut efs, &"n".repeat(28)).is_none());
}

#[test]
fn create_rejects_layouts_that_do_not_fit() {
    assert!(EasyFileSystem::create(MemoryDevice::new(100), 200, 1).is_none());
    assert!(EasyFileSystem::create(MemoryDevice::new(2000), 1000, 1).is_none());
    assert!(EasyFileSystem::create(MemoryDevice::new(2000), 2000, 0).is_none());
    assert!(EasyFileSystem::create(MemoryDevice::new(1026), 1026, 1).is_some());
}

#[test]
fn open_needs_a_super_block() {
    assert!(EasyFileSystem::open(MemoryDevice::new(64)).is_none());
    let efs = EasyFileSystem::create(MemoryDevice::new(4096), 4096, 1).unwrap();
    let device = efs.into_device();
    let efs = EasyFileSystem::open(device).unwrap();
    assert_eq!(efs.inode_area_start_block, 2);
    assert_eq!(efs.data_area_start_block, 1027);
    assert_eq!(efs.data_area_blocks, 3069);
    assert_eq!(efs.root_inode(), Inode::new(2, 0));
}

#[test]
fn data_survives_remount() {
    let mut efs = fresh_fs();
    let root = efs.root_inode();
    let d = root.create_dir(&mut efs, "docs").unwrap();
    let f = d.create(&mut efs, "note").unwrap();
    f.write_at(&mut efs, 0, b"kept");
    let device = efs.into_device();
    let mut efs = EasyFileSystem::open(device).unwrap();
    let root = efs.root_inode();
    let f = root.find(&mut efs, "docs/note").unwrap();
    let mut buf = [0u8; 8];
    let n = f.read_at(&mut efs, 0, &mut buf);
    assert_eq!(&buf[..n], b"kept");
}

#[test]
fn current_inode_ids_follow_dot_entries() {
    let mut efs = fresh_fs();
    let root = efs.root_inode();
    assert!(root.is_root(&efs));
    assert_eq!(root.get_current_inode_id(&mut efs), Some(0));
    let d = root.create_dir(&mut efs, "d").unwrap();
    assert!(!d.is_root(&efs));
    assert_eq!(d.get_current_inode_id(&mut efs), Some(1));
    assert_eq!(d.find(&mut efs, ".."), Some(root));
}

#[test]
fn directories_know_their_names_and_paths() {
    let mut efs = fresh_fs();
    let root = efs.root_inode();
    assert_eq!(root.get_name(&mut efs), Some("/".to_string()));
    assert_eq!(root.cwd(&mut efs), "/");
    let d1 = root.create_dir(&mut efs, "d1").unwrap();
    let d2 = d1.create_dir(&mut efs, "d2").unwrap();
    assert_eq!(d1.get_name(&mut efs), Some("d1".to_string()));
    assert_eq!(d2.get_name(&mut efs), Some("d2".to_string()));
    assert_eq!(d1.cwd(&mut efs), "/d1");
    assert_eq!(d2.cwd(&mut efs), "/d1/d2");
    let f = d2.create(&mut efs, "f").unwrap();
    assert_eq!(f.get_name(&mut efs), None);
}

#[test]
fn empty_or_zero_names_are_refused() {
    let mut efs = fresh_fs();
    let root = efs.root_inode();
    assert!(root.create(&mut efs, "").is_none());
    assert!(root.create(&mut efs, "a\0b").is_none());
    assert!(root.ls(&mut efs).is_empty());
}

#[test]
fn free_data_counts_blocks_left() {
    let mut efs = fresh_fs();
    assert_eq!(efs.free_data_count(), 3069);
    let root = efs.root_inode();
    let f = root.create(&mut efs, "f").unwrap();
    // the root directory took one block for its first entry
    assert_eq!(efs.free_data_count(), 3068);
    f.write_at(&mut efs, 0, &[1u8; 600]);
    assert_eq!(efs.free_data_count(), 3066);
    f.write_at(&mut efs, 10, &[2u8; 100]);
    assert_eq!(efs.free_data_count(), 3066);
    f.clear(&mut efs);
    assert_eq!(efs.free_data_count(), 3068);
}

#[test]
fn other_files_survive_later_steps() {
    let mut efs = fresh_fs();
    let root = efs.root_inode();
    let a = root.create(&mut efs, "a").unwrap();
    a.write_at(&mut efs, 0, b"first");
    let b = root.create(&mut efs, "b").unwrap();
    b.write_at(&mut efs, 0, &[9u8; 3000]);
    let d = root.create_dir(&mut efs, "d").unwrap();
    d.create(&mut efs, "c").unwrap();
    b.clear(&mut efs);
    let mut buf = [0u8; 16];
    let n = a.read_at(&mut efs, 0, &mut buf);
    assert_eq!(&buf[..n], b"first");
    assert_eq!(root.ls(&mut efs), vec!["a".to_string(), "b".to_string(), "d".to_string()]);
    assert_eq!(d.cwd(&mut efs), "/d");
}

#[test]
fn create_dir_needs_room_for_its_own_entries() {
    let device = MemoryDevice::new(1100);
    let mut efs = EasyFileSystem::create(device, 1100, 1).unwrap();
    for _ in 0..72 {
        assert!(efs.alloc_data().is_some());
    }
    assert_eq!(efs.free_data_count(), 1);
    let root = efs.root_inode();
    assert!(root.create_dir(&mut efs, "d").is_none());
    assert!(root.ls(&mut efs).is_empty());
    assert!(root.create(&mut efs, "f").is_some());
}
