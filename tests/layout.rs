use easy_fs::bitmap::Bitmap;
use easy_fs::block_cache::BlockCache;
use easy_fs::block_dev::{BlockDevice, MemoryDevice};
use easy_fs::disk_inode::DiskInode;
use easy_fs::layout::{read_u32, write_u32, DirEntry, DiskInodeType, SuperBlock};

#[test]
fn u32_codec_is_little_endian() {
    let mut b = [0u8; 8];
    write_u32(&mut b, 2, 0x1234_5678);
    assert_eq!(b, [0, 0, 0x78, 0x56, 0x34, 0x12, 0, 0]);
    assert_eq!(read_u32(&b, 2), 0x1234_5678);
}

#[test]
fn total_blocks_counts_index_blocks() {
    assert_eq!(DiskInode::total_blocks(0), 0);
    assert_eq!(DiskInode::total_blocks(1), 1);
    assert_eq!(DiskInode::total_blocks(512), 1);
    assert_eq!(DiskInode::total_blocks(513), 2);
    assert_eq!(DiskInode::total_blocks(28 * 512), 28);
    assert_eq!(DiskInode::total_blocks(29 * 512), 30);
    assert_eq!(DiskInode::total_blocks(156 * 512), 157);
    assert_eq!(DiskInode::total_blocks(157 * 512), 160);
    assert_eq!(DiskInode::total_blocks(284 * 512), 287);
    assert_eq!(DiskInode::total_blocks(285 * 512), 289);
    let mut inode = DiskInode::new(DiskInodeType::File);
    assert_eq!(inode.blocks_num_needed(157 * 512), 160);
    inode.size = 100;
    assert_eq!(inode.blocks_num_needed(29 * 512), 29);
}

#[test]
fn super_block_round_trips() {
    let sb = SuperBlock::new(4096, 1, 1024, 1, 3069);
    assert!(sb.is_valid());
    let bytes = sb.encode();
    assert_eq!(bytes.len(), 24);
    assert_eq!(&bytes[0..4], &[0x01, 0x00, 0x80, 0x3b]);
    assert_eq!(SuperBlock::decode(&bytes), sb);
    let mut bad = bytes.clone();
    bad[0] = 0;
    assert!(!SuperBlock::decode(&bad).is_valid());
}

#[test]
fn disk_inode_round_trips() {
    let mut inode = DiskInode::new(DiskInodeType::Directory);
    inode.size = 4242;
    inode.direct[3] = 77;
    inode.indirect1 = 9;
    inode.indirect2 = 10;
    let bytes = inode.encode();
    assert_eq!(bytes.len(), 128);
    assert_eq!(bytes[124], 1);
    let back = DiskInode::decode(&bytes, 0);
    assert_eq!(back.size, 4242);
    assert_eq!(back.direct[3], 77);
    assert_eq!(back.indirect1, 9);
    assert_eq!(back.indirect2, 10);
    assert!(back.is_dir());
    assert!(!back.is_file());
}

#[test]
fn dir_entry_round_trips() {
    let e = DirEntry::new(b"hello", 42);
    let bytes = e.encode();
    assert_eq!(bytes.len(), 32);
    assert_eq!(&bytes[0..6], b"hello\0");
    let back = DirEntry::decode(&bytes, 0);
    assert_eq!(back.name(), b"hello".to_vec());
    assert_eq!(back.inode_number(), 42);
}

#[test]
fn cache_writes_back_on_sync_and_eviction() {
    let mut cache = BlockCache::new(MemoryDevice::new(40));
    cache.write(3, 10, b"abc");
    assert_eq!(cache.read(3, 9, 5), vec![0, b'a', b'b', b'c', 0]);
    let mut raw = [0u8; 512];
    cache.device().read_block(3, &mut raw);
    assert_eq!(&raw[10..13], &[0, 0, 0]);
    cache.sync_all();
    cache.device().read_block(3, &mut raw);
    assert_eq!(&raw[10..13], b"abc");
    // touching more blocks than the cache holds pushes block 5 out
    cache.write(5, 0, b"z");
    for b in 10..30 {
        cache.read(b, 0, 1);
    }
    cache.device().read_block(5, &mut raw);
    assert_eq!(raw[0], b'z');
    assert_eq!(cache.read(5, 0, 1), vec![b'z']);
    // beyond the device: zeros, and writes are dropped
    cache.write(100, 0, b"q");
    assert_eq!(cache.read(100, 0, 2), vec![0, 0]);
}

#[test]
fn bitmap_is_first_fit() {
    let mut cache = BlockCache::new(MemoryDevice::new(4));
    let bm = Bitmap::new(1, 2);
    assert_eq!(bm.maximum(), 8192);
    for i in 0..70 {
        assert_eq!(bm.allocate(&mut cache), Some(i));
    }
    bm.deallocate(&mut cache, 64);
    bm.deallocate(&mut cache, 3);
    assert!(!bm.is_set(&mut cache, 3));
    assert!(bm.is_set(&mut cache, 4));
    assert_eq!(bm.allocate(&mut cache), Some(3));
    assert_eq!(bm.allocate(&mut cache), Some(64));
    assert_eq!(bm.allocate(&mut cache), Some(70));
    let full = Bitmap::new(3, 1);
    for _ in 0..4096 {
        assert!(full.allocate(&mut cache).is_some());
    }
    assert_eq!(full.allocate(&mut cache), None);
}

#[test]
fn increase_size_threads_blocks_in_index_order() {
    let mut cache = BlockCache::new(MemoryDevice::new(600));
    let mut inode = DiskInode::new(DiskInodeType::File);
    let size = 158 * 512;
    let needed = inode.blocks_num_needed(size) as usize;
    assert_eq!(needed, 161);
    let blocks: Vec<u32> = (200..200 + needed as u32).collect();
    inode.increase_size(size, &blocks, &mut cache);
    assert_eq!(inode.size, size);
    assert_eq!(inode.get_block_id(0, &mut cache), 200);
    assert_eq!(inode.get_block_id(27, &mut cache), 227);
    // block 228 became the indirect block
    assert_eq!(inode.indirect1, 228);
    assert_eq!(inode.get_block_id(28, &mut cache), 229);
    assert_eq!(inode.get_block_id(155, &mut cache), 356);
    // then the doubly-indirect block and its first block of pointers
    assert_eq!(inode.indirect2, 357);
    assert_eq!(inode.get_block_id(156, &mut cache), 359);
    assert_eq!(inode.get_block_id(157, &mut cache), 360);

    let data: Vec<u8> = (0..size as usize).map(|i| (i % 251) as u8).collect();
    assert_eq!(inode.write_at(0, &data, &mut cache), data.len());
    let mut back = vec![0u8; data.len() + 10];
    assert_eq!(inode.read_at(0, &mut back, &mut cache), data.len());
    assert_eq!(&back[..data.len()], &data[..]);

    let freed = inode.clear_size(&mut cache);
    assert_eq!(freed, blocks);
    assert_eq!(inode.size, 0);
}
