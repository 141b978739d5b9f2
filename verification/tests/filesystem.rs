use easy_fs::bitmap::Bitmap;
use easy_fs::block_cache::BlockCache;
use easy_fs::block_dev::MemDisk;
use easy_fs::layout::DiskInode;
use easy_fs::layout::DiskInodeType;
use easy_fs::layout::SuperBlock;

fn fresh_cache(num_blocks: usize) -> BlockCache<MemDisk> {
    BlockCache::new(MemDisk::new(num_blocks))
}

fn fresh_inode() -> DiskInode {
    let mut inode = DiskInode {
        size: 0,
        direct: [0; 28],
        indirect1: 0,
        indirect2: 0,
        type_: DiskInodeType::Directory,
    };
    inode.initialize(DiskInodeType::File);
    inode
}

#[test]
fn superblock_initialize_and_validity() {
    let mut sb = SuperBlock {
        magic: 0,
        total_blocks: 0,
        inode_bitmap_blocks: 0,
        inode_area_blocks: 0,
        data_bitmap_blocks: 0,
        data_area_blocks: 0,
    };
    assert!(!sb.is_valid());
    sb.initialize(4096, 1, 16, 1, 4077);
    assert!(sb.is_valid());
    assert_eq!(sb.magic, 0x3b800001);
    assert_eq!(sb.total_blocks, 4096);
    assert_eq!(sb.inode_bitmap_blocks, 1);
    assert_eq!(sb.inode_area_blocks, 16);
    assert_eq!(sb.data_bitmap_blocks, 1);
    assert_eq!(sb.data_area_blocks, 4077);
}

#[test]
fn superblock_record_round_trips() {
    let mut sb = SuperBlock {
        magic: 0,
        total_blocks: 0,
        inode_bitmap_blocks: 0,
        inode_area_blocks: 0,
        data_bitmap_blocks: 0,
        data_area_blocks: 0,
    };
    sb.initialize(4096, 1, 16, 1, 4077);
    let bytes = sb.to_bytes();
    assert_eq!(bytes.len(), 24);
    // The magic marker 0x3b800001 is stored little-endian.
    assert_eq!(&bytes[0..4], &[0x01, 0x00, 0x80, 0x3b]);
    let parsed = SuperBlock::from_bytes(&bytes).unwrap();
    assert!(parsed.is_valid());
    assert_eq!(parsed.total_blocks, 4096);
    assert_eq!(parsed.data_area_blocks, 4077);
    assert_eq!(parsed.to_bytes(), bytes);
    assert!(SuperBlock::from_bytes(&bytes[..23].to_vec()).is_none());
}

#[test]
fn inode_record_round_trips() {
    let mut inode = fresh_inode();
    inode.size = 100_000;
    inode.direct[0] = 7;
    inode.direct[27] = 0xdead_beef;
    inode.indirect1 = 42;
    inode.indirect2 = 43;
    let bytes = inode.to_bytes();
    assert_eq!(bytes.len(), 125);
    assert_eq!(bytes[124], 0, "an ordinary file carries tag 0");
    assert_eq!(&bytes[4..8], &[7, 0, 0, 0]);
    let parsed = DiskInode::from_bytes(&bytes).unwrap();
    assert_eq!(parsed.size, 100_000);
    assert_eq!(parsed.direct, inode.direct);
    assert_eq!(parsed.indirect1, 42);
    assert_eq!(parsed.indirect2, 43);
    assert!(parsed.is_file());
    assert_eq!(parsed.to_bytes(), bytes);
    // A directory carries tag 1.
    inode.type_ = DiskInodeType::Directory;
    assert_eq!(inode.to_bytes()[124], 1);
    // Unknown tags and wrong lengths are rejected.
    let mut bad = bytes.clone();
    bad[124] = 9;
    assert!(DiskInode::from_bytes(&bad).is_none());
    assert!(DiskInode::from_bytes(&bytes[..100].to_vec()).is_none());
}

#[test]
fn bitmap_serves_every_bit_then_reports_exhaustion() {
    // A bitmap region of 2 blocks holds 8192 bits: 8192 allocations
    // succeed with exactly the numbers 0..8191 in order, the next fails.
    let mut cache = fresh_cache(3);
    let bitmap = Bitmap::new(1, 2);
    assert_eq!(bitmap.maximum(), 8192);
    for expected in 0..8192usize {
        let got = bitmap.alloc_bit(&mut cache);
        assert_eq!(got, Some(expected));
    }
    assert_eq!(bitmap.alloc_bit(&mut cache), None);
}

#[test]
fn bitmap_allocates_lowest_free_bit() {
    let mut cache = fresh_cache(2);
    let bitmap = Bitmap::new(0, 1);
    assert_eq!(bitmap.alloc_bit(&mut cache), Some(0));
    assert_eq!(bitmap.alloc_bit(&mut cache), Some(1));
    assert_eq!(bitmap.alloc_bit(&mut cache), Some(2));
    bitmap.dealloc(&mut cache, 1);
    // The freed bit is the lowest free one again.
    assert_eq!(bitmap.alloc_bit(&mut cache), Some(1));
    // And it is never handed out while still allocated.
    assert_eq!(bitmap.alloc_bit(&mut cache), Some(3));
}

#[test]
fn bitmap_dealloc_across_words_and_blocks() {
    let mut cache = fresh_cache(3);
    let bitmap = Bitmap::new(1, 2);
    for _ in 0..200 {
        bitmap.alloc_bit(&mut cache).unwrap();
    }
    bitmap.dealloc(&mut cache, 77);
    bitmap.dealloc(&mut cache, 130);
    assert_eq!(bitmap.alloc_bit(&mut cache), Some(77));
    assert_eq!(bitmap.alloc_bit(&mut cache), Some(130));
    assert_eq!(bitmap.alloc_bit(&mut cache), Some(200));
}

#[test]
fn cache_words_round_trip_little_endian() {
    let mut cache = fresh_cache(2);
    cache.write_u32(0, 8, 0x0102_0304);
    assert_eq!(cache.read_u32(0, 8), 0x0102_0304);
    let bytes = cache.read(0, 8, 4);
    assert_eq!(bytes, vec![0x04, 0x03, 0x02, 0x01]);
    cache.write_u64(1, 0, 0xdead_beef_cafe_f00d);
    assert_eq!(cache.read_u64(1, 0), 0xdead_beef_cafe_f00d);
    cache.flush_all();
    assert_eq!(cache.read_u32(0, 8), 0x0102_0304);
    assert_eq!(cache.read_u64(1, 0), 0xdead_beef_cafe_f00d);
}

#[test]
fn total_blocks_boundary_arithmetic() {
    // 28 direct blocks fit without any index block.
    assert_eq!(DiskInode::total_blocks(28 * 512), 28);
    // One byte more needs a 29th data block plus the indirect1 block.
    assert_eq!(DiskInode::total_blocks(28 * 512 + 1), 30);
    assert_eq!(DiskInode::total_blocks(0), 0);
    assert_eq!(DiskInode::total_blocks(1), 1);
    assert_eq!(DiskInode::total_blocks(512), 1);
    assert_eq!(DiskInode::total_blocks(513), 2);
    // Crossing into indirect2 territory adds the indirect2 block and a
    // first-level block.
    assert_eq!(DiskInode::total_blocks(156 * 512), 156 + 1);
    assert_eq!(DiskInode::total_blocks(156 * 512 + 1), 157 + 1 + 1 + 1);
}

#[test]
fn total_blocks_monotone_spot_checks() {
    let mut previous = 0;
    for size in (0..200_000u32).step_by(7_919) {
        let t = DiskInode::total_blocks(size);
        assert!(t >= previous);
        previous = t;
    }
}

#[test]
fn inode_initialize_zeroes_everything() {
    let inode = fresh_inode();
    assert_eq!(inode.size, 0);
    assert!(inode.is_file());
    assert!(!inode.is_dir());
    assert_eq!(inode.data_blocks(), 0);
    assert_eq!(inode.direct, [0u32; 28]);
    assert_eq!(inode.indirect1, 0);
    assert_eq!(inode.indirect2, 0);
}

#[test]
fn blocks_num_needed_matches_total_blocks() {
    let mut inode = fresh_inode();
    assert_eq!(inode.blocks_num_needed(100_000), DiskInode::total_blocks(100_000));
    inode.size = 28 * 512;
    assert_eq!(
        inode.blocks_num_needed(28 * 512 + 1),
        DiskInode::total_blocks(28 * 512 + 1) - 28
    );
}

/// Grow an inode to `new_size`, supplying fresh identifiers starting at
/// `first_id`; returns the supplied identifiers.
fn grow(
    inode: &mut DiskInode,
    cache: &mut BlockCache<MemDisk>,
    new_size: u32,
    first_id: u32,
) -> Vec<u32> {
    let needed = inode.blocks_num_needed(new_size);
    let ids: Vec<u32> = (first_id..first_id + needed).collect();
    inode.increase_size(new_size, ids.clone(), cache);
    ids
}

#[test]
fn growing_consumes_exactly_the_computed_count() {
    // Growing from empty to 100000 bytes consumes exactly
    // total_blocks(100000) identifiers, and every logical index then
    // resolves to one of them, with no collisions.
    let mut cache = fresh_cache(400);
    let mut inode = fresh_inode();
    let ids = grow(&mut inode, &mut cache, 100_000, 100);
    assert_eq!(ids.len() as u32, DiskInode::total_blocks(100_000));
    let data_blocks = inode.data_blocks();
    let mut seen = Vec::new();
    for i in 0..data_blocks {
        let id = inode.get_block_id(i, &mut cache);
        assert!(ids.contains(&id), "index {} resolved outside the supplied set", i);
        assert!(!seen.contains(&id), "index {} collided", i);
        seen.push(id);
    }
}

#[test]
fn grow_then_clear_returns_exactly_the_supplied_ids() {
    let mut cache = fresh_cache(400);
    let mut inode = fresh_inode();
    let ids = grow(&mut inode, &mut cache, 100_000, 42);
    let returned = inode.clear_size(&mut cache);
    assert_eq!(returned, ids);
    assert_eq!(inode.size, 0);
    assert_eq!(inode.data_blocks(), 0);
    assert_eq!(inode.indirect1, 0);
    assert_eq!(inode.indirect2, 0);
    assert_eq!(inode.direct, [0u32; 28]);
}

#[test]
fn grow_in_two_steps_preserves_earlier_ids() {
    let mut cache = fresh_cache(400);
    let mut inode = fresh_inode();
    let first = grow(&mut inode, &mut cache, 10_000, 50);
    let second = grow(&mut inode, &mut cache, 90_000, 210);
    let returned = inode.clear_size(&mut cache);
    let mut expected = first.clone();
    expected.extend_from_slice(&second);
    assert_eq!(returned, expected);
}

#[test]
fn write_then_read_round_trip() {
    // For an in-bounds byte range, write_at followed by read_at returns
    // the data unchanged.
    let mut cache = fresh_cache(400);
    let mut inode = fresh_inode();
    grow(&mut inode, &mut cache, 100_000, 7);
    let data: Vec<u8> = (0..60_000u32).map(|i| (i * 31 % 251) as u8).collect();
    let written = inode.write_at(1_234, &data, &mut cache);
    assert_eq!(written, data.len());
    let mut buf = vec![0u8; data.len()];
    let read = inode.read_at(1_234, &mut buf, &mut cache);
    assert_eq!(read, data.len());
    assert_eq!(buf, data);
}

#[test]
fn read_and_write_clip_to_size() {
    let mut cache = fresh_cache(50);
    let mut inode = fresh_inode();
    grow(&mut inode, &mut cache, 1_000, 3);
    // Reading past the end yields nothing and leaves the buffer alone.
    let mut buf = vec![9u8; 16];
    assert_eq!(inode.read_at(1_000, &mut buf, &mut cache), 0);
    assert_eq!(inode.read_at(2_000, &mut buf, &mut cache), 0);
    assert_eq!(buf, vec![9u8; 16]);
    // A straddling read stops at the size.
    let written = inode.write_at(0, &vec![5u8; 1_000], &mut cache);
    assert_eq!(written, 1_000);
    let mut buf2 = vec![0u8; 64];
    assert_eq!(inode.read_at(990, &mut buf2, &mut cache), 10);
    assert_eq!(&buf2[..10], &[5u8; 10]);
    assert_eq!(&buf2[10..], &[0u8; 54]);
    // A straddling write also stops at the size.
    assert_eq!(inode.write_at(990, &vec![8u8; 64], &mut cache), 10);
}

#[test]
fn writes_survive_cache_eviction_and_flush() {
    // Far more blocks than cache slots, so eviction with write-back is
    // exercised; flush then makes everything durable on the device.
    let mut cache = fresh_cache(400);
    let mut inode = fresh_inode();
    grow(&mut inode, &mut cache, 100_000, 11);
    let data: Vec<u8> = (0..100_000u32).map(|i| (i % 241) as u8).collect();
    assert_eq!(inode.write_at(0, &data, &mut cache), 100_000);
    cache.flush_all();
    let mut buf = vec![0u8; 100_000];
    assert_eq!(inode.read_at(0, &mut buf, &mut cache), 100_000);
    assert_eq!(buf, data);
}

#[test]
fn double_indirect_resolution_reads_back_per_block() {
    let mut cache = fresh_cache(400);
    let mut inode = fresh_inode();
    grow(&mut inode, &mut cache, 100_000, 13);
    // Write one marked byte into a block addressed through each tier.
    for &index in &[0u32, 27, 28, 155, 156, 180] {
        let offset = index as usize * 512;
        let payload = vec![index as u8 + 1];
        assert_eq!(inode.write_at(offset, &payload, &mut cache), 1);
    }
    for &index in &[0u32, 27, 28, 155, 156, 180] {
        let mut buf = vec![0u8; 1];
        assert_eq!(inode.read_at(index as usize * 512, &mut buf, &mut cache), 1);
        assert_eq!(buf[0], index as u8 + 1);
    }
}
