use os_mm::address::{PhysAddr, PhysPageNum, VirtAddr, VirtPageNum, PAGE_SIZE};
use os_mm::frame_allocator::{
    frame_alloc, frame_allocator_test, frame_dealloc, frame_remain_num, init_frame_allocator,
    FrameTracker, StackFrameAllocator,
};
use os_mm::memory::PhysMemory;
use os_mm::page_table::{PTEFlags, PageTable, PageTableEntry, FLAG_R, FLAG_U, FLAG_V, FLAG_W, FLAG_X};
use os_mm::translate::{translated_assign_ptr, translated_byte_buffer, translated_write_bytes};

fn setup(low: usize, high: usize) -> (StackFrameAllocator, PhysMemory) {
    let mut a = StackFrameAllocator::new();
    a.init(PhysPageNum(low), PhysPageNum(high));
    let mem = PhysMemory::new(low, high - low);
    (a, mem)
}

#[test]
fn allocator_range_lifo_scenario() {
    let (mut a, _mem) = setup(100, 105);
    let mut got = Vec::new();
    for _ in 0..5 {
        got.push(a.allocate().unwrap().0);
    }
    assert_eq!(got, vec![100, 101, 102, 103, 104]);
    assert!(a.allocate().is_none());
    a.dealloc(PhysPageNum(got[0]));
    assert_eq!(a.allocate().unwrap().0, got[0]);
}

#[test]
fn free_then_realloc_same_frames() {
    let (mut a, _mem) = setup(10, 20);
    let first: Vec<usize> = (0..4).map(|_| a.allocate().unwrap().0).collect();
    for p in &first {
        a.dealloc(PhysPageNum(*p));
    }
    let second: Vec<usize> = (0..4).map(|_| a.allocate().unwrap().0).collect();
    let mut rev = first.clone();
    rev.reverse();
    assert_eq!(second, rev);
    assert!(second.iter().all(|p| *p >= 10 && *p < 20));
}

#[test]
fn remaining_count_moves_by_one() {
    let (mut a, _mem) = setup(0, 3);
    assert_eq!(a.remain_num(), 3);
    let p = a.allocate().unwrap();
    assert_eq!(a.remain_num(), 2);
    a.dealloc(p);
    assert_eq!(a.remain_num(), 3);
    let q = a.allocate().unwrap();
    assert_eq!(q, p);
    assert_eq!(frame_remain_num(&a), 2);
    a.dealloc(q);
    assert_eq!(frame_remain_num(&a), 3);
    assert_eq!(a.allocate().map(|p| p.0), Some(0));
    assert_eq!(a.allocate().map(|p| p.0), Some(1));
    assert_eq!(a.allocate().map(|p| p.0), Some(2));
    assert_eq!(a.remain_num(), 0);
    assert!(a.allocate().is_none());
    assert_eq!(a.remain_num(), 0);
}

#[test]
fn is_allocated_tracks_outstanding() {
    let (mut a, _mem) = setup(5, 8);
    assert!(!a.is_allocated(PhysPageNum(5)));
    let p = a.allocate().unwrap();
    assert!(a.is_allocated(p));
    assert!(!a.is_allocated(PhysPageNum(6)));
    assert!(!a.is_allocated(PhysPageNum(4)));
    a.dealloc(p);
    assert!(!a.is_allocated(p));
}

#[test]
fn fresh_frame_is_zeroed() {
    let (mut a, mut mem) = setup(50, 52);
    let t = frame_alloc(&mut a, &mut mem).unwrap();
    let p = t.ppn();
    mem.write_bytes(p.0, 0, &[7u8; PAGE_SIZE]);
    assert!(mem.read_bytes(p.0, 0, PAGE_SIZE).iter().all(|b| *b == 7));
    t.release(&mut a);
    let t2 = frame_alloc(&mut a, &mut mem).unwrap();
    assert_eq!(t2.ppn(), p);
    assert!(mem.read_bytes(p.0, 0, PAGE_SIZE).iter().all(|b| *b == 0));
    frame_dealloc(&mut a, t2.ppn());
    assert_eq!(a.remain_num(), 2);
}

#[test]
fn frame_tracker_new_zeroes() {
    let mut mem = PhysMemory::new(0, 2);
    mem.write_bytes(1, 10, &[1, 2, 3]);
    mem.write_bytes(0, 0, &[9]);
    let t = FrameTracker::new(PhysPageNum(1), &mut mem);
    assert_eq!(t.ppn(), PhysPageNum(1));
    assert_eq!(mem.read_bytes(1, 10, 13), vec![0, 0, 0]);
    assert_eq!(mem.read_bytes(0, 0, 1), vec![9]);
}

#[test]
fn init_from_byte_addresses() {
    let mut a = StackFrameAllocator::new();
    assert_eq!(a.remain_num(), 0);
    init_frame_allocator(&mut a, PhysAddr(0x8020_1234), PhysAddr(0x8080_0000));
    assert_eq!(a.remain_num(), 0x80800 - 0x80202);
    assert_eq!(a.allocate().unwrap().0, 0x80202);
}

#[test]
fn address_conversions() {
    assert_eq!(PhysAddr(0x1fff).floor(), PhysPageNum(1));
    assert_eq!(PhysAddr(0x1fff).ceil(), PhysPageNum(2));
    assert_eq!(PhysAddr(0x2000).ceil(), PhysPageNum(2));
    assert_eq!(PhysAddr(0x2abc).page_offset(), 0xabc);
    assert_eq!(VirtAddr(0x3001).floor(), VirtPageNum(3));
    assert_eq!(VirtAddr(0x3001).ceil(), VirtPageNum(4));
    assert_eq!(VirtAddr(0x3001).page_offset(), 1);
    assert_eq!(PhysPageNum(3).addr(), PhysAddr(0x3000));
    assert_eq!(VirtPageNum(5).addr(), VirtAddr(0x5000));
    let v = VirtPageNum((3 << 18) | (7 << 9) | 11);
    assert_eq!(v.indexes(), [3, 7, 11]);
    let mut w = VirtPageNum(511);
    w.step();
    assert_eq!(w.indexes(), [0, 1, 0]);
}

#[test]
fn pte_encode_decode() {
    let flags = PTEFlags::from_bits(FLAG_V | FLAG_R | FLAG_W);
    let e = PageTableEntry::new(PhysPageNum(0x12345), flags);
    assert_eq!(e.bits, (0x12345u64 << 10) | 0b111);
    assert_eq!(e.ppn(), PhysPageNum(0x12345));
    assert_eq!(e.flags(), flags);
    assert!(e.is_valid() && e.readable() && e.writable() && !e.executable());
    let empty = PageTableEntry::empty();
    assert_eq!(empty.bits, 0);
    assert!(!empty.is_valid());
    let all = PageTableEntry { bits: 0xff };
    assert_eq!(all.flags().bits, 0xff);
    let high = PageTableEntry { bits: (0xfff_ffff_ffffu64 << 10) | 0x3ff };
    assert_eq!(high.ppn(), PhysPageNum(0xfff_ffff_ffff));
    assert_eq!(high.flags().bits, 0xff);
}

#[test]
fn flag_set_operations() {
    let rw = PTEFlags::from_bits(FLAG_R | FLAG_W);
    let x = PTEFlags::from_bits(FLAG_X);
    assert_eq!(rw.union(x).bits, FLAG_R | FLAG_W | FLAG_X);
    assert_eq!(rw.intersection(x), PTEFlags::empty());
    assert!(rw.contains(PTEFlags::from_bits(FLAG_W)));
    assert!(!rw.contains(x));
}

#[test]
fn fresh_table_finds_nothing() {
    let (mut a, mut mem) = setup(0, 8);
    let pt = PageTable::new(&mut a, &mut mem);
    assert_eq!(pt.frame_count(), 1);
    for vpn in [0usize, 1, 511, 512, 0x12345, (1 << 27) - 1] {
        assert!(pt.find_pte(&mem, VirtPageNum(vpn)).is_none());
        assert!(pt.translate(&mem, VirtPageNum(vpn)).is_none());
    }
}

#[test]
fn map_then_translate() {
    let (mut a, mut mem) = setup(0, 8);
    let mut pt = PageTable::new(&mut a, &mut mem);
    let flags = PTEFlags::from_bits(FLAG_R | FLAG_U);
    pt.map(&mut a, &mut mem, VirtPageNum(0x12345), PhysPageNum(0x777), flags);
    let e = pt.translate(&mem, VirtPageNum(0x12345)).unwrap();
    assert_eq!(e.ppn(), PhysPageNum(0x777));
    assert_eq!(e.flags().bits, FLAG_R | FLAG_U | FLAG_V);
    assert!(pt.translate(&mem, VirtPageNum(0x12346)).is_none());
    assert!(pt.find_pte(&mem, VirtPageNum(0x12346)).is_some());
}

#[test]
fn map_unmap_translate_none() {
    let (mut a, mut mem) = setup(0, 8);
    let mut pt = PageTable::new(&mut a, &mut mem);
    pt.map(&mut a, &mut mem, VirtPageNum(42), PhysPageNum(3), PTEFlags::from_bits(FLAG_R));
    pt.map(&mut a, &mut mem, VirtPageNum(43), PhysPageNum(4), PTEFlags::from_bits(FLAG_W));
    pt.unmap(&a, &mut mem, VirtPageNum(42));
    assert!(pt.translate(&mem, VirtPageNum(42)).is_none());
    assert_eq!(pt.find_pte(&mem, VirtPageNum(42)).unwrap().bits, 0);
    assert_eq!(pt.translate(&mem, VirtPageNum(43)).unwrap().ppn(), PhysPageNum(4));
    assert_eq!(pt.frame_count(), 3);
}

#[test]
fn shared_prefix_shares_nodes() {
    let (mut a, mut mem) = setup(0, 8);
    let mut pt = PageTable::new(&mut a, &mut mem);
    assert_eq!(pt.frame_count(), 1);
    pt.map(&mut a, &mut mem, VirtPageNum(0x12345), PhysPageNum(1), PTEFlags::empty());
    assert_eq!(pt.frame_count(), 3);
    assert_eq!(a.remain_num(), 5);
    pt.map(&mut a, &mut mem, VirtPageNum(0x12346), PhysPageNum(2), PTEFlags::empty());
    assert_eq!(pt.frame_count(), 3);
    assert_eq!(a.remain_num(), 5);
    pt.map(&mut a, &mut mem, VirtPageNum(0x12345 + 512), PhysPageNum(2), PTEFlags::empty());
    assert_eq!(pt.frame_count(), 4);
    assert_eq!(a.remain_num(), 4);
}

fn two_page_space() -> (StackFrameAllocator, PhysMemory, PageTable) {
    let (mut a, mut mem) = setup(0, 8);
    let mut pt = PageTable::new(&mut a, &mut mem);
    let d1 = frame_alloc(&mut a, &mut mem).unwrap().ppn();
    let d2 = frame_alloc(&mut a, &mut mem).unwrap().ppn();
    let rw = PTEFlags::from_bits(FLAG_R | FLAG_W);
    pt.map(&mut a, &mut mem, VirtPageNum(0x10), d2, rw);
    pt.map(&mut a, &mut mem, VirtPageNum(0x11), d1, rw);
    let bytes: Vec<u8> = (0..PAGE_SIZE).map(|i| (i % 251) as u8).collect();
    mem.write_bytes(d2.0, 0, &bytes);
    let bytes2: Vec<u8> = (0..PAGE_SIZE).map(|i| (i % 13) as u8 + 100).collect();
    mem.write_bytes(d1.0, 0, &bytes2);
    (a, mem, pt)
}

#[test]
fn byte_buffer_across_two_frames() {
    let (_a, mem, pt) = two_page_space();
    let token = pt.token();
    let ptr = 0x10 * PAGE_SIZE + 4000;
    let pieces = translated_byte_buffer(&mem, token, ptr, 200);
    assert_eq!(pieces.len(), 2);
    assert_eq!(pieces[0].len(), 96);
    assert_eq!(pieces[1].len(), 104);
    let joined: Vec<u8> = pieces.concat();
    let mut expect: Vec<u8> = (4000..PAGE_SIZE).map(|i| (i % 251) as u8).collect();
    expect.extend((0..104).map(|i| (i % 13) as u8 + 100));
    assert_eq!(joined, expect);
}

#[test]
fn byte_buffer_inside_one_frame() {
    let (_a, mem, pt) = two_page_space();
    let pieces = translated_byte_buffer(&mem, pt.token(), 0x11 * PAGE_SIZE + 5, 10);
    assert_eq!(pieces.len(), 1);
    assert_eq!(pieces[0], (5..15).map(|i| (i % 13) as u8 + 100).collect::<Vec<u8>>());
    let whole = translated_byte_buffer(&mem, pt.token(), 0x10 * PAGE_SIZE, PAGE_SIZE);
    assert_eq!(whole.len(), 1);
    assert!(translated_byte_buffer(&mem, pt.token(), 0x10 * PAGE_SIZE, 0).is_empty());
}

#[test]
fn assign_through_translation() {
    let (_a, mut mem, pt) = two_page_space();
    let token = pt.token();
    translated_assign_ptr(&mut mem, token, 0x11 * PAGE_SIZE + 8, &42u64.to_le_bytes());
    let back = translated_byte_buffer(&mem, token, 0x11 * PAGE_SIZE + 8, 8);
    assert_eq!(back, vec![42u64.to_le_bytes().to_vec()]);
    let before = translated_byte_buffer(&mem, token, 0x11 * PAGE_SIZE + 7, 1);
    assert_eq!(before[0][0], 7 % 13 + 100);
}

#[test]
fn token_round_trip_view() {
    let (_a, mem, pt) = two_page_space();
    let token = pt.token();
    assert_eq!(token >> 60, 8);
    let view = PageTable::from_token(token);
    assert_eq!(view.frame_count(), 0);
    assert_eq!(view.token(), token);
    for vpn in [0x10usize, 0x11, 0x12, 0, 0x12345] {
        let a = pt.translate(&mem, VirtPageNum(vpn)).map(|e| e.bits);
        let b = view.translate(&mem, VirtPageNum(vpn)).map(|e| e.bits);
        assert_eq!(a, b);
        let c = pt.find_pte(&mem, VirtPageNum(vpn)).map(|e| e.bits);
        let d = view.find_pte(&mem, VirtPageNum(vpn)).map(|e| e.bits);
        assert_eq!(c, d);
    }
}

#[test]
fn memory_words_round_trip() {
    let mut mem = PhysMemory::new(7, 2);
    assert!(mem.is_backed(7) && mem.is_backed(8) && !mem.is_backed(9) && !mem.is_backed(6));
    mem.write_word(8, 3, 0x0102_0304_0506_0708);
    assert_eq!(mem.read_word(8, 3), 0x0102_0304_0506_0708);
    assert_eq!(mem.read_bytes(8, 24, 32), vec![8, 7, 6, 5, 4, 3, 2, 1]);
    assert_eq!(mem.read_word(8, 2), 0);
    mem.zero_frame(8);
    assert_eq!(mem.read_word(8, 3), 0);
}

#[test]
fn release_returns_node_frames() {
    let (mut a, mut mem) = setup(0, 8);
    let mut pt = PageTable::new(&mut a, &mut mem);
    pt.map(&mut a, &mut mem, VirtPageNum(0x12345), PhysPageNum(1), PTEFlags::empty());
    assert_eq!(a.remain_num(), 5);
    let root = PageTable::from_token(pt.token());
    assert!(root.translate(&mem, VirtPageNum(0x12345)).is_some());
    pt.release(&mut a, &mem);
    assert_eq!(a.remain_num(), 8);
    assert!(!a.is_allocated(PhysPageNum(0)));
    assert!(!a.is_allocated(PhysPageNum(1)));
    assert!(!a.is_allocated(PhysPageNum(2)));
}

#[test]
fn allocator_self_test_batches() {
    let (mut a, mut mem) = setup(100, 107);
    let (first, second) = frame_allocator_test(&mut a, &mut mem);
    assert_eq!(first, vec![100, 101, 102, 103, 104]);
    assert_eq!(second, vec![104, 103, 102, 101, 100]);
    assert_eq!(a.remain_num(), 7);
    assert_eq!(a.allocate().unwrap().0, 100);
}

#[test]
fn write_bytes_across_two_frames() {
    let (_a, mut mem, pt) = two_page_space();
    let token = pt.token();
    let ptr = 0x10 * PAGE_SIZE + 4090;
    let data: Vec<u8> = (0..20u8).map(|i| i + 200).collect();
    translated_write_bytes(&mut mem, token, ptr, &data);
    let back = translated_byte_buffer(&mem, token, ptr, 20);
    assert_eq!(back.len(), 2);
    assert_eq!(back.concat(), data);
    let around = translated_byte_buffer(&mem, token, ptr - 1, 1);
    assert_eq!(around[0][0], ((4089) % 251) as u8);
    let after = translated_byte_buffer(&mem, token, ptr + 20, 1);
    assert_eq!(after[0][0], (14 % 13) as u8 + 100);
    assert!(pt.translate(&mem, VirtPageNum(0x10)).is_some());
    assert!(pt.translate(&mem, VirtPageNum(0x11)).is_some());
}

#[test]
fn nodes_missing_counts_walk() {
    let (mut a, mut mem) = setup(0, 8);
    let mut pt = PageTable::new(&mut a, &mut mem);
    assert_eq!(pt.nodes_missing(&mem, VirtPageNum(0x12345)), 2);
    pt.map(&mut a, &mut mem, VirtPageNum(0x12345), PhysPageNum(1), PTEFlags::empty());
    assert_eq!(pt.nodes_missing(&mem, VirtPageNum(0x12346)), 0);
    assert_eq!(pt.nodes_missing(&mem, VirtPageNum(0x12345 + 512)), 1);
}
