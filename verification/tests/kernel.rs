use easy_fs::address::PhysAddr;
use easy_fs::address::PhysPageNum;
use easy_fs::address::SimpleRange;
use easy_fs::address::VirtAddr;
use easy_fs::address::VirtPageNum;
use easy_fs::batch::AppManager;
use easy_fs::frame_allocator::StackFrameAllocator;
use easy_fs::frame_allocator::frame_alloc;
use easy_fs::page_table::PTEFlags;
use easy_fs::page_table::PTE_FLAG_R;
use easy_fs::page_table::PTE_FLAG_V;
use easy_fs::page_table::PTE_FLAG_W;
use easy_fs::page_table::PageTable;
use easy_fs::page_table::PageTableEntry;
use easy_fs::page_table::RamMem;
use easy_fs::page_table::translated_byte_buffer;
use easy_fs::task::TaskContext;
use easy_fs::task::TaskControlBlock;
use easy_fs::task::TaskManager;
use easy_fs::task::TaskStatus;
use easy_fs::trap::TrapAction;
use easy_fs::trap::TrapCause;
use easy_fs::trap::trap_dispatch;
use easy_fs::user::WAIT_AGAIN;
use easy_fs::user::console_read_decision;
use easy_fs::user::sleep_done;
use easy_fs::user::wait_decision;

#[test]
fn address_floor_ceil_offset() {
    assert_eq!(VirtAddr(0).floor().0, 0);
    assert_eq!(VirtAddr(0).ceil().0, 0);
    assert_eq!(VirtAddr(1).ceil().0, 1);
    assert_eq!(VirtAddr(4096).floor().0, 1);
    assert_eq!(VirtAddr(4096).ceil().0, 1);
    assert_eq!(VirtAddr(4097).floor().0, 1);
    assert_eq!(VirtAddr(4097).ceil().0, 2);
    assert_eq!(VirtAddr(8191).page_offset(), 4095);
    assert!(VirtAddr(8192).aligned());
    assert!(!VirtAddr(8193).aligned());
    assert_eq!(PhysAddr(12_345).floor().0, 3);
    assert_eq!(PhysAddr(12_345).ceil().0, 4);
    assert_eq!(PhysAddr(12_345).page_offset(), 12_345 % 4096);
    assert!(PhysAddr(0).aligned());
}

#[test]
fn vpn_indexes_split_nine_bits_each() {
    let vpn = VirtPageNum((5 << 18) | (3 << 9) | 7);
    assert_eq!(vpn.indexes(), [5, 3, 7]);
    let vpn2 = VirtPageNum(511);
    assert_eq!(vpn2.indexes(), [0, 0, 511]);
}

#[test]
fn simple_range_iterates_half_open() {
    let range = SimpleRange::new(VirtPageNum(3), VirtPageNum(6));
    assert_eq!(range.get_start().0, 3);
    assert_eq!(range.get_end().0, 6);
    let mut iter = range.iter();
    assert_eq!(iter.next().map(|v| v.0), Some(3));
    assert_eq!(iter.next().map(|v| v.0), Some(4));
    assert_eq!(iter.next().map(|v| v.0), Some(5));
    assert_eq!(iter.next().map(|v| v.0), None);
}

#[test]
fn pte_packs_ppn_and_flags() {
    let flags = PTEFlags::from_bits(PTE_FLAG_V | PTE_FLAG_R | PTE_FLAG_W);
    let pte = PageTableEntry::new(PhysPageNum(0x1234), flags);
    assert_eq!(pte.bits, 0x1234 * 1024 + 7);
    assert_eq!(pte.ppn().0, 0x1234);
    assert!(pte.is_valid());
    assert!(pte.readable());
    assert!(pte.writable());
    assert!(!pte.executable());
    assert_eq!(pte.flags().bits, 7);
    let empty = PageTableEntry::empty();
    assert!(!empty.is_valid());
    assert_eq!(empty.bits, 0);
    assert_eq!(PTEFlags::empty().bits, 0);
    assert_eq!(
        PTEFlags::from_bits(PTE_FLAG_R).union(PTEFlags::from_bits(PTE_FLAG_W)).bits(),
        PTE_FLAG_R | PTE_FLAG_W
    );
}

#[test]
fn frame_allocator_bumps_and_recycles() {
    let mut alloc = StackFrameAllocator::new();
    alloc.init(PhysPageNum(10), PhysPageNum(13));
    let mut mem = RamMem::new(13);
    let f0 = frame_alloc(&mut alloc, &mut mem).unwrap();
    let f1 = frame_alloc(&mut alloc, &mut mem).unwrap();
    assert_eq!(f0.ppn.0, 10);
    assert_eq!(f1.ppn.0, 11);
    alloc.dealloc(f0.ppn);
    // The recycled frame is reused before the bump pointer advances.
    let f2 = frame_alloc(&mut alloc, &mut mem).unwrap();
    assert_eq!(f2.ppn.0, 10);
    let f3 = frame_alloc(&mut alloc, &mut mem).unwrap();
    assert_eq!(f3.ppn.0, 12);
    assert!(frame_alloc(&mut alloc, &mut mem).is_none());
}

#[test]
fn page_table_map_translate_unmap() {
    let mut mem = RamMem::new(64);
    let mut alloc = StackFrameAllocator::new();
    alloc.init(PhysPageNum(1), PhysPageNum(40));
    let mut pt = PageTable::new(&mut mem, &mut alloc);
    let vpn = VirtPageNum((5 << 18) | (3 << 9) | 7);
    assert!(pt.translate(vpn, &mem).is_none());
    pt.map(vpn, PhysPageNum(50), PTEFlags::from_bits(PTE_FLAG_R | PTE_FLAG_W), &mut mem, &mut alloc);
    let pte = pt.translate(vpn, &mem).unwrap();
    assert!(pte.is_valid());
    assert!(pte.readable());
    assert!(pte.writable());
    assert_eq!(pte.ppn().0, 50);
    // A second page in the same leaf table needs no fresh frames.
    let vpn2 = VirtPageNum((5 << 18) | (3 << 9) | 8);
    pt.map(vpn2, PhysPageNum(51), PTEFlags::from_bits(PTE_FLAG_R), &mut mem, &mut alloc);
    assert_eq!(pt.translate(vpn2, &mem).unwrap().ppn().0, 51);
    pt.unmap(vpn, &mut mem);
    let cleared = pt.translate(vpn, &mem).unwrap();
    assert!(!cleared.is_valid());
    assert_eq!(pt.translate(vpn2, &mem).unwrap().ppn().0, 51);
}

#[test]
fn token_round_trips_the_root() {
    let mut mem = RamMem::new(32);
    let mut alloc = StackFrameAllocator::new();
    alloc.init(PhysPageNum(1), PhysPageNum(20));
    let mut pt = PageTable::new(&mut mem, &mut alloc);
    let vpn = VirtPageNum(0x155);
    pt.map(vpn, PhysPageNum(25), PTEFlags::from_bits(PTE_FLAG_R), &mut mem, &mut alloc);
    let token = pt.token();
    assert_eq!(token >> 60, 8);
    let view = PageTable::from_token(token);
    assert_eq!(view.translate(vpn, &mem).unwrap().ppn().0, 25);
}

#[test]
fn translated_byte_buffer_splits_pages() {
    let mut mem = RamMem::new(64);
    let mut alloc = StackFrameAllocator::new();
    alloc.init(PhysPageNum(1), PhysPageNum(40));
    let mut pt = PageTable::new(&mut mem, &mut alloc);
    for k in 0..3usize {
        pt.map(
            VirtPageNum(0x100 + k),
            PhysPageNum(50 + k),
            PTEFlags::from_bits(PTE_FLAG_R | PTE_FLAG_W),
            &mut mem,
            &mut alloc,
        );
    }
    let token = pt.token();
    let ptr = 0x100 * 4096 + 100;
    let segments = translated_byte_buffer(token, ptr, 5000, &mem);
    assert_eq!(segments.len(), 2);
    assert_eq!(segments[0], (PhysPageNum(50), 100, 4096));
    assert_eq!(segments[1], (PhysPageNum(51), 0, 100 + 5000 - 4096));
    let aligned = translated_byte_buffer(token, 0x100 * 4096, 2 * 4096, &mem);
    assert_eq!(aligned.len(), 2);
    assert_eq!(aligned[0], (PhysPageNum(50), 0, 4096));
    assert_eq!(aligned[1], (PhysPageNum(51), 0, 4096));
    assert_eq!(translated_byte_buffer(token, ptr, 0, &mem).len(), 0);
}

#[test]
fn task_manager_is_fifo() {
    let mut manager = TaskManager::new();
    assert!(manager.fetch().is_none());
    let mut cx = TaskContext::zero_init();
    assert_eq!(cx.ra, 0);
    assert_eq!(cx.sp, 0);
    assert_eq!(cx.s, [0usize; 12]);
    cx.sp = 111;
    let a = TaskControlBlock { task_status: TaskStatus::Ready, task_cx: cx };
    cx.sp = 222;
    let b = TaskControlBlock { task_status: TaskStatus::Running, task_cx: cx };
    manager.add(a);
    manager.add(b);
    let first = manager.fetch().unwrap();
    assert_eq!(first.task_cx.sp, 111);
    assert!(matches!(first.task_status, TaskStatus::Ready));
    let second = manager.fetch().unwrap();
    assert_eq!(second.task_cx.sp, 222);
    assert!(manager.fetch().is_none());
    assert!(matches!(TaskStatus::UnInit, TaskStatus::UnInit));
    assert!(matches!(TaskStatus::Exited, TaskStatus::Exited));
}

#[test]
fn app_manager_tracks_the_cursor() {
    let mut starts = [0usize; 17];
    starts[0] = 0x8040_0000;
    starts[1] = 0x8042_0000;
    starts[2] = 0x8044_0000;
    let mut manager = AppManager::new(2, starts);
    assert_eq!(manager.get_current_app(), 0);
    assert_eq!(manager.app_span(0), (0x8040_0000, 0x8042_0000));
    assert_eq!(manager.app_span(1), (0x8042_0000, 0x8044_0000));
    manager.move_to_next_app();
    assert_eq!(manager.get_current_app(), 1);
    manager.move_to_next_app();
    assert_eq!(manager.get_current_app(), 2);
}

#[test]
fn trap_policy_matches_each_cause() {
    assert_eq!(trap_dispatch(TrapCause::UserEnvCall), TrapAction::HandleSyscall);
    assert_eq!(trap_dispatch(TrapCause::StoreFault), TrapAction::KillApp(-2));
    assert_eq!(trap_dispatch(TrapCause::InstructionFault), TrapAction::KillApp(-2));
    assert_eq!(trap_dispatch(TrapCause::LoadFault), TrapAction::KillApp(-2));
    assert_eq!(trap_dispatch(TrapCause::IllegalInstruction), TrapAction::KillApp(-3));
    assert_eq!(trap_dispatch(TrapCause::SupervisorTimer), TrapAction::TickAndYield);
    assert_eq!(trap_dispatch(TrapCause::Unknown), TrapAction::KernelPanic);
}

#[test]
fn user_call_protocols_decide_retries() {
    assert_eq!(wait_decision(WAIT_AGAIN), None);
    assert_eq!(wait_decision(-1), Some(-1));
    assert_eq!(wait_decision(7), Some(7));
    assert!(!sleep_done(100, 150, 100));
    assert!(sleep_done(100, 200, 100));
    assert!(sleep_done(100, 250, 100));
    assert_eq!(console_read_decision(0), None);
    assert_eq!(console_read_decision(65), Some(b'A'));
}
