use paging::pages::{MemoryError, MemoryManager, PAGE_SIZE};

fn frame_of(m: &MemoryManager, id: usize, page_no: usize) -> Option<usize> {
    m.page(id, page_no).unwrap().frame
}

fn resident(m: &MemoryManager, id: usize, page_no: usize) -> bool {
    m.page(id, page_no).unwrap().presence
}

fn assert_conserved(m: &MemoryManager) {
    assert_eq!(m.free_count() + m.busy_count(), m.total_frames());
}

#[test]
fn new_manager_has_only_free_frames() {
    let m = MemoryManager::new(9 * PAGE_SIZE);
    assert_eq!(m.total_frames(), 9);
    assert_eq!(m.free_count(), 9);
    assert_eq!(m.busy_count(), 0);
    assert_eq!(m.hand(), 0);
    let small = MemoryManager::new(PAGE_SIZE - 1);
    assert_eq!(small.total_frames(), 0);
    let partial = MemoryManager::new(2 * PAGE_SIZE + 100);
    assert_eq!(partial.total_frames(), 2);
}

#[test]
fn two_frames_three_pages_evicts_page_zero() {
    let mut m = MemoryManager::new(2 * PAGE_SIZE);
    assert_eq!(m.register(1, 3), Ok(()));
    assert_eq!(m.write(1, 0x0000), Ok(()));
    assert_eq!(frame_of(&m, 1, 0), Some(0x0000));
    assert_eq!(m.write(1, 0x1000), Ok(()));
    assert_eq!(frame_of(&m, 1, 1), Some(0x1000));
    assert_eq!(m.free_count(), 0);
    assert_eq!(m.write(1, 0x2000), Ok(()));
    assert!(!resident(&m, 1, 0));
    assert_eq!(frame_of(&m, 1, 0), None);
    assert!(resident(&m, 1, 1));
    assert!(resident(&m, 1, 2));
    assert_eq!(frame_of(&m, 1, 2), Some(0x0000));
    assert_eq!(frame_of(&m, 1, 1), Some(0x1000));
    // the scan cleared page 1's bit on its way and stopped just past page 0
    assert!(!m.page(1, 1).unwrap().reference);
    assert_eq!(m.hand(), 1);
    assert_conserved(&m);
}

#[test]
fn register_twice_fails() {
    let mut m = MemoryManager::new(4 * PAGE_SIZE);
    assert_eq!(m.register(5, 2), Ok(()));
    assert_eq!(m.register(5, 2), Err(MemoryError::ProcessAlreadyRegistered));
    assert!(m.is_registered(5));
    assert!(m.page(5, 1).is_some());
    assert!(m.page(5, 2).is_none());
}

#[test]
fn read_by_unregistered_process_fails() {
    let mut m = MemoryManager::new(4 * PAGE_SIZE);
    assert_eq!(m.read(7, 0), Err(MemoryError::ProcessNotRegistered));
    assert_eq!(m.write(7, 0), Err(MemoryError::ProcessNotRegistered));
    assert_eq!(m.allocate(7, 0), Err(MemoryError::ProcessNotRegistered));
    assert_eq!(m.tick(7), Err(MemoryError::ProcessNotRegistered));
    assert!(!m.is_registered(7));
    assert_eq!(m.free_count(), 4);
}

#[test]
fn address_beyond_declared_pages_fails() {
    let mut m = MemoryManager::new(4 * PAGE_SIZE);
    assert_eq!(m.register(1, 2), Ok(()));
    assert_eq!(m.read(1, 2 * PAGE_SIZE), Err(MemoryError::AddressOutOfRange));
    assert_eq!(m.write(1, 5 * PAGE_SIZE + 3), Err(MemoryError::AddressOutOfRange));
    assert_eq!(m.allocate(1, 2 * PAGE_SIZE), Err(MemoryError::AddressOutOfRange));
    assert_eq!(m.busy_count(), 0);
    // the last byte of the last declared page is still in range
    assert_eq!(m.read(1, 2 * PAGE_SIZE - 1), Ok(()));
    assert!(resident(&m, 1, 1));
}

#[test]
fn first_touch_allocates_once() {
    let mut m = MemoryManager::new(4 * PAGE_SIZE);
    assert_eq!(m.register(3, 4), Ok(()));
    assert!(!resident(&m, 3, 2));
    assert_eq!(m.read(3, 2 * PAGE_SIZE + 17), Ok(()));
    assert_eq!(m.busy_count(), 1);
    assert_eq!(m.free_count(), 3);
    let p = m.page(3, 2).unwrap();
    assert!(p.presence);
    assert!(p.reference);
    assert!(!p.modification);
    assert_eq!(p.frame, Some(2 * PAGE_SIZE));
    assert_conserved(&m);
}

#[test]
fn write_sets_dirty_bit() {
    let mut m = MemoryManager::new(4 * PAGE_SIZE);
    assert_eq!(m.register(3, 4), Ok(()));
    assert_eq!(m.write(3, PAGE_SIZE), Ok(()));
    let p = m.page(3, 1).unwrap();
    assert!(p.presence && p.reference && p.modification);
}

#[test]
fn second_read_keeps_binding() {
    let mut m = MemoryManager::new(4 * PAGE_SIZE);
    assert_eq!(m.register(3, 4), Ok(()));
    assert_eq!(m.read(3, PAGE_SIZE), Ok(()));
    let before = m.page(3, 1).unwrap();
    let (free, busy, hand) = (m.free_count(), m.busy_count(), m.hand());
    assert_eq!(m.read(3, PAGE_SIZE + 8), Ok(()));
    let after = m.page(3, 1).unwrap();
    assert_eq!(after.frame, before.frame);
    assert!(after.presence);
    assert_eq!((m.free_count(), m.busy_count(), m.hand()), (free, busy, hand));
}

#[test]
fn allocate_on_resident_page_changes_nothing() {
    let mut m = MemoryManager::new(2 * PAGE_SIZE);
    assert_eq!(m.register(1, 2), Ok(()));
    assert_eq!(m.allocate(1, PAGE_SIZE), Ok(()));
    assert_eq!(frame_of(&m, 1, 1), Some(PAGE_SIZE));
    assert_eq!(m.allocate(1, PAGE_SIZE), Ok(()));
    assert_eq!(frame_of(&m, 1, 1), Some(PAGE_SIZE));
    assert_eq!(m.busy_count(), 1);
}

#[test]
fn free_frame_at_same_address_is_preferred() {
    let mut m = MemoryManager::new(3 * PAGE_SIZE);
    assert_eq!(m.register(1, 3), Ok(()));
    assert_eq!(m.write(1, 0x2000), Ok(()));
    assert_eq!(frame_of(&m, 1, 2), Some(0x2000));
    assert_eq!(m.write(1, 0x0000), Ok(()));
    assert_eq!(frame_of(&m, 1, 0), Some(0x0000));
    assert_eq!(m.write(1, 0x1000), Ok(()));
    assert_eq!(frame_of(&m, 1, 1), Some(0x1000));
}

#[test]
fn without_matching_frame_first_free_frame_is_taken() {
    let mut m = MemoryManager::new(2 * PAGE_SIZE);
    assert_eq!(m.register(2, 4), Ok(()));
    assert_eq!(m.read(2, 3 * PAGE_SIZE), Ok(()));
    assert_eq!(frame_of(&m, 2, 3), Some(0x0000));
    assert_eq!(m.read(2, 2 * PAGE_SIZE), Ok(()));
    assert_eq!(frame_of(&m, 2, 2), Some(0x1000));
    assert_eq!(m.free_count(), 0);
}

#[test]
fn unaligned_allocate_does_not_match_frame_address() {
    let mut m = MemoryManager::new(2 * PAGE_SIZE);
    assert_eq!(m.register(1, 2), Ok(()));
    // the frame at 0x1000 is free, but 0x1004 is not its address
    assert_eq!(m.allocate(1, 0x1004), Ok(()));
    assert_eq!(frame_of(&m, 1, 1), Some(0x0000));
}

#[test]
fn eviction_moves_exactly_one_page() {
    let mut m = MemoryManager::new(2 * PAGE_SIZE);
    assert_eq!(m.register(1, 2), Ok(()));
    assert_eq!(m.register(2, 2), Ok(()));
    assert_eq!(m.read(1, 0), Ok(()));
    assert_eq!(m.read(2, PAGE_SIZE), Ok(()));
    let resident_before = [resident(&m, 1, 0), resident(&m, 1, 1), resident(&m, 2, 0), resident(&m, 2, 1)];
    assert_eq!(resident_before, [true, false, false, true]);
    assert_eq!(m.read(2, 0), Ok(()));
    let resident_after = [resident(&m, 1, 0), resident(&m, 1, 1), resident(&m, 2, 0), resident(&m, 2, 1)];
    assert_eq!(resident_after, [false, false, true, true]);
    assert_eq!(frame_of(&m, 2, 0), Some(0x0000));
    assert_eq!(m.busy_count(), 2);
    assert_conserved(&m);
}

#[test]
fn referenced_page_gets_second_chance() {
    let mut m = MemoryManager::new(2 * PAGE_SIZE);
    assert_eq!(m.register(1, 3), Ok(()));
    assert_eq!(m.read(1, 0), Ok(()));
    assert_eq!(m.read(1, PAGE_SIZE), Ok(()));
    assert_eq!(m.tick(1), Ok(()));
    // page 0 is used again, page 1 is not
    assert_eq!(m.read(1, 0), Ok(()));
    assert_eq!(m.read(1, 2 * PAGE_SIZE), Ok(()));
    let p0 = m.page(1, 0).unwrap();
    assert!(p0.presence);
    assert!(!p0.reference);
    assert_eq!(p0.frame, Some(0x0000));
    assert!(!resident(&m, 1, 1));
    assert_eq!(frame_of(&m, 1, 2), Some(0x1000));
    assert_eq!(m.hand(), 2);
    // next time the hand reaches page 0 with its bit still clear, it goes
    assert_eq!(m.read(1, PAGE_SIZE), Ok(()));
    assert!(!resident(&m, 1, 0));
    assert_eq!(frame_of(&m, 1, 1), Some(0x0000));
}

#[test]
fn tick_before_access_makes_clock_first_in_first_out() {
    let mut m = MemoryManager::new(2 * PAGE_SIZE);
    assert_eq!(m.register(1, 3), Ok(()));
    assert_eq!(m.write(1, 0), Ok(()));
    assert_eq!(m.write(1, PAGE_SIZE), Ok(()));
    assert_eq!(m.tick(1), Ok(()));
    let p = m.page(1, 0).unwrap();
    assert!(p.presence && !p.reference && !p.modification);
    assert_eq!(m.write(1, 2 * PAGE_SIZE), Ok(()));
    // no page is referenced, so the scan takes the first resident page
    assert!(!resident(&m, 1, 0));
    assert!(resident(&m, 1, 1));
    assert_eq!(frame_of(&m, 1, 2), Some(0x0000));
}

#[test]
fn register_resets_hand() {
    let mut m = MemoryManager::new(PAGE_SIZE);
    assert_eq!(m.register(1, 2), Ok(()));
    assert_eq!(m.read(1, 0), Ok(()));
    assert_eq!(m.read(1, PAGE_SIZE), Ok(()));
    assert_eq!(m.hand(), 1);
    assert_eq!(m.register(2, 1), Ok(()));
    assert_eq!(m.hand(), 0);
}

#[test]
fn eviction_scans_across_processes() {
    let mut m = MemoryManager::new(PAGE_SIZE);
    assert_eq!(m.register(1, 1), Ok(()));
    assert_eq!(m.register(2, 1), Ok(()));
    assert_eq!(m.read(1, 0), Ok(()));
    assert_eq!(m.read(2, 0), Ok(()));
    assert!(!resident(&m, 1, 0));
    assert_eq!(frame_of(&m, 2, 0), Some(0));
    assert_eq!(m.read(1, 0), Ok(()));
    assert!(!resident(&m, 2, 0));
    assert_eq!(frame_of(&m, 1, 0), Some(0));
}

#[test]
fn frames_stay_conserved_under_load() {
    let mut m = MemoryManager::new(3 * PAGE_SIZE);
    assert_eq!(m.register(1, 4), Ok(()));
    assert_eq!(m.register(2, 3), Ok(()));
    let steps: [(usize, usize, bool); 10] = [
        (1, 0, true),
        (2, 1, false),
        (1, 3, false),
        (2, 2, true),
        (1, 1, false),
        (2, 0, true),
        (1, 0, false),
        (1, 2, true),
        (2, 1, false),
        (1, 3, true),
    ];
    for (id, page_no, write) in steps {
        let r = if write { m.write(id, page_no * PAGE_SIZE) } else { m.read(id, page_no * PAGE_SIZE) };
        assert_eq!(r, Ok(()));
        assert!(resident(&m, id, page_no));
        assert_conserved(&m);
        let mut bound = Vec::new();
        for (pid, count) in [(1usize, 4usize), (2, 3)] {
            for n in 0..count {
                let p = m.page(pid, n).unwrap();
                assert_eq!(p.presence, p.frame.is_some());
                if let Some(f) = p.frame {
                    assert!(!bound.contains(&f));
                    bound.push(f);
                }
            }
        }
        assert_eq!(bound.len(), m.busy_count());
    }
}
