use boot_frames::memory::{AreaFrameAllocator, Frame, FrameAllocator, MemoryArea};

const FRAME: usize = 4096;

fn area(base_addr: u64, length: u64) -> MemoryArea {
    MemoryArea { base_addr, length }
}

fn numbers(allocator: &mut AreaFrameAllocator, calls: usize) -> Vec<Option<u64>> {
    (0..calls).map(|_| allocator.allocate_frame().map(|f| f.number)).collect()
}

#[test]
fn frame_from_physical_address_rounds_down() {
    assert_eq!(Frame::from_physical_address(0).number, 0);
    assert_eq!(Frame::from_physical_address(0xfff).number, 0);
    assert_eq!(Frame::from_physical_address(0x1000).number, 1);
    assert_eq!(Frame::from_physical_address(0x1fff).number, 1);
    assert_eq!(Frame::from_physical_address(u64::MAX).number, 0xf_ffff_ffff_ffff);
}

#[test]
fn memory_area_validity() {
    assert!(area(0, 1).is_valid());
    assert!(area(0x1000, 0).is_valid());
    assert!(!area(0, 0).is_valid());
    assert!(!area(u64::MAX, 2).is_valid());
    assert!(area(u64::MAX, 0).is_valid());
}

#[test]
fn single_area_without_exclusions_in_order() {
    let len: u64 = 16 * 4096;
    let mut a = AreaFrameAllocator::new(0x100_0000, 0x100_0000, 0x200_0000, 0x200_0000, vec![area(0, len)]);
    let got = numbers(&mut a, 20);
    let want: Vec<Option<u64>> = (0..20u64).map(|i| if i < 16 { Some(i) } else { None }).collect();
    assert_eq!(got, want);
}

#[test]
fn single_area_fewer_calls_than_frames() {
    let mut a = AreaFrameAllocator::new(0x100_0000, 0x100_0000, 0x200_0000, 0x200_0000, vec![area(0, 16 * 4096)]);
    assert_eq!(numbers(&mut a, 5), vec![Some(0), Some(1), Some(2), Some(3), Some(4)]);
}

#[test]
fn partial_last_frame_is_handed_out() {
    let mut a = AreaFrameAllocator::new(0x100_0000, 0x100_0000, 0x200_0000, 0x200_0000, vec![area(0, 5000)]);
    assert_eq!(numbers(&mut a, 3), vec![Some(0), Some(1), None]);
}

#[test]
fn no_frame_returned_twice() {
    let mut a = AreaFrameAllocator::new(
        5 * FRAME,
        7 * FRAME,
        40 * FRAME,
        41 * FRAME,
        vec![area(0, 30 * 4096), area(10 * 4096, 40 * 4096), area(100 * 4096, 8 * 4096)],
    );
    let got: Vec<u64> = numbers(&mut a, 200).into_iter().flatten().collect();
    for i in 0..got.len() {
        for j in (i + 1)..got.len() {
            assert_ne!(got[i], got[j]);
            assert!(got[i] < got[j]);
        }
    }
    assert_eq!(got.len(), 50 - 3 - 2 + 8);
}

#[test]
fn excluded_frames_never_returned() {
    let mut a = AreaFrameAllocator::new(3 * FRAME, 5 * FRAME + 17, 8 * FRAME, 9 * FRAME, vec![area(0, 12 * 4096)]);
    let got = numbers(&mut a, 8);
    assert_eq!(got, vec![Some(0), Some(1), Some(2), Some(6), Some(7), Some(10), Some(11), None]);
}

#[test]
fn gap_between_areas_is_skipped() {
    let mut a = AreaFrameAllocator::new(
        0x100_0000,
        0x100_0000,
        0x200_0000,
        0x200_0000,
        vec![area(0, 4 * 4096), area(10 * 4096, 4 * 4096)],
    );
    let got = numbers(&mut a, 9);
    assert_eq!(
        got,
        vec![Some(0), Some(1), Some(2), Some(3), Some(10), Some(11), Some(12), Some(13), None]
    );
}

#[test]
fn areas_taken_by_base_address_not_list_order() {
    let mut a = AreaFrameAllocator::new(
        0x100_0000,
        0x100_0000,
        0x200_0000,
        0x200_0000,
        vec![area(20 * 4096, 2 * 4096), area(4 * 4096, 2 * 4096)],
    );
    assert_eq!(numbers(&mut a, 5), vec![Some(4), Some(5), Some(20), Some(21), None]);
}

#[test]
fn first_allocation_is_start_of_area_above_zero() {
    let mut a = AreaFrameAllocator::new(0x100_0000, 0x100_0000, 0x200_0000, 0x200_0000, vec![area(0x3000, 0x10000)]);
    assert_eq!(a.allocate_frame(), Some(Frame { number: 3 }));
}

#[test]
fn exhaustion_is_final() {
    let mut a = AreaFrameAllocator::new(0x100_0000, 0x100_0000, 0x200_0000, 0x200_0000, vec![area(0, 2 * 4096)]);
    assert_eq!(numbers(&mut a, 2), vec![Some(0), Some(1)]);
    for _ in 0..10 {
        assert_eq!(a.allocate_frame(), None);
    }
}

#[test]
fn no_areas_gives_nothing() {
    let mut a = AreaFrameAllocator::new(0, 0, 0, 0, Vec::new());
    assert_eq!(a.allocate_frame(), None);
    assert_eq!(a.allocate_frame(), None);
}

#[test]
fn kernel_and_boot_info_scenario() {
    let mut a = AreaFrameAllocator::new(
        10 * FRAME,
        20 * FRAME + 0x800,
        30 * FRAME,
        35 * FRAME + 0xfff,
        vec![area(0x0, 0x10_0000)],
    );
    let got = numbers(&mut a, 240);
    for (i, f) in got.iter().enumerate().take(10) {
        assert_eq!(*f, Some(i as u64));
    }
    assert_eq!(got[10], Some(21));
    let before_thirty = got.iter().position(|f| *f == Some(29)).unwrap();
    assert_eq!(got[before_thirty + 1], Some(36));
    assert_eq!(got.iter().filter(|f| f.is_some()).count(), 239);
    assert_eq!(got[238], Some(255));
    assert_eq!(got[239], None);
}

#[test]
fn exclusions_outside_areas_do_not_matter() {
    let mut a = AreaFrameAllocator::new(
        0x800_0000,
        0x900_0000,
        0xa00_0000,
        0xa00_1000,
        vec![area(0, 3 * 4096), area(8 * 4096, 2 * 4096)],
    );
    assert_eq!(numbers(&mut a, 6), vec![Some(0), Some(1), Some(2), Some(8), Some(9), None]);
}

#[test]
fn kernel_range_takes_priority_when_ranges_overlap() {
    let mut a = AreaFrameAllocator::new(2 * FRAME, 4 * FRAME, 3 * FRAME, 6 * FRAME, vec![area(0, 9 * 4096)]);
    assert_eq!(numbers(&mut a, 5), vec![Some(0), Some(1), Some(7), Some(8), None]);
}
