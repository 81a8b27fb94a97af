use rsmalloc::stress::{
    allocation_size, assert_disjoint, get_fuzz_type, next_pattern, thread_count, Defect, Fill, FuzzType, Lane,
    LaneOutput, Live, Op, Task,
};

#[test]
fn kinds_have_numbers_and_sizes() {
    assert_eq!(get_fuzz_type(1), Some(FuzzType::Small));
    assert_eq!(get_fuzz_type(4), Some(FuzzType::Full));
    assert_eq!(get_fuzz_type(0), None);
    assert_eq!(thread_count(0), 2);
    assert_eq!(thread_count(10), 12);
    assert_eq!(thread_count(255), 4);
    assert_eq!(allocation_size(FuzzType::Small, 0), 1);
    assert_eq!(allocation_size(FuzzType::Small, 0x4_0000), 1);
    assert_eq!(allocation_size(FuzzType::Big, 0x3c0_0000), 0x400_0000);
    assert_eq!(allocation_size(FuzzType::Mixed, 0x24_0001), 2);
    assert_eq!(allocation_size(FuzzType::Full, 0x7f_ffff), 0x80_0000);
}

#[test]
fn patterns_are_never_zero() {
    let mut sequence = 254;
    assert_eq!(next_pattern(0, &mut sequence), 255);
    assert_eq!(next_pattern(0, &mut sequence), 1);
    assert_eq!(sequence, 0);
    assert_eq!(next_pattern(1, &mut sequence), 68);
    let mut again = 0;
    assert_eq!(next_pattern(257, &mut again), 68);
}

#[test]
fn lanes_share_out_the_steps() {
    let ops: Vec<Op> = (0..7)
        .map(|i| Op::Alloc {
            size: i,
            align_shift: 0,
        })
        .collect();
    let mut seen = Vec::new();
    for thread in 0..3 {
        let mut lane = Lane::new(thread, 3, FuzzType::Small);
        while let Some(task) = lane.run_lane(&ops) {
            match task {
                Some(Task::Alloc { size, .. }) => seen.push(size),
                other => panic!("{:?}", other),
            }
        }
    }
    seen.sort();
    assert_eq!(seen, vec![1, 2, 3, 4, 5, 6, 7]);
}

#[test]
fn a_lane_keeps_track_of_what_is_live() {
    let ops = vec![
        Op::Dealloc { index: 3 },
        Op::Alloc {
            size: 9,
            align_shift: 4,
        },
        Op::AllocZeroed {
            size: 19,
            align_shift: 13,
        },
        Op::Realloc {
            index: 2,
            new_size: 99,
        },
        Op::Dealloc { index: 1 },
    ];
    let mut lane = Lane::new(0, 1, FuzzType::Small);
    assert_eq!(lane.run_lane(&ops), Some(None));
    assert_eq!(
        lane.run_lane(&ops),
        Some(Some(Task::Alloc {
            size: 10,
            align: 16,
            zeroed: false
        }))
    );
    assert_eq!(
        lane.allocated(10, 16, false, 0x1001, true),
        Err(Defect::Misaligned)
    );
    assert_eq!(lane.allocated(10, 16, false, 0, true), Ok(None));
    assert_eq!(
        lane.allocated(10, 16, false, 0x1000, false),
        Ok(Some(Fill {
            ptr: 0x1000,
            len: 10,
            pattern: 1
        }))
    );
    assert_eq!(
        lane.run_lane(&ops),
        Some(Some(Task::Alloc {
            size: 20,
            align: 1,
            zeroed: true
        }))
    );
    assert_eq!(
        lane.allocated(20, 1, true, 0x2000, false),
        Err(Defect::NotZeroed)
    );
    lane.allocated(20, 1, true, 0x2000, true).unwrap();
    let first = Live {
        ptr: 0x1000,
        size: 10,
        align: 16,
        pattern: 1,
    };
    assert_eq!(
        lane.run_lane(&ops),
        Some(Some(Task::Realloc {
            index: 0,
            live: first,
            new_size: 100
        }))
    );
    assert_eq!(Lane::preserved(10, 100), 10);
    assert_eq!(Lane::preserved(100, 10), 10);
    assert_eq!(
        lane.reallocated(0, 100, 0x3000, false),
        Err(Defect::PrefixLost)
    );
    assert_eq!(
        lane.reallocated(0, 100, 0x3000, true),
        Ok(Some(Fill {
            ptr: 0x3000,
            len: 100,
            pattern: 3
        }))
    );
    assert_eq!(
        lane.run_lane(&ops),
        Some(Some(Task::Dealloc(Live {
            ptr: 0x2000,
            size: 20,
            align: 1,
            pattern: 2
        })))
    );
    assert_eq!(lane.run_lane(&ops), None);
    let mut output = LaneOutput::new();
    output.publish(lane.into_live());
    let left = output.into_live();
    assert_eq!(left.len(), 1);
    assert_eq!((left[0].ptr, left[0].size), (0x3000, 100));
}

fn live(ptr: usize, size: usize) -> Live {
    Live {
        ptr,
        size,
        align: 1,
        pattern: 1,
    }
}

#[test]
fn overlaps_are_found() {
    assert_eq!(assert_disjoint(&vec![]), Ok(()));
    assert_eq!(
        assert_disjoint(&vec![live(30, 10), live(10, 10), live(20, 10)]),
        Ok(())
    );
    assert_eq!(
        assert_disjoint(&vec![live(30, 10), live(10, 21)]),
        Err(Defect::Overlap {
            first: 10,
            first_end: 31,
            second: 30,
            second_end: 40
        })
    );
    assert_eq!(
        assert_disjoint(&vec![live(50, 10), live(55, 1), live(20, 30), live(12, 9), live(5, 2)]),
        Err(Defect::Overlap {
            first: 12,
            first_end: 21,
            second: 20,
            second_end: 50
        })
    );
    assert_eq!(
        assert_disjoint(&vec![live(50, 10), live(usize::MAX, 1), live(55, 1)]),
        Err(Defect::RangeOverflow)
    );
    assert_eq!(
        assert_disjoint(&vec![live(usize::MAX, 1)]),
        Err(Defect::RangeOverflow)
    );
}
