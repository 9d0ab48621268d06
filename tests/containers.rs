use archive_engine::circular::{CircularBuf, RollingBuf, RollingBufError};
use rand::Rng;
use rand::SeedableRng;

#[test]
fn test_circular_basic() {
    let mut buf = CircularBuf::<i32, 2>::new();

    buf.push_back(0);
    assert_eq!(*buf.get(0).unwrap(), 0);

    buf.push_back(1);
    assert_eq!(*buf.get(0).unwrap(), 0);
    assert_eq!(*buf.get(1).unwrap(), 1);

    buf.push_back(2);
    assert_eq!(*buf.get(0).unwrap(), 1);
    assert_eq!(*buf.get(1).unwrap(), 2);

    assert_eq!(buf.pop_front(), Some(1));
    assert_eq!(buf.pop_front(), Some(2));

    assert_eq!(buf.pop_front(), None);
}

#[test]
fn test_rollover_circular_access() {
    let mut buf = RollingBuf::<i32, 2, 16>::new();

    buf.add(0, 0).unwrap();

    assert_eq!(*buf.index(0).unwrap().unwrap(), 0);

    buf.add(1, 1).unwrap();

    assert_eq!(*buf.index(0).unwrap().unwrap(), 0);
    assert_eq!(*buf.index(1).unwrap().unwrap(), 1);

    buf.add(2, 2).unwrap();

    assert_eq!(*buf.index(2).unwrap().unwrap(), 2);

    assert_eq!(buf.index(0), Err(RollingBufError::TooOld));
    assert_eq!(buf.index(3), Err(RollingBufError::OutOfBounds));
}

#[test]
fn test_rollover_wraparound() {
    let mut buf = RollingBuf::<i32, 2, 16>::new();
    for i in 0..=20 {
        buf.add(i as usize % 16, i).unwrap();
    }

    assert_eq!(buf.index(18 % 16), Err(RollingBufError::TooOld));
    assert_eq!(*buf.index(19 % 16).unwrap().unwrap(), 19);
    assert_eq!(*buf.index(20 % 16).unwrap().unwrap(), 20);
    assert_eq!(buf.index(21 % 16), Err(RollingBufError::OutOfBounds));
}

#[test]
fn panic_stress_test() {
    let mut rng = rand_pcg::Pcg32::seed_from_u64(123);

    for _i in 0..4 {
        let mut buf = RollingBuf::<usize, 2, 16>::new();

        for j in 0..32 {
            let diff: i32 = rng.gen_range(-3..3);
            let idx = j + diff;
            let idx = idx as usize;
            let _ = buf.add(idx, idx);

            let diff: i32 = rng.gen_range(-6..3);
            let idx = j + diff;
            let idx = idx as usize;
            let _ = buf.index(idx);
        }
    }
}

#[test]
fn circular_get_mut_writes_in_place() {
    let mut buf = CircularBuf::<i32, 3>::new();
    buf.push_back(5);
    buf.push_back(6);
    *buf.get_mut(1).unwrap() = 60;
    assert_eq!(*buf.get(0).unwrap(), 5);
    assert_eq!(*buf.get(1).unwrap(), 60);
    assert!(buf.get_mut(2).is_none());
    assert_eq!(buf.len(), 2);
    assert_eq!(buf.start(), 0);
}

#[test]
fn circular_full_push_moves_start() {
    let mut buf = CircularBuf::<i32, 2>::new();
    buf.push_back(1);
    buf.push_back(2);
    buf.push_back(3);
    assert_eq!(buf.start(), 1);
    assert_eq!(buf.len(), 2);
    assert!(buf.get(2).is_none());
}

#[test]
fn rolling_round_trip_within_window() {
    let mut buf = RollingBuf::<u32, 4, 32>::new();
    for i in 0..40u32 {
        assert_eq!(buf.add(i as usize % 32, i), Ok(i as usize));
    }
    // the window holds true indices 36..40
    for i in 36..40u32 {
        assert_eq!(*buf.index(i as usize % 32).unwrap().unwrap(), i);
    }
}

#[test]
fn rolling_evicted_entry_is_too_old() {
    let mut buf = RollingBuf::<u32, 2, 16>::new();
    for i in 0..6u32 {
        buf.add(i as usize, i).unwrap();
    }
    // 4 and 5 remain; 0..4 were evicted
    assert_eq!(buf.index(3), Err(RollingBufError::TooOld));
    assert_eq!(buf.index(0), Err(RollingBufError::TooOld));
}

#[test]
fn rolling_far_jump_is_refused() {
    let mut buf = RollingBuf::<u32, 2, 16>::new();
    buf.add(0, 0).unwrap();
    // more than 2 * CAP ahead of the start
    assert_eq!(buf.add(5, 5), Err(RollingBufError::OutOfBounds));
    assert_eq!(buf.add(16, 1), Err(RollingBufError::OutOfBounds));
    // a gap within reach is filled with empty slots
    assert_eq!(buf.add(3, 3), Ok(3));
    assert_eq!(buf.index(2), Ok(None));
    assert_eq!(*buf.index(3).unwrap().unwrap(), 3);
}
