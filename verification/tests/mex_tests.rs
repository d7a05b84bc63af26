use mex::Mex;
use mex::MexN;
use mex::MexNoDel;
use mex::OutOfRange;

#[test]
fn test_mex() {
    let mut mex = Mex::new();
    mex.add(2);
    assert_eq!(mex.mex(), 0);
    mex.add(100);
    assert_eq!(mex.mex(), 0);
    mex.add(0);
    assert_eq!(mex.mex(), 1);
    mex.add(1);
    assert_eq!(mex.mex(), 3);
    mex.add(2);
    assert_eq!(mex.mex(), 3);
    mex.remove(2);
    assert_eq!(mex.mex(), 3);
    mex.remove(2);
    assert_eq!(mex.mex(), 2);
}

#[test]
fn test_mex_n() {
    let mut mex = MexN::new(7);
    mex.add(2);
    assert_eq!(mex.mex(), 0);
    mex.add(100);
    assert_eq!(mex.mex(), 0);
    mex.add(0);
    assert_eq!(mex.mex(), 1);
    mex.add(1);
    assert_eq!(mex.mex(), 3);
    mex.add(2);
    assert_eq!(mex.mex(), 3);
    mex.remove(2);
    assert_eq!(mex.mex(), 3);
    mex.remove(2);
    assert_eq!(mex.mex(), 2);
}

#[test]
fn test_mex_no_del() {
    let mut mex = MexNoDel::new(7);
    mex.add(1).unwrap();
    assert_eq!(mex.mex, 0);
    mex.add(2).unwrap();
    assert_eq!(mex.mex, 0);
    mex.add(0).unwrap();
    assert_eq!(mex.mex, 3);
    mex.add(4).unwrap();
    assert_eq!(mex.mex, 3);
    mex.add(3).unwrap();
    assert_eq!(mex.mex, 5);
    mex.add(7).unwrap();
    assert_eq!(mex.mex, 5);
    mex.add(5).unwrap();
    assert_eq!(mex.mex, 6);
}

#[test]
fn fresh_trackers_report_zero() {
    let mex = Mex::new();
    assert_eq!(mex.mex(), 0);
    let mex_n = MexN::new(3);
    assert_eq!(mex_n.mex(), 0);
    let no_del = MexNoDel::new(3);
    assert_eq!(no_del.mex, 0);
}

#[test]
fn removing_absent_value_is_a_no_op() {
    let mut mex = Mex::new();
    mex.add(0);
    mex.add(1);
    assert_eq!(mex.mex(), 2);
    mex.remove(5);
    assert_eq!(mex.mex(), 2);
    mex.remove(5);
    assert_eq!(mex.mex(), 2);

    let mut mex_n = MexN::new(4);
    mex_n.add(0);
    assert_eq!(mex_n.mex(), 1);
    mex_n.remove(3);
    assert_eq!(mex_n.mex(), 1);
}

#[test]
fn add_remove_round_trip_restores_mex() {
    let mut mex = Mex::new();
    mex.add(0);
    mex.add(1);
    assert_eq!(mex.mex(), 2);
    mex.add(2);
    assert_eq!(mex.mex(), 3);
    mex.remove(2);
    assert_eq!(mex.mex(), 2);

    let mut mex_n = MexN::new(5);
    mex_n.add(0);
    assert_eq!(mex_n.mex(), 1);
    mex_n.add(1);
    mex_n.remove(1);
    assert_eq!(mex_n.mex(), 1);
}

#[test]
fn mex_never_exceeds_operation_count() {
    let mut mex = Mex::new();
    assert_eq!(mex.mex(), 0);
    for i in 0..10usize {
        mex.add(i);
        assert!(mex.mex() <= i + 1);
    }
    assert_eq!(mex.mex(), 10);
}

#[test]
fn unbounded_handles_large_and_repeated_values() {
    let mut mex = Mex::new();
    mex.add(usize::MAX);
    assert_eq!(mex.mex(), 0);
    mex.add(usize::MAX);
    assert_eq!(mex.mex(), 0);
    mex.remove(usize::MAX);
    assert_eq!(mex.mex(), 0);
    mex.add(0);
    assert_eq!(mex.mex(), 1);
}

#[test]
fn bounded_tracker_caps_mex_at_the_bound() {
    let mut mex_n = MexN::new(3);
    mex_n.add(7);
    assert_eq!(mex_n.mex(), 0);
    mex_n.add(0);
    mex_n.add(1);
    assert_eq!(mex_n.mex(), 2);
}

#[test]
fn insert_only_cursor_never_decreases() {
    let mut mex = MexNoDel::new(6);
    let inserts = [6usize, 0, 3, 1, 2, 2, 4];
    let mut last = mex.mex;
    for v in inserts {
        mex.add(v).unwrap();
        assert!(mex.mex >= last);
        last = mex.mex;
    }
    assert_eq!(mex.mex, 5);
}

#[test]
fn insert_only_boundary_values() {
    let mut mex = MexNoDel::new(7);
    assert_eq!(mex.add(7), Ok(()));
    assert_eq!(mex.add(8), Err(OutOfRange));
    assert_eq!(mex.mex, 0);
    assert_eq!(mex.add(usize::MAX), Err(OutOfRange));

    let mut tiny = MexNoDel::new(0);
    assert_eq!(tiny.add(1), Err(OutOfRange));
    assert_eq!(tiny.mex, 0);
    assert_eq!(tiny.add(0), Ok(()));
    assert_eq!(tiny.mex, 1);
}
