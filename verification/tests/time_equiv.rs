use lau_geometric_deep_learning::time_equiv::TimeShift;

#[test]
fn test_time_shift_inverse() {
    let ts = TimeShift::new(3);
    let inv = ts.inverse();
    assert_eq!(inv.steps, -3);
}

#[test]
fn test_time_shift_compose() {
    let t1 = TimeShift::new(2);
    let t2 = TimeShift::new(3);
    let comp = t1.compose(&t2);
    assert_eq!(comp.steps, 5);
}

#[test]
fn test_time_shift_identity() {
    let ts = TimeShift::identity();
    assert_eq!(ts.steps, 0);
}

#[test]
fn test_time_shift_forward() {
    let ts = TimeShift::new(1);
    let features = vec![vec![1.0, 2.0], vec![3.0, 4.0], vec![5.0, 6.0]];
    let shifted: Vec<Vec<f64>> = (0..3).map(|i| features[ts.source_index(i, 3)].clone()).collect();
    // Shift by 1: row i gets from row (i+1)%3
    assert!((shifted[0][0] - 3.0f64).abs() < 1e-10); // row 0 ← row 1
    assert!((shifted[1][0] - 5.0f64).abs() < 1e-10); // row 1 ← row 2
    assert!((shifted[2][0] - 1.0f64).abs() < 1e-10); // row 2 ← row 0
}

#[test]
fn shift_source_rows() {
    // Shift by 1: row i gets from row (i+1)%3
    let ts = TimeShift::new(1);
    assert_eq!(ts.source_index(0, 3), 1);
    assert_eq!(ts.source_index(1, 3), 2);
    assert_eq!(ts.source_index(2, 3), 0);
    let back = TimeShift::new(-4);
    assert_eq!(back.source_index(1, 3), 0);
    assert_eq!(back.source_index(0, 3), 2);
}

#[test]
fn shifts_compose_and_cancel() {
    let n = 7;
    for a in -10i64..10 {
        for b in -10i64..10 {
            let ta = TimeShift::new(a);
            let tb = TimeShift::new(b);
            let tab = ta.compose(&tb);
            for i in 0..n {
                assert_eq!(tb.source_index(ta.source_index(i, n), n), tab.source_index(i, n));
                assert_eq!(ta.inverse().source_index(ta.source_index(i, n), n), i);
            }
        }
    }
    for i in 0..n {
        assert_eq!(TimeShift::identity().source_index(i, n), i);
    }
}
