use casetrace::fanout::{Exposure, FanOut};

#[test]
fn all_succeed() {
    let mut m = FanOut::new(3, 10);
    // Ceiling 10 admits all three at once.
    assert!(m.can_start());
    let i0 = m.start();
    let i1 = m.start();
    let i2 = m.start();
    assert_eq!((i0, i1, i2), (0, 1, 2));
    assert!(!m.finished());
    m.on_success();
    m.on_success();
    m.on_success();
    assert!(m.finished());
    assert_eq!(m.done, 3);
    assert_eq!(m.failures, 0);
}

#[test]
fn one_failure_among_three() {
    // Three edges, the second write fails: the call reports failure, the
    // other two may already be applied (no rollback), and the batch
    // finishes without hanging or exceeding the ceiling.
    let mut m = FanOut::new(3, 10);
    m.start();
    m.start();
    m.start();
    m.on_success(); // first edge applied
    m.on_failure(); // second edge rejected
    assert!(!m.can_start()); // fail-fast: nothing further is admitted
    m.on_success(); // third was already in flight; it still lands
    assert!(m.finished());
    assert_eq!(m.done, 2); // the applied edges stay applied
    assert_eq!(m.failures, 1);
    assert_eq!(m.started, 3);
}

#[test]
fn failure_abandons_rest_of_batch() {
    let mut m = FanOut::new(5, 10);
    m.start();
    m.start();
    m.on_failure();
    assert!(!m.can_start());
    m.on_success();
    assert!(m.finished());
    // Three of the five tasks were never handed out.
    assert_eq!(m.started, 2);
}

#[test]
fn ceiling_caps_in_flight() {
    let mut m = FanOut::new(5, 2);
    m.start();
    m.start();
    // Two in flight at the ceiling of two: no third admission.
    assert!(!m.can_start());
    assert!(!m.finished());
    m.on_success();
    assert!(m.can_start()); // a completion frees one slot
    m.start();
    assert!(!m.can_start());
    m.on_success();
    m.start();
    assert!(!m.can_start());
    m.on_success();
    m.on_success();
    m.start();
    m.on_success();
    assert!(m.finished());
    assert_eq!(m.done, 5);
}

#[test]
fn exposure_edge_carries_fields() {
    let e = Exposure {
        donor: "case-1".to_string(),
        recipient: "case-2".to_string(),
        total_minutes: Some(15),
        close: Some(true),
        certainty_bits: Some(0.75f64.to_bits()),
    };
    assert_eq!(e.donor, "case-1");
    assert_eq!(e.recipient, "case-2");
    assert_eq!(f64::from_bits(e.certainty_bits.unwrap()), 0.75);
}
