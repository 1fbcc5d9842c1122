use fsk_modem::carrier::{CarrierState, CarrierTracker, Level, DROP_RUN_LENGTH};

fn strong(positive: bool) -> Level {
    Level { above_detect: true, below_drop: false, positive }
}

fn middling(positive: bool) -> Level {
    Level { above_detect: false, below_drop: false, positive }
}

fn weak(positive: bool) -> Level {
    Level { above_detect: false, below_drop: true, positive }
}

#[test]
fn idle_emits_ones_until_detect() {
    let mut t = CarrierTracker::new(DROP_RUN_LENGTH);
    assert_eq!(t.decide(middling(false)), 1);
    assert_eq!(t.decide(weak(false)), 1);
    assert_eq!(t.state(), CarrierState::Idle);
    assert_eq!(t.decide(strong(false)), 0);
    assert_eq!(t.state(), CarrierState::CarrierDetected);
    assert_eq!(t.decide(middling(true)), 1);
    assert_eq!(t.decide(middling(false)), 0);
}

#[test]
fn short_dip_keeps_carrier() {
    let mut t = CarrierTracker::new(DROP_RUN_LENGTH);
    t.decide(strong(true));
    let dips = vec![weak(false); DROP_RUN_LENGTH - 1];
    let bits = t.decide_all(&dips);
    assert_eq!(bits, vec![0u8; DROP_RUN_LENGTH - 1]);
    assert_eq!(t.state(), CarrierState::CarrierDetected);
    assert_eq!(t.decide(middling(true)), 1);
    let bits = t.decide_all(&vec![weak(false); DROP_RUN_LENGTH - 1]);
    assert_eq!(bits, vec![0u8; DROP_RUN_LENGTH - 1]);
    assert_eq!(t.state(), CarrierState::CarrierDetected);
}

#[test]
fn long_dip_drops_carrier() {
    let mut t = CarrierTracker::new(DROP_RUN_LENGTH);
    t.decide(strong(true));
    let bits = t.decide_all(&vec![weak(false); DROP_RUN_LENGTH]);
    assert_eq!(bits[DROP_RUN_LENGTH - 2], 0);
    assert_eq!(bits[DROP_RUN_LENGTH - 1], 1);
    assert_eq!(t.state(), CarrierState::Idle);
    assert_eq!(t.decide(weak(false)), 1);
}

#[test]
fn zero_drop_length_drops_at_once() {
    let mut t = CarrierTracker::new(0);
    assert_eq!(t.decide(strong(false)), 0);
    assert_eq!(t.decide(strong(false)), 1);
    assert_eq!(t.state(), CarrierState::Idle);
}
