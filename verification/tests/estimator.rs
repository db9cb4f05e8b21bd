use rudp::estimator::{round_trip_sample, time_since, LossEstimator, RttEstimator};

#[test]
fn the_estimate_starts_at_zero() {
    let rtt = RttEstimator::new();
    assert_eq!(rtt.millis(), 0);
    let loss = LossEstimator::new();
    assert_eq!(loss.percent(), 0);
    assert_eq!(loss.observed(), 0);
    assert_eq!(loss.lost(), 0);
}

#[test]
fn a_sample_moves_the_estimate_by_a_tenth() {
    let mut rtt = RttEstimator::new();
    rtt.update(500);
    assert_eq!(rtt.millis(), 50);
    rtt.update(0);
    assert_eq!(rtt.millis(), 45);
    rtt.update(1045);
    assert_eq!(rtt.millis(), 145);
    rtt.update(145);
    assert_eq!(rtt.millis(), 145);
    rtt.reset();
    assert_eq!(rtt.millis(), 0);
}

#[test]
fn the_estimate_is_rounded_up_to_whole_milliseconds() {
    let mut rtt = RttEstimator::new();
    rtt.update(1);
    assert_eq!(rtt.millis(), 1);
    rtt.update(0);
    assert_eq!(rtt.millis(), 1);
}

#[test]
fn the_largest_sample_is_held() {
    let mut rtt = RttEstimator::new();
    for _ in 0..400 {
        rtt.update(u32::MAX);
    }
    assert!(rtt.millis() > u32::MAX - 10);
}

#[test]
fn samples_are_taken_in_their_order() {
    let mut one = RttEstimator::new();
    one.update_all(&vec![100, 0, 50]);
    let mut other = RttEstimator::new();
    other.update(100);
    other.update(0);
    other.update(50);
    // 10 -> 9 -> 13.1
    assert_eq!(one.millis(), 14);
    assert_eq!(other.millis(), 14);
}

#[test]
fn congestion_follows_the_threshold() {
    let mut rtt = RttEstimator::new();
    rtt.update(1000);
    assert!(rtt.congested(false, 99));
    assert!(!rtt.congested(true, 101));
    assert!(rtt.congested(true, 100));
    assert!(!rtt.congested(false, 100));
}

#[test]
fn time_since_does_not_go_below_zero() {
    assert_eq!(time_since(10, 4), 6);
    assert_eq!(time_since(4, 10), 0);
    assert_eq!(time_since(u64::MAX, 0), u64::MAX);
}

#[test]
fn round_trip_samples_are_bounded() {
    assert_eq!(round_trip_sample(100, 40, 50), 10);
    assert_eq!(round_trip_sample(100, 40, 60), 0);
    assert_eq!(round_trip_sample(100, 40, 61), 0);
    assert_eq!(round_trip_sample(10, 20, 0), 0);
    assert_eq!(round_trip_sample(u64::MAX, 0, 0), u32::MAX);
    assert_eq!(round_trip_sample(u64::from(u32::MAX) + 7, 0, 7), u32::MAX);
    assert_eq!(round_trip_sample(u64::from(u32::MAX) + 7, 0, 8), u32::MAX - 1);
}

#[test]
fn loss_is_the_share_of_lost_packets() {
    let mut loss = LossEstimator::new();
    loss.record(true);
    assert_eq!(loss.percent(), 100);
    loss.record(false);
    assert_eq!(loss.percent(), 50);
    loss.record(false);
    assert_eq!(loss.percent(), 33);
    assert_eq!((loss.lost(), loss.observed()), (1, 3));
    loss.reset();
    assert_eq!(loss.percent(), 0);
    assert_eq!((loss.lost(), loss.observed()), (0, 0));
}

#[test]
fn loss_looks_back_on_256_packets() {
    let mut loss = LossEstimator::new();
    loss.record_many(true, 300);
    assert_eq!((loss.lost(), loss.observed()), (256, 256));
    assert_eq!(loss.percent(), 100);
    loss.record_many(false, 128);
    assert_eq!((loss.lost(), loss.observed()), (128, 256));
    assert_eq!(loss.percent(), 50);
    loss.record(false);
    assert_eq!((loss.lost(), loss.observed()), (127, 256));
    assert_eq!(loss.percent(), 49);
    loss.record_many(false, 127);
    assert_eq!(loss.percent(), 0);
    loss.record_many(false, 0);
    assert_eq!((loss.lost(), loss.observed()), (0, 256));
}
