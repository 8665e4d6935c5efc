use renet::network_info::{estimate, smooth, BandwidthInfo, PacketInfo, UNIT};

#[test]
fn packet_info_new_keeps_its_arguments() {
    let info = PacketInfo::new(7, 1200);
    assert_eq!(info.time, 7);
    assert_eq!(info.size, 1200);
}

#[test]
fn smoothing_with_factor_one_tracks_the_sample() {
    assert_eq!(smooth(1_000, 5_000, UNIT as u32), 5_000);
    assert_eq!(smooth(5_000, 1_000, UNIT as u32), 1_000);
}

#[test]
fn smoothing_with_factor_zero_keeps_the_estimate() {
    assert_eq!(smooth(1_000, 5_000, 0), 1_000);
    assert_eq!(estimate(1_000, 5_000, 0), 1_000);
    assert_eq!(estimate(0, 5_000, 0), 5_000);
}

#[test]
fn bandwidth_of_two_samples() {
    let mut info = BandwidthInfo::new(100_000);
    info.sent_packet(0, 1000);
    info.sent_packet(1_000_000_000, 1000);
    info.update_metrics();
    // 2000 bytes in one second: 16 kilobits per second, in thousandths.
    assert_eq!(info.sent_kbps, 16_000);
    assert_eq!(info.received_kbps, 0);
}

#[test]
fn smoothing_moves_by_the_factor_and_rounds_towards_the_estimate() {
    assert_eq!(smooth(1_000, 2_000, 100_000), 1_100);
    assert_eq!(smooth(2_000, 1_000, 100_000), 1_900);
    assert_eq!(smooth(0, 9, 100_000), 0);
    assert_eq!(smooth(9, 0, 100_000), 9);
    assert_eq!(smooth(u128::MAX, 0, 500_000), u128::MAX - u128::MAX / 2);
    assert_eq!(smooth(0, u128::MAX, UNIT as u32), u128::MAX);
}

#[test]
fn a_window_without_a_span_has_no_throughput() {
    let mut info = BandwidthInfo::new(100_000);
    info.update_metrics();
    assert_eq!(info.sent_kbps, 0);
    info.sent_packet(5, 1000);
    info.update_metrics();
    assert_eq!(info.sent_kbps, 0);
    info.sent_packet(5, 1000);
    info.update_metrics();
    assert_eq!(info.sent_kbps, 0);
}

#[test]
fn samples_without_bytes_do_not_count() {
    let mut info = BandwidthInfo::new(100_000);
    info.received_packet(0, 0);
    info.received_packet(1_000_000_000, 500);
    info.received_packet(2_000_000_000, 500);
    info.received_packet(9_000_000_000, 0);
    info.update_metrics();
    // 1000 bytes between the seconds 1 and 2.
    assert_eq!(info.received_kbps, 8_000);
    assert_eq!(info.sent_kbps, 0);
}

#[test]
fn the_window_keeps_the_sixty_newest_samples() {
    let mut info = BandwidthInfo::new(0);
    info.sent_packet(0, 1_000_000);
    for second in 1..=60u64 {
        info.sent_packet(second * 1_000_000_000, 1000);
    }
    info.update_metrics();
    // The first sample has left: 60000 bytes in 59 seconds.
    assert_eq!(info.sent_kbps, 60_000 * 8 * 1_000_000_000 / 59_000_000_000);
}

#[test]
fn the_estimate_follows_the_factor() {
    let mut info = BandwidthInfo::new(500_000);
    info.sent_packet(0, 1000);
    info.sent_packet(1_000_000_000, 1000);
    info.update_metrics();
    assert_eq!(info.sent_kbps, 16_000);
    info.sent_packet(2_000_000_000, 4000);
    info.update_metrics();
    // 6000 bytes in two seconds are 24000; half of the way from 16000.
    assert_eq!(info.sent_kbps, 20_000);
}
