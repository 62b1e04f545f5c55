//! The controller, held against the machine's floating-point arithmetic.

use mortise::config;
use mortise::delta::DeltaUpdate;
use mortise::{
    CompetingMode, Direction, Double, EndClock, Mortise, MortiseConfig, OutOfRange, Packet,
    RateSample, Readings, RttSample, Span, Transport, Velocity,
};

const PAYLOAD: u64 = 1_200;

fn d(x: f64) -> Double {
    Double::from_bits(x.to_bits())
}

fn f(x: Double) -> f64 {
    f64::from_bits(x.to_bits())
}

fn ms(n: u64) -> Span {
    Span::from_micros(1_000 * n)
}

fn transport() -> Transport {
    Transport { send_udp_payload_size: PAYLOAD, initial_rtt: ms(250) }
}

fn fresh() -> Mortise {
    let config = MortiseConfig::new(4 * PAYLOAD, 80 * PAYLOAD, Some(ms(100)), PAYLOAD);
    Mortise::new(config, transport(), String::from("trace-1"), 7, ms(1_000))
}

/// A controller out of slow start that knows a former window.
fn steady() -> Mortise {
    let mut m = fresh();
    m.slow_start = false;
    m.cwnd = 100_000;
    m.velocity.last_cwnd = 100_000;
    m.round.is_round_start = true;
    m.rate_ewma = d(2.0);
    m.rate_ewmv = d(0.25);
    m
}

fn packet(pkt_num: u64, sent_size: u64) -> Packet {
    Packet { pkt_num, sent_size }
}

fn rtt(latest: Span, smoothed: Span) -> RttSample {
    RttSample { latest_rtt: latest, smoothed_rtt: smoothed }
}

fn clock(at: Span) -> EndClock {
    EndClock { model: at, check: at, stamp: at }
}

fn sample(rate: u64) -> RateSample {
    RateSample { app_limited: false, delivery_rate: rate }
}

// Configuration and construction.

#[test]
fn configuration_takes_the_given_windows() {
    let config = MortiseConfig::new(1, 2, None, 3);
    assert_eq!((config.min_cwnd, config.initial_cwnd, config.max_datagram_size), (1, 2, 3));
    assert_eq!(config.initial_rtt, None);
    assert_eq!(f(config.slow_start_delta), 0.4);
    assert_eq!(f(config.steady_delta), 0.4);
    assert!(config.use_standing_rtt);
}

#[test]
fn default_configuration_is_in_payloads() {
    let config = MortiseConfig::default_for(&transport());
    assert_eq!(config.min_cwnd, 4_800);
    assert_eq!(config.initial_cwnd, 96_000);
    assert_eq!(config.max_datagram_size, 1_200);
    assert_eq!(config.initial_rtt, Some(ms(250)));
    assert_eq!(f(config.slow_start_delta), 0.4);
    assert_eq!(f(config.steady_delta), 0.4);
    assert!(config.use_standing_rtt);
    assert_eq!(config, MortiseConfig::new(4_800, 96_000, Some(ms(250)), 1_200));
}

#[test]
fn a_new_controller_is_in_slow_start() {
    let m = fresh();
    assert!(m.in_slow_start());
    assert_eq!(m.congestion_window(), 96_000);
    assert_eq!(m.initial_window(), 96_000);
    assert_eq!(m.minimal_window(), 4_800);
    assert_eq!(m.name(), "COPA");
    assert_eq!(m.mode, CompetingMode::Default);
    assert_eq!(m.velocity.velocity, 1);
    assert_eq!(m.velocity.direction, Direction::Up);
    assert_eq!(f(m.delta), 0.4);
    assert_eq!(f(m.min_delta), 0.05);
    assert_eq!(f(m.rate_ewma), f64::MIN);
    assert_eq!(f(m.rate_ewmv), 0.0);
    assert_eq!(m.rate_residuals.len(), 0);
    assert_eq!(m.flow_id, 7);
    assert_eq!(m.connection_trace_id, "trace-1");
    assert!(!m.is_round_start());
    assert_eq!(m.start_time, ms(1_000));
    assert_eq!(Mortise::filter_windows(), (100_000, 10_000_000));
}

#[test]
fn a_state_can_be_tested() {
    let mut m = fresh();
    assert!(m.is_wf());
    m.velocity.velocity = 0;
    assert!(!m.is_wf());
    m.velocity.velocity = 1;
    for _ in 0..10 {
        m.rate_residuals.push_back(d(0.0));
    }
    assert!(m.is_wf());
    m.rate_residuals.push_back(d(0.0));
    assert!(!m.is_wf());
}

#[test]
fn the_reported_window_is_not_below_the_minimal_one() {
    let mut m = fresh();
    m.cwnd = 17;
    assert_eq!(m.congestion_window(), 4_800);
    m.cwnd = 4_801;
    assert_eq!(m.congestion_window(), 4_801);
}

// Rates.

#[test]
fn standing_round_trip_falls_back_on_what_is_assumed() {
    let mut m = fresh();
    assert_eq!(m.get_standing_rtt(40_000), ms(40));
    assert_eq!(m.get_standing_rtt(0), ms(100));
    m.config.initial_rtt = None;
    assert_eq!(m.get_standing_rtt(0), ms(250));
    m.config.initial_rtt = Some(Span::from_nanos(0));
    assert_eq!(m.get_standing_rtt(0), Span::from_micros(1));
}

#[test]
fn pacing_is_twice_the_rate_of_the_window() {
    let m = fresh();
    assert_eq!(m.current_rate(50_000), 1_920_000);
    assert_eq!(m.pacing_rate(50_000), Some(3_840_000));
    assert_eq!(m.pacing_rate(0), Some(1_920_000));
}

// Packets.

#[test]
fn sending_is_recorded() {
    let mut m = fresh();
    m.on_sent(&packet(5, 1_200), 1_200);
    m.on_sent(&packet(6, 1_000), 2_200);
    assert_eq!(m.stats().bytes_in_flight, 2_200);
    assert_eq!(m.stats().bytes_sent_in_total, 2_200);
    assert_eq!(m.last_sent_pkt_num, 6);
    m.on_sent(&packet(7, u64::MAX), 0);
    assert_eq!(m.stats().bytes_sent_in_total, u64::MAX);
}

#[test]
fn acknowledgements_add_up() {
    let mut m = fresh();
    m.on_sent(&packet(9, 3_000), 3_000);
    m.begin_ack(ms(1_100));
    m.on_ack(&packet(4, 1_000), &rtt(ms(30), ms(35)));
    m.on_ack(&packet(3, 500), &rtt(ms(20), ms(33)));
    m.on_ack(&packet(2, 300), &rtt(ms(25), ms(32)));
    assert_eq!(m.ack_state.newly_acked_bytes, 1_800);
    assert_eq!(m.ack_state.largest_acked_pkt_num, 4);
    assert_eq!(m.ack_state.min_rtt, ms(20));
    assert_eq!(m.ack_state.last_srtt, ms(32));
    assert_eq!(m.ack_state.now, ms(1_100));
    assert_eq!(m.stats().bytes_in_flight, 1_200);
    assert_eq!(m.stats().bytes_acked_in_total, 1_800);
    assert_eq!(m.stats().bytes_acked_in_slow_start, 1_800);
    m.slow_start = false;
    m.on_ack(&packet(8, 5_000), &rtt(ms(25), ms(32)));
    assert_eq!(m.stats().bytes_in_flight, 0);
    assert_eq!(m.stats().bytes_acked_in_slow_start, 1_800);
    m.begin_ack(ms(1_200));
    assert_eq!(m.ack_state.newly_acked_bytes, 0);
    assert_eq!(m.ack_state.largest_acked_pkt_num, 0);
    assert!(m.ack_state.min_rtt.is_zero());
    assert!(m.ack_state.last_srtt.is_zero());
}

#[test]
fn order_within_an_acknowledgement_makes_no_difference() {
    let mut one = fresh();
    let mut other = fresh();
    one.on_ack(&packet(4, 1_000), &rtt(ms(30), ms(35)));
    one.on_ack(&packet(9, 700), &rtt(ms(20), ms(33)));
    other.on_ack(&packet(9, 700), &rtt(ms(20), ms(33)));
    other.on_ack(&packet(4, 1_000), &rtt(ms(30), ms(35)));
    assert_eq!(one.stats, other.stats);
    assert_eq!(one.ack_state.min_rtt, other.ack_state.min_rtt);
    assert_eq!(one.ack_state.newly_acked_bytes, other.ack_state.newly_acked_bytes);
    assert_eq!(one.ack_state.largest_acked_pkt_num, 9);
    assert_eq!(other.ack_state.largest_acked_pkt_num, 9);
    assert_eq!(one.ack_state.last_srtt, ms(33));
    assert_eq!(other.ack_state.last_srtt, ms(35));
}

#[test]
fn losses_are_recorded() {
    let mut m = fresh();
    m.on_congestion_event(700, 9_000);
    assert_eq!(m.stats().bytes_lost_in_total, 700);
    assert_eq!(m.stats().bytes_lost_in_slow_start, 700);
    assert_eq!(m.stats().bytes_in_flight, 9_000);
    m.slow_start = false;
    m.on_congestion_event(300, 8_000);
    assert_eq!(m.stats().bytes_lost_in_total, 1_000);
    assert_eq!(m.stats().bytes_lost_in_slow_start, 700);
}

// Responses.

#[test]
fn responses_are_counted() {
    let mut m = fresh();
    m.report_resp_size(50_000, true, ms(1_001));
    m.report_resp_size(50_001, true, ms(1_002));
    assert_eq!((m.sending_resp, m.sending_large_resp, m.total_resp_cnts), (2, 1, 2));
    assert_eq!(m.recent_resp_time, ms(1_002));
    m.report_resp_size(50_001, false, ms(1_003));
    assert_eq!((m.sending_resp, m.sending_large_resp, m.total_resp_cnts), (1, 0, 2));
    assert_eq!(m.recent_resp_time, ms(1_002));
    m.set_unsent_bytes(12_345);
    assert_eq!(m.unsent_bytes, 12_345);
}

#[test]
fn counters_of_responses_have_bounds() {
    let mut m = fresh();
    assert!(m.can_report_resp_size(60_000, true));
    assert!(!m.can_report_resp_size(10, false));
    m.sending_resp = 1;
    assert!(m.can_report_resp_size(10, false));
    assert!(!m.can_report_resp_size(60_000, false));
    m.sending_large_resp = u8::MAX;
    assert!(!m.can_report_resp_size(60_000, true));
    assert!(m.can_report_resp_size(50_000, true));
    m.sending_resp = u64::MAX;
    assert!(!m.can_report_resp_size(10, true));
    m.sending_resp = 0;
    m.total_resp_cnts = u64::MAX;
    assert!(!m.can_report_resp_size(10, true));
}

// Rounds.

#[test]
fn a_round_ends_with_the_packet_that_was_sent_last() {
    let mut m = fresh();
    m.on_sent(&packet(10, 1_000), 1_000);
    m.on_ack(&packet(1, 900), &rtt(ms(20), ms(20)));
    m.on_congestion_event(100, 0);
    m.update_round();
    assert!(m.is_round_start());
    assert_eq!(m.round.round_count, 1);
    assert_eq!(m.round.round_end_pkt_num, 10);
    assert_eq!(f(m.round.loss_rate), 0.1);
    m.begin_ack(ms(1_010));
    m.on_ack(&packet(9, 500), &rtt(ms(20), ms(20)));
    m.update_round();
    assert!(!m.is_round_start());
    assert_eq!(m.round.round_count, 1);
    m.on_ack(&packet(10, 500), &rtt(ms(20), ms(20)));
    m.update_round();
    assert!(m.is_round_start());
    assert_eq!(m.round.round_count, 2);
    assert_eq!(f(m.round.loss_rate), 0.0);
}

#[test]
fn a_round_with_nothing_in_it_has_no_loss_rate() {
    let mut m = fresh();
    m.update_round();
    assert!(m.is_round_start());
    assert!(m.round.loss_rate.nan());
    m.update_mode();
    assert_eq!(m.mode, CompetingMode::Default);
}

// Mode.

#[test]
fn mode_follows_the_loss_rate() {
    let mut m = fresh();
    m.round.loss_rate = d(0.100_001);
    m.delta = d(0.15);
    m.update_mode();
    assert_eq!(m.mode, CompetingMode::Competitive);
    assert_eq!(f(m.delta), 0.3);
    m.update_mode();
    assert_eq!(f(m.delta), 0.5);
    m.round.loss_rate = d(0.099_999);
    m.config.steady_delta = d(0.2);
    m.update_mode();
    assert_eq!(m.mode, CompetingMode::Default);
    assert_eq!(f(m.delta), 0.4);
    m.slow_start = false;
    m.update_mode();
    assert_eq!(f(m.delta), 0.2);
}

#[test]
fn a_loss_rate_at_the_threshold_does_not_exceed_it() {
    let mut m = steady();
    m.round.loss_rate = d(0.1);
    m.config.steady_delta = d(0.4);
    m.delta = d(0.125);
    m.update_mode();
    assert_eq!(m.mode, CompetingMode::Default);
    assert_eq!(f(m.delta), 0.4);
    m.round.loss_rate = d(f64::from_bits(0.1f64.to_bits() + 1));
    m.delta = d(0.125);
    m.update_mode();
    assert_eq!(m.mode, CompetingMode::Competitive);
    assert_eq!(f(m.delta), 0.25);
}

// Filters.

#[test]
fn filters_are_fed_with_the_acknowledgement() {
    let mut m = fresh();
    m.begin_ack(ms(1_500));
    m.on_ack(&packet(1, 900), &rtt(ms(20), ms(30)));
    let feed = m.end_ack();
    assert_eq!(feed.window, 15_000);
    assert_eq!(feed.time, 500_000);
    assert_eq!(feed.rtt, 20_000);
    assert!(m.is_round_start());
}

#[test]
fn an_acknowledgement_without_a_round_trip_is_given_one() {
    let mut m = fresh();
    m.begin_ack(ms(900));
    m.ack_state.last_srtt = ms(44);
    let feed = m.feed_filters();
    assert_eq!((feed.window, feed.time, feed.rtt), (22_000, 0, 44_000));
    assert_eq!(m.ack_state.min_rtt, ms(44));
    m.begin_ack(ms(1_001));
    let feed = m.feed_filters();
    assert_eq!((feed.window, feed.time, feed.rtt), (0, 1_000, 100_000));
    m.config.initial_rtt = None;
    m.begin_ack(ms(1_002));
    assert_eq!(m.feed_filters().rtt, 20_000);
}

// Target rate.

#[test]
fn an_empty_queue_lets_the_window_grow() {
    let mut m = steady();
    let report = m.update_rates(&Readings { min_rtt: 50_000, standing_rtt: 50_000 });
    assert!(m.increase_cwnd);
    assert_eq!(m.target_rate, 2_000_000);
    assert_eq!(report.current_rate, 2_000_000);
    assert!(report.queueing_delay.is_zero());
    assert!(!report.bounced);
}

#[test]
fn the_target_rate_is_a_datagram_per_delta_and_queueing_delay() {
    let mut m = steady();
    m.delta = d(0.4);
    let report = m.update_rates(&Readings { min_rtt: 40_000, standing_rtt: 50_000 });
    assert_eq!(report.queueing_delay, ms(10));
    assert_eq!(m.target_rate, (1_200f64 / 0.4 / 0.01) as u64);
    assert_eq!(report.current_rate, 2_000_000);
    assert!(!m.increase_cwnd);
    let report = m.update_rates(&Readings { min_rtt: 49_000, standing_rtt: 50_000 });
    assert_eq!(m.target_rate, (1_200f64 / 0.4 / 0.001) as u64);
    assert!(m.increase_cwnd);
    assert!(!report.bounced);
}

#[test]
fn a_small_delta_bounces_while_the_window_falls() {
    let readings = Readings { min_rtt: 40_000, standing_rtt: 50_000 };
    let plain = (1_200f64 / 0.1 / 0.01) as u64;
    let mut m = steady();
    m.delta = d(0.1);
    m.velocity.direction = Direction::Down;
    m.intervals_cnt = 9;
    let report = m.update_rates(&readings);
    assert!(report.bounceable && report.bounced);
    assert_eq!(m.target_rate, (plain as f64 * 2.2) as u64);
    m.intervals_cnt = 16;
    let report = m.update_rates(&readings);
    assert!(report.bounceable && !report.bounced);
    assert_eq!(m.target_rate, plain);
    m.intervals_cnt = 9;
    m.velocity.direction = Direction::Up;
    assert!(!m.update_rates(&readings).bounced);
    m.velocity.direction = Direction::Down;
    m.delta = d(0.2);
    let report = m.update_rates(&readings);
    assert!(!report.bounceable && !report.bounced);
}

// Velocity.

#[test]
fn slow_start_leaves_the_velocity_alone() {
    let mut m = fresh();
    m.increase_cwnd = true;
    let before = m.velocity;
    assert!(m.update_velocity(20_000, ms(2_000)).is_none());
    assert_eq!(m.velocity, before);
}

#[test]
fn the_first_update_only_records_the_window() {
    let mut m = fresh();
    m.cwnd = 10;
    m.velocity.velocity = 4;
    m.velocity.same_direction_cnt = 9;
    m.update_velocity(20_000, ms(2_000));
    assert_eq!(m.velocity.last_cwnd, 4_800);
    assert_eq!(m.velocity.velocity, 1);
    assert_eq!(m.velocity.same_direction_cnt, 0);
    assert_eq!(m.velocity.direction, Direction::Up);
}

#[test]
fn the_velocity_doubles_from_the_fourth_round_on() {
    let mut m = steady();
    m.increase_cwnd = true;
    let mut seen: Vec<u64> = Vec::new();
    for _ in 0..6 {
        m.cwnd += 1_000;
        m.update_velocity(20_000, ms(2_000));
        seen.push(m.velocity.velocity);
    }
    assert_eq!(seen, vec![1, 1, 1, 2, 4, 8]);
    assert_eq!(m.velocity.same_direction_cnt, 6);
    assert_eq!(m.velocity.last_cwnd, 106_000);
    // Between the starts of rounds nothing changes.
    m.round.is_round_start = false;
    m.cwnd += 1_000;
    m.update_velocity(20_000, ms(2_000));
    assert_eq!(m.velocity.velocity, 8);
    assert_eq!(m.velocity.last_cwnd, 106_000);
}

#[test]
fn a_count_at_the_threshold_does_not_speed_up() {
    let mut m = steady();
    m.increase_cwnd = true;
    m.cwnd = 13_000;
    m.velocity = Velocity {
        direction: Direction::Up,
        velocity: 1,
        last_cwnd: 12_000,
        same_direction_cnt: 2,
    };
    m.update_velocity(20_000, ms(2_000));
    assert_eq!(m.velocity.direction, Direction::Up);
    assert_eq!(m.velocity.velocity, 1);
    assert_eq!(m.velocity.last_cwnd, 13_000);
    assert_eq!(m.velocity.same_direction_cnt, 3);
    m.cwnd = 14_000;
    m.update_velocity(20_000, ms(2_000));
    assert_eq!(m.velocity.velocity, 2);
    assert_eq!(m.velocity.same_direction_cnt, 4);
}

#[test]
fn the_velocity_starts_over_where_the_window_turns() {
    let mut m = steady();
    m.velocity.velocity = 8;
    m.velocity.same_direction_cnt = 5;
    m.increase_cwnd = false;
    m.cwnd -= 1;
    m.update_velocity(20_000, ms(2_000));
    assert_eq!(m.velocity.direction, Direction::Down);
    assert_eq!(m.velocity.velocity, 1);
    assert_eq!(m.velocity.same_direction_cnt, 0);
    assert_eq!(m.intervals_cnt, 0);
}

#[test]
fn the_velocity_starts_over_where_the_window_is_about_to_turn() {
    let mut m = steady();
    m.velocity.velocity = 8;
    m.velocity.same_direction_cnt = 5;
    m.increase_cwnd = false;
    m.cwnd += 1;
    m.update_velocity(20_000, ms(2_000));
    assert_eq!(m.velocity.direction, Direction::Up);
    assert_eq!(m.velocity.velocity, 1);
    assert_eq!(m.velocity.same_direction_cnt, 6);
    m.velocity.direction = Direction::Down;
    m.velocity.velocity = 8;
    m.increase_cwnd = true;
    m.update_velocity(20_000, ms(2_000));
    assert_eq!(m.velocity.direction, Direction::Down);
    assert_eq!(m.velocity.velocity, 1);
}

#[test]
fn the_velocity_saturates() {
    let mut m = steady();
    m.velocity.velocity = u64::MAX - 1;
    m.velocity.same_direction_cnt = u64::MAX;
    m.increase_cwnd = true;
    m.cwnd += 1;
    m.update_velocity(20_000, ms(2_000));
    assert_eq!(m.velocity.velocity, u64::MAX);
    assert_eq!(m.velocity.same_direction_cnt, u64::MAX);
}

#[test]
fn an_interval_begins_where_the_window_turns_up() {
    let mut m = steady();
    m.velocity.direction = Direction::Down;
    m.increase_cwnd = true;
    m.cwnd += 1;
    assert!(m.turns_up());
    let update = m.update_velocity(20_000, ms(2_000));
    assert!(matches!(update, Some(DeltaUpdate::Searched(_))));
    assert_eq!(m.intervals_cnt, 1);
    assert_eq!(m.velocity.direction, Direction::Up);
    assert_eq!(f(m.min_delta), 0.05 * 0.98);
    assert_eq!(f(m.config.steady_delta), 0.05 * 0.98);
}

// Window.

#[test]
fn slow_start_adds_what_was_acknowledged() {
    let mut m = fresh();
    m.increase_cwnd = true;
    m.ack_state.newly_acked_bytes = 2_400;
    assert!(m.can_update_cwnd());
    m.update_cwnd();
    assert!(m.in_slow_start());
    assert_eq!(m.cwnd, 98_400);
    m.ack_state.newly_acked_bytes = 98_400;
    m.update_cwnd();
    assert_eq!(m.cwnd, 196_800);
}

#[test]
fn slow_start_ends_where_the_window_is_to_shrink() {
    let mut m = fresh();
    m.increase_cwnd = false;
    m.ack_state.newly_acked_bytes = 2_400;
    m.update_cwnd();
    assert!(!m.in_slow_start());
    assert_eq!(m.cwnd, 96_000 - (2_400f64 * 1_200.0 / (0.4 * 96_000.0)) as u64);
}

#[test]
fn the_window_moves_by_a_step() {
    let mut m = steady();
    m.delta = d(0.3);
    m.velocity.velocity = 4;
    m.ack_state.newly_acked_bytes = 3_600;
    let step = ((4u64 * 3_600 * 1_200) as f64 / (0.3 * 100_000.0)) as u64;
    assert!(step > 0);
    m.increase_cwnd = true;
    m.update_cwnd();
    assert_eq!(m.cwnd, 100_000 + step);
    m.cwnd = 100_000;
    m.increase_cwnd = false;
    m.update_cwnd();
    assert_eq!(m.cwnd, 100_000 - step);
    assert_eq!(m.velocity.velocity, 4);
}

#[test]
fn an_empty_window_becomes_the_minimal_one() {
    let mut m = steady();
    m.cwnd = 100;
    m.velocity.velocity = 16;
    m.ack_state.newly_acked_bytes = 100_000;
    m.update_cwnd();
    assert_eq!(m.cwnd, 4_800);
    assert_eq!(m.velocity.velocity, 1);
}

#[test]
fn a_step_that_is_too_large_is_told() {
    let mut m = steady();
    m.velocity.velocity = u64::MAX;
    m.ack_state.newly_acked_bytes = 2;
    m.config.max_datagram_size = 0;
    assert!(!m.can_update_cwnd());
    m.ack_state.newly_acked_bytes = 1;
    assert!(m.can_update_cwnd());
    m.config.max_datagram_size = 2;
    assert!(!m.can_update_cwnd());
    m.slow_start = true;
    m.increase_cwnd = true;
    assert!(m.can_update_cwnd());
}

// Delta.

#[test]
fn a_lossy_round_sets_delta_by_the_loss() {
    let mut m = steady();
    m.round.loss_rate = d(0.25);
    m.config.steady_delta = d(0.5);
    assert!(matches!(m.calc_delta_predic(20_000, ms(2_000)), DeltaUpdate::Lossy(_)));
    assert_eq!(f(m.config.steady_delta), 0.5 / 1.25);
    assert_eq!(f(m.min_delta), 0.5 / 1.25);
    let mut m = steady();
    m.round.loss_rate = d(0.25);
    m.config.steady_delta = d(0.3);
    assert!(matches!(m.calc_delta_cur(20_000), DeltaUpdate::Lossy(_)));
    assert_eq!(f(m.config.steady_delta), 0.3 / 0.75);
    m.config.steady_delta = d(0.45);
    m.calc_delta_cur(20_000);
    assert_eq!(f(m.config.steady_delta), 0.5);
}

#[test]
fn the_threshold_of_loss_is_not_lossy() {
    let mut m = steady();
    m.round.loss_rate = d(0.06);
    assert!(matches!(m.calc_delta_predic(20_000, ms(2_000)), DeltaUpdate::Searched(_)));
}

#[test]
fn a_swollen_queue_probes_for_speed() {
    let mut m = steady();
    m.sending_resp = 10;
    m.sending_large_resp = 4;
    m.rate_ewma = d(5.0);
    assert!(matches!(m.calc_delta_predic(20_000, ms(2_000)), DeltaUpdate::SpeedUp(_)));
    assert_eq!(f(m.config.steady_delta), 12.0 / 20.0 / 5.0);
    // The delay that is aimed at has a cap, and delta has bounds.
    m.calc_delta_predic(90_000, ms(2_000));
    assert_eq!(f(m.config.steady_delta), 12.0 / 40.0 / 5.0);
    m.rate_ewma = d(0.001);
    m.calc_delta_predic(20_000, ms(2_000));
    assert_eq!(f(m.config.steady_delta), 0.4);
    m.rate_ewma = d(1.0e9);
    m.calc_delta_predic(20_000, ms(2_000));
    assert_eq!(f(m.config.steady_delta), f(m.min_delta));
    m.sending_resp = 9;
    assert!(matches!(m.calc_delta_predic(20_000, ms(2_000)), DeltaUpdate::Searched(_)));
}

#[test]
fn the_lower_bound_decays_to_its_floor() {
    let mut m = steady();
    for _ in 0..100 {
        m.calc_delta_predic(20_000, ms(2_000));
    }
    assert_eq!(f(m.min_delta), 0.04);
    assert_eq!(f(m.config.steady_delta), 0.04);
    for _ in 0..100 {
        m.calc_delta_cur(20_000);
    }
    assert_eq!(f(m.min_delta), 0.05);
}

#[test]
fn the_predictive_rule_searches_the_candidates() {
    let mut m = steady();
    m.min_delta = d(0.15);
    m.unsent_bytes = 3_000_000;
    m.total_resp_cnts = 40;
    m.delta = d(0.4);
    let update = m.calc_delta_predic(30_000, ms(3_000));
    let min_delta = 0.15 * 0.98;
    assert_eq!(f(m.min_delta), min_delta);
    assert_eq!(f(m.config.steady_delta), min_delta);
    let search = match update {
        DeltaUpdate::Searched(search) => search,
        _ => panic!("the candidates were not searched"),
    };
    let per_sec = 40.0 / 2.0;
    let mut best = 0.4;
    let mut low = f64::MAX;
    let mut expected: Vec<f64> = Vec::new();
    for delta in [0.05, 0.1, 0.2, 0.3, 0.4, 0.5] {
        if delta < min_delta {
            continue;
        }
        let queue = 1.2 / 2.0 / delta;
        let rct = 3_000_000.0 / (2.0 + 0.4) / 1024.0 / 1024.0 + per_sec * queue / 1_000.0;
        if rct < low {
            best = delta;
            low = rct;
        }
        expected.push(rct);
    }
    assert_eq!(search.candidates.len(), 4);
    for (candidate, rct) in search.candidates.iter().zip(expected.iter()) {
        assert_eq!(f(candidate.score), *rct);
        assert_eq!(f(candidate.rate_std), 0.5);
        assert_eq!(f(candidate.bdp_std), 0.5 / 1.5 * 30.0);
        assert_eq!(f(candidate.rate), 2.4);
        assert_eq!(f(candidate.queue_delay), 1.2 / 2.0 / f(candidate.delta));
        let share = (1.0 / f(candidate.delta) / (0.5 / 1.5 * 30.0 * 2.0)).min(1.0);
        assert_eq!(f(candidate.delta_tput), share * 0.5);
    }
    assert_eq!(f(search.score), low);
    assert_eq!(f(search.min_rtt), 30.0);
    assert_eq!(search.flow_rate.map(f), Some(per_sec));
    assert_eq!(best, 0.5);
    let cap = 12.0 / (0.4f64 * 30.0).min(20.0) / 2.0;
    assert_eq!(f(search.delta), best.max(min_delta).min(cap));
}

#[test]
fn the_current_rule_takes_the_best_candidate() {
    let mut m = steady();
    m.min_delta = d(0.1);
    m.sending_resp = 1_000_000_000;
    m.rate_ewma = d(0.001);
    m.delta = d(0.4);
    let update = m.calc_delta_cur(30_000);
    let min_delta = 0.1 * 0.9;
    assert_eq!(f(m.min_delta), min_delta);
    let search = match update {
        DeltaUpdate::Searched(search) => search,
        _ => panic!("the candidates were not searched"),
    };
    let rate = 0.001 * 1024.0 * 1024.0;
    let price = 1_000_000_000.0 / rate / rate;
    let mut best = 0.4;
    let mut high = f64::MIN;
    for delta in [0.04, 0.08, 0.1, 0.2, 0.3, 0.4, 0.5] {
        if delta < min_delta {
            continue;
        }
        let queue = 1.5 / 0.001 / delta / 1000.0;
        let qoe = (0.001 + 0.4) - price * queue;
        if high <= qoe {
            best = delta;
            high = qoe;
        }
    }
    assert_eq!(search.candidates.len(), 5);
    assert_eq!(search.flow_rate, None);
    assert_eq!(f(search.delta), best);
    assert_eq!(f(search.score), high);
    assert_eq!(f(m.config.steady_delta), best);
    assert_eq!(best, 0.5);
}

#[test]
fn equal_scores_go_to_the_first_or_to_the_last() {
    // Nothing unsent and nothing to come: every candidate of the predictive rule
    // scores the same.
    let mut m = steady();
    m.min_delta = d(0.06);
    match m.calc_delta_predic(90_000, ms(2_000)) {
        DeltaUpdate::Searched(search) => {
            assert_eq!(f(search.candidates[0].delta), 0.1);
            assert_eq!(f(search.candidates[0].score), f(search.candidates[4].score));
            assert_eq!(f(search.delta), 0.1);
        }
        _ => panic!("the candidates were not searched"),
    }
    let mut m = steady();
    match m.calc_delta_cur(90_000) {
        DeltaUpdate::Searched(search) => assert_eq!(f(search.delta), 0.5),
        _ => panic!("the candidates were not searched"),
    }
}

// Average of the delivery rate.

#[test]
fn the_first_sample_is_the_average() {
    let mut m = fresh();
    m.update_ewma(&sample(3 * 1024 * 1024), ms(1_200));
    assert_eq!(f(m.rate_ewma), 3.0);
    assert_eq!(m.rate_residuals.len(), 1);
    assert_eq!(f(m.rate_residuals[0]), 0.0);
    assert_eq!(f(m.rate_ewmv), 0.0);
    assert_eq!(m.last_update_ewma_time, ms(1_200));
}

#[test]
fn a_limited_sample_is_left_out() {
    let mut m = fresh();
    let limited = RateSample { app_limited: true, delivery_rate: 5_000_000 };
    m.update_ewma(&limited, ms(1_200));
    assert_eq!(f(m.rate_ewma), f64::MIN);
    assert_eq!(m.rate_residuals.len(), 0);
    assert_eq!(m.last_update_ewma_time, ms(1_000));
}

#[test]
fn the_average_moves_and_the_oldest_residual_makes_way() {
    let mut m = fresh();
    let mut ewma = f64::MIN;
    let mut residuals: Vec<f64> = Vec::new();
    for i in 0..25u64 {
        let rate = 1_000_000 + 37_000 * (i % 7) * (i % 3);
        let mut residual = 0.0;
        if ewma < 0.0 {
            ewma = rate as f64 / 1024.0 / 1024.0;
        } else {
            ewma = 0.85 * ewma + 0.15 * rate as f64 / 1024.0 / 1024.0;
            residual = ewma - rate as f64 / 1024.0 / 1024.0;
        }
        if residuals.len() >= 10 {
            residuals.remove(0);
        }
        residuals.push(residual);
        let mean = residuals.iter().sum::<f64>() / residuals.len() as f64;
        let ewmv = residuals.iter().map(|r| (r - mean) * (r - mean)).sum::<f64>()
            / residuals.len() as f64;
        m.update_ewma(&sample(rate), ms(1_000 + i));
        assert_eq!(f(m.rate_ewma), ewma);
        assert_eq!(f(m.rate_ewmv), ewmv);
        let kept: Vec<f64> = m.rate_residuals.iter().map(|r| f(*r)).collect();
        assert_eq!(kept, residuals);
    }
    assert_eq!(m.rate_residuals.len(), config::RESIDUALS);
}

// A whole acknowledgement.

#[test]
fn slow_start_goes_on_while_nothing_queues() {
    let mut m = fresh();
    m.on_sent(&packet(3, 1_200), 1_200);
    m.begin_ack(ms(1_050));
    m.on_ack(&packet(3, 1_200), &rtt(ms(50), ms(50)));
    let feed = m.end_ack();
    assert_eq!((feed.window, feed.time, feed.rtt), (25_000, 50_000, 50_000));
    let readings = Readings { min_rtt: 50_000, standing_rtt: 50_000 };
    let report = m.on_readings(&readings, &sample(1_000_000), &clock(ms(1_050)));
    let report = report.unwrap();
    assert_eq!(report.rates.current_rate, 1_920_000);
    assert!(report.delta.is_none());
    assert_eq!(m.target_rate, 1_920_000);
    assert!(m.in_slow_start());
    assert_eq!(m.cwnd, 97_200);
    // More than half a round trip has passed: the sample is averaged.
    assert_eq!(f(m.rate_ewma), 1_000_000.0 / 1024.0 / 1024.0);
    assert_eq!(m.last_update_ewma_time, ms(1_050));
}

#[test]
fn the_average_waits_for_half_a_round_trip() {
    let mut m = fresh();
    m.begin_ack(ms(1_050));
    m.end_ack();
    let readings = Readings { min_rtt: 50_000, standing_rtt: 50_000 };
    let times = EndClock { model: ms(1_020), check: ms(1_025), stamp: ms(1_030) };
    m.on_readings(&readings, &sample(1_000_000), &times).unwrap();
    assert_eq!(m.rate_residuals.len(), 0);
    let times = EndClock { model: ms(1_020), check: ms(1_026), stamp: ms(1_030) };
    m.on_readings(&readings, &sample(1_000_000), &times).unwrap();
    assert_eq!(m.rate_residuals.len(), 1);
    assert_eq!(m.last_update_ewma_time, ms(1_030));
}

#[test]
fn a_queue_ends_slow_start_and_shrinks_the_window() {
    let mut m = fresh();
    m.begin_ack(ms(1_050));
    m.on_ack(&packet(3, 1_200), &rtt(ms(90), ms(90)));
    m.end_ack();
    let readings = Readings { min_rtt: 50_000, standing_rtt: 90_000 };
    m.on_readings(&readings, &sample(1_000_000), &clock(ms(1_050))).unwrap();
    assert!(!m.in_slow_start());
    assert!(!m.increase_cwnd);
    assert_eq!(m.target_rate, (1_200.0 / 0.4 / 0.04) as u64);
    let step = ((1_200u64 * 1_200) as f64 / (0.4 * 96_000.0)) as u64;
    assert_eq!(m.cwnd, 96_000 - step);
    assert_eq!(m.velocity.last_cwnd, 96_000);
    // Slow start does not come back.
    let readings = Readings { min_rtt: 50_000, standing_rtt: 50_000 };
    m.on_readings(&readings, &sample(1_000_000), &clock(ms(1_060))).unwrap();
    assert!(m.increase_cwnd);
    assert!(!m.in_slow_start());
}

#[test]
fn numbers_out_of_range_are_told() {
    let readings = Readings { min_rtt: 50_000, standing_rtt: 50_000 };
    let mut m = steady();
    m.velocity.direction = Direction::Down;
    m.cwnd += 1;
    m.intervals_cnt = u64::MAX;
    let told = m.on_readings(&readings, &sample(1), &clock(ms(9_000)));
    assert!(matches!(told, Err(OutOfRange::Intervals)));
    assert_eq!(m.cwnd, 100_001);
    assert_eq!(m.velocity.direction, Direction::Down);
    assert_eq!(m.rate_residuals.len(), 0);

    let mut m = steady();
    m.round.is_round_start = false;
    m.velocity.velocity = u64::MAX;
    m.ack_state.newly_acked_bytes = 2;
    let told = m.update_model(&readings, ms(9_000));
    assert!(matches!(told, Err(OutOfRange::WindowStep)));
    assert_eq!(m.cwnd, 100_000);
    assert_eq!(m.target_rate, 2_000_000);
}

// What holds of the numbers.

/// A controller at the end of a round in which so many bytes were lost and
/// acknowledged.
fn after_round(lost: u64, acked: u64) -> Mortise {
    let mut m = steady();
    m.on_congestion_event(lost, 0);
    m.on_ack(&packet(1, acked), &rtt(ms(20), ms(20)));
    m.update_round();
    m
}

#[test]
fn the_loss_rate_is_the_closest_to_the_share() {
    for (lost, acked) in [(0, 1), (1, 2), (1, 9), (7, 993), (1_200, 10_800), (1 << 52, 1 << 52)] {
        let m = after_round(lost, acked);
        assert_eq!(f(m.round.loss_rate), lost as f64 / (lost + acked) as f64);
        assert!(f(m.round.loss_rate) >= 0.0 && f(m.round.loss_rate) <= 1.0);
        assert_eq!(f(m.round.loss_rate) == 0.0, lost == 0);
    }
    assert_eq!(f(after_round(5, 0).round.loss_rate), 1.0);
    // More bytes than 64 bits count.
    let m = after_round(u64::MAX, u64::MAX);
    assert_eq!(f(m.round.loss_rate), 1.0);
}

#[test]
fn more_than_a_tenth_of_the_bytes_lost_is_competitive() {
    for unit in [1, 7, 1_200, 123_456_789, 800_639_933_754_754] {
        let mut m = after_round(unit, 9 * unit);
        m.update_mode();
        assert_eq!(m.mode, CompetingMode::Default);
        let mut m = after_round(unit, 9 * unit - 1);
        m.update_mode();
        assert_eq!(m.mode, CompetingMode::Competitive);
    }
    // The first round in which the byte beyond a tenth is rounded away, and one in
    // which two are not.
    let mut m = after_round(800_639_933_754_755, 7_205_759_403_792_794);
    m.update_mode();
    assert_eq!(m.mode, CompetingMode::Default);
    let mut m = after_round(800_639_933_754_755, 7_205_759_403_792_793);
    m.update_mode();
    assert_eq!(m.mode, CompetingMode::Competitive);
}

#[test]
fn more_than_six_bytes_of_a_hundred_lost_are_lossy() {
    for unit in [1, 7, 1_200, 123_456_789, 90_071_992_547_409] {
        let mut m = after_round(6 * unit, 94 * unit);
        assert!(matches!(m.calc_delta_predic(20_000, ms(2_000)), DeltaUpdate::Searched(_)));
        let mut m = after_round(6 * unit + 1, 94 * unit - 1);
        assert!(matches!(m.calc_delta_predic(20_000, ms(2_000)), DeltaUpdate::Lossy(_)));
    }
}

#[test]
fn neither_average_nor_variance_falls_below_zero() {
    let mut m = fresh();
    for rate in [5_000_000, 0, 0, 0, 1, u64::MAX, 0, 3] {
        m.update_ewma(&sample(rate), ms(1_000));
        assert!(f(m.rate_ewma) >= 0.0);
        assert!(f(m.rate_ewmv) >= 0.0);
    }
    // Finite residuals whose sum is not finite have a variance all the same.
    for _ in 0..9 {
        m.rate_residuals.pop_front();
        m.rate_residuals.push_back(d(f64::MAX));
    }
    m.update_ewma(&sample(7), ms(1_000));
    assert_eq!(f(m.rate_ewmv), f64::INFINITY);
}

#[test]
fn delta_doubles_in_competitive_mode() {
    for before in [0.0, 5.0e-324, 0.04, 0.1, 0.249, 0.25, 0.3, 1.0, 1.0e308, f64::INFINITY] {
        let mut m = steady();
        m.round.loss_rate = d(0.5);
        m.delta = d(before);
        m.update_mode();
        assert_eq!(f(m.delta), if 2.0 * before > 0.5 { 0.5 } else { 2.0 * before });
    }
}

#[test]
fn the_lower_bound_does_not_rise_without_loss() {
    for before in [0.01, 0.04, 0.041, 0.05, 0.2, 0.5] {
        let mut m = steady();
        m.min_delta = d(before);
        m.calc_delta_predic(20_000, ms(2_000));
        assert!(f(m.min_delta) <= before.max(0.04));
        let mut m = steady();
        m.min_delta = d(before);
        m.calc_delta_cur(20_000);
        assert!(f(m.min_delta) <= before.max(0.05));
    }
}

fn target_of(delta: f64, standing_rtt: u64) -> u64 {
    let mut m = steady();
    m.velocity.direction = Direction::Down;
    m.intervals_cnt = 1;
    m.delta = d(delta);
    m.update_rates(&Readings { min_rtt: 40_000, standing_rtt });
    m.target_rate
}

#[test]
fn a_larger_delta_lowers_the_target_rate() {
    let mut last = u64::MAX;
    for delta in [0.0, 1.0e-300, 0.01, 0.1, 0.199, 0.2, 0.201, 0.4, 0.5, 7.0, f64::INFINITY] {
        let target = target_of(delta, 50_000);
        assert!(target <= last);
        last = target;
    }
    // The bounce makes a step where it ends.
    assert_eq!(target_of(0.2, 50_000), (1_200f64 / 0.2 / 0.01) as u64);
    assert_eq!(target_of(0.1, 50_000), ((1_200f64 / 0.1 / 0.01) as u64 as f64 * 2.2) as u64);
}

#[test]
fn more_delay_lowers_the_target_rate() {
    let mut last = u64::MAX;
    for standing in [40_001, 40_002, 40_500, 41_000, 50_000, 90_000, 1_000_000, u64::MAX] {
        for delta in [0.1, 0.4] {
            assert!(target_of(delta, standing) <= target_of(delta, 40_001));
        }
        let target = target_of(0.4, standing);
        assert!(target <= last);
        last = target;
    }
}

#[test]
fn the_average_is_due_to_the_nanosecond() {
    let readings = Readings { min_rtt: 33_333, standing_rtt: 33_333 };
    for (nanos, due) in [(16_666_500, false), (16_666_501, true)] {
        let mut m = fresh();
        let at = Span::from_nanos(m.last_update_ewma_time.nanos + nanos);
        m.begin_ack(at);
        m.end_ack();
        assert_eq!(m.is_average_due(33_333, at), due);
        m.on_readings(&readings, &sample(1_000_000), &clock(at)).unwrap();
        assert_eq!(m.rate_residuals.len() == 1, due);
    }
}

#[test]
fn a_window_that_is_not_empty_stays_so() {
    let mut m = steady();
    let readings = Readings { min_rtt: 10_000, standing_rtt: 90_000 };
    for i in 0..200u64 {
        m.begin_ack(ms(2_000 + i));
        m.on_ack(&packet(i, 60_000), &rtt(ms(90), ms(90)));
        m.end_ack();
        let before = m.cwnd;
        m.on_readings(&readings, &sample(1_000_000), &clock(ms(2_000 + i))).unwrap();
        assert!(m.cwnd > 0);
        if m.increase_cwnd {
            assert!(m.cwnd >= before);
        } else {
            assert!(m.cwnd <= before || m.cwnd == 4_800);
        }
    }
}
