//! Parameters of the controller.

use crate::double::Double;
use crate::numbers::{double, number, COPA_DELTA, SLOW_START_DELTA};
use crate::span::Span;
use vstd::prelude::*;

verus! {

/// Rounds in the same direction that the velocity waits out: it doubles once their
/// count exceeds this.
pub const SPEED_UP_THRESHOLD: u64 = 3;

/// Window of the standing round-trip filter at the start, in microseconds.
pub const STANDING_RTT_FILTER_WINDOW: u64 = 100_000;

/// Window of the minimum round-trip filter, in microseconds.
pub const MIN_RTT_FILTER_WINDOW: u64 = 10_000_000;

/// Pacing gain to cope with ack compression.
pub const PACING_GAIN: u64 = 2;

/// Whether delta is predicted from past responses, or taken from current ones.
pub const USE_PREDICT: bool = true;

/// Whether the target rate is bounced at all.
pub const USE_BOUNCE: bool = true;

/// One interval in this many is left without a bounce.
pub const BOUNCE_INTERVALS: u64 = 8;

/// Response size, in bytes, above which a response counts as large.
pub const LARGE_RESPONSE: u64 = 50_000;

/// Responses under way from which on the sender queue is held to be swollen.
pub const MANY_RESPONSES: u64 = 10;

/// Large responses under way from which on the sender queue is held to be
/// swollen.
pub const MANY_LARGE_RESPONSES: u8 = 4;

/// Most residuals of the delivery rate that are kept.
pub const RESIDUALS: usize = 10;

/// Round trip, in microseconds, that is assumed where neither a sample nor a
/// configured value is at hand.
pub const FALLBACK_RTT: u64 = 20_000;

/// What the transport around the controller fixes for all of its connections.
#[derive(Clone, Copy, Debug, PartialEq, Eq, Structural)]
pub struct Transport {
    /// Default size of a UDP payload that is sent, in bytes.
    pub send_udp_payload_size: u64,

    /// Round trip that is assumed before the first sample.
    pub initial_rtt: Span,
}

/// Configurable parameters.
#[derive(Clone, Copy, Debug, PartialEq, Eq, Structural)]
pub struct MortiseConfig {
    /// Minimal congestion window in bytes.
    pub min_cwnd: u64,

    /// Initial congestion window in bytes.
    pub initial_cwnd: u64,

    /// Initial smoothed round trip.
    pub initial_rtt: Option<Span>,

    /// Max datagram size in bytes.
    pub max_datagram_size: u64,

    /// Delta in slow start. Delta determines how much to weigh delay compared to
    /// throughput. A larger delta signifies that lower packet delays are
    /// preferable.
    pub slow_start_delta: Double,

    /// Delta in steady state.
    pub steady_delta: Double,

    /// Use the standing round trip or the latest one to calculate the queueing
    /// delay. The window of the standing filter is half a smoothed round trip
    /// either way.
    pub use_standing_rtt: bool,
}

/// The configuration with the given windows, and the library's deltas.
pub open spec fn configured(
    min_cwnd: u64,
    initial_cwnd: u64,
    initial_rtt: Option<Span>,
    max_datagram_size: u64,
) -> MortiseConfig {
    MortiseConfig {
        min_cwnd,
        initial_cwnd,
        initial_rtt,
        max_datagram_size,
        slow_start_delta: number(SLOW_START_DELTA),
        steady_delta: number(COPA_DELTA),
        use_standing_rtt: true,
    }
}

/// The configuration for connections of `transport` that ask for nothing else.
pub open spec fn default_configured(transport: Transport) -> MortiseConfig {
    MortiseConfig {
        min_cwnd: (4 * transport.send_udp_payload_size) as u64,
        initial_cwnd: (80 * transport.send_udp_payload_size) as u64,
        initial_rtt: Some(transport.initial_rtt),
        max_datagram_size: transport.send_udp_payload_size,
        slow_start_delta: number(COPA_DELTA),
        steady_delta: number(COPA_DELTA),
        use_standing_rtt: true,
    }
}

impl MortiseConfig {
    /// A configuration with the given windows, and the library's deltas.
    pub fn new(
        min_cwnd: u64,
        initial_cwnd: u64,
        initial_rtt: Option<Span>,
        max_datagram_size: u64,
    ) -> (result: Self)
        ensures
            result == configured(min_cwnd, initial_cwnd, initial_rtt, max_datagram_size),
    {
        MortiseConfig {
            min_cwnd,
            initial_cwnd,
            initial_rtt,
            max_datagram_size,
            slow_start_delta: double(SLOW_START_DELTA),
            steady_delta: double(COPA_DELTA),
            use_standing_rtt: true,
        }
    }

    /// The configuration for connections of `transport` that ask for nothing
    /// else: 4 payloads at least in flight, 80 at the start.
    pub fn default_for(transport: &Transport) -> (result: Self)
        requires
            80 * transport.send_udp_payload_size <= u64::MAX,
        ensures
            result == default_configured(*transport),
    {
        MortiseConfig {
            min_cwnd: 4 * transport.send_udp_payload_size,
            initial_cwnd: 80 * transport.send_udp_payload_size,
            initial_rtt: Some(transport.initial_rtt),
            max_datagram_size: transport.send_udp_payload_size,
            slow_start_delta: double(COPA_DELTA),
            steady_delta: double(COPA_DELTA),
            use_standing_rtt: true,
        }
    }
}

/// The default configuration is the one with windows of 4 and 80 payloads, the
/// round trip of the transport, and datagrams of one payload.
pub proof fn law_default_configuration(transport: Transport)
    requires
        80 * transport.send_udp_payload_size <= u64::MAX,
    ensures
        ({
            let size = transport.send_udp_payload_size;
            default_configured(transport) == configured(
                (4 * size) as u64,
                (80 * size) as u64,
                Some(transport.initial_rtt),
                size,
            )
        }),
{
}

} // verus!
