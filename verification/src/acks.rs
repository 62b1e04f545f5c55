//! Bookkeeping of what is sent, acknowledged and lost, and of responses.

use crate::config::LARGE_RESPONSE;
use crate::span::Span;
use crate::state::{empty_ack, AckState, CongestionStats, Mortise};
use vstd::prelude::*;

verus! {

/// A packet that was sent.
#[derive(Clone, Copy, Debug, PartialEq, Eq, Structural)]
pub struct Packet {
    /// Packet number.
    pub pkt_num: u64,

    /// Size on the wire in bytes.
    pub sent_size: u64,
}

/// What the round-trip estimator of the connection holds.
#[derive(Clone, Copy, Debug, PartialEq, Eq, Structural)]
pub struct RttSample {
    /// The smoothed round trip.
    pub smoothed_rtt: Span,

    /// The latest round trip.
    pub latest_rtt: Span,
}

/// `a + b`, held within the range of `u64`.
pub open spec fn capped_sum(a: u64, b: u64) -> u64 {
    if a + b > u64::MAX {
        u64::MAX
    } else {
        (a + b) as u64
    }
}

/// `a - b`, and 0 where `b` is the larger.
pub open spec fn capped_difference(a: u64, b: u64) -> u64 {
    if a < b {
        0
    } else {
        (a - b) as u64
    }
}

impl Mortise {
    /// The state once `packet` is sent.
    pub open spec fn after_sent(self, packet: Packet, bytes_in_flight: u64) -> Mortise {
        Mortise {
            stats: CongestionStats {
                bytes_in_flight,
                bytes_sent_in_total: capped_sum(self.stats.bytes_sent_in_total, packet.sent_size),
                ..self.stats
            },
            last_sent_pkt_num: packet.pkt_num,
            ..self
        }
    }

    /// Records that `packet` was sent, and that `bytes_in_flight` are now in
    /// flight.
    pub fn on_sent(&mut self, packet: &Packet, bytes_in_flight: u64)
        ensures
            *final(self) == old(self).after_sent(*packet, bytes_in_flight),
    {
        self.stats.bytes_in_flight = bytes_in_flight;
        self.stats.bytes_sent_in_total = self.stats.bytes_sent_in_total.saturating_add(
            packet.sent_size,
        );
        self.last_sent_pkt_num = packet.pkt_num;
    }

    /// Begins an acknowledgement that came at `now`.
    pub fn begin_ack(&mut self, now: Span)
        ensures
            *final(self) == (Mortise { ack_state: empty_ack(now), ..*old(self) }),
    {
        self.ack_state.newly_acked_bytes = 0;
        self.ack_state.newly_lost_bytes = 0;
        self.ack_state.now = now;
        self.ack_state.min_rtt = Span { nanos: 0 };
        self.ack_state.last_srtt = Span { nanos: 0 };
        self.ack_state.largest_acked_pkt_num = 0;
    }

    /// The state once `packet` is acknowledged. Of the round trips that one
    /// acknowledgement brings, the shortest is kept.
    pub open spec fn after_ack(self, packet: Packet, rtt: RttSample) -> Mortise {
        Mortise {
            stats: CongestionStats {
                bytes_in_flight: capped_difference(self.stats.bytes_in_flight, packet.sent_size),
                bytes_acked_in_total: capped_sum(self.stats.bytes_acked_in_total, packet.sent_size),
                bytes_acked_in_slow_start: if self.slow_start {
                    capped_sum(self.stats.bytes_acked_in_slow_start, packet.sent_size)
                } else {
                    self.stats.bytes_acked_in_slow_start
                },
                ..self.stats
            },
            ack_state: AckState {
                newly_acked_bytes: capped_sum(self.ack_state.newly_acked_bytes, packet.sent_size),
                largest_acked_pkt_num: if self.ack_state.largest_acked_pkt_num < packet.pkt_num {
                    packet.pkt_num
                } else {
                    self.ack_state.largest_acked_pkt_num
                },
                last_srtt: rtt.smoothed_rtt,
                min_rtt: if self.ack_state.min_rtt.nanos == 0 || rtt.latest_rtt.nanos
                    <= self.ack_state.min_rtt.nanos {
                    rtt.latest_rtt
                } else {
                    self.ack_state.min_rtt
                },
                ..self.ack_state
            },
            ..self
        }
    }

    /// Records that `packet` was acknowledged, with the round trips `rtt`.
    pub fn on_ack(&mut self, packet: &Packet, rtt: &RttSample)
        ensures
            *final(self) == old(self).after_ack(*packet, *rtt),
    {
        let acked_bytes: u64 = packet.sent_size;
        self.stats.bytes_in_flight = self.stats.bytes_in_flight.saturating_sub(acked_bytes);
        self.stats.bytes_acked_in_total = self.stats.bytes_acked_in_total.saturating_add(
            acked_bytes,
        );
        if self.in_slow_start() {
            self.stats.bytes_acked_in_slow_start =
            self.stats.bytes_acked_in_slow_start.saturating_add(acked_bytes);
        }
        self.ack_state.newly_acked_bytes = self.ack_state.newly_acked_bytes.saturating_add(
            acked_bytes,
        );
        if self.ack_state.largest_acked_pkt_num < packet.pkt_num {
            self.ack_state.largest_acked_pkt_num = packet.pkt_num;
        }
        self.ack_state.last_srtt = rtt.smoothed_rtt;

        // All the frames of an acknowledgement share its time, so that only the
        // shortest round trip is of use once it ends.
        if self.ack_state.min_rtt.is_zero() || self.ack_state.min_rtt.nanos
            >= rtt.latest_rtt.nanos {
            self.ack_state.min_rtt = rtt.latest_rtt;
        }
    }

    /// The state once `lost_bytes` are found lost.
    pub open spec fn after_loss(self, lost_bytes: u64, bytes_in_flight: u64) -> Mortise {
        Mortise {
            stats: CongestionStats {
                bytes_in_flight,
                bytes_lost_in_total: capped_sum(self.stats.bytes_lost_in_total, lost_bytes),
                bytes_lost_in_slow_start: if self.slow_start {
                    capped_sum(self.stats.bytes_lost_in_slow_start, lost_bytes)
                } else {
                    self.stats.bytes_lost_in_slow_start
                },
                ..self.stats
            },
            ..self
        }
    }

    /// Records that `lost_bytes` were lost, and that `bytes_in_flight` are now in
    /// flight.
    pub fn on_congestion_event(&mut self, lost_bytes: u64, bytes_in_flight: u64)
        ensures
            *final(self) == old(self).after_loss(lost_bytes, bytes_in_flight),
    {
        self.stats.bytes_lost_in_total = self.stats.bytes_lost_in_total.saturating_add(lost_bytes);
        self.stats.bytes_in_flight = bytes_in_flight;
        if self.in_slow_start() {
            self.stats.bytes_lost_in_slow_start =
            self.stats.bytes_lost_in_slow_start.saturating_add(lost_bytes);
        }
    }

    /// Records that the application holds `bytes` that are not sent yet.
    pub fn set_unsent_bytes(&mut self, bytes: u64)
        ensures
            *final(self) == (Mortise { unsent_bytes: bytes, ..*old(self) }),
    {
        self.unsent_bytes = bytes;
    }

    /// The counters can take in that a response of `bytes` begins (`sending`) or
    /// is done.
    pub open spec fn counts_response(self, bytes: u64, sending: bool) -> bool {
        if sending {
            &&& bytes > LARGE_RESPONSE ==> self.sending_large_resp < u8::MAX
            &&& self.total_resp_cnts < u64::MAX
            &&& self.sending_resp < u64::MAX
        } else {
            &&& bytes > LARGE_RESPONSE ==> self.sending_large_resp > 0
            &&& self.sending_resp > 0
        }
    }

    /// Whether the counters can take in that a response of `bytes` begins
    /// (`sending`) or is done.
    pub fn can_report_resp_size(&self, bytes: u64, sending: bool) -> (result: bool)
        ensures
            result == self.counts_response(bytes, sending),
    {
        if sending {
            (bytes <= LARGE_RESPONSE || self.sending_large_resp < u8::MAX) && self.total_resp_cnts
                < u64::MAX && self.sending_resp < u64::MAX
        } else {
            (bytes <= LARGE_RESPONSE || self.sending_large_resp > 0) && self.sending_resp > 0
        }
    }

    /// The state once a response of `bytes` begins (`sending`) or is done.
    pub open spec fn after_response(self, bytes: u64, sending: bool, now: Span) -> Mortise {
        let large: int = if bytes > LARGE_RESPONSE {
            1
        } else {
            0
        };
        if sending {
            Mortise {
                sending_large_resp: (self.sending_large_resp + large) as u8,
                total_resp_cnts: (self.total_resp_cnts + 1) as u64,
                sending_resp: (self.sending_resp + 1) as u64,
                recent_resp_time: now,
                ..self
            }
        } else {
            Mortise {
                sending_large_resp: (self.sending_large_resp - large) as u8,
                sending_resp: (self.sending_resp - 1) as u64,
                ..self
            }
        }
    }

    /// Records at `now` that a response of `bytes` begins (`sending`) or is done.
    pub fn report_resp_size(&mut self, bytes: u64, sending: bool, now: Span)
        requires
            old(self).counts_response(bytes, sending),
        ensures
            *final(self) == old(self).after_response(bytes, sending, now),
    {
        if sending {
            if bytes > LARGE_RESPONSE {
                self.sending_large_resp = self.sending_large_resp + 1;
            }
            self.total_resp_cnts = self.total_resp_cnts + 1;
            self.sending_resp = self.sending_resp + 1;
            self.recent_resp_time = now;
        } else {
            if bytes > LARGE_RESPONSE {
                self.sending_large_resp = self.sending_large_resp - 1;
            }
            self.sending_resp = self.sending_resp - 1;
        }
    }
}

} // verus!
