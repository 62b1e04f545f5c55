//! Packet-timed round trips.

use crate::acks::{capped_difference, capped_sum};
use crate::arith::{from_int, over, quot, whole};
use crate::state::{Mortise, RoundTripCounter};
use vstd::prelude::*;

verus! {

impl Mortise {
    /// The acknowledgement covers the packet that ends the round.
    pub open spec fn ends_round(self) -> bool {
        self.ack_state.largest_acked_pkt_num >= self.round.round_end_pkt_num
    }

    /// Bytes lost since the round started.
    pub open spec fn lost_in_round(self) -> u64 {
        capped_difference(self.stats.bytes_lost_in_total, self.round.last_total_lost_bytes)
    }

    /// Bytes acknowledged since the round started.
    pub open spec fn acked_in_round(self) -> u64 {
        capped_difference(self.stats.bytes_acked_in_total, self.round.last_total_acked_bytes)
    }

    /// The counter once an acknowledgement is over: the next round, which ends
    /// with the packet that was sent last, or the round that still runs.
    pub open spec fn next_round(self) -> RoundTripCounter {
        if self.ends_round() {
            RoundTripCounter {
                round_count: capped_sum(self.round.round_count, 1),
                is_round_start: true,
                round_end_pkt_num: self.last_sent_pkt_num,
                last_total_acked_bytes: self.stats.bytes_acked_in_total,
                last_total_lost_bytes: self.stats.bytes_lost_in_total,
                loss_rate: quot(
                    whole(self.lost_in_round()),
                    whole(capped_sum(self.lost_in_round(), self.acked_in_round())),
                ),
            }
        } else {
            RoundTripCounter { is_round_start: false, ..self.round }
        }
    }

    /// Checks whether a new round starts, and counts it with its loss rate.
    pub fn update_round(&mut self)
        ensures
            *final(self) == (Mortise { round: old(self).next_round(), ..*old(self) }),
    {
        if self.ack_state.largest_acked_pkt_num >= self.round.round_end_pkt_num {
            let lost: u64 = self.stats.bytes_lost_in_total.saturating_sub(
                self.round.last_total_lost_bytes,
            );
            let acked: u64 = self.stats.bytes_acked_in_total.saturating_sub(
                self.round.last_total_acked_bytes,
            );
            self.round.loss_rate = over(from_int(lost), from_int(lost.saturating_add(acked)));
            self.round.last_total_acked_bytes = self.stats.bytes_acked_in_total;
            self.round.last_total_lost_bytes = self.stats.bytes_lost_in_total;
            self.round.round_count = self.round.round_count.saturating_add(1);
            self.round.round_end_pkt_num = self.last_sent_pkt_num;
            self.round.is_round_start = true;
        } else {
            self.round.is_round_start = false;
        }
    }
}

} // verus!
