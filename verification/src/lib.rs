//! Mortise: a delay-based congestion controller in the manner of Copa.
//!
//! The controller watches how the delay of a connection evolves, and moves the
//! congestion window so that a queue stays short while flows share a link
//! fairly. How much delay weighs against throughput is set by delta, which in
//! turn follows the losses, the delivery rate and the responses that the
//! application has under way.
//!
//! The library holds the state of the controller and every decision on it. It
//! reads no clock and opens no socket:
//!
//! - points in time are handed in, as a `Span` since the origin of a clock;
//! - the round-trip filters and the delivery rate estimator are kept by the
//!   caller, who is told what they are to be fed with and hands in what they
//!   read.
//!
//! The rules are written in double-precision arithmetic, which the library brings
//! along: a `Double` is a bit pattern, and each operation on it rounds the exact
//! result to the closest one. So every contract says to the last bit what the
//! window, delta and the rates become.
//!
//! What the decisions come to is proved as laws apart from how they are made:
//! `events` and `steps` relate states and counters before and after; `quantities`,
//! `choices`, `candidates`, `searches` and `averages` relate windows, rates and
//! deltas to exact arithmetic, up to rounding; `edges` says what comes out where
//! something is missing; and `accuracy` says what rounding is.
//!
//! An acknowledgement goes through `Mortise::begin_ack`, `Mortise::on_ack` for
//! each packet, `Mortise::end_ack`, and `Mortise::on_readings`.
pub mod accuracy;
pub mod acks;
pub mod arith;
pub mod averages;
pub mod candidates;
pub mod choices;
pub mod config;
pub mod delta;
pub mod double;
pub mod edges;
pub mod end_ack;
pub mod events;
pub mod ewma;
pub mod flow;
pub mod laws;
pub mod measures;
pub mod model;
pub mod near;
pub mod numbers;
pub mod order;
pub mod quantities;
pub mod round;
pub mod rounding;
pub mod searches;
pub mod seconds;
pub mod span;
pub mod state;
pub mod steps;
pub mod targets;
pub mod velocity;

pub use acks::{Packet, RttSample};
pub use config::{MortiseConfig, Transport};
pub use delta::{Candidate, DeltaUpdate, Search};
pub use double::Double;
pub use end_ack::EndClock;
pub use ewma::RateSample;
pub use flow::FlowOperation;
pub use model::{FilterFeed, ModelReport, OutOfRange, RateReport, Readings};
pub use span::Span;
pub use state::{
    AckState, CompetingMode, CongestionStats, Direction, Mortise, RoundTripCounter, Velocity,
};
