//! 超声回波裁决台 (Ultrasonic Echo Adjudication Workbench).
//!
//! Echoes are found in recorded ultrasonic waveforms, and an operator decides what
//! each of them is. Everything that decides is here, with contracts: which echoes
//! there are, when an event is refused and what it changes, what a log replays to.
//! Measuring waveforms is floating point and happens outside; what was measured
//! arrives as [`quantity::Quantity`] values, which are only ordered.
//!
//! * [`signal`], [`fixture`], [`db`] and [`http`] are the workbench: waveforms of a
//!   fixture, their analysis, the events on them and the requests that cause these.
//! * [`model`], [`detection`], [`rules`], [`events`], [`setup`], [`store`] and [`web`]
//!   are the adjudication console: a state that is rebuilt from its event log.
//! * [`signal_laws`], [`echo_laws`], [`db_laws`], [`request_laws`], [`command_laws`] and
//!   [`rows`] state what holds throughout of the workbench, [`lobe_laws`], [`rule_laws`]
//!   and [`event_laws`] of the console, and [`number_laws`] of what both count with.
//! * [`json`] and [`clock`] are the borders to what is not proved here.

pub mod bench;
pub mod calendar;
pub mod clock;
pub mod command_laws;
pub mod db;
pub mod db_laws;
pub mod detection;
pub mod digest;
pub mod dsp;
pub mod echo_laws;
pub mod err;
pub mod event_laws;
pub mod events;
pub mod fixture;
pub mod http;
pub mod json;
pub mod lobe_laws;
pub mod model;
pub mod number_laws;
pub mod order;
pub mod quantity;
pub mod request_laws;
pub mod rows;
pub mod rule_laws;
pub mod rules;
pub mod seqs;
pub mod setup;
pub mod signal;
pub mod signal_laws;
pub mod store;
pub mod text;
pub mod transform;
pub mod web;
