//! Input-mapping engine of a controller-to-simulator bridge.
//!
//! Raw device readings are normalized through per-device calibration
//! ([`calibration`]), tracked per control with direction hysteresis
//! ([`controller`]), interpreted against user profiles ([`profile`],
//! [`runner`]) and turned into keystrokes ([`sequencer`]), direct-control
//! frames ([`direct_control`]) or closed-loop sync drives ([`sync`]).
//! [`config`] holds the loaded configuration and [`text`] the number and
//! text handling the wire formats need.
//!
//! Every real-valued quantity is carried as a fixed-point integer with four
//! decimal places (see [`value::SCALE`]).
pub mod value;
pub mod profile;
pub mod text;
pub mod sequencer;
pub mod direct_control;
pub mod calibration;
pub mod controller;
pub mod config;
pub mod runner;
pub mod sync;
