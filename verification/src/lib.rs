//! Closed-loop thermal control for NVIDIA GPU fans.
//!
//! The library holds the decision logic of the daemon: evaluating a
//! piecewise-linear fan curve, the control-loop state machine with its
//! debounced re-actuation, and the builders and parsers for the
//! `nvidia-settings` / `nvidia-smi` command boundary. Process execution,
//! persistence and logging live outside the library.

pub mod ascii;
pub mod config;
pub mod control;
pub mod curve;
pub mod curve_props;
pub mod hardware;
