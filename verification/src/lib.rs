//! Verified core of a weighing-scale gateway: framing of RS-232 weight
//! telegrams, protocol auto-detection, HMAC sealing of readings and CSV export.
pub mod text;
pub mod decimal;
pub mod events;
pub mod clock;
pub mod parser;
pub mod sealer;
pub mod export;
pub mod error;
pub mod serial;
pub mod config;
pub mod wedge;
pub mod cli;
pub mod simulator;
pub mod api;
