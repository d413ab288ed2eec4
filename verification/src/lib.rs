//! Verified core of the Promatrix-4000-IO control stack.

pub mod bounded;
pub mod text;
pub mod cli;
pub mod client;
pub mod device;
pub mod wire;

pub use wire::{parse_command, parse_event, Command, Event, NUM_INPUTS, NUM_OUTPUTS};
