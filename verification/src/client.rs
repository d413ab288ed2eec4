//! The host side's decisions: which command a request sends, and which
//! event answers a status request.

use vstd::prelude::*;
use crate::wire::{command_of_line, command_text, lemma_command_round_trip, Command, Event, NUM_OUTPUTS};

verus! {

/// The command that sets output `channel` (1-indexed, `1..=8`) to `value`,
/// or `None` for a channel out of range.
pub fn output_command(channel: u8, value: bool) -> (r: Option<Command>)
    ensures
        1 <= channel <= NUM_OUTPUTS ==> r == Some(Command::SetOutput { channel: (channel - 1) as u8, value }),
        !(1 <= channel <= NUM_OUTPUTS) ==> r.is_none(),
{
    if channel == 0 || channel as usize > NUM_OUTPUTS {
        return None;
    }
    Some(Command::SetOutput { channel: channel - 1, value })
}

/// The output and input bitmasks that `event` carries when it is the reply to
/// a status request; any other event is not that reply.
pub fn status_reply(event: &Event) -> (r: Option<(u8, u8)>)
    ensures
        match *event {
            Event::Status { outputs, inputs } => r == Some((outputs, inputs)),
            Event::InputChanged { .. } => r.is_none(),
        },
{
    match *event {
        Event::Status { outputs, inputs } => Some((outputs, inputs)),
        Event::InputChanged { .. } => None,
    }
}

/// A channel that the host accepts reaches the device, written as a line and
/// read back there, as the command for that output.
pub proof fn lemma_output_request_reaches_device(channel: u8, value: bool)
    requires
        1 <= channel <= NUM_OUTPUTS,
    ensures
        command_of_line(command_text(Command::SetOutput { channel: (channel - 1) as u8, value }))
            == Ok::<Command, &'static str>(Command::SetOutput { channel: (channel - 1) as u8, value }),
{
    lemma_command_round_trip(Command::SetOutput { channel: (channel - 1) as u8, value });
}

} // verus!
