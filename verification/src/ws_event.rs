//! Events published to interested listeners while a run proceeds.

use vstd::prelude::*;

verus! {

/// One chunk of live command output, as published to listeners.
#[derive(Debug)]
pub struct CommandOutput {
    /// The output text.
    pub output: String,
}

/// The payload of one published event.
#[derive(Debug)]
pub enum WsPayload {
    /// Live output of a running command.
    CommandOutput(CommandOutput),
}

/// One event to publish.
#[derive(Debug)]
pub struct WsEvent {
    /// What the event carries.
    pub payload: WsPayload,
}

impl WsEvent {
    /// The event announcing one chunk of a running command's output.
    pub fn command_output(output: String) -> (r: Self)
        ensures
            r.payload matches WsPayload::CommandOutput(c) && c.output@ == output@,
    {
        WsEvent { payload: WsPayload::CommandOutput(CommandOutput { output }) }
    }
}

} // verus!
