//! The agent's event-step logic, and the classification of what one
//! send-then-wait flow brings back.
//!
//! The surrounding event loop owns an [`AgentState`] and feeds every event
//! to [`agent_step`]; the action that comes back tells it what to do next
//! (spawn executions, or hand a report to the sender pool). The transport
//! flow classifies its outcome with [`response_event`] and enqueues exactly
//! that one event.

use vstd::prelude::*;
use crate::codec::{decode_reply, parse_s2c};
use crate::messages::{C2sView, ClientToServer, Command, ServerToClient};

verus! {

/// The agent's event alphabet.
pub enum EventLoop {
    CommandComplete(Command),
    MessageResponse(ServerToClient),
    MessageSendFailure,
    TimerOff,
}

/// What the event loop is to do after a step.
pub enum AgentAction {
    /// Spawn one local execution per command; each will come back as a
    /// `CommandComplete` event.
    RunCommands(Vec<Command>),
    /// Hand this report batch to the sender pool.
    SendReport(ClientToServer),
    /// Nothing to do.
    Idle,
}

/// The state the agent's consumer thread owns: its identity and the
/// completed commands not yet reported.
pub struct AgentState {
    pub id: String,
    pub buffer: Vec<Command>,
}

/// One step of the agent's event loop: a completed command joins the
/// buffer; a controller response asks for one execution per command; a send
/// failure changes nothing; a timer tick drains the whole buffer into one
/// report keyed by the agent's identity.
pub fn agent_step(state: &mut AgentState, event: EventLoop) -> (action: AgentAction)
    ensures
        final(state).id@ == old(state).id@,
        match event {
            EventLoop::CommandComplete(cmd) => {
                &&& final(state).buffer@.map_values(|c: Command| c@) == old(
                    state,
                ).buffer@.map_values(|c: Command| c@).push(cmd@)
                &&& action is Idle
            },
            EventLoop::MessageResponse(msg) => {
                &&& final(state).buffer@ == old(state).buffer@
                &&& action matches AgentAction::RunCommands(cs) && cs@.map_values(
                    |c: Command| c@,
                ) == msg@.commands
            },
            EventLoop::MessageSendFailure => {
                &&& final(state).buffer@ == old(state).buffer@
                &&& action is Idle
            },
            EventLoop::TimerOff => {
                &&& final(state).buffer@.len() == 0
                &&& action matches AgentAction::SendReport(m) && m@ == (C2sView {
                    commands: old(state).buffer@.map_values(|c: Command| c@),
                    id: old(state).id@,
                })
            },
        },
{
    match event {
        EventLoop::CommandComplete(cmd) => {
            let ghost before = state.buffer@.map_values(|c: Command| c@);
            let ghost cv = cmd@;
            state.buffer.push(cmd);
            proof {
                assert(state.buffer@.map_values(|c: Command| c@) =~= before.push(cv));
            }
            AgentAction::Idle
        },
        EventLoop::MessageResponse(msg) => AgentAction::RunCommands(msg.commands),
        EventLoop::MessageSendFailure => AgentAction::Idle,
        EventLoop::TimerOff => {
            let mut drained: Vec<Command> = Vec::new();
            core::mem::swap(&mut drained, &mut state.buffer);
            let report = ClientToServer::from_cmds(state.id.clone(), drained);
            AgentAction::SendReport(report)
        },
    }
}

/// What one send-then-wait transport flow brought back. `Failure` stands
/// for any bind, connect, send or receive error, a receive timeout
/// included; `Data` carries the received bytes, possibly none.
pub enum ReceiveOutcome {
    Failure,
    Data(Vec<u8>),
}

/// Classify a transport outcome as the one event the flow enqueues: a
/// failure, a zero-length receive, and bytes that do not decode each give
/// exactly one `MessageSendFailure`; only bytes that decode to a reply give
/// a `MessageResponse`.
pub fn response_event(outcome: ReceiveOutcome) -> (ev: EventLoop)
    ensures
        (ev is MessageResponse) <==> (outcome matches ReceiveOutcome::Data(b) && b@.len() > 0
            && vstd::utf8::valid_utf8(b@) && parse_s2c(vstd::utf8::decode_utf8(b@)) is Some),
        ev matches EventLoop::MessageResponse(m) ==> m@ == parse_s2c(
            vstd::utf8::decode_utf8(outcome->Data_0@),
        ).unwrap(),
        !(ev is MessageResponse) ==> ev is MessageSendFailure,
{
    match outcome {
        ReceiveOutcome::Failure => EventLoop::MessageSendFailure,
        ReceiveOutcome::Data(bytes) => {
            if bytes.len() == 0 {
                EventLoop::MessageSendFailure
            } else {
                match decode_reply(bytes) {
                    Ok(msg) => EventLoop::MessageResponse(msg),
                    Err(_) => EventLoop::MessageSendFailure,
                }
            }
        },
    }
}

} // verus!
