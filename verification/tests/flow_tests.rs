use agentlink::agent::{agent_step, response_event, AgentAction, AgentState, ReceiveOutcome};
use agentlink::agent::EventLoop as AgentEvent;
use agentlink::codec::{decode_incoming, encode_outgoing};
use agentlink::controller::{incoming_event, ClientMessage, EventLoop as ControllerEvent};
use agentlink::ident::hash_of_identity;
use agentlink::messages::{ClientToServer, Command, ServerToClient};
use agentlink::sender::{MessageCenter, MessageSender};
use agentlink::tracker::ClientTracker;

#[test]
fn send_failure_and_zero_length_receive_give_one_send_failure_event() {
    let ev = response_event(ReceiveOutcome::Failure);
    assert!(matches!(ev, AgentEvent::MessageSendFailure));

    let ev = response_event(ReceiveOutcome::Data(Vec::new()));
    assert!(matches!(ev, AgentEvent::MessageSendFailure));

    let ev = response_event(ReceiveOutcome::Data(b"garbage".to_vec()));
    assert!(matches!(ev, AgentEvent::MessageSendFailure));
}

#[test]
fn good_reply_bytes_give_a_message_response() {
    let reply = ServerToClient::from_cmds(vec![Command::from_input("ls".to_owned(), 0)]);
    let ev = response_event(ReceiveOutcome::Data(encode_outgoing(&reply)));
    match ev {
        AgentEvent::MessageResponse(msg) => {
            assert_eq!(msg.commands.len(), 1);
            assert_eq!(msg.commands[0].input, "ls");
        }
        _ => panic!("expected a message response"),
    }
}

#[test]
fn agent_buffer_drains_once_per_timer_tick() {
    let mut state = AgentState { id: "H9".to_owned(), buffer: Vec::new() };

    let mut done = Command::from_input("pwd".to_owned(), 0);
    done.add_output("/".to_owned());
    let action = agent_step(&mut state, AgentEvent::CommandComplete(done));
    assert!(matches!(action, AgentAction::Idle));
    assert_eq!(state.buffer.len(), 1);

    let action = agent_step(&mut state, AgentEvent::TimerOff);
    match action {
        AgentAction::SendReport(report) => {
            assert_eq!(report.id, "H9");
            assert_eq!(report.commands.len(), 1);
            assert_eq!(report.commands[0].input, "pwd");
        }
        _ => panic!("expected a report"),
    }
    assert_eq!(state.buffer.len(), 0);

    // The next tick reports an empty batch: nothing is drained twice.
    let action = agent_step(&mut state, AgentEvent::TimerOff);
    match action {
        AgentAction::SendReport(report) => assert_eq!(report.commands.len(), 0),
        _ => panic!("expected a report"),
    }
}

#[test]
fn end_to_end_one_command_lifecycle() {
    let mut tracker = ClientTracker::new();

    // First poll from an unknown agent: it is registered, the reply owes
    // nothing.
    let hello = ClientMessage {
        commands: Vec::new(),
        source: "127.0.0.1".to_owned(),
        client_id: "H1".to_owned(),
    };
    let reply = tracker
        .controller_step(ControllerEvent::NewClientMessage(hello), 1)
        .unwrap();
    assert!(tracker.has_client("H1"));
    assert_eq!(reply.commands.len(), 0);

    // The operator enters a line; the trailing newline is trimmed and one
    // pending command is created for the registered client.
    let reply = tracker.controller_step(ControllerEvent::NewCommand("whoami\n".to_owned()), 2);
    assert!(reply.is_none());

    // The agent's next poll carries the pending command back.
    let poll = ClientMessage {
        commands: Vec::new(),
        source: "127.0.0.1".to_owned(),
        client_id: "H1".to_owned(),
    };
    let reply = tracker
        .controller_step(ControllerEvent::NewClientMessage(poll), 3)
        .unwrap();
    assert_eq!(reply.commands.len(), 1);
    assert_eq!(reply.commands[0].input, "whoami");
    assert_eq!(reply.commands[0].id, 0);
    assert!(reply.commands[0].output.is_none());

    // The agent receives the reply, runs the command, and reports it on the
    // following tick.
    let mut state = AgentState { id: "H1".to_owned(), buffer: Vec::new() };
    let action = agent_step(&mut state, AgentEvent::MessageResponse(reply));
    let mut to_run = match action {
        AgentAction::RunCommands(cs) => cs,
        _ => panic!("expected commands to run"),
    };
    assert_eq!(to_run.len(), 1);
    let mut executed = to_run.remove(0);
    executed.add_output("root".to_owned());
    agent_step(&mut state, AgentEvent::CommandComplete(executed));
    let report = match agent_step(&mut state, AgentEvent::TimerOff) {
        AgentAction::SendReport(m) => m,
        _ => panic!("expected a report"),
    };

    // The report travels as bytes and completes the command.
    let bytes = report.to_json().into_bytes();
    let decoded = decode_incoming(bytes).unwrap();
    let completion = ClientMessage {
        commands: decoded.commands,
        source: "127.0.0.1".to_owned(),
        client_id: decoded.id,
    };
    let reply = tracker
        .controller_step(ControllerEvent::NewClientMessage(completion), 4)
        .unwrap();
    assert_eq!(reply.commands.len(), 0);
    assert_eq!(tracker.unfinished_cmds("H1").unwrap().len(), 0);
}

#[test]
fn incoming_datagram_classifies_reports_and_garbage() {
    let report = ClientToServer::from_cmds("H3".to_owned(), Vec::new());
    let ev = incoming_event(report.to_json().into_bytes(), "10.0.0.9".to_owned());
    match ev {
        ControllerEvent::NewClientMessage(msg) => {
            assert_eq!(msg.client_id, "H3");
            assert_eq!(msg.source, "10.0.0.9");
            assert_eq!(msg.commands.len(), 0);
        }
        _ => panic!("expected a client message"),
    }

    let ev = incoming_event(b"not an envelope".to_vec(), "10.0.0.9".to_owned());
    assert!(matches!(ev, ControllerEvent::DecodeError));
    let ev = incoming_event(vec![0xff, 0xfe], "10.0.0.9".to_owned());
    assert!(matches!(ev, ControllerEvent::DecodeError));
}

#[test]
fn operator_line_without_separator_is_kept_whole() {
    let mut tracker = ClientTracker::new();
    tracker.add_client("h".to_owned(), "10.0.0.1".to_owned(), "Linux".to_owned(), 0);
    tracker.controller_step(ControllerEvent::NewCommand("ls".to_owned()), 1);
    let pending = tracker.unfinished_cmds("h").unwrap();
    assert_eq!(pending.len(), 1);
    assert_eq!(pending[0].input, "ls");
}

#[test]
fn message_center_invokes_only_one_sender() {
    let mut center: MessageCenter<RecordingSender> = MessageCenter::new();
    for id in 0..4u32 {
        center.add_sender(RecordingSender { id, sent: Vec::new() });
    }
    center.send_message(ClientToServer::from_cmds("h".to_owned(), Vec::new()));
    let total: usize = center.senders.iter().map(|s| s.sent.len()).sum();
    assert_eq!(total, 1);
}

#[test]
fn decode_error_event_changes_nothing() {
    let mut tracker = ClientTracker::new();
    tracker.add_client("h".to_owned(), "10.0.0.1".to_owned(), "Linux".to_owned(), 0);
    let reply = tracker.controller_step(ControllerEvent::DecodeError, 9);
    assert!(reply.is_none());
    assert_eq!(tracker.unfinished_cmds("h").unwrap().len(), 0);
}

#[test]
fn short_operator_lines_are_dropped() {
    let mut tracker = ClientTracker::new();
    tracker.add_client("h".to_owned(), "10.0.0.1".to_owned(), "Linux".to_owned(), 0);
    // One character plus the newline: trimmed length 1, no fan-out.
    tracker.controller_step(ControllerEvent::NewCommand("x\n".to_owned()), 1);
    assert_eq!(tracker.unfinished_cmds("h").unwrap().len(), 0);
    tracker.controller_step(ControllerEvent::NewCommand("\n".to_owned()), 1);
    assert_eq!(tracker.unfinished_cmds("h").unwrap().len(), 0);
    tracker.controller_step(ControllerEvent::NewCommand("ls\n".to_owned()), 1);
    assert_eq!(tracker.unfinished_cmds("h").unwrap().len(), 1);
}

struct RecordingSender {
    id: u32,
    sent: Vec<String>,
}

impl MessageSender for RecordingSender {
    fn send_message(&mut self, msg: ClientToServer) {
        self.sent.push(msg.to_json());
    }

    fn get_id(&self) -> u32 {
        self.id
    }
}

#[test]
fn message_center_with_no_senders_skips_silently() {
    let mut center: MessageCenter<RecordingSender> = MessageCenter::new();
    center.send_message(ClientToServer::from_cmds("h".to_owned(), Vec::new()));
    assert_eq!(center.senders.len(), 0);
}

#[test]
fn message_center_delegates_to_a_sender() {
    let mut center: MessageCenter<RecordingSender> = MessageCenter::new();
    center.add_sender(RecordingSender { id: 7, sent: Vec::new() });
    assert_eq!(center.senders[0].get_id(), 7);
    center.send_message(ClientToServer::from_cmds("h".to_owned(), Vec::new()));
    center.send_message(ClientToServer::from_cmds("h".to_owned(), Vec::new()));
    assert_eq!(center.senders[0].sent.len(), 2);
    assert_eq!(center.senders[0].sent[0].as_str(), r#"{"commands":[],"id":"h"}"#);
}

#[test]
fn identity_hash_is_the_digest_of_the_joined_pair() {
    let ours = hash_of_identity("Linux", "box");
    assert_eq!(ours.len(), 32);
    let reference = format!("{:x}", md5::compute("Linux-box"));
    assert_eq!(ours, reference);
    // The pair is joined with a dash before hashing, so swapping the parts
    // changes the digest.
    assert_ne!(hash_of_identity("box", "Linux"), ours);
}
