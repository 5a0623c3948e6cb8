//! The controller's event-step logic: what one event does to the registry,
//! and which reply it produces.
//!
//! The surrounding event loop — one consumer thread fed by transport and
//! stdin producers — performs no decision of its own: it hands every event
//! to [`ClientTracker::controller_step`] and sends the reply it gets back.

use vstd::prelude::*;
use crate::codec::{decode_incoming, parse_c2s};
use crate::messages::{C2sView, CmdView, Command, S2cView, ServerToClient};
use crate::tracker::{
    apply_reports, fanned_out, unfinished_of, ClientTracker, ClientView, CmdResView, EntryView,
    TrackerView,
};

verus! {

/// One decoded agent message, with the data the reply path needs: the
/// explicit form of the transport's reply callback.
pub struct ClientMessage {
    pub commands: Vec<Command>,
    pub source: String,
    pub client_id: String,
}

/// The controller's event alphabet.
pub enum EventLoop {
    NewClientMessage(ClientMessage),
    NewCommand(String),
    DecodeError,
}

/// The platform string a client is registered with before it reports one.
pub open spec fn os_placeholder_view() -> Seq<char> {
    seq!['t', 'e', 's', 't']
}

fn os_placeholder() -> (r: String)
    ensures
        r@ == os_placeholder_view(),
{
    let s = "test";
    proof {
        reveal_strlit("test");
        assert(s@ =~= os_placeholder_view());
    }
    s.to_owned()
}

/// Classify one received datagram as the event the poll loop enqueues: a
/// decodable report becomes a client-message event carrying the decoded
/// fields and the source address; anything else becomes exactly one
/// decode-error event, which answers with no reply.
pub fn incoming_event(data: Vec<u8>, source: String) -> (ev: EventLoop)
    ensures
        (ev is NewClientMessage) <==> (vstd::utf8::valid_utf8(data@) && parse_c2s(
            vstd::utf8::decode_utf8(data@),
        ) is Some),
        ev matches EventLoop::NewClientMessage(m) ==> {
            let parsed = parse_c2s(vstd::utf8::decode_utf8(data@)).unwrap();
            &&& m.commands@.map_values(|c: Command| c@) == parsed.commands
            &&& m.client_id@ == parsed.id
            &&& m.source@ == source@
        },
        !(ev is NewClientMessage) ==> ev is DecodeError,
{
    match decode_incoming(data) {
        Ok(msg) => EventLoop::NewClientMessage(ClientMessage {
            commands: msg.commands,
            client_id: msg.id,
            source,
        }),
        Err(_) => EventLoop::DecodeError,
    }
}

/// The registry after an unknown id has been registered; a known id leaves
/// it untouched.
pub open spec fn registered_after(
    t: TrackerView,
    id: Seq<char>,
    src: Seq<char>,
    now: int,
) -> TrackerView {
    if t.has_key(id) {
        t
    } else {
        TrackerView {
            clients: t.clients.push(EntryView {
                id: id,
                client: ClientView {
                    commands: Seq::<CmdResView>::empty(),
                    ip: src,
                    os: os_placeholder_view(),
                    last_checkup: now,
                },
            }),
        }
    }
}

/// The registry after one agent message: the sender is registered if new,
/// its checkup time refreshed, and its reported commands completed.
pub open spec fn controller_apply(
    t: TrackerView,
    id: Seq<char>,
    src: Seq<char>,
    reports: Seq<CmdView>,
    now: int,
) -> TrackerView {
    let t1 = registered_after(t, id, src, now);
    let i = t1.index_of(id);
    let c = t1.clients[i].client;
    t1.with_client_at(i, ClientView {
        commands: apply_reports(c.commands, reports),
        last_checkup: now,
        ..c
    })
}

/// A line with its trailing record separator removed; a line that carries
/// none is kept whole.
pub open spec fn trimmed_line(s: Seq<char>) -> Seq<char> {
    if s.len() > 0 && s.last() == '\n' {
        s.drop_last()
    } else {
        s
    }
}

impl ClientTracker {
    /// Handle one agent message: register the sender if unknown, refresh its
    /// checkup time, mark its reported commands complete, and reply with
    /// everything it still owes. The reply reflects the registry as of this
    /// message's processing.
    pub fn handle_client_message(&mut self, msg: ClientMessage, now: u64) -> (reply: ServerToClient)
        requires
            old(self)@.wf(),
        ensures
            final(self)@.wf(),
            final(self)@ == controller_apply(
                old(self)@,
                msg.client_id@,
                msg.source@,
                msg.commands@.map_values(|c: Command| c@),
                now as int,
            ),
            reply@ == (S2cView {
                commands: unfinished_of(final(self)@.client_of(msg.client_id@).commands),
            }),
    {
        let ghost old_view = self@;
        let ghost id = msg.client_id@;
        let ghost reports = msg.commands@.map_values(|c: Command| c@);
        if !self.has_client(msg.client_id.as_str()) {
            self.add_client(msg.client_id.clone(), msg.source.clone(), os_placeholder(), now);
        }
        let ghost t1 = self@;
        proof {
            assert(t1.clients =~= registered_after(old_view, id, msg.source@, now as int).clients);
            assert(t1 == registered_after(old_view, id, msg.source@, now as int));
            assert(t1.has_key(id));
        }
        let ghost i = t1.index_of(id);
        self.check_client(msg.client_id.as_str(), now);
        let ghost t2 = self@;
        proof {
            assert(t2 == t1.with_client_at(i, ClientView {
                last_checkup: now as int,
                ..t1.client_of(id)
            }));
            assert(t2.clients[i].id == id);
            crate::tracker::lemma_index_of(t2, i);
            assert(t2.index_of(id) == i);
        }
        let ghost c1 = t1.clients[i].client;
        self.finished_commands(msg.client_id.as_str(), msg.commands);
        let ghost t3 = self@;
        proof {
            assert(t3 == t2.with_client_at(i, ClientView {
                commands: apply_reports(t2.client_of(id).commands, reports),
                ..t2.client_of(id)
            }));
            assert(t2.client_of(id) == t2.clients[i].client);
            assert(t2.clients[i].client.commands == c1.commands);
            assert(t3.clients =~= controller_apply(
                old_view,
                id,
                msg.source@,
                reports,
                now as int,
            ).clients);
            assert(t3 == controller_apply(old_view, id, msg.source@, reports, now as int));
            assert(t3.clients[i].id == id);
            crate::tracker::lemma_index_of(t3, i);
        }
        let cmds = match self.unfinished_cmds(msg.client_id.as_str()) {
            Some(v) => v,
            None => Vec::new(),
        };
        ServerToClient::from_cmds(cmds)
    }

    /// Handle one controller event. An agent message yields a reply to send
    /// back to its source; an operator line with more than one character
    /// after trimming is fanned out to every client; a decode error changes
    /// nothing.
    pub fn controller_step(&mut self, event: EventLoop, now: u64) -> (reply: Option<ServerToClient>)
        requires
            old(self)@.wf(),
        ensures
            final(self)@.wf(),
            match event {
                EventLoop::NewClientMessage(m) => {
                    &&& final(self)@ == controller_apply(
                        old(self)@,
                        m.client_id@,
                        m.source@,
                        m.commands@.map_values(|c: Command| c@),
                        now as int,
                    )
                    &&& reply matches Some(r) && r@ == (S2cView {
                        commands: unfinished_of(final(self)@.client_of(m.client_id@).commands),
                    })
                },
                EventLoop::NewCommand(line) => {
                    &&& trimmed_line(line@).len() > 1 ==> final(self)@ == fanned_out(
                        old(self)@,
                        trimmed_line(line@),
                    )
                    &&& trimmed_line(line@).len() <= 1 ==> final(self)@ == old(self)@
                    &&& reply is None
                },
                EventLoop::DecodeError => final(self)@ == old(self)@ && reply is None,
            },
    {
        match event {
            EventLoop::NewClientMessage(msg) => {
                let r = self.handle_client_message(msg, now);
                Some(r)
            },
            EventLoop::NewCommand(line) => {
                let text = line.as_str();
                let n = text.unicode_len();
                if n == 0 {
                    return None;
                }
                let trimmed = if text.get_char(n - 1) == '\n' {
                    text.substring_char(0, n - 1)
                } else {
                    text
                };
                proof {
                    assert(trimmed@ =~= trimmed_line(line@));
                }
                if trimmed.unicode_len() > 1 {
                    self.new_command(trimmed.to_owned());
                }
                None
            },
            EventLoop::DecodeError => None,
        }
    }
}

} // verus!
