//! The controller's client registry and command lifecycle.
//!
//! One [`Client`] per distinct agent id, each holding the full history of
//! commands issued to it. A command is `Pending` until an output is attached
//! (by a report from the agent) and `Completed` from then on; commands are
//! never deleted. Ids are unique within one client's command list: the id of
//! a command is its index in the list.

use vstd::prelude::*;
use crate::messages::{CmdView, Command};

verus! {

/// Mathematical model of a [`CommandResult`].
pub struct CmdResView {
    pub input: Seq<char>,
    pub output: Option<Seq<char>>,
    pub sent: int,
    pub recieved: int,
    pub id: nat,
}

/// Controller-side record of one issued command. `sent` and `recieved` are
/// reserved bookkeeping fields; no behavior depends on them.
pub struct CommandResult {
    pub input: String,
    pub output: Option<String>,
    pub sent: i64,
    pub recieved: i64,
    pub id: usize,
}

impl View for CommandResult {
    type V = CmdResView;

    open spec fn view(&self) -> CmdResView {
        CmdResView {
            input: self.input@,
            output: match self.output {
                Some(ref s) => Some(s@),
                None => None,
            },
            sent: self.sent as int,
            recieved: self.recieved as int,
            id: self.id as nat,
        }
    }
}

impl CommandResult {
    /// A fresh record: no output, zeroed bookkeeping.
    pub fn new(input: String, id: usize) -> (r: CommandResult)
        ensures
            r@ == (CmdResView {
                input: input@,
                output: None::<Seq<char>>,
                sent: 0,
                recieved: 0,
                id: id as nat,
            }),
    {
        CommandResult { output: None, sent: 0, recieved: 0, input, id }
    }

    /// Attach (or overwrite) the reported output; everything else is kept.
    pub fn set_output(&mut self, output: String)
        ensures
            final(self)@ == (CmdResView { output: Some(output@), ..old(self)@ }),
    {
        self.output = Some(output);
    }
}

/// Mathematical model of a [`Client`].
pub struct ClientView {
    pub commands: Seq<CmdResView>,
    pub ip: Seq<char>,
    pub os: Seq<char>,
    pub last_checkup: int,
}

impl ClientView {
    /// A command's id is its position in the list.
    pub open spec fn wf(self) -> bool {
        forall|i: int| 0 <= i < self.commands.len() ==> (#[trigger] self.commands[i]).id == i
    }
}

/// One known agent: its last observed source address (as text), its reported
/// platform string, the time of its last message, and its command history.
pub struct Client {
    pub commands: Vec<CommandResult>,
    pub ip: String,
    pub os: String,
    pub last_checkup: u64,
}

impl View for Client {
    type V = ClientView;

    open spec fn view(&self) -> ClientView {
        ClientView {
            commands: self.commands@.map_values(|c: CommandResult| c@),
            ip: self.ip@,
            os: self.os@,
            last_checkup: self.last_checkup as int,
        }
    }
}

/// The effect of one reported command on a command list: if the report names
/// an existing id and carries an output, that output is written (last write
/// wins); otherwise the report is ignored.
pub open spec fn apply_report(cmds: Seq<CmdResView>, r: CmdView) -> Seq<CmdResView> {
    if r.id < cmds.len() && r.output is Some {
        cmds.update(r.id as int, CmdResView { output: r.output, ..cmds[r.id as int] })
    } else {
        cmds
    }
}

/// The effect of a batch of reports, applied in order.
pub open spec fn apply_reports(cmds: Seq<CmdResView>, rs: Seq<CmdView>) -> Seq<CmdResView>
    decreases rs.len(),
{
    if rs.len() == 0 {
        cmds
    } else {
        apply_report(apply_reports(cmds, rs.drop_last()), rs.last())
    }
}

/// Exactly the pending commands of a list, in id order, repackaged as
/// output-free wire commands.
pub open spec fn unfinished_of(cmds: Seq<CmdResView>) -> Seq<CmdView>
    decreases cmds.len(),
{
    if cmds.len() == 0 {
        Seq::<CmdView>::empty()
    } else {
        let rest = unfinished_of(cmds.drop_last());
        let c = cmds.last();
        if c.output is None {
            rest.push(CmdView { input: c.input, output: None, id: c.id })
        } else {
            rest
        }
    }
}

impl Client {
    /// A newly registered client: no commands yet, checked up at `now`.
    pub fn new(ip: String, os: String, now: u64) -> (c: Client)
        ensures
            c@ == (ClientView {
                commands: Seq::<CmdResView>::empty(),
                ip: ip@,
                os: os@,
                last_checkup: now as int,
            }),
            c@.wf(),
    {
        let c = Client { commands: Vec::new(), last_checkup: now, ip, os };
        proof {
            assert(c@.commands =~= Seq::<CmdResView>::empty());
        }
        c
    }

    /// Refresh the last-checkup time.
    pub fn touch(&mut self, now: u64)
        ensures
            final(self)@ == (ClientView { last_checkup: now as int, ..old(self)@ }),
    {
        self.last_checkup = now;
    }

    /// How long since the client was last heard from.
    pub fn get_elapsed(&self, now: u64) -> (r: u64)
        requires
            self@.last_checkup <= now,
        ensures
            r == now - self@.last_checkup,
    {
        now - self.last_checkup
    }

    /// Record a batch of completion reports, in order. A report whose id is
    /// unknown or which carries no output is silently ignored.
    pub fn commands_complete(&mut self, commands: Vec<Command>)
        ensures
            final(self)@ == (ClientView {
                commands: apply_reports(
                    old(self)@.commands,
                    commands@.map_values(|c: Command| c@),
                ),
                ..old(self)@
            }),
            old(self)@.wf() ==> final(self)@.wf(),
    {
        let ghost all_reports = commands@.map_values(|c: Command| c@);
        let n = commands.len();
        let mut k: usize = 0;
        while k < n
            invariant
                n == commands@.len(),
                k <= n,
                all_reports == commands@.map_values(|c: Command| c@),
                self@ == (ClientView {
                    commands: apply_reports(old(self)@.commands, all_reports.take(k as int)),
                    ..old(self)@
                }),
                old(self)@.wf() ==> self@.wf(),
            decreases n - k,
        {
            let ghost pre = self@.commands;
            let cmd = &commands[k];
            if cmd.id < self.commands.len() {
                match &cmd.output {
                    Some(out) => {
                        let idx = cmd.id;
                        self.commands[idx].set_output(out.clone());
                        proof {
                            assert(self@.commands =~= apply_report(pre, all_reports[k as int]));
                        }
                    },
                    None => {
                        proof {
                            assert(self@.commands =~= apply_report(pre, all_reports[k as int]));
                        }
                    },
                }
            } else {
                proof {
                    assert(self@.commands =~= apply_report(pre, all_reports[k as int]));
                }
            }
            proof {
                let t = all_reports.take(k + 1 as int);
                assert(t.drop_last() =~= all_reports.take(k as int));
                assert(t.last() == all_reports[k as int]);
                assert(self@.commands == apply_reports(old(self)@.commands, t));
            }
            k = k + 1;
        }
        proof {
            assert(all_reports.take(n as int) =~= all_reports);
        }
    }

    /// Exactly the commands with absent output, in id order, repackaged as
    /// fresh (output-free) wire commands.
    pub fn unfinished_cmds(&self) -> (r: Vec<Command>)
        ensures
            r@.map_values(|c: Command| c@) == unfinished_of(self@.commands),
    {
        let mut result: Vec<Command> = Vec::new();
        let n = self.commands.len();
        let mut k: usize = 0;
        proof {
            assert(self@.commands.take(0) =~= Seq::<CmdResView>::empty());
            assert(result@.map_values(|c: Command| c@) =~= unfinished_of(self@.commands.take(0)));
        }
        while k < n
            invariant
                n == self.commands@.len(),
                k <= n,
                result@.map_values(|c: Command| c@) == unfinished_of(self@.commands.take(k as int)),
            decreases n - k,
        {
            let c = &self.commands[k];
            let ghost prefix = self@.commands.take(k as int);
            let ghost cur = self@.commands[k as int];
            let ghost before = result@.map_values(|cc: Command| cc@);
            if c.output.is_none() {
                result.push(Command::from_input(c.input.clone(), c.id));
                proof {
                    assert(result@.map_values(|cc: Command| cc@) =~= before.push(
                        CmdView { input: cur.input, output: None, id: cur.id },
                    ));
                }
            }
            proof {
                let t = self@.commands.take(k + 1 as int);
                assert(t.drop_last() =~= prefix);
                assert(t.last() == cur);
                assert(unfinished_of(t) == if cur.output is None {
                    unfinished_of(prefix).push(CmdView { input: cur.input, output: None, id: cur.id })
                } else {
                    unfinished_of(prefix)
                });
            }
            k = k + 1;
        }
        proof {
            assert(self@.commands.take(n as int) =~= self@.commands);
        }
        result
    }

    /// Issue one new command: it gets the next unused id, which is the
    /// current length of the command list.
    pub fn add_command(&mut self, input: String)
        ensures
            final(self)@ == (ClientView {
                commands: old(self)@.commands.push(CmdResView {
                    input: input@,
                    output: None::<Seq<char>>,
                    sent: 0,
                    recieved: 0,
                    id: old(self)@.commands.len(),
                }),
                ..old(self)@
            }),
            old(self)@.wf() ==> final(self)@.wf(),
    {
        let id = self.commands.len();
        self.commands.push(CommandResult::new(input, id));
        proof {
            assert(final(self)@.commands =~= old(self)@.commands.push(CmdResView {
                input: input@,
                output: None::<Seq<char>>,
                sent: 0,
                recieved: 0,
                id: old(self)@.commands.len(),
            }));
        }
    }
}

/// Reporting the same completed command twice is harmless: the second report
/// rewrites the same output, and the command list keeps its length, so no
/// duplicate entry ever appears.
pub proof fn lemma_reporting_idempotent(cmds: Seq<CmdResView>, r: CmdView)
    requires
        r.output is Some,
    ensures
        apply_reports(cmds, seq![r, r]) == apply_reports(cmds, seq![r]),
        apply_reports(cmds, seq![r]).len() == cmds.len(),
{
    let one = seq![r];
    let two = seq![r, r];
    let none = Seq::<CmdView>::empty();
    assert(two.drop_last() =~= one);
    assert(one.drop_last() =~= none);
    assert(apply_reports(cmds, none) == cmds);
    assert(apply_reports(cmds, one) == apply_report(apply_reports(cmds, one.drop_last()), one.last()));
    let after_one = apply_reports(cmds, one);
    assert(after_one == apply_report(cmds, r));
    assert(apply_reports(cmds, two) == apply_report(after_one, r));
    if r.id < cmds.len() {
        assert(apply_report(after_one, r) =~= after_one);
    }
}

/// Two reports for the same id leave the later output in place: reporting
/// is last-write-wins, whatever the earlier report carried.
pub proof fn lemma_reporting_last_wins(cmds: Seq<CmdResView>, r1: CmdView, r2: CmdView)
    requires
        r1.id == r2.id,
        r2.output is Some,
    ensures
        apply_reports(cmds, seq![r1, r2]) == apply_reports(cmds, seq![r2]),
{
    let one = seq![r1];
    let two = seq![r1, r2];
    let just2 = seq![r2];
    let none = Seq::<CmdView>::empty();
    assert(two.drop_last() =~= one);
    assert(one.drop_last() =~= none);
    assert(just2.drop_last() =~= none);
    assert(apply_reports(cmds, none) == cmds);
    assert(apply_reports(cmds, one) == apply_report(apply_reports(cmds, one.drop_last()), r1));
    assert(apply_reports(cmds, just2) == apply_report(apply_reports(cmds, just2.drop_last()), r2));
    assert(apply_reports(cmds, two) == apply_report(apply_report(cmds, r1), r2));
    if r1.id < cmds.len() && r1.output is Some {
        assert(apply_report(apply_report(cmds, r1), r2) =~= apply_report(cmds, r2));
    } else {
        assert(apply_report(cmds, r1) == cmds);
    }
}

/// A batch of reports never changes how many commands a client has: reports
/// complete existing entries, they never add or remove one.
pub proof fn lemma_reports_keep_len(cmds: Seq<CmdResView>, rs: Seq<CmdView>)
    ensures
        apply_reports(cmds, rs).len() == cmds.len(),
    decreases rs.len(),
{
    if rs.len() > 0 {
        lemma_reports_keep_len(cmds, rs.drop_last());
    }
}

/// Character-by-character string comparison.
pub fn str_eq(a: &str, b: &str) -> (r: bool)
    ensures
        r == (a@ == b@),
{
    let n = a.unicode_len();
    if n != b.unicode_len() {
        return false;
    }
    let mut k: usize = 0;
    while k < n
        invariant
            n == a@.len(),
            n == b@.len(),
            k <= n,
            forall|j: int| 0 <= j < k ==> a@[j] == b@[j],
        decreases n - k,
    {
        if a.get_char(k) != b.get_char(k) {
            return false;
        }
        k = k + 1;
    }
    proof {
        assert(a@ =~= b@);
    }
    true
}

/// Mathematical model of one registry entry.
pub struct EntryView {
    pub id: Seq<char>,
    pub client: ClientView,
}

/// One registry entry: an agent id and what is known of that agent.
pub struct ClientEntry {
    pub id: String,
    pub client: Client,
}

impl View for ClientEntry {
    type V = EntryView;

    open spec fn view(&self) -> EntryView {
        EntryView { id: self.id@, client: self.client@ }
    }
}

/// Mathematical model of the registry: a list of entries with pairwise
/// distinct ids, standing for a map from agent id to client state.
pub struct TrackerView {
    pub clients: Seq<EntryView>,
}

impl TrackerView {
    /// Distinct keys, and every client well formed.
    pub open spec fn wf(self) -> bool {
        &&& forall|i: int, j: int|
            0 <= i < self.clients.len() && 0 <= j < self.clients.len() && i != j
                ==> (#[trigger] self.clients[i]).id != (#[trigger] self.clients[j]).id
        &&& forall|i: int|
            0 <= i < self.clients.len() ==> (#[trigger] self.clients[i]).client.wf()
    }

    /// Whether some entry carries this id.
    pub open spec fn has_key(self, id: Seq<char>) -> bool {
        exists|i: int| 0 <= i < self.clients.len() && (#[trigger] self.clients[i]).id == id
    }

    /// The position of the entry with this id (meaningful when `has_key`).
    pub open spec fn index_of(self, id: Seq<char>) -> int {
        choose|i: int| 0 <= i < self.clients.len() && (#[trigger] self.clients[i]).id == id
    }

    /// The client registered under this id (meaningful when `has_key`).
    pub open spec fn client_of(self, id: Seq<char>) -> ClientView {
        self.clients[self.index_of(id)].client
    }

    /// The registry with the client at position `i` replaced.
    pub open spec fn with_client_at(self, i: int, c: ClientView) -> TrackerView {
        TrackerView { clients: self.clients.update(i, EntryView { id: self.clients[i].id, client: c }) }
    }
}

/// The registry after an instruction has been fanned out: every client's
/// command list grows by one fresh pending command, whose id is that
/// client's previous command count.
pub open spec fn fanned_out(t: TrackerView, input: Seq<char>) -> TrackerView {
    TrackerView {
        clients: Seq::new(t.clients.len(), |i: int| EntryView {
            id: t.clients[i].id,
            client: ClientView {
                commands: t.clients[i].client.commands.push(CmdResView {
                    input: input,
                    output: None,
                    sent: 0,
                    recieved: 0,
                    id: t.clients[i].client.commands.len(),
                }),
                ..t.clients[i].client
            },
        }),
    }
}

/// Position lookup agrees with any index that holds the key.
pub proof fn lemma_index_of(t: TrackerView, i: int)
    requires
        t.wf(),
        0 <= i < t.clients.len(),
    ensures
        t.has_key(t.clients[i].id),
        t.index_of(t.clients[i].id) == i,
{
    let id = t.clients[i].id;
    assert(t.has_key(id));
    let j = t.index_of(id);
    assert(0 <= j < t.clients.len() && t.clients[j].id == id);
}

/// The controller's registry: one [`Client`] per distinct agent id. An id,
/// once registered, is never removed.
pub struct ClientTracker {
    pub clients: Vec<ClientEntry>,
}

impl View for ClientTracker {
    type V = TrackerView;

    open spec fn view(&self) -> TrackerView {
        TrackerView { clients: self.clients@.map_values(|e: ClientEntry| e@) }
    }
}

impl ClientTracker {
    /// An empty registry.
    pub fn new() -> (t: ClientTracker)
        ensures
            t@.clients.len() == 0,
            t@.wf(),
    {
        let t = ClientTracker { clients: Vec::new() };
        proof {
            assert(t@.clients =~= Seq::<EntryView>::empty());
        }
        t
    }

    /// The position of the entry with this id, if any.
    fn find_index(&self, id: &str) -> (r: Option<usize>)
        requires
            self@.wf(),
        ensures
            match r {
                Some(i) => i < self@.clients.len() && self@.clients[i as int].id == id@
                    && self@.index_of(id@) == i,
                None => !self@.has_key(id@),
            },
    {
        let n = self.clients.len();
        let mut k: usize = 0;
        while k < n
            invariant
                self@.wf(),
                n == self@.clients.len(),
                k <= n,
                forall|j: int| 0 <= j < k ==> (#[trigger] self@.clients[j]).id != id@,
            decreases n - k,
        {
            if str_eq(self.clients[k].id.as_str(), id) {
                proof {
                    lemma_index_of(self@, k as int);
                }
                return Some(k);
            }
            k = k + 1;
        }
        None
    }

    /// Whether this agent id is registered.
    pub fn has_client(&self, id: &str) -> (r: bool)
        requires
            self@.wf(),
        ensures
            r == self@.has_key(id@),
    {
        self.find_index(id).is_some()
    }

    /// Register an agent. A fresh id is appended; registering an id that is
    /// already present replaces that client's state, as a map insert would.
    pub fn add_client(&mut self, id: String, ip: String, os: String, now: u64)
        requires
            old(self)@.wf(),
        ensures
            final(self)@.wf(),
            final(self)@.has_key(id@),
            final(self)@.client_of(id@) == (ClientView {
                commands: Seq::<CmdResView>::empty(),
                ip: ip@,
                os: os@,
                last_checkup: now as int,
            }),
            !old(self)@.has_key(id@) ==> final(self)@.clients == old(self)@.clients.push(
                EntryView {
                    id: id@,
                    client: ClientView {
                        commands: Seq::<CmdResView>::empty(),
                        ip: ip@,
                        os: os@,
                        last_checkup: now as int,
                    },
                },
            ),
            old(self)@.has_key(id@) ==> final(self)@ == old(self)@.with_client_at(
                old(self)@.index_of(id@),
                ClientView {
                    commands: Seq::<CmdResView>::empty(),
                    ip: ip@,
                    os: os@,
                    last_checkup: now as int,
                },
            ),
            forall|k: Seq<char>| old(self)@.has_key(k) ==> final(self)@.has_key(k),
    {
        let ghost old_view = self@;
        let fresh = Client::new(ip, os, now);
        match self.find_index(id.as_str()) {
            Some(i) => {
                self.clients[i].client = fresh;
                proof {
                    assert(self@.clients =~= old_view.with_client_at(i as int, fresh@).clients);
                    lemma_index_of(self@, i as int);
                    assert forall|k: Seq<char>| old_view.has_key(k) implies self@.has_key(k) by {
                        let j = old_view.index_of(k);
                        assert(0 <= j < old_view.clients.len() && old_view.clients[j].id == k);
                        assert(self@.clients[j].id == k);
                    }
                }
            },
            None => {
                let entry = ClientEntry { id, client: fresh };
                self.clients.push(entry);
                proof {
                    assert(self@.clients =~= old_view.clients.push(entry@));
                    lemma_index_of(self@, old_view.clients.len() as int);
                    assert forall|k: Seq<char>| old_view.has_key(k) implies self@.has_key(k) by {
                        let j = old_view.index_of(k);
                        assert(0 <= j < old_view.clients.len() && old_view.clients[j].id == k);
                        assert(self@.clients[j].id == k);
                    }
                }
            },
        }
    }

    /// Refresh the last-checkup time of a known client; an unknown id is
    /// ignored.
    pub fn check_client(&mut self, id: &str, now: u64)
        requires
            old(self)@.wf(),
        ensures
            final(self)@.wf(),
            !old(self)@.has_key(id@) ==> final(self)@ == old(self)@,
            old(self)@.has_key(id@) ==> final(self)@ == old(self)@.with_client_at(
                old(self)@.index_of(id@),
                ClientView {
                    last_checkup: now as int,
                    ..old(self)@.client_of(id@)
                },
            ),
    {
        let ghost old_view = self@;
        match self.find_index(id) {
            Some(i) => {
                self.clients[i].client.touch(now);
                proof {
                    assert(self@.clients =~= old_view.with_client_at(
                        i as int,
                        ClientView { last_checkup: now as int, ..old_view.client_of(id@) },
                    ).clients);
                    assert forall|j: int| 0 <= j < self@.clients.len()
                        implies (#[trigger] self@.clients[j]).client.wf() by {
                        assert(old_view.clients[j].client.wf());
                        if j != i {
                            assert(self@.clients[j] == old_view.clients[j]);
                        }
                    }
                }
            },
            None => {
                proof {
                    assert(self@.clients =~= old_view.clients);
                }
            },
        }
    }

    /// Record a batch of completion reports for a known client; an unknown
    /// id drops the batch silently.
    pub fn finished_commands(&mut self, id: &str, cmds: Vec<Command>)
        requires
            old(self)@.wf(),
        ensures
            final(self)@.wf(),
            !old(self)@.has_key(id@) ==> final(self)@ == old(self)@,
            old(self)@.has_key(id@) ==> final(self)@ == old(self)@.with_client_at(
                old(self)@.index_of(id@),
                ClientView {
                    commands: apply_reports(
                        old(self)@.client_of(id@).commands,
                        cmds@.map_values(|c: Command| c@),
                    ),
                    ..old(self)@.client_of(id@)
                },
            ),
    {
        let ghost old_view = self@;
        match self.find_index(id) {
            Some(i) => {
                self.clients[i].client.commands_complete(cmds);
                proof {
                    assert(self@.clients =~= old_view.with_client_at(
                        i as int,
                        ClientView {
                            commands: apply_reports(
                                old_view.client_of(id@).commands,
                                cmds@.map_values(|c: Command| c@),
                            ),
                            ..old_view.client_of(id@)
                        },
                    ).clients);
                    assert forall|j: int| 0 <= j < self@.clients.len()
                        implies (#[trigger] self@.clients[j]).client.wf() by {
                        assert(old_view.clients[j].client.wf());
                        if j != i {
                            assert(self@.clients[j] == old_view.clients[j]);
                        }
                    }
                }
            },
            None => {
                proof {
                    assert(self@.clients =~= old_view.clients);
                }
            },
        }
    }

    /// The commands still owed to this client: `None` for an unknown id
    /// (distinguished from a known client that owes nothing).
    pub fn unfinished_cmds(&self, id: &str) -> (r: Option<Vec<Command>>)
        requires
            self@.wf(),
        ensures
            r is Some <==> self@.has_key(id@),
            r is Some ==> r.unwrap()@.map_values(|c: Command| c@) == unfinished_of(
                self@.client_of(id@).commands,
            ),
    {
        match self.find_index(id) {
            Some(i) => Some(self.clients[i].client.unfinished_cmds()),
            None => None,
        }
    }

    /// Fan a new instruction out: every registered client gets its own copy,
    /// each under that client's next unused id.
    pub fn new_command(&mut self, input: String)
        requires
            old(self)@.wf(),
        ensures
            final(self)@.wf(),
            final(self)@ == fanned_out(old(self)@, input@),
            final(self)@.clients.len() == old(self)@.clients.len(),
            forall|k: Seq<char>| #[trigger] old(self)@.has_key(k) ==> final(self)@.has_key(k),
            forall|k: Seq<char>| #[trigger] final(self)@.has_key(k) ==> old(self)@.has_key(k),
            forall|i: int| 0 <= i < old(self)@.clients.len() ==> (#[trigger] final(self)@.clients[i])
                == (EntryView {
                id: old(self)@.clients[i].id,
                client: ClientView {
                    commands: old(self)@.clients[i].client.commands.push(CmdResView {
                        input: input@,
                        output: None::<Seq<char>>,
                        sent: 0,
                        recieved: 0,
                        id: old(self)@.clients[i].client.commands.len(),
                    }),
                    ..old(self)@.clients[i].client
                },
            }),
    {
        let ghost old_view = self@;
        let n = self.clients.len();
        let mut k: usize = 0;
        while k < n
            invariant
                n == self@.clients.len(),
                k <= n,
                old_view.clients.len() == n,
                forall|i: int| k <= i < n ==> (#[trigger] self@.clients[i]) == old_view.clients[i],
                forall|i: int| 0 <= i < k ==> (#[trigger] self@.clients[i]) == (EntryView {
                    id: old_view.clients[i].id,
                    client: ClientView {
                        commands: old_view.clients[i].client.commands.push(CmdResView {
                            input: input@,
                            output: None::<Seq<char>>,
                            sent: 0,
                            recieved: 0,
                            id: old_view.clients[i].client.commands.len(),
                        }),
                        ..old_view.clients[i].client
                    },
                }),
                forall|i: int| 0 <= i < n ==> (#[trigger] self@.clients[i]).id
                    == old_view.clients[i].id,
                forall|i: int| 0 <= i < n ==> (#[trigger] self@.clients[i]).client.wf(),
                old_view.wf(),
            decreases n - k,
        {
            let ghost before_entries = self@.clients;
            self.clients[k].client.add_command(input.clone());
            proof {
                assert(self@.clients =~= before_entries.update(k as int, EntryView {
                    id: before_entries[k as int].id,
                    client: ClientView {
                        commands: before_entries[k as int].client.commands.push(CmdResView {
                            input: input@,
                            output: None::<Seq<char>>,
                            sent: 0,
                            recieved: 0,
                            id: before_entries[k as int].client.commands.len(),
                        }),
                        ..before_entries[k as int].client
                    },
                }));
            }
            k = k + 1;
        }
        proof {
            assert(self@.clients =~= fanned_out(old_view, input@).clients);
            assert(self@ == fanned_out(old_view, input@));
            assert forall|key: Seq<char>| #[trigger] old_view.has_key(key) implies self@.has_key(
                key,
            ) by {
                let j = old_view.index_of(key);
                assert(0 <= j < old_view.clients.len() && old_view.clients[j].id == key);
                assert(self@.clients[j].id == key);
            }
            assert forall|key: Seq<char>| #[trigger] self@.has_key(key) implies old_view.has_key(
                key,
            ) by {
                let j = self@.index_of(key);
                assert(0 <= j < self@.clients.len() && self@.clients[j].id == key);
                assert(old_view.clients[j].id == key);
            }
        }
    }
}

} // verus!
