//! The wire protocol's data model: one `Command`, and the two envelopes
//! exchanged between agent and controller.

use vstd::prelude::*;

verus! {

/// Mathematical model of a [`Command`].
pub struct CmdView {
    pub input: Seq<char>,
    pub output: Option<Seq<char>>,
    pub id: nat,
}

/// One unit of work: a shell line, its eventual captured result, and an id
/// unique within the owning client's command set.
#[derive(Debug)]
pub struct Command {
    pub input: String,
    pub output: Option<String>,
    pub id: usize,
}

impl View for Command {
    type V = CmdView;

    open spec fn view(&self) -> CmdView {
        CmdView {
            input: self.input@,
            output: match self.output {
                Some(ref s) => Some(s@),
                None => None,
            },
            id: self.id as nat,
        }
    }
}

impl Command {
    /// A fresh command: no output yet.
    pub fn from_input(input: String, id: usize) -> (c: Command)
        ensures
            c@ == (CmdView { input: input@, output: None::<Seq<char>>, id: id as nat }),
    {
        Command { output: None, input, id }
    }

    /// Attach the captured result; input and id are untouched.
    pub fn add_output(&mut self, output: String)
        ensures
            final(self)@ == (CmdView { output: Some(output@), ..old(self)@ }),
    {
        self.output = Some(output);
    }
}

/// Mathematical model of a [`ClientToServer`] envelope.
pub struct C2sView {
    pub commands: Seq<CmdView>,
    pub id: Seq<char>,
}

/// Agent-to-controller envelope: the agent's identity and its batch of
/// completed-command reports.
#[derive(Debug)]
pub struct ClientToServer {
    pub commands: Vec<Command>,
    pub id: String,
}

impl View for ClientToServer {
    type V = C2sView;

    open spec fn view(&self) -> C2sView {
        C2sView { commands: self.commands@.map_values(|c: Command| c@), id: self.id@ }
    }
}

impl ClientToServer {
    pub fn from_cmds(id: String, commands: Vec<Command>) -> (m: ClientToServer)
        ensures
            m@ == (C2sView { commands: commands@.map_values(|c: Command| c@), id: id@ }),
    {
        ClientToServer { id, commands }
    }
}

/// Mathematical model of a [`ServerToClient`] envelope.
pub struct S2cView {
    pub commands: Seq<CmdView>,
}

/// Controller-to-agent envelope: the commands still owed to this client.
#[derive(Debug)]
pub struct ServerToClient {
    pub commands: Vec<Command>,
}

impl View for ServerToClient {
    type V = S2cView;

    open spec fn view(&self) -> S2cView {
        S2cView { commands: self.commands@.map_values(|c: Command| c@) }
    }
}

impl ServerToClient {
    pub fn from_cmds(commands: Vec<Command>) -> (m: ServerToClient)
        ensures
            m@ == (S2cView { commands: commands@.map_values(|c: Command| c@) }),
    {
        ServerToClient { commands }
    }
}

} // verus!
