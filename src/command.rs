use vstd::prelude::*;

verus! {

/// A command of the store: a client request, and the unit that the log records.
///
/// `Put` and `Rm` are persisted; `Get` and `Open` are requests only.
#[derive(Debug, Clone, PartialEq, Eq)]
pub enum Command {
    Put { key: String, value: String },
    Get { key: String },
    Rm { key: String },
    Open { path: String },
}

/// Where a record lies in the log: its first byte and its size in bytes.
#[derive(Debug, Clone, Copy, PartialEq, Eq, Structural)]
pub struct CommandPosition {
    pub start: u64,
    pub length: u64,
}

/// The server's answer to one command.
#[derive(Debug, PartialEq, Eq)]
pub enum Response {
    GetOk(String),
    SetOk,
    RmOk,
    Error(String),
}

/// Arguments of the embedded command-line tool: the command to run.
pub struct Args {
    pub command: Command,
}

/// Arguments of the network client: the command to send and the server's address.
pub struct ClientArgs {
    pub command: Command,
    pub addr: Option<String>,
}

/// Arguments of the server: the address to listen on and the engine to use.
pub struct ServerArgs {
    pub addr: Option<String>,
    pub engine: Option<String>,
}

} // verus!
