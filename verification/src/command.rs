//! The closed set of commands the server understands, produced from a
//! decoded frame by the interpreter in `frame`.

use vstd::prelude::*;

use crate::store::Expiry;

verus! {

/// A typed request: the result of interpreting a command frame.
#[derive(Debug)]
pub enum Command {
    Get(String),
    SetVal(String, String, Option<Expiry>),
    Echo(String),
    Ping,
}

/// The abstract value of a command, with text as character sequences.
pub enum CommandV {
    Get(Seq<char>),
    SetVal(Seq<char>, Seq<char>, Option<Expiry>),
    Echo(Seq<char>),
    Ping,
}

impl Command {
    /// The abstract value of this command.
    pub open spec fn cv(self) -> CommandV {
        match self {
            Command::Get(k) => CommandV::Get(k@),
            Command::SetVal(k, v, e) => CommandV::SetVal(k@, v@, e),
            Command::Echo(t) => CommandV::Echo(t@),
            Command::Ping => CommandV::Ping,
        }
    }
}

} // verus!
