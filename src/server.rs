//! The vocabulary of frames that a server sends.
use vstd::prelude::*;

use crate::command::{lemma_name_injective_all, Command, ParseError};

verus! {

/// The commands that a server sends.
#[derive(PartialEq, Eq, Structural, Debug, Clone, Copy)]
pub enum ServerCommand {
    CONNECTED,
    MESSAGE,
    RECEIPT,
    ERROR,
}

/// Whether some server command is written as `s`.
pub open spec fn is_server_command_name(s: Seq<char>) -> bool {
    exists|c: ServerCommand| c.spec_command().name() == s
}

impl ServerCommand {
    /// The command of the full vocabulary that this one is.
    pub open spec fn spec_command(self) -> Command {
        match self {
            ServerCommand::CONNECTED => Command::CONNECTED,
            ServerCommand::MESSAGE => Command::MESSAGE,
            ServerCommand::RECEIPT => Command::RECEIPT,
            ServerCommand::ERROR => Command::ERROR,
        }
    }

    /// The command of the full vocabulary that this one is.
    pub fn command(&self) -> (r: Command)
        ensures
            r == self.spec_command(),
    {
        match self {
            ServerCommand::CONNECTED => Command::CONNECTED,
            ServerCommand::MESSAGE => Command::MESSAGE,
            ServerCommand::RECEIPT => Command::RECEIPT,
            ServerCommand::ERROR => Command::ERROR,
        }
    }

    /// The server command that `c` is, if it is one.
    pub fn from_command(c: Command) -> (r: Option<ServerCommand>)
        ensures
            match r {
                Some(d) => d.spec_command() == c,
                None => c.spec_is_client(),
            },
    {
        match c {
            Command::CONNECTED => Some(ServerCommand::CONNECTED),
            Command::MESSAGE => Some(ServerCommand::MESSAGE),
            Command::RECEIPT => Some(ServerCommand::RECEIPT),
            Command::ERROR => Some(ServerCommand::ERROR),
            _ => None,
        }
    }

    /// The verb text of the command.
    pub fn render(&self) -> (r: &'static str)
        ensures
            r@ == self.spec_command().name(),
    {
        self.command().render()
    }

    /// Reads a server command from its exact verb text.
    pub fn parse(text: &str) -> (r: Result<ServerCommand, ParseError>)
        ensures
            match r {
                Ok(c) => c.spec_command().name() == text@,
                Err(ParseError::UnknownCommand(t)) => t@ == text@ && !is_server_command_name(text@),
            },
    {
        match Command::parse(text) {
            Ok(c) => match ServerCommand::from_command(c) {
                Some(d) => Ok(d),
                None => {
                    proof {
                        lemma_name_injective_all(c);
                    }
                    Err(ParseError::UnknownCommand(text.to_owned()))
                },
            },
            Err(e) => Err(e),
        }
    }
}

impl std::str::FromStr for ServerCommand {
    type Err = ParseError;

    fn from_str(text: &str) -> Result<ServerCommand, ParseError> {
        ServerCommand::parse(text)
    }
}

} // verus!
