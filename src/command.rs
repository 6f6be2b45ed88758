//! The closed vocabulary of frame commands.
use vstd::prelude::*;

use crate::text::same_text;

verus! {

/// Every command verb of the protocol, in both directions.
#[derive(PartialEq, Eq, Structural, Debug, Clone, Copy)]
pub enum Command {
    SEND,
    SUBSCRIBE,
    UNSUBSCRIBE,
    BEGIN,
    COMMIT,
    ABORT,
    ACK,
    NACK,
    DISCONNECT,
    CONNECT,
    STOMP,
    CONNECTED,
    MESSAGE,
    RECEIPT,
    ERROR,
}

/// The error of reading a command from text that names none.
#[derive(PartialEq, Debug)]
pub enum ParseError {
    UnknownCommand(String),
}

/// Whether some command is written as `s`.
pub open spec fn is_command_name(s: Seq<char>) -> bool {
    exists|c: Command| c.name() == s
}

impl Command {
    /// The exact upper-case verb text of the command.
    pub open spec fn name(self) -> Seq<char> {
        match self {
            Command::SEND => seq!['S', 'E', 'N', 'D'],
            Command::SUBSCRIBE => seq!['S', 'U', 'B', 'S', 'C', 'R', 'I', 'B', 'E'],
            Command::UNSUBSCRIBE => seq!['U', 'N', 'S', 'U', 'B', 'S', 'C', 'R', 'I', 'B', 'E'],
            Command::BEGIN => seq!['B', 'E', 'G', 'I', 'N'],
            Command::COMMIT => seq!['C', 'O', 'M', 'M', 'I', 'T'],
            Command::ABORT => seq!['A', 'B', 'O', 'R', 'T'],
            Command::ACK => seq!['A', 'C', 'K'],
            Command::NACK => seq!['N', 'A', 'C', 'K'],
            Command::DISCONNECT => seq!['D', 'I', 'S', 'C', 'O', 'N', 'N', 'E', 'C', 'T'],
            Command::CONNECT => seq!['C', 'O', 'N', 'N', 'E', 'C', 'T'],
            Command::STOMP => seq!['S', 'T', 'O', 'M', 'P'],
            Command::CONNECTED => seq!['C', 'O', 'N', 'N', 'E', 'C', 'T', 'E', 'D'],
            Command::MESSAGE => seq!['M', 'E', 'S', 'S', 'A', 'G', 'E'],
            Command::RECEIPT => seq!['R', 'E', 'C', 'E', 'I', 'P', 'T'],
            Command::ERROR => seq!['E', 'R', 'R', 'O', 'R'],
        }
    }

    /// Whether the command is one that a client sends.
    pub open spec fn spec_is_client(self) -> bool {
        !self.spec_is_server()
    }

    /// Whether the command is one that a server sends.
    pub open spec fn spec_is_server(self) -> bool {
        ||| self == Command::CONNECTED
        ||| self == Command::MESSAGE
        ||| self == Command::RECEIPT
        ||| self == Command::ERROR
    }

    /// The verb text of the command.
    pub fn render(&self) -> (r: &'static str)
        ensures
            r@ == self.name(),
    {
        match self {
            Command::SEND => {
                proof {
                    reveal_strlit("SEND");
                }
                "SEND"
            },
            Command::SUBSCRIBE => {
                proof {
                    reveal_strlit("SUBSCRIBE");
                }
                "SUBSCRIBE"
            },
            Command::UNSUBSCRIBE => {
                proof {
                    reveal_strlit("UNSUBSCRIBE");
                }
                "UNSUBSCRIBE"
            },
            Command::BEGIN => {
                proof {
                    reveal_strlit("BEGIN");
                }
                "BEGIN"
            },
            Command::COMMIT => {
                proof {
                    reveal_strlit("COMMIT");
                }
                "COMMIT"
            },
            Command::ABORT => {
                proof {
                    reveal_strlit("ABORT");
                }
                "ABORT"
            },
            Command::ACK => {
                proof {
                    reveal_strlit("ACK");
                }
                "ACK"
            },
            Command::NACK => {
                proof {
                    reveal_strlit("NACK");
                }
                "NACK"
            },
            Command::DISCONNECT => {
                proof {
                    reveal_strlit("DISCONNECT");
                }
                "DISCONNECT"
            },
            Command::CONNECT => {
                proof {
                    reveal_strlit("CONNECT");
                }
                "CONNECT"
            },
            Command::STOMP => {
                proof {
                    reveal_strlit("STOMP");
                }
                "STOMP"
            },
            Command::CONNECTED => {
                proof {
                    reveal_strlit("CONNECTED");
                }
                "CONNECTED"
            },
            Command::MESSAGE => {
                proof {
                    reveal_strlit("MESSAGE");
                }
                "MESSAGE"
            },
            Command::RECEIPT => {
                proof {
                    reveal_strlit("RECEIPT");
                }
                "RECEIPT"
            },
            Command::ERROR => {
                proof {
                    reveal_strlit("ERROR");
                }
                "ERROR"
            },
        }
    }

    /// Reads a command from its exact verb text: no trimming, no case folding.
    pub fn parse(text: &str) -> (r: Result<Command, ParseError>)
        ensures
            match r {
                Ok(c) => c.name() == text@,
                Err(ParseError::UnknownCommand(t)) => t@ == text@ && !is_command_name(text@),
            },
    {
        if same_text(text, Command::SEND.render()) {
            return Ok(Command::SEND);
        }
        if same_text(text, Command::SUBSCRIBE.render()) {
            return Ok(Command::SUBSCRIBE);
        }
        if same_text(text, Command::UNSUBSCRIBE.render()) {
            return Ok(Command::UNSUBSCRIBE);
        }
        if same_text(text, Command::BEGIN.render()) {
            return Ok(Command::BEGIN);
        }
        if same_text(text, Command::COMMIT.render()) {
            return Ok(Command::COMMIT);
        }
        if same_text(text, Command::ABORT.render()) {
            return Ok(Command::ABORT);
        }
        if same_text(text, Command::ACK.render()) {
            return Ok(Command::ACK);
        }
        if same_text(text, Command::NACK.render()) {
            return Ok(Command::NACK);
        }
        if same_text(text, Command::DISCONNECT.render()) {
            return Ok(Command::DISCONNECT);
        }
        if same_text(text, Command::CONNECT.render()) {
            return Ok(Command::CONNECT);
        }
        if same_text(text, Command::STOMP.render()) {
            return Ok(Command::STOMP);
        }
        if same_text(text, Command::CONNECTED.render()) {
            return Ok(Command::CONNECTED);
        }
        if same_text(text, Command::MESSAGE.render()) {
            return Ok(Command::MESSAGE);
        }
        if same_text(text, Command::RECEIPT.render()) {
            return Ok(Command::RECEIPT);
        }
        if same_text(text, Command::ERROR.render()) {
            return Ok(Command::ERROR);
        }
        Err(ParseError::UnknownCommand(text.to_owned()))
    }

    /// Whether the command is one that a client sends.
    pub fn is_client(&self) -> (r: bool)
        ensures
            r == self.spec_is_client(),
    {
        !self.is_server()
    }

    /// Whether the command is one that a server sends.
    pub fn is_server(&self) -> (r: bool)
        ensures
            r == self.spec_is_server(),
    {
        match self {
            Command::CONNECTED | Command::MESSAGE | Command::RECEIPT | Command::ERROR => true,
            _ => false,
        }
    }
}

/// Two commands with the same text are the same command, so reading back the
/// text of a command gives that command.
pub proof fn lemma_name_injective(a: Command, b: Command)
    ensures
        a.name() == b.name() ==> a == b,
{
    // The length and the first letter of a verb already tell it apart.
    if a.name() == b.name() {
        assert(a.name().len() == b.name().len() && a.name()[0] == b.name()[0]);
    }
}

/// The command that a name read back stands for is the one that has it.
pub proof fn lemma_name_injective_all(a: Command)
    ensures
        forall|b: Command| #[trigger] b.name() == a.name() ==> b == a,
{
    assert forall|b: Command| #[trigger] b.name() == a.name() implies b == a by {
        lemma_name_injective(a, b);
    }
}

impl std::str::FromStr for Command {
    type Err = ParseError;

    fn from_str(text: &str) -> Result<Command, ParseError> {
        Command::parse(text)
    }
}

} // verus!
