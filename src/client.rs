//! Frames that a client sends, written into a `bytes` buffer.
use vstd::prelude::*;

use bytes::{BufMut, BytesMut};

use crate::command::{lemma_name_injective_all, Command, ParseError};
use crate::escape::{escape, COLON, LF};
use crate::frame::{
    body_bytes, body_view, decoded, deserialize, encoded, header_block, header_line, headers_view,
    DecodeError, DecodeFailure, FrameView, NUL,
};

verus! {

#[verifier::external_type_specification]
#[verifier::external_body]
pub struct ExBytesMut(BytesMut);

/// The bytes that a `BytesMut` holds.
pub uninterp spec fn buffer_bytes(b: BytesMut) -> Seq<u8>;

/// Relies on `BytesMut::new`: a buffer that holds nothing.
#[verifier::external_body]
fn new_buffer() -> (r: BytesMut)
    ensures
        buffer_bytes(r) == Seq::<u8>::empty(),
{
    BytesMut::new()
}

/// Relies on `BufMut::put_u8` for `BytesMut`: the byte is appended, the
/// buffer growing as needed; growing past `isize::MAX` bytes panics.
#[verifier::external_body]
fn put_byte(b: &mut BytesMut, x: u8)
    requires
        buffer_bytes(*old(b)).len() + 1 <= isize::MAX,
    ensures
        buffer_bytes(*final(b)) == buffer_bytes(*old(b)).push(x),
{
    b.put_u8(x)
}

/// Relies on `BufMut::put_slice` for `BytesMut`: the bytes are appended, the
/// buffer growing as needed; growing past `isize::MAX` bytes panics.
#[verifier::external_body]
fn put_bytes(b: &mut BytesMut, src: &[u8])
    requires
        buffer_bytes(*old(b)).len() + src@.len() <= isize::MAX,
    ensures
        buffer_bytes(*final(b)) == buffer_bytes(*old(b)) + src@,
{
    b.put_slice(src)
}

/// Relies on `BytesMut` dereferencing to the bytes it holds, copied out by
/// `to_vec`.
#[verifier::external_body]
fn buffer_to_vec(b: &BytesMut) -> (r: Vec<u8>)
    ensures
        r@ == buffer_bytes(*b),
{
    b.to_vec()
}

/// The commands that a client sends.
#[derive(PartialEq, Eq, Structural, Debug, Clone, Copy)]
pub enum ClientCommand {
    SEND,
    SUBSCRIBE,
    UNSUBSCRIBE,
    BEGIN,
    COMMIT,
    ABORT,
    ACK,
    NACK,
    DISCONNECT,
    CONNECT,
    STOMP,
}

/// Whether some client command is written as `s`.
pub open spec fn is_client_command_name(s: Seq<char>) -> bool {
    exists|c: ClientCommand| c.spec_command().name() == s
}

impl ClientCommand {
    /// The command of the full vocabulary that this one is.
    pub open spec fn spec_command(self) -> Command {
        match self {
            ClientCommand::SEND => Command::SEND,
            ClientCommand::SUBSCRIBE => Command::SUBSCRIBE,
            ClientCommand::UNSUBSCRIBE => Command::UNSUBSCRIBE,
            ClientCommand::BEGIN => Command::BEGIN,
            ClientCommand::COMMIT => Command::COMMIT,
            ClientCommand::ABORT => Command::ABORT,
            ClientCommand::ACK => Command::ACK,
            ClientCommand::NACK => Command::NACK,
            ClientCommand::DISCONNECT => Command::DISCONNECT,
            ClientCommand::CONNECT => Command::CONNECT,
            ClientCommand::STOMP => Command::STOMP,
        }
    }

    /// The command of the full vocabulary that this one is.
    pub fn command(&self) -> (r: Command)
        ensures
            r == self.spec_command(),
    {
        match self {
            ClientCommand::SEND => Command::SEND,
            ClientCommand::SUBSCRIBE => Command::SUBSCRIBE,
            ClientCommand::UNSUBSCRIBE => Command::UNSUBSCRIBE,
            ClientCommand::BEGIN => Command::BEGIN,
            ClientCommand::COMMIT => Command::COMMIT,
            ClientCommand::ABORT => Command::ABORT,
            ClientCommand::ACK => Command::ACK,
            ClientCommand::NACK => Command::NACK,
            ClientCommand::DISCONNECT => Command::DISCONNECT,
            ClientCommand::CONNECT => Command::CONNECT,
            ClientCommand::STOMP => Command::STOMP,
        }
    }

    /// The client command that `c` is, if it is one.
    pub fn from_command(c: Command) -> (r: Option<ClientCommand>)
        ensures
            match r {
                Some(d) => d.spec_command() == c,
                None => c.spec_is_server(),
            },
    {
        match c {
            Command::SEND => Some(ClientCommand::SEND),
            Command::SUBSCRIBE => Some(ClientCommand::SUBSCRIBE),
            Command::UNSUBSCRIBE => Some(ClientCommand::UNSUBSCRIBE),
            Command::BEGIN => Some(ClientCommand::BEGIN),
            Command::COMMIT => Some(ClientCommand::COMMIT),
            Command::ABORT => Some(ClientCommand::ABORT),
            Command::ACK => Some(ClientCommand::ACK),
            Command::NACK => Some(ClientCommand::NACK),
            Command::DISCONNECT => Some(ClientCommand::DISCONNECT),
            Command::CONNECT => Some(ClientCommand::CONNECT),
            Command::STOMP => Some(ClientCommand::STOMP),
            _ => None,
        }
    }

    /// The verb text of the command.
    pub fn render(&self) -> (r: &'static str)
        ensures
            r@ == self.spec_command().name(),
    {
        self.command().render()
    }

    /// Reads a client command from its exact verb text.
    pub fn parse(text: &str) -> (r: Result<ClientCommand, ParseError>)
        ensures
            match r {
                Ok(c) => c.spec_command().name() == text@,
                Err(ParseError::UnknownCommand(t)) => t@ == text@ && !is_client_command_name(text@),
            },
    {
        match Command::parse(text) {
            Ok(c) => match ClientCommand::from_command(c) {
                Some(d) => Ok(d),
                None => {
                    proof {
                        lemma_name_injective_all(c);
                    }
                    Err(ParseError::UnknownCommand(text.to_owned()))
                },
            },
            Err(e) => Err(e),
        }
    }
}

impl std::str::FromStr for ClientCommand {
    type Err = ParseError;

    fn from_str(text: &str) -> Result<ClientCommand, ParseError> {
        ClientCommand::parse(text)
    }
}

/// A frame that a client sends.
pub struct StompFrame {
    pub command: ClientCommand,
    pub headers: Vec<(String, String)>,
    pub body: Option<String>,
}

impl View for StompFrame {
    type V = FrameView;

    open spec fn view(&self) -> FrameView {
        FrameView {
            command: self.command.spec_command(),
            headers: headers_view(self.headers@),
            body: body_view(self.body),
        }
    }
}

impl StompFrame {
    /// Writes the frame in the same wire form as `serialize`.
    pub fn serialize(&self) -> (r: Vec<u8>)
        requires
            encoded(self@).len() <= isize::MAX,
        ensures
            r@ == encoded(self@),
    {
        let ghost hs = self@.headers;
        let ghost tail = seq![LF] + body_bytes(self@.body) + seq![NUL];
        let ghost total = encoded(self@);
        let mut buffer = new_buffer();
        let name = self.command.render().as_bytes();
        put_bytes(&mut buffer, name);
        put_byte(&mut buffer, LF);
        let mut h: usize = 0;
        proof {
            assert(hs.subrange(0, hs.len() as int) =~= hs);
            assert(total =~= buffer_bytes(buffer) + header_block(hs) + tail);
        }
        while h < self.headers.len()
            invariant
                0 <= h <= self.headers@.len(),
                hs == self@.headers,
                total == encoded(self@),
                total.len() <= isize::MAX,
                buffer_bytes(buffer) + header_block(hs.subrange(h as int, hs.len() as int)) + tail
                    == total,
            decreases self.headers@.len() - h,
        {
            let ghost line = header_line(hs[h as int]);
            let ghost later = header_block(hs.subrange(h + 1, hs.len() as int));
            proof {
                assert(hs.subrange(h as int, hs.len() as int).drop_first() =~= hs.subrange(
                    h + 1,
                    hs.len() as int,
                ));
                assert(header_block(hs.subrange(h as int, hs.len() as int)) == line + later);
                assert(buffer_bytes(buffer) + line + later + tail =~= total);
            }
            let key = escape(self.headers[h].0.as_str().as_bytes());
            let value = escape(self.headers[h].1.as_str().as_bytes());
            put_bytes(&mut buffer, key.as_slice());
            put_byte(&mut buffer, COLON);
            put_bytes(&mut buffer, value.as_slice());
            put_byte(&mut buffer, LF);
            proof {
                assert(buffer_bytes(buffer) + later + tail =~= total);
            }
            h = h + 1;
        }
        proof {
            assert(hs.subrange(h as int, hs.len() as int) =~= Seq::<(Seq<char>, Seq<char>)>::empty());
            assert(buffer_bytes(buffer) + tail =~= total);
        }
        put_byte(&mut buffer, LF);
        if let Some(body) = &self.body {
            proof {
                assert(buffer_bytes(buffer) + body_bytes(self@.body) + seq![NUL] =~= total);
            }
            put_bytes(&mut buffer, body.as_str().as_bytes());
        }
        proof {
            assert(buffer_bytes(buffer) + seq![NUL] =~= total);
        }
        put_byte(&mut buffer, NUL);
        buffer_to_vec(&buffer)
    }

    /// Reads a frame that a client sends; a command that only a server sends
    /// is unknown here.
    pub fn deserialize(frame: Vec<u8>) -> (r: Result<StompFrame, DecodeError>)
        ensures
            match decoded(frame@) {
                Ok(f) => if f.command.spec_is_client() {
                    r matches Ok(s) && s@ == f
                } else {
                    r matches Err(e) && e@ == DecodeFailure::UnknownCommand(f.command.name())
                },
                Err(e) => r matches Err(d) && d@ == e,
            },
    {
        match deserialize(frame) {
            Ok(f) => match ClientCommand::from_command(f.command) {
                Some(command) => Ok(StompFrame { command, headers: f.headers, body: f.body }),
                None => Err(DecodeError::UnknownCommand(f.command.render().to_owned())),
            },
            Err(e) => Err(e),
        }
    }
}

} // verus!
