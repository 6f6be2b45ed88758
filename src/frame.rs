//! Frames and their wire form.
use vstd::prelude::*;
use vstd::utf8::*;

use crate::command::{is_command_name, lemma_name_injective_all, Command};
use crate::escape::{escape_into, escaped, COLON, LF};
use crate::text::{find_byte, find_in, lemma_piece_valid, utf8_text};

verus! {

broadcast use vstd::utf8::encode_utf8_decode_utf8;

/// The frame terminator.
pub const NUL: u8 = 0x00;

/// One protocol message: a command, headers in the order given (keys may
/// repeat) and an optional body.
#[derive(PartialEq, Debug)]
pub struct Frame {
    pub command: Command,
    pub headers: Vec<(String, String)>,
    pub body: Option<String>,
}

/// A frame as text.
pub struct FrameView {
    pub command: Command,
    pub headers: Seq<(Seq<char>, Seq<char>)>,
    pub body: Option<Seq<char>>,
}

/// Why a byte buffer is not a frame.
#[derive(PartialEq, Debug)]
pub enum DecodeError {
    /// The first line names no command; it holds that line.
    UnknownCommand(String),
    /// The buffer is not valid UTF-8.
    InvalidEncoding,
    /// The buffer ends before the blank line that closes the headers, or a
    /// header line has no `:`.
    TruncatedFrame,
}

/// A decoding failure as text.
pub enum DecodeFailure {
    UnknownCommand(Seq<char>),
    InvalidEncoding,
    TruncatedFrame,
}

pub open spec fn header_view(h: (String, String)) -> (Seq<char>, Seq<char>) {
    (h.0@, h.1@)
}

/// Header pairs as text.
pub open spec fn headers_view(hs: Seq<(String, String)>) -> Seq<(Seq<char>, Seq<char>)> {
    hs.map_values(|h: (String, String)| header_view(h))
}

pub open spec fn body_view(b: Option<String>) -> Option<Seq<char>> {
    match b {
        Some(s) => Some(s@),
        None => None,
    }
}

impl View for Frame {
    type V = FrameView;

    open spec fn view(&self) -> FrameView {
        FrameView {
            command: self.command,
            headers: headers_view(self.headers@),
            body: body_view(self.body),
        }
    }
}

impl View for DecodeError {
    type V = DecodeFailure;

    open spec fn view(&self) -> DecodeFailure {
        match self {
            DecodeError::UnknownCommand(t) => DecodeFailure::UnknownCommand(t@),
            DecodeError::InvalidEncoding => DecodeFailure::InvalidEncoding,
            DecodeError::TruncatedFrame => DecodeFailure::TruncatedFrame,
        }
    }
}

/// A decoding result as text.
pub open spec fn result_view(r: Result<Frame, DecodeError>) -> Result<FrameView, DecodeFailure> {
    match r {
        Ok(f) => Ok(f@),
        Err(e) => Err(e@),
    }
}

/// One header line on the wire: escaped key, `:`, escaped value, line feed.
pub open spec fn header_line(h: (Seq<char>, Seq<char>)) -> Seq<u8> {
    escaped(encode_utf8(h.0)) + seq![COLON] + escaped(encode_utf8(h.1)) + seq![LF]
}

/// The header lines on the wire, in order.
pub open spec fn header_block(hs: Seq<(Seq<char>, Seq<char>)>) -> Seq<u8>
    decreases hs.len(),
{
    if hs.len() == 0 {
        seq![]
    } else {
        header_line(hs[0]) + header_block(hs.drop_first())
    }
}

/// The body on the wire: its bytes as they are, nothing where there is none.
pub open spec fn body_bytes(b: Option<Seq<char>>) -> Seq<u8> {
    match b {
        Some(t) => encode_utf8(t),
        None => seq![],
    }
}

/// A frame on the wire.
pub open spec fn encoded(f: FrameView) -> Seq<u8> {
    encode_utf8(f.command.name()) + seq![LF] + header_block(f.headers) + seq![LF] + body_bytes(
        f.body,
    ) + seq![NUL]
}

pub proof fn lemma_header_block_push(hs: Seq<(Seq<char>, Seq<char>)>, h: (Seq<char>, Seq<char>))
    ensures
        header_block(hs.push(h)) == header_block(hs) + header_line(h),
    decreases hs.len(),
{
    if hs.len() == 0 {
        assert(hs.push(h).drop_first() =~= Seq::<(Seq<char>, Seq<char>)>::empty());
        assert(hs.push(h)[0] == h);
        assert(header_block(Seq::<(Seq<char>, Seq<char>)>::empty()) == Seq::<u8>::empty());
        assert(header_block(hs.push(h)) =~= header_line(h));
    } else {
        lemma_header_block_push(hs.drop_first(), h);
        assert(hs.push(h).drop_first() =~= hs.drop_first().push(h));
        assert(header_block(hs.push(h)) =~= header_block(hs) + header_line(h));
    }
}

/// Writes a frame: command line, escaped header lines in order, a blank line,
/// the body as it is, and the terminator.
pub fn serialize(frame: Frame) -> (r: Vec<u8>)
    ensures
        r@ == encoded(frame@),
{
    let mut bytes: Vec<u8> = Vec::new();
    let name = frame.command.render().as_bytes();
    let mut i: usize = 0;
    while i < name.len()
        invariant
            0 <= i <= name@.len(),
            bytes@ == name@.subrange(0, i as int),
        decreases name@.len() - i,
    {
        bytes.push(name[i]);
        i = i + 1;
        proof {
            assert(bytes@ =~= name@.subrange(0, i as int));
        }
    }
    bytes.push(LF);
    let ghost hs = frame@.headers;
    let ghost start = bytes@;
    let mut h: usize = 0;
    while h < frame.headers.len()
        invariant
            0 <= h <= frame.headers@.len(),
            hs == frame@.headers,
            bytes@ == start + header_block(hs.take(h as int)),
        decreases frame.headers@.len() - h,
    {
        let key = frame.headers[h].0.as_str().as_bytes();
        let value = frame.headers[h].1.as_str().as_bytes();
        escape_into(&mut bytes, key);
        bytes.push(COLON);
        escape_into(&mut bytes, value);
        bytes.push(LF);
        proof {
            assert(hs.take(h + 1) =~= hs.take(h as int).push(hs[h as int]));
            lemma_header_block_push(hs.take(h as int), hs[h as int]);
            assert(bytes@ =~= start + header_block(hs.take(h + 1)));
        }
        h = h + 1;
    }
    bytes.push(LF);
    if let Some(body) = &frame.body {
        let text = body.as_str().as_bytes();
        let ghost before = bytes@;
        let mut i: usize = 0;
        while i < text.len()
            invariant
                0 <= i <= text@.len(),
                bytes@ == before + text@.subrange(0, i as int),
            decreases text@.len() - i,
        {
            bytes.push(text[i]);
            i = i + 1;
            proof {
                assert(bytes@ =~= before + text@.subrange(0, i as int));
            }
        }
        proof {
            assert(text@.subrange(0, text@.len() as int) =~= text@);
        }
    }
    bytes.push(NUL);
    proof {
        assert(name@.subrange(0, name@.len() as int) =~= name@);
        assert(hs.take(hs.len() as int) =~= hs);
        assert(bytes@ =~= encoded(frame@));
    }
    bytes
}

/// Header lines as bytes up to the blank line that closes them: the
/// `(key, value)` pairs, each line cut at its first `:`, and what follows the
/// blank line; `None` where the bytes end before a blank line or a line has
/// no `:`.
pub open spec fn parse_headers(rest: Seq<u8>) -> Option<(Seq<(Seq<u8>, Seq<u8>)>, Seq<u8>)>
    decreases rest.len(),
{
    let j = find_byte(rest, LF);
    if j >= rest.len() {
        None
    } else if j == 0 {
        Some((seq![], rest.subrange(1, rest.len() as int)))
    } else {
        let line = rest.subrange(0, j as int);
        let k = find_byte(line, COLON);
        if k >= line.len() {
            None
        } else {
            match parse_headers(rest.subrange(j + 1 as int, rest.len() as int)) {
                Some((hs, tail)) => Some(
                    (
                        seq![(line.subrange(0, k as int), line.subrange(k + 1 as int, line.len() as int))]
                            + hs,
                        tail,
                    ),
                ),
                None => None,
            }
        }
    }
}

/// Header pairs as text.
pub open spec fn headers_text(hs: Seq<(Seq<u8>, Seq<u8>)>) -> Seq<(Seq<char>, Seq<char>)> {
    hs.map_values(|h: (Seq<u8>, Seq<u8>)| (decode_utf8(h.0), decode_utf8(h.1)))
}

/// What follows the blank line, without a final terminator: the body, or
/// none where nothing is left.
pub open spec fn body_of(rest: Seq<u8>) -> Option<Seq<char>> {
    let content = if rest.len() > 0 && rest.last() == NUL {
        rest.drop_last()
    } else {
        rest
    };
    if content.len() == 0 {
        None
    } else {
        Some(decode_utf8(content))
    }
}

/// What a byte buffer holding one frame decodes to. Header text is taken as
/// it stands: escape sequences are not reversed.
pub open spec fn decoded(b: Seq<u8>) -> Result<FrameView, DecodeFailure> {
    if !valid_utf8(b) {
        Err(DecodeFailure::InvalidEncoding)
    } else {
        let p = find_byte(b, LF);
        let name = decode_utf8(b.subrange(0, p as int));
        if !is_command_name(name) {
            Err(DecodeFailure::UnknownCommand(name))
        } else if p >= b.len() {
            Err(DecodeFailure::TruncatedFrame)
        } else {
            match parse_headers(b.subrange(p + 1 as int, b.len() as int)) {
                None => Err(DecodeFailure::TruncatedFrame),
                Some((hs, rest)) => Ok(
                    FrameView {
                        command: choose|c: Command| c.name() == name,
                        headers: headers_text(hs),
                        body: body_of(rest),
                    },
                ),
            }
        }
    }
}

/// The header pairs found so far put before what the rest of the header
/// lines give.
pub open spec fn after_headers(
    found: Seq<(Seq<u8>, Seq<u8>)>,
    rest: Option<(Seq<(Seq<u8>, Seq<u8>)>, Seq<u8>)>,
) -> Option<(Seq<(Seq<u8>, Seq<u8>)>, Seq<u8>)> {
    match rest {
        Some((hs, tail)) => Some((found + hs, tail)),
        None => None,
    }
}

/// The text of `b[from..to]`, which the caller shows to be valid UTF-8.
fn text_between(b: &[u8], from: usize, to: usize) -> (r: String)
    requires
        from <= to <= b@.len(),
        valid_utf8(b@.subrange(from as int, to as int)),
    ensures
        r@ == decode_utf8(b@.subrange(from as int, to as int)),
{
    let piece = &b[from..to];
    match utf8_text(piece) {
        Some(t) => t.to_owned(),
        // Not reached: the piece is valid UTF-8.
        None => String::new(),
    }
}

/// Reads one frame from a buffer, with or without its final terminator: the
/// buffer must be UTF-8, its first line a command, then header lines each
/// cut at its first `:`, up to a blank line; what follows, less a final NUL,
/// is the body. Header text is kept as it stands on the wire: escape
/// sequences are not reversed (see `unescape`), so a frame reads back as
/// written when its header text holds no `\r`, `\n`, `:` or `\`.
pub fn deserialize(maybe_frame: Vec<u8>) -> (r: Result<Frame, DecodeError>)
    ensures
        result_view(r) == decoded(maybe_frame@),
{
    let b = maybe_frame.as_slice();
    let n = b.len();
    if utf8_text(b).is_none() {
        return Err(DecodeError::InvalidEncoding);
    }
    let p = find_in(b, 0, n, LF);
    proof {
        assert(b@.subrange(0, n as int) =~= b@);
        lemma_piece_valid(b@, 0, p as int);
    }
    let name = text_between(b, 0, p);
    let command = match Command::parse(name.as_str()) {
        Ok(c) => c,
        Err(_) => return Err(DecodeError::UnknownCommand(name)),
    };
    proof {
        lemma_name_injective_all(command);
        assert(name@ == decode_utf8(b@.subrange(0, p as int)));
        assert(is_command_name(name@));
        assert((choose|c: Command| c.name() == name@) == command);
    }
    if p >= n {
        return Err(DecodeError::TruncatedFrame);
    }
    let ghost all = b@.subrange(p + 1, n as int);
    let ghost mut found: Seq<(Seq<u8>, Seq<u8>)> = seq![];
    let mut headers: Vec<(String, String)> = Vec::new();
    let mut i: usize = p + 1;
    loop
        invariant
            n == b@.len(),
            valid_utf8(b@),
            p < i <= n,
            b@[i - 1] == LF,
            all == b@.subrange(p + 1, n as int),
            parse_headers(all) == after_headers(found, parse_headers(b@.subrange(i as int, n as int))),
            b@ == maybe_frame@,
            headers_view(headers@) == headers_text(found),
            decoded(b@) == match parse_headers(all) {
                None => Err(DecodeFailure::TruncatedFrame),
                Some((hs, rest)) => Ok(
                    FrameView { command, headers: headers_text(hs), body: body_of(rest) },
                ),
            },
        ensures
            i < n,
            b@[i as int] == LF,
        decreases n - i,
    {
        let ghost rest = b@.subrange(i as int, n as int);
        let j = find_in(b, i, n, LF);
        if j >= n {
            proof {
                assert(find_byte(rest, LF) >= rest.len());
                assert(parse_headers(rest) is None);
                assert(parse_headers(all) is None);
                assert(decoded(b@) == Err::<FrameView, DecodeFailure>(DecodeFailure::TruncatedFrame));
            }
            return Err(DecodeError::TruncatedFrame);
        }
        if j == i {
            break;
        }
        let k = find_in(b, i, j, COLON);
        proof {
            assert(rest.subrange(0, j - i) =~= b@.subrange(i as int, j as int));
        }
        if k >= j {
            return Err(DecodeError::TruncatedFrame);
        }
        proof {
            lemma_piece_valid(b@, i as int, k as int);
            lemma_piece_valid(b@, k + 1, j as int);
        }
        let key = text_between(b, i, k);
        let value = text_between(b, k + 1, j);
        let ghost line = b@.subrange(i as int, j as int);
        let ghost pair = (line.subrange(0, k - i), line.subrange(k - i + 1, line.len() as int));
        proof {
            assert(pair.0 =~= b@.subrange(i as int, k as int));
            assert(pair.1 =~= b@.subrange(k + 1, j as int));
            assert(rest.subrange(j - i + 1, rest.len() as int) =~= b@.subrange(j + 1, n as int));
            match parse_headers(b@.subrange(j + 1, n as int)) {
                Some((hs, tail)) => {
                    assert(found + (seq![pair] + hs) =~= found.push(pair) + hs);
                },
                None => {},
            }
        }
        let ghost before = headers@;
        headers.push((key, value));
        proof {
            assert(headers@ =~= before.push(headers@.last()));
            assert(header_view(headers@.last()) == (decode_utf8(pair.0), decode_utf8(pair.1)));
            let old_found = found;
            found = found.push(pair);
            assert(headers_view(before).len() == before.len());
            assert(headers_text(old_found).len() == old_found.len());
            assert forall|x: int| 0 <= x < headers@.len() implies #[trigger] header_view(headers@[x])
                == headers_text(found)[x] by {
                if x < before.len() {
                    assert(header_view(before[x]) == headers_view(before)[x]);
                    assert(headers_text(old_found)[x] == headers_text(found)[x]);
                }
            }
            assert(headers_view(headers@) =~= headers_text(found));
        }
        i = j + 1;
    }
    proof {
        let rest = b@.subrange(i as int, n as int);
        assert(rest.subrange(1, rest.len() as int) =~= b@.subrange(i + 1, n as int));
        assert(found + Seq::<(Seq<u8>, Seq<u8>)>::empty() =~= found);
    }
    let end = if n > i + 1 && b[n - 1] == NUL {
        n - 1
    } else {
        n
    };
    let ghost content = b@.subrange(i + 1, end as int);
    proof {
        let rest = b@.subrange(i + 1, n as int);
        if n > i + 1 && b@[n - 1] == NUL {
            assert(rest.drop_last() =~= content);
        } else {
            assert(rest =~= content);
        }
    }
    let body = if end == i + 1 {
        None
    } else {
        proof {
            lemma_piece_valid(b@, i + 1, end as int);
        }
        Some(text_between(b, i + 1, end))
    };
    Ok(Frame { command, headers, body })
}

} // verus!
