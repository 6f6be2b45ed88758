//! What decoding gives back from an encoded frame.
use vstd::prelude::*;
use vstd::utf8::*;

use crate::command::{is_command_name, lemma_name_injective_all, Command};
use crate::escape::{escaped, is_reserved, lemma_escaped_plain, COLON, LF};
use crate::frame::{
    body_bytes, body_of, decoded, encoded, header_block, header_line, headers_text, parse_headers,
    FrameView, NUL,
};
use crate::text::{find_byte, lemma_find_byte};

verus! {

/// Text with none of the characters that header escaping rewrites.
pub open spec fn plain_text(s: Seq<char>) -> bool {
    forall|i: int|
        0 <= i < s.len() ==> #[trigger] s[i] != '\r' && s[i] != '\n' && s[i] != ':' && s[i]
            != '\\'
}

/// The UTF-8 bytes of plain text hold no byte that escaping rewrites: each
/// character outside ASCII is written with bytes of `0x80` and above.
pub proof fn lemma_plain_bytes(s: Seq<char>)
    requires
        plain_text(s),
    ensures
        forall|i: int| 0 <= i < encode_utf8(s).len() ==> !is_reserved(#[trigger] encode_utf8(s)[i]),
    decreases s.len(),
{
    if s.len() > 0 {
        let rest = s.drop_first();
        assert(plain_text(rest)) by {
            assert forall|i: int| 0 <= i < rest.len() implies #[trigger] rest[i] != '\r' && rest[i]
                != '\n' && rest[i] != ':' && rest[i] != '\\' by {
                assert(rest[i] == s[i + 1]);
            }
        }
        lemma_plain_bytes(rest);
        let v = s[0] as u32;
        let head = encode_scalar(v);
        assert(s[0] != '\r' && s[0] != '\n' && s[0] != ':' && s[0] != '\\');
        assert forall|i: int| 0 <= i < head.len() implies !is_reserved(#[trigger] head[i]) by {
            if has_width_1_encoding(v) {
                assert((v & 0x7f) as u8 == v as u8) by (bit_vector)
                    requires
                        v <= 0x7f,
                ;
                assert(head[i] == v);
                char_u32_cast(s[0], v);
                char_u32_cast('\r', 0x0d);
                char_u32_cast('\n', 0x0a);
                char_u32_cast(':', 0x3a);
                char_u32_cast('\\', 0x5c);
                assert(v != 0x0d && v != 0x0a && v != 0x3a && v != 0x5c);
            } else {
                assert(forall|y: u8| #[trigger] (0x80u8 | y) >= 0x80u8) by (bit_vector);
                assert(forall|y: u8| #[trigger] (0xC0u8 | y) >= 0x80u8) by (bit_vector);
                assert(forall|y: u8| #[trigger] (0xE0u8 | y) >= 0x80u8) by (bit_vector);
                assert(forall|y: u8| #[trigger] (0xF0u8 | y) >= 0x80u8) by (bit_vector);
            }
        }
        assert(encode_utf8(s) == head + encode_utf8(rest));
    }
}

/// Header text that escaping leaves as it is.
pub open spec fn plain_headers(hs: Seq<(Seq<char>, Seq<char>)>) -> bool {
    forall|i: int| 0 <= i < hs.len() ==> plain_text(#[trigger] hs[i].0) && plain_text(hs[i].1)
}

/// Header pairs as UTF-8 bytes.
pub open spec fn headers_bytes(hs: Seq<(Seq<char>, Seq<char>)>) -> Seq<(Seq<u8>, Seq<u8>)> {
    hs.map_values(|h: (Seq<char>, Seq<char>)| (encode_utf8(h.0), encode_utf8(h.1)))
}

/// A single ASCII byte is valid UTF-8.
proof fn lemma_ascii_byte_valid(x: u8)
    requires
        x < 0x80,
    ensures
        valid_utf8(seq![x]),
{
    assert((x & 0x7f) as u32 <= 0x7f) by (bit_vector);
    assert(pop_first_scalar(seq![x]) =~= Seq::<u8>::empty());
    reveal_with_fuel(valid_utf8, 2);
}

/// Plain header lines are read back as the pairs they were written from, and
/// are valid UTF-8.
proof fn lemma_header_block_parse(hs: Seq<(Seq<char>, Seq<char>)>, x: Seq<u8>)
    requires
        plain_headers(hs),
    ensures
        parse_headers(header_block(hs) + seq![LF] + x) == Some((headers_bytes(hs), x)),
        valid_utf8(header_block(hs)),
    decreases hs.len(),
{
    let input = header_block(hs) + seq![LF] + x;
    if hs.len() == 0 {
        assert(input =~= seq![LF] + x);
        lemma_find_byte(input, LF, 0);
        assert(input.subrange(1, input.len() as int) =~= x);
        assert(headers_bytes(hs) =~= Seq::<(Seq<u8>, Seq<u8>)>::empty());
        assert(valid_utf8(Seq::<u8>::empty()));
    } else {
        let h = hs[0];
        let rest = hs.drop_first();
        assert(plain_text(h.0) && plain_text(h.1));
        assert(plain_headers(rest)) by {
            assert forall|i: int| 0 <= i < rest.len() implies plain_text(#[trigger] rest[i].0)
                && plain_text(rest[i].1) by {
                assert(rest[i] == hs[i + 1]);
            }
        }
        lemma_header_block_parse(rest, x);
        let k = encode_utf8(h.0);
        let v = encode_utf8(h.1);
        lemma_plain_bytes(h.0);
        lemma_plain_bytes(h.1);
        lemma_escaped_plain(k);
        lemma_escaped_plain(v);
        let line = k + seq![COLON] + v;
        assert(header_line(h) == line + seq![LF]);
        let after = header_block(rest) + seq![LF] + x;
        assert(input =~= line + seq![LF] + after);
        let j = line.len() as int;
        assert forall|i: int| 0 <= i < j implies input[i] != LF by {
            assert(input[i] == line[i]);
            if i < k.len() {
                assert(line[i] == k[i]);
            } else if i > k.len() {
                assert(line[i] == v[i - k.len() - 1]);
            }
        }
        lemma_find_byte(input, LF, j);
        assert(input.subrange(0, j) =~= line);
        assert forall|i: int| 0 <= i < k.len() implies line[i] != COLON by {
            assert(line[i] == k[i]);
        }
        lemma_find_byte(line, COLON, k.len() as int);
        assert(line.subrange(0, k.len() as int) =~= k);
        assert(line.subrange(k.len() + 1 as int, line.len() as int) =~= v);
        assert(input.subrange(j + 1, input.len() as int) =~= after);
        assert(headers_bytes(hs) =~= seq![(k, v)] + headers_bytes(rest));
        lemma_ascii_byte_valid(COLON);
        lemma_ascii_byte_valid(LF);
        encode_utf8_valid_utf8(h.0);
        encode_utf8_valid_utf8(h.1);
        valid_utf8_concat(k, seq![COLON]);
        valid_utf8_concat(k + seq![COLON], v);
        valid_utf8_concat(line, seq![LF]);
        valid_utf8_concat(header_line(h), header_block(rest));
    }
}

/// Decoding an encoded frame whose header text escaping leaves as it is
/// gives back its command and headers, with the body read from what follows
/// the blank line.
pub proof fn lemma_decode_encoded(f: FrameView)
    requires
        plain_headers(f.headers),
    ensures
        decoded(encoded(f)) == Ok::<FrameView, crate::frame::DecodeFailure>(
            FrameView {
                command: f.command,
                headers: f.headers,
                body: body_of(body_bytes(f.body) + seq![NUL]),
            },
        ),
{
    let b = encoded(f);
    let name = f.command.name();
    let nb = encode_utf8(name);
    let tail = body_bytes(f.body) + seq![NUL];
    let rest = header_block(f.headers) + seq![LF] + tail;
    assert(b =~= nb + seq![LF] + rest);
    assert(plain_text(name));
    lemma_plain_bytes(name);
    assert forall|i: int| 0 <= i < nb.len() implies b[i] != LF by {
        assert(b[i] == nb[i]);
    }
    lemma_find_byte(b, LF, nb.len() as int);
    assert(b.subrange(0, nb.len() as int) =~= nb);
    assert(is_command_name(name));
    lemma_name_injective_all(f.command);
    assert(b.subrange(nb.len() + 1 as int, b.len() as int) =~= rest);
    lemma_header_block_parse(f.headers, tail);
    assert(headers_text(headers_bytes(f.headers)) =~= f.headers) by {
        broadcast use encode_utf8_decode_utf8;

    }
    assert(decode_utf8(nb) == name) by {
        encode_utf8_decode_utf8(name);
    }
    lemma_ascii_byte_valid(LF);
    lemma_ascii_byte_valid(NUL);
    encode_utf8_valid_utf8(name);
    if let Some(t) = f.body {
        encode_utf8_valid_utf8(t);
    } else {
        assert(valid_utf8(Seq::<u8>::empty()));
    }
    valid_utf8_concat(body_bytes(f.body), seq![NUL]);
    valid_utf8_concat(header_block(f.headers), seq![LF]);
    valid_utf8_concat(header_block(f.headers) + seq![LF], tail);
    valid_utf8_concat(nb, seq![LF]);
    valid_utf8_concat(nb + seq![LF], rest);
}

/// Round trip: a frame whose header text holds no `\r`, `\n`, `:` or `\`
/// decodes from its encoding to itself, unless its body is present and
/// empty, which reads back as no body.
pub proof fn lemma_round_trip(f: FrameView)
    requires
        plain_headers(f.headers),
        f.body != Some(Seq::<char>::empty()),
    ensures
        decoded(encoded(f)) == Ok::<FrameView, crate::frame::DecodeFailure>(f),
{
    broadcast use encode_utf8_decode_utf8;

    lemma_decode_encoded(f);
    let tail = body_bytes(f.body) + seq![NUL];
    assert(tail.drop_last() =~= body_bytes(f.body));
    if let Some(t) = f.body {
        if t.len() == 0 {
            assert(t =~= Seq::<char>::empty());
        }
        assert(encode_utf8(t).len() > 0);
    }
}

/// Header order is kept: encoding writes the headers in the order given, and
/// decoding reads them back in that order, whatever the body.
pub proof fn lemma_header_order_kept(f: FrameView)
    requires
        plain_headers(f.headers),
    ensures
        decoded(encoded(f)) matches Ok(g) && g.headers == f.headers,
{
    lemma_decode_encoded(f);
}

} // verus!
