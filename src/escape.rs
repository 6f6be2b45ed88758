//! Escaping of header text, so that header lines can be split on raw `:` and
//! line feeds.
use vstd::prelude::*;

verus! {

pub const CR: u8 = 0x0d;

pub const LF: u8 = 0x0a;

pub const COLON: u8 = 0x3a;

pub const BACKSLASH: u8 = 0x5c;

/// Whether a byte must be escaped inside header text.
pub open spec fn is_reserved(b: u8) -> bool {
    b == CR || b == LF || b == COLON || b == BACKSLASH
}

/// What one byte of header text becomes on the wire.
pub open spec fn escape_byte(b: u8) -> Seq<u8> {
    if b == CR {
        seq![BACKSLASH, 0x72u8]
    } else if b == LF {
        seq![BACKSLASH, 0x6eu8]
    } else if b == COLON {
        seq![BACKSLASH, 0x63u8]
    } else if b == BACKSLASH {
        seq![BACKSLASH, BACKSLASH]
    } else {
        seq![b]
    }
}

/// Header text with each reserved byte replaced by its escape sequence.
pub open spec fn escaped(s: Seq<u8>) -> Seq<u8>
    decreases s.len(),
{
    if s.len() == 0 {
        seq![]
    } else {
        escape_byte(s[0]) + escaped(s.drop_first())
    }
}

/// The byte that an escape sequence `\x` stands for, if `x` names one.
pub open spec fn unescape_byte(x: u8) -> Option<u8> {
    if x == 0x72u8 {
        Some(CR)
    } else if x == 0x6eu8 {
        Some(LF)
    } else if x == 0x63u8 {
        Some(COLON)
    } else if x == BACKSLASH {
        Some(BACKSLASH)
    } else {
        None
    }
}

/// Escaped header text read back; `None` where a backslash does not start
/// one of the four escape sequences.
pub open spec fn unescaped(s: Seq<u8>) -> Option<Seq<u8>>
    decreases s.len(),
{
    if s.len() == 0 {
        Some(seq![])
    } else if s[0] != BACKSLASH {
        match unescaped(s.drop_first()) {
            Some(rest) => Some(seq![s[0]] + rest),
            None => None,
        }
    } else if s.len() < 2 {
        None
    } else {
        match (unescape_byte(s[1]), unescaped(s.subrange(2, s.len() as int))) {
            (Some(b), Some(rest)) => Some(seq![b] + rest),
            _ => None,
        }
    }
}

/// Escaping splits over concatenation.
pub proof fn lemma_escaped_concat(a: Seq<u8>, b: Seq<u8>)
    ensures
        escaped(a + b) == escaped(a) + escaped(b),
    decreases a.len(),
{
    if a.len() == 0 {
        assert(a + b =~= b);
    } else {
        lemma_escaped_concat(a.drop_first(), b);
        assert((a + b).drop_first() =~= a.drop_first() + b);
        assert(escaped(a + b) =~= escaped(a) + escaped(b));
    }
}

/// Text without reserved bytes is its own escape.
pub proof fn lemma_escaped_plain(s: Seq<u8>)
    requires
        forall|i: int| 0 <= i < s.len() ==> !is_reserved(#[trigger] s[i]),
    ensures
        escaped(s) == s,
    decreases s.len(),
{
    if s.len() > 0 {
        lemma_escaped_plain(s.drop_first());
        assert(escaped(s) =~= s);
    }
}

/// Escaping is total and reversible: reading back escaped text gives the
/// same text, for every byte string.
pub proof fn lemma_unescape_escape(s: Seq<u8>)
    ensures
        unescaped(escaped(s)) == Some(s),
    decreases s.len(),
{
    if s.len() > 0 {
        let rest = s.drop_first();
        lemma_unescape_escape(rest);
        let e = escaped(s);
        assert(e == escape_byte(s[0]) + escaped(rest));
        if is_reserved(s[0]) {
            assert(e.subrange(2, e.len() as int) =~= escaped(rest));
        } else {
            assert(e.drop_first() =~= escaped(rest));
        }
        assert(seq![s[0]] + rest =~= s);
    }
}

/// Appends the escape of `src` to `out`.
pub fn escape_into(out: &mut Vec<u8>, src: &[u8])
    ensures
        final(out)@ == old(out)@ + escaped(src@),
{
    let ghost start = out@;
    let mut i: usize = 0;
    while i < src.len()
        invariant
            0 <= i <= src@.len(),
            out@ == start + escaped(src@.subrange(0, i as int)),
        decreases src@.len() - i,
    {
        let b = src[i];
        if b == CR {
            out.push(BACKSLASH);
            out.push(0x72u8);
        } else if b == LF {
            out.push(BACKSLASH);
            out.push(0x6eu8);
        } else if b == COLON {
            out.push(BACKSLASH);
            out.push(0x63u8);
        } else if b == BACKSLASH {
            out.push(BACKSLASH);
            out.push(BACKSLASH);
        } else {
            out.push(b);
        }
        proof {
            let head = src@.subrange(0, i as int);
            assert(src@.subrange(0, i + 1) =~= head + seq![b]);
            lemma_escaped_concat(head, seq![b]);
            assert(escaped(seq![b]) =~= escape_byte(b)) by {
                assert(seq![b].drop_first() =~= Seq::<u8>::empty());
                assert(escaped(Seq::<u8>::empty()) == Seq::<u8>::empty());
                assert(escape_byte(b) + Seq::<u8>::empty() =~= escape_byte(b));
            }
        }
        i = i + 1;
    }
    proof {
        assert(src@.subrange(0, src@.len() as int) =~= src@);
    }
}

/// The escape of header text.
pub fn escape(src: &[u8]) -> (r: Vec<u8>)
    ensures
        r@ == escaped(src@),
{
    let mut out: Vec<u8> = Vec::new();
    escape_into(&mut out, src);
    proof {
        assert(out@ =~= escaped(src@));
    }
    out
}

/// Reads escaped header text back; `None` where a backslash does not start
/// one of the four escape sequences.
pub fn unescape(src: &[u8]) -> (r: Option<Vec<u8>>)
    ensures
        match r {
            Some(v) => unescaped(src@) == Some(v@),
            None => unescaped(src@) is None,
        },
{
    let mut out: Vec<u8> = Vec::new();
    let mut i: usize = 0;
    proof {
        assert(src@.subrange(0, src@.len() as int) =~= src@);
        match unescaped(src@) {
            Some(all) => assert(out@ + all =~= all),
            None => {},
        }
    }
    while i < src.len()
        invariant
            0 <= i <= src@.len(),
            unescaped(src@) == match unescaped(src@.subrange(i as int, src@.len() as int)) {
                Some(rest) => Some(out@ + rest),
                None => None::<Seq<u8>>,
            },
        decreases src@.len() - i,
    {
        let ghost tail = src@.subrange(i as int, src@.len() as int);
        let b = src[i];
        if b != BACKSLASH {
            proof {
                assert(tail.drop_first() =~= src@.subrange(i + 1, src@.len() as int));
                match unescaped(tail.drop_first()) {
                    Some(rest) => assert(out@ + (seq![b] + rest) =~= out@.push(b) + rest),
                    None => {},
                }
            }
            out.push(b);
            i = i + 1;
        } else {
            if i + 1 >= src.len() {
                return None;
            }
            let x = src[i + 1];
            let d: u8 = if x == 0x72u8 {
                CR
            } else if x == 0x6eu8 {
                LF
            } else if x == 0x63u8 {
                COLON
            } else if x == BACKSLASH {
                BACKSLASH
            } else {
                return None;
            };
            proof {
                assert(tail.subrange(2, tail.len() as int) =~= src@.subrange(i + 2, src@.len() as int));
                match unescaped(tail.subrange(2, tail.len() as int)) {
                    Some(rest) => assert(out@ + (seq![d] + rest) =~= out@.push(d) + rest),
                    None => {},
                }
            }
            out.push(d);
            i = i + 2;
        }
    }
    proof {
        assert(src@.subrange(i as int, src@.len() as int) =~= Seq::<u8>::empty());
        assert(out@ + Seq::<u8>::empty() =~= out@);
    }
    Some(out)
}

} // verus!
