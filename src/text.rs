//! Byte-level facts about UTF-8 text shared by the codec.
use vstd::prelude::*;
use vstd::utf8::*;

verus! {

broadcast use vstd::utf8::encode_utf8_decode_utf8;

/// Whether two strings hold the same characters, compared byte by byte.
pub fn same_text(a: &str, b: &str) -> (r: bool)
    ensures
        r == (a@ == b@),
{
    let x = a.as_bytes();
    let y = b.as_bytes();
    if x.len() != y.len() {
        return false;
    }
    let mut i: usize = 0;
    while i < x.len()
        invariant
            x@ == encode_utf8(a@),
            y@ == encode_utf8(b@),
            x@.len() == y@.len(),
            0 <= i <= x@.len(),
            forall|j: int| 0 <= j < i ==> x@[j] == y@[j],
        decreases x@.len() - i,
    {
        if x[i] != y[i] {
            return false;
        }
        i = i + 1;
    }
    proof {
        assert(x@ =~= y@);
        assert(decode_utf8(encode_utf8(a@)) == a@);
        assert(decode_utf8(encode_utf8(b@)) == b@);
    }
    true
}

/// The position of the first `c` in `s`, or `s.len()` where there is none.
pub open spec fn find_byte(s: Seq<u8>, c: u8) -> nat
    decreases s.len(),
{
    if s.len() == 0 {
        0
    } else if s[0] == c {
        0
    } else {
        1 + find_byte(s.drop_first(), c)
    }
}

/// `find_byte` is the one position before which no `c` stands and at which
/// `c` stands, unless it is the end.
pub proof fn lemma_find_byte(s: Seq<u8>, c: u8, j: int)
    requires
        0 <= j <= s.len(),
        forall|i: int| 0 <= i < j ==> s[i] != c,
        j < s.len() ==> s[j] == c,
    ensures
        find_byte(s, c) == j,
    decreases s.len(),
{
    if s.len() > 0 && j > 0 {
        lemma_find_byte(s.drop_first(), c, j - 1);
    }
}

/// The first position at or after `from` and before `to` that holds `c`, or
/// `to` where there is none.
pub fn find_in(b: &[u8], from: usize, to: usize, c: u8) -> (r: usize)
    requires
        from <= to <= b@.len(),
    ensures
        r == from + find_byte(b@.subrange(from as int, to as int), c),
        from <= r <= to,
        r < to ==> b@[r as int] == c,
{
    let mut i = from;
    while i < to && b[i] != c
        invariant
            from <= i <= to <= b@.len(),
            forall|k: int| from <= k < i ==> b@[k] != c,
        decreases to - i,
    {
        i = i + 1;
    }
    proof {
        lemma_find_byte(b@.subrange(from as int, to as int), c, i - from);
    }
    i
}

/// Cutting valid UTF-8 around a single-byte character leaves valid UTF-8 on
/// both sides.
pub proof fn lemma_split_at_ascii(b: Seq<u8>, i: int)
    requires
        valid_utf8(b),
        0 <= i < b.len(),
        b[i] < 0x80,
    ensures
        valid_utf8(b.subrange(0, i)),
        valid_utf8(b.subrange(i + 1, b.len() as int)),
{
    is_char_boundary_iff_not_is_continuation_byte(b, i);
    valid_utf8_split(b, i);
    let tail = b.subrange(i, b.len() as int);
    assert(pop_first_scalar(tail) =~= b.subrange(i + 1, b.len() as int));
}

/// A stretch of valid UTF-8 bounded by single-byte characters, or by the ends,
/// is valid UTF-8.
pub proof fn lemma_piece_valid(b: Seq<u8>, from: int, to: int)
    requires
        valid_utf8(b),
        0 <= from <= to <= b.len(),
        from > 0 ==> b[from - 1] < 0x80,
        to < b.len() ==> b[to] < 0x80,
    ensures
        valid_utf8(b.subrange(from, to)),
{
    let head = if to < b.len() {
        lemma_split_at_ascii(b, to);
        b.subrange(0, to)
    } else {
        assert(b.subrange(0, to) =~= b);
        b
    };
    assert(head =~= b.subrange(0, to));
    if from > 0 {
        lemma_split_at_ascii(head, from - 1);
        assert(head.subrange(from, head.len() as int) =~= b.subrange(from, to));
    } else {
        assert(head =~= b.subrange(from, to));
    }
}

/// Relies on `std::str::from_utf8`: it accepts exactly the valid UTF-8 byte
/// strings, and the text it hands back holds those same bytes.
#[verifier::external_body]
pub(crate) fn utf8_text(b: &[u8]) -> (r: Option<&str>)
    ensures
        r is Some <==> valid_utf8(b@),
        r matches Some(s) ==> encode_utf8(s@) == b@,
{
    match std::str::from_utf8(b) {
        Ok(s) => Some(s),
        Err(_) => None,
    }
}

} // verus!
