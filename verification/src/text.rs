//! UTF-8 byte views of strings, and the slicing and appending operations
//! that the rest of the library builds on.
use vstd::prelude::*;
use vstd::utf8::{
    encode_utf8, is_char_boundary, valid_utf8, pop_first_scalar, length_of_first_scalar,
};

verus! {

/// The UTF-8 encoding of a character sequence: the bytes that a `str` or a
/// `String` with these characters holds.
pub open spec fn utf8(s: Seq<char>) -> Seq<u8> {
    encode_utf8(s)
}

/// `b[i..j]` can be taken: `i <= j <= b.len()` and both ends fall on
/// character boundaries.
pub open spec fn slice_ok(b: Seq<u8>, i: int, j: int) -> bool {
    &&& 0 <= i <= j <= b.len()
    &&& is_char_boundary(b, i)
    &&& is_char_boundary(b, j)
}

/// The encoding of a concatenation is the concatenation of the encodings.
pub proof fn lemma_utf8_concat(a: Seq<char>, b: Seq<char>)
    ensures
        utf8(a + b) == utf8(a) + utf8(b),
    decreases a.len(),
{
    if a.len() == 0 {
        assert(a + b =~= b);
        assert(utf8(a) =~= Seq::<u8>::empty());
        assert(utf8(a) + utf8(b) =~= utf8(b));
    } else {
        assert((a + b).drop_first() =~= a.drop_first() + b);
        assert((a + b)[0] == a[0]);
        lemma_utf8_concat(a.drop_first(), b);
        assert(utf8(a + b) =~= utf8(a) + utf8(b));
    }
}

/// Every encoding is valid UTF-8, and its two ends are character boundaries.
pub proof fn lemma_utf8_valid(s: Seq<char>)
    ensures
        valid_utf8(utf8(s)),
        is_char_boundary(utf8(s), 0),
        is_char_boundary(utf8(s), utf8(s).len() as int),
{
    vstd::utf8::encode_utf8_valid_utf8(s);
    vstd::utf8::is_char_boundary_start_end_of_seq(utf8(s));
}

/// In a valid sequence, a boundary `i` stays a boundary of the prefix that
/// ends at a later boundary `n`.
pub proof fn lemma_boundary_in_prefix(b: Seq<u8>, i: int, n: int)
    requires
        valid_utf8(b),
        0 <= i <= n <= b.len(),
        is_char_boundary(b, i),
        is_char_boundary(b, n),
    ensures
        valid_utf8(b.subrange(0, n)),
        is_char_boundary(b.subrange(0, n), i),
{
    let p = b.subrange(0, n);
    vstd::utf8::valid_utf8_split(b, n);
    if i == n {
        vstd::utf8::is_char_boundary_start_end_of_seq(p);
    } else if i > 0 {
        vstd::utf8::is_char_boundary_iff_not_is_continuation_byte(b, i);
        vstd::utf8::is_char_boundary_iff_not_is_continuation_byte(p, i);
        assert(p[i] == b[i]);
    } else {
        vstd::utf8::is_char_boundary_start_end_of_seq(p);
    }
}

/// A slice of valid UTF-8 between two boundaries is valid UTF-8.
pub proof fn lemma_slice_valid(b: Seq<u8>, i: int, j: int)
    requires
        valid_utf8(b),
        slice_ok(b, i, j),
    ensures
        valid_utf8(b.subrange(i, j)),
{
    lemma_boundary_in_prefix(b, i, j);
    let p = b.subrange(0, j);
    vstd::utf8::valid_utf8_split(p, i);
    assert(p.subrange(i, p.len() as int) =~= b.subrange(i, j));
}

/// Where two valid sequences meet, there is a character boundary; and a
/// boundary of either part is one of the whole.
pub proof fn lemma_concat_boundary(a: Seq<u8>, c: Seq<u8>)
    requires
        valid_utf8(a),
        valid_utf8(c),
    ensures
        valid_utf8(a + c),
        is_char_boundary(a + c, a.len() as int),
        forall|i: int| #[trigger] is_char_boundary(a, i) ==> is_char_boundary(a + c, i),
        forall|i: int|
            #[trigger] is_char_boundary(c, i) ==> is_char_boundary(a + c, a.len() + i),
{
    vstd::utf8::valid_utf8_concat(a, c);
    assert forall|i: int| #[trigger] is_char_boundary(a, i) implies is_char_boundary(a + c, i) by {
        lemma_boundary_left(a, c, i);
    }
    assert forall|i: int| #[trigger] is_char_boundary(c, i) implies is_char_boundary(
        a + c,
        a.len() + i,
    ) by {
        lemma_boundary_right(a, c, i);
    }
    vstd::utf8::is_char_boundary_start_end_of_seq(c);
    lemma_boundary_right(a, c, 0);
}

proof fn lemma_boundary_left(a: Seq<u8>, c: Seq<u8>, i: int)
    requires
        valid_utf8(a),
        valid_utf8(c),
        is_char_boundary(a, i),
    ensures
        is_char_boundary(a + c, i),
    decreases a.len(),
{
    vstd::utf8::valid_utf8_concat(a, c);
    if i == 0 {
    } else if a.len() == 0 {
    } else {
        let n = length_of_first_scalar(a);
        assert(1 <= n <= a.len());
        assert(pop_first_scalar(a + c) =~= pop_first_scalar(a) + c);
        assert(length_of_first_scalar(a + c) == n);
        lemma_boundary_left(pop_first_scalar(a), c, i - n);
    }
}

proof fn lemma_boundary_right(a: Seq<u8>, c: Seq<u8>, i: int)
    requires
        valid_utf8(a),
        valid_utf8(c),
        is_char_boundary(c, i),
    ensures
        is_char_boundary(a + c, a.len() + i),
    decreases a.len(),
{
    vstd::utf8::valid_utf8_concat(a, c);
    if a.len() == 0 {
        assert(a + c =~= c);
    } else {
        let n = length_of_first_scalar(a);
        assert(1 <= n <= a.len());
        assert(pop_first_scalar(a + c) =~= pop_first_scalar(a) + c);
        lemma_boundary_right(pop_first_scalar(a), c, i);
    }
}

/// `text[start..end]`.
pub fn slice_of<'a>(text: &'a str, start: usize, end: usize) -> (res: &'a str)
    requires
        slice_ok(utf8(text@), start as int, end as int),
    ensures
        utf8(res@) == utf8(text@).subrange(start as int, end as int),
{
    proof {
        lemma_utf8_valid(text@);
        lemma_boundary_in_prefix(utf8(text@), start as int, end as int);
    }
    let (head, _) = text.split_at(end);
    let (_, mid) = head.split_at(start);
    mid
}

/// `s.push_str(t)`.
pub fn push_str(s: &mut String, t: &str)
    ensures
        final(s)@ == old(s)@ + t@,
        utf8(final(s)@) == utf8(old(s)@) + utf8(t@),
{
    s.append(t);
    proof {
        lemma_utf8_concat(old(s)@, t@);
    }
}

/// The length of `s` in bytes.
pub fn byte_len(s: &str) -> (n: usize)
    requires
        utf8(s@).len() <= usize::MAX,
    ensures
        n == utf8(s@).len(),
{
    s.len()
}

/// Whether `s` holds a line feed or a carriage return.
pub fn has_line_break(s: &str) -> (res: bool)
    ensures
        res == (s@.contains('\n') || s@.contains('\r')),
{
    let mut found = false;
    for c in it: s.chars()
        invariant
            found == (exists|j: int|
                0 <= j < it.index() && (it.seq()[j] == '\n' || it.seq()[j] == '\r')),
    {
        if c == '\n' || c == '\r' {
            found = true;
        }
    }
    found
}

} // verus!
