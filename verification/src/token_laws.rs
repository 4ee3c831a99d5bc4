//! What tokenizing, serializing and snapping promise together.
use vstd::prelude::*;
use vstd::utf8::{valid_utf8, is_char_boundary};
use crate::text::{utf8, slice_ok, lemma_concat_boundary, lemma_slice_valid, lemma_utf8_valid};
use crate::tokens::{
    SpecView, TokenView, tokenize_prefix, tokenized, labels_len, lemma_labels_len_nonneg, accepts,
    in_range, serialized, straddles, snapped, expanded,
};

verus! {

/// Tokens are non-empty, disjoint, and in increasing order.
pub open spec fn tokens_ordered(toks: Seq<TokenView>) -> bool {
    &&& forall|i: int| 0 <= i < toks.len() ==> #[trigger] toks[i].range.start < toks[i].range.end
    &&& forall|i: int, j: int|
        0 <= i < j < toks.len() ==> #[trigger] toks[i].range.end <= #[trigger] toks[j].range.start
}

proof fn lemma_utf8_nonempty(s: Seq<char>)
    requires
        s.len() > 0,
    ensures
        utf8(s).len() > 0,
{
    assert(utf8(s) == vstd::utf8::encode_scalar(s[0] as u32) + utf8(s.drop_first()));
}

/// What holds of the state after any prefix of the specs.
proof fn lemma_prefix_facts(text: Seq<u8>, specs: Seq<SpecView>)
    requires
        valid_utf8(text),
        text.len() + labels_len(specs) <= usize::MAX,
    ensures
        ({
            let st = tokenize_prefix(text, specs);
            &&& valid_utf8(st.display)
            &&& 0 <= st.offset <= text.len()
            &&& is_char_boundary(text, st.offset)
            &&& st.display.len() <= st.offset + labels_len(specs)
            &&& tokens_ordered(st.tokens)
            &&& forall|i: int|
                0 <= i < st.tokens.len() ==> {
                    &&& #[trigger] st.tokens[i].range.end <= st.display.len()
                    &&& is_char_boundary(st.display, st.tokens[i].range.start as int)
                    &&& is_char_boundary(st.display, st.tokens[i].range.end as int)
                }
        }),
    decreases specs.len(),
{
    lemma_labels_len_nonneg(specs);
    if specs.len() == 0 {
        lemma_utf8_valid(Seq::<char>::empty());
        assert(utf8(Seq::<char>::empty()) =~= Seq::<u8>::empty());
        vstd::utf8::is_char_boundary_start_end_of_seq(text);
    } else {
        let prev = tokenize_prefix(text, specs.drop_last());
        let s = specs.last();
        lemma_labels_len_nonneg(specs.drop_last());
        lemma_prefix_facts(text, specs.drop_last());
        if accepts(text, prev.offset, s) {
            let st = tokenize_prefix(text, specs);
            let gap = text.subrange(prev.offset, s.range.start as int);
            let label = utf8(s.label);
            lemma_slice_valid(text, prev.offset, s.range.start as int);
            lemma_utf8_valid(s.label);
            lemma_utf8_nonempty(s.label);
            lemma_concat_boundary(prev.display, gap);
            lemma_concat_boundary(prev.display + gap, label);
            assert(st.display == prev.display + gap + label);
            let n = prev.tokens.len();
            assert forall|i: int| 0 <= i < st.tokens.len() implies {
                &&& #[trigger] st.tokens[i].range.end <= st.display.len()
                &&& is_char_boundary(st.display, st.tokens[i].range.start as int)
                &&& is_char_boundary(st.display, st.tokens[i].range.end as int)
            } by {
                if i < n {
                    assert(st.tokens[i] == prev.tokens[i]);
                    assert(is_char_boundary(prev.display + gap, prev.tokens[i].range.start as int));
                    assert(is_char_boundary(prev.display + gap, prev.tokens[i].range.end as int));
                } else {
                    vstd::utf8::is_char_boundary_start_end_of_seq(st.display);
                }
            }
            assert forall|i: int, j: int| 0 <= i < j < st.tokens.len() implies #[trigger] st.tokens[i].range.end
                <= #[trigger] st.tokens[j].range.start by {
                if j < n {
                    assert(st.tokens[i] == prev.tokens[i]);
                    assert(st.tokens[j] == prev.tokens[j]);
                } else {
                    assert(st.tokens[i] == prev.tokens[i]);
                }
            }
            assert forall|i: int| 0 <= i < st.tokens.len() implies #[trigger] st.tokens[i].range.start
                < st.tokens[i].range.end by {
                if i < n {
                    assert(st.tokens[i] == prev.tokens[i]);
                }
            }
        }
    }
}

/// Serializing with one more token at the end: the tokens before it are
/// serialized up to its start, then comes its source, then the text after it.
proof fn lemma_serialized_push(
    b: Seq<u8>,
    toks: Seq<TokenView>,
    t: TokenView,
    lo: int,
    hi: int,
    off: int,
)
    requires
        in_range(t, lo, hi),
        forall|i: int|
            0 <= i < toks.len() ==> in_range(#[trigger] toks[i], lo, hi) == in_range(
                toks[i],
                lo,
                t.range.start as int,
            ),
    ensures
        serialized(b, toks.push(t), lo, hi, off) == match serialized(
            b,
            toks,
            lo,
            t.range.start as int,
            off,
        ) {
            Some(r) => if slice_ok(b, t.range.end as int, hi) {
                Some(r + t.source + b.subrange(t.range.end as int, hi))
            } else {
                None
            },
            None => None,
        },
    decreases toks.len(),
{
    let pushed = toks.push(t);
    if toks.len() == 0 {
        assert(pushed.drop_first() =~= Seq::<TokenView>::empty());
        assert(pushed[0] == t);
        assert(serialized(b, toks, lo, t.range.start as int, off) == if slice_ok(b, off, t.range.start as int) {
            Some(b.subrange(off, t.range.start as int))
        } else {
            None::<Seq<u8>>
        });
        assert(serialized(b, pushed.drop_first(), lo, hi, t.range.end as int) == if slice_ok(b, t.range.end as int, hi) {
            Some(b.subrange(t.range.end as int, hi))
        } else {
            None::<Seq<u8>>
        });
    } else {
        assert(pushed[0] == toks[0]);
        assert(pushed.drop_first() =~= toks.drop_first().push(t));
        assert forall|i: int| 0 <= i < toks.drop_first().len() implies in_range(
            #[trigger] toks.drop_first()[i],
            lo,
            hi,
        ) == in_range(toks.drop_first()[i], lo, t.range.start as int) by {
            assert(toks.drop_first()[i] == toks[i + 1]);
        }
        let u = toks[0];
        assert(in_range(u, lo, hi) == in_range(u, lo, t.range.start as int));
        if in_range(u, lo, hi) {
            lemma_serialized_push(b, toks.drop_first(), t, lo, hi, u.range.end as int);
            if slice_ok(b, off, u.range.start as int) {
                let g = b.subrange(off, u.range.start as int);
                match serialized(b, toks.drop_first(), lo, t.range.start as int, u.range.end as int) {
                    Some(r) => {
                        assert(serialized(b, toks, lo, t.range.start as int, off) == Some(g + u.source + r));
                        if slice_ok(b, t.range.end as int, hi) {
                            assert(g + u.source + (r + t.source + b.subrange(t.range.end as int, hi))
                                =~= (g + u.source + r) + t.source + b.subrange(t.range.end as int, hi));
                        }
                    },
                    None => {
                        assert(serialized(b, toks, lo, t.range.start as int, off) is None);
                    },
                }
            } else {
                assert(serialized(b, toks, lo, t.range.start as int, off) is None);
                assert(serialized(b, pushed, lo, hi, off) is None);
            }
        } else {
            lemma_serialized_push(b, toks.drop_first(), t, lo, hi, off);
            assert(serialized(b, pushed, lo, hi, off) == serialized(b, pushed.drop_first(), lo, hi, off));
            assert(serialized(b, toks, lo, t.range.start as int, off) == serialized(b, toks.drop_first(), lo, t.range.start as int, off));
        }
    }
}

/// Serializing the state after a prefix of the specs, followed by any valid
/// text `y`, up to a boundary `hi` within `y`, gives back the source consumed
/// so far followed by `y` up to `hi`.
proof fn lemma_serialize_prefix(text: Seq<u8>, specs: Seq<SpecView>, y: Seq<u8>, hi: int)
    requires
        valid_utf8(text),
        text.len() + labels_len(specs) <= usize::MAX,
        valid_utf8(y),
        ({
            let d = tokenize_prefix(text, specs).display;
            &&& d.len() <= hi <= d.len() + y.len()
            &&& is_char_boundary(y, hi - d.len())
        }),
    ensures
        ({
            let st = tokenize_prefix(text, specs);
            serialized(st.display + y, st.tokens, 0, hi, 0) == Some(
                text.subrange(0, st.offset) + (st.display + y).subrange(st.display.len() as int, hi),
            )
        }),
    decreases specs.len(),
{
    let st = tokenize_prefix(text, specs);
    let b = st.display + y;
    lemma_prefix_facts(text, specs);
    lemma_concat_boundary(st.display, y);
    if specs.len() == 0 {
        assert(st.tokens.len() == 0);
        vstd::utf8::is_char_boundary_start_end_of_seq(st.display);
        assert(text.subrange(0, 0) + b.subrange(0, hi) =~= b.subrange(0, hi));
    } else {
        let prev = tokenize_prefix(text, specs.drop_last());
        let s = specs.last();
        lemma_labels_len_nonneg(specs.drop_last());
        lemma_prefix_facts(text, specs.drop_last());
        if accepts(text, prev.offset, s) {
            let gap = text.subrange(prev.offset, s.range.start as int);
            let label = utf8(s.label);
            let y2 = gap + (label + y);
            lemma_slice_valid(text, prev.offset, s.range.start as int);
            lemma_utf8_valid(s.label);
            lemma_concat_boundary(label, y);
            lemma_concat_boundary(gap, label + y);
            assert(prev.display + y2 =~= b);
            let t = st.tokens.last();
            assert(st.tokens =~= prev.tokens.push(t));
            assert(t.range.start as int == (prev.display.len() + gap.len()) as int);
            assert(is_char_boundary(y2, gap.len() as int));
            lemma_serialize_prefix(text, specs.drop_last(), y2, (prev.display.len() + gap.len()) as int);
            assert forall|i: int| 0 <= i < prev.tokens.len() implies in_range(
                #[trigger] prev.tokens[i],
                0,
                hi,
            ) == in_range(prev.tokens[i], 0, t.range.start as int) by {
                assert(prev.tokens[i].range.end <= prev.display.len());
            }
            lemma_serialized_push(b, prev.tokens, t, 0, hi, 0);
            assert(is_char_boundary(b, st.display.len() as int));
            assert(is_char_boundary(b, hi)) by {
                assert(hi == st.display.len() + (hi - st.display.len()));
            }
            assert((prev.display + y2).subrange(prev.display.len() as int, (prev.display.len() + gap.len()) as int) =~= gap);
            assert(text.subrange(0, prev.offset) + gap + t.source =~= text.subrange(0, st.offset));
            assert(text.subrange(0, prev.offset) + gap + t.source + b.subrange(t.range.end as int, hi)
                =~= text.subrange(0, st.offset) + b.subrange(st.display.len() as int, hi));
        } else {
            lemma_serialize_prefix(text, specs.drop_last(), y, hi);
        }
    }
}

/// Tokenizing loses nothing: serializing the whole display text gives back
/// the text it came from.
pub proof fn law_serialize_tokenized(text: Seq<char>, specs: Seq<SpecView>)
    requires
        utf8(text).len() + labels_len(specs) <= usize::MAX,
    ensures
        ({
            let (display, toks) = tokenized(utf8(text), specs);
            &&& display.len() <= usize::MAX
            &&& serialized(display, toks, 0, display.len() as int, 0) == Some(utf8(text))
        }),
{
    let tb = utf8(text);
    lemma_utf8_valid(text);
    let st = tokenize_prefix(tb, specs);
    lemma_prefix_facts(tb, specs);
    let y = tb.subrange(st.offset, tb.len() as int);
    lemma_slice_valid(tb, st.offset, tb.len() as int);
    vstd::utf8::is_char_boundary_start_end_of_seq(y);
    lemma_serialize_prefix(tb, specs, y, (st.display.len() + y.len()) as int);
    assert((st.display + y).subrange(st.display.len() as int, (st.display.len() + y.len()) as int) =~= y);
    assert(tb.subrange(0, st.offset) + y =~= tb);
}

proof fn lemma_serialized_none_in_range(b: Seq<u8>, toks: Seq<TokenView>, lo: int, hi: int, off: int)
    requires
        forall|i: int| 0 <= i < toks.len() ==> !in_range(#[trigger] toks[i], lo, hi),
    ensures
        serialized(b, toks, lo, hi, off) == if slice_ok(b, off, hi) {
            Some(b.subrange(off, hi))
        } else {
            None::<Seq<u8>>
        },
    decreases toks.len(),
{
    if toks.len() > 0 {
        assert(!in_range(toks[0], lo, hi));
        assert forall|i: int| 0 <= i < toks.drop_first().len() implies !in_range(
            #[trigger] toks.drop_first()[i],
            lo,
            hi,
        ) by {
            assert(toks.drop_first()[i] == toks[i + 1]);
        }
        lemma_serialized_none_in_range(b, toks.drop_first(), lo, hi, off);
    }
}

proof fn lemma_serialized_single(
    b: Seq<u8>,
    toks: Seq<TokenView>,
    k: int,
    lo: int,
    hi: int,
    off: int,
)
    requires
        0 <= k < toks.len(),
        in_range(toks[k], lo, hi),
        forall|j: int| 0 <= j < toks.len() && j != k ==> !in_range(#[trigger] toks[j], lo, hi),
        slice_ok(b, off, toks[k].range.start as int),
        slice_ok(b, toks[k].range.end as int, hi),
    ensures
        serialized(b, toks, lo, hi, off) == Some(
            b.subrange(off, toks[k].range.start as int) + toks[k].source + b.subrange(
                toks[k].range.end as int,
                hi,
            ),
        ),
    decreases toks.len(),
{
    let rest = toks.drop_first();
    if k == 0 {
        assert forall|i: int| 0 <= i < rest.len() implies !in_range(#[trigger] rest[i], lo, hi) by {
            assert(rest[i] == toks[i + 1]);
        }
        lemma_serialized_none_in_range(b, rest, lo, hi, toks[0].range.end as int);
    } else {
        assert(!in_range(toks[0], lo, hi));
        assert(rest[k - 1] == toks[k]);
        assert forall|j: int| 0 <= j < rest.len() && j != k - 1 implies !in_range(
            #[trigger] rest[j],
            lo,
            hi,
        ) by {
            assert(rest[j] == toks[j + 1]);
        }
        lemma_serialized_single(b, rest, k - 1, lo, hi, off);
    }
}

/// Serializing exactly the display range of a token gives back its source.
pub proof fn law_serialize_token(text: Seq<char>, specs: Seq<SpecView>, k: int)
    requires
        utf8(text).len() + labels_len(specs) <= usize::MAX,
        0 <= k < tokenized(utf8(text), specs).1.len(),
    ensures
        ({
            let (display, toks) = tokenized(utf8(text), specs);
            let t = toks[k];
            serialized(display, toks, t.range.start as int, t.range.end as int, t.range.start as int)
                == Some(t.source)
        }),
{
    let tb = utf8(text);
    lemma_utf8_valid(text);
    let st = tokenize_prefix(tb, specs);
    lemma_prefix_facts(tb, specs);
    let y = tb.subrange(st.offset, tb.len() as int);
    lemma_slice_valid(tb, st.offset, tb.len() as int);
    lemma_concat_boundary(st.display, y);
    let d = st.display + y;
    let toks = st.tokens;
    let t = toks[k];
    let lo = t.range.start as int;
    let hi = t.range.end as int;
    assert(toks[k].range.start < toks[k].range.end);
    assert forall|j: int| 0 <= j < toks.len() && j != k implies !in_range(#[trigger] toks[j], lo, hi) by {
        assert(toks[j].range.start < toks[j].range.end);
        if j < k {
            assert(toks[j].range.end <= toks[k].range.start);
        } else {
            assert(toks[k].range.end <= toks[j].range.start);
        }
    }
    assert(is_char_boundary(st.display, lo));
    assert(is_char_boundary(st.display, hi));
    assert(t.range.end <= st.display.len());
    lemma_serialized_single(d, toks, k, lo, hi, lo);
    assert(d.subrange(lo, lo) + t.source + d.subrange(hi, hi) =~= t.source);
}

/// The tokens that `tokenize` produces are non-empty, disjoint and in order.
pub proof fn law_tokenized_ordered(text: Seq<char>, specs: Seq<SpecView>)
    requires
        utf8(text).len() + labels_len(specs) <= usize::MAX,
    ensures
        tokens_ordered(tokenized(utf8(text), specs).1),
        tokens_disjoint(tokenized(utf8(text), specs).1),
{
    lemma_utf8_valid(text);
    lemma_prefix_facts(utf8(text), specs);
    lemma_ordered_disjoint(tokenized(utf8(text), specs).1);
}

/// No two non-empty tokens overlap (empty or reversed tokens hold no offset
/// strictly inside them, so they never matter to snapping).
pub open spec fn tokens_disjoint(toks: Seq<TokenView>) -> bool {
    forall|i: int, j: int|
        0 <= i < toks.len() && 0 <= j < toks.len() && i != j && #[trigger] toks[i].range.start
            < toks[i].range.end && #[trigger] toks[j].range.start < toks[j].range.end ==> toks[i].range.end
            <= toks[j].range.start || toks[j].range.end <= toks[i].range.start
}

/// Ordered tokens are disjoint.
pub proof fn lemma_ordered_disjoint(toks: Seq<TokenView>)
    requires
        tokens_ordered(toks),
    ensures
        tokens_disjoint(toks),
{
    assert forall|i: int, j: int|
        0 <= i < toks.len() && 0 <= j < toks.len() && i != j && #[trigger] toks[i].range.start
            < toks[i].range.end && #[trigger] toks[j].range.start < toks[j].range.end implies toks[i].range.end
        <= toks[j].range.start || toks[j].range.end <= toks[i].range.start by {
        if i < j {
            assert(toks[i].range.end <= toks[j].range.start);
        } else {
            assert(toks[j].range.end <= toks[i].range.start);
        }
    }
}

/// Snapping leaves an offset that no token straddles where it is; otherwise
/// it moves the offset to an end of a token that straddles it: the start
/// for `Some(false)`, the end for `Some(true)`.
proof fn lemma_snapped_shape(toks: Seq<TokenView>, offset: usize, forward: Option<bool>)
    ensures
        (forall|i: int| 0 <= i < toks.len() ==> !straddles(#[trigger] toks[i], offset as int))
            ==> snapped(toks, offset, forward) == offset,
        (exists|i: int| 0 <= i < toks.len() && straddles(#[trigger] toks[i], offset as int))
            ==> exists|j: int|
            0 <= j < toks.len() && straddles(#[trigger] toks[j], offset as int) && {
                let r = snapped(toks, offset, forward);
                &&& r == toks[j].range.start || r == toks[j].range.end
                &&& forward == Some(false) ==> r == toks[j].range.start
                &&& forward == Some(true) ==> r == toks[j].range.end
            },
    decreases toks.len(),
{
    if toks.len() > 0 {
        let rest = toks.drop_first();
        assert forall|i: int| 0 <= i < rest.len() implies #[trigger] rest[i] == toks[i + 1] by {}
        lemma_snapped_shape(rest, offset, forward);
        if straddles(toks[0], offset as int) {
            assert(straddles(toks[0], offset as int));
        } else {
            if forall|i: int| 0 <= i < toks.len() ==> !straddles(#[trigger] toks[i], offset as int) {
                assert forall|i: int| 0 <= i < rest.len() implies !straddles(#[trigger] rest[i], offset as int) by {
                    assert(rest[i] == toks[i + 1]);
                }
            }
            if exists|i: int| 0 <= i < toks.len() && straddles(#[trigger] toks[i], offset as int) {
                let i = choose|i: int| 0 <= i < toks.len() && straddles(#[trigger] toks[i], offset as int);
                assert(i > 0);
                assert(rest[i - 1] == toks[i]);
                let j = choose|j: int|
                    0 <= j < rest.len() && straddles(#[trigger] rest[j], offset as int) && {
                        let r = snapped(rest, offset, forward);
                        &&& r == rest[j].range.start || r == rest[j].range.end
                        &&& forward == Some(false) ==> r == rest[j].range.start
                        &&& forward == Some(true) ==> r == rest[j].range.end
                    };
                assert(rest[j] == toks[j + 1]);
            }
        }
    }
}

/// Between disjoint tokens, a snapped cursor never falls inside a token; it
/// moves only when it fell inside one, and then to an end of that token.
pub proof fn law_snap_keeps_tokens_whole(toks: Seq<TokenView>, offset: usize, forward: Option<bool>)
    requires
        tokens_disjoint(toks),
    ensures
        forall|i: int|
            0 <= i < toks.len() ==> !straddles(
                #[trigger] toks[i],
                snapped(toks, offset, forward) as int,
            ),
        (forall|i: int| 0 <= i < toks.len() ==> !straddles(#[trigger] toks[i], offset as int))
            ==> snapped(toks, offset, forward) == offset,
        forward == Some(false) ==> snapped(toks, offset, forward) <= offset,
        forward == Some(true) ==> snapped(toks, offset, forward) >= offset,
{
    lemma_snapped_shape(toks, offset, forward);
    let r = snapped(toks, offset, forward);
    if exists|i: int| 0 <= i < toks.len() && straddles(#[trigger] toks[i], offset as int) {
        let j = choose|j: int|
            0 <= j < toks.len() && straddles(#[trigger] toks[j], offset as int) && {
                &&& r == toks[j].range.start || r == toks[j].range.end
                &&& forward == Some(false) ==> r == toks[j].range.start
                &&& forward == Some(true) ==> r == toks[j].range.end
            };
        assert forall|i: int| 0 <= i < toks.len() implies !straddles(#[trigger] toks[i], r as int) by {
            if i != j && straddles(toks[i], r as int) {
                assert(toks[i].range.start < toks[i].range.end);
                assert(toks[j].range.start < toks[j].range.end);
                assert(toks[i].range.end <= toks[j].range.start || toks[j].range.end
                    <= toks[i].range.start);
            }
        }
    }
}

/// Expanding a range over disjoint tokens leaves no token split at either
/// end, a non-empty selection only grows, and a cursor stays a cursor at the
/// nearer end of the token that it fell in.
pub proof fn law_expand_keeps_tokens_whole(toks: Seq<TokenView>, r: std::ops::Range<usize>)
    requires
        tokens_disjoint(toks),
    ensures
        ({
            let e = expanded(toks, r);
            &&& forall|i: int|
                0 <= i < toks.len() ==> !straddles(#[trigger] toks[i], e.start as int) && !straddles(
                    toks[i],
                    e.end as int,
                )
            &&& r.start < r.end ==> e.start <= r.start && r.end <= e.end
            &&& r.start >= r.end ==> e.start == e.end && e.start == snapped(toks, r.start, None)
        }),
{
    law_snap_keeps_tokens_whole(toks, r.start, None);
    law_snap_keeps_tokens_whole(toks, r.start, Some(false));
    law_snap_keeps_tokens_whole(toks, r.end, Some(true));
}

/// Expanding twice is expanding once: an expanded range splits no token.
pub proof fn law_expand_idempotent(toks: Seq<TokenView>, r: std::ops::Range<usize>)
    requires
        tokens_disjoint(toks),
    ensures
        expanded(toks, expanded(toks, r)) == expanded(toks, r),
{
    let e = expanded(toks, r);
    law_expand_keeps_tokens_whole(toks, r);
    law_snap_keeps_tokens_whole(toks, e.start, None);
    law_snap_keeps_tokens_whole(toks, e.start, Some(false));
    law_snap_keeps_tokens_whole(toks, e.end, Some(true));
    if r.start < r.end {
        assert(e.start < e.end);
    }
}

/// Each token of the state after a prefix of the specs comes from one of
/// them: its display range shows that spec's label, and its source is the
/// text of that spec's range.
proof fn lemma_tokens_from_specs(text: Seq<u8>, specs: Seq<SpecView>)
    requires
        valid_utf8(text),
        text.len() + labels_len(specs) <= usize::MAX,
    ensures
        ({
            let st = tokenize_prefix(text, specs);
            forall|i: int|
                #![trigger st.tokens[i]]
                0 <= i < st.tokens.len() ==> exists|j: int|
                    0 <= j < specs.len() && {
                        let t = st.tokens[i];
                        let s = #[trigger] specs[j];
                        &&& st.display.subrange(t.range.start as int, t.range.end as int) == utf8(s.label)
                        &&& t.source == text.subrange(s.range.start as int, s.range.end as int)
                    }
        }),
    decreases specs.len(),
{
    if specs.len() > 0 {
        let d = specs.drop_last();
        let prev = tokenize_prefix(text, d);
        let st = tokenize_prefix(text, specs);
        let s = specs.last();
        lemma_labels_len_nonneg(d);
        lemma_prefix_facts(text, d);
        lemma_tokens_from_specs(text, d);
        assert forall|j: int| 0 <= j < d.len() implies #[trigger] d[j] == specs[j] by {}
        if accepts(text, prev.offset, s) {
            let gap = text.subrange(prev.offset, s.range.start as int);
            let n = prev.tokens.len();
            assert forall|i: int| #![trigger st.tokens[i]] 0 <= i < st.tokens.len() implies exists|j: int|
                0 <= j < specs.len() && {
                    let t = st.tokens[i];
                    let s = #[trigger] specs[j];
                    &&& st.display.subrange(t.range.start as int, t.range.end as int) == utf8(s.label)
                    &&& t.source == text.subrange(s.range.start as int, s.range.end as int)
                } by {
                let t = st.tokens[i];
                if i < n {
                    assert(t == prev.tokens[i]);
                    let j = choose|j: int|
                        0 <= j < d.len() && {
                            let s = #[trigger] d[j];
                            &&& prev.display.subrange(t.range.start as int, t.range.end as int) == utf8(s.label)
                            &&& t.source == text.subrange(s.range.start as int, s.range.end as int)
                        };
                    assert(t.range.end <= prev.display.len());
                    assert(st.display.subrange(t.range.start as int, t.range.end as int) =~= prev.display.subrange(
                        t.range.start as int,
                        t.range.end as int,
                    ));
                    assert(specs[j] == d[j]);
                } else {
                    assert(specs[specs.len() - 1] == s);
                    assert(st.display.subrange(t.range.start as int, t.range.end as int) =~= utf8(s.label));
                }
            }
        } else {
            assert forall|i: int| #![trigger st.tokens[i]] 0 <= i < st.tokens.len() implies exists|j: int|
                0 <= j < specs.len() && {
                    let t = st.tokens[i];
                    let s = #[trigger] specs[j];
                    &&& st.display.subrange(t.range.start as int, t.range.end as int) == utf8(s.label)
                    &&& t.source == text.subrange(s.range.start as int, s.range.end as int)
                } by {
                let t = st.tokens[i];
                let j = choose|j: int|
                    0 <= j < d.len() && {
                        let s = #[trigger] d[j];
                        &&& prev.display.subrange(t.range.start as int, t.range.end as int) == utf8(s.label)
                        &&& t.source == text.subrange(s.range.start as int, s.range.end as int)
                    };
                assert(specs[j] == d[j]);
            }
        }
    }
}

/// Each token is displayed as the label of the spec that it comes from,
/// and stands for the source text of that spec's range.
pub proof fn law_token_shows_label(text: Seq<char>, specs: Seq<SpecView>, k: int)
    requires
        utf8(text).len() + labels_len(specs) <= usize::MAX,
        0 <= k < tokenized(utf8(text), specs).1.len(),
    ensures
        exists|j: int|
            0 <= j < specs.len() && {
                let (display, toks) = tokenized(utf8(text), specs);
                let s = #[trigger] specs[j];
                &&& display.subrange(toks[k].range.start as int, toks[k].range.end as int) == utf8(s.label)
                &&& toks[k].source == utf8(text).subrange(s.range.start as int, s.range.end as int)
            },
{
    let tb = utf8(text);
    lemma_utf8_valid(text);
    let st = tokenize_prefix(tb, specs);
    lemma_prefix_facts(tb, specs);
    lemma_tokens_from_specs(tb, specs);
    let t = st.tokens[k];
    let j = choose|j: int|
        0 <= j < specs.len() && {
            let s = #[trigger] specs[j];
            &&& st.display.subrange(t.range.start as int, t.range.end as int) == utf8(s.label)
            &&& t.source == tb.subrange(s.range.start as int, s.range.end as int)
        };
    let y = tb.subrange(st.offset, tb.len() as int);
    assert(t.range.end <= st.display.len());
    assert((st.display + y).subrange(t.range.start as int, t.range.end as int) =~= st.display.subrange(
        t.range.start as int,
        t.range.end as int,
    ));
}

proof fn lemma_serialized_some(d: Seq<u8>, toks: Seq<TokenView>, lo: int, hi: int, off: int)
    requires
        tokens_ordered(toks),
        forall|i: int|
            0 <= i < toks.len() ==> {
                &&& is_char_boundary(d, #[trigger] toks[i].range.start as int)
                &&& is_char_boundary(d, toks[i].range.end as int)
            },
        forall|i: int|
            0 <= i < toks.len() && in_range(#[trigger] toks[i], lo, hi) ==> toks[i].range.start >= off,
        off <= hi <= d.len(),
        0 <= off,
        is_char_boundary(d, off),
        is_char_boundary(d, hi),
    ensures
        serialized(d, toks, lo, hi, off) is Some,
    decreases toks.len(),
{
    if toks.len() > 0 {
        let rest = toks.drop_first();
        assert forall|i: int| 0 <= i < rest.len() implies #[trigger] rest[i] == toks[i + 1] by {}
        assert(tokens_ordered(rest)) by {
            assert forall|i: int| 0 <= i < rest.len() implies #[trigger] rest[i].range.start
                < rest[i].range.end by {
                assert(rest[i] == toks[i + 1]);
            }
            assert forall|i: int, j: int| 0 <= i < j < rest.len() implies #[trigger] rest[i].range.end
                <= #[trigger] rest[j].range.start by {
                assert(rest[i] == toks[i + 1] && rest[j] == toks[j + 1]);
            }
        }
        let t = toks[0];
        assert(t.range.start < t.range.end);
        assert(is_char_boundary(d, t.range.start as int));
        assert(is_char_boundary(d, t.range.end as int));
        if in_range(t, lo, hi) {
            assert forall|i: int| 0 <= i < rest.len() && in_range(#[trigger] rest[i], lo, hi) implies rest[i].range.start
                >= t.range.end by {
                assert(rest[i] == toks[i + 1]);
                assert(toks[0].range.end <= toks[i + 1].range.start);
            }
            lemma_serialized_some(d, rest, lo, hi, t.range.end as int);
        } else {
            assert forall|i: int| 0 <= i < rest.len() && in_range(#[trigger] rest[i], lo, hi) implies rest[i].range.start
                >= off by {
                assert(rest[i] == toks[i + 1]);
            }
            lemma_serialized_some(d, rest, lo, hi, off);
        }
    }
}

/// Serializing any range of the display text between two character
/// boundaries is defined: it never cuts the text out of order or off a
/// boundary.
pub proof fn law_serialize_defined(text: Seq<char>, specs: Seq<SpecView>, a: int, b: int)
    requires
        utf8(text).len() + labels_len(specs) <= usize::MAX,
        0 <= a <= b <= tokenized(utf8(text), specs).0.len(),
        is_char_boundary(tokenized(utf8(text), specs).0, a),
        is_char_boundary(tokenized(utf8(text), specs).0, b),
    ensures
        ({
            let (display, toks) = tokenized(utf8(text), specs);
            serialized(display, toks, a, b, a) is Some
        }),
{
    let tb = utf8(text);
    lemma_utf8_valid(text);
    let st = tokenize_prefix(tb, specs);
    lemma_prefix_facts(tb, specs);
    let y = tb.subrange(st.offset, tb.len() as int);
    lemma_slice_valid(tb, st.offset, tb.len() as int);
    lemma_concat_boundary(st.display, y);
    let d = st.display + y;
    let toks = st.tokens;
    assert forall|i: int| 0 <= i < toks.len() implies {
        &&& is_char_boundary(d, #[trigger] toks[i].range.start as int)
        &&& is_char_boundary(d, toks[i].range.end as int)
    } by {
        assert(is_char_boundary(st.display, toks[i].range.start as int));
        assert(is_char_boundary(st.display, toks[i].range.end as int));
    }
    lemma_serialized_some(d, toks, a, b, a);
}

/// Serializing gives the same where the same tokens fall within range.
proof fn lemma_serialized_same_filter(
    d: Seq<u8>,
    toks: Seq<TokenView>,
    lo1: int,
    lo2: int,
    hi: int,
    off: int,
)
    requires
        forall|i: int|
            0 <= i < toks.len() ==> in_range(#[trigger] toks[i], lo1, hi) == in_range(toks[i], lo2, hi),
    ensures
        serialized(d, toks, lo1, hi, off) == serialized(d, toks, lo2, hi, off),
    decreases toks.len(),
{
    if toks.len() > 0 {
        let rest = toks.drop_first();
        assert forall|i: int| 0 <= i < rest.len() implies in_range(#[trigger] rest[i], lo1, hi)
            == in_range(rest[i], lo2, hi) by {
            assert(rest[i] == toks[i + 1]);
        }
        assert(in_range(toks[0], lo1, hi) == in_range(toks[0], lo2, hi));
        lemma_serialized_same_filter(d, rest, lo1, lo2, hi, toks[0].range.end as int);
        lemma_serialized_same_filter(d, rest, lo1, lo2, hi, off);
    }
}

/// Serializing up to `hi` from `off` splits at a boundary `x` that no token
/// straddles: first up to `x`, then from `x`.
proof fn lemma_serialized_split(
    d: Seq<u8>,
    toks: Seq<TokenView>,
    lo: int,
    x: int,
    hi: int,
    off: int,
)
    requires
        tokens_ordered(toks),
        forall|i: int|
            0 <= i < toks.len() ==> {
                &&& is_char_boundary(d, #[trigger] toks[i].range.start as int)
                &&& is_char_boundary(d, toks[i].range.end as int)
            },
        forall|i: int| 0 <= i < toks.len() ==> !straddles(#[trigger] toks[i], x),
        forall|i: int|
            0 <= i < toks.len() && in_range(#[trigger] toks[i], lo, hi) ==> toks[i].range.start >= off,
        0 <= lo <= x <= hi <= d.len(),
        0 <= off <= x,
        is_char_boundary(d, off),
        is_char_boundary(d, x),
        is_char_boundary(d, hi),
    ensures
        serialized(d, toks, lo, hi, off) is Some,
        serialized(d, toks, lo, x, off) is Some,
        serialized(d, toks, x, hi, x) is Some,
        serialized(d, toks, lo, hi, off)->0 == serialized(d, toks, lo, x, off)->0 + serialized(
            d,
            toks,
            x,
            hi,
            x,
        )->0,
    decreases toks.len(),
{
    lemma_serialized_some(d, toks, lo, hi, off);
    assert forall|i: int| 0 <= i < toks.len() && in_range(#[trigger] toks[i], lo, x) implies toks[i].range.start
        >= off by {
        assert(in_range(toks[i], lo, hi));
    }
    lemma_serialized_some(d, toks, lo, x, off);
    assert forall|i: int| 0 <= i < toks.len() && in_range(#[trigger] toks[i], x, hi) implies toks[i].range.start
        >= x by {}
    lemma_serialized_some(d, toks, x, hi, x);
    if toks.len() == 0 {
        assert(d.subrange(off, hi) =~= d.subrange(off, x) + d.subrange(x, hi));
    } else {
        let rest = toks.drop_first();
        let t = toks[0];
        assert forall|i: int| 0 <= i < rest.len() implies #[trigger] rest[i] == toks[i + 1] by {}
        assert(tokens_ordered(rest)) by {
            assert forall|i: int| 0 <= i < rest.len() implies #[trigger] rest[i].range.start
                < rest[i].range.end by {
                assert(rest[i] == toks[i + 1]);
            }
            assert forall|i: int, j: int| 0 <= i < j < rest.len() implies #[trigger] rest[i].range.end
                <= #[trigger] rest[j].range.start by {
                assert(rest[i] == toks[i + 1] && rest[j] == toks[j + 1]);
            }
        }
        assert(t.range.start < t.range.end);
        assert(!straddles(t, x));
        if in_range(t, lo, hi) && t.range.end <= x {
            assert forall|i: int| 0 <= i < rest.len() && in_range(#[trigger] rest[i], lo, hi) implies rest[i].range.start
                >= t.range.end by {
                assert(rest[i] == toks[i + 1]);
                assert(toks[0].range.end <= toks[i + 1].range.start);
            }
            lemma_serialized_split(d, rest, lo, x, hi, t.range.end as int);
            assert(!in_range(t, x, hi));
            let g = d.subrange(off, t.range.start as int);
            let r1 = serialized(d, rest, lo, x, t.range.end as int)->0;
            let r2 = serialized(d, rest, x, hi, x)->0;
            assert(g + t.source + r1 + r2 =~= g + t.source + (r1 + r2));
        } else if in_range(t, lo, hi) {
            // The token lies after `x`: so do all that follow it.
            assert(t.range.start >= x);
            assert(!in_range(t, lo, x));
            assert forall|i: int| 0 <= i < rest.len() implies !in_range(#[trigger] rest[i], lo, x)
                && rest[i].range.start >= x by {
                assert(rest[i] == toks[i + 1]);
                assert(toks[0].range.end <= toks[i + 1].range.start);
            }
            lemma_serialized_none_in_range(d, rest, lo, x, off);
            assert forall|i: int| 0 <= i < rest.len() implies in_range(#[trigger] rest[i], lo, hi)
                == in_range(rest[i], x, hi) by {}
            lemma_serialized_same_filter(d, rest, lo, x, hi, t.range.end as int);
            assert(is_char_boundary(d, t.range.start as int));
            let tail = serialized(d, rest, x, hi, t.range.end as int)->0;
            assert(d.subrange(off, t.range.start as int) + t.source + tail =~= d.subrange(off, x) + (
            d.subrange(x, t.range.start as int) + t.source + tail));
        } else {
            assert(!in_range(t, lo, x));
            assert(!in_range(t, x, hi));
            assert forall|i: int| 0 <= i < rest.len() && in_range(#[trigger] rest[i], lo, hi) implies rest[i].range.start
                >= off by {
                assert(rest[i] == toks[i + 1]);
            }
            lemma_serialized_split(d, rest, lo, x, hi, off);
        }
    }
}

/// Where display offset `x` falls in the source: the length of the source
/// of the display text before it.
pub open spec fn source_offset_of(display: Seq<u8>, toks: Seq<TokenView>, x: int) -> int {
    serialized(display, toks, 0, x, 0)->0.len() as int
}

/// Serializing a range whose ends split no token gives the text between the
/// source offsets of its ends: copying a selection that `expand` produced
/// copies exactly the source that it shows.
pub proof fn law_serialize_subrange(text: Seq<char>, specs: Seq<SpecView>, a: int, b: int)
    requires
        utf8(text).len() + labels_len(specs) <= usize::MAX,
        ({
            let (display, toks) = tokenized(utf8(text), specs);
            &&& 0 <= a <= b <= display.len()
            &&& is_char_boundary(display, a)
            &&& is_char_boundary(display, b)
            &&& forall|i: int|
                0 <= i < toks.len() ==> !straddles(#[trigger] toks[i], a) && !straddles(toks[i], b)
        }),
    ensures
        ({
            let (display, toks) = tokenized(utf8(text), specs);
            &&& 0 <= source_offset_of(display, toks, a) <= source_offset_of(display, toks, b)
                <= utf8(text).len()
            &&& serialized(display, toks, a, b, a) == Some(
                utf8(text).subrange(
                    source_offset_of(display, toks, a),
                    source_offset_of(display, toks, b),
                ),
            )
        }),
{
    let tb = utf8(text);
    lemma_utf8_valid(text);
    let st = tokenize_prefix(tb, specs);
    lemma_prefix_facts(tb, specs);
    let y = tb.subrange(st.offset, tb.len() as int);
    lemma_slice_valid(tb, st.offset, tb.len() as int);
    lemma_concat_boundary(st.display, y);
    vstd::utf8::is_char_boundary_start_end_of_seq(st.display + y);
    let d = st.display + y;
    let toks = st.tokens;
    assert forall|i: int| 0 <= i < toks.len() implies {
        &&& is_char_boundary(d, #[trigger] toks[i].range.start as int)
        &&& is_char_boundary(d, toks[i].range.end as int)
    } by {
        assert(is_char_boundary(st.display, toks[i].range.start as int));
        assert(is_char_boundary(st.display, toks[i].range.end as int));
    }
    law_serialize_tokenized(text, specs);
    let n = d.len() as int;
    // Split the whole at b, then the part before b at a.
    lemma_serialized_split(d, toks, 0, b, n, 0);
    assert forall|i: int| 0 <= i < toks.len() && in_range(#[trigger] toks[i], 0, b) implies toks[i].range.start
        >= 0 by {}
    lemma_serialized_split(d, toks, 0, a, b, 0);
    lemma_serialized_same_filter(d, toks, 0, 0, b, 0);
    let before_a = serialized(d, toks, 0, a, 0)->0;
    let a_to_b = serialized(d, toks, a, b, a)->0;
    let after_b = serialized(d, toks, b, n, b)->0;
    assert(tb == (before_a + a_to_b) + after_b);
    assert(tb.subrange(before_a.len() as int, (before_a.len() + a_to_b.len()) as int) =~= a_to_b);
}

/// Serializing splits at any point inside no token: over ordered tokens
/// whose ends are character boundaries of the text, serializing `a..c` is
/// serializing `a..b` followed by `b..c`, and all three are defined.
pub proof fn law_serialize_splits(d: Seq<u8>, toks: Seq<TokenView>, a: int, b: int, c: int)
    requires
        valid_utf8(d),
        tokens_ordered(toks),
        forall|i: int|
            0 <= i < toks.len() ==> {
                &&& is_char_boundary(d, #[trigger] toks[i].range.start as int)
                &&& is_char_boundary(d, toks[i].range.end as int)
            },
        forall|i: int| 0 <= i < toks.len() ==> !straddles(#[trigger] toks[i], b),
        0 <= a <= b <= c <= d.len(),
        is_char_boundary(d, a),
        is_char_boundary(d, b),
        is_char_boundary(d, c),
    ensures
        serialized(d, toks, a, c, a) is Some,
        serialized(d, toks, a, b, a) is Some,
        serialized(d, toks, b, c, b) is Some,
        serialized(d, toks, a, c, a)->0 == serialized(d, toks, a, b, a)->0 + serialized(
            d,
            toks,
            b,
            c,
            b,
        )->0,
{
    assert forall|i: int| 0 <= i < toks.len() && in_range(#[trigger] toks[i], a, c) implies toks[i].range.start
        >= a by {}
    lemma_serialized_split(d, toks, a, b, c, a);
}


/// Specs that can all become tokens: each has a non-empty range that can be
/// cut out of `text` and a non-empty label without line breaks, and each
/// ends at or before any later one starts (adjacent specs included).
pub open spec fn usable_specs(text: Seq<u8>, specs: Seq<SpecView>) -> bool {
    &&& forall|i: int|
        0 <= i < specs.len() ==> {
            &&& #[trigger] specs[i].range.start < specs[i].range.end
            &&& specs[i].label.len() > 0
            &&& !specs[i].label.contains('\n')
            &&& !specs[i].label.contains('\r')
            &&& slice_ok(text, specs[i].range.start as int, specs[i].range.end as int)
        }
    &&& forall|i: int, j: int|
        0 <= i < j < specs.len() ==> #[trigger] specs[i].range.end <= #[trigger] specs[j].range.start
}

/// After the first `k` of usable specs, there is one token per spec, each
/// standing for its spec's source and showing its label, and the text has
/// been consumed up to the end of the last of them.
proof fn lemma_usable_prefix(text: Seq<u8>, specs: Seq<SpecView>, k: int)
    requires
        valid_utf8(text),
        text.len() + labels_len(specs) <= usize::MAX,
        usable_specs(text, specs),
        0 <= k <= specs.len(),
    ensures
        tokenize_prefix(text, specs.take(k)).tokens.len() == k,
        tokenize_prefix(text, specs.take(k)).offset == if k == 0 {
            0
        } else {
            specs[k - 1].range.end as int
        },
        forall|i: int|
            #![trigger tokenize_prefix(text, specs.take(k)).tokens[i]]
            0 <= i < k ==> {
                let st = tokenize_prefix(text, specs.take(k));
                &&& st.tokens[i].source == text.subrange(
                    specs[i].range.start as int,
                    specs[i].range.end as int,
                )
                &&& st.display.subrange(
                    st.tokens[i].range.start as int,
                    st.tokens[i].range.end as int,
                ) == utf8(specs[i].label)
            },
    decreases k,
{
    if k == 0 {
        assert(specs.take(0) =~= Seq::<SpecView>::empty());
    } else {
        lemma_usable_prefix(text, specs, k - 1);
        let pre = specs.take(k);
        assert(pre.drop_last() =~= specs.take(k - 1));
        assert(pre.last() == specs[k - 1]);
        crate::tokens::lemma_labels_len_prefix(specs, k);
        crate::tokens::lemma_labels_len_prefix(specs, k - 1);
        lemma_prefix_facts(text, specs.take(k - 1));
        lemma_prefix_facts(text, pre);
        let prev = tokenize_prefix(text, specs.take(k - 1));
        let st = tokenize_prefix(text, pre);
        let s = specs[k - 1];
        if k >= 2 {
            assert(specs[k - 2].range.end <= specs[k - 1].range.start);
        }
        assert(s.range.start < s.range.end);
        assert(accepts(text, prev.offset, s));
        let gap = text.subrange(prev.offset, s.range.start as int);
        let label = utf8(s.label);
        assert(st.display == prev.display + gap + label);
        assert(st.tokens == prev.tokens.push(st.tokens[k - 1]));
        assert(st.tokens.len() == k);
        assert(st.offset == s.range.end as int);
        assert(st.tokens[k - 1].source == text.subrange(s.range.start as int, s.range.end as int));
        assert(st.tokens[k - 1].range.start == prev.display.len() + gap.len());
        assert(st.tokens[k - 1].range.end == st.display.len());
        assert forall|i: int| #![trigger st.tokens[i]] 0 <= i < k implies {
            &&& st.tokens[i].source == text.subrange(
                specs[i].range.start as int,
                specs[i].range.end as int,
            )
            &&& st.display.subrange(st.tokens[i].range.start as int, st.tokens[i].range.end as int)
                == utf8(specs[i].label)
        } by {
            if i < k - 1 {
                assert(st.tokens[i] == prev.tokens[i]);
                assert(prev.tokens[i] == tokenize_prefix(text, specs.take(k - 1)).tokens[i]);
                assert(prev.tokens[i].range.end <= prev.display.len());
                assert(st.display.subrange(
                    st.tokens[i].range.start as int,
                    st.tokens[i].range.end as int,
                ) =~= prev.display.subrange(
                    prev.tokens[i].range.start as int,
                    prev.tokens[i].range.end as int,
                ));
            } else {
                assert(st.display.subrange(
                    st.tokens[i].range.start as int,
                    st.tokens[i].range.end as int,
                ) =~= label);
            }
        }
    }
}

/// Tokenizing keeps every usable spec: when the specs are usable (in
/// particular when each ends at or before the next one starts, even exactly
/// where it starts), there is exactly one token per spec, in the order of
/// the specs; token `i` stands for the source text of spec `i`'s range and
/// is displayed as spec `i`'s label.
pub proof fn law_tokenize_keeps_usable_specs(text: Seq<char>, specs: Seq<SpecView>)
    requires
        utf8(text).len() + labels_len(specs) <= usize::MAX,
        usable_specs(utf8(text), specs),
    ensures
        ({
            let (display, toks) = tokenized(utf8(text), specs);
            &&& toks.len() == specs.len()
            &&& forall|i: int|
                0 <= i < specs.len() ==> {
                    &&& #[trigger] toks[i].source == utf8(text).subrange(
                        specs[i].range.start as int,
                        specs[i].range.end as int,
                    )
                    &&& display.subrange(toks[i].range.start as int, toks[i].range.end as int)
                        == utf8(specs[i].label)
                }
        }),
{
    let tb = utf8(text);
    lemma_utf8_valid(text);
    lemma_usable_prefix(tb, specs, specs.len() as int);
    assert(specs.take(specs.len() as int) =~= specs);
    lemma_prefix_facts(tb, specs);
    let st = tokenize_prefix(tb, specs);
    let y = tb.subrange(st.offset, tb.len() as int);
    assert forall|i: int| 0 <= i < specs.len() implies #[trigger] st.tokens[i].source == tb.subrange(
        specs[i].range.start as int,
        specs[i].range.end as int,
    ) by {
        assert(st.tokens[i] == tokenize_prefix(tb, specs.take(specs.len() as int)).tokens[i]);
    }
    assert forall|i: int| 0 <= i < specs.len() implies (st.display + y).subrange(
        #[trigger] st.tokens[i].range.start as int,
        st.tokens[i].range.end as int,
    ) == utf8(specs[i].label) by {
        assert(st.tokens[i] == tokenize_prefix(tb, specs.take(specs.len() as int)).tokens[i]);
        assert(st.tokens[i].range.end <= st.display.len());
        assert((st.display + y).subrange(
            st.tokens[i].range.start as int,
            st.tokens[i].range.end as int,
        ) =~= st.display.subrange(st.tokens[i].range.start as int, st.tokens[i].range.end as int));
    }
}

} // verus!
