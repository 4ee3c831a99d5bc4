//! Inline tokens: serialized source ranges that are displayed, selected and
//! edited as one unit under a short label.
use std::ops::Range;
use vstd::prelude::*;
use crate::text::{utf8, slice_ok, slice_of, push_str, byte_len, has_line_break};
use crate::token_laws::{usable_specs, law_tokenize_keeps_usable_specs};

verus! {

/// A serialized source range that should be displayed and edited as one token.
#[derive(Debug, PartialEq, Eq)]
pub struct InlineTokenSpec {
    pub range: Range<usize>,
    pub label: String,
}

/// A token of display text: the display range that its label occupies, and
/// the source text that it stands for.
#[derive(Debug, PartialEq, Eq)]
pub struct InlineToken {
    pub range: Range<usize>,
    pub source: String,
}

impl Clone for InlineTokenSpec {
    fn clone(&self) -> (res: Self)
        ensures
            res.deep_view() == self.deep_view(),
    {
        InlineTokenSpec { range: self.range.start..self.range.end, label: self.label.clone() }
    }
}

impl Clone for InlineToken {
    fn clone(&self) -> (res: Self)
        ensures
            res.deep_view() == self.deep_view(),
    {
        InlineToken { range: self.range.start..self.range.end, source: self.source.clone() }
    }
}

/// What an [`InlineTokenSpec`] holds: a source range and a label.
pub struct SpecView {
    pub range: Range<usize>,
    pub label: Seq<char>,
}

/// What an [`InlineToken`] holds: a display range and the UTF-8 bytes of
/// its source.
pub struct TokenView {
    pub range: Range<usize>,
    pub source: Seq<u8>,
}

impl DeepView for InlineTokenSpec {
    type V = SpecView;

    open spec fn deep_view(&self) -> SpecView {
        SpecView { range: self.range, label: self.label@ }
    }
}

impl DeepView for InlineToken {
    type V = TokenView;

    open spec fn deep_view(&self) -> TokenView {
        TokenView { range: self.range, source: utf8(self.source@) }
    }
}

/// A spec is turned into a token when it starts at or after `offset` (where
/// the previous token's source ended), its range is non-empty and can be cut
/// out of `text`, and its label is non-empty and holds no line break.
pub open spec fn accepts(text: Seq<u8>, offset: int, s: SpecView) -> bool {
    &&& offset <= s.range.start
    &&& s.range.start < s.range.end
    &&& s.label.len() > 0
    &&& !s.label.contains('\n')
    &&& !s.label.contains('\r')
    &&& slice_ok(text, s.range.start as int, s.range.end as int)
}

/// The state of tokenizing after a prefix of the specs: the display text
/// built so far, the tokens, and the source offset up to which `text` has
/// been consumed.
pub struct Tokenizing {
    pub display: Seq<u8>,
    pub tokens: Seq<TokenView>,
    pub offset: int,
}

/// One spec: if it is accepted, the source between the offset and the spec
/// is copied, the label is appended, and a token over the label records the
/// spec's source.
pub open spec fn tokenize_step(text: Seq<u8>, st: Tokenizing, s: SpecView) -> Tokenizing {
    if accepts(text, st.offset, s) {
        let gap = text.subrange(st.offset, s.range.start as int);
        let start = st.display.len() + gap.len();
        let display = st.display + gap + utf8(s.label);
        let token = TokenView {
            range: Range { start: start as usize, end: display.len() as usize },
            source: text.subrange(s.range.start as int, s.range.end as int),
        };
        Tokenizing { display, tokens: st.tokens.push(token), offset: s.range.end as int }
    } else {
        st
    }
}

/// The state after the specs `specs`, taken in order.
pub open spec fn tokenize_prefix(text: Seq<u8>, specs: Seq<SpecView>) -> Tokenizing
    decreases specs.len(),
{
    if specs.len() == 0 {
        Tokenizing { display: Seq::empty(), tokens: Seq::empty(), offset: 0 }
    } else {
        tokenize_step(text, tokenize_prefix(text, specs.drop_last()), specs.last())
    }
}

/// The display text (with the rest of `text` after the last token) and the
/// tokens that `tokenize` produces.
pub open spec fn tokenized(text: Seq<u8>, specs: Seq<SpecView>) -> (Seq<u8>, Seq<TokenView>) {
    let st = tokenize_prefix(text, specs);
    (st.display + text.subrange(st.offset, text.len() as int), st.tokens)
}

/// The total length in bytes of the labels of `specs`.
pub open spec fn labels_len(specs: Seq<SpecView>) -> int
    decreases specs.len(),
{
    if specs.len() == 0 {
        0
    } else {
        labels_len(specs.drop_last()) + utf8(specs.last().label).len()
    }
}

pub proof fn lemma_labels_len_prefix(specs: Seq<SpecView>, k: int)
    requires
        0 <= k <= specs.len(),
    ensures
        0 <= labels_len(specs.take(k)) <= labels_len(specs),
    decreases specs.len(),
{
    if k == specs.len() {
        assert(specs.take(k) =~= specs);
        lemma_labels_len_nonneg(specs);
    } else {
        assert(specs.drop_last().take(k) =~= specs.take(k));
        lemma_labels_len_prefix(specs.drop_last(), k);
    }
}

pub proof fn lemma_labels_len_nonneg(specs: Seq<SpecView>)
    ensures
        labels_len(specs) >= 0,
    decreases specs.len(),
{
    if specs.len() > 0 {
        lemma_labels_len_nonneg(specs.drop_last());
    }
}

/// Replaces each accepted spec's source range by its label. Specs are taken
/// in order; one that overlaps an earlier accepted one, is empty, has an
/// empty label or a label with a line break, or does not fall on character
/// boundaries of `text` is skipped.
pub fn tokenize(text: &str, specs: Vec<InlineTokenSpec>) -> (res: (String, Vec<InlineToken>))
    requires
        utf8(text@).len() + labels_len(specs.deep_view()) <= usize::MAX,
    ensures
        (utf8(res.0@), res.1.deep_view()) == tokenized(utf8(text@), specs.deep_view()),
        usable_specs(utf8(text@), specs.deep_view()) ==> {
            &&& res.1.len() == specs.len()
            &&& forall|i: int|
                0 <= i < specs.len() ==> {
                    &&& utf8(#[trigger] res.1[i].source@) == utf8(text@).subrange(
                        specs[i].range.start as int,
                        specs[i].range.end as int,
                    )
                    &&& utf8(res.0@).subrange(res.1[i].range.start as int, res.1[i].range.end as int)
                        == utf8(specs[i].label@)
                }
        },
{
    let ghost tb = utf8(text@);
    let ghost sv = specs.deep_view();
    proof {
        crate::text::lemma_utf8_valid(text@);
        lemma_labels_len_nonneg(sv);
    }
    let text_len = byte_len(text);
    let mut display = String::new();
    let mut tokens: Vec<InlineToken> = Vec::new();
    let mut offset: usize = 0;
    let mut i: usize = 0;
    proof {
        assert(sv.take(0) =~= Seq::<SpecView>::empty());
        assert(utf8(display@) =~= Seq::<u8>::empty());
        assert(tokens.deep_view() =~= Seq::<TokenView>::empty());
    }
    while i < specs.len()
        invariant
            0 <= i <= specs.len(),
            sv == specs.deep_view(),
            tb == utf8(text@),
            text_len == tb.len(),
            tb.len() + labels_len(sv) <= usize::MAX,
            vstd::utf8::valid_utf8(tb),
            offset <= tb.len(),
            vstd::utf8::is_char_boundary(tb, offset as int),
            utf8(display@).len() <= offset + labels_len(sv.take(i as int)),
            tokenize_prefix(tb, sv.take(i as int)) == (Tokenizing {
                display: utf8(display@),
                tokens: tokens.deep_view(),
                offset: offset as int,
            }),
        decreases specs.len() - i,
    {
        let spec = &specs[i];
        let start = spec.range.start;
        let end = spec.range.end;
        let label = spec.label.as_str();
        proof {
            assert(sv.take(i + 1).drop_last() =~= sv.take(i as int));
            assert(sv.take(i + 1).last() == sv[i as int]);
            lemma_labels_len_prefix(sv, i + 1);
        }
        let skipped = start < offset || start >= end || label.is_empty() || has_line_break(label)
            || !(end <= text_len && text.is_char_boundary(start) && text.is_char_boundary(end));
        if !skipped {
            let ghost old_tokens = tokens.deep_view();
            let gap = slice_of(text, offset, start);
            push_str(&mut display, gap);
            let dstart = byte_len(display.as_str());
            push_str(&mut display, label);
            let dend = byte_len(display.as_str());
            let source = slice_of(text, start, end).to_owned();
            let token = InlineToken { range: dstart..dend, source };
            tokens.push(token);
            offset = end;
            proof {
                assert(tokens.deep_view() =~= old_tokens.push(token.deep_view()));
            }
        }
        i += 1;
    }
    proof {
        assert(sv.take(specs.len() as int) =~= sv);
    }
    let rest = slice_of(text, offset, text_len);
    push_str(&mut display, rest);
    let res = (display, tokens);
    proof {
        if usable_specs(tb, sv) {
            assert(tokenized(tb, sv).0 == utf8(res.0@));
            assert(tokenized(tb, sv).1 == res.1.deep_view());
            law_tokenize_keeps_usable_specs(text@, sv);
            assert forall|i: int| 0 <= i < specs.len() implies {
                &&& utf8(#[trigger] res.1[i].source@) == utf8(text@).subrange(
                    specs[i].range.start as int,
                    specs[i].range.end as int,
                )
                &&& utf8(res.0@).subrange(res.1[i].range.start as int, res.1[i].range.end as int)
                    == utf8(specs[i].label@)
            } by {
                assert(res.1.deep_view()[i] == res.1[i].deep_view());
                assert(sv[i] == specs[i].deep_view());
                assert(tokenized(tb, sv).1[i].source == tb.subrange(
                    sv[i].range.start as int,
                    sv[i].range.end as int,
                ));
            }
        }
        assert(usable_specs(utf8(text@), specs.deep_view()) ==> {
            &&& res.1.len() == specs.len()
            &&& forall|i: int|
                0 <= i < specs.len() ==> {
                    &&& utf8(#[trigger] res.1[i].source@) == utf8(text@).subrange(
                        specs[i].range.start as int,
                        specs[i].range.end as int,
                    )
                    &&& utf8(res.0@).subrange(res.1[i].range.start as int, res.1[i].range.end as int)
                        == utf8(specs[i].label@)
                }
        });
    }
    res
}

/// A token is serialized when its display range lies within `lo..hi`.
pub open spec fn in_range(t: TokenView, lo: int, hi: int) -> bool {
    t.range.start >= lo && t.range.end <= hi
}

/// Serializing `text` from `offset` to `hi`: the tokens within `lo..hi` are
/// taken in order and each is replaced by its source; the text between them
/// is copied. `None` when a cut would fall out of order, past the end of
/// `text`, or off a character boundary.
pub open spec fn serialized(
    text: Seq<u8>,
    toks: Seq<TokenView>,
    lo: int,
    hi: int,
    offset: int,
) -> Option<Seq<u8>>
    decreases toks.len(),
{
    if toks.len() == 0 {
        if slice_ok(text, offset, hi) {
            Some(text.subrange(offset, hi))
        } else {
            None
        }
    } else {
        let t = toks[0];
        if in_range(t, lo, hi) {
            if slice_ok(text, offset, t.range.start as int) {
                match serialized(text, toks.drop_first(), lo, hi, t.range.end as int) {
                    Some(rest) => Some(
                        text.subrange(offset, t.range.start as int) + t.source + rest,
                    ),
                    None => None,
                }
            } else {
                None
            }
        } else {
            serialized(text, toks.drop_first(), lo, hi, offset)
        }
    }
}

/// The source text of `text[range]`, with every token that lies within
/// `range` replaced by its source.
pub fn serialize(text: &str, tokens: &[InlineToken], range: Range<usize>) -> (res: String)
    requires
        serialized(
            utf8(text@),
            tokens.deep_view(),
            range.start as int,
            range.end as int,
            range.start as int,
        ) is Some,
    ensures
        utf8(res@) == serialized(
            utf8(text@),
            tokens.deep_view(),
            range.start as int,
            range.end as int,
            range.start as int,
        )->0,
{
    let ghost tb = utf8(text@);
    let ghost tv = tokens.deep_view();
    let ghost lo = range.start as int;
    let ghost hi = range.end as int;
    let mut result = String::new();
    let mut offset = range.start;
    let mut i: usize = 0;
    proof {
        assert(tv.skip(0) =~= tv);
        assert(utf8(result@) =~= Seq::<u8>::empty());
        assert(serialized(tb, tv, lo, hi, lo)->0 =~= utf8(result@) + serialized(tb, tv, lo, hi, lo)->0);
    }
    while i < tokens.len()
        invariant
            0 <= i <= tokens.len(),
            tb == utf8(text@),
            tv == tokens.deep_view(),
            lo == range.start,
            hi == range.end,
            serialized(tb, tv.skip(i as int), lo, hi, offset as int) is Some,
            serialized(tb, tv, lo, hi, lo)->0 == utf8(result@) + serialized(
                tb,
                tv.skip(i as int),
                lo,
                hi,
                offset as int,
            )->0,
        decreases tokens.len() - i,
    {
        let token = &tokens[i];
        proof {
            assert(tv.skip(i as int).drop_first() =~= tv.skip(i + 1));
            assert(tv.skip(i as int)[0] == token.deep_view());
        }
        if token.range.start >= range.start && token.range.end <= range.end {
            let ghost before = utf8(result@);
            let gap = slice_of(text, offset, token.range.start);
            push_str(&mut result, gap);
            push_str(&mut result, token.source.as_str());
            proof {
                let rest = serialized(tb, tv.skip(i + 1), lo, hi, token.range.end as int)->0;
                assert(before + (tb.subrange(offset as int, token.range.start as int) + token.deep_view().source + rest)
                    =~= utf8(result@) + rest);
            }
            offset = token.range.end;
        }
        i += 1;
    }
    proof {
        assert(tv.skip(i as int).len() == 0);
    }
    let tail = slice_of(text, offset, range.end);
    push_str(&mut result, tail);
    result
}

/// The display offset `offset` falls strictly inside token `t`.
pub open spec fn straddles(t: TokenView, offset: int) -> bool {
    t.range.start < offset < t.range.end
}

/// Where `offset` moves so that it does not split a token: the first token
/// that it falls strictly inside sends it to the token's end when `forward`
/// is `Some(true)`, to its start when `Some(false)`, and when `None` to the
/// nearer end (the end on a tie). An offset inside no token stays.
pub open spec fn snapped(toks: Seq<TokenView>, offset: usize, forward: Option<bool>) -> usize
    decreases toks.len(),
{
    if toks.len() == 0 {
        offset
    } else if straddles(toks[0], offset as int) {
        let t = toks[0];
        let to_end = match forward {
            Some(f) => f,
            None => offset - t.range.start >= t.range.end - offset,
        };
        if to_end {
            t.range.end
        } else {
            t.range.start
        }
    } else {
        snapped(toks.drop_first(), offset, forward)
    }
}

/// Moves `offset` out of the token that it falls inside, if any.
pub fn snap(tokens: &[InlineToken], offset: usize, forward: Option<bool>) -> (res: usize)
    ensures
        res == snapped(tokens.deep_view(), offset, forward),
{
    let ghost tv = tokens.deep_view();
    let mut i: usize = 0;
    proof {
        assert(tv.skip(0) =~= tv);
    }
    while i < tokens.len()
        invariant
            0 <= i <= tokens.len(),
            tv == tokens.deep_view(),
            snapped(tv, offset, forward) == snapped(tv.skip(i as int), offset, forward),
        decreases tokens.len() - i,
    {
        let token = &tokens[i];
        proof {
            assert(tv.skip(i as int).drop_first() =~= tv.skip(i + 1));
            assert(tv.skip(i as int)[0] == token.deep_view());
        }
        if token.range.start < offset && offset < token.range.end {
            let to_end = match forward {
                Some(f) => f,
                None => offset - token.range.start >= token.range.end - offset,
            };
            return if to_end {
                token.range.end
            } else {
                token.range.start
            };
        }
        i += 1;
    }
    offset
}

/// A cursor (an empty range) moves to the nearer end of the token that it
/// falls inside; a selection grows so that neither end splits a token.
pub open spec fn expanded(toks: Seq<TokenView>, r: Range<usize>) -> Range<usize> {
    if r.start >= r.end {
        let o = snapped(toks, r.start, None);
        Range { start: o, end: o }
    } else {
        Range {
            start: snapped(toks, r.start, Some(false)),
            end: snapped(toks, r.end, Some(true)),
        }
    }
}

/// Widens `range` so that it does not split a token.
pub fn expand(tokens: &[InlineToken], range: Range<usize>) -> (res: Range<usize>)
    ensures
        res == expanded(tokens.deep_view(), range),
{
    if range.start >= range.end {
        let offset = snap(tokens, range.start, None);
        offset..offset
    } else {
        snap(tokens, range.start, Some(false))..snap(tokens, range.end, Some(true))
    }
}

} // verus!
