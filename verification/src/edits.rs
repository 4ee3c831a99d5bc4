//! Keeping tokens in step with edits of the display text.
use std::ops::Range;
use vstd::prelude::*;
use crate::tokens::{InlineToken, TokenView};
use crate::ranges::{range_len, len_of};
use crate::text::utf8;
use crate::token_laws::tokens_ordered;

verus! {

/// What an edit that replaces `r` by `inserted_len` bytes does to a token:
/// one that ends at or before the edit stays, one that starts at or after its
/// end moves by the change in length, and one that overlaps it is removed.
pub open spec fn survivor(t: TokenView, r: Range<usize>, inserted_len: usize) -> Option<TokenView> {
    if t.range.end <= r.start {
        Some(t)
    } else if t.range.start >= r.end {
        Some(
            TokenView {
                range: Range {
                    start: (t.range.start - range_len(r) + inserted_len) as usize,
                    end: (t.range.end - range_len(r) + inserted_len) as usize,
                },
                source: t.source,
            },
        )
    } else {
        None
    }
}

/// Moving a token that lies after the edit stays within `usize`.
pub open spec fn shift_fits(t: TokenView, r: Range<usize>, inserted_len: usize) -> bool {
    t.range.end <= r.start || t.range.start < r.end || {
        &&& t.range.end >= range_len(r)
        &&& t.range.start - range_len(r) + inserted_len <= usize::MAX
        &&& t.range.end - range_len(r) + inserted_len <= usize::MAX
    }
}

/// The tokens that survive the edit, moved, in the order they had.
pub open spec fn survivors(toks: Seq<TokenView>, r: Range<usize>, inserted_len: usize) -> Seq<
    TokenView,
>
    decreases toks.len(),
{
    if toks.len() == 0 {
        Seq::empty()
    } else {
        let rest = survivors(toks.drop_last(), r, inserted_len);
        match survivor(toks.last(), r, inserted_len) {
            Some(t) => rest.push(t),
            None => rest,
        }
    }
}

/// A token whose range is relative to inserted text, placed at `at`.
pub open spec fn placed(t: TokenView, at: usize) -> TokenView {
    TokenView {
        range: Range { start: (t.range.start + at) as usize, end: (t.range.end + at) as usize },
        source: t.source,
    }
}

/// The surviving tokens followed by the inserted ones, placed at the edit.
pub open spec fn edit_tokens(
    toks: Seq<TokenView>,
    r: Range<usize>,
    inserted_len: usize,
    inserted: Seq<TokenView>,
) -> Seq<TokenView> {
    survivors(toks, r, inserted_len) + inserted.map_values(|t: TokenView| placed(t, r.start))
}

/// Tokens in non-decreasing order of their start.
pub open spec fn sorted_by_start(s: Seq<TokenView>) -> bool {
    forall|i: int, j: int| 0 <= i < j < s.len() ==> #[trigger] s[i].range.start <= #[trigger] s[j].range.start
}

/// Selects the tokens that start at `k`.
pub open spec fn starts_at(k: usize) -> spec_fn(TokenView) -> bool {
    |t: TokenView| t.range.start == k
}

/// `result` is `input` sorted stably by start: it is in order of start, and
/// the tokens with any one start come in the order that `input` has them.
/// (This determines `result` from `input`.)
pub open spec fn stably_sorted(result: Seq<TokenView>, input: Seq<TokenView>) -> bool {
    &&& sorted_by_start(result)
    &&& forall|k: usize| #[trigger] result.filter(starts_at(k)) == input.filter(starts_at(k))
}

pub proof fn lemma_filter_none<A>(s: Seq<A>, pred: spec_fn(A) -> bool)
    requires
        forall|i: int| 0 <= i < s.len() ==> !pred(#[trigger] s[i]),
    ensures
        s.filter(pred) == Seq::<A>::empty(),
    decreases s.len(),
{
    reveal(Seq::filter);
    if s.len() > 0 {
        assert forall|i: int| 0 <= i < s.drop_last().len() implies !pred(
            #[trigger] s.drop_last()[i],
        ) by {
            assert(s.drop_last()[i] == s[i]);
        }
        lemma_filter_none(s.drop_last(), pred);
        assert(!pred(s[s.len() - 1]));
    }
    assert(s.filter(pred) =~= Seq::<A>::empty());
}

pub proof fn lemma_filter_push<A>(s: Seq<A>, x: A, pred: spec_fn(A) -> bool)
    ensures
        s.push(x).filter(pred) == if pred(x) {
            s.filter(pred).push(x)
        } else {
            s.filter(pred)
        },
{
    reveal(Seq::filter);
    assert(s.push(x).drop_last() =~= s);
}

/// Inserting `x` after every token that starts no later than it, and before
/// every one that starts later, keeps the order and appends `x` to the tokens
/// with its start.
proof fn lemma_insert_stable(r: Seq<TokenView>, p: int, x: TokenView)
    requires
        sorted_by_start(r),
        0 <= p <= r.len(),
        forall|i: int| 0 <= i < p ==> #[trigger] r[i].range.start <= x.range.start,
        forall|i: int| p <= i < r.len() ==> #[trigger] r[i].range.start > x.range.start,
    ensures
        sorted_by_start(r.insert(p, x)),
        forall|k: usize|
            #[trigger] r.insert(p, x).filter(starts_at(k)) == if x.range.start == k {
                r.filter(starts_at(k)).push(x)
            } else {
                r.filter(starts_at(k))
            },
{
    let n = r.insert(p, x);
    r.insert_ensures(p, x);
    assert forall|i: int, j: int| 0 <= i < j < n.len() implies #[trigger] n[i].range.start
        <= #[trigger] n[j].range.start by {
        if j < p {
        } else if j == p {
        } else if i < p {
            assert(n[j] == r[j - 1]);
        } else if i == p {
            assert(n[j] == r[j - 1]);
        } else {
            assert(n[j] == r[j - 1]);
            assert(n[i] == r[i - 1]);
        }
    }
    let a = r.subrange(0, p);
    let b = r.subrange(p, r.len() as int);
    assert(n =~= a.push(x) + b);
    assert(r =~= a + b);
    assert forall|k: usize| #[trigger] n.filter(starts_at(k)) == if x.range.start == k {
        r.filter(starts_at(k)).push(x)
    } else {
        r.filter(starts_at(k))
    } by {
        let f = starts_at(k);
        Seq::filter_distributes_over_add(a.push(x), b, f);
        Seq::filter_distributes_over_add(a, b, f);
        lemma_filter_push(a, x, f);
        if x.range.start == k {
            assert forall|i: int| 0 <= i < b.len() implies !f(#[trigger] b[i]) by {
                assert(b[i] == r[p + i]);
            }
            lemma_filter_none(b, f);
            assert(a.filter(f).push(x) + b.filter(f) =~= (a.filter(f) + b.filter(f)).push(x));
        }
    }
}

/// A copy of `tokens` sorted stably by start.
pub fn sort_by_start(tokens: &Vec<InlineToken>) -> (res: Vec<InlineToken>)
    ensures
        stably_sorted(res.deep_view(), tokens.deep_view()),
{
    let ghost input = tokens.deep_view();
    let mut res: Vec<InlineToken> = Vec::new();
    let mut i: usize = 0;
    proof {
        assert(res.deep_view() =~= Seq::<TokenView>::empty());
        assert forall|k: usize| #[trigger] res.deep_view().filter(starts_at(k)) == input.take(
            0,
        ).filter(starts_at(k)) by {
            assert(input.take(0) =~= res.deep_view());
        }
    }
    while i < tokens.len()
        invariant
            0 <= i <= tokens.len(),
            input == tokens.deep_view(),
            sorted_by_start(res.deep_view()),
            forall|k: usize| #[trigger]
                res.deep_view().filter(starts_at(k)) == input.take(i as int).filter(starts_at(k)),
        decreases tokens.len() - i,
    {
        let x = tokens[i].clone();
        let ghost rv = res.deep_view();
        let mut p: usize = 0;
        while p < res.len() && res[p].range.start <= x.range.start
            invariant
                0 <= p <= res.len(),
                rv == res.deep_view(),
                forall|j: int| 0 <= j < p ==> #[trigger] rv[j].range.start <= x.range.start,
            decreases res.len() - p,
        {
            p += 1;
        }
        proof {
            assert forall|j: int| p <= j < rv.len() implies #[trigger] rv[j].range.start
                > x.range.start by {
                assert(rv[p as int].range.start <= rv[j].range.start);
            }
            lemma_insert_stable(rv, p as int, x.deep_view());
            assert(input.take(i + 1) =~= input.take(i as int).push(x.deep_view()));
            assert forall|k: usize| #[trigger] input.take(i + 1).filter(starts_at(k)) == if x.deep_view().range.start == k {
                input.take(i as int).filter(starts_at(k)).push(x.deep_view())
            } else {
                input.take(i as int).filter(starts_at(k))
            } by {
                lemma_filter_push(input.take(i as int), x.deep_view(), starts_at(k));
            }
        }
        res.insert(p, x);
        proof {
            assert(res.deep_view() =~= rv.insert(p as int, x.deep_view()));
        }
        i += 1;
    }
    proof {
        assert(input.take(tokens.len() as int) =~= input);
    }
    res
}

/// The tokens after replacing the display range `range` by `inserted_len`
/// bytes that hold the tokens `inserted` (whose ranges are relative to the
/// inserted text): tokens before the edit stay, tokens after it move, tokens
/// that overlap it are removed, the inserted tokens are placed at the edit,
/// and all are sorted stably by start.
pub fn edited(
    tokens: &[InlineToken],
    range: &Range<usize>,
    inserted_len: usize,
    inserted: Vec<InlineToken>,
) -> (res: Vec<InlineToken>)
    requires
        forall|i: int|
            0 <= i < tokens.len() ==> shift_fits(#[trigger] tokens[i].deep_view(), *range, inserted_len),
        forall|i: int|
            0 <= i < inserted.len() ==> #[trigger] inserted[i].range.start + range.start <= usize::MAX
                && inserted[i].range.end + range.start <= usize::MAX,
    ensures
        stably_sorted(
            res.deep_view(),
            edit_tokens(tokens.deep_view(), *range, inserted_len, inserted.deep_view()),
        ),
        forall|a: int|
            0 <= a < tokens.len() && #[trigger] tokens[a].range.end <= range.start
                ==> res.deep_view().contains(tokens[a].deep_view()),
        forall|a: int|
            0 <= a < tokens.len() && #[trigger] tokens[a].range.start >= range.end
                && tokens[a].range.end > range.start ==> has_token(
                res.deep_view(),
                tokens[a].range.start - range_len(*range) + inserted_len,
                tokens[a].range.end - range_len(*range) + inserted_len,
                utf8(tokens[a].source@),
            ),
        forall|u: int|
            #![trigger inserted[u]]
            0 <= u < inserted.len() ==> has_token(
                res.deep_view(),
                inserted[u].range.start + range.start,
                inserted[u].range.end + range.start,
                utf8(inserted[u].source@),
            ),
        res.len() == tokens.len() - tokens.deep_view().filter(overlaps_edit(*range)).len()
            + inserted.len(),
{
    let ghost tv = tokens.deep_view();
    let ghost iv = inserted.deep_view();
    let removed = len_of(range);
    let mut result: Vec<InlineToken> = Vec::new();
    let mut i: usize = 0;
    proof {
        assert(result.deep_view() =~= survivors(tv.take(0), *range, inserted_len));
    }
    while i < tokens.len()
        invariant
            0 <= i <= tokens.len(),
            tv == tokens.deep_view(),
            removed == range_len(*range),
            forall|i: int|
                0 <= i < tokens.len() ==> shift_fits(#[trigger] tokens[i].deep_view(), *range, inserted_len),
            result.deep_view() == survivors(tv.take(i as int), *range, inserted_len),
        decreases tokens.len() - i,
    {
        let token = &tokens[i];
        let ghost before = result.deep_view();
        proof {
            assert(tv.take(i + 1).drop_last() =~= tv.take(i as int));
            assert(tv.take(i + 1).last() == token.deep_view());
            assert(shift_fits(tokens[i as int].deep_view(), *range, inserted_len));
        }
        if token.range.end <= range.start {
            let t = token.clone();
            result.push(t);
            proof {
                assert(result.deep_view() =~= before.push(t.deep_view()));
            }
        } else if token.range.start >= range.end {
            let t = InlineToken {
                range: (token.range.start - removed + inserted_len)..(token.range.end - removed
                    + inserted_len),
                source: token.source.clone(),
            };
            result.push(t);
            proof {
                assert(result.deep_view() =~= before.push(t.deep_view()));
            }
        }
        i += 1;
    }
    proof {
        assert(tv.take(tokens.len() as int) =~= tv);
    }
    let ghost kept = result.deep_view();
    let mut j: usize = 0;
    proof {
        assert(result.deep_view() =~= kept + iv.take(0).map_values(|t: TokenView| placed(t, range.start)));
    }
    while j < inserted.len()
        invariant
            0 <= j <= inserted.len(),
            iv == inserted.deep_view(),
            forall|i: int|
                0 <= i < inserted.len() ==> #[trigger] inserted[i].range.start + range.start
                    <= usize::MAX && inserted[i].range.end + range.start <= usize::MAX,
            result.deep_view() == kept + iv.take(j as int).map_values(
                |t: TokenView| placed(t, range.start),
            ),
        decreases inserted.len() - j,
    {
        let token = &inserted[j];
        let ghost before = result.deep_view();
        proof {
            assert(inserted[j as int].range.start + range.start <= usize::MAX);
        }
        let t = InlineToken {
            range: (token.range.start + range.start)..(token.range.end + range.start),
            source: token.source.clone(),
        };
        result.push(t);
        proof {
            assert(iv[j as int] == token.deep_view());
            assert(iv.take(j + 1).map_values(|t: TokenView| placed(t, range.start)) =~= iv.take(
                j as int,
            ).map_values(|t: TokenView| placed(t, range.start)).push(t.deep_view()));
            assert(result.deep_view() =~= before.push(t.deep_view()));
        }
        j += 1;
    }
    proof {
        assert(iv.take(inserted.len() as int) =~= iv);
    }
    let res = sort_by_start(&result);
    proof {
        let rv = res.deep_view();
        law_edit_keeps_untouched_tokens(tv, *range, inserted_len, iv, rv);
        law_edit_places_inserted_tokens(tv, *range, inserted_len, iv, rv);
        law_edit_token_count(tv, *range, inserted_len, iv, rv);
        assert forall|a: int|
            0 <= a < tokens.len() && #[trigger] tokens[a].range.end <= range.start implies rv.contains(
            tokens[a].deep_view(),
        ) by {
            assert(tv[a] == tokens[a].deep_view());
        }
        assert forall|a: int|
            0 <= a < tokens.len() && #[trigger] tokens[a].range.start >= range.end
                && tokens[a].range.end > range.start implies has_token(
            rv,
            tokens[a].range.start - range_len(*range) + inserted_len,
            tokens[a].range.end - range_len(*range) + inserted_len,
            utf8(tokens[a].source@),
        ) by {
            assert(tv[a] == tokens[a].deep_view());
        }
        assert forall|u: int| #![trigger inserted[u]] 0 <= u < inserted.len() implies has_token(
            rv,
            inserted[u].range.start + range.start,
            inserted[u].range.end + range.start,
            utf8(inserted[u].source@),
        ) by {
            assert(iv[u] == inserted[u].deep_view());
        }
    }
    res
}

/// A stable sort has one result: two stable sorts of the same tokens are
/// equal.
pub proof fn law_stable_sort_unique(a: Seq<TokenView>, b: Seq<TokenView>, input: Seq<TokenView>)
    requires
        stably_sorted(a, input),
        stably_sorted(b, input),
    ensures
        a == b,
{
    lemma_sorted_same_filters_equal(a, b);
}

proof fn lemma_filter_last(s: Seq<TokenView>, k: usize)
    requires
        s.len() > 0,
    ensures
        s.filter(starts_at(k)) == if s.last().range.start == k {
            s.drop_last().filter(starts_at(k)).push(s.last())
        } else {
            s.drop_last().filter(starts_at(k))
        },
{
    assert(s =~= s.drop_last().push(s.last()));
    lemma_filter_push(s.drop_last(), s.last(), starts_at(k));
}

proof fn lemma_last_key_max(a: Seq<TokenView>, b: Seq<TokenView>)
    requires
        a.len() > 0,
        sorted_by_start(b),
        b.filter(starts_at(a.last().range.start)) == a.filter(starts_at(a.last().range.start)),
    ensures
        b.len() > 0,
        a.last().range.start <= b.last().range.start,
{
    let k = a.last().range.start;
    a.lemma_filter_contains(starts_at(k), a.len() - 1);
    b.lemma_filter_contains_rev(starts_at(k), a.last());
    let j = choose|j: int| 0 <= j < b.len() && b[j] == a.last();
    if j < b.len() - 1 {
        assert(b[j].range.start <= b[b.len() - 1].range.start);
    }
}

proof fn lemma_sorted_same_filters_equal(a: Seq<TokenView>, b: Seq<TokenView>)
    requires
        sorted_by_start(a),
        sorted_by_start(b),
        forall|k: usize| #[trigger] a.filter(starts_at(k)) == b.filter(starts_at(k)),
    ensures
        a == b,
    decreases a.len() + b.len(),
{
    if a.len() == 0 && b.len() == 0 {
        assert(a =~= b);
    } else if a.len() == 0 {
        assert(a.filter(starts_at(b.last().range.start)) == b.filter(starts_at(b.last().range.start)));
        lemma_last_key_max(b, a);
    } else {
        let ka = a.last().range.start;
        assert(a.filter(starts_at(ka)) == b.filter(starts_at(ka)));
        lemma_last_key_max(a, b);
        let kb = b.last().range.start;
        assert(a.filter(starts_at(kb)) == b.filter(starts_at(kb)));
        lemma_last_key_max(b, a);
        assert(ka == kb);
        lemma_filter_last(a, ka);
        lemma_filter_last(b, ka);
        let fa = a.filter(starts_at(ka));
        assert(a.last() == fa.last());
        assert(a.last() == b.last());
        assert forall|k: usize| #[trigger] a.drop_last().filter(starts_at(k)) == b.drop_last().filter(
            starts_at(k),
        ) by {
            assert(a.filter(starts_at(k)) == b.filter(starts_at(k)));
            lemma_filter_last(a, k);
            lemma_filter_last(b, k);
            if k == ka {
                assert(a.drop_last().filter(starts_at(k)) =~= a.filter(starts_at(k)).drop_last());
                assert(b.drop_last().filter(starts_at(k)) =~= b.filter(starts_at(k)).drop_last());
            }
        }
        lemma_sorted_same_filters_equal(a.drop_last(), b.drop_last());
        assert(a =~= a.drop_last().push(a.last()));
        assert(b =~= b.drop_last().push(b.last()));
    }
}

/// An empty edit that inserts nothing changes nothing: with tokens sorted
/// by start and none of them around the edit point, the result is the
/// tokens themselves.
pub proof fn law_empty_edit_is_identity(toks: Seq<TokenView>, p: usize, result: Seq<TokenView>)
    requires
        sorted_by_start(toks),
        forall|i: int|
            0 <= i < toks.len() ==> !(#[trigger] toks[i].range.start < p && p < toks[i].range.end),
        stably_sorted(
            result,
            edit_tokens(toks, Range { start: p, end: p }, 0, Seq::<TokenView>::empty()),
        ),
    ensures
        result == toks,
{
    let r = Range { start: p, end: p };
    lemma_survivors_of_empty_edit(toks, p);
    let none = Seq::<TokenView>::empty().map_values(|t: TokenView| placed(t, r.start));
    assert(none =~= Seq::<TokenView>::empty());
    assert(edit_tokens(toks, r, 0, Seq::<TokenView>::empty()) =~= toks);
    law_stable_sort_unique(result, toks, toks);
}

proof fn lemma_survivors_of_empty_edit(toks: Seq<TokenView>, p: usize)
    requires
        forall|i: int|
            0 <= i < toks.len() ==> !(#[trigger] toks[i].range.start < p && p < toks[i].range.end),
    ensures
        survivors(toks, Range { start: p, end: p }, 0) == toks,
    decreases toks.len(),
{
    if toks.len() > 0 {
        assert forall|i: int| 0 <= i < toks.drop_last().len() implies !(
        #[trigger] toks.drop_last()[i].range.start < p && p < toks.drop_last()[i].range.end) by {
            assert(toks.drop_last()[i] == toks[i]);
        }
        lemma_survivors_of_empty_edit(toks.drop_last(), p);
        assert(!(toks[toks.len() - 1].range.start < p && p < toks[toks.len() - 1].range.end));
        assert(toks =~= toks.drop_last().push(toks.last()));
    }
}

/// Two ordered runs of tokens, the first ending before the second starts,
/// make an ordered run.
proof fn lemma_ordered_concat(a: Seq<TokenView>, b: Seq<TokenView>)
    requires
        tokens_ordered(a),
        tokens_ordered(b),
        forall|i: int, j: int|
            0 <= i < a.len() && 0 <= j < b.len() ==> #[trigger] a[i].range.end <= #[trigger] b[j].range.start,
    ensures
        tokens_ordered(a + b),
{
    let c = a + b;
    assert forall|i: int| 0 <= i < c.len() implies #[trigger] c[i].range.start < c[i].range.end by {
        if i < a.len() {
            assert(c[i] == a[i]);
        } else {
            assert(c[i] == b[i - a.len()]);
        }
    }
    assert forall|i: int, j: int| 0 <= i < j < c.len() implies #[trigger] c[i].range.end
        <= #[trigger] c[j].range.start by {
        if j < a.len() {
            assert(c[i] == a[i] && c[j] == a[j]);
        } else if i < a.len() {
            assert(c[i] == a[i] && c[j] == b[j - a.len()]);
        } else {
            assert(c[i] == b[i - a.len()] && c[j] == b[j - a.len()]);
        }
    }
}

proof fn lemma_ordered_sorted(s: Seq<TokenView>)
    requires
        tokens_ordered(s),
    ensures
        sorted_by_start(s),
{
    assert forall|i: int, j: int| 0 <= i < j < s.len() implies #[trigger] s[i].range.start
        <= #[trigger] s[j].range.start by {
        assert(s[i].range.start < s[i].range.end);
    }
}

/// The tokens that survive an edit of ordered tokens are ordered: those
/// before the edit come first and end by its start; those after it start
/// at or after the end of the inserted text.
proof fn lemma_survivors_ordered(toks: Seq<TokenView>, r: Range<usize>, inserted_len: usize)
    requires
        tokens_ordered(toks),
        r.start <= r.end,
        forall|i: int| 0 <= i < toks.len() ==> shift_fits(#[trigger] toks[i], r, inserted_len),
    ensures
        tokens_ordered(survivors(toks, r, inserted_len)),
        forall|i: int|
            0 <= i < survivors(toks, r, inserted_len).len() ==> {
                ||| #[trigger] survivors(toks, r, inserted_len)[i].range.end <= r.start
                ||| survivors(toks, r, inserted_len)[i].range.start >= r.start + inserted_len
            },
        forall|i: int|
            #![trigger survivors(toks, r, inserted_len)[i]]
            0 <= i < survivors(toks, r, inserted_len).len() ==> (exists|a: int|
                0 <= a < toks.len() && survivor(#[trigger] toks[a], r, inserted_len) == Some(
                    survivors(toks, r, inserted_len)[i],
                )),
    decreases toks.len(),
{
    if toks.len() > 0 {
        let d = toks.drop_last();
        let n = toks.len() - 1;
        assert forall|i: int| 0 <= i < d.len() implies #[trigger] d[i] == toks[i] by {}
        assert(tokens_ordered(d)) by {
            assert forall|i: int| 0 <= i < d.len() implies #[trigger] d[i].range.start < d[i].range.end by {
                assert(d[i] == toks[i]);
            }
            assert forall|i: int, j: int| 0 <= i < j < d.len() implies #[trigger] d[i].range.end
                <= #[trigger] d[j].range.start by {
                assert(d[i] == toks[i] && d[j] == toks[j]);
            }
        }
        assert forall|i: int| 0 <= i < d.len() implies shift_fits(#[trigger] d[i], r, inserted_len) by {
            assert(d[i] == toks[i]);
        }
        lemma_survivors_ordered(d, r, inserted_len);
        let prev = survivors(d, r, inserted_len);
        let t = toks[n];
        assert(toks.last() == t);
        assert(shift_fits(t, r, inserted_len));
        assert(t.range.start < t.range.end);
        match survivor(t, r, inserted_len) {
            Some(y) => {
                let now = survivors(toks, r, inserted_len);
                assert(now == prev.push(y));
                assert forall|i: int| 0 <= i < prev.len() implies #[trigger] prev[i].range.end
                    <= y.range.start by {
                    let a = choose|a: int|
                        0 <= a < d.len() && survivor(#[trigger] d[a], r, inserted_len) == Some(prev[i]);
                    assert(d[a] == toks[a]);
                    assert(toks[a].range.end <= toks[n].range.start);
                    assert(toks[a].range.start < toks[a].range.end);
                }
                lemma_ordered_concat(prev, seq![y]);
                assert(prev + seq![y] =~= now);
                assert forall|i: int| #![trigger now[i]] 0 <= i < now.len() implies (exists|a: int|
                    0 <= a < toks.len() && survivor(#[trigger] toks[a], r, inserted_len) == Some(now[i])) by {
                    if i < prev.len() {
                        assert(now[i] == prev[i]);
                        let a = choose|a: int|
                            0 <= a < d.len() && survivor(#[trigger] d[a], r, inserted_len) == Some(prev[i]);
                        assert(d[a] == toks[a]);
                    } else {
                        assert(survivor(toks[n], r, inserted_len) == Some(now[i]));
                    }
                }
                assert forall|i: int| 0 <= i < now.len() implies {
                    ||| #[trigger] now[i].range.end <= r.start
                    ||| now[i].range.start >= r.start + inserted_len
                } by {
                    if i < prev.len() {
                        assert(now[i] == prev[i]);
                    }
                }
            },
            None => {},
        }
    }
}

/// An ordered sequence whose tokens each end by `c` or start at or after
/// `c2` splits into the ones that end by `c` followed by the others.
proof fn lemma_split_point(s: Seq<TokenView>, c: int, c2: int) -> (m: int)
    requires
        tokens_ordered(s),
        forall|i: int| 0 <= i < s.len() ==> #[trigger] s[i].range.end <= c || s[i].range.start >= c2,
    ensures
        0 <= m <= s.len(),
        forall|i: int| 0 <= i < m ==> #[trigger] s[i].range.end <= c,
        forall|i: int| m <= i < s.len() ==> #[trigger] s[i].range.start >= c2,
    decreases s.len(),
{
    if s.len() == 0 {
        0
    } else if s[s.len() - 1].range.end <= c {
        assert forall|i: int| 0 <= i < s.len() implies #[trigger] s[i].range.end <= c by {
            if i < s.len() - 1 {
                assert(s[i].range.end <= s[s.len() - 1].range.start);
                assert(s[s.len() - 1].range.start < s[s.len() - 1].range.end);
            }
        }
        s.len() as int
    } else {
        let d = s.drop_last();
        assert forall|i: int| 0 <= i < d.len() implies #[trigger] d[i] == s[i] by {}
        assert(tokens_ordered(d)) by {
            assert forall|i: int| 0 <= i < d.len() implies #[trigger] d[i].range.start < d[i].range.end by {
                assert(d[i] == s[i]);
            }
            assert forall|i: int, j: int| 0 <= i < j < d.len() implies #[trigger] d[i].range.end
                <= #[trigger] d[j].range.start by {
                assert(d[i] == s[i] && d[j] == s[j]);
            }
        }
        assert forall|i: int| 0 <= i < d.len() implies #[trigger] d[i].range.end <= c || d[i].range.start
            >= c2 by {
            assert(d[i] == s[i]);
        }
        let m = lemma_split_point(d, c, c2);
        assert forall|i: int| 0 <= i < m implies #[trigger] s[i].range.end <= c by {
            assert(d[i] == s[i]);
        }
        assert forall|i: int| m <= i < s.len() implies #[trigger] s[i].range.start >= c2 by {
            if i < s.len() - 1 {
                assert(d[i] == s[i]);
            }
        }
        m
    }
}

/// Editing keeps tokens ordered: when the tokens are ordered, the edit
/// range is not reversed, and the inserted tokens are ordered within the
/// inserted text, the tokens after the edit are ordered.
pub proof fn law_edit_keeps_tokens_ordered(
    toks: Seq<TokenView>,
    r: Range<usize>,
    inserted_len: usize,
    inserted: Seq<TokenView>,
    result: Seq<TokenView>,
)
    requires
        tokens_ordered(toks),
        tokens_ordered(inserted),
        r.start <= r.end,
        forall|i: int| 0 <= i < toks.len() ==> shift_fits(#[trigger] toks[i], r, inserted_len),
        forall|i: int|
            0 <= i < inserted.len() ==> #[trigger] inserted[i].range.end <= inserted_len
                && inserted[i].range.end + r.start <= usize::MAX,
        stably_sorted(result, edit_tokens(toks, r, inserted_len, inserted)),
    ensures
        tokens_ordered(result),
{
    lemma_survivors_ordered(toks, r, inserted_len);
    let surv = survivors(toks, r, inserted_len);
    let ins = inserted.map_values(|t: TokenView| placed(t, r.start));
    let m = lemma_split_point(surv, r.start as int, r.start + inserted_len);
    let lo = surv.take(m);
    let hi = surv.skip(m);
    assert(surv =~= lo + hi);
    assert forall|i: int| 0 <= i < ins.len() implies {
        &&& #[trigger] ins[i].range.start >= r.start
        &&& ins[i].range.end <= r.start + inserted_len
        &&& ins[i].range.start < ins[i].range.end
    } by {
        assert(inserted[i].range.start < inserted[i].range.end);
    }
    assert(tokens_ordered(ins)) by {
        assert forall|i: int, j: int| 0 <= i < j < ins.len() implies #[trigger] ins[i].range.end
            <= #[trigger] ins[j].range.start by {
            assert(inserted[i].range.end <= inserted[j].range.start);
            assert(inserted[j].range.start < inserted[j].range.end);
        }
    }
    assert(tokens_ordered(lo)) by {
        assert forall|i: int| 0 <= i < lo.len() implies #[trigger] lo[i].range.start < lo[i].range.end by {
            assert(lo[i] == surv[i]);
        }
        assert forall|i: int, j: int| 0 <= i < j < lo.len() implies #[trigger] lo[i].range.end
            <= #[trigger] lo[j].range.start by {
            assert(lo[i] == surv[i] && lo[j] == surv[j]);
        }
    }
    assert(tokens_ordered(hi)) by {
        assert forall|i: int| 0 <= i < hi.len() implies #[trigger] hi[i].range.start < hi[i].range.end by {
            assert(hi[i] == surv[i + m]);
        }
        assert forall|i: int, j: int| 0 <= i < j < hi.len() implies #[trigger] hi[i].range.end
            <= #[trigger] hi[j].range.start by {
            assert(hi[i] == surv[i + m] && hi[j] == surv[j + m]);
        }
    }
    assert forall|i: int, j: int| 0 <= i < lo.len() && 0 <= j < ins.len() implies #[trigger] lo[i].range.end
        <= #[trigger] ins[j].range.start by {
        assert(lo[i] == surv[i]);
    }
    lemma_ordered_concat(lo, ins);
    assert forall|i: int, j: int| 0 <= i < (lo + ins).len() && 0 <= j < hi.len() implies #[trigger] (lo
        + ins)[i].range.end <= #[trigger] hi[j].range.start by {
        assert(hi[j] == surv[j + m]);
        if i < lo.len() {
            assert((lo + ins)[i] == lo[i]);
            assert(lo[i] == surv[i]);
            assert(surv[i].range.end <= surv[j + m].range.start) by {
                assert(surv[i].range.end <= r.start);
                assert(surv[j + m].range.start >= r.start + inserted_len);
            }
        } else {
            assert((lo + ins)[i] == ins[i - lo.len()]);
        }
    }
    lemma_ordered_concat(lo + ins, hi);
    let c = lo + ins + hi;
    lemma_ordered_sorted(c);
    let combined = edit_tokens(toks, r, inserted_len, inserted);
    assert(combined == lo + hi + ins);
    assert forall|k: usize| #[trigger] c.filter(starts_at(k)) == combined.filter(starts_at(k)) by {
        let f = starts_at(k);
        Seq::filter_distributes_over_add(lo + ins, hi, f);
        Seq::filter_distributes_over_add(lo, ins, f);
        Seq::filter_distributes_over_add(lo + hi, ins, f);
        Seq::filter_distributes_over_add(lo, hi, f);
        if exists|j: int| 0 <= j < ins.len() && #[trigger] ins[j].range.start == k {
            let j = choose|j: int| 0 <= j < ins.len() && #[trigger] ins[j].range.start == k;
            assert forall|i: int| 0 <= i < hi.len() implies !f(#[trigger] hi[i]) by {
                assert(hi[i] == surv[i + m]);
            }
            lemma_filter_none(hi, f);
            assert(lo.filter(f) + ins.filter(f) + Seq::<TokenView>::empty() =~= lo.filter(f)
                + Seq::<TokenView>::empty() + ins.filter(f));
        } else {
            assert forall|i: int| 0 <= i < ins.len() implies !f(#[trigger] ins[i]) by {}
            lemma_filter_none(ins, f);
            assert(lo.filter(f) + Seq::<TokenView>::empty() + hi.filter(f) =~= lo.filter(f)
                + hi.filter(f) + Seq::<TokenView>::empty());
        }
    }
    assert(stably_sorted(c, combined));
    law_stable_sort_unique(result, c, combined);
}

/// The display text `d` with the range `r` replaced by `s`.
pub open spec fn edit_text(d: Seq<u8>, r: Range<usize>, s: Seq<u8>) -> Seq<u8> {
    d.subrange(0, r.start as int) + s + d.subrange(r.end as int, d.len() as int)
}

/// Every token lies within the first `n` bytes and is not reversed.
pub open spec fn tokens_within(toks: Seq<TokenView>, n: int) -> bool {
    forall|i: int| 0 <= i < toks.len() ==> #[trigger] toks[i].range.start <= toks[i].range.end <= n
}

proof fn lemma_survivors_from(toks: Seq<TokenView>, r: Range<usize>, inserted_len: usize)
    ensures
        forall|i: int|
            #![trigger survivors(toks, r, inserted_len)[i]]
            0 <= i < survivors(toks, r, inserted_len).len() ==> (exists|a: int|
                0 <= a < toks.len() && survivor(#[trigger] toks[a], r, inserted_len) == Some(
                    survivors(toks, r, inserted_len)[i],
                )),
    decreases toks.len(),
{
    if toks.len() > 0 {
        let d = toks.drop_last();
        lemma_survivors_from(d, r, inserted_len);
        let prev = survivors(d, r, inserted_len);
        let now = survivors(toks, r, inserted_len);
        assert forall|i: int| #![trigger now[i]] 0 <= i < now.len() implies (exists|a: int|
            0 <= a < toks.len() && survivor(#[trigger] toks[a], r, inserted_len) == Some(now[i])) by {
            if i < prev.len() {
                assert(now[i] == prev[i]);
                let a = choose|a: int|
                    0 <= a < d.len() && survivor(#[trigger] d[a], r, inserted_len) == Some(prev[i]);
                assert(d[a] == toks[a]);
            } else {
                assert(survivor(toks[toks.len() - 1], r, inserted_len) == Some(now[i]));
            }
        }
    }
}

/// Every token of a stable sort is a token of the input.
proof fn lemma_sorted_member(result: Seq<TokenView>, input: Seq<TokenView>, k: int)
    requires
        stably_sorted(result, input),
        0 <= k < result.len(),
    ensures
        input.contains(result[k]),
{
    let f = starts_at(result[k].range.start);
    result.lemma_filter_contains(f, k);
    assert(result.filter(f) == input.filter(f));
    input.lemma_filter_contains_rev(f, result[k]);
}

/// Editing keeps each token over the same text: after replacing `r` of the
/// display text `d` by `s`, each token of the result is a surviving token,
/// moved, that covers the same bytes as before and stands for the same
/// source, or an inserted token placed over the bytes of `s` that it
/// covered there. All lie within the edited text, and `edited` accepts these
/// inputs.
#[verifier::spinoff_prover]
pub proof fn law_edit_keeps_token_text(
    d: Seq<u8>,
    s: Seq<u8>,
    r: Range<usize>,
    inserted_len: usize,
    toks: Seq<TokenView>,
    inserted: Seq<TokenView>,
    result: Seq<TokenView>,
)
    requires
        r.start <= r.end <= d.len(),
        inserted_len == s.len(),
        tokens_within(toks, d.len() as int),
        tokens_within(inserted, s.len() as int),
        edit_text(d, r, s).len() <= usize::MAX,
        stably_sorted(result, edit_tokens(toks, r, inserted_len, inserted)),
    ensures
        forall|i: int| 0 <= i < toks.len() ==> shift_fits(#[trigger] toks[i], r, inserted_len),
        forall|i: int|
            0 <= i < inserted.len() ==> #[trigger] inserted[i].range.start + r.start <= usize::MAX
                && inserted[i].range.end + r.start <= usize::MAX,
        forall|k: int|
            0 <= k < result.len() ==> {
                &&& #[trigger] result[k].range.start <= result[k].range.end <= edit_text(d, r, s).len()
                &&& (exists|a: int|
                    0 <= a < toks.len() && survivor(#[trigger] toks[a], r, inserted_len) == Some(
                        result[k],
                    ) && edit_text(d, r, s).subrange(
                        result[k].range.start as int,
                        result[k].range.end as int,
                    ) == d.subrange(toks[a].range.start as int, toks[a].range.end as int)
                        && result[k].source == toks[a].source) || (exists|u: int|
                    0 <= u < inserted.len() && placed(#[trigger] inserted[u], r.start) == result[k]
                        && edit_text(d, r, s).subrange(
                        result[k].range.start as int,
                        result[k].range.end as int,
                    ) == s.subrange(inserted[u].range.start as int, inserted[u].range.end as int)
                        && result[k].source == inserted[u].source)
            },
{
    let d2 = edit_text(d, r, s);
    let len = range_len(r);
    assert(d2.len() == d.len() - len + s.len());
    assert forall|i: int| 0 <= i < toks.len() implies shift_fits(#[trigger] toks[i], r, inserted_len) by {}
    assert forall|i: int| 0 <= i < inserted.len() implies #[trigger] inserted[i].range.start + r.start
        <= usize::MAX && inserted[i].range.end + r.start <= usize::MAX by {}
    lemma_survivors_from(toks, r, inserted_len);
    let surv = survivors(toks, r, inserted_len);
    let ins = inserted.map_values(|t: TokenView| placed(t, r.start));
    let combined = edit_tokens(toks, r, inserted_len, inserted);
    assert forall|k: int| 0 <= k < result.len() implies {
        &&& #[trigger] result[k].range.start <= result[k].range.end <= d2.len()
        &&& (exists|a: int|
            0 <= a < toks.len() && survivor(#[trigger] toks[a], r, inserted_len) == Some(result[k])
                && d2.subrange(result[k].range.start as int, result[k].range.end as int) == d.subrange(
                toks[a].range.start as int,
                toks[a].range.end as int,
            ) && result[k].source == toks[a].source) || (exists|u: int|
            0 <= u < inserted.len() && placed(#[trigger] inserted[u], r.start) == result[k]
                && d2.subrange(result[k].range.start as int, result[k].range.end as int) == s.subrange(
                inserted[u].range.start as int,
                inserted[u].range.end as int,
            ) && result[k].source == inserted[u].source)
    } by {
        let x = result[k];
        lemma_sorted_member(result, combined, k);
        let m = choose|m: int| 0 <= m < combined.len() && combined[m] == x;
        if m < surv.len() {
            assert(combined[m] == surv[m]);
            let a = choose|a: int|
                0 <= a < toks.len() && survivor(#[trigger] toks[a], r, inserted_len) == Some(surv[m]);
            let t = toks[a];
            if t.range.end <= r.start {
                assert(x == t);
                assert(d2.subrange(x.range.start as int, x.range.end as int) =~= d.subrange(
                    t.range.start as int,
                    t.range.end as int,
                ));
            } else {
                assert(t.range.start >= r.end);
                assert(x.range.start == t.range.start - len + s.len());
                assert(x.range.end == t.range.end - len + s.len());
                assert(d2.subrange(x.range.start as int, x.range.end as int) =~= d.subrange(
                    t.range.start as int,
                    t.range.end as int,
                ));
            }
        } else {
            let u = m - surv.len();
            assert(combined[m] == ins[u]);
            assert(ins[u] == placed(inserted[u], r.start));
            assert(d2.subrange(x.range.start as int, x.range.end as int) =~= s.subrange(
                inserted[u].range.start as int,
                inserted[u].range.end as int,
            ));
        }
    }
}


/// `toks` holds a token over `start..end` that stands for `source`.
pub open spec fn has_token(toks: Seq<TokenView>, start: int, end: int, source: Seq<u8>) -> bool {
    exists|k: int|
        0 <= k < toks.len() && #[trigger] toks[k].range.start == start && toks[k].range.end == end
            && toks[k].source == source
}

/// Every token that an edit lets survive is among the survivors.
proof fn lemma_survivors_contain(toks: Seq<TokenView>, r: Range<usize>, inserted_len: usize, a: int)
    requires
        0 <= a < toks.len(),
        survivor(toks[a], r, inserted_len) is Some,
    ensures
        survivors(toks, r, inserted_len).contains(survivor(toks[a], r, inserted_len)->0),
    decreases toks.len(),
{
    let d = toks.drop_last();
    let prev = survivors(d, r, inserted_len);
    let y = survivor(toks[a], r, inserted_len)->0;
    if a == toks.len() - 1 {
        assert(toks.last() == toks[a]);
        assert(survivors(toks, r, inserted_len) == prev.push(y));
        assert(prev.push(y)[prev.len() as int] == y);
    } else {
        assert(d[a] == toks[a]);
        lemma_survivors_contain(d, r, inserted_len, a);
        let k = choose|k: int| 0 <= k < prev.len() && prev[k] == y;
        match survivor(toks.last(), r, inserted_len) {
            Some(z) => {
                assert(survivors(toks, r, inserted_len) == prev.push(z));
                assert(prev.push(z)[k] == y);
            },
            None => {},
        }
    }
}

/// Every token of the input of a stable sort is in its result.
proof fn lemma_sorted_keeps(result: Seq<TokenView>, input: Seq<TokenView>, x: TokenView)
    requires
        stably_sorted(result, input),
        input.contains(x),
    ensures
        result.contains(x),
{
    let f = starts_at(x.range.start);
    let m = choose|m: int| 0 <= m < input.len() && input[m] == x;
    input.lemma_filter_contains(f, m);
    assert(result.filter(f) == input.filter(f));
    result.lemma_filter_contains_rev(f, x);
}

/// What an edit keeps: a token that ends at or before the start of the
/// edited range is in the result unchanged; a token that starts at or after
/// the end of the edited range (and does not end before its start) is in the
/// result moved by `inserted_len` minus the length of the edited range, with
/// the same source; and each inserted token is in the result moved to the
/// start of the edited range. Only tokens that overlap the edited range are
/// dropped: typing at the start of a token moves it and keeps it.
pub proof fn law_edit_keeps_untouched_tokens(
    toks: Seq<TokenView>,
    r: Range<usize>,
    inserted_len: usize,
    inserted: Seq<TokenView>,
    result: Seq<TokenView>,
)
    requires
        forall|i: int| 0 <= i < toks.len() ==> shift_fits(#[trigger] toks[i], r, inserted_len),
        forall|i: int|
            0 <= i < inserted.len() ==> #[trigger] inserted[i].range.start + r.start <= usize::MAX
                && inserted[i].range.end + r.start <= usize::MAX,
        stably_sorted(result, edit_tokens(toks, r, inserted_len, inserted)),
    ensures
        forall|a: int| 0 <= a < toks.len() && #[trigger] toks[a].range.end <= r.start ==> result.contains(toks[a]),
        forall|a: int|
            #![trigger toks[a]]
            0 <= a < toks.len() && toks[a].range.start >= r.end && toks[a].range.end > r.start
                ==> has_token(
                result,
                toks[a].range.start - range_len(r) + inserted_len,
                toks[a].range.end - range_len(r) + inserted_len,
                toks[a].source,
            ),
{
    let surv = survivors(toks, r, inserted_len);
    let ins = inserted.map_values(|t: TokenView| placed(t, r.start));
    let combined = edit_tokens(toks, r, inserted_len, inserted);
    assert(combined == surv + ins);
    assert forall|a: int| 0 <= a < toks.len() && #[trigger] toks[a].range.end <= r.start implies result.contains(
        toks[a],
    ) by {
        lemma_survivors_contain(toks, r, inserted_len, a);
        let m = choose|m: int| 0 <= m < surv.len() && surv[m] == toks[a];
        assert(combined[m] == toks[a]);
        lemma_sorted_keeps(result, combined, toks[a]);
    }
    assert forall|a: int|
        #![trigger toks[a]]
        0 <= a < toks.len() && toks[a].range.start >= r.end && toks[a].range.end > r.start implies has_token(
            result,
            toks[a].range.start - range_len(r) + inserted_len,
            toks[a].range.end - range_len(r) + inserted_len,
            toks[a].source,
        ) by {
        assert(shift_fits(toks[a], r, inserted_len));
        lemma_survivors_contain(toks, r, inserted_len, a);
        let y = survivor(toks[a], r, inserted_len)->0;
        let m = choose|m: int| 0 <= m < surv.len() && surv[m] == y;
        assert(combined[m] == y);
        lemma_sorted_keeps(result, combined, y);
        let k = choose|k: int| 0 <= k < result.len() && result[k] == y;
        assert(toks[a].range.start - range_len(r) >= 0);
        assert(y.range.start == toks[a].range.start - range_len(r) + inserted_len);
        assert(result[k].range.start == y.range.start);
        assert(result[k].range.end == y.range.end);
    }
}


/// Each inserted token is in the result of an edit, moved to the start of
/// the edited range, with its source.
pub proof fn law_edit_places_inserted_tokens(
    toks: Seq<TokenView>,
    r: Range<usize>,
    inserted_len: usize,
    inserted: Seq<TokenView>,
    result: Seq<TokenView>,
)
    requires
        forall|i: int|
            0 <= i < inserted.len() ==> #[trigger] inserted[i].range.start + r.start <= usize::MAX
                && inserted[i].range.end + r.start <= usize::MAX,
        stably_sorted(result, edit_tokens(toks, r, inserted_len, inserted)),
    ensures
        forall|u: int|
            #![trigger inserted[u]]
            0 <= u < inserted.len() ==> has_token(
                result,
                inserted[u].range.start + r.start,
                inserted[u].range.end + r.start,
                inserted[u].source,
            ),
{
    let surv = survivors(toks, r, inserted_len);
    let ins = inserted.map_values(|t: TokenView| placed(t, r.start));
    let combined = edit_tokens(toks, r, inserted_len, inserted);
    assert(combined == surv + ins);
    assert forall|u: int|
        #![trigger inserted[u]]
        0 <= u < inserted.len() implies has_token(
            result,
            inserted[u].range.start + r.start,
            inserted[u].range.end + r.start,
            inserted[u].source,
        ) by {
        let y = placed(inserted[u], r.start);
        assert(ins[u] == y);
        assert(combined[surv.len() + u] == y);
        lemma_sorted_keeps(result, combined, y);
        let k = choose|k: int| 0 <= k < result.len() && result[k] == y;
        assert(result[k].range.start == y.range.start);
        assert(result[k].range.end == y.range.end);
        assert(result[k].source == inserted[u].source);
    }
}


/// Selects the tokens that overlap the edited range `r`: those that start
/// before its end and end after its start.
pub open spec fn overlaps_edit(r: Range<usize>) -> spec_fn(TokenView) -> bool {
    |t: TokenView| t.range.start < r.end && t.range.end > r.start
}

/// Exactly the tokens that overlap the edit are lost by it.
proof fn lemma_survivors_len(toks: Seq<TokenView>, r: Range<usize>, inserted_len: usize)
    ensures
        survivors(toks, r, inserted_len).len() + toks.filter(overlaps_edit(r)).len() == toks.len(),
    decreases toks.len(),
{
    let f = overlaps_edit(r);
    if toks.len() == 0 {
        lemma_filter_none(toks, f);
    } else {
        let d = toks.drop_last();
        lemma_survivors_len(d, r, inserted_len);
        assert(toks =~= d.push(toks.last()));
        lemma_filter_push(d, toks.last(), f);
    }
}

/// Takes out of `s` the last token that starts at `k`: the tokens that
/// start at `k` lose their last one, the others stay as they were.
proof fn lemma_remove_last_at(s: Seq<TokenView>, k: usize) -> (j: int)
    requires
        s.filter(starts_at(k)).len() > 0,
    ensures
        0 <= j < s.len(),
        s[j] == s.filter(starts_at(k)).last(),
        s.remove(j).filter(starts_at(k)) == s.filter(starts_at(k)).drop_last(),
        forall|k2: usize| k2 != k ==> #[trigger] s.remove(j).filter(starts_at(k2)) == s.filter(starts_at(k2)),
    decreases s.len(),
{
    let f = starts_at(k);
    if s.len() == 0 {
        lemma_filter_none(s, f);
    }
    lemma_filter_last(s, k);
    let d = s.drop_last();
    let x = s.last();
    if x.range.start == k {
        let j = s.len() - 1;
        assert(s.remove(j) =~= d);
        assert forall|k2: usize| k2 != k implies #[trigger] s.remove(j).filter(starts_at(k2)) == s.filter(
            starts_at(k2),
        ) by {
            lemma_filter_last(s, k2);
        }
        j
    } else {
        let j = lemma_remove_last_at(d, k);
        assert(s.remove(j) =~= d.remove(j).push(x));
        lemma_filter_push(d.remove(j), x, f);
        assert forall|k2: usize| k2 != k implies #[trigger] s.remove(j).filter(starts_at(k2)) == s.filter(
            starts_at(k2),
        ) by {
            lemma_filter_last(s, k2);
            lemma_filter_push(d.remove(j), x, starts_at(k2));
            assert(d.remove(j).filter(starts_at(k2)) == d.filter(starts_at(k2)));
        }
        j
    }
}

/// Two sequences with the same tokens at every start have the same length.
proof fn lemma_same_filters_same_len(a: Seq<TokenView>, b: Seq<TokenView>)
    requires
        forall|k: usize| #[trigger] a.filter(starts_at(k)) == b.filter(starts_at(k)),
    ensures
        a.len() == b.len(),
    decreases a.len(),
{
    if a.len() == 0 {
        if b.len() > 0 {
            let f = starts_at(b[0].range.start);
            b.lemma_filter_contains(f, 0);
            lemma_filter_none(a, f);
            assert(a.filter(f) == b.filter(f));
            assert(b.filter(f).len() > 0);
        }
    } else {
        let x = a.last();
        let k = x.range.start;
        let d = a.drop_last();
        lemma_filter_last(a, k);
        assert(a.filter(starts_at(k)) == b.filter(starts_at(k)));
        let j = lemma_remove_last_at(b, k);
        let c = b.remove(j);
        assert forall|k2: usize| #[trigger] d.filter(starts_at(k2)) == c.filter(starts_at(k2)) by {
            assert(a.filter(starts_at(k2)) == b.filter(starts_at(k2)));
            lemma_filter_last(a, k2);
            if k2 == k {
                assert(d.filter(starts_at(k)) =~= a.filter(starts_at(k)).drop_last());
            }
        }
        lemma_same_filters_same_len(d, c);
    }
}

/// An edit loses exactly the tokens that overlap the edited range and gains
/// exactly the inserted ones: the number of tokens after it is the number
/// before, less those that overlap the edited range, plus the inserted.
pub proof fn law_edit_token_count(
    toks: Seq<TokenView>,
    r: Range<usize>,
    inserted_len: usize,
    inserted: Seq<TokenView>,
    result: Seq<TokenView>,
)
    requires
        stably_sorted(result, edit_tokens(toks, r, inserted_len, inserted)),
    ensures
        result.len() == toks.len() - toks.filter(overlaps_edit(r)).len() + inserted.len(),
{
    lemma_same_filters_same_len(result, edit_tokens(toks, r, inserted_len, inserted));
    lemma_survivors_len(toks, r, inserted_len);
}

} // verus!
