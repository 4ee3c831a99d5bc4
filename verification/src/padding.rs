//! Display-only spacing around code. Selection offsets always map back to
//! the source text.
use std::ops::Range;
use vstd::prelude::*;
use crate::text::{utf8, slice_ok, slice_of, push_str, byte_len};
use crate::ranges::{range_len, len_of};

verus! {

/// The characters of the padding: a four-per-em space held between two word
/// joiners, which keep the small side bearings attached to the code.
pub open spec fn pad_chars() -> Seq<char> {
    seq!['\u{2060}', '\u{2005}', '\u{2060}']
}

/// The bytes of the padding.
pub open spec fn pad_bytes() -> Seq<u8> {
    utf8(pad_chars())
}

/// The padding takes nine bytes.
pub proof fn lemma_pad_len()
    ensures
        pad_bytes().len() == 9,
{
    reveal_with_fuel(vstd::utf8::encode_utf8, 4);
    let c = pad_chars();
    assert(c.drop_first().drop_first().drop_first().len() == 0);
    assert(vstd::utf8::encode_scalar(c[0] as u32).len() == 3);
    assert(vstd::utf8::encode_scalar(c[1] as u32).len() == 3);
    assert(vstd::utf8::encode_scalar(c[2] as u32).len() == 3);
}

fn pad_str() -> (s: &'static str)
    ensures
        s@ == pad_chars(),
{
    let s = "\u{2060}\u{2005}\u{2060}";
    proof {
        reveal_strlit("\u{2060}\u{2005}\u{2060}");
        assert(s@ =~= pad_chars());
    }
    s
}

/// One insertion of padding: the source offset that it stands at, the
/// display range that it occupies, and whether it opens a code range (and
/// so belongs to the following character) or closes one (and belongs to the
/// preceding one).
pub type Insertion = (usize, Range<usize>, bool);

/// Display-only spacing. Selection offsets always map back to the source text.
pub struct CodePadding {
    insertions: Vec<Insertion>,
}

impl View for CodePadding {
    type V = Seq<Insertion>;

    closed spec fn view(&self) -> Seq<Insertion> {
        self.insertions@
    }
}

/// An insertion's padding counts before the source offset `o` when it
/// stands before `o`, or at `o` and closes a code range.
pub open spec fn counts_before(x: Insertion, o: int) -> bool {
    x.0 < o || (x.0 == o && !x.2)
}

/// The padding that the display holds before source offset `o`.
pub open spec fn padding_before(ins: Seq<Insertion>, o: int) -> int
    decreases ins.len(),
{
    if ins.len() == 0 {
        0
    } else {
        padding_before(ins.drop_last(), o) + if counts_before(ins.last(), o) {
            range_len(ins.last().1)
        } else {
            0
        }
    }
}

/// How much of insertion `x`'s display range lies before display offset `d`.
pub open spec fn overlap_before(x: Insertion, d: int) -> int {
    let past = if d > x.1.start { d - x.1.start } else { 0 };
    if past < range_len(x.1) {
        past
    } else {
        range_len(x.1)
    }
}

/// The padding that lies before display offset `d`.
pub open spec fn padding_within(ins: Seq<Insertion>, d: int) -> int
    decreases ins.len(),
{
    if ins.len() == 0 {
        0
    } else {
        padding_within(ins.drop_last(), d) + overlap_before(ins.last(), d)
    }
}

pub proof fn lemma_padding_before_prefix(ins: Seq<Insertion>, o: int, m: int)
    requires
        0 <= m <= ins.len(),
    ensures
        0 <= padding_before(ins.take(m), o) <= padding_before(ins, o),
    decreases ins.len(),
{
    if m == ins.len() {
        assert(ins.take(m) =~= ins);
        lemma_padding_before_nonneg(ins, o);
    } else {
        assert(ins.drop_last().take(m) =~= ins.take(m));
        lemma_padding_before_prefix(ins.drop_last(), o, m);
    }
}

pub proof fn lemma_padding_before_nonneg(ins: Seq<Insertion>, o: int)
    ensures
        padding_before(ins, o) >= 0,
    decreases ins.len(),
{
    if ins.len() > 0 {
        lemma_padding_before_nonneg(ins.drop_last(), o);
    }
}

pub proof fn lemma_padding_within_prefix(ins: Seq<Insertion>, d: int, m: int)
    requires
        0 <= m <= ins.len(),
    ensures
        0 <= padding_within(ins.take(m), d) <= padding_within(ins, d),
    decreases ins.len(),
{
    if m == ins.len() {
        assert(ins.take(m) =~= ins);
        lemma_padding_within_nonneg(ins, d);
    } else {
        assert(ins.drop_last().take(m) =~= ins.take(m));
        lemma_padding_within_prefix(ins.drop_last(), d, m);
    }
}

pub proof fn lemma_padding_within_nonneg(ins: Seq<Insertion>, d: int)
    ensures
        padding_within(ins, d) >= 0,
    decreases ins.len(),
{
    if ins.len() > 0 {
        lemma_padding_within_nonneg(ins.drop_last(), d);
    }
}

impl Default for CodePadding {
    fn default() -> (res: Self)
        ensures
            res@ == Seq::<Insertion>::empty(),
    {
        CodePadding { insertions: Vec::new() }
    }
}

impl Clone for CodePadding {
    fn clone(&self) -> (res: Self)
        ensures
            res@ == self@,
    {
        let mut insertions: Vec<Insertion> = Vec::new();
        let mut i: usize = 0;
        while i < self.insertions.len()
            invariant
                0 <= i <= self.insertions.len(),
                insertions@ == self.insertions@.take(i as int),
            decreases self.insertions.len() - i,
        {
            let x = &self.insertions[i];
            insertions.push((x.0, x.1.start..x.1.end, x.2));
            proof {
                assert(insertions@ =~= self.insertions@.take(i + 1));
            }
            i += 1;
        }
        proof {
            assert(insertions@ =~= self.insertions@);
        }
        CodePadding { insertions }
    }
}

impl CodePadding {
    /// The insertions, in order.
    pub fn insertions(&self) -> (res: &[Insertion])
        ensures
            res@ == self@,
    {
        self.insertions.as_slice()
    }

    /// The display offset of source offset `offset`. Closing padding belongs
    /// to the preceding character; opening padding belongs to the following
    /// one, so adjacent style ranges stay disjoint.
    pub fn display_offset(&self, offset: usize) -> (res: usize)
        requires
            offset + padding_before(self@, offset as int) <= usize::MAX,
        ensures
            res == offset + padding_before(self@, offset as int),
    {
        let ghost ins = self@;
        let mut sum: usize = 0;
        let mut i: usize = 0;
        proof {
            assert(ins.take(0) =~= Seq::<Insertion>::empty());
        }
        while i < self.insertions.len()
            invariant
                0 <= i <= self.insertions.len(),
                ins == self@,
                ins == self.insertions@,
                offset + padding_before(ins, offset as int) <= usize::MAX,
                sum == padding_before(ins.take(i as int), offset as int),
            decreases self.insertions.len() - i,
        {
            let x = &self.insertions[i];
            proof {
                assert(ins.take(i + 1).drop_last() =~= ins.take(i as int));
                assert(ins.take(i + 1).last() == *x);
                lemma_padding_before_prefix(ins, offset as int, i + 1);
            }
            if x.0 < offset || (x.0 == offset && !x.2) {
                sum = sum + len_of(&x.1);
            }
            i += 1;
        }
        proof {
            assert(ins.take(i as int) =~= ins);
        }
        offset + sum
    }

    /// The display range of source range `range`.
    pub fn display_range(&self, range: Range<usize>) -> (res: Range<usize>)
        requires
            range.start + padding_before(self@, range.start as int) <= usize::MAX,
            range.end + padding_before(self@, range.end as int) <= usize::MAX,
        ensures
            res.start == range.start + padding_before(self@, range.start as int),
            res.end == range.end + padding_before(self@, range.end as int),
    {
        self.display_offset(range.start)..self.display_offset(range.end)
    }

    /// The source offset of display offset `offset`: the padding before it
    /// is taken away, so an offset inside padding maps to where the padding
    /// stands.
    pub fn source_offset(&self, offset: usize) -> (res: usize)
        requires
            padding_within(self@, offset as int) <= offset,
        ensures
            res == offset - padding_within(self@, offset as int),
    {
        let ghost ins = self@;
        let mut sum: usize = 0;
        let mut i: usize = 0;
        proof {
            assert(ins.take(0) =~= Seq::<Insertion>::empty());
        }
        while i < self.insertions.len()
            invariant
                0 <= i <= self.insertions.len(),
                ins == self@,
                ins == self.insertions@,
                padding_within(ins, offset as int) <= offset,
                sum == padding_within(ins.take(i as int), offset as int),
            decreases self.insertions.len() - i,
        {
            let x = &self.insertions[i];
            proof {
                assert(ins.take(i + 1).drop_last() =~= ins.take(i as int));
                assert(ins.take(i + 1).last() == *x);
                lemma_padding_within_prefix(ins, offset as int, i + 1);
            }
            let past = if offset > x.1.start {
                offset - x.1.start
            } else {
                0
            };
            let len = len_of(&x.1);
            sum = sum + if past < len {
                past
            } else {
                len
            };
            i += 1;
        }
        proof {
            assert(ins.take(i as int) =~= ins);
        }
        offset - sum
    }

    /// The source range of display range `range`.
    pub fn source_range(&self, range: Range<usize>) -> (res: Range<usize>)
        requires
            padding_within(self@, range.start as int) <= range.start,
            padding_within(self@, range.end as int) <= range.end,
        ensures
            res.start == range.start - padding_within(self@, range.start as int),
            res.end == range.end - padding_within(self@, range.end as int),
    {
        self.source_offset(range.start)..self.source_offset(range.end)
    }
}

/// The padding takes `pad_len()` bytes.
pub open spec fn pad_len() -> int {
    9
}

/// A boundary of a code range: its offset, and whether the range opens
/// there. Boundaries are ordered by offset, and at one offset a closing
/// boundary comes before an opening one.
pub open spec fn boundary_lt(a: (usize, bool), b: (usize, bool)) -> bool {
    a.0 < b.0 || (a.0 == b.0 && !a.1 && b.1)
}

/// Strictly increasing boundaries (so no boundary occurs twice).
pub open spec fn strictly_sorted(bs: Seq<(usize, bool)>) -> bool {
    forall|i: int, j: int| 0 <= i < j < bs.len() ==> boundary_lt(#[trigger] bs[i], #[trigger] bs[j])
}

/// `p` opens or closes one of the non-empty ranges `fonts`.
pub open spec fn is_boundary_of(fonts: Seq<Range<usize>>, p: (usize, bool)) -> bool {
    exists|i: int|
        0 <= i < fonts.len() && #[trigger] fonts[i].start < fonts[i].end && (p == (fonts[i].start, true)
            || p == (fonts[i].end, false))
}

/// The boundaries of the non-empty ranges `fonts`.
pub open spec fn boundary_set(fonts: Seq<Range<usize>>) -> Set<(usize, bool)> {
    Set::new(|p: (usize, bool)| is_boundary_of(fonts, p))
}

/// Every non-empty range of `fonts` can be cut out of `text`.
pub open spec fn fonts_fit(text: Seq<u8>, fonts: Seq<Range<usize>>) -> bool {
    forall|i: int|
        0 <= i < fonts.len() && #[trigger] fonts[i].start < fonts[i].end ==> {
            &&& fonts[i].end <= text.len()
            &&& slice_ok(text, fonts[i].start as int, fonts[i].end as int)
        }
}

/// The boundaries at which the insertions stand, in order.
pub open spec fn boundaries_of(ins: Seq<Insertion>) -> Seq<(usize, bool)> {
    ins.map_values(|x: Insertion| (x.0, x.2))
}

/// The insertions stand at strictly increasing boundaries, and the `i`th
/// occupies the `pad_len()` display bytes that follow its source offset
/// and the `i` paddings before it.
pub open spec fn well_placed(ins: Seq<Insertion>) -> bool {
    &&& strictly_sorted(boundaries_of(ins))
    &&& forall|i: int|
        0 <= i < ins.len() ==> {
            &&& #[trigger] ins[i].1.start == ins[i].0 + pad_len() * i
            &&& ins[i].1.end == ins[i].0 + pad_len() * (i + 1)
        }
}

impl CodePadding {
    /// The padding is well placed.
    pub open spec fn wf(&self) -> bool {
        well_placed(self@)
    }
}

/// `text` with the padding inserted at each of the (increasing) boundaries.
pub open spec fn padded(text: Seq<u8>, bs: Seq<(usize, bool)>) -> Seq<u8>
    decreases bs.len(),
{
    if bs.len() == 0 {
        text
    } else {
        let at = bs.last().0 as int;
        padded(text.subrange(0, at), bs.drop_last()) + pad_bytes() + text.subrange(at, text.len() as int)
    }
}

proof fn lemma_padded_extend(t: Seq<u8>, bs: Seq<(usize, bool)>, a: int, b: int)
    requires
        0 <= a <= b <= t.len(),
        forall|i: int| 0 <= i < bs.len() ==> #[trigger] bs[i].0 <= a,
    ensures
        padded(t.subrange(0, a), bs) + t.subrange(a, b) == padded(t.subrange(0, b), bs),
{
    if bs.len() == 0 {
        assert(t.subrange(0, a) + t.subrange(a, b) =~= t.subrange(0, b));
    } else {
        let c = bs.last().0 as int;
        assert(bs[bs.len() - 1].0 <= a);
        assert(t.subrange(0, a).subrange(0, c) =~= t.subrange(0, c));
        assert(t.subrange(0, b).subrange(0, c) =~= t.subrange(0, c));
        assert(t.subrange(0, a).subrange(c, a) + t.subrange(a, b) =~= t.subrange(0, b).subrange(c, b));
        let p = padded(t.subrange(0, c), bs.drop_last());
        assert(p + pad_bytes() + t.subrange(0, a).subrange(c, a) + t.subrange(a, b) =~= p + pad_bytes() + (
        t.subrange(0, a).subrange(c, a) + t.subrange(a, b)));
    }
}

proof fn lemma_padded_push(t: Seq<u8>, bs: Seq<(usize, bool)>, x: (usize, bool))
    requires
        x.0 <= t.len(),
    ensures
        padded(t.subrange(0, x.0 as int), bs.push(x)) == padded(t.subrange(0, x.0 as int), bs) + pad_bytes(),
{
    let s = t.subrange(0, x.0 as int);
    assert(bs.push(x).drop_last() =~= bs);
    assert(s.subrange(0, x.0 as int) =~= s);
    assert(s.subrange(x.0 as int, s.len() as int) =~= Seq::<u8>::empty());
    assert(padded(s, bs) + pad_bytes() + Seq::<u8>::empty() =~= padded(s, bs) + pad_bytes());
}

/// Adds `x` to the strictly increasing boundaries `bs`, unless it is there.
fn insert_boundary(bs: &mut Vec<(usize, bool)>, x: (usize, bool))
    requires
        strictly_sorted(old(bs)@),
    ensures
        strictly_sorted(final(bs)@),
        final(bs)@.to_set() == old(bs)@.to_set().insert(x),
{
    let mut p: usize = 0;
    while p < bs.len() && (bs[p].0 < x.0 || (bs[p].0 == x.0 && !bs[p].1 && x.1))
        invariant
            0 <= p <= bs.len(),
            bs@ == old(bs)@,
            strictly_sorted(bs@),
            forall|j: int| 0 <= j < p ==> boundary_lt(#[trigger] bs@[j], x),
        decreases bs.len() - p,
    {
        p += 1;
    }
    if p < bs.len() && bs[p].0 == x.0 && bs[p].1 == x.1 {
        proof {
            assert(bs@[p as int] == x);
            assert(bs@.to_set() =~= old(bs)@.to_set().insert(x));
        }
        return;
    }
    let ghost before = bs@;
    proof {
        assert forall|j: int| p <= j < before.len() implies boundary_lt(x, #[trigger] before[j]) by {
            assert(!boundary_lt(before[p as int], x));
            assert(before[p as int] != x);
            if j > p {
                assert(boundary_lt(before[p as int], before[j]));
            }
        }
    }
    bs.insert(p, x);
    proof {
        before.insert_ensures(p as int, x);
        let after = bs@;
        assert forall|i: int, j: int| 0 <= i < j < after.len() implies boundary_lt(
            #[trigger] after[i],
            #[trigger] after[j],
        ) by {
            if j < p {
            } else if j == p {
            } else if i < p {
                assert(after[j] == before[j - 1]);
                assert(boundary_lt(before[i], x));
            } else if i == p {
                assert(after[j] == before[j - 1]);
            } else {
                assert(after[j] == before[j - 1]);
                assert(after[i] == before[i - 1]);
            }
        }
        assert forall|y: (usize, bool)| #[trigger] after.contains(y) <==> before.to_set().insert(
            x,
        ).contains(y) by {
            if after.contains(y) {
                let k = choose|k: int| 0 <= k < after.len() && after[k] == y;
                if k < p {
                    assert(before[k] == y);
                } else if k > p {
                    assert(before[k - 1] == y);
                }
            }
            if before.contains(y) {
                let k = choose|k: int| 0 <= k < before.len() && before[k] == y;
                if k < p {
                    assert(after[k] == y);
                } else {
                    assert(after[k + 1] == y);
                }
            }
            if y == x {
                assert(after[p as int] == x);
            }
        }
        assert(after.to_set() =~= before.to_set().insert(x));
    }
}

/// The boundaries of the non-empty ranges `fonts`, strictly increasing.
fn sorted_boundaries(fonts: &[Range<usize>]) -> (bs: Vec<(usize, bool)>)
    ensures
        strictly_sorted(bs@),
        bs@.to_set() == boundary_set(fonts@),
{
    let mut bs: Vec<(usize, bool)> = Vec::new();
    let mut i: usize = 0;
    proof {
        assert(bs@.to_set() =~= boundary_set(fonts@.take(0)));
    }
    while i < fonts.len()
        invariant
            0 <= i <= fonts.len(),
            strictly_sorted(bs@),
            bs@.to_set() == boundary_set(fonts@.take(i as int)),
        decreases fonts.len() - i,
    {
        let r = &fonts[i];
        let ghost prev = fonts@.take(i as int);
        let ghost next = fonts@.take(i + 1);
        proof {
            assert(next[i as int] == *r);
            assert forall|k: int| 0 <= k < i implies #[trigger] next[k] == prev[k] by {}
        }
        if r.start < r.end {
            insert_boundary(&mut bs, (r.start, true));
            insert_boundary(&mut bs, (r.end, false));
            proof {
                assert forall|y: (usize, bool)| #[trigger] boundary_set(next).contains(y) <==> boundary_set(
                    prev,
                ).insert((r.start, true)).insert((r.end, false)).contains(y) by {
                    if is_boundary_of(next, y) {
                        let k = choose|k: int|
                            0 <= k < next.len() && #[trigger] next[k].start < next[k].end && (y == (
                            next[k].start, true) || y == (next[k].end, false));
                        if k < i {
                            assert(next[k] == prev[k]);
                            assert(is_boundary_of(prev, y));
                        }
                    }
                    if is_boundary_of(prev, y) {
                        let k = choose|k: int|
                            0 <= k < prev.len() && #[trigger] prev[k].start < prev[k].end && (y == (
                            prev[k].start, true) || y == (prev[k].end, false));
                        assert(next[k] == prev[k]);
                    }
                    if y == (r.start, true) || y == (r.end, false) {
                        assert(next[i as int] == *r);
                    }
                }
                assert(boundary_set(next) =~= boundary_set(prev).insert((r.start, true)).insert(
                    (r.end, false),
                ));
            }
        } else {
            proof {
                assert forall|y: (usize, bool)| #[trigger] boundary_set(next).contains(y) <==> boundary_set(
                    prev,
                ).contains(y) by {
                    if is_boundary_of(next, y) {
                        let k = choose|k: int|
                            0 <= k < next.len() && #[trigger] next[k].start < next[k].end && (y == (
                            next[k].start, true) || y == (next[k].end, false));
                        assert(k != i);
                        assert(next[k] == prev[k]);
                    }
                    if is_boundary_of(prev, y) {
                        let k = choose|k: int|
                            0 <= k < prev.len() && #[trigger] prev[k].start < prev[k].end && (y == (
                            prev[k].start, true) || y == (prev[k].end, false));
                        assert(next[k] == prev[k]);
                    }
                }
                assert(boundary_set(next) =~= boundary_set(prev));
            }
        }
        i += 1;
    }
    proof {
        assert(fonts@.take(fonts.len() as int) =~= fonts@);
    }
    bs
}

impl CodePadding {
    /// Pads `text` at every boundary of the non-empty code ranges `fonts`
    /// (once per distinct boundary, in order, a closing boundary before an
    /// opening one at the same offset), and records where each padding went.
    pub fn new(text: &str, fonts: &[Range<usize>]) -> (res: (String, CodePadding))
        requires
            fonts_fit(utf8(text@), fonts@),
            utf8(text@).len() + pad_len() * boundary_set(fonts@).len() <= usize::MAX,
        ensures
            res.1.wf(),
            boundaries_of(res.1@).to_set() == boundary_set(fonts@),
            res.1@.len() == boundary_set(fonts@).len(),
            utf8(res.0@) == padded(utf8(text@), boundaries_of(res.1@)),
    {
        let ghost tb = utf8(text@);
        let bs = sorted_boundaries(fonts);
        let ghost bv = bs@;
        proof {
            crate::text::lemma_utf8_valid(text@);
            lemma_pad_len();
            assert(bv.no_duplicates()) by {
                assert forall|i: int, j: int|
                    (0 <= i < bv.len() && 0 <= j < bv.len() && i != j) implies bv[i] != bv[j] by {
                    if i < j {
                        assert(boundary_lt(bv[i], bv[j]));
                    } else {
                        assert(boundary_lt(bv[j], bv[i]));
                    }
                }
            }
            bv.unique_seq_to_set();
            assert forall|j: int| 0 <= j < bv.len() implies #[trigger] bv[j].0 <= tb.len()
                && vstd::utf8::is_char_boundary(tb, bv[j].0 as int) by {
                assert(bv.to_set().contains(bv[j]));
                assert(is_boundary_of(fonts@, bv[j]));
                let k = choose|k: int|
                    0 <= k < fonts@.len() && #[trigger] fonts@[k].start < fonts@[k].end && (bv[j] == (
                    fonts@[k].start, true) || bv[j] == (fonts@[k].end, false));
                assert(fonts@[k].start < fonts@[k].end);
            }
        }
        let text_len = byte_len(text);
        let pad = pad_str();
        let mut display = String::new();
        let mut insertions: Vec<Insertion> = Vec::new();
        let mut previous: usize = 0;
        let mut i: usize = 0;
        proof {
            assert(tb.subrange(0, 0) =~= Seq::<u8>::empty());
            assert(bv.take(0) =~= Seq::<(usize, bool)>::empty());
            assert(utf8(display@) =~= Seq::<u8>::empty());
            vstd::utf8::is_char_boundary_start_end_of_seq(tb);
        }
        while i < bs.len()
            invariant
                0 <= i <= bs.len(),
                bv == bs@,
                tb == utf8(text@),
                text_len == tb.len(),
                pad@ == pad_chars(),
                pad_bytes().len() == pad_len(),
                vstd::utf8::valid_utf8(tb),
                strictly_sorted(bv),
                tb.len() + pad_len() * bv.len() <= usize::MAX,
                forall|j: int| 0 <= j < bv.len() ==> #[trigger] bv[j].0 <= tb.len()
                    && vstd::utf8::is_char_boundary(tb, bv[j].0 as int),
                previous <= tb.len(),
                vstd::utf8::is_char_boundary(tb, previous as int),
                i > 0 ==> previous == bv[i - 1].0,
                i == 0 ==> previous == 0,
                utf8(display@) == padded(tb.subrange(0, previous as int), bv.take(i as int)),
                utf8(display@).len() == previous + pad_len() * i,
                insertions@.len() == i,
                forall|j: int|
                    0 <= j < i ==> #[trigger] insertions@[j] == (
                        bv[j].0,
                        Range {
                            start: (bv[j].0 + pad_len() * j) as usize,
                            end: (bv[j].0 + pad_len() * (j + 1)) as usize,
                        },
                        bv[j].1,
                    ),
            decreases bs.len() - i,
        {
            let (boundary, opening) = bs[i];
            proof {
                if i > 0 {
                    assert(boundary_lt(bv[i - 1], bv[i as int]));
                }
                assert(bv[i as int].0 <= tb.len());
                assert forall|j: int| 0 <= j < bv.take(i as int).len() implies #[trigger] bv.take(
                    i as int,
                )[j].0 <= previous by {
                    if j < i - 1 {
                        assert(boundary_lt(bv[j], bv[i - 1]));
                    }
                }
                lemma_padded_extend(tb, bv.take(i as int), previous as int, boundary as int);
                lemma_padded_push(tb, bv.take(i as int), (boundary, opening));
                assert(bv.take(i + 1) =~= bv.take(i as int).push((boundary, opening)));
                assert(boundary + pad_len() * (i + 1) <= tb.len() + pad_len() * bv.len())
                    by (nonlinear_arith)
                    requires
                        boundary <= tb.len(),
                        i + 1 <= bv.len(),
                ;
                assert(pad_len() * (i + 1) == pad_len() * i + pad_len());
            }
            let gap = slice_of(text, previous, boundary);
            push_str(&mut display, gap);
            let start = byte_len(display.as_str());
            push_str(&mut display, pad);
            let end = byte_len(display.as_str());
            insertions.push((boundary, start..end, opening));
            previous = boundary;
            i += 1;
        }
        proof {
            assert(bv.take(bv.len() as int) =~= bv);
            assert forall|j: int| 0 <= j < bv.len() implies #[trigger] bv[j].0 <= previous by {
                if j < bv.len() - 1 {
                    assert(boundary_lt(bv[j], bv[bv.len() - 1]));
                }
            }
            lemma_padded_extend(tb, bv, previous as int, tb.len() as int);
            assert(tb.subrange(0, tb.len() as int) =~= tb);
            assert(boundaries_of(insertions@) =~= bv);
            assert(insertions@.len() == bv.len());
        }
        let rest = slice_of(text, previous, text_len);
        push_str(&mut display, rest);
        (display, CodePadding { insertions })
    }
}

/// The number of insertions whose padding counts before source offset `o`.
pub open spec fn count_before(ins: Seq<Insertion>, o: int) -> int
    decreases ins.len(),
{
    if ins.len() == 0 {
        0
    } else {
        count_before(ins.drop_last(), o) + if counts_before(ins.last(), o) {
            1int
        } else {
            0
        }
    }
}

proof fn lemma_well_placed_drop_last(ins: Seq<Insertion>)
    requires
        well_placed(ins),
        ins.len() > 0,
    ensures
        well_placed(ins.drop_last()),
{
    let d = ins.drop_last();
    assert(boundaries_of(d) =~= boundaries_of(ins).drop_last());
    assert forall|i: int, j: int| 0 <= i < j < boundaries_of(d).len() implies boundary_lt(
        #[trigger] boundaries_of(d)[i],
        #[trigger] boundaries_of(d)[j],
    ) by {
        assert(boundaries_of(d)[i] == boundaries_of(ins)[i]);
        assert(boundaries_of(d)[j] == boundaries_of(ins)[j]);
    }
    assert forall|i: int| 0 <= i < d.len() implies {
        &&& #[trigger] d[i].1.start == d[i].0 + pad_len() * i
        &&& d[i].1.end == d[i].0 + pad_len() * (i + 1)
    } by {
        assert(d[i] == ins[i]);
    }
}

/// In well-placed insertions the ones that count before `o` come first;
/// each contributes one padding.
proof fn lemma_count_before(ins: Seq<Insertion>, o: int)
    requires
        well_placed(ins),
    ensures
        0 <= count_before(ins, o) <= ins.len(),
        forall|i: int|
            0 <= i < ins.len() ==> (counts_before(#[trigger] ins[i], o) <==> i < count_before(ins, o)),
        padding_before(ins, o) == pad_len() * count_before(ins, o),
    decreases ins.len(),
{
    if ins.len() > 0 {
        let d = ins.drop_last();
        let n = ins.len() - 1;
        lemma_well_placed_drop_last(ins);
        lemma_count_before(d, o);
        assert(ins.last() == ins[n]);
        assert(range_len(ins[n].1) == pad_len());
        assert forall|i: int| 0 <= i < n implies #[trigger] d[i] == ins[i] by {}
        if counts_before(ins[n], o) && n > 0 {
            assert(boundary_lt(boundaries_of(ins)[n - 1], boundaries_of(ins)[n]));
            assert(counts_before(d[n - 1], o));
        }
        assert forall|i: int| 0 <= i < ins.len() implies (counts_before(#[trigger] ins[i], o) <==> i
            < count_before(ins, o)) by {
            if i < n {
                assert(ins[i] == d[i]);
                assert(boundary_lt(boundaries_of(ins)[i], boundaries_of(ins)[n]));
            }
        }
        assert(pad_len() * count_before(ins, o) == pad_len() * count_before(d, o) + if counts_before(
            ins.last(),
            o,
        ) {
            pad_len()
        } else {
            0
        });
    }
}

/// When the first `k` paddings lie wholly before display offset `d` and the
/// rest wholly after it, the padding before `d` is `k` paddings.
proof fn lemma_within_split(ins: Seq<Insertion>, d: int, k: int)
    requires
        well_placed(ins),
        0 <= k <= ins.len(),
        forall|j: int| 0 <= j < k ==> #[trigger] ins[j].1.end <= d,
        forall|j: int| k <= j < ins.len() ==> #[trigger] ins[j].1.start >= d,
    ensures
        padding_within(ins, d) == pad_len() * k,
    decreases ins.len(),
{
    if ins.len() > 0 {
        let n = ins.len() - 1;
        let dl = ins.drop_last();
        lemma_well_placed_drop_last(ins);
        assert(ins.last() == ins[n]);
        assert(range_len(ins[n].1) == pad_len());
        assert forall|j: int| 0 <= j < dl.len() implies #[trigger] dl[j] == ins[j] by {}
        if k == ins.len() {
            assert(ins[n].1.end <= d);
            lemma_within_split(dl, d, n);
        } else {
            assert(ins[n].1.start >= d);
            lemma_within_split(dl, d, k);
        }
    }
}

/// Selection offsets map back to the source text: the source offset of
/// the display offset of any source offset is that offset.
pub proof fn law_source_of_display(p: CodePadding, o: usize)
    requires
        p.wf(),
    ensures
        padding_within(p@, o + padding_before(p@, o as int)) == padding_before(p@, o as int),
{
    lemma_source_of_display(p@, o as int);
}

proof fn lemma_source_of_display(ins: Seq<Insertion>, o: int)
    requires
        well_placed(ins),
    ensures
        padding_within(ins, o + padding_before(ins, o)) == padding_before(ins, o),
{
    lemma_count_before(ins, o);
    let k = count_before(ins, o);
    assert forall|j: int| 0 <= j < k implies #[trigger] ins[j].1.end <= o + pad_len() * k by {
        assert(ins[j].1.start == ins[j].0 + pad_len() * j);
        assert(counts_before(ins[j], o));
        assert(pad_len() * (j + 1) <= pad_len() * k) by (nonlinear_arith)
            requires
                j + 1 <= k,
        ;
    }
    assert forall|j: int| k <= j < ins.len() implies #[trigger] ins[j].1.start >= o + pad_len() * k by {
        assert(!counts_before(ins[j], o));
        assert(pad_len() * j >= pad_len() * k) by (nonlinear_arith)
            requires
                j >= k,
        ;
    }
    lemma_within_split(ins, o + pad_len() * k, k);
}

/// Padding is display-only: each padding's display range maps to an empty
/// source range at the offset where it stands.
pub proof fn law_padding_has_no_source(p: CodePadding, i: int)
    requires
        p.wf(),
        0 <= i < p@.len(),
    ensures
        p@[i].1.start - padding_within(p@, p@[i].1.start as int) == p@[i].0,
        p@[i].1.end - padding_within(p@, p@[i].1.end as int) == p@[i].0,
{
    let ins = p@;
    let bs = boundaries_of(ins);
    assert(ins[i].1.start == ins[i].0 + pad_len() * i);
    assert forall|j: int| 0 <= j < i implies #[trigger] ins[j].1.end <= ins[i].1.start by {
        assert(ins[j].1.start == ins[j].0 + pad_len() * j);
        assert(boundary_lt(bs[j], bs[i]));
        assert(pad_len() * (j + 1) <= pad_len() * i) by (nonlinear_arith)
            requires
                j + 1 <= i,
        ;
    }
    assert forall|j: int| i <= j < ins.len() implies #[trigger] ins[j].1.start >= ins[i].1.start by {
        if j > i {
            assert(boundary_lt(bs[i], bs[j]));
        }
        assert(pad_len() * j >= pad_len() * i) by (nonlinear_arith)
            requires
                j >= i,
        ;
    }
    lemma_within_split(ins, ins[i].1.start as int, i);
    assert forall|j: int| 0 <= j < i + 1 implies #[trigger] ins[j].1.end <= ins[i].1.end by {
        assert(ins[j].1.start == ins[j].0 + pad_len() * j);
        if j < i {
            assert(boundary_lt(bs[j], bs[i]));
        }
        assert(pad_len() * (j + 1) <= pad_len() * (i + 1)) by (nonlinear_arith)
            requires
                j <= i,
        ;
    }
    assert forall|j: int| i + 1 <= j < ins.len() implies #[trigger] ins[j].1.start >= ins[i].1.end by {
        assert(boundary_lt(bs[i], bs[j]));
        assert(pad_len() * j >= pad_len() * (i + 1)) by (nonlinear_arith)
            requires
                j >= i + 1,
        ;
    }
    lemma_within_split(ins, ins[i].1.end as int, i + 1);
}

/// Display offsets keep the order of source offsets, so ranges that do not
/// overlap in the source do not overlap on display.
pub proof fn law_display_offset_monotone(p: CodePadding, o1: usize, o2: usize)
    requires
        o1 <= o2,
    ensures
        o1 + padding_before(p@, o1 as int) <= o2 + padding_before(p@, o2 as int),
{
    lemma_padding_before_monotone(p@, o1 as int, o2 as int);
}

proof fn lemma_padding_before_monotone(ins: Seq<Insertion>, o1: int, o2: int)
    requires
        o1 <= o2,
    ensures
        padding_before(ins, o1) <= padding_before(ins, o2),
    decreases ins.len(),
{
    if ins.len() > 0 {
        lemma_padding_before_monotone(ins.drop_last(), o1, o2);
    }
}

proof fn lemma_padded_len(t: Seq<u8>, bs: Seq<(usize, bool)>)
    requires
        forall|j: int| 0 <= j < bs.len() ==> #[trigger] bs[j].0 <= t.len(),
        forall|i: int, j: int| 0 <= i < j < bs.len() ==> boundary_lt(#[trigger] bs[i], #[trigger] bs[j]),
    ensures
        padded(t, bs).len() == t.len() + pad_len() * bs.len(),
    decreases bs.len(),
{
    lemma_pad_len();
    if bs.len() > 0 {
        let c = bs.last().0 as int;
        let s = t.subrange(0, c);
        assert forall|j: int| 0 <= j < bs.drop_last().len() implies #[trigger] bs.drop_last()[j].0 <= s.len() by {
            assert(boundary_lt(bs[j], bs[bs.len() - 1]));
        }
        assert forall|i: int, j: int| 0 <= i < j < bs.drop_last().len() implies boundary_lt(
            #[trigger] bs.drop_last()[i],
            #[trigger] bs.drop_last()[j],
        ) by {
            assert(boundary_lt(bs[i], bs[j]));
        }
        lemma_padded_len(s, bs.drop_last());
        assert(pad_len() * bs.len() == pad_len() * bs.drop_last().len() + pad_len());
    }
}

/// The whole display maps to the whole source: the display offset of the
/// end of the text is the end of the padded text, and back.
pub proof fn law_whole_text_round_trip(text: Seq<u8>, fonts: Seq<Range<usize>>, p: CodePadding)
    requires
        fonts_fit(text, fonts),
        p.wf(),
        boundaries_of(p@).to_set() == boundary_set(fonts),
    ensures
        text.len() + padding_before(p@, text.len() as int) == padded(text, boundaries_of(p@)).len(),
        padded(text, boundaries_of(p@)).len() - padding_within(
            p@,
            padded(text, boundaries_of(p@)).len() as int,
        ) == text.len(),
{
    let ins = p@;
    let bs = boundaries_of(ins);
    assert forall|j: int| 0 <= j < bs.len() implies #[trigger] bs[j].0 <= text.len() && counts_before(
        ins[j],
        text.len() as int,
    ) by {
        assert(bs.to_set().contains(bs[j]));
        assert(is_boundary_of(fonts, bs[j]));
        let k = choose|k: int|
            0 <= k < fonts.len() && #[trigger] fonts[k].start < fonts[k].end && (bs[j] == (
            fonts[k].start, true) || bs[j] == (fonts[k].end, false));
        assert(fonts[k].start < fonts[k].end);
    }
    lemma_count_before(ins, text.len() as int);
    if count_before(ins, text.len() as int) < ins.len() {
        let j = count_before(ins, text.len() as int);
        assert(bs[j].0 <= text.len());
        assert(!counts_before(ins[j], text.len() as int));
    }
    lemma_padded_len(text, bs);
    lemma_source_of_display(ins, text.len() as int);
}

impl CodePadding {
    /// The display range of source range `range`, or `None` where an end's
    /// display offset does not fit in `usize`.
    pub fn checked_display_range(&self, range: Range<usize>) -> (res: Option<Range<usize>>)
        ensures
            match res {
                Some(r) => {
                    &&& range.start + padding_before(self@, range.start as int) <= usize::MAX
                    &&& range.end + padding_before(self@, range.end as int) <= usize::MAX
                    &&& r.start == range.start + padding_before(self@, range.start as int)
                    &&& r.end == range.end + padding_before(self@, range.end as int)
                },
                None => range.start + padding_before(self@, range.start as int) > usize::MAX
                    || range.end + padding_before(self@, range.end as int) > usize::MAX,
            },
    {
        match (self.checked_display_offset(range.start), self.checked_display_offset(range.end)) {
            (Some(start), Some(end)) => Some(start..end),
            _ => None,
        }
    }

    fn checked_display_offset(&self, offset: usize) -> (res: Option<usize>)
        ensures
            match res {
                Some(d) => offset + padding_before(self@, offset as int) <= usize::MAX && d == offset
                    + padding_before(self@, offset as int),
                None => offset + padding_before(self@, offset as int) > usize::MAX,
            },
    {
        let ghost ins = self@;
        let mut sum: usize = 0;
        let mut i: usize = 0;
        proof {
            assert(ins.take(0) =~= Seq::<Insertion>::empty());
        }
        while i < self.insertions.len()
            invariant
                0 <= i <= self.insertions.len(),
                ins == self@,
                ins == self.insertions@,
                sum == padding_before(ins.take(i as int), offset as int),
            decreases self.insertions.len() - i,
        {
            let x = &self.insertions[i];
            proof {
                assert(ins.take(i + 1).drop_last() =~= ins.take(i as int));
                assert(ins.take(i + 1).last() == *x);
                lemma_padding_before_prefix(ins, offset as int, i + 1);
            }
            if x.0 < offset || (x.0 == offset && !x.2) {
                let len = len_of(&x.1);
                if len > usize::MAX - sum {
                    return None;
                }
                sum = sum + len;
            }
            i += 1;
        }
        proof {
            assert(ins.take(i as int) =~= ins);
        }
        if sum > usize::MAX - offset {
            return None;
        }
        Some(offset + sum)
    }

    /// The source range of display range `range`, or `None` where more
    /// padding would be taken away than lies before an end.
    pub fn checked_source_range(&self, range: Range<usize>) -> (res: Option<Range<usize>>)
        ensures
            self.wf() ==> res is Some,
            match res {
                Some(r) => {
                    &&& padding_within(self@, range.start as int) <= range.start
                    &&& padding_within(self@, range.end as int) <= range.end
                    &&& r.start == range.start - padding_within(self@, range.start as int)
                    &&& r.end == range.end - padding_within(self@, range.end as int)
                },
                None => padding_within(self@, range.start as int) > range.start || padding_within(
                    self@,
                    range.end as int,
                ) > range.end,
            },
    {
        proof {
            if self.wf() {
                lemma_padding_within_bounded(self@, range.start as int);
                lemma_padding_within_bounded(self@, range.end as int);
            }
        }
        match (self.checked_source_offset(range.start), self.checked_source_offset(range.end)) {
            (Some(start), Some(end)) => Some(start..end),
            _ => None,
        }
    }

    fn checked_source_offset(&self, offset: usize) -> (res: Option<usize>)
        ensures
            match res {
                Some(s) => padding_within(self@, offset as int) <= offset && s == offset
                    - padding_within(self@, offset as int),
                None => padding_within(self@, offset as int) > offset,
            },
    {
        let ghost ins = self@;
        let mut sum: usize = 0;
        let mut i: usize = 0;
        proof {
            assert(ins.take(0) =~= Seq::<Insertion>::empty());
        }
        while i < self.insertions.len()
            invariant
                0 <= i <= self.insertions.len(),
                ins == self@,
                ins == self.insertions@,
                sum == padding_within(ins.take(i as int), offset as int),
                sum <= offset,
            decreases self.insertions.len() - i,
        {
            let x = &self.insertions[i];
            proof {
                assert(ins.take(i + 1).drop_last() =~= ins.take(i as int));
                assert(ins.take(i + 1).last() == *x);
                lemma_padding_within_prefix(ins, offset as int, i + 1);
            }
            let past = if offset > x.1.start {
                offset - x.1.start
            } else {
                0
            };
            let len = len_of(&x.1);
            let part = if past < len {
                past
            } else {
                len
            };
            if part > offset - sum {
                return None;
            }
            sum = sum + part;
            i += 1;
        }
        proof {
            assert(ins.take(i as int) =~= ins);
        }
        Some(offset - sum)
    }
}

impl CodePadding {
    /// [`CodePadding::new`], or `None` where it cannot be made: a non-empty
    /// code range does not fall on character boundaries of `text`, or the
    /// padded text would not fit in `usize`.
    pub fn try_new(text: &str, fonts: &[Range<usize>]) -> (res: Option<(String, CodePadding)>)
        requires
            utf8(text@).len() <= usize::MAX,
        ensures
            res is Some <==> (fonts_fit(utf8(text@), fonts@) && utf8(text@).len() + pad_len()
                * boundary_set(fonts@).len() <= usize::MAX),
            res matches Some(r) ==> {
                &&& r.1.wf()
                &&& boundaries_of(r.1@).to_set() == boundary_set(fonts@)
                &&& utf8(r.0@) == padded(utf8(text@), boundaries_of(r.1@))
            },
    {
        let mut i: usize = 0;
        while i < fonts.len()
            invariant
                0 <= i <= fonts.len(),
                forall|j: int|
                    0 <= j < i && #[trigger] fonts@[j].start < fonts@[j].end ==> {
                        &&& fonts@[j].end <= utf8(text@).len()
                        &&& slice_ok(utf8(text@), fonts@[j].start as int, fonts@[j].end as int)
                    },
            decreases fonts.len() - i,
        {
            let r = &fonts[i];
            if r.start < r.end {
                if !(text.is_char_boundary(r.end) && text.is_char_boundary(r.start)) {
                    proof {
                        assert(fonts@[i as int] == *r);
                    }
                    return None;
                }
                proof {
                    assert(fonts@[i as int] == *r);
                    crate::text::lemma_utf8_valid(text@);
                    assert(r.end <= utf8(text@).len());
                }
            }
            i += 1;
        }
        proof {
            assert(fonts_fit(utf8(text@), fonts@));
        }
        let bs = sorted_boundaries(fonts);
        proof {
            assert(bs@.no_duplicates()) by {
                assert forall|i: int, j: int|
                    (0 <= i < bs@.len() && 0 <= j < bs@.len() && i != j) implies bs@[i] != bs@[j] by {
                    if i < j {
                        assert(boundary_lt(bs@[i], bs@[j]));
                    } else {
                        assert(boundary_lt(bs@[j], bs@[i]));
                    }
                }
            }
            bs@.unique_seq_to_set();
            crate::text::lemma_utf8_valid(text@);
        }
        let text_len = byte_len(text);
        if bs.len() > (usize::MAX - text_len) / 9 {
            proof {
                assert(9 * bs.len() > usize::MAX - text_len) by (nonlinear_arith)
                    requires
                        bs.len() > (usize::MAX - text_len) / 9,
                ;
            }
            return None;
        }
        proof {
            assert(9 * bs.len() <= usize::MAX - text_len) by (nonlinear_arith)
                requires
                    bs.len() <= (usize::MAX - text_len) / 9,
            ;
        }
        Some(CodePadding::new(text, fonts))
    }
}

proof fn lemma_padding_within_bounded(ins: Seq<Insertion>, d: int)
    requires
        well_placed(ins),
        d >= 0,
    ensures
        padding_within(ins, d) <= d,
        ins.len() > 0 ==> padding_within(ins, d) <= ins.last().1.end,
    decreases ins.len(),
{
    if ins.len() > 0 {
        let n = ins.len() - 1;
        let dl = ins.drop_last();
        lemma_well_placed_drop_last(ins);
        lemma_padding_within_bounded(dl, d);
        assert(ins.last() == ins[n]);
        assert(ins[n].1.start == ins[n].0 + pad_len() * n);
        assert(range_len(ins[n].1) == pad_len());
        if n > 0 {
            assert(dl.last() == ins[n - 1]);
            assert(ins[n - 1].1.start == ins[n - 1].0 + pad_len() * (n - 1));
            assert(boundary_lt(boundaries_of(ins)[n - 1], boundaries_of(ins)[n]));
            assert(pad_len() * n == pad_len() * (n - 1) + pad_len());
        }
    }
}

/// Padding never takes more than is there: for a well-placed padding the
/// padding before any display offset is at most that offset, so
/// `source_offset` and `source_range` accept every display offset.
pub proof fn law_padding_within_fits(p: CodePadding, d: usize)
    requires
        p.wf(),
    ensures
        padding_within(p@, d as int) <= d,
{
    lemma_padding_within_bounded(p@, d as int);
}

proof fn lemma_padding_before_bounded(ins: Seq<Insertion>, o: int)
    requires
        well_placed(ins),
    ensures
        padding_before(ins, o) <= pad_len() * ins.len(),
{
    lemma_count_before(ins, o);
    let k = count_before(ins, o);
    assert(pad_len() * k <= pad_len() * ins.len()) by (nonlinear_arith)
        requires
            k <= ins.len(),
    ;
}

/// Offsets round trip in executable terms: for a well-placed padding and a
/// source offset that leaves room for all its padding (every offset up to
/// the text's length does, for a padding made by `new`), `display_offset`
/// accepts the offset, `source_offset` accepts the result, and gives the
/// offset back.
pub proof fn law_offset_round_trip(p: CodePadding, o: usize)
    requires
        p.wf(),
        o + pad_len() * p@.len() <= usize::MAX,
    ensures
        o + padding_before(p@, o as int) <= usize::MAX,
        padding_within(p@, o + padding_before(p@, o as int)) <= o + padding_before(p@, o as int),
        (o + padding_before(p@, o as int)) - padding_within(p@, o + padding_before(p@, o as int))
            == o,
{
    lemma_padding_before_bounded(p@, o as int);
    lemma_source_of_display(p@, o as int);
    lemma_padding_before_nonneg(p@, o as int);
}

/// Ranges round trip: `source_range(display_range(r)) == r` whenever both
/// ends of `r` leave room for all the padding.
pub proof fn law_range_round_trip(p: CodePadding, r: Range<usize>)
    requires
        p.wf(),
        r.start + pad_len() * p@.len() <= usize::MAX,
        r.end + pad_len() * p@.len() <= usize::MAX,
    ensures
        r.start + padding_before(p@, r.start as int) <= usize::MAX,
        r.end + padding_before(p@, r.end as int) <= usize::MAX,
        (r.start + padding_before(p@, r.start as int)) - padding_within(
            p@,
            r.start + padding_before(p@, r.start as int),
        ) == r.start,
        (r.end + padding_before(p@, r.end as int)) - padding_within(
            p@,
            r.end + padding_before(p@, r.end as int),
        ) == r.end,
{
    law_offset_round_trip(p, r.start);
    law_offset_round_trip(p, r.end);
}

/// A display range is at least as long as its source range, adjacent
/// source ranges map to adjacent display ranges, and a non-empty source
/// range has a non-empty display range.
pub proof fn law_display_range_covers_source(p: CodePadding, a: usize, b: usize)
    requires
        a <= b,
    ensures
        (b + padding_before(p@, b as int)) - (a + padding_before(p@, a as int)) >= b - a,
        a < b ==> a + padding_before(p@, a as int) < b + padding_before(p@, b as int),
{
    lemma_padding_before_monotone(p@, a as int, b as int);
}

proof fn lemma_no_padding(ins: Seq<Insertion>, o: int)
    requires
        ins.len() == 0,
    ensures
        padding_before(ins, o) == 0,
        padding_within(ins, o) == 0,
{
}

/// The empty padding changes nothing: every display and source offset is
/// the offset itself.
pub proof fn law_empty_padding(p: CodePadding, o: usize)
    requires
        p@.len() == 0,
    ensures
        o + padding_before(p@, o as int) == o,
        o - padding_within(p@, o as int) == o,
{
    lemma_no_padding(p@, o as int);
}

/// Padding for code ranges that are all empty is empty, and the padded text
/// is the text itself.
pub proof fn law_no_code_no_padding(text: Seq<u8>, fonts: Seq<Range<usize>>, p: CodePadding)
    requires
        forall|i: int| 0 <= i < fonts.len() ==> #[trigger] fonts[i].start >= fonts[i].end,
        boundaries_of(p@).to_set() == boundary_set(fonts),
    ensures
        p@.len() == 0,
        padded(text, boundaries_of(p@)) == text,
{
    let bs = boundaries_of(p@);
    if p@.len() > 0 {
        assert(bs.to_set().contains(bs[0]));
        assert(is_boundary_of(fonts, bs[0]));
        let k = choose|k: int|
            0 <= k < fonts.len() && #[trigger] fonts[k].start < fonts[k].end && (bs[0] == (
            fonts[k].start, true) || bs[0] == (fonts[k].end, false));
        assert(fonts[k].start >= fonts[k].end);
    }
    assert(bs.len() == 0);
}

/// A code range's display range holds both of its paddings: for a padding
/// made from code ranges `fonts`, the display offset of a code range's start
/// is at or before the display start of the padding that opens it, and the
/// display offset of its end is at or after the display end of the padding
/// that closes it.
pub proof fn law_code_range_holds_its_padding(fonts: Seq<Range<usize>>, p: CodePadding, i: int)
    requires
        p.wf(),
        boundaries_of(p@).to_set() == boundary_set(fonts),
        0 <= i < fonts.len(),
        fonts[i].start < fonts[i].end,
    ensures
        exists|q: int|
            0 <= q < p@.len() && #[trigger] p@[q].0 == fonts[i].start && p@[q].2 && fonts[i].start
                + padding_before(p@, fonts[i].start as int) <= p@[q].1.start,
        exists|q: int|
            0 <= q < p@.len() && #[trigger] p@[q].0 == fonts[i].end && !p@[q].2 && p@[q].1.end
                <= fonts[i].end + padding_before(p@, fonts[i].end as int),
{
    let ins = p@;
    let bs = boundaries_of(ins);
    let a = fonts[i].start;
    let b = fonts[i].end;
    assert(is_boundary_of(fonts, (a, true)));
    assert(boundary_set(fonts).contains((a, true)));
    assert(bs.to_set().contains((a, true)));
    let q = choose|q: int| 0 <= q < bs.len() && bs[q] == (a, true);
    assert(is_boundary_of(fonts, (b, false)));
    assert(boundary_set(fonts).contains((b, false)));
    assert(bs.to_set().contains((b, false)));
    let q2 = choose|q: int| 0 <= q < bs.len() && bs[q] == (b, false);
    lemma_count_before(ins, a as int);
    lemma_count_before(ins, b as int);
    assert(ins[q].1.start == ins[q].0 + pad_len() * q);
    assert(ins[q2].1.start == ins[q2].0 + pad_len() * q2);
    assert(!counts_before(ins[q], a as int));
    assert(counts_before(ins[q2], b as int));
    let k = count_before(ins, a as int);
    let k2 = count_before(ins, b as int);
    assert(pad_len() * k <= pad_len() * q) by (nonlinear_arith)
        requires
            k <= q,
    ;
    assert(pad_len() * (q2 + 1) <= pad_len() * k2) by (nonlinear_arith)
        requires
            q2 < k2,
    ;
}

} // verus!
