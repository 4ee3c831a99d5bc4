//! Splitting shaped text runs at code-font boundaries, and laying out
//! highlight runs, without changing UTF-8 byte offsets.
use std::ops::Range;
use vstd::prelude::*;
use crate::ranges::{range_len, len_of};

verus! {

/// `r` holds offset `x` (`Range::contains`).
pub open spec fn holds(r: Range<usize>, x: int) -> bool {
    r.start <= x < r.end
}

/// The index of the first of `ranges` that holds `x`.
pub open spec fn first_holding(ranges: Seq<Range<usize>>, x: int) -> Option<usize>
    decreases ranges.len(),
{
    if ranges.len() == 0 {
        None
    } else {
        match first_holding(ranges.drop_last(), x) {
            Some(i) => Some(i),
            None => if holds(ranges.last(), x) {
                Some((ranges.len() - 1) as usize)
            } else {
                None
            },
        }
    }
}

/// `first_holding` is the least index of a range that holds `x`.
pub proof fn lemma_first_holding(ranges: Seq<Range<usize>>, x: int)
    requires
        ranges.len() <= usize::MAX,
    ensures
        match first_holding(ranges, x) {
            Some(i) => i < ranges.len() && holds(ranges[i as int], x) && forall|j: int|
                0 <= j < i ==> !holds(#[trigger] ranges[j], x),
            None => forall|j: int| 0 <= j < ranges.len() ==> !holds(#[trigger] ranges[j], x),
        },
    decreases ranges.len(),
{
    if ranges.len() > 0 {
        let d = ranges.drop_last();
        lemma_first_holding(d, x);
        assert forall|j: int| 0 <= j < d.len() implies #[trigger] d[j] == ranges[j] by {}
        assert(ranges.last() == ranges[ranges.len() - 1]);
        match first_holding(d, x) {
            Some(i) => {
                assert(d[i as int] == ranges[i as int]);
                assert forall|j: int| 0 <= j < i implies !holds(#[trigger] ranges[j], x) by {
                    assert(d[j] == ranges[j]);
                }
            },
            None => {
                assert forall|j: int| 0 <= j < ranges.len() - 1 implies !holds(#[trigger] ranges[j], x) by {
                    assert(d[j] == ranges[j]);
                }
                if holds(ranges.last(), x) {
                    let k = (ranges.len() - 1) as usize;
                    assert(first_holding(ranges, x) == Some(k));
                    assert(k as int == ranges.len() - 1);
                    assert(holds(ranges[k as int], x));
                } else {
                    assert(first_holding(ranges, x) is None);
                    assert forall|j: int| 0 <= j < ranges.len() implies !holds(#[trigger] ranges[j], x) by {
                        if j < ranges.len() - 1 {
                            assert(d[j] == ranges[j]);
                        }
                    }
                }
            },
        }
    }
}

/// The index of the first of `ranges` that holds `x`, if any.
pub fn first_holding_index(ranges: &[Range<usize>], x: usize) -> (res: Option<usize>)
    ensures
        res == first_holding(ranges@, x as int),
        match res {
            Some(i) => i < ranges.len() && holds(ranges@[i as int], x as int) && forall|j: int|
                0 <= j < i ==> !holds(#[trigger] ranges@[j], x as int),
            None => forall|j: int| 0 <= j < ranges.len() ==> !holds(#[trigger] ranges@[j], x as int),
        },
{
    let n = ranges.len();
    proof {
        assert(ranges@.len() == n);
        lemma_first_holding(ranges@, x as int);
    }
    let mut i: usize = 0;
    proof {
        assert(ranges@.take(0) =~= Seq::<Range<usize>>::empty());
    }
    while i < ranges.len()
        invariant
            0 <= i <= ranges.len(),
            first_holding(ranges@.take(i as int), x as int) is None,
        decreases ranges.len() - i,
    {
        proof {
            assert(ranges@.take(i + 1).drop_last() =~= ranges@.take(i as int));
        }
        if ranges[i].start <= x && x < ranges[i].end {
            proof {
                lemma_first_holding_prefix(ranges@, x as int, i + 1);
                assert(ranges@.take(i + 1).last() == ranges@[i as int]);
                assert(first_holding(ranges@, x as int) == Some(i));
                assert(ranges@.len() == ranges.len());
                lemma_first_holding(ranges@, x as int);
            }
            return Some(i);
        }
        i += 1;
    }
    proof {
        assert(ranges@.take(ranges.len() as int) =~= ranges@);
    }
    None
}

proof fn lemma_first_holding_prefix(ranges: Seq<Range<usize>>, x: int, m: int)
    requires
        0 <= m <= ranges.len(),
        first_holding(ranges.take(m), x) is Some,
    ensures
        first_holding(ranges, x) == first_holding(ranges.take(m), x),
    decreases ranges.len(),
{
    if m < ranges.len() {
        assert(ranges.drop_last().take(m) =~= ranges.take(m));
        lemma_first_holding_prefix(ranges.drop_last(), x, m);
    } else {
        assert(ranges.take(m) =~= ranges);
    }
}

/// Whether one of `ranges` covers all of `r`.
pub fn covers_any(ranges: &[Range<usize>], r: &Range<usize>) -> (res: bool)
    ensures
        res == exists|i: int|
            0 <= i < ranges.len() && #[trigger] ranges[i].start <= r.start && ranges[i].end >= r.end,
{
    let mut i: usize = 0;
    while i < ranges.len()
        invariant
            0 <= i <= ranges.len(),
            forall|j: int|
                0 <= j < i ==> !(#[trigger] ranges[j].start <= r.start && ranges[j].end >= r.end),
        decreases ranges.len() - i,
    {
        if ranges[i].start <= r.start && ranges[i].end >= r.end {
            return true;
        }
        i += 1;
    }
    false
}

/// Strictly increasing offsets.
pub open spec fn increasing(s: Seq<usize>) -> bool {
    forall|i: int, j: int| 0 <= i < j < s.len() ==> #[trigger] s[i] < #[trigger] s[j]
}

/// The points of a finite set of offsets, in increasing order.
pub open spec fn in_order(points: Set<usize>) -> Seq<usize> {
    choose|s: Seq<usize>| increasing(s) && s.to_set() == points
}

/// Two increasing sequences with the same points are equal.
pub proof fn lemma_increasing_unique(a: Seq<usize>, b: Seq<usize>)
    requires
        increasing(a),
        increasing(b),
        a.to_set() == b.to_set(),
    ensures
        a == b,
    decreases a.len() + b.len(),
{
    if a.len() == 0 || b.len() == 0 {
        if a.len() > 0 {
            assert(a.to_set().contains(a[0]));
        }
        if b.len() > 0 {
            assert(b.to_set().contains(b[0]));
        }
        assert(a =~= b);
    } else {
        let x = a.last();
        let y = b.last();
        assert(a.to_set().contains(x));
        assert(b.to_set().contains(y));
        let i = choose|i: int| 0 <= i < b.len() && b[i] == x;
        let j = choose|j: int| 0 <= j < a.len() && a[j] == y;
        if i < b.len() - 1 {
            assert(b[i] < b[b.len() - 1]);
        }
        if j < a.len() - 1 {
            assert(a[j] < a[a.len() - 1]);
        }
        assert(x == y);
        assert forall|z: usize| #[trigger] a.drop_last().to_set().contains(z) <==> b.drop_last().to_set().contains(z) by {
            if a.drop_last().contains(z) {
                let k = choose|k: int| 0 <= k < a.drop_last().len() && a.drop_last()[k] == z;
                assert(a[k] < a[a.len() - 1]);
                assert(a.contains(z));
                assert(a.to_set().contains(z));
                assert(b.to_set().contains(z));
                let l = choose|l: int| 0 <= l < b.len() && b[l] == z;
                assert(l != b.len() - 1);
                assert(b.drop_last()[l] == z);
            }
            if b.drop_last().contains(z) {
                let k = choose|k: int| 0 <= k < b.drop_last().len() && b.drop_last()[k] == z;
                assert(b[k] < b[b.len() - 1]);
                assert(b.contains(z));
                assert(b.to_set().contains(z));
                assert(a.to_set().contains(z));
                let l = choose|l: int| 0 <= l < a.len() && a[l] == z;
                assert(l != a.len() - 1);
                assert(a.drop_last()[l] == z);
            }
        }
        assert(a.drop_last().to_set() =~= b.drop_last().to_set());
        lemma_increasing_unique(a.drop_last(), b.drop_last());
        assert(a =~= a.drop_last().push(x));
        assert(b =~= b.drop_last().push(y));
    }
}

/// An increasing sequence of the points is the one that `in_order` gives.
pub proof fn lemma_in_order(s: Seq<usize>)
    requires
        increasing(s),
    ensures
        in_order(s.to_set()) == s,
{
    let t = in_order(s.to_set());
    assert(increasing(t) && t.to_set() == s.to_set());
    lemma_increasing_unique(t, s);
}

/// Adds `x` to the increasing points `pts`, unless it is there.
fn insert_point(pts: &mut Vec<usize>, x: usize)
    requires
        increasing(old(pts)@),
    ensures
        increasing(final(pts)@),
        final(pts)@.to_set() == old(pts)@.to_set().insert(x),
{
    let mut p: usize = 0;
    while p < pts.len() && pts[p] < x
        invariant
            0 <= p <= pts.len(),
            pts@ == old(pts)@,
            increasing(pts@),
            forall|j: int| 0 <= j < p ==> #[trigger] pts@[j] < x,
        decreases pts.len() - p,
    {
        p += 1;
    }
    if p < pts.len() && pts[p] == x {
        proof {
            assert(pts@.to_set() =~= old(pts)@.to_set().insert(x));
        }
        return;
    }
    let ghost before = pts@;
    proof {
        assert forall|j: int| p <= j < before.len() implies x < #[trigger] before[j] by {
            if j > p {
                assert(before[p as int] < before[j]);
            }
        }
    }
    pts.insert(p, x);
    proof {
        before.insert_ensures(p as int, x);
        let after = pts@;
        assert forall|i: int, j: int| 0 <= i < j < after.len() implies #[trigger] after[i]
            < #[trigger] after[j] by {
            if j < p {
            } else if j == p {
            } else if i < p {
                assert(after[j] == before[j - 1]);
            } else if i == p {
                assert(after[j] == before[j - 1]);
            } else {
                assert(after[j] == before[j - 1]);
                assert(after[i] == before[i - 1]);
            }
        }
        assert forall|y: usize| #[trigger] after.contains(y) <==> before.to_set().insert(x).contains(
            y,
        ) by {
            if after.contains(y) {
                let k = choose|k: int| 0 <= k < after.len() && after[k] == y;
                if k < p {
                    assert(before[k] == y);
                } else if k > p {
                    assert(before[k - 1] == y);
                }
            }
            if before.contains(y) {
                let k = choose|k: int| 0 <= k < before.len() && before[k] == y;
                if k < p {
                    assert(after[k] == y);
                } else {
                    assert(after[k + 1] == y);
                }
            }
            if y == x {
                assert(after[p as int] == x);
            }
        }
        assert(after.to_set() =~= before.to_set().insert(x));
    }
}

/// A piece of a shaped run: which run it comes from, its length in bytes,
/// and the code font range (by index) that holds its first byte, if any.
#[derive(Clone, Copy, Debug, PartialEq, Eq)]
pub struct RunPart {
    pub run: usize,
    pub len: usize,
    pub font: Option<usize>,
}

/// Where the run from `start` to `end` is cut: its two ends and every font
/// boundary strictly inside it.
pub open spec fn split_points(start: int, end: int, fonts: Seq<Range<usize>>) -> Set<usize> {
    Set::new(
        |p: usize|
            p == start || p == end || exists|i: int|
                0 <= i < fonts.len() && ((start < #[trigger] fonts[i].start < end && p == fonts[i].start)
                    || (start < fonts[i].end < end && p == fonts[i].end)),
    )
}

/// The pieces of run `run`, which covers `start..end`: one between each two
/// consecutive cut points.
pub open spec fn run_parts(run: usize, start: int, end: int, fonts: Seq<Range<usize>>) -> Seq<
    RunPart,
> {
    let b = in_order(split_points(start, end, fonts));
    Seq::new(
        (b.len() - 1) as nat,
        |j: int|
            RunPart {
                run,
                len: (b[j + 1] - b[j]) as usize,
                font: first_holding(fonts, b[j] as int),
            },
    )
}

/// The sum of the run lengths.
pub open spec fn total(lens: Seq<usize>) -> int
    decreases lens.len(),
{
    if lens.len() == 0 {
        0
    } else {
        total(lens.drop_last()) + lens.last()
    }
}

pub proof fn lemma_total_prefix(lens: Seq<usize>, m: int)
    requires
        0 <= m <= lens.len(),
    ensures
        0 <= total(lens.take(m)) <= total(lens),
    decreases lens.len(),
{
    if m == lens.len() {
        assert(lens.take(m) =~= lens);
        lemma_total_nonneg(lens);
    } else {
        assert(lens.drop_last().take(m) =~= lens.take(m));
        lemma_total_prefix(lens.drop_last(), m);
    }
}

pub proof fn lemma_total_nonneg(lens: Seq<usize>)
    ensures
        total(lens) >= 0,
    decreases lens.len(),
{
    if lens.len() > 0 {
        lemma_total_nonneg(lens.drop_last());
    }
}

/// The pieces of every run, run after run, where each run starts where the
/// one before it ended.
pub open spec fn split_all(lens: Seq<usize>, fonts: Seq<Range<usize>>) -> Seq<RunPart>
    decreases lens.len(),
{
    if lens.len() == 0 {
        Seq::empty()
    } else {
        let start = total(lens.drop_last());
        split_all(lens.drop_last(), fonts) + run_parts(
            (lens.len() - 1) as usize,
            start,
            start + lens.last(),
            fonts,
        )
    }
}

/// Without code fonts the runs stay as they are; otherwise every run is cut
/// at the code font boundaries inside it, and each piece is set in the code
/// font that holds its first byte.
pub open spec fn font_split(lens: Seq<usize>, fonts: Seq<Range<usize>>) -> Seq<RunPart> {
    if fonts.len() == 0 {
        Seq::new(lens.len(), |i: int| RunPart { run: i as usize, len: lens[i], font: None })
    } else {
        split_all(lens, fonts)
    }
}

/// The total length of the pieces.
pub open spec fn parts_len(parts: Seq<RunPart>) -> int
    decreases parts.len(),
{
    if parts.len() == 0 {
        0
    } else {
        parts_len(parts.drop_last()) + parts.last().len
    }
}

/// The cut points of the run `start..end`, in increasing order.
fn run_points(start: usize, end: usize, fonts: &[Range<usize>]) -> (pts: Vec<usize>)
    requires
        start <= end,
    ensures
        increasing(pts@),
        pts@.to_set() == split_points(start as int, end as int, fonts@),
{
    let mut pts: Vec<usize> = Vec::new();
    pts.push(start);
    let ghost first = pts@;
    proof {
        assert(first[0] == start);
        assert(first.contains(start));
    }
    insert_point(&mut pts, end);
    let mut k: usize = 0;
    proof {
        assert forall|p: usize| #[trigger] pts@.to_set().contains(p) <==> split_points(
            start as int,
            end as int,
            fonts@.take(0),
        ).contains(p) by {
            assert(first.to_set().contains(start));
            if first.contains(p) {
                let q = choose|q: int| 0 <= q < first.len() && first[q] == p;
                assert(q == 0);
            }
        }
        assert(pts@.to_set() =~= split_points(start as int, end as int, fonts@.take(0)));
    }
    while k < fonts.len()
        invariant
            0 <= k <= fonts.len(),
            start <= end,
            increasing(pts@),
            pts@.to_set() == split_points(start as int, end as int, fonts@.take(k as int)),
        decreases fonts.len() - k,
    {
        let r = &fonts[k];
        let ghost prev = fonts@.take(k as int);
        let ghost next = fonts@.take(k + 1);
        let ghost before = pts@.to_set();
        if start < r.start && r.start < end {
            insert_point(&mut pts, r.start);
        }
        let ghost mid = pts@.to_set();
        if start < r.end && r.end < end {
            insert_point(&mut pts, r.end);
        }
        proof {
            assert(next[k as int] == *r);
            assert forall|i: int| 0 <= i < k implies #[trigger] next[i] == prev[i] by {}
            assert forall|p: usize| #[trigger] pts@.to_set().contains(p) <==> split_points(
                start as int,
                end as int,
                next,
            ).contains(p) by {
                if split_points(start as int, end as int, prev).contains(p) && !(p == start || p
                    == end) {
                    let i = choose|i: int|
                        0 <= i < prev.len() && ((start < #[trigger] prev[i].start < end && p
                            == prev[i].start) || (start < prev[i].end < end && p == prev[i].end));
                    assert(next[i] == prev[i]);
                }
                if split_points(start as int, end as int, next).contains(p) && !(p == start || p
                    == end) {
                    let i = choose|i: int|
                        0 <= i < next.len() && ((start < #[trigger] next[i].start < end && p
                            == next[i].start) || (start < next[i].end < end && p == next[i].end));
                    if i < k {
                        assert(next[i] == prev[i]);
                        assert(split_points(start as int, end as int, prev).contains(p));
                    }
                }
            }
            assert(pts@.to_set() =~= split_points(start as int, end as int, next));
        }
        k += 1;
    }
    proof {
        assert(fonts@.take(fonts.len() as int) =~= fonts@);
    }
    pts
}

/// `font` is the code font for the byte at offset `pos`: the index of the
/// first of `fonts` whose range holds `pos`, or `None` when none holds it.
pub open spec fn is_code_font_at(fonts: Seq<Range<usize>>, pos: int, font: Option<usize>) -> bool {
    match font {
        Some(i) => {
            &&& i < fonts.len()
            &&& fonts[i as int].start <= pos < fonts[i as int].end
            &&& forall|j: int| #![trigger fonts[j]] 0 <= j < i ==> !(fonts[j].start <= pos < fonts[j].end)
        },
        None => forall|j: int|
            #![trigger fonts[j]]
            0 <= j < fonts.len() ==> !(fonts[j].start <= pos < fonts[j].end),
    }
}

/// Splits shaped runs (given by their lengths) at code font boundaries
/// without changing UTF-8 byte offsets. Every piece is set in the code font
/// that holds its own first byte (the total length of the pieces before it).
pub fn split_runs(run_lens: &[usize], fonts: &[Range<usize>]) -> (parts: Vec<RunPart>)
    requires
        fonts.len() > 0 ==> total(run_lens@) <= usize::MAX,
    ensures
        parts@ == font_split(run_lens@, fonts@),
        parts_len(parts@) == total(run_lens@),
        forall|k: int|
            0 <= k < parts.len() ==> is_code_font_at(
                fonts@,
                parts_len(parts@.take(k)),
                #[trigger] parts@[k].font,
            ),
{
    let ghost lens = run_lens@;
    let mut parts: Vec<RunPart> = Vec::new();
    if fonts.len() == 0 {
        let mut i: usize = 0;
        while i < run_lens.len()
            invariant
                0 <= i <= run_lens.len(),
                lens == run_lens@,
                parts@ == Seq::new(i as nat, |k: int| RunPart { run: k as usize, len: lens[k], font: None }),
                parts_len(parts@) == total(lens.take(i as int)),
            decreases run_lens.len() - i,
        {
            let ghost before = parts@;
            parts.push(RunPart { run: i, len: run_lens[i], font: None });
            proof {
                assert(parts@.drop_last() =~= before);
                assert(lens.take(i + 1).drop_last() =~= lens.take(i as int));
                assert(parts@ =~= Seq::new((i + 1) as nat, |k: int| RunPart { run: k as usize, len: lens[k], font: None }));
            }
            i += 1;
        }
        proof {
            assert(parts@ =~= font_split(lens, fonts@));
            assert(lens.take(run_lens.len() as int) =~= lens);
            assert forall|k: int| 0 <= k < parts.len() implies is_code_font_at(
                fonts@,
                parts_len(parts@.take(k)),
                #[trigger] parts@[k].font,
            ) by {
                assert(parts@[k].font is None);
            }
        }
        return parts;
    }
    let mut offset: usize = 0;
    let mut i: usize = 0;
    proof {
        assert(lens.take(0) =~= Seq::<usize>::empty());
        assert(parts@ =~= split_all(lens.take(0), fonts@));
    }
    while i < run_lens.len()
        invariant
            0 <= i <= run_lens.len(),
            lens == run_lens@,
            total(lens) <= usize::MAX,
            offset == total(lens.take(i as int)),
            parts@ == split_all(lens.take(i as int), fonts@),
            parts_len(parts@) == offset,
            forall|k: int|
                0 <= k < parts.len() ==> is_code_font_at(
                    fonts@,
                    parts_len(parts@.take(k)),
                    #[trigger] parts@[k].font,
                ),
        decreases run_lens.len() - i,
    {
        proof {
            assert(lens.take(i + 1).drop_last() =~= lens.take(i as int));
            assert(lens.take(i + 1).last() == lens[i as int]);
            lemma_total_prefix(lens, i + 1);
        }
        let end = offset + run_lens[i];
        let pts = run_points(offset, end, fonts);
        proof {
            lemma_in_order(pts@);
            assert(split_points(offset as int, end as int, fonts@).contains(offset));
            assert(split_points(offset as int, end as int, fonts@).contains(end));
            assert(pts@.to_set().contains(offset));
            assert(pts@.to_set().contains(end));
            let a = choose|a: int| 0 <= a < pts@.len() && pts@[a] == offset;
            let z = choose|z: int| 0 <= z < pts@.len() && pts@[z] == end;
            assert(pts@.to_set().contains(pts@[0]));
            assert(pts@.to_set().contains(pts@[pts@.len() - 1]));
            if a > 0 {
                assert(pts@[0] < pts@[a]);
            }
            if z < pts@.len() - 1 {
                assert(pts@[z] < pts@[pts@.len() - 1]);
            }
            assert(pts@[0] == offset);
            assert(pts@[pts@.len() - 1] == end);
        }
        let ghost before = parts@;
        let ghost want = run_parts(i as usize, offset as int, end as int, fonts@);
        let mut j: usize = 0;
        proof {
            assert(parts@ =~= before + want.take(0));
        }
        while j + 1 < pts.len()
            invariant
                0 <= j < pts.len() || (j == 0 && pts.len() == 0),
                pts.len() >= 1,
                increasing(pts@),
                pts@ == in_order(split_points(offset as int, end as int, fonts@)),
                want == run_parts(i as usize, offset as int, end as int, fonts@),
                want.len() == pts.len() - 1,
                parts@ == before + want.take(j as int),
                pts@[0] == offset,
                parts_len(before) == offset,
                parts_len(parts@) == parts_len(before) + pts@[j as int] - pts@[0],
                forall|k: int|
                    0 <= k < parts.len() ==> is_code_font_at(
                        fonts@,
                        parts_len(parts@.take(k)),
                        #[trigger] parts@[k].font,
                    ),
            decreases pts.len() - j,
        {
            let ghost prev_parts = parts@;
            proof {
                assert(pts@[j as int] < pts@[j + 1]);
            }
            let font = first_holding_index(fonts, pts[j]);
            let part = RunPart { run: i, len: pts[j + 1] - pts[j], font };
            parts.push(part);
            proof {
                assert(want[j as int] == part);
                assert(want.take(j + 1) =~= want.take(j as int).push(part));
                assert(parts@ =~= before + want.take(j + 1));
                assert(parts@.drop_last() =~= prev_parts);
                assert forall|k: int| 0 <= k < parts.len() implies is_code_font_at(
                    fonts@,
                    parts_len(parts@.take(k)),
                    #[trigger] parts@[k].font,
                ) by {
                    if k < prev_parts.len() {
                        assert(parts@.take(k) =~= prev_parts.take(k));
                        assert(parts@[k] == prev_parts[k]);
                    } else {
                        assert(parts@.take(k) =~= prev_parts);
                        assert(parts@[k] == part);
                    }
                }
            }
            j += 1;
        }
        proof {
            assert(want.take(j as int) =~= want);
            assert(split_all(lens.take(i + 1), fonts@) == split_all(lens.take(i as int), fonts@) + want);
            assert(j + 1 == pts.len());
        }
        offset = end;
        i += 1;
    }
    proof {
        assert(lens.take(run_lens.len() as int) =~= lens);
    }
    parts
}

/// A run of the text to lay out: its length in bytes, and the highlight (by
/// index) that styles it, if any.
#[derive(Clone, Copy, Debug, PartialEq, Eq)]
pub struct StyleRun {
    pub len: usize,
    pub highlight: Option<usize>,
}

/// The runs laid out for a prefix of the highlights, and the offset where
/// the last of them ended.
pub struct Laying {
    pub runs: Seq<StyleRun>,
    pub ix: usize,
}

/// Each highlight gets a run of its own length; the text between the end of
/// the previous one and its start, if any, gets a plain run before it.
pub open spec fn lay_highlights(hs: Seq<Range<usize>>) -> Laying
    decreases hs.len(),
{
    if hs.len() == 0 {
        Laying { runs: Seq::empty(), ix: 0 }
    } else {
        let prev = lay_highlights(hs.drop_last());
        let r = hs.last();
        let gap = if prev.ix < r.start {
            seq![StyleRun { len: (r.start - prev.ix) as usize, highlight: None }]
        } else {
            Seq::empty()
        };
        Laying {
            runs: prev.runs + gap + seq![
                StyleRun { len: range_len(r) as usize, highlight: Some((hs.len() - 1) as usize) },
            ],
            ix: r.end,
        }
    }
}

/// The runs for the highlights, then a plain run for the rest of the text.
pub open spec fn style_runs_of(hs: Seq<Range<usize>>, text_len: usize) -> Seq<StyleRun> {
    let l = lay_highlights(hs);
    if l.ix < text_len {
        l.runs.push(StyleRun { len: (text_len - l.ix) as usize, highlight: None })
    } else {
        l.runs
    }
}

/// Lays out text of `text_len` bytes as runs: plain between highlights, and
/// one run per highlight.
pub fn style_runs(highlights: &[Range<usize>], text_len: usize) -> (runs: Vec<StyleRun>)
    ensures
        runs@ == style_runs_of(highlights@, text_len),
        highlights_in_order(highlights@, text_len) ==> forall|m: int|
            0 <= m < runs.len() ==> run_in_place(highlights@, runs@, m),
        highlights_in_order(highlights@, text_len) ==> forall|k: int|
            0 <= k < highlights.len() ==> #[trigger] has_run_of(runs@, k),
{
    let ghost hs = highlights@;
    let mut runs: Vec<StyleRun> = Vec::new();
    let mut ix: usize = 0;
    let mut k: usize = 0;
    proof {
        assert(hs.take(0) =~= Seq::<Range<usize>>::empty());
        assert(runs@ =~= Seq::<StyleRun>::empty());
    }
    while k < highlights.len()
        invariant
            0 <= k <= highlights.len(),
            hs == highlights@,
            lay_highlights(hs.take(k as int)) == (Laying { runs: runs@, ix }),
        decreases highlights.len() - k,
    {
        let r = &highlights[k];
        let ghost before = runs@;
        proof {
            assert(hs.take(k + 1).drop_last() =~= hs.take(k as int));
            assert(hs.take(k + 1).last() == *r);
        }
        if ix < r.start {
            runs.push(StyleRun { len: r.start - ix, highlight: None });
        }
        runs.push(StyleRun { len: len_of(r), highlight: Some(k) });
        proof {
            let gap = if ix < r.start {
                seq![StyleRun { len: (r.start - ix) as usize, highlight: None }]
            } else {
                Seq::<StyleRun>::empty()
            };
            assert(runs@ =~= before + gap + seq![StyleRun { len: range_len(*r) as usize, highlight: Some(k) }]);
        }
        ix = r.end;
        k += 1;
    }
    proof {
        assert(hs.take(highlights.len() as int) =~= hs);
    }
    if ix < text_len {
        runs.push(StyleRun { len: text_len - ix, highlight: None });
    }
    proof {
        assert(runs@ == style_runs_of(hs, text_len));
        if highlights_in_order(hs, text_len) {
            assert(hs.len() == highlights.len());
            law_style_runs_in_place(hs, text_len);
            assert forall|m: int| 0 <= m < runs.len() implies run_in_place(hs, runs@, m) by {}
            assert forall|k: int| 0 <= k < highlights.len() implies #[trigger] has_run_of(runs@, k) by {}
        }
    }
    runs
}

/// The total length of the runs.
pub open spec fn runs_len(runs: Seq<StyleRun>) -> int
    decreases runs.len(),
{
    if runs.len() == 0 {
        0
    } else {
        runs_len(runs.drop_last()) + runs.last().len
    }
}

proof fn lemma_runs_len_concat(a: Seq<StyleRun>, b: Seq<StyleRun>)
    ensures
        runs_len(a + b) == runs_len(a) + runs_len(b),
    decreases b.len(),
{
    if b.len() == 0 {
        assert(a + b =~= a);
    } else {
        assert((a + b).drop_last() =~= a + b.drop_last());
        lemma_runs_len_concat(a, b.drop_last());
    }
}

proof fn lemma_runs_len_one(x: StyleRun)
    ensures
        runs_len(seq![x]) == x.len,
{
    let s = seq![x];
    assert(s.drop_last() =~= Seq::<StyleRun>::empty());
    assert(s.last() == x);
    assert(runs_len(Seq::<StyleRun>::empty()) == 0);
}

/// Highlights in order within text of `text_len` bytes: none reversed, each
/// ending by the start of the next, the last ending by the end of the text.
pub open spec fn highlights_in_order(hs: Seq<Range<usize>>, text_len: usize) -> bool {
    &&& forall|i: int| 0 <= i < hs.len() ==> #[trigger] hs[i].start <= hs[i].end && hs[i].end <= text_len
    &&& forall|i: int, j: int| 0 <= i < j < hs.len() ==> #[trigger] hs[i].end <= #[trigger] hs[j].start
}

proof fn lemma_lay_len(hs: Seq<Range<usize>>, text_len: usize)
    requires
        highlights_in_order(hs, text_len),
    ensures
        runs_len(lay_highlights(hs).runs) == lay_highlights(hs).ix,
        hs.len() == 0 ==> lay_highlights(hs).ix == 0,
        hs.len() > 0 ==> lay_highlights(hs).ix == hs.last().end,
    decreases hs.len(),
{
    if hs.len() > 0 {
        let d = hs.drop_last();
        assert forall|i: int| 0 <= i < d.len() implies #[trigger] d[i] == hs[i] by {}
        assert(highlights_in_order(d, text_len)) by {
            assert forall|i: int, j: int| 0 <= i < j < d.len() implies #[trigger] d[i].end
                <= #[trigger] d[j].start by {
                assert(d[i] == hs[i] && d[j] == hs[j]);
            }
        }
        lemma_lay_len(d, text_len);
        let prev = lay_highlights(d);
        let r = hs.last();
        assert(r == hs[hs.len() - 1]);
        if d.len() > 0 {
            assert(d.last() == hs[hs.len() - 2]);
            assert(hs[hs.len() - 2].end <= hs[hs.len() - 1].start);
        }
        let gap = if prev.ix < r.start {
            seq![StyleRun { len: (r.start - prev.ix) as usize, highlight: None }]
        } else {
            Seq::<StyleRun>::empty()
        };
        let own = seq![StyleRun { len: range_len(r) as usize, highlight: Some((hs.len() - 1) as usize) }];
        lemma_runs_len_concat(prev.runs + gap, own);
        lemma_runs_len_concat(prev.runs, gap);
        lemma_runs_len_one(own[0]);
        assert(own =~= seq![own[0]]);
        if prev.ix < r.start {
            lemma_runs_len_one(gap[0]);
            assert(gap =~= seq![gap[0]]);
        } else {
            assert(runs_len(gap) == 0);
        }
        assert(runs_len(lay_highlights(hs).runs) == runs_len(prev.runs + gap + own));
    }
}

/// Laying out highlights that are in order covers the text exactly: the
/// run lengths add up to the length of the text.
pub proof fn law_style_runs_cover_text(hs: Seq<Range<usize>>, text_len: usize)
    requires
        highlights_in_order(hs, text_len),
    ensures
        runs_len(style_runs_of(hs, text_len)) == text_len,
{
    lemma_lay_len(hs, text_len);
    let l = lay_highlights(hs);
    if hs.len() > 0 {
        assert(hs.last() == hs[hs.len() - 1]);
    }
    if l.ix < text_len {
        let rest = seq![StyleRun { len: (text_len - l.ix) as usize, highlight: None }];
        lemma_runs_len_concat(l.runs, rest);
        assert(l.runs.push(rest[0]) =~= l.runs + rest);
        lemma_runs_len_one(rest[0]);
        assert(rest =~= seq![rest[0]]);
    }
}


/// Some run of `runs` is styled by highlight `k`.
pub open spec fn has_run_of(runs: Seq<StyleRun>, k: int) -> bool {
    exists|m: int| 0 <= m < runs.len() && #[trigger] runs[m].highlight == Some(k as usize)
}

/// Run `m` of `runs` is where it belongs among the highlights `hs`: a
/// highlight's run starts where the highlight starts and is exactly as long
/// as it; a plain run is not empty and overlaps no highlight.
pub open spec fn run_in_place(hs: Seq<Range<usize>>, runs: Seq<StyleRun>, m: int) -> bool {
    let pos = runs_len(runs.take(m));
    match runs[m].highlight {
        Some(k) => {
            &&& k < hs.len()
            &&& pos == hs[k as int].start
            &&& runs[m].len == hs[k as int].end - hs[k as int].start
        },
        None => {
            &&& runs[m].len > 0
            &&& forall|k: int|
                #![trigger hs[k]]
                0 <= k < hs.len() ==> hs[k].end <= pos || hs[k].start >= pos + runs[m].len
        },
    }
}

proof fn lemma_runs_len_take(s: Seq<StyleRun>, m: int)
    requires
        0 <= m < s.len(),
    ensures
        runs_len(s.take(m + 1)) == runs_len(s.take(m)) + s[m].len,
        runs_len(s.take(m + 1)) <= runs_len(s),
    decreases s.len(),
{
    assert(s.take(m + 1).drop_last() =~= s.take(m));
    assert(s.take(m + 1).last() == s[m]);
    if m + 1 == s.len() {
        assert(s.take(m + 1) =~= s);
    } else {
        assert(s.drop_last().take(m + 1) =~= s.take(m + 1));
        assert(s.drop_last().take(m) =~= s.take(m));
        assert(s.drop_last()[m] == s[m]);
        lemma_runs_len_take(s.drop_last(), m);
    }
}

/// Runs `a` followed by more runs: the runs of `a` keep their offsets.
proof fn lemma_runs_prefix_kept(a: Seq<StyleRun>, b: Seq<StyleRun>, m: int)
    requires
        0 <= m < a.len(),
    ensures
        (a + b).take(m) == a.take(m),
        (a + b)[m] == a[m],
{
    assert((a + b).take(m) =~= a.take(m));
}

/// A run in its place among all highlights but the last stays in its place
/// when the last highlight starts at or after where the run ends, and more
/// runs follow.
proof fn lemma_keep_in_place(
    hs: Seq<Range<usize>>,
    runs: Seq<StyleRun>,
    more: Seq<StyleRun>,
    m: int,
    ix: int,
)
    requires
        hs.len() > 0,
        0 <= m < runs.len(),
        run_in_place(hs.drop_last(), runs, m),
        runs_len(runs.take(m)) + runs[m].len <= ix,
        hs.len() == 1 || ix <= hs.last().start,
        hs.len() == 1 ==> runs.len() == 0,
    ensures
        run_in_place(hs, runs + more, m),
{
    let d = hs.drop_last();
    lemma_runs_prefix_kept(runs, more, m);
    match runs[m].highlight {
        Some(k) => {
            assert(d[k as int] == hs[k as int]);
        },
        None => {
            let pos = runs_len(runs.take(m));
            assert forall|k: int| #![trigger hs[k]] 0 <= k < hs.len() implies hs[k].end <= pos
                || hs[k].start >= pos + runs[m].len by {
                if k < hs.len() - 1 {
                    assert(d[k] == hs[k]);
                }
            }
        },
    }
}

/// A plain run that starts where every highlight but the last has ended
/// and ends where the last one starts is in its place.
proof fn lemma_plain_in_place(hs: Seq<Range<usize>>, runs: Seq<StyleRun>, m: int)
    requires
        hs.len() > 0,
        0 <= m < runs.len(),
        runs[m].highlight is None,
        runs[m].len > 0,
        runs_len(runs.take(m)) + runs[m].len == hs.last().start,
        forall|k: int| 0 <= k < hs.len() - 1 ==> #[trigger] hs[k].end <= runs_len(runs.take(m)),
    ensures
        run_in_place(hs, runs, m),
{
    let pos = runs_len(runs.take(m));
    assert forall|k: int| #![trigger hs[k]] 0 <= k < hs.len() implies hs[k].end <= pos || hs[k].start
        >= pos + runs[m].len by {
        if k == hs.len() - 1 {
            assert(hs.last() == hs[k]);
        }
    }
}

/// What laying out highlights in order gives: every run is in its place,
/// each highlight has its run, plain runs end by the offset reached, and
/// every highlight ends by it.
proof fn lemma_lay_in_place(hs: Seq<Range<usize>>, text_len: usize)
    requires
        highlights_in_order(hs, text_len),
        hs.len() <= usize::MAX,
    ensures
        ({
            let l = lay_highlights(hs);
            &&& forall|m: int| 0 <= m < l.runs.len() ==> run_in_place(hs, l.runs, m)
            &&& forall|m: int|
                0 <= m < l.runs.len() ==> runs_len(l.runs.take(m)) + (#[trigger] l.runs[m]).len <= l.ix
            &&& forall|k: int| 0 <= k < hs.len() ==> #[trigger] has_run_of(l.runs, k)
            &&& forall|k: int| 0 <= k < hs.len() ==> #[trigger] hs[k].end <= l.ix
        }),
    decreases hs.len(),
{
    lemma_lay_len(hs, text_len);
    if hs.len() > 0 {
        let n = hs.len() - 1;
        let d = hs.drop_last();
        assert forall|i: int| 0 <= i < d.len() implies #[trigger] d[i] == hs[i] by {}
        assert(highlights_in_order(d, text_len)) by {
            assert forall|i: int, j: int| 0 <= i < j < d.len() implies #[trigger] d[i].end
                <= #[trigger] d[j].start by {
                assert(d[i] == hs[i] && d[j] == hs[j]);
            }
        }
        lemma_lay_len(d, text_len);
        let prev = lay_highlights(d);
        let r = hs[n];
        assert(hs.last() == r);
        assert(r.start <= r.end);
        if n > 0 {
            assert(d.last() == hs[n - 1]);
            assert(hs[n - 1].end <= hs[n].start);
        }
        assert(n == 0 ==> prev.ix == 0);
        assert(prev.ix <= r.start || n == 0);
        let gap = if prev.ix < r.start {
            seq![StyleRun { len: (r.start - prev.ix) as usize, highlight: None }]
        } else {
            Seq::<StyleRun>::empty()
        };
        let own = StyleRun { len: range_len(r) as usize, highlight: Some(n as usize) };
        let l = lay_highlights(hs);
        assert(l.runs == prev.runs + gap + seq![own]);
        assert(l.ix == r.end);
        let p = prev.runs.len() as int;
        let g = gap.len() as int;
        assert(n == 0 ==> p == 0);
        lemma_runs_len_concat(prev.runs, gap);
        if g == 1 {
            lemma_runs_len_one(gap[0]);
            assert(gap =~= seq![gap[0]]);
        } else {
            assert(runs_len(gap) == 0);
        }
        assert(l.runs.take(p + g) =~= prev.runs + gap);
        assert(runs_len(l.runs.take(p + g)) == r.start);
        assert(l.runs[p + g] == own);
        assert(prev.runs + gap + seq![own] =~= prev.runs + (gap + seq![own]));
        assert(prev.ix <= r.end);
        assert forall|m: int| 0 <= m < p implies run_in_place(hs, l.runs, m) && runs_len(
            l.runs.take(m),
        ) + (#[trigger] l.runs[m]).len <= l.ix by {
            lemma_lay_in_place(d, text_len);
            lemma_keep_in_place(hs, prev.runs, gap + seq![own], m, prev.ix as int);
            lemma_runs_prefix_kept(prev.runs, gap + seq![own], m);
        }
        if g == 1 {
            assert forall|k: int| 0 <= k < n implies #[trigger] hs[k].end <= prev.ix by {
                lemma_lay_in_place(d, text_len);
                assert(d[k].end <= prev.ix);
            }
            assert(l.runs.take(p) =~= prev.runs);
            assert(l.runs[p] == gap[0]);
            lemma_plain_in_place(hs, l.runs, p);
        }
        assert(run_in_place(hs, l.runs, p + g) && runs_len(l.runs.take(p + g)) + l.runs[p + g].len
            <= l.ix) by {
            assert(n as usize as int == n);
            assert(own.len == r.end - r.start);
        }
        assert forall|m: int| 0 <= m < l.runs.len() implies run_in_place(hs, l.runs, m) && runs_len(
            l.runs.take(m),
        ) + (#[trigger] l.runs[m]).len <= l.ix by {
            if m >= p && m < p + g {
                assert(m == p);
            }
        }
        assert forall|k: int| 0 <= k < hs.len() implies #[trigger] has_run_of(l.runs, k) by {
            if k < n {
                lemma_lay_in_place(d, text_len);
                assert(has_run_of(prev.runs, k));
                let m = choose|m: int|
                    0 <= m < prev.runs.len() && #[trigger] prev.runs[m].highlight == Some(k as usize);
                lemma_runs_prefix_kept(prev.runs, gap + seq![own], m);
                assert(l.runs[m] == prev.runs[m]);
            } else {
                assert(l.runs[p + g].highlight == Some(k as usize));
            }
        }
        assert forall|k: int| 0 <= k < hs.len() implies #[trigger] hs[k].end <= l.ix by {
            if k < n {
                assert(hs[k].end <= hs[n].start);
            }
        }
    }
}

/// Laying out highlights that are in order puts each in its place: every run
/// of a highlight starts where that highlight starts and is exactly as long
/// as it, every plain run is non-empty and overlaps no highlight, and every
/// highlight has a run of its own. Together with the runs covering the text,
/// the runs are exactly the gaps and the highlights, in order.
pub proof fn law_style_runs_in_place(hs: Seq<Range<usize>>, text_len: usize)
    requires
        highlights_in_order(hs, text_len),
        hs.len() <= usize::MAX,
    ensures
        forall|m: int|
            0 <= m < style_runs_of(hs, text_len).len() ==> run_in_place(hs, style_runs_of(hs, text_len), m),
        forall|k: int| 0 <= k < hs.len() ==> #[trigger] has_run_of(style_runs_of(hs, text_len), k),
{
    lemma_lay_in_place(hs, text_len);
    lemma_lay_len(hs, text_len);
    let l = lay_highlights(hs);
    let runs = style_runs_of(hs, text_len);
    if l.ix < text_len {
        let tail = StyleRun { len: (text_len - l.ix) as usize, highlight: None };
        assert(runs == l.runs.push(tail));
        assert forall|m: int| 0 <= m < runs.len() implies run_in_place(hs, runs, m) by {
            if m < l.runs.len() {
                assert(runs.take(m) =~= l.runs.take(m));
                assert(runs[m] == l.runs[m]);
                assert(run_in_place(hs, l.runs, m));
            } else {
                assert(runs.take(m) =~= l.runs);
                assert(runs[m] == tail);
                assert forall|k: int| #![trigger hs[k]] 0 <= k < hs.len() implies hs[k].end <= l.ix
                    || hs[k].start >= l.ix + tail.len by {
                    assert(hs[k].end <= l.ix);
                }
            }
        }
        assert forall|k: int| 0 <= k < hs.len() implies #[trigger] has_run_of(runs, k) by {
            assert(has_run_of(l.runs, k));
            let m = choose|m: int| 0 <= m < l.runs.len() && #[trigger] l.runs[m].highlight == Some(k as usize);
            assert(runs[m] == l.runs[m]);
        }
    }
}

} // verus!
