//! Which bytes of a line of text a selection covers, given which of its
//! characters are selected.
use std::ops::Range;
use vstd::prelude::*;
use crate::runs::{total, lemma_total_prefix};

verus! {

/// The selection over characters of byte lengths `lens` of which those
/// marked in `selected` are selected: from the start of the first selected
/// character to the end of the last one, or `None` when none is.
pub open spec fn selected_span(lens: Seq<usize>, selected: Seq<bool>) -> Option<Range<usize>>
    decreases lens.len(),
{
    if lens.len() == 0 {
        None
    } else {
        let prev = selected_span(lens.drop_last(), selected.drop_last());
        let start = total(lens.drop_last());
        let end = start + lens.last();
        if selected.last() {
            Some(
                match prev {
                    Some(r) => Range { start: r.start, end: end as usize },
                    None => Range { start: start as usize, end: end as usize },
                },
            )
        } else {
            prev
        }
    }
}

proof fn lemma_selected_span_none(lens: Seq<usize>, selected: Seq<bool>)
    requires
        lens.len() == selected.len(),
    ensures
        selected_span(lens, selected) is None <==> forall|i: int|
            0 <= i < selected.len() ==> !#[trigger] selected[i],
    decreases lens.len(),
{
    if lens.len() > 0 {
        lemma_selected_span_none(lens.drop_last(), selected.drop_last());
        assert forall|i: int| 0 <= i < selected.drop_last().len() implies #[trigger] selected.drop_last()[i]
            == selected[i] by {}
        let n = selected.len() - 1;
        assert(selected.last() == selected[n]);
        if selected[n] {
            assert(selected_span(lens, selected) is Some);
        } else {
            if forall|i: int| 0 <= i < selected.drop_last().len() ==> !#[trigger] selected.drop_last()[i] {
                assert forall|i: int| 0 <= i < selected.len() implies !#[trigger] selected[i] by {
                    if i < n {
                        assert(selected.drop_last()[i] == selected[i]);
                    }
                }
            }
            if forall|i: int| 0 <= i < selected.len() ==> !#[trigger] selected[i] {
                assert forall|i: int| 0 <= i < selected.drop_last().len() implies !#[trigger] selected.drop_last()[i] by {
                    assert(selected.drop_last()[i] == selected[i]);
                }
            }
        }
    }
}

/// The byte range that the selected characters span.
pub fn selection_span(char_lens: &[usize], selected: &[bool]) -> (res: Option<Range<usize>>)
    requires
        char_lens.len() == selected.len(),
        total(char_lens@) <= usize::MAX,
    ensures
        res == selected_span(char_lens@, selected@),
        res is None <==> forall|i: int| 0 <= i < selected.len() ==> !#[trigger] selected@[i],
{
    let ghost lens = char_lens@;
    let ghost sel = selected@;
    let mut span: Option<Range<usize>> = None;
    let mut offset: usize = 0;
    let mut i: usize = 0;
    proof {
        assert(lens.take(0) =~= Seq::<usize>::empty());
        assert(sel.take(0) =~= Seq::<bool>::empty());
        lemma_selected_span_none(lens, sel);
    }
    while i < char_lens.len()
        invariant
            0 <= i <= char_lens.len(),
            char_lens.len() == selected.len(),
            lens == char_lens@,
            sel == selected@,
            total(lens) <= usize::MAX,
            offset == total(lens.take(i as int)),
            span == selected_span(lens.take(i as int), sel.take(i as int)),
        decreases char_lens.len() - i,
    {
        proof {
            assert(lens.take(i + 1).drop_last() =~= lens.take(i as int));
            assert(sel.take(i + 1).drop_last() =~= sel.take(i as int));
            assert(lens.take(i + 1).last() == lens[i as int]);
            assert(sel.take(i + 1).last() == sel[i as int]);
            lemma_total_prefix(lens, i + 1);
        }
        let next = offset + char_lens[i];
        if selected[i] {
            span = match span {
                Some(r) => Some(r.start..next),
                None => Some(offset..next),
            };
        }
        offset = next;
        i += 1;
    }
    proof {
        assert(lens.take(char_lens.len() as int) =~= lens);
        assert(sel.take(char_lens.len() as int) =~= sel);
    }
    span
}

} // verus!
