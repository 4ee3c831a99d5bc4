use inline_text::selection::selection_span;

#[test]
fn selection_spans_first_to_last_selected_character() {
    // "aé後b": byte lengths 1, 2, 3, 1.
    let lens = [1, 2, 3, 1];
    assert_eq!(selection_span(&lens, &[false, true, true, false]), Some(1..6));
    assert_eq!(selection_span(&lens, &[true, false, false, true]), Some(0..7));
    assert_eq!(selection_span(&lens, &[false, false, true, false]), Some(3..6));
    assert_eq!(selection_span(&lens, &[false; 4]), None);
    assert_eq!(selection_span(&[], &[]), None);
}
