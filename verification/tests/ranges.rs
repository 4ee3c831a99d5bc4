use inline_text::runs::{covers_any, first_holding_index, style_runs, StyleRun};

#[test]
fn first_holding_range_is_found() {
    let ranges = [0..2, 5..9, 6..7];
    assert_eq!(first_holding_index(&ranges, 0), Some(0));
    assert_eq!(first_holding_index(&ranges, 2), None);
    assert_eq!(first_holding_index(&ranges, 6), Some(1));
    assert_eq!(first_holding_index(&ranges, 9), None);
    assert_eq!(first_holding_index(&[], 1), None);
}

#[test]
fn covering_range_is_found() {
    let ranges = [0..2, 5..9];
    assert!(covers_any(&ranges, &(5..9)));
    assert!(covers_any(&ranges, &(6..7)));
    assert!(!covers_any(&ranges, &(1..3)));
    assert!(!covers_any(&[], &(0..0)));
}

#[test]
fn style_runs_fill_gaps_between_highlights() {
    let runs = style_runs(&[2..4, 4..5, 7..9], 12);
    assert_eq!(
        runs,
        vec![
            StyleRun { len: 2, highlight: None },
            StyleRun { len: 2, highlight: Some(0) },
            StyleRun { len: 1, highlight: Some(1) },
            StyleRun { len: 2, highlight: None },
            StyleRun { len: 2, highlight: Some(2) },
            StyleRun { len: 3, highlight: None },
        ]
    );
    assert_eq!(runs.iter().map(|run| run.len).sum::<usize>(), 12);
}

#[test]
fn style_runs_without_highlights_are_one_plain_run() {
    assert_eq!(style_runs(&[], 5), vec![StyleRun { len: 5, highlight: None }]);
    assert!(style_runs(&[], 0).is_empty());
    assert_eq!(style_runs(&[0..3], 3), vec![StyleRun { len: 3, highlight: Some(0) }]);
}
