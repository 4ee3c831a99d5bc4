use inline_text::padding::CodePadding;
use inline_text::runs::{split_runs, RunPart};

#[test]
fn chip_padding_is_display_only_and_round_trips_unicode_selection() {
    let source = "é \u{2005}code 後";
    let code = 6..10;
    let (display, padding) = CodePadding::new(source, &[code.clone()]);
    assert!(display.len() > source.len());
    assert_eq!(padding.source_range(0..display.len()), 0..source.len());
    let displayed_code = padding.display_range(code.clone());
    assert_eq!(padding.source_range(displayed_code.clone()), code);
    assert!(display[displayed_code].contains("code"));
    for offset in source
        .char_indices()
        .map(|(index, _)| index)
        .chain([source.len()])
    {
        assert_eq!(
            padding.source_offset(padding.display_offset(offset)),
            offset
        );
    }
    for (_, inserted, _) in padding.insertions() {
        assert!(padding.source_range(inserted.clone()).is_empty());
    }
    // An actual space in the code/source is never stripped as padding.
    assert_eq!(&source[padding.source_range(0..display.len())], source);
}

#[test]
fn padding_keeps_adjacent_highlight_ranges_disjoint() {
    let (_, padding) = CodePadding::new("a code z", &[2..6]);
    let before = padding.display_range(0..2);
    let code = padding.display_range(2..6);
    let after = padding.display_range(6..8);
    assert_eq!(before.end, code.start);
    assert_eq!(code.end, after.start);
    assert_eq!(before.len(), 2);
    assert_eq!(after.len(), 2);
    assert!(code.len() > 4);
}

#[test]
fn code_font_splits_runs_and_preserves_utf8_offsets_and_surrounding_style() {
    let text = "é code 後";
    let runs = split_runs(&[text.len()], &[3..7]);
    assert_eq!(runs.iter().map(|run| run.len).collect::<Vec<_>>(), vec![3, 4, 4]);
    // A piece outside the code font keeps the surrounding style.
    assert_eq!(runs[0].font, None);
    // The code piece is set in the code font.
    assert_eq!(runs[1].font, Some(0));
    assert_eq!(runs[2].font, None);
}

#[test]
fn padding_layout_is_exact() {
    let (display, padding) = CodePadding::new("a code z", &[2..6]);
    assert_eq!(display, "a \u{2060}\u{2005}\u{2060}code\u{2060}\u{2005}\u{2060} z");
    assert_eq!(display.len(), 8 + 18);
    assert_eq!(padding.insertions(), &[(2, 2..11, true), (6, 15..24, false)][..]);
    assert_eq!(padding.display_offset(2), 2);
    assert_eq!(padding.display_offset(6), 24);
    assert_eq!(padding.display_offset(7), 25);
    assert_eq!(padding.source_offset(5), 2);
    assert_eq!(padding.source_offset(20), 6);
}

#[test]
fn padding_boundaries_are_merged_and_ordered() {
    // Adjacent code ranges share a boundary at 3: the closing padding of the
    // first comes before the opening padding of the second; duplicates and
    // empty ranges add nothing.
    let (display, padding) = CodePadding::new("abcdef", &[3..5, 1..3, 1..3, 4..4]);
    let at: Vec<(usize, bool)> = padding.insertions().iter().map(|(o, _, opening)| (*o, *opening)).collect();
    assert_eq!(at, vec![(1, true), (3, false), (3, true), (5, false)]);
    assert_eq!(display.len(), 6 + 4 * 9);
    assert_eq!(padding.source_range(0..display.len()), 0..6);
}

#[test]
fn padding_without_fonts_changes_nothing() {
    let (display, padding) = CodePadding::new("plain", &[]);
    assert_eq!(display, "plain");
    assert!(padding.insertions().is_empty());
    assert_eq!(padding.display_offset(3), 3);
    assert_eq!(padding.source_offset(3), 3);
    let empty = CodePadding::default();
    assert_eq!(empty.display_range(1..4), 1..4);
}

#[test]
fn runs_without_fonts_stay_as_they_are() {
    let runs = split_runs(&[2, 0, 5], &[]);
    assert_eq!(
        runs,
        vec![
            RunPart { run: 0, len: 2, font: None },
            RunPart { run: 1, len: 0, font: None },
            RunPart { run: 2, len: 5, font: None },
        ]
    );
}

#[test]
fn runs_are_cut_at_every_font_boundary_inside_them() {
    // Two runs over 0..4 and 4..10; code fonts over 2..6 and 8..20.
    let runs = split_runs(&[4, 6, 0], &[2..6, 8..20]);
    assert_eq!(
        runs,
        vec![
            RunPart { run: 0, len: 2, font: None },
            RunPart { run: 0, len: 2, font: Some(0) },
            RunPart { run: 1, len: 2, font: Some(0) },
            RunPart { run: 1, len: 2, font: None },
            RunPart { run: 1, len: 2, font: Some(1) },
        ]
    );
    assert_eq!(runs.iter().map(|run| run.len).sum::<usize>(), 10);
}

#[test]
fn try_new_refuses_what_new_cannot_cut() {
    // 1..2 ends inside "é" (bytes 0..2).
    assert!(CodePadding::try_new("é code", &[1..2]).is_none());
    assert!(CodePadding::try_new("abc", &[1..9]).is_none());
    // An empty range is ignored wherever it lies.
    let (display, padding) = CodePadding::try_new("abc", &[7..7]).unwrap();
    assert_eq!(display, "abc");
    assert!(padding.insertions().is_empty());
    let (display, padding) = CodePadding::try_new("é code", &[3..7]).unwrap();
    let (expected, _) = CodePadding::new("é code", &[3..7]);
    assert_eq!(display, expected);
    assert_eq!(padding.insertions().len(), 2);
}

#[test]
fn checked_ranges_match_the_plain_ones() {
    let (display, padding) = CodePadding::new("a code z", &[2..6]);
    assert_eq!(padding.checked_display_range(2..6), Some(padding.display_range(2..6)));
    assert_eq!(
        padding.checked_source_range(0..display.len()),
        Some(padding.source_range(0..display.len()))
    );
    assert_eq!(padding.checked_display_range(0..usize::MAX), None);
    // The padding's display range maps to an empty source range.
    assert_eq!(padding.checked_source_range(2..11), Some(2..2));
}

#[test]
fn empty_padding_is_the_identity() {
    let empty = CodePadding::default();
    for o in 0..10 {
        assert_eq!(empty.display_offset(o), o);
        assert_eq!(empty.source_offset(o), o);
    }
    let (display, padding) = CodePadding::new("text", &[1..1, 3..2]);
    assert_eq!(display, "text");
    assert!(padding.insertions().is_empty());
    assert_eq!(padding.display_range(1..3), 1..3);
    assert_eq!(padding.source_range(1..3), 1..3);
}

#[test]
fn display_ranges_cover_their_source() {
    let source = "x `code` y";
    let (display, padding) = CodePadding::new(source, &[3..7]);
    for a in 0..=source.len() {
        for b in a..=source.len() {
            let shown = padding.display_range(a..b);
            assert!(shown.len() >= b - a);
            assert_eq!(padding.source_range(shown), a..b);
        }
    }
    // Every display offset maps back within the source.
    for d in 0..=display.len() {
        assert!(padding.checked_source_range(d..d).is_some());
        assert!(padding.source_offset(d) <= source.len());
    }
}
