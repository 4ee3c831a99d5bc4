use inline_text::edits::edited;
use inline_text::tokens::{expand, serialize, snap, tokenize, InlineToken, InlineTokenSpec};

fn sample() -> (String, Vec<InlineToken>) {
    tokenize(
        "hi [person](target)!",
        vec![InlineTokenSpec {
            range: 3..19,
            label: "@Zoë".into(),
        }],
    )
}

#[test]
fn serialization_preserves_source_and_unicode_display() {
    let (text, tokens) = sample();
    assert_eq!(text, "hi @Zoë!");
    assert_eq!(
        serialize(&text, &tokens, 0..text.len()),
        "hi [person](target)!"
    );
    assert_eq!(
        serialize(&text, &tokens, tokens[0].range.clone()),
        "[person](target)"
    );
}

#[test]
fn selection_and_cursor_cannot_split_tokens() {
    let (_, tokens) = sample();
    assert_eq!(expand(&tokens, 4..5), 3..8);
    assert_eq!(snap(&tokens, 7, Some(false)), 3);
    assert_eq!(snap(&tokens, 4, Some(true)), 8);
    assert_eq!(expand(&tokens, 5..5), 3..3);
}

#[test]
fn edits_shift_tokens_and_remove_replaced_tokens() {
    let (_, tokens) = sample();
    assert_eq!(edited(&tokens, &(0..0), 2, vec![])[0].range, 5..10);
    assert!(edited(&tokens, &(3..8), 0, vec![]).is_empty());
    assert_eq!(edited(&tokens, &(8..8), 1, vec![]), tokens);
}

fn spec(range: std::ops::Range<usize>, label: &str) -> InlineTokenSpec {
    InlineTokenSpec { range, label: label.into() }
}

#[test]
fn tokenize_skips_specs_it_cannot_use() {
    let text = "ab cd ef gh é";
    let (display, tokens) = tokenize(
        text,
        vec![
            spec(0..2, "A"),    // accepted
            spec(1..4, "X"),    // overlaps the previous token
            spec(3..3, "X"),    // empty
            spec(3..5, ""),     // empty label
            spec(6..8, "E\nF"), // line break in the label
            spec(6..8, "E\rF"), // carriage return in the label
            spec(9..13, "X"),   // ends inside "é"
            spec(9..20, "X"),   // past the end
            spec(6..8, "E"),    // accepted
        ],
    );
    assert_eq!(display, "A cd E gh é");
    assert_eq!(
        tokens,
        vec![
            InlineToken { range: 0..1, source: "ab".into() },
            InlineToken { range: 5..6, source: "ef".into() },
        ]
    );
    assert_eq!(serialize(&display, &tokens, 0..display.len()), text);
    assert_eq!(&display[tokens[0].range.clone()], "A");
    assert_eq!(&display[tokens[1].range.clone()], "E");
}

#[test]
fn tokenize_without_specs_keeps_the_text() {
    let (display, tokens) = tokenize("héllo", vec![]);
    assert_eq!(display, "héllo");
    assert!(tokens.is_empty());
    let (display, tokens) = tokenize("", vec![spec(0..0, "x")]);
    assert_eq!(display, "");
    assert!(tokens.is_empty());
}

#[test]
fn serialize_keeps_only_tokens_inside_the_range() {
    let (display, tokens) = tokenize("[a] and [b]", vec![spec(0..3, "A"), spec(8..11, "B")]);
    assert_eq!(display, "A and B");
    assert_eq!(serialize(&display, &tokens, 0..5), "[a] and");
    assert_eq!(serialize(&display, &tokens, 1..7), " and [b]");
    assert_eq!(serialize(&display, &tokens, 2..4), "an");
    assert_eq!(serialize(&display, &tokens, 6..7), "[b]");
    for token in &tokens {
        assert_eq!(serialize(&display, &tokens, token.range.clone()), token.source);
    }
}

#[test]
fn snap_moves_to_the_nearer_end() {
    let (_, tokens) = tokenize("xx[abcdef]yy", vec![spec(2..10, "LABEL")]);
    // The token occupies 2..7 of the display.
    assert_eq!(tokens[0].range, 2..7);
    assert_eq!(snap(&tokens, 3, None), 2);
    assert_eq!(snap(&tokens, 5, None), 7);
    assert_eq!(snap(&tokens, 6, None), 7);
    assert_eq!(snap(&tokens, 2, None), 2);
    assert_eq!(snap(&tokens, 7, Some(false)), 7);
    assert_eq!(snap(&tokens, 1, Some(true)), 1);
    assert_eq!(expand(&tokens, 1..3), 1..7);
    assert_eq!(expand(&tokens, 3..9), 2..9);
    assert_eq!(expand(&tokens, 9..9), 9..9);
    assert_eq!(expand(&tokens, 6..3), 7..7);
}

#[test]
fn edited_places_inserted_tokens_and_sorts() {
    let (_, tokens) = tokenize("[a] [b]", vec![spec(0..3, "A"), spec(4..7, "B")]);
    assert_eq!(tokens[0].range, 0..1);
    assert_eq!(tokens[1].range, 2..3);
    // Replace the space (1..2) by four bytes that hold a token at 1..3.
    let inserted = vec![InlineToken { range: 1..3, source: "[c]".into() }];
    let result = edited(&tokens, &(1..2), 4, inserted);
    assert_eq!(
        result,
        vec![
            InlineToken { range: 0..1, source: "[a]".into() },
            InlineToken { range: 2..4, source: "[c]".into() },
            InlineToken { range: 5..6, source: "[b]".into() },
        ]
    );
}

#[test]
fn edited_sort_is_stable() {
    let tokens = vec![
        InlineToken { range: 5..6, source: "x".into() },
        InlineToken { range: 1..2, source: "y".into() },
        InlineToken { range: 5..5, source: "z".into() },
    ];
    let result = edited(&tokens, &(9..9), 0, vec![]);
    assert_eq!(
        result,
        vec![
            InlineToken { range: 1..2, source: "y".into() },
            InlineToken { range: 5..6, source: "x".into() },
            InlineToken { range: 5..5, source: "z".into() },
        ]
    );
}

#[test]
fn token_clone_keeps_range_and_source() {
    let token = InlineToken { range: 3..8, source: "src".into() };
    assert_eq!(token.clone(), token);
    let s = spec(1..2, "l");
    assert_eq!(s.clone(), s);
}

#[test]
fn serialize_of_an_unsplit_range_is_the_matching_source() {
    let text = "xx[abc]yy";
    let (display, tokens) = tokenize(text, vec![spec(2..7, "L")]);
    assert_eq!(display, "xxLyy");
    assert_eq!(tokens[0].range, 2..3);
    // Source offsets of display offsets 1, 2, 3, 4 are 1, 2, 7, 8.
    assert_eq!(serialize(&display, &tokens, 1..4), &text[1..8]);
    assert_eq!(serialize(&display, &tokens, 3..5), &text[7..9]);
    assert_eq!(serialize(&display, &tokens, 0..2), &text[0..2]);
    // Any range between character boundaries can be serialized.
    for a in 0..=display.len() {
        for b in a..=display.len() {
            let _ = serialize(&display, &tokens, a..b);
        }
    }
}

#[test]
fn expanding_twice_is_expanding_once() {
    // Disjoint tokens out of order, with an empty one.
    let tokens = vec![
        InlineToken { range: 10..14, source: "b".into() },
        InlineToken { range: 2..5, source: "a".into() },
        InlineToken { range: 7..7, source: "e".into() },
    ];
    for a in 0..16 {
        for b in 0..16 {
            let once = expand(&tokens, a..b);
            assert_eq!(expand(&tokens, once.clone()), once);
            for token in &tokens {
                assert!(!(token.range.start < once.start && once.start < token.range.end));
                assert!(!(token.range.start < once.end && once.end < token.range.end));
            }
        }
    }
}

#[test]
fn serialize_splits_between_tokens() {
    let text = "ab[x]cd[y]e";
    let (display, tokens) = tokenize(text, vec![spec(2..5, "X"), spec(7..10, "Y")]);
    assert_eq!(display, "abXcdYe");
    for a in 0..=display.len() {
        for b in a..=display.len() {
            for c in b..=display.len() {
                if tokens.iter().all(|t| !(t.range.start < b && b < t.range.end)) {
                    let whole = serialize(&display, &tokens, a..c);
                    let left = serialize(&display, &tokens, a..b);
                    let right = serialize(&display, &tokens, b..c);
                    assert_eq!(whole, left + &right);
                }
            }
        }
    }
}

#[test]
fn edited_tokens_keep_their_text() {
    let text = "[a] [b]";
    let (display, tokens) = tokenize(text, vec![spec(0..3, "A"), spec(4..7, "B")]);
    assert_eq!(display, "A B");
    // Replace the space by "C!" where "C" is a token for "[c]".
    let inserted = "C!";
    let edit = 1..2;
    let new_display = format!("{}{}{}", &display[..edit.start], inserted, &display[edit.end..]);
    let result = edited(
        &tokens,
        &edit,
        inserted.len(),
        vec![InlineToken { range: 0..1, source: "[c]".into() }],
    );
    let shown: Vec<&str> = result.iter().map(|t| &new_display[t.range.clone()]).collect();
    assert_eq!(shown, vec!["A", "C", "B"]);
    let sources: Vec<&str> = result.iter().map(|t| t.source.as_str()).collect();
    assert_eq!(sources, vec!["[a]", "[c]", "[b]"]);
}
