use rgvg::{
    color_submatch, match_view, padding_and_wrap, submatches_fit, CgVgError, Match, Stats,
    SubMatch, Text,
};

fn colors_on() {
    colored::control::set_override(true);
}

#[test]
fn test_color_submatch() {
    colors_on();
    let text = "aaaaabbbbbcccccdddddeeeee".to_string();
    let submatches = vec![(0, 15)];
    let colored = color_submatch(&text, &submatches);
    assert_eq!(colored.is_some(), true);
    assert_eq!(
        "\u{1b}[1;34maaaaabbbbbccccc\u{1b}[0mdddddeeeee",
        colored.unwrap()
    );

    let submatches = vec![(0, 5)];
    let colored = color_submatch(&text, &submatches);
    assert_eq!(colored.is_some(), true);
    assert_eq!(
        "\u{1b}[1;34maaaaa\u{1b}[0mbbbbbcccccdddddeeeee",
        colored.unwrap()
    );

    let submatches = vec![(10, 25)];
    let colored = color_submatch(&text, &submatches);
    assert_eq!(colored.is_some(), true);
    assert_eq!(
        "aaaaabbbbb\u{1b}[1;34mcccccdddddeeeee\u{1b}[0m",
        colored.unwrap()
    );

    let submatches = vec![(0, 24)];
    let colored = color_submatch(&text, &submatches);
    assert_eq!(colored.is_some(), true);
    assert_eq!(
        "\u{1b}[1;34maaaaabbbbbcccccdddddeeee\u{1b}[0me",
        colored.unwrap()
    );

    let submatches = vec![(0, 26)];
    let result = submatches_fit(&text, &submatches);
    assert_eq!(false, result);
}

#[test]
fn color_submatch_several_ranges_and_newline() {
    colors_on();
    let text = "foo bar foo\n".to_string();
    let colored = color_submatch(&text, &vec![(0, 3), (8, 11)]).unwrap();
    assert_eq!(
        "\u{1b}[1;34mfoo\u{1b}[0m bar \u{1b}[1;34mfoo\u{1b}[0m\n",
        colored
    );
    // no range: the text as it is
    assert_eq!(Some("foo bar foo\n".to_string()), color_submatch(&text, &vec![]));
    // a range may cover the trailing newline
    assert!(submatches_fit(&"a\n".to_string(), &vec![(0, 2)]));
    assert_eq!(
        Some("\u{1b}[1;34ma\n\u{1b}[0m".to_string()),
        color_submatch(&"a\n".to_string(), &vec![(0, 2)])
    );
}

#[test]
fn submatches_fit_refuses_bad_ranges() {
    let text = "foo bar foo".to_string();
    // overlapping
    assert!(!submatches_fit(&text, &vec![(0, 5), (4, 6)]));
    // out of order
    assert!(!submatches_fit(&text, &vec![(8, 11), (0, 3)]));
    // reversed
    assert!(!submatches_fit(&text, &vec![(5, 3)]));
    // past the end
    assert!(!submatches_fit(&text, &vec![(0, 12)]));
    // inside a char
    assert!(!submatches_fit(&"é".to_string(), &vec![(0, 1)]));
    // touching ranges are fine
    assert!(submatches_fit(&text, &vec![(0, 3), (3, 4)]));
    assert!(submatches_fit(&text, &vec![(0, 11)]));
}

#[test]
fn padding_and_wrap_aligns_prefix() {
    colors_on();
    let lines = padding_and_wrap(&"abcdefgh".to_string(), &7, &3, &20, Some(120), Some(10))
        .unwrap();
    // prefix: "3 " (2 wide) + 4 spaces + "7  " (3 wide) + 4 spaces = 13 columns
    assert_eq!(
        vec![
            "\u{1b}[36m3 \u{1b}[0m    \u{1b}[95m7  \u{1b}[0m    abcdefg".to_string(),
            format!("{}h      ", " ".repeat(13)),
        ],
        lines
    );
}

#[test]
fn padding_and_wrap_too_narrow() {
    assert_eq!(
        Err(CgVgError::DegenerateWidth),
        padding_and_wrap(&"abc".to_string(), &7, &3, &10, None, None)
    );
}

fn text(s: &str) -> Text {
    Text {
        text: s.to_string(),
    }
}

fn line_match(path: &str, line: &str, line_number: u32, ranges: Vec<(u32, u32)>) -> Match {
    Match::Match {
        path: text(path),
        lines: text(line),
        line_number,
        absolute_offset: 0,
        submatches: ranges
            .into_iter()
            .map(|(start, end)| SubMatch {
                submatch: text(&line[start as usize..end as usize]),
                start,
                end,
            })
            .collect(),
    }
}

#[test]
fn match_view_renders_a_batch() {
    colors_on();
    let records = vec![
        (Match::Begin { path: text("src/a.rs") }, 0),
        (line_match("src/a.rs", "let x = 1;\n", 12, vec![(4, 5)]), 0),
        (Match::End { path: text("src/a.rs") }, 0),
        (
            Match::Summary {
                stats: Stats {
                    matched_lines: 1,
                    matches: 1,
                    searches: 1,
                    searches_with_match: 1,
                },
            },
            0,
        ),
    ];
    let lines = match_view(&records, &30, None).unwrap();
    assert_eq!(
        vec![
            "\u{1b}[31msrc/a.rs\u{1b}[0m".to_string(),
            "\u{1b}[36m0\u{1b}[0m    \u{1b}[95m12\u{1b}[0m    let \u{1b}[1;34mx\u{1b}[0m = 1;         "
                .to_string(),
            "".to_string(),
        ],
        lines
    );
}

#[test]
fn match_view_truncates_long_lines() {
    colors_on();
    let records = vec![(line_match("a", "0123456789", 3, vec![]), 4)];
    let lines = match_view(&records, &40, Some(&5)).unwrap();
    assert_eq!(
        vec!["\u{1b}[36m4\u{1b}[0m    \u{1b}[95m3\u{1b}[0m    \u{1b}[31mtext truncated size(10)>5\u{1b}[0m     "],
        lines
    );
}

#[test]
fn match_view_reports_bad_submatch() {
    let records = vec![(line_match("a", "abc", 3, vec![]), 0)];
    let mut bad = records.clone();
    if let Match::Match { submatches, .. } = &mut bad[0].0 {
        submatches.push(SubMatch {
            submatch: text("x"),
            start: 2,
            end: 9,
        });
    }
    assert_eq!(Err(CgVgError::SubmatchRangeInvalid), match_view(&bad, &40, None));
    assert_eq!(Err(CgVgError::DegenerateWidth), match_view(&records, &5, None));
}
