use colored::Colorize;
use rgvg::{iter_colored, number_of_digits, pad_number, wrap_text, CgVgError};

fn colors_on() {
    colored::control::set_override(true);
}

#[test]
fn test_wrap_text() {
    colors_on();
    let tab_size = 8;
    // Simple cases
    let res = wrap_text("1234567890abc", &5, &tab_size, false).unwrap();
    assert_eq!(vec!["12345", "67890", "abc"], res);

    let res = wrap_text("1234567890abc", &15, &tab_size, false).unwrap();
    assert_eq!(vec!["1234567890abc"], res);

    // Got coloring
    let blue = format!("aaaaabbbbbzzzzz").blue().to_string();

    let res = wrap_text(&blue, &5, &tab_size, false).unwrap();
    assert_eq!(
        vec![
            "\u{1b}[34maaaaa\u{1b}[0m",
            "\u{1b}[34mbbbbb\u{1b}[0m",
            "\u{1b}[34mzzzzz\u{1b}[0m"
        ],
        res
    );

    let blue_bold_underline = format!("aaaaabbbbbzzzzz")
        .blue()
        .bold()
        .underline()
        .to_string();

    let res = wrap_text(&blue_bold_underline, &5, &tab_size, false).unwrap();

    assert_eq!(
        vec![
            "\u{1b}[1;4;34maaaaa\u{1b}[0m",
            "\u{1b}[1;4;34mbbbbb\u{1b}[0m",
            "\u{1b}[1;4;34mzzzzz\u{1b}[0m"
        ],
        res
    );

    let begin = format!("{}", "aaaaa".to_string().blue());
    let middle = format!("{}", "bbbbb".to_string().white());
    let end = format!("{}", "zzzzz".to_string().red());

    let blue_bold_underline = format!("{begin}{middle}{end}").underline().to_string();

    let res = wrap_text(&blue_bold_underline, &5, &tab_size, false).unwrap();
    assert_eq!(
        vec![
            "\u{1b}[4m\u{1b}[34maaaaa\u{1b}[0m",
            "\u{1b}[4m\u{1b}[34m\u{1b}[0m\u{1b}[4m\u{1b}[37mbbbbb\u{1b}[0m",
            "\u{1b}[4m\u{1b}[37m\u{1b}[0m\u{1b}[4m\u{1b}[31mzzzzz\u{1b}[0m"
        ],
        res
    );

    let res = wrap_text(&"\taaaaaaaabbbbbbbb".to_string(), &8, &tab_size, false).unwrap();
    assert_eq!(vec!["        ", "aaaaaaaa", "bbbbbbbb"], res);
}

#[test]
fn test_iter_colored() {
    colors_on();
    let blue_bold_underline = format!("abz").blue().bold().underline().to_string();

    assert_eq!(
        vec!["\u{1b}[1;4;34m", "a", "b", "z", "\u{1b}[0m"],
        iter_colored(&blue_bold_underline).unwrap()
    );
}

#[test]
fn test_number_of_digits() {
    let zero = 0_u32;
    assert_eq!(1, number_of_digits(&zero));

    let cinq = 5_u32;
    assert_eq!(1, number_of_digits(&cinq));

    let dix = 11_u32;
    assert_eq!(2, number_of_digits(&dix));

    let cinquante = 100_u32;
    assert_eq!(3, number_of_digits(&cinquante));
}

#[test]
fn pad_number_values() {
    assert_eq!("100  ", pad_number(100, 5));
    assert_eq!("100", pad_number(100, 3));
    // 100 needs 3 columns: a width of 0 is below what pad_number takes
    assert!(number_of_digits(&100u32) > 0);
    assert_eq!("0", pad_number(0, 1));
    assert_eq!("4294967295 ", pad_number(u32::MAX, 11));
}

#[test]
fn number_of_digits_edges() {
    assert_eq!(1, number_of_digits(&9u32));
    assert_eq!(2, number_of_digits(&10u32));
    assert_eq!(2, number_of_digits(&99u32));
    assert_eq!(10, number_of_digits(&u32::MAX));
    assert_eq!(10, number_of_digits(&1_000_000_000u32));
    assert_eq!(1, number_of_digits(&0u8));
    assert_eq!(3, number_of_digits(&255u8));
    assert_eq!(19, number_of_digits(&9_999_999_999_999_999_999u64));
    assert_eq!(15, number_of_digits(&999_999_999_999_999u64));
    assert_eq!(20, number_of_digits(&u64::MAX));
}

#[test]
fn wrap_plain_text_joins_back() {
    let text = "the quick brown fox jumps over the lazy dog";
    for width in 1..50u32 {
        let lines = wrap_text(text, &width, &4, false).unwrap();
        assert_eq!(text, lines.concat());
        for (i, line) in lines.iter().enumerate() {
            let n = line.chars().count() as u32;
            assert!(n <= width);
            if i + 1 < lines.len() {
                assert_eq!(width, n);
            }
        }
    }
}

#[test]
fn wrap_single_color_reopens_each_line() {
    let text = "\u{1b}[31mabcdefghijkl\u{1b}[0m";
    let lines = wrap_text(text, &5, &0, false).unwrap();
    assert_eq!(
        vec![
            "\u{1b}[31mabcde\u{1b}[0m",
            "\u{1b}[31mfghij\u{1b}[0m",
            "\u{1b}[31mkl\u{1b}[0m"
        ],
        lines
    );
}

#[test]
fn wrap_empty_and_escape_only() {
    assert_eq!(Vec::<String>::new(), wrap_text("", &5, &8, false).unwrap());
    assert_eq!(
        Vec::<String>::new(),
        wrap_text("\u{1b}[34m\u{1b}[0m", &5, &8, true).unwrap()
    );
}

#[test]
fn wrap_fill_end_pads_last_line() {
    let lines = wrap_text("abcdefg", &5, &8, true).unwrap();
    assert_eq!(vec!["abcde", "fg   "], lines);
    let lines = wrap_text("abcde", &5, &8, true).unwrap();
    assert_eq!(vec!["abcde"], lines);
}

#[test]
fn wrap_tab_size_zero_drops_tabs() {
    let lines = wrap_text("a\tb", &5, &0, false).unwrap();
    assert_eq!(vec!["ab"], lines);
    let lines = wrap_text("a\tb", &5, &2, false).unwrap();
    assert_eq!(vec!["a  b"], lines);
}

#[test]
fn wrap_zero_width_is_invalid() {
    assert_eq!(Err(CgVgError::InvalidWidth), wrap_text("abc", &0, &8, false));
}

#[test]
fn wrap_incomplete_escape_fails() {
    assert_eq!(
        Err(CgVgError::IncompleteEscape),
        wrap_text("abc\u{1b}[31", &5, &8, false)
    );
    assert_eq!(Err(CgVgError::IncompleteEscape), iter_colored("x\u{1b}["));
}

#[test]
fn iter_colored_plain_and_unicode() {
    assert_eq!(vec!["h", "é", "\t", "!"], iter_colored("hé\t!").unwrap());
    assert_eq!(Vec::<String>::new(), iter_colored("").unwrap());
}
