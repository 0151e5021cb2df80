use wizard::output::{header_text, highlight_differences, pad, strip_ansi, suggestions_text};
use wizard::search::Suggestion;

#[test]
fn padding_ignores_color_codes() {
    let highlighted = highlight_differences("spelcheck", "spellcheck");
    assert_eq!(strip_ansi(&pad(&highlighted, 20)), "spellcheck          ");
}

#[test]
fn highlight_colors_each_grapheme_against_the_input() {
    assert_eq!(
        highlight_differences("ab", "axc"),
        "\x1b[32ma\x1b[0m\x1b[31mx\x1b[0m\x1b[35mc\x1b[0m"
    );
    assert_eq!(highlight_differences("abc", ""), "");
    // An accented letter written with a combining mark is one grapheme.
    assert_eq!(
        highlight_differences("cafe\u{301}", "cafe\u{301}s"),
        "\x1b[32mc\x1b[0m\x1b[32ma\x1b[0m\x1b[32mf\x1b[0m\x1b[32me\u{301}\x1b[0m\x1b[35ms\x1b[0m"
    );
}

#[test]
fn strip_ansi_removes_escape_codes_only() {
    assert_eq!(strip_ansi("\x1b[31mred\x1b[0m plain"), "red plain");
    assert_eq!(strip_ansi("a\x1b[1;4mb"), "ab");
    // An unterminated code swallows the rest.
    assert_eq!(strip_ansi("a\x1b[31"), "a");
    // A lone escape without `[` stays.
    assert_eq!(strip_ansi("a\x1bb"), "a\x1bb");
    assert_eq!(strip_ansi(""), "");
}

#[test]
fn pad_counts_graphemes_and_never_truncates() {
    assert_eq!(pad("ab", 5), "ab   ");
    assert_eq!(pad("e\u{301}", 3), "e\u{301}  ");
    assert_eq!(pad("\x1b[32mab\x1b[0m", 4), "\x1b[32mab\x1b[0m  ");
    assert_eq!(pad("abcdef", 3), "abcdef");
}

#[test]
fn header_has_columns_and_rule() {
    let plain = header_text(false);
    let lines: Vec<&str> = plain.lines().collect();
    assert_eq!(lines.len(), 2);
    assert_eq!(lines[0], format!("{:<20} | {:<50}", "Suggested Command", "Location"));
    assert_eq!(lines[1], "-".repeat(73));
    let verbose = header_text(true);
    let lines: Vec<&str> = verbose.lines().collect();
    assert_eq!(
        lines[0],
        format!("{:<20} | {:<50} | {:<10}", "Suggested Command", "Location", "Similarity")
    );
    assert_eq!(lines[1], "-".repeat(86));
}

#[test]
fn report_without_matches() {
    assert_eq!(
        suggestions_text("wizard-parity-definitely-missing", &vec![], &vec![], false),
        "\nCommand 'wizard-parity-definitely-missing' not found and no close matches.\n"
    );
}

#[test]
fn report_with_matches() {
    let matches = vec![Suggestion {
        name: "ls".into(),
        path: "/bin/ls".into(),
        similarity_bits: 0.9f64.to_bits(),
    }];
    let report = suggestions_text("lz", &matches, &vec!["0.90".into()], true);
    let expected = format!(
        "\nCommand 'lz' not found. Close matches:\n\n{}{}{} | {:<50} | {:<10}\n",
        header_text(true),
        "\x1b[32ml\x1b[0m\x1b[31ms\x1b[0m",
        " ".repeat(18),
        "/bin/ls",
        "0.90"
    );
    assert_eq!(report, expected);
    let quiet = suggestions_text("lz", &matches, &vec!["0.90".into()], false);
    assert!(quiet.ends_with(&format!(" | {:<50}\n", "/bin/ls")));
    assert!(!quiet.contains("0.90"));
}
