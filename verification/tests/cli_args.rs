use wizard::cli::{
    help_text, normalize_float, option_value, parse_args_for_terminal, parse_list, parse_usize,
    short_usage, version_text, Action, ParsedArgs, ParseError,
};
use wizard::{Algorithm, OutputFormat, SearchOptions};

fn parse_args<const N: usize, S: Into<String>>(args: [S; N]) -> Result<ParsedArgs, ParseError> {
    parse_args_for_terminal(args.into_iter().map(Into::into).collect(), false)
}

fn run_options(parsed: ParsedArgs) -> (Vec<String>, SearchOptions) {
    match parsed.action {
        Action::Run { commands, options } => (commands, options),
        _ => panic!("expected run action"),
    }
}

#[test]
fn parses_defaults() {
    let parsed = parse_args(["spellcheck"]).unwrap();
    assert_eq!(
        parsed.action,
        Action::Run {
            commands: vec!["spellcheck".into()],
            options: SearchOptions::default(),
        }
    );
}

#[test]
fn parses_fuzzy_options_in_any_position() {
    let parsed = parse_args([
        "spellcheck",
        "--verbose",
        "--sensitivity=.5",
        "--algorithm=lev",
        "--threshold",
        ".8",
        "--matches=3",
        "--ignore=.bat,.cmd",
        "--ignoredir=node_modules, vendor",
    ])
    .unwrap();

    let (commands, options) = run_options(parsed);
    assert_eq!(commands, ["spellcheck"]);
    assert!(options.verbose);
    // The numeric settings are kept as text; the program reads them.
    assert_eq!(options.sensitivity_text.as_deref(), Some(".5"));
    assert_eq!(normalize_float(".5").parse::<f64>().unwrap(), 0.5);
    assert_eq!(options.algorithm, Algorithm::Levenshtein);
    assert_eq!(options.threshold_texts, ["0.8"]);
    assert_eq!(options.threshold_texts[0].parse::<f64>().unwrap(), 0.8);
    assert_eq!(options.num_matches, 3);
    assert_eq!(options.ignore_patterns, [".bat", ".cmd"]);
    assert_eq!(options.ignored_directories, ["node_modules", "vendor"]);
    assert!(!options.include_windows);
}

#[test]
fn collects_every_command_operand() {
    let parsed = parse_args(["first", "second", "third"]).unwrap();
    let (commands, _) = run_options(parsed);
    assert_eq!(commands, ["first", "second", "third"]);
}

#[test]
fn option_terminator_makes_every_remaining_argument_an_operand() {
    let parsed = parse_args(["first", "--", "--all", "-x"]).unwrap();
    let (commands, options) = run_options(parsed);
    assert_eq!(commands, ["first", "--all", "-x"]);
    assert!(!options.all);
}

#[test]
fn parses_which_lookup_options() {
    let parsed = parse_args([
        "--all",
        "--show-dot",
        "--skip-dot",
        "--show-tilde",
        "--skip-tilde",
        "--tty-only",
        "command",
    ])
    .unwrap();
    let (commands, options) = run_options(parsed);

    assert_eq!(commands, ["command"]);
    assert!(options.all);
    assert!(options.show_dot);
    assert!(options.skip_dot);
    assert!(options.show_tilde);
    assert!(options.skip_tilde);
    assert!(options.tty_only);
}

#[test]
fn parses_short_which_options() {
    let parsed = parse_args(["-a", "command"]).unwrap();
    let (_, options) = run_options(parsed);
    assert!(options.all);

    for option in ["-v", "-V"] {
        assert_eq!(parse_args([option]).unwrap().action, Action::Version);
    }
}

#[test]
fn tty_only_blocks_later_display_options_when_stdout_is_not_a_terminal() {
    let parsed = parse_args_for_terminal(
        vec![
            "--tty-only".into(),
            "--show-dot".into(),
            "--show-tilde".into(),
            "command".into(),
        ],
        false,
    )
    .unwrap();
    let (_, options) = run_options(parsed);

    assert!(!options.show_dot);
    assert!(!options.show_tilde);
}

#[test]
fn tty_only_leaves_display_options_on_a_terminal() {
    let parsed = parse_args_for_terminal(
        vec!["--tty-only".into(), "--show-dot".into(), "command".into()],
        true,
    )
    .unwrap();
    let (_, options) = run_options(parsed);
    assert!(options.show_dot);
    assert!(options.tty_only);
}

#[test]
fn enables_windows_candidates_explicitly() {
    let parsed = parse_args(["--include-windows", "powershel.exe"]).unwrap();
    let (_, options) = run_options(parsed);
    assert!(options.include_windows);
}

#[test]
fn rejects_invalid_match_count() {
    assert_eq!(
        parse_args(["--matches=0", "spellcheck"])
            .unwrap_err()
            .to_string(),
        "--matches must be an integer ≥ 1"
    );
}

#[test]
fn parses_output_formats() {
    for (value, expected) in [
        ("auto", OutputFormat::Auto),
        ("pretty", OutputFormat::Pretty),
        ("plain", OutputFormat::Plain),
    ] {
        let parsed = parse_args([format!("--format={value}"), "spellcheck".into()]).unwrap();
        let (_, options) = run_options(parsed);
        assert_eq!(options.output_format, expected);
    }
}

#[test]
fn rejects_invalid_output_format() {
    assert_eq!(
        parse_args(["--format=ornate", "spellcheck"])
            .unwrap_err()
            .to_string(),
        "Invalid format 'ornate'; expected auto, pretty, or plain"
    );
}

#[test]
fn rejects_unrecognized_options() {
    assert_eq!(
        parse_args(["--unknown"]).unwrap_err().to_string(),
        "Unrecognized option '--unknown'"
    );
}

#[test]
fn help_wins_over_version_and_lookups() {
    assert_eq!(
        parse_args(["--version", "ls", "--help"]).unwrap().action,
        Action::Help
    );
    assert_eq!(parse_args(["ls", "--version"]).unwrap().action, Action::Version);
}

#[test]
fn missing_option_value_is_an_error() {
    assert_eq!(
        parse_args(["--threshold"]).unwrap_err().to_string(),
        "--threshold requires a value"
    );
    assert_eq!(
        parse_args(["ls", "--matches"]).unwrap_err().to_string(),
        "--matches requires a value"
    );
}

#[test]
fn option_value_may_be_the_next_argument_even_if_it_looks_like_an_option() {
    let parsed = parse_args(["--ignore", "--all", "ls"]).unwrap();
    let (commands, options) = run_options(parsed);
    assert_eq!(commands, ["ls"]);
    assert_eq!(options.ignore_patterns, ["--all"]);
    assert!(!options.all);
}

#[test]
fn later_values_replace_earlier_ones() {
    let parsed = parse_args([
        "--algorithm=lev",
        "--algorithm",
        "jw",
        "--matches=2",
        "--matches=+7",
        "--sensitivity=2",
        "--sensitivity=.25",
        "ls",
    ])
    .unwrap();
    let (_, options) = run_options(parsed);
    assert_eq!(options.algorithm, Algorithm::JaroWinkler);
    assert_eq!(options.num_matches, 7);
    assert_eq!(options.sensitivity_text.as_deref(), Some(".25"));
}

#[test]
fn unknown_algorithm_names_select_jaro_winkler() {
    let parsed = parse_args(["--algorithm=l", "ls"]).unwrap();
    assert_eq!(run_options(parsed).1.algorithm, Algorithm::Levenshtein);
    let parsed = parse_args(["--algorithm=levenstein", "ls"]).unwrap();
    assert_eq!(run_options(parsed).1.algorithm, Algorithm::JaroWinkler);
}

#[test]
fn every_threshold_value_is_kept_in_order() {
    let parsed = parse_args(["--threshold=.5", "--threshold=abc", "--threshold", "1"]).unwrap();
    let (_, options) = run_options(parsed);
    assert_eq!(options.threshold_texts, ["0.5", "abc", "1"]);
}

#[test]
fn lone_dash_is_an_unrecognized_option_and_empty_is_an_operand() {
    assert_eq!(
        parse_args(["-"]).unwrap_err().to_string(),
        "Unrecognized option '-'"
    );
    let (commands, _) = run_options(parse_args([""]).unwrap());
    assert_eq!(commands, [""]);
}

#[test]
fn option_value_forms() {
    assert_eq!(option_value("--matches", "matches"), Some(None));
    assert_eq!(
        option_value("--matches=12", "matches"),
        Some(Some("12".to_string()))
    );
    assert_eq!(option_value("--matches=", "matches"), Some(Some(String::new())));
    assert_eq!(option_value("--matchesx", "matches"), None);
    assert_eq!(option_value("matches", "matches"), None);
}

#[test]
fn normalize_float_completes_a_leading_dot() {
    assert_eq!(normalize_float(".8"), "0.8");
    assert_eq!(normalize_float("0.8"), "0.8");
    assert_eq!(normalize_float(""), "");
    assert_eq!(normalize_float("-.5"), "-.5");
}

#[test]
fn parse_list_trims_and_drops_empty_entries() {
    assert_eq!(parse_list(".bat,.cmd"), [".bat", ".cmd"]);
    assert_eq!(parse_list(" a , ,b,, c\u{3000}"), ["a", "b", "c"]);
    assert!(parse_list("").is_empty());
    assert!(parse_list(" , ").is_empty());
    assert_eq!(parse_list("node_modules, vendor"), ["node_modules", "vendor"]);
}

#[test]
fn parse_usize_matches_std() {
    for text in [
        "0",
        "7",
        "+7",
        "007",
        "",
        "+",
        "-1",
        " 1",
        "1 ",
        "12a",
        "18446744073709551615",
        "18446744073709551616",
        "99999999999999999999999",
    ] {
        assert_eq!(parse_usize(text), text.parse::<usize>().ok(), "{text:?}");
    }
}

#[test]
fn informational_texts() {
    assert!(help_text().starts_with("Usage: wizard [options] command [...]\n\nOptions:\n"));
    assert!(help_text().contains("\n--format         auto | pretty | plain, default: auto\n"));
    assert_eq!(version_text(), "0.1.4");
    assert_eq!(
        short_usage(),
        "Usage: wizard [--verbose] [--threshold=0-1.0] [--algorithm=[\"lev\", \"jw\"]] <command>"
    );
}

#[test]
fn terminal_matters_only_with_tty_only() {
    let args: Vec<String> = ["--show-dot", "--show-tilde", "--all", "ls", "--matches", "2"]
        .iter()
        .map(|s| s.to_string())
        .collect();
    assert_eq!(
        parse_args_for_terminal(args.clone(), true).unwrap(),
        parse_args_for_terminal(args, false).unwrap()
    );
}

#[test]
fn algorithm_labels() {
    assert_eq!(Algorithm::JaroWinkler.label(), "jaro_winkler");
    assert_eq!(Algorithm::Levenshtein.label(), "levenshtein");
}

#[test]
fn an_option_and_an_operand_may_change_places() {
    let first = parse_args(["ls", "--matches=3", "cat", "--verbose"]).unwrap();
    let second = parse_args(["--matches=3", "ls", "--verbose", "cat"]).unwrap();
    assert_eq!(first, second);
}

#[test]
fn threshold_values_are_kept_for_every_action() {
    let parsed = parse_args(["--help", "--threshold=2"]).unwrap();
    assert_eq!(parsed.action, Action::Help);
    assert_eq!(parsed.threshold_texts, ["2"]);
    let parsed = parse_args(["-V", "--threshold", ".3"]).unwrap();
    assert_eq!(parsed.action, Action::Version);
    assert_eq!(parsed.threshold_texts, ["0.3"]);
    let parsed = parse_args(["ls", "--threshold=abc"]).unwrap();
    assert_eq!(parsed.threshold_texts, ["abc"]);
    assert_eq!(run_options(parsed).1.threshold_texts, ["abc"]);
}
