//! The command-line grammar: options in any position, `--name value` or
//! `--name=value` for options that take a value, and `--` to end options.

use vstd::prelude::*;

use crate::text::{chars_of, equals_literal, lemma_split_has_no_separator, lemma_trim_shape, split_on, split_on_char, same_chars, starts_with, string_of, trim, trim_spec};
use crate::{default_options, texts, Algorithm, OptionsModel, OutputFormat, SearchOptions, VERSION};

verus! {

/// What the program is asked to do.
#[derive(Debug, Clone, PartialEq)]
pub enum Action {
    Run { commands: Vec<String>, options: SearchOptions },
    Help,
    Version,
}

/// The mathematical value of an `Action`.
pub enum ActionModel {
    Run { commands: Seq<Seq<char>>, options: OptionsModel },
    Help,
    Version,
}

impl View for Action {
    type V = ActionModel;

    open spec fn view(&self) -> ActionModel {
        match self {
            Action::Run { commands, options } => ActionModel::Run {
                commands: texts(commands@),
                options: options@,
            },
            Action::Help => ActionModel::Help,
            Action::Version => ActionModel::Version,
        }
    }
}

/// The outcome of reading the arguments.
#[derive(Debug, Clone, PartialEq)]
pub struct ParsedArgs {
    pub action: Action,
    /// The value of every `--threshold`, in order (with a leading `.`
    /// completed to `0.`), whatever the action: each is read, and warned
    /// about when it is no number from 0 to 1, by the program.
    pub threshold_texts: Vec<String>,
}

/// A refused command line, with the message the program prints.
#[derive(Debug, Clone, PartialEq, Eq)]
pub struct ParseError(pub String);

impl ParseError {
    /// The message.
    pub fn to_string(&self) -> (message: String)
        ensures
            message@ == self.0@,
    {
        self.0.clone()
    }
}

// ----------------------------------------------------------------------
// The grammar, stated over character sequences.
// ----------------------------------------------------------------------
/// `--name`.
pub open spec fn long_name(name: Seq<char>) -> Seq<char> {
    "--"@ + name
}

/// `Some(None)` for `--name`, `Some(Some(v))` for `--name=v`, `None` otherwise.
pub open spec fn option_value_spec(argument: Seq<char>, name: Seq<char>) -> Option<
    Option<Seq<char>>,
> {
    let prefix = long_name(name) + "="@;
    if argument == long_name(name) {
        Some(None)
    } else if prefix.is_prefix_of(argument) {
        Some(Some(argument.skip(prefix.len() as int)))
    } else {
        None
    }
}

/// The value of the option at `args[i]`, and whether it was the next argument.
pub open spec fn required_value_spec(args: Seq<Seq<char>>, i: int, name: Seq<char>) -> Result<
    (Seq<char>, bool),
    Seq<char>,
> {
    match option_value_spec(args[i], name) {
        Some(Some(value)) => Ok((value, false)),
        _ => if i + 1 < args.len() {
            Ok((args[i + 1], true))
        } else {
            Err(long_name(name) + " requires a value"@)
        },
    }
}

/// A value with a leading `.` completed to `0.`.
pub open spec fn normalize_float_spec(value: Seq<char>) -> Seq<char> {
    if value.len() > 0 && value[0] == '.' {
        "0"@ + value
    } else {
        value
    }
}

/// The comma-separated pieces of `text`, empty ones included.
pub open spec fn split_commas(text: Seq<char>) -> Seq<Seq<char>> {
    split_on(text, ',')
}

/// The trimmed pieces that are not empty, in order.
pub open spec fn kept_pieces(pieces: Seq<Seq<char>>) -> Seq<Seq<char>>
    decreases pieces.len(),
{
    if pieces.len() == 0 {
        Seq::empty()
    } else {
        let kept = kept_pieces(pieces.drop_last());
        let piece = trim_spec(pieces.last());
        if piece.len() > 0 {
            kept.push(piece)
        } else {
            kept
        }
    }
}

/// A comma-separated list: each piece trimmed, empty pieces dropped.
pub open spec fn parse_list_spec(value: Seq<char>) -> Seq<Seq<char>> {
    kept_pieces(split_commas(value))
}

pub open spec fn is_digit(c: char) -> bool {
    '0' <= c <= '9'
}

/// The number that a sequence of decimal digits denotes.
pub open spec fn digits_value(digits: Seq<char>) -> nat
    decreases digits.len(),
{
    if digits.len() == 0 {
        0
    } else {
        digits_value(digits.drop_last()) * 10 + ((digits.last() as u32) - ('0' as u32)) as nat
    }
}

/// The text after an optional leading `+`.
pub open spec fn unsigned_digits(text: Seq<char>) -> Seq<char> {
    if text.len() > 0 && text[0] == '+' {
        text.drop_first()
    } else {
        text
    }
}

pub open spec fn all_digits(text: Seq<char>) -> bool {
    forall|k: int| 0 <= k < text.len() ==> is_digit(#[trigger] text[k])
}

/// std's `usize::from_str`: an optional `+`, then one or more decimal
/// digits, whose value fits in `usize`.
pub open spec fn parse_usize_spec(text: Seq<char>) -> Option<nat> {
    let digits = unsigned_digits(text);
    if digits.len() > 0 && all_digits(digits) && digits_value(digits) <= usize::MAX {
        Some(digits_value(digits))
    } else {
        None
    }
}

pub open spec fn algorithm_spec(value: Seq<char>) -> Algorithm {
    if value == "levenshtein"@ || value == "lev"@ || value == "l"@ {
        Algorithm::Levenshtein
    } else {
        Algorithm::JaroWinkler
    }
}

pub open spec fn format_spec(value: Seq<char>) -> Option<OutputFormat> {
    if value == "auto"@ {
        Some(OutputFormat::Auto)
    } else if value == "pretty"@ {
        Some(OutputFormat::Pretty)
    } else if value == "plain"@ {
        Some(OutputFormat::Plain)
    } else {
        None
    }
}

pub open spec fn matches_error() -> Seq<char> {
    "--matches must be an integer ≥ 1"@
}

pub open spec fn format_error(value: Seq<char>) -> Seq<char> {
    "Invalid format '"@ + value + "'; expected auto, pretty, or plain"@
}

pub open spec fn unrecognized_error(argument: Seq<char>) -> Seq<char> {
    "Unrecognized option '"@ + argument + "'"@
}

/// The parser's state between arguments.
pub struct ParseState {
    pub options: OptionsModel,
    pub commands: Seq<Seq<char>>,
    pub help: bool,
    pub version: bool,
    /// `--tty-only` was given while standard output is not a terminal:
    /// later `--show-dot` and `--show-tilde` are ignored.
    pub blocked: bool,
}

pub open spec fn initial_state() -> ParseState {
    ParseState {
        options: default_options(),
        commands: Seq::empty(),
        help: false,
        version: false,
        blocked: false,
    }
}

pub open spec fn with_options(st: ParseState, options: OptionsModel) -> ParseState {
    ParseState { options, ..st }
}

/// The options that take a value, in the order the parser tries them.
#[derive(Debug, Clone, Copy, PartialEq, Eq, Structural)]
pub enum ValueOption {
    Sensitivity,
    Algorithm,
    Threshold,
    Matches,
    Format,
    Ignore,
    IgnoreDir,
}

/// The option's name, without the leading `--`.
pub open spec fn value_option_name(kind: ValueOption) -> Seq<char> {
    match kind {
        ValueOption::Sensitivity => "sensitivity"@,
        ValueOption::Algorithm => "algorithm"@,
        ValueOption::Threshold => "threshold"@,
        ValueOption::Matches => "matches"@,
        ValueOption::Format => "format"@,
        ValueOption::Ignore => "ignore"@,
        ValueOption::IgnoreDir => "ignoredir"@,
    }
}

/// The first option (in the parser's order) that `argument` names.
pub open spec fn value_option_of(argument: Seq<char>) -> Option<ValueOption> {
    if option_value_spec(argument, "sensitivity"@) is Some {
        Some(ValueOption::Sensitivity)
    } else if option_value_spec(argument, "algorithm"@) is Some {
        Some(ValueOption::Algorithm)
    } else if option_value_spec(argument, "threshold"@) is Some {
        Some(ValueOption::Threshold)
    } else if option_value_spec(argument, "matches"@) is Some {
        Some(ValueOption::Matches)
    } else if option_value_spec(argument, "format"@) is Some {
        Some(ValueOption::Format)
    } else if option_value_spec(argument, "ignore"@) is Some {
        Some(ValueOption::Ignore)
    } else if option_value_spec(argument, "ignoredir"@) is Some {
        Some(ValueOption::IgnoreDir)
    } else {
        None
    }
}

/// The settings after the option `kind` is given the value `v`.
pub open spec fn apply_value_spec(kind: ValueOption, v: Seq<char>, o: OptionsModel) -> Result<
    OptionsModel,
    Seq<char>,
> {
    match kind {
        ValueOption::Sensitivity => Ok(OptionsModel { sensitivity_text: Some(v), ..o }),
        ValueOption::Algorithm => Ok(OptionsModel { algorithm: algorithm_spec(v), ..o }),
        ValueOption::Threshold => Ok(
            OptionsModel { threshold_texts: o.threshold_texts.push(normalize_float_spec(v)), ..o },
        ),
        ValueOption::Matches => match parse_usize_spec(v) {
            Some(n) => if n >= 1 {
                Ok(OptionsModel { num_matches: n, ..o })
            } else {
                Err(matches_error())
            },
            None => Err(matches_error()),
        },
        ValueOption::Format => match format_spec(v) {
            Some(f) => Ok(OptionsModel { output_format: f, ..o }),
            None => Err(format_error(v)),
        },
        ValueOption::Ignore => Ok(OptionsModel { ignore_patterns: parse_list_spec(v), ..o }),
        ValueOption::IgnoreDir => Ok(OptionsModel { ignored_directories: parse_list_spec(v), ..o }),
    }
}

/// The options that take no value.
#[derive(Debug, Clone, Copy, PartialEq, Eq, Structural)]
pub enum Flag {
    Help,
    Version,
    All,
    ShowDot,
    SkipDot,
    ShowTilde,
    SkipTilde,
    TtyOnly,
    Verbose,
    IncludeWindows,
}

/// The flag that `a` spells, if any.
#[verifier::opaque]
pub open spec fn flag_of(a: Seq<char>) -> Option<Flag> {
    if a == "--help"@ {
        Some(Flag::Help)
    } else if a == "--version"@ || a == "-v"@ || a == "-V"@ {
        Some(Flag::Version)
    } else if a == "--all"@ || a == "-a"@ {
        Some(Flag::All)
    } else if a == "--show-dot"@ {
        Some(Flag::ShowDot)
    } else if a == "--skip-dot"@ {
        Some(Flag::SkipDot)
    } else if a == "--show-tilde"@ {
        Some(Flag::ShowTilde)
    } else if a == "--skip-tilde"@ {
        Some(Flag::SkipTilde)
    } else if a == "--tty-only"@ {
        Some(Flag::TtyOnly)
    } else if a == "--verbose"@ {
        Some(Flag::Verbose)
    } else if a == "--include-windows"@ {
        Some(Flag::IncludeWindows)
    } else {
        None
    }
}

/// The settings after a flag (`blocked`: `--tty-only` is silencing
/// `--show-dot` and `--show-tilde`).
pub open spec fn flag_options(flag: Flag, blocked: bool, o: OptionsModel) -> OptionsModel {
    match flag {
        Flag::All => OptionsModel { all: true, ..o },
        Flag::ShowDot => OptionsModel { show_dot: o.show_dot || !blocked, ..o },
        Flag::SkipDot => OptionsModel { skip_dot: true, ..o },
        Flag::ShowTilde => OptionsModel { show_tilde: o.show_tilde || !blocked, ..o },
        Flag::SkipTilde => OptionsModel { skip_tilde: true, ..o },
        Flag::TtyOnly => OptionsModel { tty_only: true, ..o },
        Flag::Verbose => OptionsModel { verbose: true, ..o },
        Flag::IncludeWindows => OptionsModel { include_windows: true, ..o },
        Flag::Help | Flag::Version => o,
    }
}

/// The state after a flag.
pub open spec fn apply_flag_spec(flag: Flag, terminal: bool, st: ParseState) -> ParseState {
    ParseState {
        options: flag_options(flag, st.blocked, st.options),
        commands: st.commands,
        help: st.help || flag == Flag::Help,
        version: st.version || flag == Flag::Version,
        blocked: if flag == Flag::TtyOnly {
            !terminal
        } else {
            st.blocked
        },
    }
}

/// The state after a flag (an option without a value), or `None` when
/// `a` is not one.
pub open spec fn flag_spec(a: Seq<char>, terminal: bool, st: ParseState) -> Option<ParseState> {
    match flag_of(a) {
        Some(flag) => Some(apply_flag_spec(flag, terminal, st)),
        None => None,
    }
}

/// What the argument `args[i]` does (`--` aside): the next state, and
/// whether the argument after it was taken as its value.
#[verifier::opaque]
pub open spec fn step_spec(args: Seq<Seq<char>>, terminal: bool, i: int, st: ParseState) -> Result<
    (ParseState, bool),
    Seq<char>,
> {
    let a = args[i];
    match flag_spec(a, terminal, st) {
        Some(next) => Ok((next, false)),
        None => match value_option_of(a) {
            Some(kind) => match required_value_spec(args, i, value_option_name(kind)) {
                Err(e) => Err(e),
                Ok((v, took)) => match apply_value_spec(kind, v, st.options) {
                    Err(e) => Err(e),
                    Ok(o) => Ok((with_options(st, o), took)),
                },
            },
            None => if a.len() > 0 && a[0] == '-' {
                Err(unrecognized_error(a))
            } else {
                Ok((ParseState { commands: st.commands.push(a), ..st }, false))
            },
        },
    }
}

/// The state after reading `args[i..]` from state `st`.
pub open spec fn parse_from(args: Seq<Seq<char>>, terminal: bool, i: int, st: ParseState) -> Result<
    ParseState,
    Seq<char>,
>
    decreases args.len() + 1 - i,
{
    if i < 0 || i >= args.len() {
        Ok(st)
    } else if args[i] == "--"@ {
        Ok(ParseState { commands: st.commands + args.skip(i + 1), ..st })
    } else {
        match step_spec(args, terminal, i, st) {
            Err(e) => Err(e),
            Ok((next, took_value)) => parse_from(
                args,
                terminal,
                if took_value {
                    i + 2
                } else {
                    i + 1
                },
                next,
            ),
        }
    }
}

/// What a command line asks for, or the message it is refused with.
/// `--help` wins over `--version`, and both over a lookup.
pub open spec fn parse_spec(args: Seq<Seq<char>>, terminal: bool) -> Result<ActionModel, Seq<char>> {
    match parse_from(args, terminal, 0, initial_state()) {
        Err(e) => Err(e),
        Ok(st) => Ok(
            if st.help {
                ActionModel::Help
            } else if st.version {
                ActionModel::Version
            } else {
                ActionModel::Run { commands: st.commands, options: st.options }
            },
        ),
    }
}

/// The value of every `--threshold` of a command line that is not refused,
/// in order, whatever it asks for.
pub open spec fn parse_threshold_texts(args: Seq<Seq<char>>, terminal: bool) -> Seq<Seq<char>> {
    match parse_from(args, terminal, 0, initial_state()) {
        Ok(st) => st.options.threshold_texts,
        Err(_) => Seq::empty(),
    }
}

// ----------------------------------------------------------------------
// The parser.
// ----------------------------------------------------------------------
/// `Some(None)` for `--name`, `Some(Some(value))` for `--name=value`,
/// `None` for anything else.
pub fn option_value(argument: &str, name: &str) -> (value: Option<Option<String>>)
    ensures
        match (value, option_value_spec(argument@, name@)) {
            (Some(Some(v)), Some(Some(w))) => v@ == w,
            (Some(None), Some(None)) => true,
            (None, None) => true,
            _ => false,
        },
{
    let arg = chars_of(argument);
    let mut long = chars_of("--");
    let name_chars = chars_of(name);
    long.extend_from_slice(name_chars.as_slice());
    assert(long@ =~= long_name(name@));
    if same_chars(arg.as_slice(), long.as_slice()) {
        return Some(None);
    }
    let equals = chars_of("=");
    long.extend_from_slice(equals.as_slice());
    assert(long@ =~= long_name(name@) + "="@);
    if starts_with(arg.as_slice(), long.as_slice()) {
        let mut rest: Vec<char> = Vec::new();
        let mut k = long.len();
        while k < arg.len()
            invariant
                long@.len() <= k <= arg@.len(),
                rest@ == arg@.subrange(long@.len() as int, k as int),
            decreases arg@.len() - k,
        {
            rest.push(arg[k]);
            k = k + 1;
            assert(rest@ =~= arg@.subrange(long@.len() as int, k as int));
        }
        assert(rest@ =~= arg@.skip(long@.len() as int));
        Some(Some(string_of(rest.as_slice())))
    } else {
        None
    }
}

/// The value of the option at `args[index]` (after `=`, or else the next
/// argument), and whether the next argument was taken.
fn required_value(args: &Vec<String>, index: usize, name: &str) -> (value: Result<
    (String, bool),
    ParseError,
>)
    requires
        index < args@.len(),
    ensures
        match (value, required_value_spec(texts(args@), index as int, name@)) {
            (Ok((v, next)), Ok((w, took))) => v@ == w && next == took,
            (Err(e), Err(m)) => e.0@ == m,
            _ => false,
        },
{
    let ghost model = texts(args@);
    assert(model[index as int] == args@[index as int]@);
    if let Some(Some(value)) = option_value(args[index].as_str(), name) {
        return Ok((value, false));
    }
    if args.len() - index > 1 {
        assert(model[index + 1] == args@[index + 1]@);
        Ok((args[index + 1].clone(), true))
    } else {
        let mut message = "--".to_owned();
        message.append(name);
        message.append(" requires a value");
        Err(ParseError(message))
    }
}

/// A value with a leading `.` completed to `0.`.
pub fn normalize_float(value: &str) -> (normalized: String)
    ensures
        normalized@ == normalize_float_spec(value@),
{
    let chars = chars_of(value);
    if chars.len() > 0 && chars[0] == '.' {
        let mut normalized = "0".to_owned();
        normalized.append(value);
        normalized
    } else {
        value.to_owned()
    }
}

/// A comma-separated list: each piece trimmed, empty pieces dropped.
pub fn parse_list(value: &str) -> (list: Vec<String>)
    ensures
        texts(list@) == parse_list_spec(value@),
{
    let chars = chars_of(value);
    let pieces = split_on_char(chars.as_slice(), ',');
    let ghost all_pieces = pieces@.map_values(|p: Vec<char>| p@);
    assert(all_pieces == split_commas(value@));
    // Trim and keep the non-empty pieces.
    let mut list: Vec<String> = Vec::new();
    let mut j: usize = 0;
    while j < pieces.len()
        invariant
            j <= pieces@.len(),
            all_pieces == pieces@.map_values(|p: Vec<char>| p@),
            texts(list@) == kept_pieces(all_pieces.take(j as int)),
        decreases pieces@.len() - j,
    {
        assert(all_pieces.take(j + 1).drop_last() =~= all_pieces.take(j as int));
        assert(all_pieces[j as int] == pieces@[j as int]@);
        let piece = trim(pieces[j].as_slice());
        if piece.len() > 0 {
            let ghost before = texts(list@);
            list.push(string_of(piece.as_slice()));
            assert(texts(list@) =~= before.push(piece@));
        }
        j = j + 1;
    }
    assert(all_pieces.take(pieces@.len() as int) =~= all_pieces);
    list
}

proof fn lemma_digits_value_grows(digits: Seq<char>, k: int)
    requires
        0 <= k <= digits.len(),
    ensures
        digits_value(digits.take(k)) <= digits_value(digits),
    decreases digits.len() - k,
{
    if k < digits.len() {
        lemma_digits_value_grows(digits, k + 1);
        assert(digits.take(k + 1).drop_last() =~= digits.take(k));
    } else {
        assert(digits.take(k) =~= digits);
    }
}

/// std's `usize::from_str` (`value.parse::<usize>().ok()`).
pub fn parse_usize(value: &str) -> (number: Option<usize>)
    ensures
        match (number, parse_usize_spec(value@)) {
            (Some(n), Some(m)) => n as nat == m,
            (None, None) => true,
            _ => false,
        },
{
    let chars = chars_of(value);
    let start: usize = if chars.len() > 0 && chars[0] == '+' {
        1
    } else {
        0
    };
    let ghost digits = chars@.skip(start as int);
    assert(digits =~= unsigned_digits(value@));
    if start >= chars.len() {
        return None;
    }
    let mut total: usize = 0;
    let mut i: usize = start;
    while i < chars.len()
        invariant
            start <= i <= chars@.len(),
            start < chars@.len(),
            digits == chars@.skip(start as int),
            chars@ == value@,
            digits == unsigned_digits(value@),
            forall|k: int| 0 <= k < i - start ==> is_digit(#[trigger] digits[k]),
            total as nat == digits_value(digits.take(i - start)),
        decreases chars@.len() - i,
    {
        let c = chars[i];
        assert(digits[i - start] == c);
        if !('0' <= c && c <= '9') {
            assert(!is_digit(digits[i - start]));
            assert(!all_digits(digits));
            return None;
        }
        let d = (c as u32 - '0' as u32) as usize;
        assert(digits.take(i - start + 1).drop_last() =~= digits.take(i - start));
        assert(digits.take(i - start + 1).last() == c);
        assert(digits_value(digits.take(i - start + 1)) == total * 10 + d);
        if total > (usize::MAX - d) / 10 {
            proof {
                assert(total * 10 + d > usize::MAX) by (nonlinear_arith)
                    requires
                        total > (usize::MAX - d) / 10,
                        d <= 9,
                ;
                lemma_digits_value_grows(digits, i - start + 1);
                assert(digits_value(digits) > usize::MAX);
                assert(parse_usize_spec(value@) is None);
            }
            return None;
        }
        proof {
            assert(total * 10 + d <= usize::MAX) by (nonlinear_arith)
                requires
                    total <= (usize::MAX - d) / 10,
                    d <= 9,
            ;
        }
        total = total * 10 + d;
        i = i + 1;
    }
    assert(digits.take(i - start) =~= digits);
    Some(total)
}

/// The parser's state between arguments.
struct Scan {
    options: SearchOptions,
    commands: Vec<String>,
    help: bool,
    version: bool,
    blocked: bool,
}

impl View for Scan {
    type V = ParseState;

    closed spec fn view(&self) -> ParseState {
        ParseState {
            options: self.options@,
            commands: texts(self.commands@),
            help: self.help,
            version: self.version,
            blocked: self.blocked,
        }
    }
}

/// The flag that `a` spells, if any.
fn flag_of_exec(a: &Vec<char>) -> (flag: Option<Flag>)
    ensures
        flag == flag_of(a@),
{
    reveal(flag_of);
    if equals_literal(a, "--help") {
        Some(Flag::Help)
    } else if equals_literal(a, "--version") || equals_literal(a, "-v") || equals_literal(a, "-V") {
        Some(Flag::Version)
    } else if equals_literal(a, "--all") || equals_literal(a, "-a") {
        Some(Flag::All)
    } else if equals_literal(a, "--show-dot") {
        Some(Flag::ShowDot)
    } else if equals_literal(a, "--skip-dot") {
        Some(Flag::SkipDot)
    } else if equals_literal(a, "--show-tilde") {
        Some(Flag::ShowTilde)
    } else if equals_literal(a, "--skip-tilde") {
        Some(Flag::SkipTilde)
    } else if equals_literal(a, "--tty-only") {
        Some(Flag::TtyOnly)
    } else if equals_literal(a, "--verbose") {
        Some(Flag::Verbose)
    } else if equals_literal(a, "--include-windows") {
        Some(Flag::IncludeWindows)
    } else {
        None
    }
}

/// Applies a flag to the settings.
fn set_flag_option(options: &mut SearchOptions, flag: Flag, blocked: bool)
    ensures
        final(options)@ == flag_options(flag, blocked, old(options)@),
{
    match flag {
        Flag::All => options.all = true,
        Flag::ShowDot => if !blocked {
            options.show_dot = true;
        },
        Flag::SkipDot => options.skip_dot = true,
        Flag::ShowTilde => if !blocked {
            options.show_tilde = true;
        },
        Flag::SkipTilde => options.skip_tilde = true,
        Flag::TtyOnly => options.tty_only = true,
        Flag::Verbose => options.verbose = true,
        Flag::IncludeWindows => options.include_windows = true,
        Flag::Help | Flag::Version => {},
    }
}

/// Applies a flag; returns whether `a` is one.
fn apply_flag(scan: &mut Scan, a: &Vec<char>, terminal: bool) -> (applied: bool)
    ensures
        match flag_spec(a@, terminal, old(scan)@) {
            Some(next) => applied && final(scan)@ == next,
            None => !applied && final(scan)@ == old(scan)@,
        },
{
    match flag_of_exec(a) {
        None => false,
        Some(flag) => {
            set_flag_option(&mut scan.options, flag, scan.blocked);
            if flag == Flag::Help {
                scan.help = true;
            }
            if flag == Flag::Version {
                scan.version = true;
            }
            if flag == Flag::TtyOnly {
                scan.blocked = !terminal;
            }
            true
        },
    }
}

/// The name of an option that takes a value.
fn value_option_text(kind: ValueOption) -> (name: &'static str)
    ensures
        name@ == value_option_name(kind),
{
    match kind {
        ValueOption::Sensitivity => "sensitivity",
        ValueOption::Algorithm => "algorithm",
        ValueOption::Threshold => "threshold",
        ValueOption::Matches => "matches",
        ValueOption::Format => "format",
        ValueOption::Ignore => "ignore",
        ValueOption::IgnoreDir => "ignoredir",
    }
}

/// The option that takes a value named by `argument`, if any.
fn value_option(argument: &str) -> (kind: Option<ValueOption>)
    ensures
        kind == value_option_of(argument@),
{
    if option_value(argument, "sensitivity").is_some() {
        Some(ValueOption::Sensitivity)
    } else if option_value(argument, "algorithm").is_some() {
        Some(ValueOption::Algorithm)
    } else if option_value(argument, "threshold").is_some() {
        Some(ValueOption::Threshold)
    } else if option_value(argument, "matches").is_some() {
        Some(ValueOption::Matches)
    } else if option_value(argument, "format").is_some() {
        Some(ValueOption::Format)
    } else if option_value(argument, "ignore").is_some() {
        Some(ValueOption::Ignore)
    } else if option_value(argument, "ignoredir").is_some() {
        Some(ValueOption::IgnoreDir)
    } else {
        None
    }
}

/// Sets the option `kind` to `value`.
fn apply_value(options: &mut SearchOptions, kind: ValueOption, value: String) -> (applied: Result<
    (),
    ParseError,
>)
    ensures
        match (applied, apply_value_spec(kind, value@, old(options)@)) {
            (Ok(()), Ok(o)) => final(options)@ == o,
            (Err(e), Err(m)) => e.0@ == m,
            _ => false,
        },
{
    match kind {
        ValueOption::Sensitivity => {
            options.sensitivity_text = Some(value);
            Ok(())
        },
        ValueOption::Algorithm => {
            let v = chars_of(value.as_str());
            options.algorithm = if equals_literal(&v, "levenshtein") || equals_literal(&v, "lev")
                || equals_literal(&v, "l") {
                Algorithm::Levenshtein
            } else {
                Algorithm::JaroWinkler
            };
            Ok(())
        },
        ValueOption::Threshold => {
            let ghost before = texts(options.threshold_texts@);
            let normalized = normalize_float(value.as_str());
            let ghost n = normalized@;
            options.threshold_texts.push(normalized);
            assert(texts(options.threshold_texts@) =~= before.push(n));
            Ok(())
        },
        ValueOption::Matches => match parse_usize(value.as_str()) {
            Some(n) => if n >= 1 {
                options.num_matches = n;
                Ok(())
            } else {
                Err(ParseError("--matches must be an integer ≥ 1".to_owned()))
            },
            None => Err(ParseError("--matches must be an integer ≥ 1".to_owned())),
        },
        ValueOption::Format => {
            let v = chars_of(value.as_str());
            if equals_literal(&v, "auto") {
                options.output_format = OutputFormat::Auto;
                Ok(())
            } else if equals_literal(&v, "pretty") {
                options.output_format = OutputFormat::Pretty;
                Ok(())
            } else if equals_literal(&v, "plain") {
                options.output_format = OutputFormat::Plain;
                Ok(())
            } else {
                let mut message = "Invalid format '".to_owned();
                message.append(value.as_str());
                message.append("'; expected auto, pretty, or plain");
                Err(ParseError(message))
            }
        },
        ValueOption::Ignore => {
            options.ignore_patterns = parse_list(value.as_str());
            Ok(())
        },
        ValueOption::IgnoreDir => {
            options.ignored_directories = parse_list(value.as_str());
            Ok(())
        },
    }
}

/// Applies the argument `args[index]` (`--` aside) to the parser's state;
/// returns whether the next argument was taken as its value.
fn step(scan: &mut Scan, args: &Vec<String>, terminal: bool, index: usize) -> (took: Result<
    bool,
    ParseError,
>)
    requires
        index < args@.len(),
    ensures
        match (took, step_spec(texts(args@), terminal, index as int, old(scan)@)) {
            (Ok(t), Ok((st, u))) => final(scan)@ == st && t == u && (t ==> index + 1 < args@.len()),
            (Err(e), Err(m)) => e.0@ == m,
            _ => false,
        },
{
    reveal(step_spec);
    let ghost model = texts(args@);
    let argument = args[index].as_str();
    let a = chars_of(argument);
    assert(a@ == model[index as int]);
    if apply_flag(scan, &a, terminal) {
        return Ok(false);
    }
    match value_option(argument) {
        Some(kind) => match required_value(args, index, value_option_text(kind)) {
            Err(e) => Err(e),
            Ok((value, took)) => match apply_value(&mut scan.options, kind, value) {
                Err(e) => Err(e),
                Ok(()) => Ok(took),
            },
        },
        None => {
            if a.len() > 0 && a[0] == '-' {
                let mut message = "Unrecognized option '".to_owned();
                message.append(argument);
                message.append("'");
                return Err(ParseError(message));
            }
            let ghost before = texts(scan.commands@);
            scan.commands.push(args[index].clone());
            assert(texts(scan.commands@) =~= before.push(a@));
            Ok(false)
        },
    }
}

/// Reads the command line, given whether standard output is a terminal
/// (which decides whether `--tty-only` silences later `--show-dot` and
/// `--show-tilde`).
pub fn parse_args_for_terminal(args: Vec<String>, stdout_is_terminal: bool) -> (parsed: Result<
    ParsedArgs,
    ParseError,
>)
    ensures
        match (parsed, parse_spec(texts(args@), stdout_is_terminal)) {
            (Ok(p), Ok(a)) => p.action@ == a,
            (Err(e), Err(m)) => e.0@ == m,
            _ => false,
        },
        parsed matches Ok(p) ==> texts(p.threshold_texts@) == parse_threshold_texts(
            texts(args@),
            stdout_is_terminal,
        ),
{
    let ghost model = texts(args@);
    let mut scan = Scan {
        options: SearchOptions::default(),
        commands: Vec::new(),
        help: false,
        version: false,
        blocked: false,
    };
    assert(scan@ =~= initial_state()) by {
        assert(texts(scan.commands@) =~= Seq::<Seq<char>>::empty());
    }
    let mut index: usize = 0;
    while index < args.len()
        invariant
            index <= args@.len(),
            model == texts(args@),
            parse_from(model, stdout_is_terminal, 0, initial_state()) == parse_from(
                model,
                stdout_is_terminal,
                index as int,
                scan@,
            ),
        decreases args@.len() - index,
    {
        let a = chars_of(args[index].as_str());
        assert(a@ == model[index as int]);
        if equals_literal(&a, "--") {
            let ghost before = scan@;
            let mut k = index + 1;
            while k < args.len()
                invariant
                    index < k <= args@.len(),
                    model == texts(args@),
                    scan@ == (ParseState {
                        commands: before.commands + model.subrange(index + 1, k as int),
                        ..before
                    }),
                decreases args@.len() - k,
            {
                let ghost commands = texts(scan.commands@);
                scan.commands.push(args[k].clone());
                assert(texts(scan.commands@) =~= commands.push(model[k as int]));
                k = k + 1;
                assert(texts(scan.commands@) =~= before.commands + model.subrange(
                    index + 1,
                    k as int,
                ));
            }
            assert(model.subrange(index + 1, args@.len() as int) =~= model.skip(index + 1));
            index = args.len();
        } else {
            match step(&mut scan, &args, stdout_is_terminal, index) {
                Err(e) => {
                    return Err(e);
                },
                Ok(took) => {
                    index = if took {
                        index + 2
                    } else {
                        index + 1
                    };
                },
            }
        }
    }
    let threshold_texts = scan.options.threshold_texts.clone();
    let action = if scan.help {
        Action::Help
    } else if scan.version {
        Action::Version
    } else {
        Action::Run { commands: scan.commands, options: scan.options }
    };
    Ok(ParsedArgs { action, threshold_texts })
}

/// The full help message.
pub fn help_text() -> (text: String)
    ensures
        text@ == "Usage: wizard [options] command [...]\n\n\
         Options:\n\
           -a, --all        Print all exact matches\n\
           --help           Show this help message\n\
           --verbose        Enable verbose mode\n\
           --sensitivity    Set sensitivity (float), default: 1.0\n\
           --algorithm      levenshtein | jaro_winkler, default: jaro_winkler\n\
           --threshold      Float 0-1, default: 0.75. Lower = more matches\n\
           --ignore         Comma-separated extensions to ignore\n\
           --ignoredir      Comma-separated directories to ignore\n\
           --include-windows  Include Windows PATH directories in fuzzy WSL searches\n\
           --matches        Number of matches to display, default: 5\n\
           --format         auto | pretty | plain, default: auto\n\
           --version, -v, -V  Show version information\n"@,
{
    "Usage: wizard [options] command [...]\n\n\
         Options:\n\
           -a, --all        Print all exact matches\n\
           --help           Show this help message\n\
           --verbose        Enable verbose mode\n\
           --sensitivity    Set sensitivity (float), default: 1.0\n\
           --algorithm      levenshtein | jaro_winkler, default: jaro_winkler\n\
           --threshold      Float 0-1, default: 0.75. Lower = more matches\n\
           --ignore         Comma-separated extensions to ignore\n\
           --ignoredir      Comma-separated directories to ignore\n\
           --include-windows  Include Windows PATH directories in fuzzy WSL searches\n\
           --matches        Number of matches to display, default: 5\n\
           --format         auto | pretty | plain, default: auto\n\
           --version, -v, -V  Show version information\n".to_owned()
}

/// The one-line usage reminder printed when no command is given.
pub fn short_usage() -> (usage: &'static str)
    ensures
        usage@ == "Usage: wizard [--verbose] [--threshold=0-1.0] [--algorithm=[\"lev\", \"jw\"]] <command>"@,
{
    "Usage: wizard [--verbose] [--threshold=0-1.0] [--algorithm=[\"lev\", \"jw\"]] <command>"
}

/// The version string.
pub fn version_text() -> (version: &'static str)
    ensures
        version@ == VERSION@,
{
    VERSION
}

// ----------------------------------------------------------------------
// Laws of the grammar.
// ----------------------------------------------------------------------
/// The argument is an operand: it does not start with `-`.
pub open spec fn is_operand(argument: Seq<char>) -> bool {
    argument.len() == 0 || argument[0] != '-'
}

proof fn lemma_operand_is_no_flag(a: Seq<char>, terminal: bool, st: ParseState)
    requires
        is_operand(a),
    ensures
        flag_spec(a, terminal, st) is None,
        value_option_of(a) is None,
{
    reveal(flag_of);
    reveal_strlit("--help");
    reveal_strlit("--version");
    reveal_strlit("-v");
    reveal_strlit("-V");
    reveal_strlit("--all");
    reveal_strlit("-a");
    reveal_strlit("--show-dot");
    reveal_strlit("--skip-dot");
    reveal_strlit("--show-tilde");
    reveal_strlit("--skip-tilde");
    reveal_strlit("--tty-only");
    reveal_strlit("--verbose");
    reveal_strlit("--include-windows");
    reveal_strlit("--");
    assert forall|name: Seq<char>| option_value_spec(a, name) is None by {
        let long = long_name(name);
        let prefix = long + "="@;
        assert(long[0] == '-');
        assert(prefix[0] == '-');
        if a == long {
            assert(a[0] == '-');
        }
        if prefix.is_prefix_of(a) {
            assert(a[0] == prefix[0]);
        }
    }
}

proof fn lemma_operands_collected(
    args: Seq<Seq<char>>,
    terminal: bool,
    end: int,
    i: int,
)
    requires
        0 <= i <= end <= args.len(),
        end == args.len() || args[end] == "--"@,
        forall|j: int| 0 <= j < end ==> is_operand(#[trigger] args[j]),
    ensures
        parse_from(args, terminal, i, ParseState { commands: args.take(i), ..initial_state() })
            == Ok::<ParseState, Seq<char>>(
            ParseState {
                commands: if end < args.len() {
                    args.take(end) + args.skip(end + 1)
                } else {
                    args
                },
                ..initial_state()
            },
        ),
    decreases end - i,
{
    let st = ParseState { commands: args.take(i), ..initial_state() };
    if i == end {
        if end < args.len() {
            assert(args.take(i) + args.skip(i + 1) == args.take(end) + args.skip(end + 1));
        } else {
            assert(args.take(i) =~= args);
        }
    } else {
        reveal_strlit("--");
        assert(is_operand(args[i]));
        assert(args[i] != "--"@) by {
            if args[i] == "--"@ {
                assert(args[i][0] == '-');
            }
        }
        lemma_operand_is_no_flag(args[i], terminal, st);
        reveal(step_spec);
        assert(args.take(i).push(args[i]) =~= args.take(i + 1));
        assert(step_spec(args, terminal, i, st) == Ok::<(ParseState, bool), Seq<char>>(
            (ParseState { commands: args.take(i + 1), ..initial_state() }, false),
        ));
        lemma_operands_collected(args, terminal, end, i + 1);
    }
}

/// Operands are collected in order, and everything after the first `--`
/// is an operand: when no argument before the first `--` (or before the
/// end, without one) starts with `-`, the command line is a lookup of
/// every argument but that `--`, with the default settings.
pub proof fn law_operands_and_terminator(args: Seq<Seq<char>>, terminal: bool, end: int)
    requires
        0 <= end <= args.len(),
        end == args.len() || args[end] == "--"@,
        forall|j: int| 0 <= j < end ==> is_operand(#[trigger] args[j]),
    ensures
        parse_spec(args, terminal) == Ok::<ActionModel, Seq<char>>(
            ActionModel::Run {
                commands: if end < args.len() {
                    args.take(end) + args.skip(end + 1)
                } else {
                    args
                },
                options: default_options(),
            },
        ),
{
    lemma_operands_collected(args, terminal, end, 0);
    assert(args.take(0) =~= Seq::<Seq<char>>::empty());
    assert(ParseState { commands: args.take(0), ..initial_state() } == initial_state());
}

proof fn lemma_terminal_irrelevant(args: Seq<Seq<char>>, i: int, st: ParseState)
    requires
        forall|j: int| 0 <= j < args.len() ==> #[trigger] args[j] != "--tty-only"@,
    ensures
        parse_from(args, true, i, st) == parse_from(args, false, i, st),
    decreases args.len() + 1 - i,
{
    if 0 <= i < args.len() && args[i] != "--"@ {
        reveal(step_spec);
        reveal(flag_of);
        assert(flag_spec(args[i], true, st) == flag_spec(args[i], false, st));
        match step_spec(args, true, i, st) {
            Err(e) => {},
            Ok((next, took)) => {
                lemma_terminal_irrelevant(args, if took { i + 2 } else { i + 1 }, next);
            },
        }
    }
}

/// Whether standard output is a terminal matters only to a command line
/// that holds `--tty-only`.
pub proof fn law_terminal_matters_only_with_tty_only(args: Seq<Seq<char>>)
    requires
        forall|j: int| 0 <= j < args.len() ==> #[trigger] args[j] != "--tty-only"@,
    ensures
        parse_spec(args, true) == parse_spec(args, false),
{
    lemma_terminal_irrelevant(args, 0, initial_state());
}

proof fn lemma_kept_pieces_clean(pieces: Seq<Seq<char>>)
    requires
        forall|k: int| 0 <= k < pieces.len() ==> !(#[trigger] pieces[k]).contains(','),
    ensures
        forall|k: int|
            0 <= k < kept_pieces(pieces).len() ==> {
                let entry = #[trigger] kept_pieces(pieces)[k];
                &&& entry.len() > 0
                &&& trim_spec(entry) == entry
                &&& !entry.contains(',')
            },
    decreases pieces.len(),
{
    if pieces.len() > 0 {
        lemma_kept_pieces_clean(pieces.drop_last());
        let piece = pieces.last();
        let range = lemma_trim_shape(piece);
        let entry = trim_spec(piece);
        assert(!pieces[pieces.len() - 1].contains(','));
        assert forall|i: int| 0 <= i < entry.len() implies entry[i] != ',' by {
            assert(entry[i] == piece[range.0 + i]);
        }
        let before = kept_pieces(pieces.drop_last());
        assert forall|k: int| 0 <= k < kept_pieces(pieces).len() implies {
            let e = #[trigger] kept_pieces(pieces)[k];
            &&& e.len() > 0
            &&& trim_spec(e) == e
            &&& !e.contains(',')
        } by {
            if k < before.len() {
                assert(kept_pieces(pieces)[k] == before[k]);
            } else {
                assert(kept_pieces(pieces)[k] == entry);
            }
        }
    }
}

/// A comma-separated list holds no empty entry, no entry with leading or
/// trailing whitespace, and no entry with a comma.
pub proof fn law_list_entries_are_clean(value: Seq<char>)
    ensures
        forall|k: int|
            0 <= k < parse_list_spec(value).len() ==> {
                let entry = #[trigger] parse_list_spec(value)[k];
                &&& entry.len() > 0
                &&& trim_spec(entry) == entry
                &&& !entry.contains(',')
            },
{
    lemma_split_has_no_separator(value, ',');
    lemma_kept_pieces_clean(split_commas(value));
}

/// The argument is complete by itself: a flag, or an option written with
/// its value as `--name=value`.
pub open spec fn is_standalone(argument: Seq<char>, terminal: bool) -> bool {
    ||| flag_spec(argument, terminal, initial_state()) is Some
    ||| (value_option_of(argument) matches Some(kind) && option_value_spec(
        argument,
        value_option_name(kind),
    ) matches Some(Some(_)))
}

proof fn lemma_suffix_decides(
    args1: Seq<Seq<char>>,
    args2: Seq<Seq<char>>,
    terminal: bool,
    j: int,
    st: ParseState,
)
    requires
        0 <= j,
        args1.len() == args2.len(),
        forall|k: int| j <= k < args1.len() ==> args1[k] == args2[k],
    ensures
        parse_from(args1, terminal, j, st) == parse_from(args2, terminal, j, st),
    decreases args1.len() + 1 - j,
{
    if j < args1.len() {
        reveal(step_spec);
        assert(args1.skip(j + 1) =~= args2.skip(j + 1));
        assert(step_spec(args1, terminal, j, st) == step_spec(args2, terminal, j, st));
        match step_spec(args1, terminal, j, st) {
            Err(e) => {},
            Ok((next, took)) => {
                lemma_suffix_decides(args1, args2, terminal, if took { j + 2 } else { j + 1 }, next);
            },
        }
    }
}

/// What a standalone argument does to the state, or the error it raises.
pub open spec fn standalone_effect(b: Seq<char>, terminal: bool, st: ParseState) -> Result<
    ParseState,
    Seq<char>,
> {
    match flag_spec(b, terminal, st) {
        Some(next) => Ok(next),
        None => match value_option_of(b) {
            Some(kind) => match option_value_spec(b, value_option_name(kind)) {
                Some(Some(v)) => match apply_value_spec(kind, v, st.options) {
                    Ok(o) => Ok(with_options(st, o)),
                    Err(e) => Err(e),
                },
                _ => Err(Seq::empty()),
            },
            None => Err(Seq::empty()),
        },
    }
}

pub open spec fn with_command(st: ParseState, a: Seq<char>) -> ParseState {
    ParseState { commands: st.commands.push(a), ..st }
}

proof fn lemma_operand_step(args: Seq<Seq<char>>, terminal: bool, i: int, st: ParseState)
    requires
        0 <= i < args.len(),
        is_operand(args[i]),
    ensures
        parse_from(args, terminal, i, st) == parse_from(
            args,
            terminal,
            i + 1,
            with_command(st, args[i]),
        ),
{
    reveal(step_spec);
    reveal_strlit("--");
    lemma_operand_is_no_flag(args[i], terminal, st);
    assert(args[i] != "--"@) by {
        if args[i] == "--"@ {
            assert(args[i][0] == '-');
        }
    }
}

proof fn lemma_standalone_step(args: Seq<Seq<char>>, terminal: bool, i: int, st: ParseState)
    requires
        0 <= i < args.len(),
        is_standalone(args[i], terminal),
    ensures
        match standalone_effect(args[i], terminal, st) {
            Ok(next) => parse_from(args, terminal, i, st) == parse_from(args, terminal, i + 1, next),
            Err(e) => parse_from(args, terminal, i, st) == Err::<ParseState, Seq<char>>(e),
        },
{
    reveal(step_spec);
    let b = args[i];
    lemma_flag_shape(b, terminal, st);
    if b == "--"@ {
        lemma_dashes_not_standalone(b, terminal);
    }
}

proof fn lemma_dashes_not_standalone(b: Seq<char>, terminal: bool)
    requires
        b == "--"@,
    ensures
        !is_standalone(b, terminal),
{
    reveal(flag_of);
    reveal_strlit("--");
    reveal_strlit("--help");
    reveal_strlit("--version");
    reveal_strlit("-v");
    reveal_strlit("-V");
    reveal_strlit("--all");
    reveal_strlit("-a");
    reveal_strlit("--show-dot");
    reveal_strlit("--skip-dot");
    reveal_strlit("--show-tilde");
    reveal_strlit("--skip-tilde");
    reveal_strlit("--tty-only");
    reveal_strlit("--verbose");
    reveal_strlit("--include-windows");
    assert(b.len() == 2 && b[1] == '-');
    assert(b != "-v"@ && b != "-V"@ && b != "-a"@) by {
        assert("-v"@[1] != b[1]);
        assert("-V"@[1] != b[1]);
        assert("-a"@[1] != b[1]);
    }
    assert(b != "--help"@ && b != "--version"@ && b != "--all"@ && b != "--show-dot"@ && b
        != "--skip-dot"@ && b != "--show-tilde"@ && b != "--skip-tilde"@ && b != "--tty-only"@ && b
        != "--verbose"@ && b != "--include-windows"@) by {
        assert("--help"@.len() != b.len());
        assert("--version"@.len() != b.len());
        assert("--all"@.len() != b.len());
        assert("--show-dot"@.len() != b.len());
        assert("--skip-dot"@.len() != b.len());
        assert("--show-tilde"@.len() != b.len());
        assert("--skip-tilde"@.len() != b.len());
        assert("--tty-only"@.len() != b.len());
        assert("--verbose"@.len() != b.len());
        assert("--include-windows"@.len() != b.len());
    }
    assert(flag_spec(b, terminal, initial_state()) is None);
    lemma_no_value_option_named_dashes(b);
}

proof fn lemma_flag_commutes(b: Seq<char>, terminal: bool, st: ParseState, a: Seq<char>)
    ensures
        flag_spec(b, terminal, with_command(st, a)) == match flag_spec(b, terminal, st) {
            Some(next) => Some(with_command(next, a)),
            None => None,
        },
{
    match flag_of(b) {
        Some(flag) => {
            assert(apply_flag_spec(flag, terminal, with_command(st, a)) == with_command(
                apply_flag_spec(flag, terminal, st),
                a,
            ));
        },
        None => {},
    }
}

proof fn lemma_effect_commutes(b: Seq<char>, terminal: bool, st: ParseState, a: Seq<char>)
    ensures
        match standalone_effect(b, terminal, st) {
            Ok(next) => standalone_effect(b, terminal, with_command(st, a)) == Ok::<
                ParseState,
                Seq<char>,
            >(with_command(next, a)),
            Err(e) => standalone_effect(b, terminal, with_command(st, a)) == Err::<
                ParseState,
                Seq<char>,
            >(e),
        },
{
    lemma_flag_commutes(b, terminal, st, a);
    let st_a = with_command(st, a);
    assert(st_a.options == st.options);
    if flag_spec(b, terminal, st) is None {
        match value_option_of(b) {
            Some(kind) => match option_value_spec(b, value_option_name(kind)) {
                Some(Some(v)) => match apply_value_spec(kind, v, st.options) {
                    Ok(o) => {
                        assert(with_options(st_a, o) == with_command(with_options(st, o), a));
                    },
                    Err(e) => {},
                },
                _ => {},
            },
            None => {},
        }
    }
}

proof fn lemma_flag_shape(a: Seq<char>, terminal: bool, st: ParseState)
    ensures
        (flag_spec(a, terminal, st) is Some) == (flag_spec(a, terminal, initial_state()) is Some),
        flag_spec(a, terminal, st) matches Some(next) ==> next.commands == st.commands,
{
}

/// Options may stand anywhere: where the parser has reached an operand
/// followed by a flag or a `--name=value` option, the two may change places
/// without changing the outcome.
pub proof fn law_operand_and_option_commute(
    args: Seq<Seq<char>>,
    terminal: bool,
    i: int,
    st: ParseState,
)
    requires
        0 <= i,
        i + 1 < args.len(),
        is_operand(args[i]),
        is_standalone(args[i + 1], terminal),
    ensures
        parse_from(args, terminal, i, st) == parse_from(
            args.update(i, args[i + 1]).update(i + 1, args[i]),
            terminal,
            i,
            st,
        ),
{
    let a = args[i];
    let b = args[i + 1];
    let swapped = args.update(i, b).update(i + 1, a);
    assert(swapped[i] == b && swapped[i + 1] == a);
    lemma_operand_step(args, terminal, i, st);
    let st1 = with_command(st, a);
    lemma_standalone_step(args, terminal, i + 1, st1);
    lemma_standalone_step(swapped, terminal, i, st);
    lemma_effect_commutes(b, terminal, st, a);
    match standalone_effect(b, terminal, st) {
        Err(e) => {},
        Ok(st2) => {
            lemma_operand_step(swapped, terminal, i + 1, st2);
            lemma_suffix_decides(args, swapped, terminal, i + 2, with_command(st2, a));
        },
    }
}

proof fn lemma_no_value_option_named_dashes(b: Seq<char>)
    requires
        b == "--"@,
    ensures
        value_option_of(b) is None,
{
    reveal_strlit("--");
    reveal_strlit("=");
    reveal_strlit("sensitivity");
    reveal_strlit("algorithm");
    reveal_strlit("threshold");
    reveal_strlit("matches");
    reveal_strlit("format");
    reveal_strlit("ignore");
    reveal_strlit("ignoredir");
    assert forall|name: Seq<char>| name.len() > 0 implies option_value_spec(b, name) is None by {
        let long = long_name(name);
        assert(long.len() == 2 + name.len());
        assert((long + "="@).len() == 3 + name.len());
    }
}

/// `--algorithm`, written alone or with its value after `=`, is no flag and
/// names the option `algorithm`.
proof fn lemma_algorithm_argument(arg: Seq<char>, v: Seq<char>)
    requires
        arg == "--algorithm"@ || arg == "--algorithm="@ + v,
    ensures
        flag_of(arg) is None,
        value_option_of(arg) == Some(ValueOption::Algorithm),
        arg == "--algorithm"@ ==> option_value_spec(arg, "algorithm"@) == Some(None::<Seq<char>>),
        arg == "--algorithm="@ + v ==> option_value_spec(arg, "algorithm"@) == Some(Some(v)),
        arg != "--"@,
{
    reveal(flag_of);
    reveal_strlit("--help");
    reveal_strlit("--version");
    reveal_strlit("-v");
    reveal_strlit("-V");
    reveal_strlit("--all");
    reveal_strlit("-a");
    reveal_strlit("--show-dot");
    reveal_strlit("--skip-dot");
    reveal_strlit("--show-tilde");
    reveal_strlit("--skip-tilde");
    reveal_strlit("--tty-only");
    reveal_strlit("--verbose");
    reveal_strlit("--include-windows");
    reveal_strlit("--");
    reveal_strlit("=");
    reveal_strlit("sensitivity");
    reveal_strlit("algorithm");
    reveal_strlit("--algorithm");
    reveal_strlit("--algorithm=");
    assert(arg.len() >= 11 && arg[0] == '-' && arg[1] == '-' && arg[2] == 'a');
    assert(arg != "--help"@ && arg != "--version"@ && arg != "-v"@ && arg != "-V"@ && arg != "--all"@ && arg != "-a"@ && arg != "--show-dot"@ && arg != "--skip-dot"@ && arg != "--show-tilde"@ && arg != "--skip-tilde"@ && arg != "--tty-only"@ && arg != "--verbose"@ && arg != "--include-windows"@) by {
        assert("--help"@.len() != arg.len() || "--help"@[2] != arg[2]);
        assert("--version"@.len() != arg.len() || "--version"@[2] != arg[2]);
        assert("-v"@.len() != arg.len() || "-v"@[2] != arg[2]);
        assert("-V"@.len() != arg.len() || "-V"@[2] != arg[2]);
        assert("--all"@.len() != arg.len() || "--all"@[2] != arg[2]);
        assert("-a"@.len() != arg.len() || "-a"@[2] != arg[2]);
        assert("--show-dot"@.len() != arg.len() || "--show-dot"@[2] != arg[2]);
        assert("--skip-dot"@.len() != arg.len() || "--skip-dot"@[2] != arg[2]);
        assert("--show-tilde"@.len() != arg.len() || "--show-tilde"@[2] != arg[2]);
        assert("--skip-tilde"@.len() != arg.len() || "--skip-tilde"@[2] != arg[2]);
        assert("--tty-only"@.len() != arg.len() || "--tty-only"@[2] != arg[2]);
        assert("--verbose"@.len() != arg.len() || "--verbose"@[2] != arg[2]);
        assert("--include-windows"@.len() != arg.len() || "--include-windows"@[2] != arg[2]);
    }
    let sens = long_name("sensitivity"@);
    assert(sens[2] == 's');
    assert((sens + "="@)[2] == 's');
    if (sens + "="@).is_prefix_of(arg) {
        assert(arg[2] == (sens + "="@)[2]);
    }
    assert(option_value_spec(arg, "sensitivity"@) is None);
    let long = long_name("algorithm"@);
    assert(long =~= "--algorithm"@);
    assert(long + "="@ =~= "--algorithm="@);
    if arg == "--algorithm="@ + v {
        assert(arg != long);
        assert((long + "="@).is_prefix_of(arg)) by {
            assert(arg.subrange(0, 12) =~= long + "="@);
        }
        assert(arg.skip(12) =~= v);
    }
}

/// `--algorithm` picks the scorer by name, whether its value follows `=`
/// or comes as the next argument: `levenshtein`, `lev` or `l` select the
/// Levenshtein scorer, and any other value Jaro-Winkler; nothing else of
/// the settings changes, and the operand is the command looked up.
pub proof fn law_algorithm_names(v: Seq<char>, c: Seq<char>, terminal: bool)
    requires
        is_operand(c),
    ensures
        ({
            let chosen = if v == "levenshtein"@ || v == "lev"@ || v == "l"@ {
                Algorithm::Levenshtein
            } else {
                Algorithm::JaroWinkler
            };
            let expected = Ok::<ActionModel, Seq<char>>(
                ActionModel::Run {
                    commands: seq![c],
                    options: OptionsModel { algorithm: chosen, ..default_options() },
                },
            );
            &&& parse_spec(seq!["--algorithm="@ + v, c], terminal) == expected
            &&& parse_spec(seq!["--algorithm"@, v, c], terminal) == expected
        }),
{
    let st0 = initial_state();
    let o = OptionsModel { algorithm: algorithm_spec(v), ..default_options() };
    let st1 = with_options(st0, o);
    let done = with_command(st1, c);
    assert(done.commands =~= seq![c]);

    let joined = seq!["--algorithm="@ + v, c];
    lemma_algorithm_argument(joined[0], v);
    reveal(step_spec);
    assert(step_spec(joined, terminal, 0, st0) == Ok::<(ParseState, bool), Seq<char>>((st1, false)));
    lemma_operand_step(joined, terminal, 1, st1);
    assert(parse_from(joined, terminal, 0, st0) == Ok::<ParseState, Seq<char>>(done));

    let apart = seq!["--algorithm"@, v, c];
    lemma_algorithm_argument(apart[0], v);
    assert(required_value_spec(apart, 0, "algorithm"@) == Ok::<(Seq<char>, bool), Seq<char>>((v, true)));
    assert(step_spec(apart, terminal, 0, st0) == Ok::<(ParseState, bool), Seq<char>>((st1, true)));
    lemma_operand_step(apart, terminal, 2, st1);
    assert(parse_from(apart, terminal, 0, st0) == Ok::<ParseState, Seq<char>>(done));
}

/// The spelling of every flag.
proof fn lemma_flag_spellings()
    ensures
        flag_of("--help"@) == Some(Flag::Help),
        flag_of("--version"@) == Some(Flag::Version),
        flag_of("-v"@) == Some(Flag::Version),
        flag_of("-V"@) == Some(Flag::Version),
        flag_of("--all"@) == Some(Flag::All),
        flag_of("-a"@) == Some(Flag::All),
        flag_of("--show-dot"@) == Some(Flag::ShowDot),
        flag_of("--skip-dot"@) == Some(Flag::SkipDot),
        flag_of("--show-tilde"@) == Some(Flag::ShowTilde),
        flag_of("--skip-tilde"@) == Some(Flag::SkipTilde),
        flag_of("--tty-only"@) == Some(Flag::TtyOnly),
        flag_of("--verbose"@) == Some(Flag::Verbose),
        flag_of("--include-windows"@) == Some(Flag::IncludeWindows),
{
    reveal(flag_of);
    reveal_strlit("--help");
    reveal_strlit("--version");
    reveal_strlit("-v");
    reveal_strlit("-V");
    reveal_strlit("--all");
    reveal_strlit("-a");
    reveal_strlit("--show-dot");
    reveal_strlit("--skip-dot");
    reveal_strlit("--show-tilde");
    reveal_strlit("--skip-tilde");
    reveal_strlit("--tty-only");
    reveal_strlit("--verbose");
    reveal_strlit("--include-windows");
    assert("--help"@.len() != "--version"@.len());
    assert("--help"@.len() != "-v"@.len());
    assert("--version"@.len() != "-v"@.len());
    assert("--help"@.len() != "-V"@.len());
    assert("--version"@.len() != "-V"@.len());
    assert("-v"@[1] != "-V"@[1]);
    assert("--help"@.len() != "--all"@.len());
    assert("--version"@.len() != "--all"@.len());
    assert("-v"@.len() != "--all"@.len());
    assert("-V"@.len() != "--all"@.len());
    assert("--help"@.len() != "-a"@.len());
    assert("--version"@.len() != "-a"@.len());
    assert("-v"@[1] != "-a"@[1]);
    assert("-V"@[1] != "-a"@[1]);
    assert("--all"@.len() != "-a"@.len());
    assert("--help"@.len() != "--show-dot"@.len());
    assert("--version"@.len() != "--show-dot"@.len());
    assert("-v"@.len() != "--show-dot"@.len());
    assert("-V"@.len() != "--show-dot"@.len());
    assert("--all"@.len() != "--show-dot"@.len());
    assert("-a"@.len() != "--show-dot"@.len());
    assert("--help"@.len() != "--skip-dot"@.len());
    assert("--version"@.len() != "--skip-dot"@.len());
    assert("-v"@.len() != "--skip-dot"@.len());
    assert("-V"@.len() != "--skip-dot"@.len());
    assert("--all"@.len() != "--skip-dot"@.len());
    assert("-a"@.len() != "--skip-dot"@.len());
    assert("--show-dot"@[3] != "--skip-dot"@[3]);
    assert("--help"@.len() != "--show-tilde"@.len());
    assert("--version"@.len() != "--show-tilde"@.len());
    assert("-v"@.len() != "--show-tilde"@.len());
    assert("-V"@.len() != "--show-tilde"@.len());
    assert("--all"@.len() != "--show-tilde"@.len());
    assert("-a"@.len() != "--show-tilde"@.len());
    assert("--show-dot"@.len() != "--show-tilde"@.len());
    assert("--skip-dot"@.len() != "--show-tilde"@.len());
    assert("--help"@.len() != "--skip-tilde"@.len());
    assert("--version"@.len() != "--skip-tilde"@.len());
    assert("-v"@.len() != "--skip-tilde"@.len());
    assert("-V"@.len() != "--skip-tilde"@.len());
    assert("--all"@.len() != "--skip-tilde"@.len());
    assert("-a"@.len() != "--skip-tilde"@.len());
    assert("--show-dot"@.len() != "--skip-tilde"@.len());
    assert("--skip-dot"@.len() != "--skip-tilde"@.len());
    assert("--show-tilde"@[3] != "--skip-tilde"@[3]);
    assert("--help"@.len() != "--tty-only"@.len());
    assert("--version"@.len() != "--tty-only"@.len());
    assert("-v"@.len() != "--tty-only"@.len());
    assert("-V"@.len() != "--tty-only"@.len());
    assert("--all"@.len() != "--tty-only"@.len());
    assert("-a"@.len() != "--tty-only"@.len());
    assert("--show-dot"@[2] != "--tty-only"@[2]);
    assert("--skip-dot"@[2] != "--tty-only"@[2]);
    assert("--show-tilde"@.len() != "--tty-only"@.len());
    assert("--skip-tilde"@.len() != "--tty-only"@.len());
    assert("--help"@.len() != "--verbose"@.len());
    assert("--version"@[5] != "--verbose"@[5]);
    assert("-v"@.len() != "--verbose"@.len());
    assert("-V"@.len() != "--verbose"@.len());
    assert("--all"@.len() != "--verbose"@.len());
    assert("-a"@.len() != "--verbose"@.len());
    assert("--show-dot"@.len() != "--verbose"@.len());
    assert("--skip-dot"@.len() != "--verbose"@.len());
    assert("--show-tilde"@.len() != "--verbose"@.len());
    assert("--skip-tilde"@.len() != "--verbose"@.len());
    assert("--tty-only"@.len() != "--verbose"@.len());
    assert("--help"@.len() != "--include-windows"@.len());
    assert("--version"@.len() != "--include-windows"@.len());
    assert("-v"@.len() != "--include-windows"@.len());
    assert("-V"@.len() != "--include-windows"@.len());
    assert("--all"@.len() != "--include-windows"@.len());
    assert("-a"@.len() != "--include-windows"@.len());
    assert("--show-dot"@.len() != "--include-windows"@.len());
    assert("--skip-dot"@.len() != "--include-windows"@.len());
    assert("--show-tilde"@.len() != "--include-windows"@.len());
    assert("--skip-tilde"@.len() != "--include-windows"@.len());
    assert("--tty-only"@.len() != "--include-windows"@.len());
    assert("--verbose"@.len() != "--include-windows"@.len());
}

proof fn lemma_flag_then_operand(a: Seq<char>, c: Seq<char>, terminal: bool)
    requires
        flag_of(a) is Some,
        is_operand(c),
    ensures
        ({
            let flag = flag_of(a)->0;
            parse_spec(seq![a, c], terminal) == if flag == Flag::Help {
                Ok::<ActionModel, Seq<char>>(ActionModel::Help)
            } else if flag == Flag::Version {
                Ok::<ActionModel, Seq<char>>(ActionModel::Version)
            } else {
                Ok::<ActionModel, Seq<char>>(
                    ActionModel::Run {
                        commands: seq![c],
                        options: flag_options(flag, false, default_options()),
                    },
                )
            }
        }),
{
    let args = seq![a, c];
    let st0 = initial_state();
    assert(a != "--"@) by {
        if a == "--"@ {
            lemma_dashes_not_standalone(a, terminal);
        }
    }
    let st1 = apply_flag_spec(flag_of(a)->0, terminal, st0);
    reveal(step_spec);
    assert(step_spec(args, terminal, 0, st0) == Ok::<(ParseState, bool), Seq<char>>((st1, false)));
    lemma_operand_step(args, terminal, 1, st1);
    assert(with_command(st1, c).commands =~= seq![c]);
}

/// Every flag, by each of its spellings, before an operand: `--help` asks
/// for help, `--version`, `-v` and `-V` for the version, and each other
/// flag switches on its own setting (`--all` and `-a` for all matches),
/// leaving the rest at the defaults and the operand as the command.
pub proof fn law_flag_spellings(c: Seq<char>, terminal: bool)
    requires
        is_operand(c),
    ensures
        parse_spec(seq!["--help"@, c], terminal) == (Ok::<ActionModel, Seq<char>>(ActionModel::Help)),
        parse_spec(seq!["--version"@, c], terminal) == (Ok::<ActionModel, Seq<char>>(ActionModel::Version)),
        parse_spec(seq!["-v"@, c], terminal) == (Ok::<ActionModel, Seq<char>>(ActionModel::Version)),
        parse_spec(seq!["-V"@, c], terminal) == (Ok::<ActionModel, Seq<char>>(ActionModel::Version)),
        parse_spec(seq!["--all"@, c], terminal) == (Ok::<ActionModel, Seq<char>>(ActionModel::Run { commands: seq![c], options: OptionsModel { all: true, ..default_options() } })),
        parse_spec(seq!["-a"@, c], terminal) == (Ok::<ActionModel, Seq<char>>(ActionModel::Run { commands: seq![c], options: OptionsModel { all: true, ..default_options() } })),
        parse_spec(seq!["--show-dot"@, c], terminal) == (Ok::<ActionModel, Seq<char>>(ActionModel::Run { commands: seq![c], options: OptionsModel { show_dot: true, ..default_options() } })),
        parse_spec(seq!["--skip-dot"@, c], terminal) == (Ok::<ActionModel, Seq<char>>(ActionModel::Run { commands: seq![c], options: OptionsModel { skip_dot: true, ..default_options() } })),
        parse_spec(seq!["--show-tilde"@, c], terminal) == (Ok::<ActionModel, Seq<char>>(ActionModel::Run { commands: seq![c], options: OptionsModel { show_tilde: true, ..default_options() } })),
        parse_spec(seq!["--skip-tilde"@, c], terminal) == (Ok::<ActionModel, Seq<char>>(ActionModel::Run { commands: seq![c], options: OptionsModel { skip_tilde: true, ..default_options() } })),
        parse_spec(seq!["--tty-only"@, c], terminal) == (Ok::<ActionModel, Seq<char>>(ActionModel::Run { commands: seq![c], options: OptionsModel { tty_only: true, ..default_options() } })),
        parse_spec(seq!["--verbose"@, c], terminal) == (Ok::<ActionModel, Seq<char>>(ActionModel::Run { commands: seq![c], options: OptionsModel { verbose: true, ..default_options() } })),
        parse_spec(seq!["--include-windows"@, c], terminal) == (Ok::<ActionModel, Seq<char>>(ActionModel::Run { commands: seq![c], options: OptionsModel { include_windows: true, ..default_options() } })),
{
    lemma_flag_spellings();
    lemma_flag_then_operand("--help"@, c, terminal);
    lemma_flag_then_operand("--version"@, c, terminal);
    lemma_flag_then_operand("-v"@, c, terminal);
    lemma_flag_then_operand("-V"@, c, terminal);
    lemma_flag_then_operand("--all"@, c, terminal);
    lemma_flag_then_operand("-a"@, c, terminal);
    lemma_flag_then_operand("--show-dot"@, c, terminal);
    lemma_flag_then_operand("--skip-dot"@, c, terminal);
    lemma_flag_then_operand("--show-tilde"@, c, terminal);
    lemma_flag_then_operand("--skip-tilde"@, c, terminal);
    lemma_flag_then_operand("--tty-only"@, c, terminal);
    lemma_flag_then_operand("--verbose"@, c, terminal);
    lemma_flag_then_operand("--include-windows"@, c, terminal);
}

/// `--format`, written alone or with its value after `=`, is no flag and
/// names the option `format`.
proof fn lemma_format_argument(arg: Seq<char>, v: Seq<char>)
    requires
        arg == "--format"@ || arg == "--format="@ + v,
    ensures
        flag_of(arg) is None,
        value_option_of(arg) == Some(ValueOption::Format),
        arg == "--format"@ ==> option_value_spec(arg, "format"@) == Some(None::<Seq<char>>),
        arg == "--format="@ + v ==> option_value_spec(arg, "format"@) == Some(Some(v)),
        arg != "--"@,
{
    reveal(flag_of);
    reveal_strlit("--help");
    reveal_strlit("--version");
    reveal_strlit("-v");
    reveal_strlit("-V");
    reveal_strlit("--all");
    reveal_strlit("-a");
    reveal_strlit("--show-dot");
    reveal_strlit("--skip-dot");
    reveal_strlit("--show-tilde");
    reveal_strlit("--skip-tilde");
    reveal_strlit("--tty-only");
    reveal_strlit("--verbose");
    reveal_strlit("--include-windows");
    reveal_strlit("--");
    reveal_strlit("=");
    reveal_strlit("sensitivity");
    reveal_strlit("algorithm");
    reveal_strlit("threshold");
    reveal_strlit("matches");
    reveal_strlit("format");
    reveal_strlit("--format");
    reveal_strlit("--format=");
    assert(arg.len() >= 8 && arg[0] == '-' && arg[1] == '-' && arg[2] == 'f');
    assert(arg != "--help"@ && arg != "--version"@ && arg != "-v"@ && arg != "-V"@ && arg != "--all"@ && arg != "-a"@ && arg != "--show-dot"@ && arg != "--skip-dot"@ && arg != "--show-tilde"@ && arg != "--skip-tilde"@ && arg != "--tty-only"@ && arg != "--verbose"@ && arg != "--include-windows"@) by {
        assert("--help"@.len() != arg.len() || "--help"@[2] != arg[2]);
        assert("--version"@.len() != arg.len() || "--version"@[2] != arg[2]);
        assert("-v"@.len() != arg.len() || "-v"@[2] != arg[2]);
        assert("-V"@.len() != arg.len() || "-V"@[2] != arg[2]);
        assert("--all"@.len() != arg.len() || "--all"@[2] != arg[2]);
        assert("-a"@.len() != arg.len() || "-a"@[2] != arg[2]);
        assert("--show-dot"@.len() != arg.len() || "--show-dot"@[2] != arg[2]);
        assert("--skip-dot"@.len() != arg.len() || "--skip-dot"@[2] != arg[2]);
        assert("--show-tilde"@.len() != arg.len() || "--show-tilde"@[2] != arg[2]);
        assert("--skip-tilde"@.len() != arg.len() || "--skip-tilde"@[2] != arg[2]);
        assert("--tty-only"@.len() != arg.len() || "--tty-only"@[2] != arg[2]);
        assert("--verbose"@.len() != arg.len() || "--verbose"@[2] != arg[2]);
        assert("--include-windows"@.len() != arg.len() || "--include-windows"@[2] != arg[2]);
    }
    let long_sensitivity = long_name("sensitivity"@);
    assert(long_sensitivity[2] == 's');
    assert((long_sensitivity + "="@)[2] == 's');
    if (long_sensitivity + "="@).is_prefix_of(arg) {
        assert(arg[2] == (long_sensitivity + "="@)[2]);
    }
    assert(option_value_spec(arg, "sensitivity"@) is None);
    let long_algorithm = long_name("algorithm"@);
    assert(long_algorithm[2] == 'a');
    assert((long_algorithm + "="@)[2] == 'a');
    if (long_algorithm + "="@).is_prefix_of(arg) {
        assert(arg[2] == (long_algorithm + "="@)[2]);
    }
    assert(option_value_spec(arg, "algorithm"@) is None);
    let long_threshold = long_name("threshold"@);
    assert(long_threshold[2] == 't');
    assert((long_threshold + "="@)[2] == 't');
    if (long_threshold + "="@).is_prefix_of(arg) {
        assert(arg[2] == (long_threshold + "="@)[2]);
    }
    assert(option_value_spec(arg, "threshold"@) is None);
    let long_matches = long_name("matches"@);
    assert(long_matches[2] == 'm');
    assert((long_matches + "="@)[2] == 'm');
    if (long_matches + "="@).is_prefix_of(arg) {
        assert(arg[2] == (long_matches + "="@)[2]);
    }
    assert(option_value_spec(arg, "matches"@) is None);
    let long = long_name("format"@);
    assert(long =~= "--format"@);
    assert(long + "="@ =~= "--format="@);
    if arg == "--format="@ + v {
        assert(arg != long);
        assert((long + "="@).is_prefix_of(arg)) by {
            assert(arg.subrange(0, 9) =~= long + "="@);
        }
        assert(arg.skip(9) =~= v);
    }
}

/// `--format` takes `auto`, `pretty` or `plain` (with its value after `=`
/// or as the next argument) and sets the output format accordingly,
/// leaving the other settings at their defaults; any other value refuses
/// the command line with "Invalid format '<value>'; expected auto,
/// pretty, or plain".
pub proof fn law_format_names(v: Seq<char>, c: Seq<char>, terminal: bool)
    requires
        is_operand(c),
    ensures
        ({
            let run = |f: OutputFormat|
                Ok::<ActionModel, Seq<char>>(
                    ActionModel::Run {
                        commands: seq![c],
                        options: OptionsModel { output_format: f, ..default_options() },
                    },
                );
            let expected = if v == "auto"@ {
                run(OutputFormat::Auto)
            } else if v == "pretty"@ {
                run(OutputFormat::Pretty)
            } else if v == "plain"@ {
                run(OutputFormat::Plain)
            } else {
                Err::<ActionModel, Seq<char>>(
                    "Invalid format '"@ + v + "'; expected auto, pretty, or plain"@,
                )
            };
            &&& parse_spec(seq!["--format="@ + v, c], terminal) == expected
            &&& parse_spec(seq!["--format"@, v, c], terminal) == expected
        }),
{
    let st0 = initial_state();
    reveal(step_spec);
    let joined = seq!["--format="@ + v, c];
    let apart = seq!["--format"@, v, c];
    lemma_format_argument(joined[0], v);
    lemma_format_argument(apart[0], v);
    assert(required_value_spec(apart, 0, "format"@) == Ok::<(Seq<char>, bool), Seq<char>>((v, true)));
    match format_spec(v) {
        Some(f) => {
            let st1 = with_options(st0, OptionsModel { output_format: f, ..default_options() });
            assert(step_spec(joined, terminal, 0, st0) == Ok::<(ParseState, bool), Seq<char>>((st1, false)));
            assert(step_spec(apart, terminal, 0, st0) == Ok::<(ParseState, bool), Seq<char>>((st1, true)));
            lemma_operand_step(joined, terminal, 1, st1);
            lemma_operand_step(apart, terminal, 2, st1);
            assert(with_command(st1, c).commands =~= seq![c]);
        },
        None => {
            assert(step_spec(joined, terminal, 0, st0) == Err::<(ParseState, bool), Seq<char>>(format_error(v)));
            assert(step_spec(apart, terminal, 0, st0) == Err::<(ParseState, bool), Seq<char>>(format_error(v)));
        },
    }
}

} // verus!
