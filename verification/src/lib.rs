//! Wizard: a fuzzy-aware `which`. The library holds the argument grammar,
//! the candidate filters, the fuzzy-matching core and the report text.
//! Scores are floating-point numbers in the program; the library handles
//! them only by their bit patterns, and reads option values that denote
//! numbers as text.

pub mod cli;
pub mod output;
pub mod search;
pub mod similarity;
pub mod text;

use vstd::prelude::*;

verus! {

/// The program's version, as `--version` prints it.
pub const VERSION: &'static str = "0.1.4";

/// The fuzzy scorer.
#[derive(Debug, Clone, Copy, PartialEq, Eq, Structural)]
pub enum Algorithm {
    JaroWinkler,
    Levenshtein,
}

impl Algorithm {
    /// The algorithm's name as the program prints it.
    pub fn label(&self) -> (name: &'static str)
        ensures
            name@ == (match self {
                Algorithm::JaroWinkler => "jaro_winkler"@,
                Algorithm::Levenshtein => "levenshtein"@,
            }),
    {
        match self {
            Algorithm::JaroWinkler => "jaro_winkler",
            Algorithm::Levenshtein => "levenshtein",
        }
    }
}

/// How results are rendered.
#[derive(Debug, Clone, Copy, PartialEq, Eq, Structural)]
pub enum OutputFormat {
    Auto,
    Pretty,
    Plain,
}

impl Default for OutputFormat {
    fn default() -> (format: Self)
        ensures
            format == OutputFormat::Auto,
    {
        OutputFormat::Auto
    }
}

/// Search settings. The two settings that are numbers in the program, the
/// Levenshtein substitution cost and the score threshold, are kept as the
/// text the user gave for them: `sensitivity_text` is the value of the last
/// `--sensitivity`, `threshold_texts` the value of every `--threshold` in
/// order (with a leading `.` completed to `0.`). The program reads them as
/// numbers (sensitivity 1.0 and threshold 0.75 when none is given or none
/// is valid).
#[derive(Debug, Clone, PartialEq)]
pub struct SearchOptions {
    pub algorithm: Algorithm,
    pub all: bool,
    pub ignore_patterns: Vec<String>,
    pub ignored_directories: Vec<String>,
    pub include_windows: bool,
    pub num_matches: usize,
    pub output_format: OutputFormat,
    pub sensitivity_text: Option<String>,
    pub threshold_texts: Vec<String>,
    pub show_dot: bool,
    pub show_tilde: bool,
    pub skip_dot: bool,
    pub skip_tilde: bool,
    pub tty_only: bool,
    pub verbose: bool,
}

/// The mathematical value of `SearchOptions`.
pub struct OptionsModel {
    pub algorithm: Algorithm,
    pub all: bool,
    pub ignore_patterns: Seq<Seq<char>>,
    pub ignored_directories: Seq<Seq<char>>,
    pub include_windows: bool,
    pub num_matches: nat,
    pub output_format: OutputFormat,
    pub sensitivity_text: Option<Seq<char>>,
    pub threshold_texts: Seq<Seq<char>>,
    pub show_dot: bool,
    pub show_tilde: bool,
    pub skip_dot: bool,
    pub skip_tilde: bool,
    pub tty_only: bool,
    pub verbose: bool,
}

/// The characters of each string of a list.
pub open spec fn texts(strings: Seq<String>) -> Seq<Seq<char>> {
    strings.map_values(|s: String| s@)
}

impl View for SearchOptions {
    type V = OptionsModel;

    open spec fn view(&self) -> OptionsModel {
        OptionsModel {
            algorithm: self.algorithm,
            all: self.all,
            ignore_patterns: texts(self.ignore_patterns@),
            ignored_directories: texts(self.ignored_directories@),
            include_windows: self.include_windows,
            num_matches: self.num_matches as nat,
            output_format: self.output_format,
            sensitivity_text: match self.sensitivity_text {
                Some(s) => Some(s@),
                None => None,
            },
            threshold_texts: texts(self.threshold_texts@),
            show_dot: self.show_dot,
            show_tilde: self.show_tilde,
            skip_dot: self.skip_dot,
            skip_tilde: self.skip_tilde,
            tty_only: self.tty_only,
            verbose: self.verbose,
        }
    }
}

/// The settings in force when no option is given.
pub open spec fn default_options() -> OptionsModel {
    OptionsModel {
        algorithm: Algorithm::JaroWinkler,
        all: false,
        ignore_patterns: Seq::empty(),
        ignored_directories: Seq::empty(),
        include_windows: false,
        num_matches: 5,
        output_format: OutputFormat::Auto,
        sensitivity_text: None,
        threshold_texts: Seq::empty(),
        show_dot: false,
        show_tilde: false,
        skip_dot: false,
        skip_tilde: false,
        tty_only: false,
        verbose: false,
    }
}

impl Default for SearchOptions {
    fn default() -> (options: Self)
        ensures
            options@ == default_options(),
    {
        let options = SearchOptions {
            algorithm: Algorithm::JaroWinkler,
            all: false,
            ignore_patterns: Vec::new(),
            ignored_directories: Vec::new(),
            include_windows: false,
            num_matches: 5,
            output_format: OutputFormat::Auto,
            sensitivity_text: None,
            threshold_texts: Vec::new(),
            show_dot: false,
            show_tilde: false,
            skip_dot: false,
            skip_tilde: false,
            tty_only: false,
            verbose: false,
        };
        assert(options@.ignore_patterns =~= Seq::<Seq<char>>::empty());
        assert(options@.ignored_directories =~= Seq::<Seq<char>>::empty());
        assert(options@.threshold_texts =~= Seq::<Seq<char>>::empty());
        options
    }
}

/// A command and what its lookup found.
#[derive(Debug, Clone, PartialEq)]
pub struct LookupResult {
    pub command: String,
    pub result: search::SearchResult,
}

impl LookupResult {
    /// Whether the lookup found something: an executable, or a suggestion.
    pub fn resolved(&self) -> (found: bool)
        ensures
            found == match self.result {
                search::SearchResult::Exact(paths) => paths@.len() > 0,
                search::SearchResult::Suggestions { matches, .. } => matches@.len() > 0,
            },
    {
        match &self.result {
            search::SearchResult::Exact(paths) => !paths.is_empty(),
            search::SearchResult::Suggestions { matches, .. } => !matches.is_empty(),
        }
    }
}

} // verus!
