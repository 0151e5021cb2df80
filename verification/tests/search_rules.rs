use wizard::search::{
    directory_is_ignored, directory_kind, extension, first_of_each_name, is_candidate_name,
    is_dot_relative, name_less, printable_directory, rank_order, rank_suggestions,
    should_scan_fuzzy_directory, should_skip_directory, uppercase_patterns,
    windows_mounts_excluded_in, DirectoryKind, SearchResult, Suggestion,
};
use wizard::search::{
    allowed_windows_command_name, exact_stems_for, is_windows_candidate_name, windows_exact_stems,
    windows_extensions, without_leading_dots,
};
use wizard::{LookupResult, SearchOptions};

fn suggestion(name: &str, score: f64) -> Suggestion {
    Suggestion {
        name: name.into(),
        path: format!("/bin/{name}"),
        similarity_bits: score.to_bits(),
    }
}

fn strings(items: &[&str]) -> Vec<String> {
    items.iter().map(|item| item.to_string()).collect()
}

#[test]
fn skips_windows_mounts_only_on_wsl_by_default() {
    let windows = "/mnt/c/Windows/System32";
    let native = "/usr/bin";

    assert!(!should_scan_fuzzy_directory(windows, false, true));
    assert!(should_scan_fuzzy_directory(windows, true, true));
    assert!(should_scan_fuzzy_directory(windows, false, false));
    assert!(should_scan_fuzzy_directory(native, false, true));
}

#[test]
fn recognises_windows_drive_mounts() {
    assert_eq!(directory_kind("/mnt/c"), DirectoryKind::WslWindows);
    assert_eq!(directory_kind("/MNT/D/x"), DirectoryKind::WslWindows);
    assert_eq!(directory_kind("/mnt/cd"), DirectoryKind::Native);
    assert_eq!(directory_kind("/mnt/1/x"), DirectoryKind::Native);
    assert_eq!(directory_kind("/mnt/"), DirectoryKind::Native);
    assert_eq!(directory_kind("/usr/bin"), DirectoryKind::Native);
}

#[test]
fn file_extensions() {
    assert_eq!(extension("spellcheck.cmd"), ".cmd");
    assert_eq!(extension("archive.tar.gz"), ".gz");
    assert_eq!(extension(".hidden"), "");
    assert_eq!(extension("plain"), "");
    assert_eq!(extension("trailing."), ".");
}

#[test]
fn candidate_names_follow_filters_and_windows_extensions() {
    let ignore = strings(&[".cmd"]);
    assert!(!is_candidate_name("spellcheck.cmd", &ignore, DirectoryKind::Native));
    assert!(is_candidate_name("spellcheck", &ignore, DirectoryKind::Native));
    assert!(is_candidate_name("notes.txt", &vec![], DirectoryKind::Native));
    assert!(!is_candidate_name("notes.txt", &vec![], DirectoryKind::WslWindows));
    assert!(is_candidate_name("Tool.EXE", &vec![], DirectoryKind::WslWindows));
    assert!(is_candidate_name("tool", &vec![], DirectoryKind::WslWindows));
    assert!(is_candidate_name(".profile", &vec![], DirectoryKind::WslWindows));
}

#[test]
fn ignored_directories_compare_case_blind() {
    let upper = uppercase_patterns(&strings(&["node_modules", "Vendor"]));
    assert_eq!(upper, ["NODE_MODULES", "VENDOR"]);
    assert!(directory_is_ignored("/home/me/vendor/bin", &upper));
    assert!(directory_is_ignored("/x/Node_Modules/.bin", &upper));
    assert!(!directory_is_ignored("/usr/bin", &upper));
}

#[test]
fn skip_options_drop_relative_and_home_entries() {
    let mut options = SearchOptions::default();
    assert!(!should_skip_directory("", &options));
    options.skip_dot = true;
    assert!(should_skip_directory("", &options));
    assert!(should_skip_directory("./bin", &options));
    assert!(!should_skip_directory("~/bin", &options));
    options.skip_tilde = true;
    assert!(should_skip_directory("~/bin", &options));
    assert!(should_skip_directory("~", &options));
    assert!(!should_skip_directory("~other/bin", &options));
    assert!(!should_skip_directory("/usr/bin", &options));
}

#[test]
fn printable_paths() {
    assert_eq!(printable_directory(""), ".");
    assert_eq!(printable_directory("/bin"), "/bin");
    assert!(is_dot_relative("."));
    assert!(is_dot_relative("./bin"));
    assert!(!is_dot_relative(".bin"));
    assert!(!is_dot_relative("/bin"));
}

#[test]
fn windows_mounts_are_excluded_only_inside_wsl() {
    let mut options = SearchOptions::default();
    assert!(windows_mounts_excluded_in(true, &options));
    assert!(!windows_mounts_excluded_in(false, &options));
    options.include_windows = true;
    assert!(!windows_mounts_excluded_in(true, &options));
}

#[test]
fn earliest_directory_speaks_for_a_name() {
    let names = strings(&["spellcheck", "ls", "spellcheck", "cat", "ls"]);
    assert_eq!(first_of_each_name(&names), [0, 1, 3]);
    assert!(first_of_each_name(&vec![]).is_empty());
}

#[test]
fn ranks_by_score_then_name_and_truncates() {
    let matches = vec![
        suggestion("b", 0.8),
        suggestion("a", 0.8),
        suggestion("c", 0.9),
        suggestion("d", 0.5),
    ];
    let ranked = rank_suggestions(&matches, 3);
    let names: Vec<&str> = ranked.iter().map(|s| s.name.as_str()).collect();
    assert_eq!(names, ["c", "a", "b"]);
    assert_eq!(rank_suggestions(&matches, 10).len(), 4);
    assert!(rank_suggestions(&matches, 0).is_empty());
}

#[test]
fn ranking_follows_total_order_of_scores() {
    let keys = vec![
        (-1.0f64).to_bits(),
        0.0f64.to_bits(),
        (-0.0f64).to_bits(),
        1.0f64.to_bits(),
        f64::NAN.to_bits(),
    ];
    let names = strings(&["a", "b", "c", "d", "e"]);
    assert_eq!(rank_order(&keys, &names, 5), [4, 3, 1, 2, 0]);
}

#[test]
fn names_compare_by_bytes() {
    assert!(name_less("a", "b"));
    assert!(name_less("a", "ab"));
    assert!(!name_less("ab", "a"));
    assert!(!name_less("a", "a"));
    assert!(name_less("Z", "a"));
    assert!(name_less("z", "é"));
}

#[test]
fn resolved_means_something_was_found() {
    let found = LookupResult {
        command: "ls".into(),
        result: SearchResult::Exact(vec!["/bin/ls".into()]),
    };
    assert!(found.resolved());
    let none = LookupResult {
        command: "ls".into(),
        result: SearchResult::Exact(vec![]),
    };
    assert!(!none.resolved());
    let suggested = LookupResult {
        command: "lz".into(),
        result: SearchResult::Suggestions {
            matches: vec![suggestion("ls", 0.9)],
            candidate_count: 1,
        },
    };
    assert!(suggested.resolved());
    let missing = LookupResult {
        command: "zz".into(),
        result: SearchResult::Suggestions {
            matches: vec![],
            candidate_count: 3,
        },
    };
    assert!(!missing.resolved());
}

#[test]
fn exact_search_stops_at_the_first_match_unless_all() {
    let options = SearchOptions::default();
    let mut search = wizard::search::ExactSearch::new();
    assert!(search.probes("/usr/bin", &options));
    search.record(None, false);
    assert!(!search.finished());
    search.record(Some("/bin/ls".into()), false);
    assert!(search.finished());
    assert!(!search.probes("/usr/local/bin", &options));
    assert_eq!(search.into_found(), ["/bin/ls"]);

    let mut all = wizard::search::ExactSearch::new();
    all.record(Some("/bin/ls".into()), true);
    all.record(Some("/usr/bin/ls".into()), true);
    assert!(!all.finished());
    assert_eq!(all.into_found(), ["/bin/ls", "/usr/bin/ls"]);

    let mut skipping = SearchOptions::default();
    skipping.skip_dot = true;
    assert!(!wizard::search::ExactSearch::new().probes("./bin", &skipping));
}

#[test]
fn an_exact_match_wins_over_suggestions() {
    assert_eq!(
        wizard::search::exact_outcome(vec!["/bin/ls".into()]),
        Some(SearchResult::Exact(vec!["/bin/ls".into()]))
    );
    assert_eq!(wizard::search::exact_outcome(vec![]), None);
}

#[test]
fn fuzzy_outcome_ranks_and_counts_candidates() {
    let matches = vec![suggestion("b", 0.8), suggestion("a", 0.9)];
    let outcome = wizard::search::fuzzy_outcome(&vec![0, 2, 5], &matches, 1);
    assert_eq!(
        outcome,
        SearchResult::Suggestions {
            matches: vec![suggestion("a", 0.9)],
            candidate_count: 3,
        }
    );
}

#[test]
fn exact_paths_print_one_per_line() {
    assert_eq!(
        wizard::search::exact_text(&strings(&["/a/first", "/b/second"])),
        "/a/first\n/b/second\n"
    );
    assert_eq!(wizard::search::exact_text(&vec![]), "");
}

#[test]
fn windows_extensions_default_when_pathext_is_unset() {
    assert_eq!(windows_extensions(None), strings(&[".bat", ".cmd", ".com", ".exe"]));
}

#[test]
fn windows_extensions_read_pathext_lowercased_without_empty_entries() {
    assert_eq!(
        windows_extensions(Some(".COM;;.Exe;.PS1;")),
        strings(&[".com", ".exe", ".ps1"])
    );
    assert_eq!(windows_extensions(Some("")), Vec::<String>::new());
}

#[test]
fn windows_command_names_need_a_listed_extension_in_any_case() {
    let extensions = windows_extensions(None);
    assert!(allowed_windows_command_name("git.EXE", &extensions));
    assert!(allowed_windows_command_name("build.Cmd", &extensions));
    assert!(!allowed_windows_command_name("git", &extensions));
    assert!(!allowed_windows_command_name("notes.txt", &extensions));
    assert!(!allowed_windows_command_name(".exe", &extensions));
    assert!(allowed_windows_command_name("run.BAT", &strings(&[".Bat"])));
    assert!(!allowed_windows_command_name("run.bat", &Vec::new()));
}

#[test]
fn windows_candidate_names_also_obey_ignore_patterns() {
    let extensions = windows_extensions(None);
    let ignore = strings(&["unins"]);
    assert!(is_windows_candidate_name("cargo.exe", &ignore, &extensions));
    assert!(!is_windows_candidate_name("unins000.exe", &ignore, &extensions));
    assert!(!is_windows_candidate_name("readme.md", &ignore, &extensions));
}

#[test]
fn extension_stems_drop_leading_dots() {
    assert_eq!(without_leading_dots(".exe"), "exe");
    assert_eq!(without_leading_dots("..ps1"), "ps1");
    assert_eq!(without_leading_dots("bat"), "bat");
    assert_eq!(without_leading_dots("..."), "");
}

#[test]
fn exact_search_on_windows_probes_each_extension_for_a_bare_command() {
    let extensions = windows_extensions(None);
    assert_eq!(exact_stems_for(true, &extensions), None);
    assert_eq!(
        exact_stems_for(false, &extensions),
        Some(strings(&["bat", "cmd", "com", "exe"]))
    );
    assert_eq!(
        windows_exact_stems("git", &extensions),
        Some(strings(&["bat", "cmd", "com", "exe"]))
    );
    assert_eq!(windows_exact_stems("git.exe", &extensions), None);
    assert_eq!(windows_exact_stems("notepad.EXE", &extensions), None);
    assert_eq!(windows_exact_stems("make.", &extensions), None);
    assert_eq!(
        windows_exact_stems(".profile", &extensions),
        Some(strings(&["bat", "cmd", "com", "exe"]))
    );
}
