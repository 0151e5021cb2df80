//! The rules of the search: which `PATH` entries are scanned, which file
//! names are candidates, which of several equal names stands for them, and
//! how scored suggestions are ranked. Reading directories and testing
//! execute permission is the program's part.

use vstd::prelude::*;

use crate::text::{
    ascii_lower_seq, ascii_lowercase, chars_of, contains, equals_literal, contains_spec, same_chars, split_on,
    split_on_char, starts_with, string_of,
};
use crate::similarity::{count_true, lemma_count_true_all_false, lemma_count_true_set};
use crate::{texts, SearchOptions};
use vstd::string::StringSliceAdditionalSpecFns;
use vstd::utf8::encode_utf8;

verus! {

/// One suggested command. `similarity_bits` is the bit pattern of the
/// floating-point similarity score.
#[derive(Debug, PartialEq)]
pub struct Suggestion {
    pub name: String,
    pub path: String,
    pub similarity_bits: u64,
}

impl Clone for Suggestion {
    fn clone(&self) -> (copy: Self)
        ensures
            copy == *self,
    {
        Suggestion {
            name: self.name.clone(),
            path: self.path.clone(),
            similarity_bits: self.similarity_bits,
        }
    }
}

/// What a lookup found: the executables named exactly so, or else the
/// closest suggestions and how many distinct candidate names were scored.
#[derive(Debug, Clone, PartialEq)]
pub enum SearchResult {
    Exact(Vec<String>),
    Suggestions { matches: Vec<Suggestion>, candidate_count: usize },
}

/// Whether a directory is a Windows drive mounted in WSL (`/mnt/<letter>`).
#[derive(Debug, Clone, Copy, PartialEq, Eq, Structural)]
pub enum DirectoryKind {
    Native,
    WslWindows,
}

// ----------------------------------------------------------------------
// Directories.
// ----------------------------------------------------------------------
pub open spec fn ascii_lower_byte(b: u8) -> u8 {
    if 65 <= b <= 90 {
        (b + 32) as u8
    } else {
        b
    }
}

pub open spec fn is_ascii_alphabetic(b: u8) -> bool {
    (65 <= b <= 90) || (97 <= b <= 122)
}

/// `/mnt/<letter>` or `/mnt/<letter>/...`, with `/mnt/` in any case, read
/// on the path's UTF-8 bytes.
pub open spec fn is_wsl_windows_path(bytes: Seq<u8>) -> bool {
    &&& bytes.len() >= 6
    &&& ascii_lower_byte(bytes[0]) == 47
    &&& ascii_lower_byte(bytes[1]) == 109
    &&& ascii_lower_byte(bytes[2]) == 110
    &&& ascii_lower_byte(bytes[3]) == 116
    &&& ascii_lower_byte(bytes[4]) == 47
    &&& is_ascii_alphabetic(bytes[5])
    &&& (bytes.len() == 6 || bytes[6] == 47)
}

pub open spec fn directory_kind_spec(directory: &str) -> DirectoryKind {
    if is_wsl_windows_path(directory.spec_bytes()) {
        DirectoryKind::WslWindows
    } else {
        DirectoryKind::Native
    }
}

fn lower_byte(b: u8) -> (lower: u8)
    ensures
        lower == ascii_lower_byte(b),
{
    if 65 <= b && b <= 90 {
        b + 32
    } else {
        b
    }
}

/// Whether a directory (given as text) is a WSL mount of a Windows drive.
pub fn directory_kind(directory: &str) -> (kind: DirectoryKind)
    ensures
        kind == directory_kind_spec(directory),
{
    let bytes = directory.as_bytes();
    if bytes.len() >= 6 && lower_byte(bytes[0]) == 47 && lower_byte(bytes[1]) == 109 && lower_byte(
        bytes[2],
    ) == 110 && lower_byte(bytes[3]) == 116 && lower_byte(bytes[4]) == 47 && ((65 <= bytes[5]
        && bytes[5] <= 90) || (97 <= bytes[5] && bytes[5] <= 122)) && (bytes.len() == 6 || bytes[6]
        == 47) {
        DirectoryKind::WslWindows
    } else {
        DirectoryKind::Native
    }
}

/// Whether the fuzzy search reads a directory: Windows drive mounts are
/// left out inside WSL unless Windows candidates were asked for.
pub fn should_scan_fuzzy_directory(directory: &str, include_windows: bool, is_wsl: bool) -> (scan:
    bool)
    ensures
        scan == (include_windows || !is_wsl || directory_kind_spec(directory)
            != DirectoryKind::WslWindows),
{
    include_windows || !is_wsl || directory_kind(directory) != DirectoryKind::WslWindows
}

/// Whether `--skip-dot` or `--skip-tilde` drops a `PATH` entry: relative
/// entries (empty or starting with `.`), or entries under `~`.
pub open spec fn should_skip_directory_spec(directory: Seq<char>, options: crate::OptionsModel) -> bool {
    (options.skip_dot && (directory.len() == 0 || directory[0] == '.')) || (options.skip_tilde && (
    directory == "~"@ || "~/"@.is_prefix_of(directory)))
}

/// `--skip-dot` drops every empty entry and every entry whose first
/// character is `.` (`.`, `..`, `.local/bin`, ...); `--skip-tilde` drops
/// `~` and every entry that starts with `~/`; no other entry is dropped.
pub proof fn law_skipped_entries(directory: Seq<char>, options: crate::OptionsModel)
    ensures
        options.skip_dot && (directory.len() == 0 || directory[0] == '.')
            ==> should_skip_directory_spec(directory, options),
        options.skip_tilde && directory.len() >= 1 && directory[0] == '~' && (directory.len() == 1
            || directory[1] == '/') ==> should_skip_directory_spec(directory, options),
        should_skip_directory_spec(directory, options) ==> (options.skip_dot && (directory.len()
            == 0 || directory[0] == '.')) || (options.skip_tilde && directory.len() >= 1
            && directory[0] == '~' && (directory.len() == 1 || directory[1] == '/')),
{
    reveal_strlit("~");
    reveal_strlit("~/");
    if directory.len() == 1 && directory[0] == '~' {
        assert(directory =~= "~"@);
    }
    if directory.len() >= 2 && directory[0] == '~' && directory[1] == '/' {
        assert("~/"@.is_prefix_of(directory)) by {
            assert(directory.subrange(0, 2) =~= "~/"@);
        }
    }
    if "~/"@.is_prefix_of(directory) {
        assert(directory[0] == "~/"@[0]);
        assert(directory[1] == "~/"@[1]);
    }
}

pub fn should_skip_directory(directory: &str, options: &SearchOptions) -> (skip: bool)
    ensures
        skip == should_skip_directory_spec(directory@, options@),
{
    let text = chars_of(directory);
    let dot_skipped = options.skip_dot && (text.len() == 0 || text[0] == '.');
    if dot_skipped {
        return true;
    }
    if !options.skip_tilde {
        return false;
    }
    let tilde = chars_of("~");
    let tilde_slash = chars_of("~/");
    same_chars(text.as_slice(), tilde.as_slice()) || starts_with(
        text.as_slice(),
        tilde_slash.as_slice(),
    )
}

/// Whether Windows drive mounts are left out of fuzzy searches: inside WSL,
/// unless Windows candidates were asked for.
pub fn windows_mounts_excluded_in(is_wsl: bool, options: &SearchOptions) -> (excluded: bool)
    ensures
        excluded == (is_wsl && !options.include_windows),
{
    is_wsl && !options.include_windows
}

/// Whether `--show-dot` keeps a path as found: its `PATH` entry is `.` or
/// starts with `./`.
pub fn is_dot_relative(source: &str) -> (relative: bool)
    ensures
        relative == (source@ == "."@ || "./"@.is_prefix_of(source@)),
{
    let text = chars_of(source);
    let dot = chars_of(".");
    let dot_slash = chars_of("./");
    same_chars(text.as_slice(), dot.as_slice()) || starts_with(text.as_slice(), dot_slash.as_slice())
}

/// The directory as it is printed: the empty `PATH` entry is `.`.
pub fn printable_directory(directory: &str) -> (printable: String)
    ensures
        printable@ == (if directory@.len() == 0 {
            "."@
        } else {
            directory@
        }),
{
    if directory.is_empty() {
        ".".to_owned()
    } else {
        directory.to_owned()
    }
}

/// The exact search across `PATH` entries, fed one entry at a time: which
/// entries are probed for the command, and the paths found so far. Without
/// `--all` it is finished at the first executable found.
pub struct ExactSearch {
    found: Vec<String>,
    finished: bool,
}

impl ExactSearch {
    pub closed spec fn spec_found(&self) -> Seq<Seq<char>> {
        texts(self.found@)
    }

    pub closed spec fn spec_finished(&self) -> bool {
        self.finished
    }

    pub fn new() -> (search: Self)
        ensures
            search.spec_found() == Seq::<Seq<char>>::empty(),
            !search.spec_finished(),
    {
        let search = ExactSearch { found: Vec::new(), finished: false };
        assert(search.spec_found() =~= Seq::<Seq<char>>::empty());
        search
    }

    /// Whether the search is over.
    pub fn finished(&self) -> (finished: bool)
        ensures
            finished == self.spec_finished(),
    {
        self.finished
    }

    /// Whether the `PATH` entry is to be probed: the search goes on and
    /// the entry is not skipped.
    pub fn probes(&self, directory: &str, options: &SearchOptions) -> (probe: bool)
        ensures
            probe == (!self.spec_finished() && !should_skip_directory_spec(directory@, options@)),
    {
        !self.finished && !should_skip_directory(directory, options)
    }

    /// Records what probing an entry found: the printable path of the
    /// executable there, if any.
    pub fn record(&mut self, found: Option<String>, all: bool)
        ensures
            final(self).spec_found() == match found {
                Some(path) => old(self).spec_found().push(path@),
                None => old(self).spec_found(),
            },
            final(self).spec_finished() == (old(self).spec_finished() || (found is Some && !all)),
    {
        match found {
            Some(path) => {
                let ghost before = texts(self.found@);
                let ghost p = path@;
                self.found.push(path);
                assert(texts(self.found@) =~= before.push(p));
                if !all {
                    self.finished = true;
                }
            },
            None => {},
        }
    }

    /// The paths found, in `PATH` order.
    pub fn into_found(self) -> (found: Vec<String>)
        ensures
            texts(found@) == self.spec_found(),
    {
        self.found
    }
}

// ----------------------------------------------------------------------
// File names.
// ----------------------------------------------------------------------
/// The position of the last `.` in a text.
pub open spec fn last_dot(text: Seq<char>) -> Option<int>
    decreases text.len(),
{
    if text.len() == 0 {
        None
    } else if text.last() == '.' {
        Some(text.len() - 1)
    } else {
        last_dot(text.drop_last())
    }
}

/// A file name's extension, its leading `.` included; empty when the name
/// has no `.` past its first character.
pub open spec fn extension_spec(name: Seq<char>) -> Seq<char> {
    match last_dot(name) {
        Some(p) => if p > 0 {
            name.skip(p)
        } else {
            Seq::empty()
        },
        None => Seq::empty(),
    }
}

proof fn lemma_last_dot_range(text: Seq<char>)
    ensures
        last_dot(text) matches Some(p) ==> 0 <= p < text.len() && text[p] == '.',
    decreases text.len(),
{
    if text.len() > 0 && text.last() != '.' {
        lemma_last_dot_range(text.drop_last());
    }
}

/// A file name's extension, its leading `.` included.
pub fn extension(name: &str) -> (ext: String)
    ensures
        ext@ == extension_spec(name@),
{
    let chars = chars_of(name);
    let mut end = chars.len();
    assert(chars@.take(chars@.len() as int) =~= chars@);
    while end > 0 && chars[end - 1] != '.'
        invariant
            end <= chars@.len(),
            chars@ == name@,
            last_dot(chars@) == last_dot(chars@.take(end as int)),
        decreases end,
    {
        assert(chars@.take(end as int).drop_last() =~= chars@.take(end - 1));
        end = end - 1;
    }
    if end == 0 {
        assert(chars@.take(0) =~= Seq::<char>::empty());
        return String::new();
    }
    let dot = end - 1;
    assert(chars@.take(end as int).last() == '.');
    assert(last_dot(chars@) == Some(dot as int));
    if dot == 0 {
        return String::new();
    }
    let mut ext: Vec<char> = Vec::new();
    let mut k = dot;
    while k < chars.len()
        invariant
            dot <= k <= chars@.len(),
            ext@ == chars@.subrange(dot as int, k as int),
        decreases chars@.len() - k,
    {
        ext.push(chars[k]);
        k = k + 1;
        assert(ext@ =~= chars@.subrange(dot as int, k as int));
    }
    assert(ext@ =~= chars@.skip(dot as int));
    string_of(ext.as_slice())
}

/// The extensions a file from a Windows drive may have to be a command.
pub open spec fn is_windows_command_extension(ext: Seq<char>) -> bool {
    ||| ext == ".bat"@
    ||| ext == ".bash"@
    ||| ext == ".cmd"@
    ||| ext == ".com"@
    ||| ext == ".exe"@
    ||| ext == ".fish"@
    ||| ext == ".js"@
    ||| ext == ".pl"@
    ||| ext == ".py"@
    ||| ext == ".rb"@
    ||| ext == ".sh"@
    ||| ext == ".zsh"@
}

/// Whether a file name can be a command: any name in a native directory;
/// on a Windows drive, a name without extension or with a script or
/// program extension (in any ASCII case).
pub open spec fn allowed_command_name_spec(name: Seq<char>, kind: DirectoryKind) -> bool {
    match kind {
        DirectoryKind::Native => true,
        DirectoryKind::WslWindows => {
            let ext = extension_spec(name);
            ext.len() == 0 || is_windows_command_extension(ascii_lower_seq(ext))
        },
    }
}

pub fn allowed_command_name(name: &str, kind: DirectoryKind) -> (allowed: bool)
    ensures
        allowed == allowed_command_name_spec(name@, kind),
{
    match kind {
        DirectoryKind::Native => true,
        DirectoryKind::WslWindows => {
            let ext = extension(name);
            let ext_chars = chars_of(ext.as_str());
            if ext_chars.len() == 0 {
                return true;
            }
            let e = ascii_lowercase(ext_chars.as_slice());
            equals_literal(&e, ".bat") || equals_literal(&e, ".bash") || equals_literal(&e, ".cmd")
                || equals_literal(&e, ".com") || equals_literal(&e, ".exe") || equals_literal(&e, ".fish")
                || equals_literal(&e, ".js") || equals_literal(&e, ".pl") || equals_literal(&e, ".py")
                || equals_literal(&e, ".rb") || equals_literal(&e, ".sh") || equals_literal(&e, ".zsh")
        },
    }
}

proof fn lemma_last_dot_is_last(text: Seq<char>)
    ensures
        match last_dot(text) {
            Some(p) => 0 <= p < text.len() && text[p] == '.' && forall|j: int|
                p < j < text.len() ==> text[j] != '.',
            None => forall|j: int| 0 <= j < text.len() ==> text[j] != '.',
        },
    decreases text.len(),
{
    if text.len() > 0 && text.last() != '.' {
        lemma_last_dot_is_last(text.drop_last());
        assert forall|j: int| 0 <= j < text.len() - 1 implies text[j] == text.drop_last()[j] by {}
    }
}

/// A file name's extension is the part from its last `.` on, where that
/// `.` is not the name's first character: it is empty exactly when no `.`
/// stands past the first character, and otherwise a suffix of the name,
/// shorter than the name, that starts with `.` and holds no other `.`.
pub proof fn law_extension_is_last_dot_suffix(name: Seq<char>)
    ensures
        extension_spec(name).len() == 0 <==> (forall|i: int| 0 < i < name.len() ==> name[i] != '.'),
        extension_spec(name).len() > 0 ==> {
            let e = extension_spec(name);
            &&& e[0] == '.'
            &&& e.len() < name.len()
            &&& name.skip(name.len() - e.len()) == e
            &&& forall|j: int| 0 < j < e.len() ==> e[j] != '.'
        },
{
    lemma_last_dot_is_last(name);
    match last_dot(name) {
        Some(p) => {
            if p > 0 {
                let e = name.skip(p);
                assert(e[0] == name[p]);
                assert(name.skip(name.len() - e.len()) =~= e);
                assert forall|j: int| 0 < j < e.len() implies e[j] != '.' by {
                    assert(e[j] == name[p + j]);
                }
                assert(e.len() > 0);
                assert(!(forall|i: int| 0 < i < name.len() ==> name[i] != '.'));
            } else {
                assert forall|i: int| 0 < i < name.len() implies name[i] != '.' by {}
            }
        },
        None => {},
    }
}

/// Which names can be commands: every name in a native directory; on a
/// Windows drive mount, a name without extension, or one whose extension,
/// ASCII lower-cased, is one of `.bat .bash .cmd .com .exe .fish .js .pl
/// .py .rb .sh .zsh`.
pub proof fn law_command_name_extensions(name: Seq<char>)
    ensures
        allowed_command_name_spec(name, DirectoryKind::Native),
        allowed_command_name_spec(name, DirectoryKind::WslWindows) <==> (extension_spec(name).len()
            == 0 || seq![
            ".bat"@,
            ".bash"@,
            ".cmd"@,
            ".com"@,
            ".exe"@,
            ".fish"@,
            ".js"@,
            ".pl"@,
            ".py"@,
            ".rb"@,
            ".sh"@,
            ".zsh"@,
        ].contains(ascii_lower_seq(extension_spec(name)))),
{
    let listed: Seq<Seq<char>> = seq![
        ".bat"@,
        ".bash"@,
        ".cmd"@,
        ".com"@,
        ".exe"@,
        ".fish"@,
        ".js"@,
        ".pl"@,
        ".py"@,
        ".rb"@,
        ".sh"@,
        ".zsh"@,
    ];
    let e = ascii_lower_seq(extension_spec(name));
    assert(listed[0] == ".bat"@);
    assert(listed[1] == ".bash"@);
    assert(listed[2] == ".cmd"@);
    assert(listed[3] == ".com"@);
    assert(listed[4] == ".exe"@);
    assert(listed[5] == ".fish"@);
    assert(listed[6] == ".js"@);
    assert(listed[7] == ".pl"@);
    assert(listed[8] == ".py"@);
    assert(listed[9] == ".rb"@);
    assert(listed[10] == ".sh"@);
    assert(listed[11] == ".zsh"@);
    if is_windows_command_extension(e) {
        if e == ".bat"@ {
            assert(listed[0] == e);
        } else if e == ".bash"@ {
            assert(listed[1] == e);
        } else if e == ".cmd"@ {
            assert(listed[2] == e);
        } else if e == ".com"@ {
            assert(listed[3] == e);
        } else if e == ".exe"@ {
            assert(listed[4] == e);
        } else if e == ".fish"@ {
            assert(listed[5] == e);
        } else if e == ".js"@ {
            assert(listed[6] == e);
        } else if e == ".pl"@ {
            assert(listed[7] == e);
        } else if e == ".py"@ {
            assert(listed[8] == e);
        } else if e == ".rb"@ {
            assert(listed[9] == e);
        } else if e == ".sh"@ {
            assert(listed[10] == e);
        } else {
            assert(listed[11] == e);
        }
        assert(listed.contains(e));
    }
    if listed.contains(e) {
        let k = choose|k: int| 0 <= k < listed.len() && listed[k] == e;
        assert(is_windows_command_extension(e));
    }
}

/// Whether some pattern occurs in the text.
pub open spec fn any_occurs(text: Seq<char>, patterns: Seq<Seq<char>>) -> bool {
    exists|k: int| 0 <= k < patterns.len() && contains_spec(text, #[trigger] patterns[k])
}

fn any_pattern_occurs(text: &Vec<char>, patterns: &Vec<String>) -> (found: bool)
    ensures
        found == any_occurs(text@, texts(patterns@)),
{
    let ghost model = texts(patterns@);
    let mut k: usize = 0;
    while k < patterns.len()
        invariant
            k <= patterns@.len(),
            model == texts(patterns@),
            forall|m: int| 0 <= m < k ==> !contains_spec(text@, #[trigger] model[m]),
        decreases patterns@.len() - k,
    {
        let pattern = chars_of(patterns[k].as_str());
        assert(model[k as int] == pattern@);
        if contains(text.as_slice(), pattern.as_slice()) {
            return true;
        }
        k = k + 1;
    }
    false
}

/// Whether a directory entry is a candidate name: no ignore pattern occurs
/// in it and it can be a command in its directory.
pub open spec fn is_candidate_name_spec(
    name: Seq<char>,
    ignore_patterns: Seq<Seq<char>>,
    kind: DirectoryKind,
) -> bool {
    !any_occurs(name, ignore_patterns) && allowed_command_name_spec(name, kind)
}

pub fn is_candidate_name(name: &str, ignore_patterns: &Vec<String>, kind: DirectoryKind) -> (keep:
    bool)
    ensures
        keep == is_candidate_name_spec(name@, texts(ignore_patterns@), kind),
{
    let chars = chars_of(name);
    !any_pattern_occurs(&chars, ignore_patterns) && allowed_command_name(name, kind)
}

/// The upper-case form of a text (std's `str::to_uppercase`).
pub uninterp spec fn uppercase(text: Seq<char>) -> Seq<char>;

/// The upper-case form of a text (std's `str::to_uppercase`).
/// Trusted: the result is `uppercase(text)`.
#[verifier::external_body]
fn to_uppercase(text: &str) -> (upper: String)
    ensures
        upper@ == uppercase(text@),
{
    text.to_uppercase()
}

/// The ignored-directory patterns in upper case, compared case-blind.
pub fn uppercase_patterns(patterns: &Vec<String>) -> (upper: Vec<String>)
    ensures
        texts(upper@) == texts(patterns@).map_values(|p: Seq<char>| uppercase(p)),
{
    let mut upper: Vec<String> = Vec::new();
    let mut k: usize = 0;
    while k < patterns.len()
        invariant
            k <= patterns@.len(),
            texts(upper@) == texts(patterns@).take(k as int).map_values(
                |p: Seq<char>| uppercase(p),
            ),
        decreases patterns@.len() - k,
    {
        let ghost before = texts(upper@);
        let u = to_uppercase(patterns[k].as_str());
        assert(texts(patterns@)[k as int] == patterns@[k as int]@);
        upper.push(u);
        assert(texts(upper@) =~= before.push(uppercase(texts(patterns@)[k as int])));
        assert(texts(patterns@).take(k + 1) =~= texts(patterns@).take(k as int).push(
            texts(patterns@)[k as int],
        ));
        k = k + 1;
        assert(texts(upper@) =~= texts(patterns@).take(k as int).map_values(
            |p: Seq<char>| uppercase(p),
        ));
    }
    assert(texts(patterns@).take(patterns@.len() as int) =~= texts(patterns@));
    upper
}

/// Whether a directory is ignored: one of the (upper-case) patterns occurs
/// in its upper-case form.
pub fn directory_is_ignored(directory: &str, upper_patterns: &Vec<String>) -> (ignored: bool)
    ensures
        ignored == any_occurs(uppercase(directory@), texts(upper_patterns@)),
{
    let upper = to_uppercase(directory);
    let chars = chars_of(upper.as_str());
    any_pattern_occurs(&chars, upper_patterns)
}

// ----------------------------------------------------------------------
// Windows.
// ----------------------------------------------------------------------
/// The non-empty entries of a list, ASCII lower-cased, in order.
pub open spec fn lowered_entries(pieces: Seq<Seq<char>>) -> Seq<Seq<char>>
    decreases pieces.len(),
{
    if pieces.len() == 0 {
        Seq::empty()
    } else {
        let rest = lowered_entries(pieces.drop_last());
        if pieces.last().len() == 0 {
            rest
        } else {
            rest.push(ascii_lower_seq(pieces.last()))
        }
    }
}

/// The extensions that make a file a command on Windows: the non-empty
/// entries of the `;`-separated `PATHEXT` value (`.BAT;.CMD;.COM;.EXE`
/// where it is unset), lower-cased.
pub open spec fn windows_extensions_spec(pathext: Option<&str>) -> Seq<Seq<char>> {
    let list = match pathext {
        Some(text) => text@,
        None => ".BAT;.CMD;.COM;.EXE"@,
    };
    lowered_entries(split_on(list, ';'))
}

pub fn windows_extensions(pathext: Option<&str>) -> (extensions: Vec<String>)
    ensures
        texts(extensions@) == windows_extensions_spec(pathext),
{
    let list = match pathext {
        Some(text) => chars_of(text),
        None => chars_of(".BAT;.CMD;.COM;.EXE"),
    };
    let pieces = split_on_char(list.as_slice(), ';');
    let ghost model = pieces@.map_values(|p: Vec<char>| p@);
    let mut extensions: Vec<String> = Vec::new();
    let mut k: usize = 0;
    assert(model.take(0) =~= Seq::<Seq<char>>::empty());
    assert(texts(extensions@) =~= Seq::<Seq<char>>::empty());
    while k < pieces.len()
        invariant
            k <= pieces@.len(),
            model == pieces@.map_values(|p: Vec<char>| p@),
            texts(extensions@) == lowered_entries(model.take(k as int)),
        decreases pieces@.len() - k,
    {
        let ghost before = texts(extensions@);
        assert(model.take(k + 1).drop_last() =~= model.take(k as int));
        assert(model.take(k + 1).last() == pieces@[k as int]@);
        if pieces[k].len() > 0 {
            let lower = ascii_lowercase(pieces[k].as_slice());
            let entry = string_of(lower.as_slice());
            extensions.push(entry);
            assert(texts(extensions@) =~= before.push(entry@));
        }
        k = k + 1;
    }
    assert(model.take(pieces@.len() as int) =~= model);
    extensions
}

/// Whether a file name can be a command on Windows: its extension is one
/// of the given ones, compared ASCII case-blind.
pub open spec fn allowed_windows_command_name_spec(
    name: Seq<char>,
    extensions: Seq<Seq<char>>,
) -> bool {
    exists|k: int|
        0 <= k < extensions.len() && ascii_lower_seq(extension_spec(name)) == ascii_lower_seq(
            #[trigger] extensions[k],
        )
}

pub fn allowed_windows_command_name(name: &str, extensions: &Vec<String>) -> (allowed: bool)
    ensures
        allowed == allowed_windows_command_name_spec(name@, texts(extensions@)),
{
    let ext = extension(name);
    let lower = ascii_lowercase(chars_of(ext.as_str()).as_slice());
    let ghost model = texts(extensions@);
    let mut k: usize = 0;
    while k < extensions.len()
        invariant
            k <= extensions@.len(),
            model == texts(extensions@),
            lower@ == ascii_lower_seq(extension_spec(name@)),
            forall|m: int|
                0 <= m < k ==> ascii_lower_seq(extension_spec(name@)) != ascii_lower_seq(
                    #[trigger] model[m],
                ),
        decreases extensions@.len() - k,
    {
        let allowed = ascii_lowercase(chars_of(extensions[k].as_str()).as_slice());
        assert(model[k as int] == extensions@[k as int]@);
        if same_chars(lower.as_slice(), allowed.as_slice()) {
            return true;
        }
        k = k + 1;
    }
    false
}

/// Whether a directory entry is a candidate name on Windows: no ignore
/// pattern occurs in it and its extension is a command extension.
pub open spec fn is_windows_candidate_name_spec(
    name: Seq<char>,
    ignore_patterns: Seq<Seq<char>>,
    extensions: Seq<Seq<char>>,
) -> bool {
    !any_occurs(name, ignore_patterns) && allowed_windows_command_name_spec(name, extensions)
}

pub fn is_windows_candidate_name(
    name: &str,
    ignore_patterns: &Vec<String>,
    extensions: &Vec<String>,
) -> (keep: bool)
    ensures
        keep == is_windows_candidate_name_spec(
            name@,
            texts(ignore_patterns@),
            texts(extensions@),
        ),
{
    let chars = chars_of(name);
    !any_pattern_occurs(&chars, ignore_patterns) && allowed_windows_command_name(name, extensions)
}

/// A text without its leading dots (std's `str::trim_start_matches('.')`).
pub open spec fn trim_leading_dots(text: Seq<char>) -> Seq<char>
    decreases text.len(),
{
    if text.len() > 0 && text[0] == '.' {
        trim_leading_dots(text.skip(1))
    } else {
        text
    }
}

pub fn without_leading_dots(text: &str) -> (trimmed: String)
    ensures
        trimmed@ == trim_leading_dots(text@),
{
    let chars = chars_of(text);
    let mut i: usize = 0;
    assert(chars@.skip(0) =~= chars@);
    while i < chars.len() && chars[i] == '.'
        invariant
            i <= chars@.len(),
            chars@ == text@,
            trim_leading_dots(chars@) == trim_leading_dots(chars@.skip(i as int)),
        decreases chars@.len() - i,
    {
        assert(chars@.skip(i as int).skip(1) =~= chars@.skip(i + 1));
        i = i + 1;
    }
    let mut rest: Vec<char> = Vec::new();
    let mut j: usize = i;
    while j < chars.len()
        invariant
            i <= j <= chars@.len(),
            rest@ == chars@.subrange(i as int, j as int),
        decreases chars@.len() - j,
    {
        rest.push(chars[j]);
        j = j + 1;
        assert(rest@ =~= chars@.subrange(i as int, j as int));
    }
    assert(rest@ =~= chars@.skip(i as int));
    string_of(rest.as_slice())
}

/// The extensions without their leading dots, as the exact search on
/// Windows gives them to the command it probes for.
pub open spec fn extension_stems_spec(extensions: Seq<Seq<char>>) -> Seq<Seq<char>> {
    extensions.map_values(|e: Seq<char>| trim_leading_dots(e))
}

/// What the exact search on Windows probes in each directory: the command
/// as given (`None`) where it has an extension, else the command with each
/// of the extensions in turn (`Some`, the extensions without leading dots).
pub fn exact_stems_for(has_extension: bool, extensions: &Vec<String>) -> (stems: Option<
    Vec<String>,
>)
    ensures
        match stems {
            None => has_extension,
            Some(stems) => !has_extension && texts(stems@) == extension_stems_spec(
                texts(extensions@),
            ),
        },
{
    if has_extension {
        return None;
    }
    let mut stems: Vec<String> = Vec::new();
    let mut k: usize = 0;
    while k < extensions.len()
        invariant
            k <= extensions@.len(),
            texts(stems@) == extension_stems_spec(texts(extensions@).take(k as int)),
        decreases extensions@.len() - k,
    {
        let ghost before = texts(stems@);
        let stem = without_leading_dots(extensions[k].as_str());
        stems.push(stem);
        assert(texts(extensions@).take(k + 1) =~= texts(extensions@).take(k as int).push(
            extensions@[k as int]@,
        ));
        assert(texts(stems@) =~= before.push(trim_leading_dots(extensions@[k as int]@)));
        k = k + 1;
        assert(texts(stems@) =~= extension_stems_spec(texts(extensions@).take(k as int)));
    }
    assert(texts(extensions@).take(extensions@.len() as int) =~= texts(extensions@));
    Some(stems)
}

/// Whether a text is a file name on its own: no path separator (`/`, `\`)
/// or drive mark (`:`) in it, and not `.` or `..`.
pub open spec fn is_plain_file_name(text: Seq<char>) -> bool {
    &&& !text.contains('/')
    &&& !text.contains('\\')
    &&& !text.contains(':')
    &&& text != "."@
    &&& text != ".."@
}

/// Whether a command has an extension as std's `Path::extension` reads it.
/// Trusted, as std documents it: there is no extension without an embedded
/// `.`; for a text that is a file name on its own, there is one exactly
/// when the name has a `.` past its first character (the part after the
/// last `.`, possibly empty). Left unsaid: texts with separators or a
/// drive mark, which follow the path syntax of the platform.
#[verifier::external_body]
fn path_has_extension(command: &str) -> (present: bool)
    ensures
        !command@.contains('.') ==> !present,
        is_plain_file_name(command@) ==> (present == (extension_spec(command@).len() > 0)),
{
    std::path::Path::new(command).extension().is_some()
}

/// What the exact search on Windows probes for `command` in each
/// directory (see `exact_stems_for`): a command that is a plain file name
/// is probed as given exactly when it has an extension, and otherwise with
/// each extension; a command without any `.` always with each extension.
pub fn windows_exact_stems(command: &str, extensions: &Vec<String>) -> (stems: Option<Vec<String>>)
    ensures
        match stems {
            None => command@.contains('.'),
            Some(stems) => texts(stems@) == extension_stems_spec(texts(extensions@)),
        },
        is_plain_file_name(command@) ==> (stems is None <==> extension_spec(command@).len() > 0),
{
    exact_stems_for(path_has_extension(command), extensions)
}

// ----------------------------------------------------------------------
// One candidate per name.
// ----------------------------------------------------------------------
/// `names[i]` is the first occurrence of its name.
pub open spec fn is_first_occurrence(names: Seq<Seq<char>>, i: int) -> bool {
    forall|j: int| 0 <= j < i ==> names[j] != names[i]
}

/// The positions of the first occurrence of each name among the first `n`.
pub open spec fn first_occurrences(names: Seq<Seq<char>>, n: int) -> Seq<usize>
    decreases n,
{
    if n <= 0 {
        Seq::empty()
    } else {
        let before = first_occurrences(names, n - 1);
        if is_first_occurrence(names, n - 1) {
            before.push((n - 1) as usize)
        } else {
            before
        }
    }
}

/// The name at position `p` stands for the one at position `i`: it is the
/// same name, found no later.
pub open spec fn stands_for(names: Seq<Seq<char>>, p: int, i: int) -> bool {
    names[p] == names[i] && p <= i
}

proof fn lemma_kept_positions(names: Seq<Seq<char>>, n: int)
    requires
        0 <= n <= names.len(),
        names.len() <= usize::MAX,
    ensures
        forall|a: int|
            0 <= a < first_occurrences(names, n).len() ==> {
                let p = #[trigger] first_occurrences(names, n)[a] as int;
                0 <= p < n && is_first_occurrence(names, p)
            },
    decreases n,
{
    if n > 0 {
        lemma_kept_positions(names, n - 1);
        let before = first_occurrences(names, n - 1);
        let kept = first_occurrences(names, n);
        assert forall|a: int| 0 <= a < kept.len() implies {
            let p = #[trigger] kept[a] as int;
            0 <= p < n && is_first_occurrence(names, p)
        } by {
            if a < before.len() {
                assert(kept[a] == before[a]);
            }
        }
    }
}

proof fn lemma_kept_increasing(names: Seq<Seq<char>>, n: int)
    requires
        0 <= n <= names.len(),
        names.len() <= usize::MAX,
    ensures
        forall|a: int, b: int|
            0 <= a < b < first_occurrences(names, n).len() ==> #[trigger] first_occurrences(
                names,
                n,
            )[a] < #[trigger] first_occurrences(names, n)[b],
    decreases n,
{
    if n > 0 {
        lemma_kept_increasing(names, n - 1);
        lemma_kept_positions(names, n - 1);
        let before = first_occurrences(names, n - 1);
        let kept = first_occurrences(names, n);
        assert forall|a: int, b: int| 0 <= a < b < kept.len() implies #[trigger] kept[a]
            < #[trigger] kept[b] by {
            assert(kept[a] == before[a]);
            if b < before.len() {
                assert(kept[b] == before[b]);
            } else {
                assert(before[a] < n - 1);
            }
        }
    }
}

proof fn lemma_kept_covers(names: Seq<Seq<char>>, n: int, i: int)
    requires
        0 <= i < n <= names.len(),
        names.len() <= usize::MAX,
    ensures
        exists|a: int|
            0 <= a < first_occurrences(names, n).len() && #[trigger] stands_for(
                names,
                first_occurrences(names, n)[a] as int,
                i,
            ),
    decreases n,
{
    let before = first_occurrences(names, n - 1);
    let kept = first_occurrences(names, n);
    assert(forall|a: int| 0 <= a < before.len() ==> #[trigger] kept[a] == before[a]);
    if i < n - 1 {
        lemma_kept_covers(names, n - 1, i);
        let a = choose|a: int|
            0 <= a < before.len() && #[trigger] stands_for(names, before[a] as int, i);
        assert(kept[a] == before[a]);
        assert(stands_for(names, kept[a] as int, i));
    } else if is_first_occurrence(names, n - 1) {
        let a = before.len() as int;
        assert(kept[a] == (n - 1) as usize);
        assert(stands_for(names, kept[a] as int, i));
    } else {
        let j = choose|j: int| 0 <= j < n - 1 && #[trigger] names[j] == names[n - 1];
        lemma_kept_covers(names, n - 1, j);
        let a = choose|a: int|
            0 <= a < before.len() && #[trigger] stands_for(names, before[a] as int, j);
        assert(kept[a] == before[a]);
        assert(stands_for(names, kept[a] as int, i));
    }
}

/// Some kept position stands for position `i`.
pub open spec fn is_represented(names: Seq<Seq<char>>, kept: Seq<usize>, i: int) -> bool {
    exists|a: int| 0 <= a < kept.len() && #[trigger] stands_for(names, kept[a] as int, i)
}

/// One candidate per name, the earliest: the kept positions are
/// increasing, each keeps a name not seen before it, and every name among
/// the first `n` is kept at a position no later than any of its occurrences.
pub proof fn law_earliest_occurrence_kept(names: Seq<Seq<char>>, n: int)
    requires
        0 <= n <= names.len(),
        names.len() <= usize::MAX,
    ensures
        forall|a: int|
            0 <= a < first_occurrences(names, n).len() ==> {
                let p = #[trigger] first_occurrences(names, n)[a] as int;
                0 <= p < n && is_first_occurrence(names, p)
            },
        forall|a: int, b: int|
            0 <= a < b < first_occurrences(names, n).len() ==> #[trigger] first_occurrences(
                names,
                n,
            )[a] < #[trigger] first_occurrences(names, n)[b],
        forall|i: int| 0 <= i < n ==> #[trigger] is_represented(names, first_occurrences(names, n), i),
{
    lemma_kept_positions(names, n);
    lemma_kept_increasing(names, n);
    assert forall|i: int| 0 <= i < n implies #[trigger] is_represented(
        names,
        first_occurrences(names, n),
        i,
    ) by {
        lemma_kept_covers(names, n, i);
    }
}

/// The positions, in order, of the first occurrence of each name: the
/// earliest `PATH` directory holding a name speaks for it.
pub fn first_of_each_name(names: &Vec<String>) -> (kept: Vec<usize>)
    ensures
        kept@ == first_occurrences(texts(names@), names@.len() as int),
{
    let ghost model = texts(names@);
    let mut kept: Vec<usize> = Vec::new();
    let mut i: usize = 0;
    while i < names.len()
        invariant
            i <= names@.len(),
            model == texts(names@),
            kept@ == first_occurrences(model, i as int),
        decreases names@.len() - i,
    {
        let mut j: usize = 0;
        let mut seen = false;
        while j < i
            invariant_except_break
                j <= i < names@.len(),
                model == texts(names@),
                forall|m: int| 0 <= m < j ==> model[m] != model[i as int],
                !seen,
            ensures
                seen == !is_first_occurrence(model, i as int),
            decreases i - j,
        {
            assert(model[j as int] == names@[j as int]@);
            assert(model[i as int] == names@[i as int]@);
            if names[j] == names[i] {
                seen = true;
                break;
            }
            j = j + 1;
        }
        if !seen {
            kept.push(i);
        }
        i = i + 1;
    }
    kept
}

// ----------------------------------------------------------------------
// Ranking.
// ----------------------------------------------------------------------
/// The position of a floating-point score in `f64::total_cmp`'s order,
/// read from its bit pattern: negative values (sign bit set) rank by their
/// inverted bits, the others above them by their bits.
pub open spec fn total_order_key(bits: u64) -> int {
    if bits >= 0x8000_0000_0000_0000 {
        0xFFFF_FFFF_FFFF_FFFF - bits
    } else {
        bits + 0x8000_0000_0000_0000
    }
}

fn order_key(bits: u64) -> (key: u64)
    ensures
        key == total_order_key(bits),
{
    if bits >= 0x8000_0000_0000_0000 {
        0xFFFF_FFFF_FFFF_FFFF - bits
    } else {
        bits + 0x8000_0000_0000_0000
    }
}

/// Lexicographic order on bytes (the order of `String`s).
pub open spec fn bytes_lt(x: Seq<u8>, y: Seq<u8>) -> bool
    decreases x.len(),
{
    if x.len() == 0 {
        y.len() > 0
    } else if y.len() == 0 {
        false
    } else if x[0] != y[0] {
        x[0] < y[0]
    } else {
        bytes_lt(x.drop_first(), y.drop_first())
    }
}

proof fn lemma_bytes_lt_transitive(x: Seq<u8>, y: Seq<u8>, z: Seq<u8>)
    requires
        bytes_lt(x, y),
        bytes_lt(y, z),
    ensures
        bytes_lt(x, z),
    decreases x.len(),
{
    if x.len() > 0 && y.len() > 0 && z.len() > 0 && x[0] == y[0] && y[0] == z[0] {
        lemma_bytes_lt_transitive(x.drop_first(), y.drop_first(), z.drop_first());
    }
}

proof fn lemma_bytes_lt_asymmetric(x: Seq<u8>, y: Seq<u8>)
    ensures
        bytes_lt(x, y) ==> !bytes_lt(y, x),
    decreases x.len(),
{
    if x.len() > 0 && y.len() > 0 && x[0] == y[0] {
        lemma_bytes_lt_asymmetric(x.drop_first(), y.drop_first());
    }
}

proof fn lemma_bytes_lt_total(x: Seq<u8>, y: Seq<u8>)
    ensures
        x != y ==> bytes_lt(x, y) || bytes_lt(y, x),
    decreases x.len(),
{
    if x.len() > 0 && y.len() > 0 && x[0] == y[0] {
        lemma_bytes_lt_total(x.drop_first(), y.drop_first());
        if x.drop_first() == y.drop_first() {
            assert forall|k: int| 0 <= k < x.len() implies x[k] == y[k] by {
                if k > 0 {
                    assert(x[k] == x.drop_first()[k - 1]);
                    assert(y[k] == y.drop_first()[k - 1]);
                }
            }
            assert(x =~= y);
        }
    } else if x.len() == 0 && y.len() == 0 {
        assert(x =~= y);
    }
}

/// Whether `a` sorts before `b` by the bytes of their names.
pub fn name_less(a: &str, b: &str) -> (less: bool)
    ensures
        less == bytes_lt(a.spec_bytes(), b.spec_bytes()),
{
    let x = a.as_bytes();
    let y = b.as_bytes();
    let mut i: usize = 0;
    assert(x@.skip(0) =~= x@);
    assert(y@.skip(0) =~= y@);
    while i < x.len() && i < y.len() && x[i] == y[i]
        invariant
            i <= x@.len(),
            i <= y@.len(),
            bytes_lt(x@, y@) == bytes_lt(x@.skip(i as int), y@.skip(i as int)),
        decreases x@.len() - i,
    {
        assert(x@.skip(i as int).drop_first() =~= x@.skip(i + 1));
        assert(y@.skip(i as int).drop_first() =~= y@.skip(i + 1));
        i = i + 1;
    }
    assert(x@.skip(0) =~= x@);
    assert(y@.skip(0) =~= y@);
    if i < x.len() && i < y.len() {
        assert(x@.skip(i as int)[0] == x@[i as int]);
        assert(y@.skip(i as int)[0] == y@[i as int]);
        x[i] < y[i]
    } else {
        i < y.len() && i == x.len()
    }
}

/// The order of suggestions: higher score first, then by name, then by
/// position (the order a stable sort keeps).
pub open spec fn precedes(keys: Seq<u64>, names: Seq<Seq<u8>>, i: int, j: int) -> bool {
    ||| total_order_key(keys[i]) > total_order_key(keys[j])
    ||| total_order_key(keys[i]) == total_order_key(keys[j]) && (bytes_lt(names[i], names[j]) || (
    names[i] == names[j] && i < j))
}

proof fn lemma_precedes_transitive(keys: Seq<u64>, names: Seq<Seq<u8>>, i: int, j: int, k: int)
    requires
        precedes(keys, names, i, j),
        precedes(keys, names, j, k),
    ensures
        precedes(keys, names, i, k),
{
    if total_order_key(keys[i]) == total_order_key(keys[j]) && total_order_key(keys[j])
        == total_order_key(keys[k]) {
        if bytes_lt(names[i], names[j]) && bytes_lt(names[j], names[k]) {
            lemma_bytes_lt_transitive(names[i], names[j], names[k]);
        }
    }
}

/// `order` lists, best first, the `limit` best of `n` items (all of them
/// when there are fewer) under `precedes`.
pub open spec fn is_ranking(
    keys: Seq<u64>,
    names: Seq<Seq<u8>>,
    limit: nat,
    order: Seq<usize>,
) -> bool {
    let n = keys.len();
    &&& order.len() == (if limit <= n {
        limit
    } else {
        n
    })
    &&& forall|a: int| 0 <= a < order.len() ==> #[trigger] order[a] < n
    &&& forall|a: int, b: int|
        0 <= a < b < order.len() ==> precedes(keys, names, #[trigger] order[a] as int, #[trigger] order[b] as int)
    &&& forall|a: int, i: int|
        0 <= a < order.len() && 0 <= i < n && !order.contains(i as usize) ==> #[trigger] precedes(
            keys,
            names,
            order[a] as int,
            i,
        )
}

/// The positions of the `limit` best items, best first.
pub fn rank_order(keys: &Vec<u64>, names: &Vec<String>, limit: usize) -> (order: Vec<usize>)
    requires
        keys@.len() == names@.len(),
    ensures
        is_ranking(keys@, names@.map_values(|s: String| encode_utf8(s@)), limit as nat, order@),
{
    let ghost nm = names@.map_values(|s: String| encode_utf8(s@));
    let n = keys.len();
    let count = if limit <= n {
        limit
    } else {
        n
    };
    let mut taken: Vec<bool> = Vec::new();
    let mut t: usize = 0;
    while t < n
        invariant
            t <= n,
            taken@ == Seq::new(t as nat, |i: int| false),
        decreases n - t,
    {
        taken.push(false);
        t = t + 1;
        assert(taken@ =~= Seq::new(t as nat, |i: int| false));
    }
    let mut order: Vec<usize> = Vec::new();
    proof {
        lemma_count_true_all_false(n as nat);
    }
    while order.len() < count
        invariant
            n == keys@.len(),
            n == names@.len(),
            count <= n,
            order@.len() <= count,
            taken@.len() == n,
            count_true(taken@) == order@.len(),
            nm == names@.map_values(|s: String| encode_utf8(s@)),
            forall|i: int| 0 <= i < n ==> (taken@[i] <==> order@.contains(i as usize)),
            forall|a: int| 0 <= a < order@.len() ==> #[trigger] order@[a] < n,
            forall|a: int, b: int|
                0 <= a < b < order@.len() ==> precedes(keys@, nm, #[trigger] order@[a] as int, #[trigger] order@[b] as int),
            forall|a: int, i: int|
                0 <= a < order@.len() && 0 <= i < n && !taken@[i] ==> #[trigger] precedes(
                    keys@,
                    nm,
                    order@[a] as int,
                    i,
                ),
        decreases count - order@.len(),
    {
        // Some item is still free: fewer than `n` are taken.
        let mut best: usize = 0;
        while best < n && taken[best]
            invariant
                best <= n,
                taken@.len() == n,
                forall|i: int| 0 <= i < best ==> taken@[i],
            decreases n - best,
        {
            best = best + 1;
        }
        proof {
            if best == n {
                lemma_count_true_free(taken@);
            }
        }
        let mut i: usize = best + 1;
        while i < n
            invariant
                best < i <= n,
                n == keys@.len(),
                n == names@.len(),
                taken@.len() == n,
                !taken@[best as int],
                nm == names@.map_values(|s: String| encode_utf8(s@)),
                forall|m: int|
                    0 <= m < i && m != best && !taken@[m] ==> precedes(keys@, nm, best as int, m),
            decreases n - i,
        {
            if !taken[i] {
                let ki = order_key(keys[i]);
                let kb = order_key(keys[best]);
                let better = if ki != kb {
                    ki > kb
                } else {
                    assert(nm[i as int] == encode_utf8(names@[i as int]@));
                    assert(nm[best as int] == encode_utf8(names@[best as int]@));
                    if name_less(names[i].as_str(), names[best].as_str()) {
                        true
                    } else if name_less(names[best].as_str(), names[i].as_str()) {
                        false
                    } else {
                        proof {
                            lemma_bytes_lt_total(nm[i as int], nm[best as int]);
                        }
                        false
                    }
                };
                if better {
                    proof {
                        assert forall|m: int|
                            0 <= m < i + 1 && m != i && !taken@[m] implies precedes(
                            keys@,
                            nm,
                            i as int,
                            m,
                        ) by {
                            if m != best {
                                lemma_precedes_transitive(keys@, nm, i as int, best as int, m);
                            }
                        }
                    }
                    best = i;
                } else {
                    proof {
                        if total_order_key(keys@[i as int]) == total_order_key(keys@[best as int])
                            && !bytes_lt(nm[i as int], nm[best as int]) && !bytes_lt(
                            nm[best as int],
                            nm[i as int],
                        ) {
                            lemma_bytes_lt_total(nm[i as int], nm[best as int]);
                        }
                    }
                }
            }
            i = i + 1;
        }
        let ghost old_order = order@;
        let ghost old_taken = taken@;
        order.push(best);
        taken.set(best, true);
        proof {
            lemma_count_true_set(old_taken, best as int);
            assert forall|k: int| 0 <= k < n implies (taken@[k] <==> order@.contains(k as usize)) by {
                if k == best {
                    assert(order@[order@.len() - 1] == best);
                } else {
                    if order@.contains(k as usize) {
                        let a = choose|a: int| 0 <= a < order@.len() && order@[a] == k as usize;
                        assert(a < old_order.len());
                        assert(old_order.contains(k as usize));
                    }
                    if old_order.contains(k as usize) {
                        let a = choose|a: int| 0 <= a < old_order.len() && old_order[a] == k as usize;
                        assert(order@[a] == k as usize);
                    }
                }
            }
            assert forall|a: int, b: int|
                0 <= a < b < order@.len() implies precedes(keys@, nm, #[trigger] order@[a] as int, #[trigger] order@[b] as int) by {
                if b == order@.len() - 1 {
                    assert(!old_taken[best as int]);
                    assert(order@[a] == old_order[a]);
                    assert(precedes(keys@, nm, old_order[a] as int, best as int));
                } else {
                    assert(order@[a] == old_order[a]);
                    assert(order@[b] == old_order[b]);
                }
            }
            assert forall|a: int, k: int|
                0 <= a < order@.len() && 0 <= k < n && !taken@[k] implies #[trigger] precedes(
                keys@,
                nm,
                order@[a] as int,
                k,
            ) by {
                assert(k != best);
                if a < order@.len() - 1 {
                    assert(order@[a] == old_order[a]);
                    assert(precedes(keys@, nm, old_order[a] as int, k));
                }
            }
        }
    }
    proof {
        assert forall|a: int, k: int|
            0 <= a < order@.len() && 0 <= k < n && !order@.contains(k as usize) implies #[trigger] precedes(
            keys@,
            nm,
            order@[a] as int,
            k,
        ) by {
            assert(!taken@[k]);
        }
    }
    order
}

proof fn lemma_count_true_free(flags: Seq<bool>)
    requires
        count_true(flags) < flags.len(),
    ensures
        exists|i: int| 0 <= i < flags.len() && !flags[i],
    decreases flags.len(),
{
    if flags.last() {
        lemma_count_true_free(flags.drop_last());
        let i = choose|i: int| 0 <= i < flags.drop_last().len() && !flags.drop_last()[i];
        assert(!flags[i]);
    } else {
        assert(!flags[flags.len() - 1]);
    }
}


proof fn lemma_precedes_asymmetric(keys: Seq<u64>, names: Seq<Seq<u8>>, i: int, j: int)
    ensures
        precedes(keys, names, i, j) ==> !precedes(keys, names, j, i),
        !precedes(keys, names, i, i),
{
    lemma_bytes_lt_asymmetric(names[i], names[j]);
    lemma_bytes_lt_asymmetric(names[i], names[i]);
}

proof fn lemma_ranking_agree(
    keys: Seq<u64>,
    names: Seq<Seq<u8>>,
    limit: nat,
    o1: Seq<usize>,
    o2: Seq<usize>,
    k: int,
)
    requires
        is_ranking(keys, names, limit, o1),
        is_ranking(keys, names, limit, o2),
        0 <= k < o1.len(),
    ensures
        o1[k] == o2[k],
    decreases k,
{
    assert forall|m: int| 0 <= m < k implies o1[m] == o2[m] by {
        lemma_ranking_agree(keys, names, limit, o1, o2, m);
    }
    let u = o1[k] as int;
    let v = o2[k] as int;
    if u != v {
        // `u` comes before `v`, as `o1` has it.
        if o1.contains(v as usize) {
            let p = choose|p: int| 0 <= p < o1.len() && o1[p] == v as usize;
            if p < k {
                assert(o2[p] == v as usize);
                assert(precedes(keys, names, o2[p] as int, o2[k] as int));
                lemma_precedes_asymmetric(keys, names, v, v);
            }
            assert(p != k);
            assert(precedes(keys, names, o1[k] as int, o1[p] as int));
        } else {
            assert(precedes(keys, names, o1[k] as int, v));
        }
        // `v` comes before `u`, as `o2` has it.
        if o2.contains(u as usize) {
            let p = choose|p: int| 0 <= p < o2.len() && o2[p] == u as usize;
            if p < k {
                assert(o1[p] == u as usize);
                assert(precedes(keys, names, o1[p] as int, o1[k] as int));
                lemma_precedes_asymmetric(keys, names, u, u);
            }
            assert(p != k);
            assert(precedes(keys, names, o2[k] as int, o2[p] as int));
        } else {
            assert(precedes(keys, names, o2[k] as int, u));
        }
        lemma_precedes_asymmetric(keys, names, u, v);
    }
}

/// The ranking is unique: two lists that both rank the same scored names
/// under the same limit are the same list.
pub proof fn law_ranking_unique(
    keys: Seq<u64>,
    names: Seq<Seq<u8>>,
    limit: nat,
    o1: Seq<usize>,
    o2: Seq<usize>,
)
    requires
        is_ranking(keys, names, limit, o1),
        is_ranking(keys, names, limit, o2),
    ensures
        o1 == o2,
{
    assert forall|k: int| 0 <= k < o1.len() implies o1[k] == o2[k] by {
        lemma_ranking_agree(keys, names, limit, o1, o2, k);
    }
    assert(o1 =~= o2);
}

/// The ranking of `n` scored names: the positions of the `limit` best,
/// best first.
pub open spec fn ranking_of(keys: Seq<u64>, names: Seq<Seq<u8>>, limit: nat) -> Seq<usize> {
    choose|order: Seq<usize>| is_ranking(keys, names, limit, order)
}

/// The score keys of suggestions.
pub open spec fn score_bits(matches: Seq<Suggestion>) -> Seq<u64> {
    matches.map_values(|m: Suggestion| m.similarity_bits)
}

/// The names of suggestions, as bytes.
pub open spec fn name_bytes(matches: Seq<Suggestion>) -> Seq<Seq<u8>> {
    matches.map_values(|m: Suggestion| encode_utf8(m.name@))
}

/// The suggestions that are shown: by score (highest first, in
/// `f64::total_cmp`'s order), equal scores by name, at most `limit`.
pub open spec fn ranked_spec(matches: Seq<Suggestion>, limit: nat) -> Seq<Suggestion> {
    ranking_of(score_bits(matches), name_bytes(matches), limit).map_values(
        |p: usize| matches[p as int],
    )
}

/// Sorts suggestions by score (highest first), equal scores by name, and
/// keeps the first `limit`.
pub fn rank_suggestions(matches: &Vec<Suggestion>, limit: usize) -> (ranked: Vec<Suggestion>)
    ensures
        ranked@ == ranked_spec(matches@, limit as nat),
        is_ranking(
            score_bits(matches@),
            name_bytes(matches@),
            limit as nat,
            ranking_of(score_bits(matches@), name_bytes(matches@), limit as nat),
        ),
{
    let mut keys: Vec<u64> = Vec::new();
    let mut names: Vec<String> = Vec::new();
    let mut i: usize = 0;
    while i < matches.len()
        invariant
            i <= matches@.len(),
            keys@ == score_bits(matches@).take(i as int),
            names@.map_values(|s: String| encode_utf8(s@)) == name_bytes(matches@).take(i as int),
            names@.len() == i,
        decreases matches@.len() - i,
    {
        let ghost before = names@;
        keys.push(matches[i].similarity_bits);
        names.push(matches[i].name.clone());
        i = i + 1;
        assert(keys@ =~= score_bits(matches@).take(i as int));
        assert(names@.map_values(|s: String| encode_utf8(s@)) =~= name_bytes(matches@).take(
            i as int,
        ));
    }
    assert(score_bits(matches@).take(i as int) =~= score_bits(matches@));
    assert(name_bytes(matches@).take(i as int) =~= name_bytes(matches@));
    let order = rank_order(&keys, &names, limit);
    proof {
        let ks = score_bits(matches@);
        let ns = name_bytes(matches@);
        law_ranking_unique(ks, ns, limit as nat, order@, ranking_of(ks, ns, limit as nat));
    }
    let mut ranked: Vec<Suggestion> = Vec::new();
    let mut k: usize = 0;
    while k < order.len()
        invariant
            k <= order@.len(),
            forall|a: int| 0 <= a < order@.len() ==> #[trigger] order@[a] < matches@.len(),
            ranked@ == order@.take(k as int).map_values(|p: usize| matches@[p as int]),
        decreases order@.len() - k,
    {
        assert(order@[k as int] < matches@.len());
        let copy = matches[order[k]].clone();
        ranked.push(copy);
        k = k + 1;
        assert(ranked@ =~= order@.take(k as int).map_values(|p: usize| matches@[p as int]));
    }
    assert(order@.take(k as int) =~= order@);
    ranked
}

// ----------------------------------------------------------------------
// The outcome of a lookup.
// ----------------------------------------------------------------------
/// An exact match wins: the executables named exactly so, when there are
/// any; `None` when the fuzzy search is to run.
pub fn exact_outcome(exact: Vec<String>) -> (outcome: Option<SearchResult>)
    ensures
        exact@.len() > 0 <==> outcome is Some,
        outcome matches Some(result) ==> result == SearchResult::Exact(exact),
{
    if exact.len() > 0 {
        Some(SearchResult::Exact(exact))
    } else {
        None
    }
}

/// The fuzzy search's outcome: the shown suggestions (ranked, at most
/// `limit`) and how many distinct candidate names were scored (`kept` holds
/// one position per name).
pub fn fuzzy_outcome(kept: &Vec<usize>, matches: &Vec<Suggestion>, limit: usize) -> (outcome:
    SearchResult)
    ensures
        outcome matches SearchResult::Suggestions { matches: shown, candidate_count } && shown@
            == ranked_spec(matches@, limit as nat) && candidate_count == kept@.len(),
{
    let shown = rank_suggestions(matches, limit);
    SearchResult::Suggestions { matches: shown, candidate_count: kept.len() }
}

/// The paths of an exact match as printed: one per line.
pub open spec fn exact_listing(paths: Seq<Seq<char>>) -> Seq<char>
    decreases paths.len(),
{
    if paths.len() == 0 {
        Seq::empty()
    } else {
        exact_listing(paths.drop_last()) + paths.last() + "\n"@
    }
}

/// The paths of an exact match as printed: one per line.
pub fn exact_text(paths: &Vec<String>) -> (listing: String)
    ensures
        listing@ == exact_listing(texts(paths@)),
{
    let mut listing = String::new();
    let mut k: usize = 0;
    while k < paths.len()
        invariant
            k <= paths@.len(),
            listing@ == exact_listing(texts(paths@).take(k as int)),
        decreases paths@.len() - k,
    {
        let ghost before = listing@;
        listing.append(paths[k].as_str());
        listing.append("\n");
        assert(texts(paths@).take(k + 1).drop_last() =~= texts(paths@).take(k as int));
        assert(texts(paths@).take(k + 1).last() == paths@[k as int]@);
        k = k + 1;
    }
    assert(texts(paths@).take(paths@.len() as int) =~= texts(paths@));
    listing
}

} // verus!
