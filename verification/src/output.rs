//! The text of the suggestion report: a table of close matches, each name
//! coloured grapheme by grapheme against the query (green where it agrees,
//! red where it differs, magenta past the query's end), with columns
//! padded by visible width.

use vstd::prelude::*;

use crate::search::Suggestion;
use crate::similarity::{grapheme_clusters, graphemes};
use crate::text::{chars_of, push_char};
use crate::texts;

verus! {

pub open spec fn esc() -> char {
    '\x1b'
}

pub open spec fn green() -> Seq<char> {
    seq![esc(), '[', '3', '2', 'm']
}

pub open spec fn red() -> Seq<char> {
    seq![esc(), '[', '3', '1', 'm']
}

pub open spec fn magenta() -> Seq<char> {
    seq![esc(), '[', '3', '5', 'm']
}

pub open spec fn reset() -> Seq<char> {
    seq![esc(), '[', '0', 'm']
}

/// The rest of a text after the `m` that ends an escape code (nothing when
/// no `m` follows).
pub open spec fn after_code(text: Seq<char>) -> Seq<char>
    decreases text.len(),
{
    if text.len() == 0 {
        text
    } else if text[0] == 'm' {
        text.drop_first()
    } else {
        after_code(text.drop_first())
    }
}

pub proof fn lemma_after_code_shorter(text: Seq<char>)
    ensures
        after_code(text).len() <= text.len(),
    decreases text.len(),
{
    if text.len() > 0 && text[0] != 'm' {
        lemma_after_code_shorter(text.drop_first());
    }
}

/// A text without its ANSI escape codes: each `ESC [` up to and including
/// the next `m` is dropped.
pub open spec fn strip_ansi_spec(text: Seq<char>) -> Seq<char>
    decreases text.len(),
{
    if text.len() == 0 {
        Seq::empty()
    } else if text.len() >= 2 && text[0] == esc() && text[1] == '[' {
        proof {
            lemma_after_code_shorter(text.skip(2));
        }
        strip_ansi_spec(after_code(text.skip(2)))
    } else {
        seq![text[0]].add(strip_ansi_spec(text.drop_first()))
    }
}

/// A text without its ANSI escape codes.
pub fn strip_ansi(text: &str) -> (visible: String)
    ensures
        visible@ == strip_ansi_spec(text@),
{
    let chars = chars_of(text);
    let n = chars.len();
    let mut result = String::new();
    let mut i: usize = 0;
    assert(chars@.skip(0) =~= chars@);
    while i < n
        invariant
            i <= n,
            n == chars@.len(),
            chars@ == text@,
            result@ + strip_ansi_spec(chars@.skip(i as int)) == strip_ansi_spec(text@),
        decreases n - i,
    {
        let ghost rest = chars@.skip(i as int);
        if chars[i] == '\x1b' && i + 1 < n && chars[i + 1] == '[' {
            assert(rest[0] == esc() && rest[1] == '[');
            assert(rest.skip(2) =~= chars@.skip(i + 2));
            let mut k: usize = i + 2;
            while k < n && chars[k] != 'm'
                invariant
                    i + 2 <= k <= n,
                    n == chars@.len(),
                    after_code(chars@.skip(i + 2)) == after_code(chars@.skip(k as int)),
                decreases n - k,
            {
                assert(chars@.skip(k as int).drop_first() =~= chars@.skip(k + 1));
                k = k + 1;
            }
            if k < n {
                assert(chars@.skip(k as int).drop_first() =~= chars@.skip(k + 1));
                k = k + 1;
            } else {
                assert(chars@.skip(k as int).len() == 0);
            }
            i = k;
        } else {
            assert(rest.drop_first() =~= chars@.skip(i + 1));
            let ghost before = result@;
            push_char(&mut result, chars[i]);
            assert(result@ =~= before + seq![rest[0]]);
            i = i + 1;
            assert(before + (seq![rest[0]] + strip_ansi_spec(chars@.skip(i as int))) =~= result@
                + strip_ansi_spec(chars@.skip(i as int)));
        }
    }
    assert(chars@.skip(n as int) =~= Seq::<char>::empty());
    assert(result@ + Seq::<char>::empty() =~= result@);
    result
}

/// `count` spaces.
pub open spec fn spaces(count: nat) -> Seq<char> {
    Seq::new(count, |i: int| ' ')
}

/// `count` copies of `c`.
fn repeated(c: char, count: usize) -> (text: String)
    ensures
        text@ == Seq::new(count as nat, |i: int| c),
{
    let mut text = String::new();
    let mut i: usize = 0;
    while i < count
        invariant
            i <= count,
            text@ == Seq::new(i as nat, |k: int| c),
        decreases count - i,
    {
        push_char(&mut text, c);
        i = i + 1;
        assert(text@ =~= Seq::new(i as nat, |k: int| c));
    }
    text
}

/// The visible width of a text: the grapheme clusters left once its escape
/// codes are removed.
pub open spec fn visible_width(text: Seq<char>) -> nat {
    grapheme_clusters(strip_ansi_spec(text)).len()
}

/// A text followed by enough spaces to fill `width` visible columns.
pub open spec fn pad_spec(text: Seq<char>, width: nat) -> Seq<char> {
    text + spaces(if width >= visible_width(text) {
        (width - visible_width(text)) as nat
    } else {
        0
    })
}

/// Pads a text with spaces to `width` visible columns (escape codes take
/// no room, a grapheme cluster takes one).
pub fn pad(text: &str, width: usize) -> (padded: String)
    ensures
        padded@ == pad_spec(text@, width as nat),
{
    let visible = strip_ansi(text);
    let clusters = graphemes(visible.as_str());
    let length = clusters.len();
    assert(texts(clusters@).len() == length);
    let fill = if width >= length {
        width - length
    } else {
        0
    };
    let mut padded = text.to_owned();
    let tail = repeated(' ', fill);
    padded.append(tail.as_str());
    padded
}

/// The colour of the `k`-th grapheme of a suggestion.
pub open spec fn highlight_color(input: Seq<Seq<char>>, suggestion: Seq<Seq<char>>, k: int) -> Seq<
    char,
> {
    if k >= input.len() {
        magenta()
    } else if input[k] == suggestion[k] {
        green()
    } else {
        red()
    }
}

/// The suggestion's graphemes from the `k`-th on, each in its colour and
/// followed by a reset.
pub open spec fn highlight_from(input: Seq<Seq<char>>, suggestion: Seq<Seq<char>>, k: int) -> Seq<
    char,
>
    decreases suggestion.len() - k,
{
    if k < 0 || k >= suggestion.len() {
        Seq::empty()
    } else {
        highlight_color(input, suggestion, k) + suggestion[k] + reset() + highlight_from(
            input,
            suggestion,
            k + 1,
        )
    }
}

pub open spec fn highlight_spec(input: Seq<Seq<char>>, suggestion: Seq<Seq<char>>) -> Seq<char> {
    highlight_from(input, suggestion, 0)
}

pub open spec fn has_no_escape(text: Seq<char>) -> bool {
    forall|i: int| 0 <= i < text.len() ==> text[i] != esc()
}

proof fn lemma_strip_plain_prefix(plain: Seq<char>, rest: Seq<char>)
    requires
        has_no_escape(plain),
    ensures
        strip_ansi_spec(plain + rest) == plain + strip_ansi_spec(rest),
    decreases plain.len(),
{
    if plain.len() == 0 {
        assert(plain + rest =~= rest);
        assert(plain + strip_ansi_spec(rest) =~= strip_ansi_spec(rest));
    } else {
        let whole = plain + rest;
        assert(whole[0] == plain[0]);
        assert(whole.drop_first() =~= plain.drop_first() + rest);
        lemma_strip_plain_prefix(plain.drop_first(), rest);
        assert(plain =~= seq![plain[0]] + plain.drop_first());
        assert(seq![plain[0]] + (plain.drop_first() + strip_ansi_spec(rest)) =~= plain
            + strip_ansi_spec(rest));
    }
}

proof fn lemma_strip_code(code: Seq<char>, rest: Seq<char>)
    requires
        code.len() >= 3,
        code[0] == esc(),
        code[1] == '[',
        code.last() == 'm',
        forall|i: int| 2 <= i < code.len() - 1 ==> code[i] != 'm',
    ensures
        strip_ansi_spec(code + rest) == strip_ansi_spec(rest),
{
    let whole = code + rest;
    assert(whole[0] == esc() && whole[1] == '[');
    lemma_after_code_skip(code.skip(2), rest);
    assert(whole.skip(2) =~= code.skip(2) + rest);
}

proof fn lemma_after_code_skip(body: Seq<char>, rest: Seq<char>)
    requires
        body.len() >= 1,
        body.last() == 'm',
        forall|i: int| 0 <= i < body.len() - 1 ==> body[i] != 'm',
    ensures
        after_code(body + rest) == rest,
    decreases body.len(),
{
    let whole = body + rest;
    if body.len() == 1 {
        assert(whole[0] == 'm');
        assert(whole.drop_first() =~= rest);
    } else {
        assert(whole[0] == body[0]);
        assert(body[0] != 'm');
        assert(whole.drop_first() =~= body.drop_first() + rest);
        lemma_after_code_skip(body.drop_first(), rest);
    }
}

proof fn lemma_strip_highlight(
    input: Seq<Seq<char>>,
    suggestion: Seq<Seq<char>>,
    k: int,
    rest: Seq<char>,
)
    requires
        0 <= k <= suggestion.len(),
        forall|j: int| 0 <= j < suggestion.len() ==> has_no_escape(#[trigger] suggestion[j]),
    ensures
        strip_ansi_spec(highlight_from(input, suggestion, k) + rest) == suggestion.skip(k).flatten()
            + strip_ansi_spec(rest),
    decreases suggestion.len() - k,
{
    if k == suggestion.len() {
        assert(highlight_from(input, suggestion, k) + rest =~= rest);
        assert(suggestion.skip(k) =~= Seq::<Seq<char>>::empty());
        assert(suggestion.skip(k).flatten() + strip_ansi_spec(rest) =~= strip_ansi_spec(rest));
    } else {
        let color = highlight_color(input, suggestion, k);
        let g = suggestion[k];
        let tail = highlight_from(input, suggestion, k + 1);
        lemma_strip_highlight(input, suggestion, k + 1, rest);
        assert(highlight_from(input, suggestion, k) + rest =~= color + (g + (reset() + (tail
            + rest))));
        lemma_strip_code(color, g + (reset() + (tail + rest)));
        lemma_strip_plain_prefix(g, reset() + (tail + rest));
        lemma_strip_code(reset(), tail + rest);
        assert(suggestion.skip(k) =~= seq![g] + suggestion.skip(k + 1));
        assert(suggestion.skip(k).drop_first() =~= suggestion.skip(k + 1));
        assert(g + (suggestion.skip(k + 1).flatten() + strip_ansi_spec(rest)) =~= (g
            + suggestion.skip(k + 1).flatten()) + strip_ansi_spec(rest));
    }
}

/// Colour codes take no room: removing the escape codes from a highlighted
/// suggestion, padded with spaces, leaves the suggestion's own characters
/// and the spaces, provided the suggestion holds no escape character.
pub proof fn law_padding_ignores_color_codes(
    input: Seq<Seq<char>>,
    suggestion: Seq<Seq<char>>,
    count: nat,
)
    requires
        forall|j: int| 0 <= j < suggestion.len() ==> has_no_escape(#[trigger] suggestion[j]),
    ensures
        strip_ansi_spec(highlight_spec(input, suggestion) + spaces(count)) == suggestion.flatten()
            + spaces(count),
{
    lemma_strip_highlight(input, suggestion, 0, spaces(count));
    assert(suggestion.skip(0) =~= suggestion);
    assert(has_no_escape(spaces(count)));
    lemma_strip_plain_prefix(spaces(count), Seq::empty());
    assert(spaces(count) + Seq::<char>::empty() =~= spaces(count));
}

fn color_text(input: &Vec<String>, suggestion: &Vec<String>, k: usize) -> (color: &'static str)
    requires
        k < suggestion@.len(),
    ensures
        color@ == highlight_color(texts(input@), texts(suggestion@), k as int),
{
    proof {
        reveal_strlit("\x1b[32m");
        reveal_strlit("\x1b[31m");
        reveal_strlit("\x1b[35m");
    }
    if k >= input.len() {
        assert("\x1b[35m"@ =~= magenta());
        "\x1b[35m"
    } else if input[k] == suggestion[k] {
        assert("\x1b[32m"@ =~= green());
        "\x1b[32m"
    } else {
        assert("\x1b[31m"@ =~= red());
        "\x1b[31m"
    }
}

/// The suggestion, grapheme by grapheme, coloured against the input.
pub fn highlight_differences(input: &str, suggestion: &str) -> (highlighted: String)
    ensures
        highlighted@ == highlight_spec(grapheme_clusters(input@), grapheme_clusters(suggestion@)),
        has_no_escape(suggestion@) ==> strip_ansi_spec(highlighted@) == suggestion@,
{
    let a = graphemes(input);
    let b = graphemes(suggestion);
    let ghost ga = texts(a@);
    let ghost gb = texts(b@);
    let mut result = String::new();
    let mut i: usize = 0;
    while i < b.len()
        invariant
            i <= b@.len(),
            ga == texts(a@),
            gb == texts(b@),
            result@ + highlight_from(ga, gb, i as int) == highlight_spec(ga, gb),
        decreases b@.len() - i,
    {
        proof {
            reveal_strlit("\x1b[0m");
        }
        assert("\x1b[0m"@ =~= reset());
        let ghost before = result@;
        let color = color_text(&a, &b, i);
        result.append(color);
        assert(gb[i as int] == b@[i as int]@);
        result.append(b[i].as_str());
        result.append("\x1b[0m");
        assert(highlight_from(ga, gb, i as int) == highlight_color(ga, gb, i as int) + gb[i as int]
            + reset() + highlight_from(ga, gb, i + 1));
        i = i + 1;
        assert(result@ + highlight_from(ga, gb, i as int) =~= before + (highlight_color(
            ga,
            gb,
            (i - 1) as int,
        ) + gb[(i - 1) as int] + reset() + highlight_from(ga, gb, i as int)));
    }
    assert(highlight_from(ga, gb, i as int) =~= Seq::<char>::empty());
    assert(result@ + Seq::<char>::empty() =~= result@);
    proof {
        if has_no_escape(suggestion@) {
            assert forall|j: int| 0 <= j < gb.len() implies has_no_escape(#[trigger] gb[j]) by {
                lemma_flatten_part_no_escape(gb, j, suggestion@);
            }
            law_padding_ignores_color_codes(ga, gb, 0);
            assert(spaces(0) =~= Seq::<char>::empty());
            assert(result@ + spaces(0) =~= result@);
            assert(gb.flatten() + spaces(0) =~= gb.flatten());
        }
    }
    result
}

proof fn lemma_flatten_part_no_escape(parts: Seq<Seq<char>>, j: int, whole: Seq<char>)
    requires
        0 <= j < parts.len(),
        parts.flatten() == whole,
        has_no_escape(whole),
    ensures
        has_no_escape(parts[j]),
    decreases parts.len(),
{
    let first = parts.first();
    let rest = parts.drop_first().flatten();
    assert(whole =~= first + rest);
    if j == 0 {
        assert forall|i: int| 0 <= i < first.len() implies first[i] != esc() by {
            assert(whole[i] == first[i]);
        }
    } else {
        assert forall|i: int| 0 <= i < rest.len() implies rest[i] != esc() by {
            assert(whole[first.len() + i] == rest[i]);
        }
        lemma_flatten_part_no_escape(parts.drop_first(), j - 1, rest);
    }
}

// ----------------------------------------------------------------------
// The report.
// ----------------------------------------------------------------------
/// `n` dashes.
pub open spec fn dashes(n: nat) -> Seq<char> {
    Seq::new(n, |i: int| '-')
}

/// The table header: column titles, then a rule as wide as the columns.
pub open spec fn header_spec(verbose: bool) -> Seq<char> {
    pad_spec("Suggested Command"@, 20) + " | "@ + pad_spec("Location"@, 50) + (if verbose {
        " | "@ + pad_spec("Similarity"@, 10)
    } else {
        Seq::empty()
    }) + "\n"@ + dashes(if verbose {
        86
    } else {
        73
    }) + "\n"@
}

/// The table header.
pub fn header_text(verbose: bool) -> (header: String)
    ensures
        header@ == header_spec(verbose),
{
    let mut header = pad("Suggested Command", 20);
    header.append(" | ");
    let location = pad("Location", 50);
    header.append(location.as_str());
    if verbose {
        header.append(" | ");
        let similarity = pad("Similarity", 10);
        header.append(similarity.as_str());
    }
    header.append("\n");
    let rule = repeated('-', if verbose { 86 } else { 73 });
    header.append(rule.as_str());
    header.append("\n");
    header
}

/// One table row: the name coloured against the query, its location, and
/// (verbose) its similarity as text.
pub open spec fn row_spec(
    command: Seq<char>,
    name: Seq<char>,
    location: Seq<char>,
    similarity: Seq<char>,
    verbose: bool,
) -> Seq<char> {
    pad_spec(highlight_spec(grapheme_clusters(command), grapheme_clusters(name)), 20) + " | "@
        + pad_spec(location, 50) + (if verbose {
        " | "@ + pad_spec(similarity, 10)
    } else {
        Seq::empty()
    }) + "\n"@
}

/// The rows of the first `n` suggestions.
pub open spec fn rows_spec(
    command: Seq<char>,
    matches: Seq<Suggestion>,
    similarities: Seq<Seq<char>>,
    verbose: bool,
    n: int,
) -> Seq<char>
    decreases n,
{
    if n <= 0 {
        Seq::empty()
    } else {
        rows_spec(command, matches, similarities, verbose, n - 1) + row_spec(
            command,
            matches[n - 1].name@,
            matches[n - 1].path@,
            similarities[n - 1],
            verbose,
        )
    }
}

/// The report for a command that was not found.
pub open spec fn report_spec(
    command: Seq<char>,
    matches: Seq<Suggestion>,
    similarities: Seq<Seq<char>>,
    verbose: bool,
) -> Seq<char> {
    if matches.len() == 0 {
        "\nCommand '"@ + command + "' not found and no close matches.\n"@
    } else {
        "\nCommand '"@ + command + "' not found. Close matches:\n\n"@ + header_spec(verbose)
            + rows_spec(command, matches, similarities, verbose, matches.len() as int)
    }
}

/// The report for a command that was not found: a no-match line, or the
/// table of close matches. `similarities` holds each suggestion's score as
/// text, for the verbose column.
pub fn suggestions_text(
    command: &str,
    matches: &Vec<Suggestion>,
    similarities: &Vec<String>,
    verbose: bool,
) -> (report: String)
    requires
        similarities@.len() == matches@.len(),
    ensures
        report@ == report_spec(command@, matches@, texts(similarities@), verbose),
{
    let mut report = "\nCommand '".to_owned();
    report.append(command);
    if matches.len() == 0 {
        report.append("' not found and no close matches.\n");
        return report;
    }
    report.append("' not found. Close matches:\n\n");
    let header = header_text(verbose);
    report.append(header.as_str());
    let ghost start = report@;
    let ghost sims = texts(similarities@);
    let mut k: usize = 0;
    while k < matches.len()
        invariant
            k <= matches@.len(),
            similarities@.len() == matches@.len(),
            sims == texts(similarities@),
            report@ == start + rows_spec(command@, matches@, sims, verbose, k as int),
        decreases matches@.len() - k,
    {
        let ghost before = report@;
        let highlighted = highlight_differences(command, matches[k].name.as_str());
        let name_cell = pad(highlighted.as_str(), 20);
        report.append(name_cell.as_str());
        report.append(" | ");
        let location_cell = pad(matches[k].path.as_str(), 50);
        report.append(location_cell.as_str());
        if verbose {
            report.append(" | ");
            let similarity_cell = pad(similarities[k].as_str(), 10);
            report.append(similarity_cell.as_str());
        }
        report.append("\n");
        assert(sims[k as int] == similarities@[k as int]@);
        assert(report@ =~= before + row_spec(
            command@,
            matches@[k as int].name@,
            matches@[k as int].path@,
            sims[k as int],
            verbose,
        ));
        k = k + 1;
    }
    report
}

/// The row of the `k`-th suggestion.
pub open spec fn row_of(
    command: Seq<char>,
    matches: Seq<Suggestion>,
    similarities: Seq<Seq<char>>,
    verbose: bool,
    k: int,
) -> Seq<char> {
    row_spec(command, matches[k].name@, matches[k].path@, similarities[k], verbose)
}

proof fn lemma_rows_in_order(
    command: Seq<char>,
    matches: Seq<Suggestion>,
    similarities: Seq<Seq<char>>,
    verbose: bool,
    n: nat,
)
    ensures
        rows_spec(command, matches, similarities, verbose, n as int) == Seq::new(
            n,
            |k: int| row_of(command, matches, similarities, verbose, k),
        ).flatten(),
    decreases n,
{
    let rows = Seq::new(n, |k: int| row_of(command, matches, similarities, verbose, k));
    if n == 0 {
        assert(rows.len() == 0);
    } else {
        let m = (n - 1) as nat;
        lemma_rows_in_order(command, matches, similarities, verbose, m);
        let before = Seq::new(m, |k: int| row_of(command, matches, similarities, verbose, k));
        assert(rows =~= before.push(row_of(command, matches, similarities, verbose, m as int)));
        before.lemma_flatten_push(row_of(command, matches, similarities, verbose, m as int));
    }
}

/// The report keeps the order of the suggestions it is given (the
/// ranking): without suggestions it is the no-match line; otherwise the
/// opening line and the header are followed by the row of `matches[0]`,
/// then the row of `matches[1]`, and so on, one row per suggestion.
pub proof fn law_rows_follow_ranking(
    command: Seq<char>,
    matches: Seq<Suggestion>,
    similarities: Seq<Seq<char>>,
    verbose: bool,
)
    ensures
        matches.len() == 0 ==> report_spec(command, matches, similarities, verbose) == "\nCommand '"@
            + command + "' not found and no close matches.\n"@,
        matches.len() > 0 ==> report_spec(command, matches, similarities, verbose) == "\nCommand '"@
            + command + "' not found. Close matches:\n\n"@ + header_spec(verbose) + Seq::new(
            matches.len(),
            |k: int| row_of(command, matches, similarities, verbose, k),
        ).flatten(),
{
    lemma_rows_in_order(command, matches, similarities, verbose, matches.len());
}

} // verus!
