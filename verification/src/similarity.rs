//! The counting core of the fuzzy scorers. Names are compared case-blind
//! (by their lower-case forms) and by extended grapheme clusters, so a
//! letter with its combining marks, or an emoji sequence, counts as one.
//! The scores themselves are floating-point numbers, formed by the program
//! from the counts computed here.

use vstd::prelude::*;

use unicode_segmentation::UnicodeSegmentation;

use crate::texts;
use crate::Algorithm;

verus! {

/// The extended grapheme clusters of a text, in order
/// (`unicode_segmentation`'s `graphemes(true)`).
pub uninterp spec fn grapheme_clusters(text: Seq<char>) -> Seq<Seq<char>>;

/// The lower-case form of a text (std's `str::to_lowercase`).
pub uninterp spec fn lowercase(text: Seq<char>) -> Seq<char>;

/// Splits a text into its extended grapheme clusters
/// (`UnicodeSegmentation::graphemes(text, true)`, each cluster copied out).
/// Trusted: the clusters are `grapheme_clusters(text)`; as the crate's
/// iterator hands out consecutive non-empty slices from the start of the
/// text to its end, they are non-empty and together spell the text.
#[verifier::external_body]
pub(crate) fn graphemes(text: &str) -> (clusters: Vec<String>)
    ensures
        texts(clusters@) == grapheme_clusters(text@),
        texts(clusters@).flatten() == text@,
        forall|k: int| 0 <= k < clusters@.len() ==> (#[trigger] clusters@[k])@.len() > 0,
{
    text.graphemes(true).map(|cluster| cluster.to_owned()).collect()
}

/// The lower-case form of a text (std's `str::to_lowercase`).
/// Trusted: the result is `lowercase(text)`.
#[verifier::external_body]
fn to_lowercase(text: &str) -> (lower: String)
    ensures
        lower@ == lowercase(text@),
{
    text.to_lowercase()
}

/// A query prepared once for scoring many candidates: its lower-case form
/// and that form's grapheme clusters.
#[derive(Debug, Clone)]
pub struct PreparedQuery {
    algorithm: Algorithm,
    normalized: String,
    graphemes: Vec<String>,
}

impl PreparedQuery {
    pub closed spec fn spec_algorithm(&self) -> Algorithm {
        self.algorithm
    }

    pub closed spec fn spec_normalized(&self) -> Seq<char> {
        self.normalized@
    }

    pub closed spec fn spec_graphemes(&self) -> Seq<Seq<char>> {
        texts(self.graphemes@)
    }

    pub fn new(query: &str, algorithm: Algorithm) -> (prepared: Self)
        ensures
            prepared.spec_algorithm() == algorithm,
            prepared.spec_normalized() == lowercase(query@),
            prepared.spec_graphemes() == grapheme_clusters(lowercase(query@)),
            prepared.spec_graphemes().flatten() == prepared.spec_normalized(),
            forall|k: int|
                0 <= k < prepared.spec_graphemes().len() ==> (
                #[trigger] prepared.spec_graphemes()[k]).len() > 0,
    {
        let normalized = to_lowercase(query);
        let graphemes = graphemes(normalized.as_str());
        let prepared = PreparedQuery { algorithm, normalized, graphemes };
        assert forall|k: int| 0 <= k < prepared.spec_graphemes().len() implies (
        #[trigger] prepared.spec_graphemes()[k]).len() > 0 by {
            assert(prepared.spec_graphemes()[k] == prepared.graphemes@[k]@);
        }
        prepared
    }

    pub fn algorithm(&self) -> (algorithm: Algorithm)
        ensures
            algorithm == self.spec_algorithm(),
    {
        self.algorithm
    }

    /// The query in lower case.
    pub fn normalized(&self) -> (normalized: &str)
        ensures
            normalized@ == self.spec_normalized(),
    {
        self.normalized.as_str()
    }

    /// The grapheme clusters of the lower-case query.
    pub fn graphemes(&self) -> (graphemes: &Vec<String>)
        ensures
            texts(graphemes@) == self.spec_graphemes(),
    {
        &self.graphemes
    }

    /// The Jaro-Winkler counts of the query against a candidate (compared in
    /// lower case).
    pub fn jaro_winkler_counts(&self, candidate: &str) -> (counts: JaroWinklerCounts)
        ensures
            counts@ == jaro_winkler_counts_spec(
                grapheme_clusters(self.spec_normalized()),
                grapheme_clusters(lowercase(candidate@)),
            ),
            counts.first_len == grapheme_clusters(self.spec_normalized()).len(),
            counts.second_len == grapheme_clusters(lowercase(candidate@)).len(),
    {
        let candidate = to_lowercase(candidate);
        jaro_winkler_counts_of_normalized(self.normalized.as_str(), candidate.as_str())
    }
}

/// The grapheme clusters of a candidate's lower-case form.
pub fn candidate_graphemes(candidate: &str) -> (clusters: Vec<String>)
    ensures
        texts(clusters@) == grapheme_clusters(lowercase(candidate@)),
{
    let lower = to_lowercase(candidate);
    graphemes(lower.as_str())
}

// ----------------------------------------------------------------------
// Jaro matching.
// ----------------------------------------------------------------------
/// How far apart two matching graphemes may stand: half the longer length,
/// less one (never below zero).
pub open spec fn match_window(first_len: nat, second_len: nat) -> nat {
    let longer = if first_len >= second_len {
        first_len
    } else {
        second_len
    };
    if longer / 2 >= 1 {
        (longer / 2 - 1) as nat
    } else {
        0
    }
}

pub open spec fn window_start(i: int, window: nat) -> int {
    if i >= window {
        i - window
    } else {
        0
    }
}

pub open spec fn window_end(i: int, window: nat, second_len: nat) -> int {
    if i + window + 1 <= second_len {
        i + window + 1
    } else {
        second_len as int
    }
}

/// The first position in `j..end` of `second` that is still free and holds `g`.
pub open spec fn first_free_match(
    g: Seq<char>,
    second: Seq<Seq<char>>,
    used: Seq<bool>,
    j: int,
    end: int,
) -> Option<int>
    decreases end - j,
{
    if j >= end {
        None
    } else if !used[j] && second[j] == g {
        Some(j)
    } else {
        first_free_match(g, second, used, j + 1, end)
    }
}

/// The Jaro matching after the first `i` graphemes of `first` have each
/// taken the first free equal grapheme of `second` within the window:
/// which graphemes of `first`, and which of `second`, are matched.
pub open spec fn greedy_matching(first: Seq<Seq<char>>, second: Seq<Seq<char>>, i: nat) -> (
    Seq<bool>,
    Seq<bool>,
)
    decreases i,
{
    if i == 0 {
        (Seq::empty(), Seq::new(second.len(), |j: int| false))
    } else {
        let (f, s) = greedy_matching(first, second, (i - 1) as nat);
        let w = match_window(first.len(), second.len());
        let k = i - 1;
        match first_free_match(
            first[k],
            second,
            s,
            window_start(k, w),
            window_end(k, w, second.len()),
        ) {
            Some(j) => (f.push(true), s.update(j, true)),
            None => (f.push(false), s),
        }
    }
}

/// How many flags are set.
pub open spec fn count_true(flags: Seq<bool>) -> nat
    decreases flags.len(),
{
    if flags.len() == 0 {
        0
    } else {
        count_true(flags.drop_last()) + if flags.last() {
            1nat
        } else {
            0nat
        }
    }
}

/// The items whose flag is set, in order (over the first `n` items).
pub open spec fn selected(items: Seq<Seq<char>>, flags: Seq<bool>, n: int) -> Seq<Seq<char>>
    decreases n,
{
    if n <= 0 {
        Seq::empty()
    } else {
        let before = selected(items, flags, n - 1);
        if flags[n - 1] {
            before.push(items[n - 1])
        } else {
            before
        }
    }
}

/// At how many of the first `n` positions the two sequences differ.
pub open spec fn mismatches(x: Seq<Seq<char>>, y: Seq<Seq<char>>, n: int) -> nat
    decreases n,
{
    if n <= 0 {
        0
    } else {
        mismatches(x, y, n - 1) + if x[n - 1] != y[n - 1] {
            1nat
        } else {
            0nat
        }
    }
}

pub open spec fn min_len(x: Seq<Seq<char>>, y: Seq<Seq<char>>) -> int {
    if x.len() <= y.len() {
        x.len() as int
    } else {
        y.len() as int
    }
}

/// The integer parts of a Jaro comparison.
pub struct JaroCountsModel {
    pub identical: bool,
    pub matches: nat,
    pub mismatched: nat,
}

/// The Jaro counts of two grapheme sequences: whether they are identical,
/// how many graphemes match, and at how many places the matched graphemes,
/// read in order on each side, differ (twice the transpositions).
pub open spec fn jaro_counts_spec(first: Seq<Seq<char>>, second: Seq<Seq<char>>) -> JaroCountsModel {
    let (f, s) = greedy_matching(first, second, first.len());
    let x = selected(first, f, first.len() as int);
    let y = selected(second, s, second.len() as int);
    JaroCountsModel {
        identical: first == second,
        matches: count_true(f),
        mismatched: mismatches(x, y, min_len(x, y)),
    }
}

/// The integer parts of a Jaro comparison.
#[derive(Debug, Clone, Copy, PartialEq, Eq, Structural)]
pub struct JaroCounts {
    pub identical: bool,
    pub matches: usize,
    pub mismatched: usize,
}

impl View for JaroCounts {
    type V = JaroCountsModel;

    open spec fn view(&self) -> JaroCountsModel {
        JaroCountsModel {
            identical: self.identical,
            matches: self.matches as nat,
            mismatched: self.mismatched as nat,
        }
    }
}

/// Whether two lists of strings are equal.
pub fn same_texts(a: &Vec<String>, b: &Vec<String>) -> (same: bool)
    ensures
        same == (texts(a@) == texts(b@)),
{
    if a.len() != b.len() {
        assert(texts(a@).len() != texts(b@).len());
        return false;
    }
    let mut i: usize = 0;
    while i < a.len()
        invariant
            a@.len() == b@.len(),
            i <= a@.len(),
            forall|k: int| 0 <= k < i ==> a@[k]@ == b@[k]@,
        decreases a@.len() - i,
    {
        if a[i] != b[i] {
            assert(texts(a@)[i as int] != texts(b@)[i as int]);
            return false;
        }
        i = i + 1;
    }
    assert(texts(a@) =~= texts(b@));
    true
}

fn window_of(first_len: usize, second_len: usize) -> (window: usize)
    ensures
        window == match_window(first_len as nat, second_len as nat),
{
    let longer = if first_len >= second_len {
        first_len
    } else {
        second_len
    };
    if longer / 2 >= 1 {
        longer / 2 - 1
    } else {
        0
    }
}

proof fn lemma_count_true_push(flags: Seq<bool>, b: bool)
    ensures
        count_true(flags.push(b)) == count_true(flags) + if b {
            1nat
        } else {
            0nat
        },
{
    assert(flags.push(b).drop_last() =~= flags);
}

proof fn lemma_count_true_bound(flags: Seq<bool>)
    ensures
        count_true(flags) <= flags.len(),
    decreases flags.len(),
{
    if flags.len() > 0 {
        lemma_count_true_bound(flags.drop_last());
    }
}

proof fn lemma_mismatches_bound(x: Seq<Seq<char>>, y: Seq<Seq<char>>, n: int)
    ensures
        mismatches(x, y, n) <= if n >= 0 {
            n as nat
        } else {
            0nat
        },
    decreases n,
{
    if n > 0 {
        lemma_mismatches_bound(x, y, n - 1);
    }
}

proof fn lemma_greedy_lengths(first: Seq<Seq<char>>, second: Seq<Seq<char>>, i: nat)
    ensures
        greedy_matching(first, second, i).0.len() == i,
        greedy_matching(first, second, i).1.len() == second.len(),
    decreases i,
{
    if i > 0 {
        lemma_greedy_lengths(first, second, (i - 1) as nat);
        let (f, s) = greedy_matching(first, second, (i - 1) as nat);
        let w = match_window(first.len(), second.len());
        let k = (i - 1) as int;
        lemma_first_free_match_range(
            first[k],
            second,
            s,
            window_start(k, w),
            window_end(k, w, second.len()),
        );
    }
}

proof fn lemma_first_free_match_range(
    g: Seq<char>,
    second: Seq<Seq<char>>,
    used: Seq<bool>,
    j: int,
    end: int,
)
    ensures
        first_free_match(g, second, used, j, end) matches Some(p) ==> j <= p < end,
    decreases end - j,
{
    if j < end {
        lemma_first_free_match_range(g, second, used, j + 1, end);
    }
}

/// Jaro matching on grapheme clusters: each grapheme of `first`, in order,
/// takes the first still-free equal grapheme of `second` within the window.
pub fn jaro_counts(first: &Vec<String>, second: &Vec<String>) -> (counts: JaroCounts)
    ensures
        counts@ == jaro_counts_spec(texts(first@), texts(second@)),
{
    let ghost a = texts(first@);
    let ghost b = texts(second@);
    let identical = same_texts(first, second);
    let n1 = first.len();
    let n2 = second.len();
    let w = window_of(n1, n2);
    let mut first_matched: Vec<bool> = Vec::new();
    let mut second_matched: Vec<bool> = Vec::new();
    let mut j: usize = 0;
    while j < n2
        invariant
            j <= n2,
            n2 == second@.len(),
            second_matched@ == Seq::new(j as nat, |k: int| false),
        decreases n2 - j,
    {
        second_matched.push(false);
        j = j + 1;
        assert(second_matched@ =~= Seq::new(j as nat, |k: int| false));
    }
    assert(greedy_matching(a, b, 0) == (first_matched@, second_matched@));
    let mut i: usize = 0;
    while i < n1
        invariant
            i <= n1,
            n1 == first@.len(),
            n2 == second@.len(),
            a == texts(first@),
            b == texts(second@),
            w == match_window(a.len(), b.len()),
            greedy_matching(a, b, i as nat) == (first_matched@, second_matched@),
        decreases n1 - i,
    {
        proof {
            lemma_greedy_lengths(a, b, i as nat);
        }
        let start: usize = if i >= w {
            i - w
        } else {
            0
        };
        let end: usize = if i < n2 && w < n2 - i {
            i + w + 1
        } else {
            n2
        };
        assert(start == window_start(i as int, w as nat));
        assert(end == window_end(i as int, w as nat, b.len()));
        let ghost g = a[i as int];
        assert(g == first@[i as int]@);
        let mut found = false;
        let mut k: usize = start;
        while k < end
            invariant_except_break
                start <= k,
                k <= end || k == start,
                end <= n2,
                i < n1,
                n1 == first@.len(),
                n2 == second@.len(),
                b == texts(second@),
                g == first@[i as int]@,
                second_matched@.len() == n2,
                !found,
                first_free_match(g, b, second_matched@, start as int, end as int)
                    == first_free_match(g, b, second_matched@, k as int, end as int),
            ensures
                found ==> first_free_match(g, b, second_matched@, start as int, end as int)
                    == Some(k as int) && k < end,
                !found ==> first_free_match(g, b, second_matched@, start as int, end as int)
                    is None,
            decreases end - k,
        {
            assert(b[k as int] == second@[k as int]@);
            if !second_matched[k] && first[i] == second[k] {
                found = true;
                break;
            }
            k = k + 1;
        }
        let ghost before_first = first_matched@;
        let ghost before_second = second_matched@;
        if found {
            first_matched.push(true);
            second_matched.set(k, true);
        } else {
            first_matched.push(false);
        }
        i = i + 1;
        assert(greedy_matching(a, b, i as nat) == (first_matched@, second_matched@));
    }
    proof {
        lemma_greedy_lengths(a, b, n1 as nat);
    }
    let ghost f = first_matched@;
    let ghost s = second_matched@;
    // Count the matches and collect the matched graphemes of each side.
    let mut matches: usize = 0;
    let mut matched_first: Vec<String> = Vec::new();
    let mut p: usize = 0;
    while p < n1
        invariant
            p <= n1,
            n1 == first@.len(),
            f == first_matched@,
            f.len() == n1,
            a == texts(first@),
            matches as nat == count_true(f.take(p as int)),
            texts(matched_first@) == selected(a, f, p as int),
        decreases n1 - p,
    {
        proof {
            lemma_count_true_push(f.take(p as int), f[p as int]);
            assert(f.take(p + 1) =~= f.take(p as int).push(f[p as int]));
            lemma_count_true_bound(f.take(p as int));
        }
        if first_matched[p] {
            let ghost before = texts(matched_first@);
            matched_first.push(first[p].clone());
            assert(texts(matched_first@) =~= before.push(a[p as int]));
            matches = matches + 1;
        }
        p = p + 1;
    }
    assert(f.take(n1 as int) =~= f);
    let mut matched_second: Vec<String> = Vec::new();
    let mut q: usize = 0;
    while q < n2
        invariant
            q <= n2,
            n2 == second@.len(),
            s == second_matched@,
            s.len() == n2,
            b == texts(second@),
            texts(matched_second@) == selected(b, s, q as int),
        decreases n2 - q,
    {
        if second_matched[q] {
            let ghost before = texts(matched_second@);
            matched_second.push(second[q].clone());
            assert(texts(matched_second@) =~= before.push(b[q as int]));
        }
        q = q + 1;
    }
    // Count the places where the matched graphemes differ.
    let ghost x = texts(matched_first@);
    let ghost y = texts(matched_second@);
    let shorter = if matched_first.len() <= matched_second.len() {
        matched_first.len()
    } else {
        matched_second.len()
    };
    let mut mismatched: usize = 0;
    let mut r: usize = 0;
    while r < shorter
        invariant
            r <= shorter,
            shorter == min_len(x, y),
            x == texts(matched_first@),
            y == texts(matched_second@),
            mismatched as nat == mismatches(x, y, r as int),
        decreases shorter - r,
    {
        proof {
            lemma_mismatches_bound(x, y, r as int);
        }
        assert(x[r as int] == matched_first@[r as int]@);
        assert(y[r as int] == matched_second@[r as int]@);
        if matched_first[r] != matched_second[r] {
            mismatched = mismatched + 1;
        }
        r = r + 1;
    }
    JaroCounts { identical, matches, mismatched }
}

/// The common prefix of two grapheme sequences, capped at `limit`.
pub open spec fn is_common_prefix_length(
    first: Seq<Seq<char>>,
    second: Seq<Seq<char>>,
    limit: nat,
    length: nat,
) -> bool {
    &&& length <= limit
    &&& length <= first.len()
    &&& length <= second.len()
    &&& forall|q: int| 0 <= q < length ==> first[q] == second[q]
    &&& (length == limit || length == first.len() || length == second.len() || first[length as int]
        != second[length as int])
}

/// How many leading graphemes the two sequences share, at most `limit`.
pub fn common_prefix_length(first: &Vec<String>, second: &Vec<String>, limit: usize) -> (length:
    usize)
    ensures
        is_common_prefix_length(texts(first@), texts(second@), limit as nat, length as nat),
{
    let ghost a = texts(first@);
    let ghost b = texts(second@);
    let mut length: usize = 0;
    while length < limit && length < first.len() && length < second.len()
        && first[length] == second[length]
        invariant
            length <= limit,
            length <= first@.len(),
            length <= second@.len(),
            a == texts(first@),
            b == texts(second@),
            forall|q: int| 0 <= q < length ==> a[q] == b[q],
        decreases limit - length,
    {
        assert(a[length as int] == first@[length as int]@);
        assert(b[length as int] == second@[length as int]@);
        length = length + 1;
    }
    proof {
        if length < limit && length < first@.len() && length < second@.len() {
            assert(a[length as int] == first@[length as int]@);
            assert(b[length as int] == second@[length as int]@);
        }
    }
    length
}

/// The integer parts of a Jaro-Winkler comparison.
pub struct JaroWinklerCountsModel {
    pub jaro: JaroCountsModel,
    pub first_len: nat,
    pub second_len: nat,
    pub prefix: nat,
}

/// The integer parts of a Jaro-Winkler comparison: the Jaro counts, the two
/// lengths in graphemes, and the common prefix (at most four graphemes)
/// that the Winkler boost rewards.
#[derive(Debug, Clone, Copy, PartialEq, Eq, Structural)]
pub struct JaroWinklerCounts {
    pub jaro: JaroCounts,
    pub first_len: usize,
    pub second_len: usize,
    pub prefix: usize,
}

impl View for JaroWinklerCounts {
    type V = JaroWinklerCountsModel;

    open spec fn view(&self) -> JaroWinklerCountsModel {
        JaroWinklerCountsModel {
            jaro: self.jaro@,
            first_len: self.first_len as nat,
            second_len: self.second_len as nat,
            prefix: self.prefix as nat,
        }
    }
}

/// The Jaro-Winkler counts of two grapheme sequences.
pub open spec fn jaro_winkler_counts_spec(first: Seq<Seq<char>>, second: Seq<Seq<char>>) -> JaroWinklerCountsModel {
    JaroWinklerCountsModel {
        jaro: jaro_counts_spec(first, second),
        first_len: first.len(),
        second_len: second.len(),
        prefix: choose|p: nat| is_common_prefix_length(first, second, 4, p),
    }
}

proof fn lemma_common_prefix_unique(
    first: Seq<Seq<char>>,
    second: Seq<Seq<char>>,
    limit: nat,
    p: nat,
    q: nat,
)
    requires
        is_common_prefix_length(first, second, limit, p),
        is_common_prefix_length(first, second, limit, q),
    ensures
        p == q,
{
    if p < q {
        assert(first[p as int] == second[p as int]);
    } else if q < p {
        assert(first[q as int] == second[q as int]);
    }
}

/// The Jaro-Winkler counts of two grapheme sequences.
pub fn jaro_winkler_counts(first: &Vec<String>, second: &Vec<String>) -> (counts:
    JaroWinklerCounts)
    ensures
        counts@ == jaro_winkler_counts_spec(texts(first@), texts(second@)),
        counts.first_len == first@.len(),
        counts.second_len == second@.len(),
        is_common_prefix_length(texts(first@), texts(second@), 4, counts.prefix as nat),
{
    let jaro = jaro_counts(first, second);
    let prefix = common_prefix_length(first, second, 4);
    proof {
        let a = texts(first@);
        let b = texts(second@);
        let chosen = choose|p: nat| is_common_prefix_length(a, b, 4, p);
        assert(is_common_prefix_length(a, b, 4, prefix as nat));
        lemma_common_prefix_unique(a, b, 4, chosen, prefix as nat);
    }
    JaroWinklerCounts { jaro, first_len: first.len(), second_len: second.len(), prefix }
}

/// The Jaro-Winkler counts of two texts already in lower case, compared by
/// grapheme clusters.
pub fn jaro_winkler_counts_of_normalized(first: &str, second: &str) -> (counts: JaroWinklerCounts)
    ensures
        counts@ == jaro_winkler_counts_spec(grapheme_clusters(first@), grapheme_clusters(second@)),
        counts.first_len == grapheme_clusters(first@).len(),
        counts.second_len == grapheme_clusters(second@).len(),
{
    let a = graphemes(first);
    let b = graphemes(second);
    jaro_winkler_counts(&a, &b)
}

/// The Jaro-Winkler counts of two texts, compared case-blind by grapheme
/// clusters.
pub fn jaro_winkler_counts_of(first: &str, second: &str) -> (counts: JaroWinklerCounts)
    ensures
        counts@ == jaro_winkler_counts_spec(
            grapheme_clusters(lowercase(first@)),
            grapheme_clusters(lowercase(second@)),
        ),
        counts.first_len == grapheme_clusters(lowercase(first@)).len(),
        counts.second_len == grapheme_clusters(lowercase(second@)).len(),
{
    let a = to_lowercase(first);
    let b = to_lowercase(second);
    jaro_winkler_counts_of_normalized(a.as_str(), b.as_str())
}

pub proof fn lemma_count_true_set(flags: Seq<bool>, i: int)
    requires
        0 <= i < flags.len(),
        !flags[i],
    ensures
        count_true(flags.update(i, true)) == count_true(flags) + 1,
    decreases flags.len(),
{
    if i < flags.len() - 1 {
        lemma_count_true_set(flags.drop_last(), i);
        assert(flags.update(i, true).drop_last() =~= flags.drop_last().update(i, true));
    } else {
        assert(flags.update(i, true).drop_last() =~= flags.drop_last());
    }
}

proof fn lemma_first_free_match_free(
    g: Seq<char>,
    second: Seq<Seq<char>>,
    used: Seq<bool>,
    j: int,
    end: int,
)
    requires
        0 <= j,
        end <= used.len(),
    ensures
        first_free_match(g, second, used, j, end) matches Some(p) ==> 0 <= p < used.len()
            && !used[p],
    decreases end - j,
{
    if j < end && !(!used[j] && second[j] == g) {
        lemma_first_free_match_free(g, second, used, j + 1, end);
    }
}

proof fn lemma_greedy_counts(first: Seq<Seq<char>>, second: Seq<Seq<char>>, i: nat)
    ensures
        count_true(greedy_matching(first, second, i).0) == count_true(
            greedy_matching(first, second, i).1,
        ),
        greedy_matching(first, second, i).1.len() == second.len(),
        greedy_matching(first, second, i).0.len() == i,
    decreases i,
{
    lemma_greedy_lengths(first, second, i);
    if i == 0 {
        lemma_count_true_all_false(second.len());
    } else {
        lemma_greedy_counts(first, second, (i - 1) as nat);
        let (f, s) = greedy_matching(first, second, (i - 1) as nat);
        let w = match_window(first.len(), second.len());
        let k = (i - 1) as int;
        let start = window_start(k, w);
        let end = window_end(k, w, second.len());
        lemma_first_free_match_free(first[k], second, s, start, end);
        lemma_count_true_push(f, true);
        lemma_count_true_push(f, false);
        match first_free_match(first[k], second, s, start, end) {
            Some(j) => {
                lemma_count_true_set(s, j);
            },
            None => {},
        }
    }
}

pub proof fn lemma_count_true_all_false(n: nat)
    ensures
        count_true(Seq::new(n, |j: int| false)) == 0,
    decreases n,
{
    if n > 0 {
        lemma_count_true_all_false((n - 1) as nat);
        assert(Seq::new(n, |j: int| false).drop_last() =~= Seq::new((n - 1) as nat, |j: int| false));
    }
}

proof fn lemma_selected_len(items: Seq<Seq<char>>, flags: Seq<bool>, n: int)
    requires
        0 <= n <= flags.len(),
    ensures
        selected(items, flags, n).len() == count_true(flags.take(n)),
    decreases n,
{
    if n > 0 {
        lemma_selected_len(items, flags, n - 1);
        assert(flags.take(n).drop_last() =~= flags.take(n - 1));
    } else {
        assert(flags.take(0).len() == 0);
    }
}

/// Jaro counts are consistent: no more matches than graphemes on either
/// side, and no more differing places than matches. So the Jaro score
/// lies between 0 and 1.
pub proof fn law_jaro_counts_bounded(first: Seq<Seq<char>>, second: Seq<Seq<char>>)
    ensures
        jaro_counts_spec(first, second).matches <= first.len(),
        jaro_counts_spec(first, second).matches <= second.len(),
        jaro_counts_spec(first, second).mismatched <= jaro_counts_spec(first, second).matches,
{
    let (f, s) = greedy_matching(first, second, first.len());
    lemma_greedy_counts(first, second, first.len());
    lemma_count_true_bound(f);
    lemma_count_true_bound(s);
    lemma_selected_len(first, f, first.len() as int);
    lemma_selected_len(second, s, second.len() as int);
    assert(f.take(first.len() as int) =~= f);
    assert(s.take(second.len() as int) =~= s);
    let x = selected(first, f, first.len() as int);
    let y = selected(second, s, second.len() as int);
    lemma_mismatches_bound(x, y, min_len(x, y));
}

proof fn lemma_count_true_full(flags: Seq<bool>)
    requires
        count_true(flags) == flags.len(),
    ensures
        forall|i: int| 0 <= i < flags.len() ==> flags[i],
    decreases flags.len(),
{
    if flags.len() > 0 {
        lemma_count_true_bound(flags.drop_last());
        lemma_count_true_full(flags.drop_last());
        assert forall|i: int| 0 <= i < flags.len() implies flags[i] by {
            if i < flags.len() - 1 {
                assert(flags[i] == flags.drop_last()[i]);
            }
        }
    }
}

proof fn lemma_selected_all(items: Seq<Seq<char>>, flags: Seq<bool>, n: int)
    requires
        0 <= n <= flags.len(),
        n <= items.len(),
        forall|i: int| 0 <= i < n ==> flags[i],
    ensures
        selected(items, flags, n) == items.take(n),
    decreases n,
{
    if n > 0 {
        lemma_selected_all(items, flags, n - 1);
        assert(items.take(n - 1).push(items[n - 1]) =~= items.take(n));
    } else {
        assert(items.take(0) =~= Seq::<Seq<char>>::empty());
    }
}

proof fn lemma_no_mismatches(x: Seq<Seq<char>>, y: Seq<Seq<char>>, n: int)
    requires
        mismatches(x, y, n) == 0,
    ensures
        forall|i: int| 0 <= i < n ==> x[i] == y[i],
    decreases n,
{
    if n > 0 {
        lemma_no_mismatches(x, y, n - 1);
    }
}

proof fn lemma_common_prefix_from(first: Seq<Seq<char>>, second: Seq<Seq<char>>, limit: nat, p: nat) -> (q:
    nat)
    requires
        p <= limit,
        p <= first.len(),
        p <= second.len(),
        forall|r: int| 0 <= r < p ==> first[r] == second[r],
    ensures
        is_common_prefix_length(first, second, limit, q),
    decreases limit - p,
{
    if p < limit && p < first.len() && p < second.len() && first[p as int] == second[p as int] {
        lemma_common_prefix_from(first, second, limit, p + 1)
    } else {
        p
    }
}

/// The Jaro-Winkler counts hold each side's own length in graphemes, and
/// the common prefix of at most four graphemes that the two sides share.
pub proof fn law_counts_hold_both_lengths(first: Seq<Seq<char>>, second: Seq<Seq<char>>)
    ensures
        jaro_winkler_counts_spec(first, second).first_len == first.len(),
        jaro_winkler_counts_spec(first, second).second_len == second.len(),
        jaro_winkler_counts_spec(first, second).prefix <= 4,
        forall|q: int|
            0 <= q < jaro_winkler_counts_spec(first, second).prefix ==> first[q] == second[q],
{
    let p = lemma_common_prefix_from(first, second, 4, 0);
    assert(is_common_prefix_length(first, second, 4, p));
    let chosen = choose|c: nat| is_common_prefix_length(first, second, 4, c);
    lemma_common_prefix_unique(first, second, 4, chosen, p);
}

/// A perfect comparison is only had between equal sequences: when every
/// grapheme of each side is matched and the matched graphemes agree place
/// by place, the two sequences are the same.
pub proof fn law_perfect_counts_only_for_equal(first: Seq<Seq<char>>, second: Seq<Seq<char>>)
    ensures
        ({
            let c = jaro_winkler_counts_spec(first, second);
            c.jaro.matches == c.first_len && c.jaro.matches == c.second_len && c.jaro.mismatched
                == 0 ==> first == second
        }),
        jaro_winkler_counts_spec(first, second).jaro.identical == (first == second),
{
    law_counts_hold_both_lengths(first, second);
    let c = jaro_winkler_counts_spec(first, second);
    if c.jaro.matches == c.first_len && c.jaro.matches == c.second_len && c.jaro.mismatched == 0 {
        let (f, s) = greedy_matching(first, second, first.len());
        lemma_greedy_counts(first, second, first.len());
        lemma_count_true_full(f);
        lemma_count_true_full(s);
        lemma_selected_all(first, f, first.len() as int);
        lemma_selected_all(second, s, second.len() as int);
        assert(first.take(first.len() as int) =~= first);
        assert(second.take(second.len() as int) =~= second);
        let x = selected(first, f, first.len() as int);
        let y = selected(second, s, second.len() as int);
        assert(x == first);
        assert(y == second);
        lemma_no_mismatches(x, y, min_len(x, y));
        assert(first =~= second);
    }
}

} // verus!
