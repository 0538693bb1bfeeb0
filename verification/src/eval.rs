//! Evaluation on a golden set: its format, the outcome of each query, and the
//! counts that the metrics are made of.
//!
//! The metrics themselves are floating-point rates of these counts, and left to the
//! caller.

use crate::config::RetrievalMode;
use crate::float::FloatBits;
use crate::order;
use crate::path;
use crate::search::SearchParams;
use crate::search::SearchResult;
use crate::text;
use vstd::hash_map::StringHashMap;
use vstd::prelude::*;

verus! {

/// Category of a row that names none.
pub const DEFAULT_CATEGORY: &'static str = "uncategorized";

/// Second recall cutoff. At least as many results are retrieved per query.
pub const RECALL_WIDE_K: usize = 10;

/// Number of results that the cumulative gain looks at.
pub const NDCG_K: usize = 10;

/// One row of a golden set: a query, the paths that answer it with the primary one
/// first, its category, and the expected lines.
#[derive(Debug, Clone)]
pub struct Case {
    pub query: String,
    pub expected: Vec<String>,
    pub category: String,
    pub expected_lines: Option<(usize, usize)>,
}

/// The content of a row.
pub struct CaseFacts {
    pub query: Seq<char>,
    pub expected: Seq<Seq<char>>,
    pub category: Seq<char>,
    pub expected_lines: Option<(usize, usize)>,
}

impl View for Case {
    type V = CaseFacts;

    open spec fn view(&self) -> CaseFacts {
        CaseFacts {
            query: self.query@,
            expected: text::texts(self.expected@),
            category: self.category@,
            expected_lines: self.expected_lines,
        }
    }
}

// ---------------------------------------------------------------------------
// Format
// ---------------------------------------------------------------------------

/// The line range `start-end` that a field gives, if it is one.
pub open spec fn line_range(field: Seq<char>) -> Option<(usize, usize)> {
    let s = text::trim(field);
    let i = text::find_char(s, '-') as int;
    if i >= s.len() {
        None
    } else {
        match (
            text::number(text::trim(s.take(i))),
            text::number(text::trim(s.skip(i + 1))),
        ) {
            (Some(lo), Some(hi)) => if lo <= hi {
                Some((lo, hi))
            } else {
                None
            },
            _ => None,
        }
    }
}

/// The predicate that keeps texts that are not empty.
pub open spec fn nonempty() -> spec_fn(Seq<char>) -> bool {
    |s: Seq<char>| s.len() > 0
}

/// The trimmed alternatives of a field that are not empty.
pub open spec fn alternatives(field: Seq<char>) -> Seq<Seq<char>> {
    text::split_on(field, '|').map_values(|s: Seq<char>| text::trim(s)).filter(nonempty())
}

/// The row that a line stands for: tab-separated query, alternatives, category and
/// lines, the last two optional. A line without an answer is no row.
pub open spec fn row_of(line: Seq<char>) -> Option<CaseFacts> {
    let fields = text::split_limit(line, '\t', 4);
    if fields.len() < 2 || alternatives(fields[1]).len() == 0 {
        None
    } else {
        Some(
            CaseFacts {
                query: text::trim(fields[0]),
                expected: alternatives(fields[1]),
                category: if fields.len() < 3 || text::trim(fields[2]).len() == 0 {
                    DEFAULT_CATEGORY@
                } else {
                    text::trim(fields[2])
                },
                expected_lines: if fields.len() < 4 {
                    None
                } else {
                    line_range(fields[3])
                },
            },
        )
    }
}

/// The rows of some lines; blank lines do not count.
pub open spec fn rows_of(lines: Seq<Seq<char>>) -> Seq<CaseFacts>
    decreases lines.len(),
{
    if lines.len() == 0 {
        seq![]
    } else {
        let rest = rows_of(lines.drop_last());
        if text::trim(lines.last()).len() == 0 {
            rest
        } else {
            match row_of(lines.last()) {
                Some(row) => rest.push(row),
                None => rest,
            }
        }
    }
}

/// The rows of a golden set: those of all lines but the first, which is the header.
pub open spec fn golden_set(content: Seq<char>) -> Seq<CaseFacts> {
    let lines = text::lines(content);
    if lines.len() == 0 {
        seq![]
    } else {
        rows_of(lines.drop_first())
    }
}

pub open spec fn case_views(list: Seq<Case>) -> Seq<CaseFacts> {
    list.map_values(|c: Case| c@)
}

/// Parses a line range.
pub fn parse_line_range(field: &str) -> (r: Option<(usize, usize)>)
    ensures
        r == line_range(field@),
{
    let s = text::trimmed(field);
    let cs = text::chars_of(s.as_str());
    assert(cs@.skip(0) =~= cs@);
    let i = text::next_char(&cs, 0, '-');
    if i >= cs.len() {
        return None;
    }
    let left = text::string_of(&cs, 0, i);
    let right = text::string_of(&cs, i + 1, cs.len());
    assert(left@ =~= s@.take(i as int));
    assert(right@ =~= s@.skip(i + 1));
    let low_text = text::trimmed(left.as_str());
    let high_text = text::trimmed(right.as_str());
    match (text::parse_number(low_text.as_str()), text::parse_number(high_text.as_str())) {
        (Some(lo), Some(hi)) => if lo <= hi {
            Some((lo, hi))
        } else {
            None
        },
        _ => None,
    }
}

fn parse_alternatives(field: &str) -> (r: Vec<String>)
    ensures
        text::texts(r@) == alternatives(field@),
{
    let parts = text::pieces(field, '|');
    let ghost all = text::split_on(field@, '|').map_values(|s: Seq<char>| text::trim(s));
    let mut out: Vec<String> = Vec::new();
    let mut i: usize = 0;
    proof {
        reveal(Seq::filter);
    }
    assert(text::texts(out@) =~= all.take(0).filter(nonempty()));
    assert(text::texts(parts@).len() == parts@.len());
    while i < parts.len()
        invariant
            text::texts(parts@) == text::split_on(field@, '|'),
            all == text::split_on(field@, '|').map_values(|s: Seq<char>| text::trim(s)),
            all.len() == parts@.len(),
            i <= parts.len(),
            text::texts(out@) == all.take(i as int).filter(nonempty()),
        decreases parts.len() - i,
    {
        let t = text::trimmed(parts[i].as_str());
        proof {
            reveal(Seq::filter);
            assert(text::texts(parts@)[i as int] == parts@[i as int]@);
            assert(all.take(i + 1).drop_last() =~= all.take(i as int));
            assert(all.take(i + 1).last() == t@);
            text::lemma_texts_push(out@, t);
        }
        if !t.as_str().is_empty() {
            out.push(t);
        }
        i += 1;
    }
    assert(all.take(all.len() as int) =~= all);
    out
}

/// Parses one line.
pub fn parse_row(line: &str) -> (r: Option<Case>)
    ensures
        match r {
            Some(c) => row_of(line@) == Some(c@),
            None => row_of(line@) is None,
        },
{
    let fields = text::pieces_limit(line, '\t', 4);
    let ghost all = text::texts(fields@);
    assert(all.len() == fields@.len());
    if fields.len() < 2 {
        return None;
    }
    assert(all[0] == fields@[0]@ && all[1] == fields@[1]@);
    let expected = parse_alternatives(fields[1].as_str());
    assert(text::texts(expected@).len() == expected@.len());
    if expected.len() == 0 {
        return None;
    }
    let mut category = DEFAULT_CATEGORY.to_string();
    if fields.len() >= 3 {
        assert(all[2] == fields@[2]@);
        let named = text::trimmed(fields[2].as_str());
        if !named.as_str().is_empty() {
            category = named;
        }
    }
    let expected_lines = if fields.len() >= 4 {
        assert(all[3] == fields@[3]@);
        parse_line_range(fields[3].as_str())
    } else {
        None
    };
    Some(Case { query: text::trimmed(fields[0].as_str()), expected, category, expected_lines })
}

/// Parses a golden set.
pub fn parse_cases(content: &str) -> (r: Vec<Case>)
    ensures
        case_views(r@) == golden_set(content@),
{
    let list = text::split_lines(content);
    let ghost all = text::texts(list@);
    let mut out: Vec<Case> = Vec::new();
    assert(all.len() == list@.len());
    if list.len() == 0 {
        assert(case_views(out@) =~= golden_set(content@));
        return out;
    }
    let ghost body = all.drop_first();
    let mut i: usize = 1;
    assert(case_views(out@) =~= rows_of(body.take(0)));
    while i < list.len()
        invariant
            all == text::texts(list@),
            all.len() == list@.len(),
            body == all.drop_first(),
            1 <= i <= list.len(),
            case_views(out@) == rows_of(body.take(i - 1)),
        decreases list.len() - i,
    {
        proof {
            assert(body.take(i as int).drop_last() =~= body.take(i - 1));
            assert(body.take(i as int).last() == list@[i as int]@);
        }
        let plain = text::trimmed(list[i].as_str());
        if !plain.as_str().is_empty() {
            if let Some(c) = parse_row(list[i].as_str()) {
                let ghost before = out@;
                out.push(c);
                assert(case_views(out@) =~= case_views(before).push(c@));
            }
        }
        i += 1;
    }
    assert(body.take(body.len() as int) =~= body);
    out
}

// ---------------------------------------------------------------------------
// Outcomes
// ---------------------------------------------------------------------------

/// Retrieval settings of an evaluation.
#[derive(Debug, Clone, Copy)]
pub struct EvalOpts {
    pub k: usize,
    pub retrieve_n: usize,
    pub rerank: bool,
    pub min_score: FloatBits,
    pub retrieval: RetrievalMode,
    pub rrf_k: usize,
}

/// One query's scored outcome.
#[derive(Debug, Clone, Copy, PartialEq, Eq)]
pub struct Outcome {
    /// Rank from zero of the first result on an expected path.
    pub rank: Option<usize>,
    /// Normalized discounted cumulative gain.
    pub ndcg: FloatBits,
    /// Whether a result covers the expected lines, if there are any.
    pub span_hit: Option<bool>,
}

/// A gain that a result earns at its rank.
#[derive(Debug, Clone, Copy, PartialEq, Eq, Structural)]
pub struct Credit {
    pub rank: usize,
    pub gain: usize,
}

/// Whether a path contains one of the expected texts.
pub open spec fn is_expected(file: Seq<char>, expected: Seq<Seq<char>>) -> bool {
    exists|i: int| 0 <= i < expected.len() && text::contains(file, #[trigger] expected[i])
}

/// Whether `i` is the first expected text that a path contains.
pub open spec fn first_expected(file: Seq<char>, expected: Seq<Seq<char>>, i: int) -> bool {
    &&& 0 <= i < expected.len()
    &&& text::contains(file, expected[i])
    &&& forall|j: int| 0 <= j < i ==> !text::contains(file, #[trigger] expected[j])
}

/// Whether a path contains one of the expected texts.
pub fn matches_expected(file: &str, expected: &Vec<String>) -> (r: bool)
    ensures
        r == is_expected(file@, text::texts(expected@)),
{
    best_match_index(file, expected).is_some()
}

/// The first expected text that a path contains; the primary one is the first.
pub fn best_match_index(file: &str, expected: &Vec<String>) -> (r: Option<usize>)
    ensures
        match r {
            Some(i) => first_expected(file@, text::texts(expected@), i as int),
            None => !is_expected(file@, text::texts(expected@)),
        },
        r is Some ==> is_expected(file@, text::texts(expected@)),
{
    let ghost all = text::texts(expected@);
    let mut i: usize = 0;
    while i < expected.len()
        invariant
            all == text::texts(expected@),
            i <= expected.len(),
            forall|j: int| 0 <= j < i ==> !text::contains(file@, #[trigger] all[j]),
        decreases expected.len() - i,
    {
        assert(all[i as int] == expected@[i as int]@);
        if text::has_part(file, expected[i].as_str()) {
            return Some(i);
        }
        i += 1;
    }
    None
}

/// Whether `i` is the rank of the first result on an expected path.
pub open spec fn first_hit(results: Seq<SearchResult>, expected: Seq<Seq<char>>, i: int) -> bool {
    &&& 0 <= i < results.len()
    &&& is_expected(results[i].file@, expected)
    &&& forall|j: int| 0 <= j < i ==> !is_expected((#[trigger] results[j]).file@, expected)
}

/// Rank of the first result on an expected path.
pub fn rank_of(results: &Vec<SearchResult>, expected: &Vec<String>) -> (r: Option<usize>)
    ensures
        match r {
            Some(i) => first_hit(results@, text::texts(expected@), i as int),
            None => forall|j: int|
                0 <= j < results@.len() ==> !is_expected(
                    (#[trigger] results@[j]).file@,
                    text::texts(expected@),
                ),
        },
{
    let mut i: usize = 0;
    while i < results.len()
        invariant
            i <= results.len(),
            forall|j: int|
                0 <= j < i ==> !is_expected(
                    (#[trigger] results@[j]).file@,
                    text::texts(expected@),
                ),
        decreases results.len() - i,
    {
        if matches_expected(results[i].file.as_str(), expected) {
            return Some(i);
        }
        i += 1;
    }
    None
}

/// Whether a result is on an expected path and meets the lines `lo..=hi`.
pub open spec fn covers_span(
    r: SearchResult,
    expected: Seq<Seq<char>>,
    lo: usize,
    hi: usize,
) -> bool {
    is_expected(r.file@, expected) && r.lines@[0] <= hi && lo <= r.lines@[1]
}

/// Whether one of the first `k` results covers the expected lines.
pub open spec fn span_covered(
    results: Seq<SearchResult>,
    expected: Seq<Seq<char>>,
    lo: usize,
    hi: usize,
    k: nat,
) -> bool {
    exists|i: int|
        0 <= i < results.len() && i < k && covers_span(#[trigger] results[i], expected, lo, hi)
}

pub fn span_hit(
    results: &Vec<SearchResult>,
    expected: &Vec<String>,
    range: (usize, usize),
    k: usize,
) -> (r: bool)
    ensures
        r == span_covered(results@, text::texts(expected@), range.0, range.1, k as nat),
{
    let (lo, hi) = range;
    let mut i: usize = 0;
    while i < results.len() && i < k
        invariant
            lo == range.0,
            hi == range.1,
            i <= results.len(),
            forall|j: int|
                0 <= j < i ==> !covers_span(
                    #[trigger] results@[j],
                    text::texts(expected@),
                    lo,
                    hi,
                ),
        decreases results.len() - i,
    {
        let r = &results[i];
        if matches_expected(r.file.as_str(), expected) && r.lines[0] <= hi && lo <= r.lines[1] {
            assert(covers_span(results@[i as int], text::texts(expected@), lo, hi));
            return true;
        }
        i += 1;
    }
    false
}

/// The gain of an expected path: more for the primary one.
pub open spec fn gain_of(i: int) -> usize {
    if i == 0 {
        2
    } else {
        1
    }
}

/// The expected path that a result satisfies, the primary one first.
pub open spec fn satisfied(file: Seq<char>, expected: Seq<Seq<char>>) -> Option<int> {
    if is_expected(file, expected) {
        Some(choose|i: int| first_expected(file, expected, i))
    } else {
        None
    }
}

/// The expected paths that the first `n` results satisfy, each once, in order.
pub open spec fn credited(results: Seq<SearchResult>, expected: Seq<Seq<char>>, n: int) -> Seq<int>
    decreases n,
{
    if n <= 0 {
        seq![]
    } else {
        let rest = credited(results, expected, n - 1);
        match satisfied(results[n - 1].file@, expected) {
            Some(i) => if rest.contains(i) {
                rest
            } else {
                rest.push(i)
            },
            None => rest,
        }
    }
}

/// The gains that the first `n` results earn: each expected path is credited once, to
/// the first result on it.
pub open spec fn credits_of(
    results: Seq<SearchResult>,
    expected: Seq<Seq<char>>,
    n: int,
) -> Seq<Credit>
    decreases n,
{
    if n <= 0 {
        seq![]
    } else {
        let rest = credits_of(results, expected, n - 1);
        match satisfied(results[n - 1].file@, expected) {
            Some(i) => if credited(results, expected, n - 1).contains(i) {
                rest
            } else {
                rest.push(Credit { rank: (n - 1) as usize, gain: gain_of(i) })
            },
            None => rest,
        }
    }
}

/// How many results the gain looks at.
pub open spec fn ndcg_depth(results: Seq<SearchResult>) -> int {
    if results.len() < NDCG_K {
        results.len() as int
    } else {
        NDCG_K as int
    }
}

proof fn lemma_first_expected(file: Seq<char>, expected: Seq<Seq<char>>, i: int)
    requires
        first_expected(file, expected, i),
    ensures
        satisfied(file, expected) == Some(i),
{
    assert(text::contains(file, expected[i]));
    let j = choose|j: int| first_expected(file, expected, j);
    assert(first_expected(file, expected, j));
    if i < j {
        assert(!text::contains(file, expected[i]));
    }
    if j < i {
        assert(!text::contains(file, expected[j]));
    }
}

/// The gains that results earn.
pub fn ndcg_credits(results: &Vec<SearchResult>, expected: &Vec<String>) -> (r: Vec<Credit>)
    ensures
        r@ == credits_of(results@, text::texts(expected@), ndcg_depth(results@)),
{
    let ghost all = text::texts(expected@);
    let depth: usize = if results.len() < NDCG_K {
        results.len()
    } else {
        NDCG_K
    };
    let mut seen: Vec<usize> = Vec::new();
    let mut out: Vec<Credit> = Vec::new();
    let mut n: usize = 0;
    while n < depth
        invariant
            all == text::texts(expected@),
            n <= depth <= results.len(),
            seen@.map_values(|i: usize| i as int) == credited(results@, all, n as int),
            out@ == credits_of(results@, all, n as int),
        decreases depth - n,
    {
        let ghost before = seen@;
        match best_match_index(results[n].file.as_str(), expected) {
            Some(i) => {
                proof {
                    lemma_first_expected(results@[n as int].file@, all, i as int);
                }
                if !has_index(&seen, i) {
                    proof {
                        if credited(results@, all, n as int).contains(i as int) {
                            let old_list = before.map_values(|i: usize| i as int);
                            let k = choose|k: int|
                                0 <= k < old_list.len() && old_list[k] == i as int;
                            assert(before[k] == i);
                        }
                    }
                    seen.push(i);
                    let gain: usize = if i == 0 {
                        2
                    } else {
                        1
                    };
                    out.push(Credit { rank: n, gain });
                    assert(seen@.map_values(|i: usize| i as int) =~= before.map_values(
                        |i: usize| i as int,
                    ).push(i as int));
                } else {
                    proof {
                        let k = choose|k: int| 0 <= k < before.len() && before[k] == i;
                        assert(before.map_values(|i: usize| i as int)[k] == i as int);
                    }
                }
            },
            None => {},
        }
        n += 1;
    }
    out
}

fn has_index(list: &Vec<usize>, x: usize) -> (r: bool)
    ensures
        r == list@.contains(x),
{
    let mut i: usize = 0;
    while i < list.len()
        invariant
            i <= list.len(),
            forall|j: int| 0 <= j < i ==> list@[j] != x,
        decreases list.len() - i,
    {
        if list[i] == x {
            return true;
        }
        i += 1;
    }
    false
}

/// The gains of a perfect ranking: the primary path first, then the alternatives.
pub fn ideal_gains(expected: usize) -> (r: Vec<usize>)
    ensures
        r@.len() == expected,
        forall|i: int| 0 <= i < r@.len() ==> #[trigger] r@[i] == gain_of(i),
{
    let mut out: Vec<usize> = Vec::new();
    let mut i: usize = 0;
    while i < expected
        invariant
            i <= expected,
            out.len() == i,
            forall|j: int| 0 <= j < i ==> #[trigger] out@[j] == gain_of(j),
        decreases expected - i,
    {
        let gain: usize = if i == 0 {
            2
        } else {
            1
        };
        out.push(gain);
        i += 1;
    }
    out
}

/// The number of results to ask for, so that both cutoffs can be read off.
pub open spec fn wide_k(k: usize) -> usize {
    if k < RECALL_WIDE_K {
        RECALL_WIDE_K
    } else {
        k
    }
}

/// Whether `p` is the search for a row: unfiltered, without a cap per file.
pub open spec fn searches_case(case: Case, opts: EvalOpts, p: SearchParams) -> bool {
    &&& p.query == case.query
    &&& p.top_k == wide_k(opts.k)
    &&& p.retrieve_n == if opts.retrieve_n < wide_k(opts.k) {
        wide_k(opts.k)
    } else {
        opts.retrieve_n
    }
    &&& p.rerank == opts.rerank
    &&& p.min_score == opts.min_score
    &&& p.langs is None && p.path_prefix is None && p.source is None
    &&& p.retrieval == opts.retrieval
    &&& p.rrf_k == opts.rrf_k
    &&& p.max_per_file == 0
}

/// The search for a row.
pub fn case_params(case: &Case, opts: &EvalOpts) -> (r: SearchParams)
    ensures
        searches_case(*case, *opts, r),
{
    let wide: usize = if opts.k < RECALL_WIDE_K {
        RECALL_WIDE_K
    } else {
        opts.k
    };
    let retrieve_n = if opts.retrieve_n < wide {
        wide
    } else {
        opts.retrieve_n
    };
    SearchParams {
        query: case.query.clone(),
        top_k: wide,
        retrieve_n,
        rerank: opts.rerank,
        min_score: opts.min_score,
        langs: None,
        path_prefix: None,
        source: None,
        retrieval: opts.retrieval,
        rrf_k: opts.rrf_k,
        max_per_file: 0,
    }
}

/// Whether `o` is the outcome of a row with these results, where `ndcg` forms the gain
/// from what was earned and what could be.
pub open spec fn scores_case<G: Fn(&Vec<Credit>, &Vec<usize>) -> FloatBits>(
    case: Case,
    results: Seq<SearchResult>,
    k: usize,
    ndcg: G,
    o: Outcome,
) -> bool {
    let expected = text::texts(case.expected@);
    &&& match o.rank {
        Some(i) => first_hit(results, expected, i as int),
        None => forall|j: int|
            0 <= j < results.len() ==> !is_expected((#[trigger] results[j]).file@, expected),
    }
    &&& gained(case, results, ndcg, o.ndcg)
    &&& o.span_hit == match case.expected_lines {
        Some(range) => Some(span_covered(results, expected, range.0, range.1, k as nat)),
        None => None,
    }
}

/// Whether `g` is the gain that `ndcg` gave for the results of a row.
pub open spec fn gained<G: Fn(&Vec<Credit>, &Vec<usize>) -> FloatBits>(
    case: Case,
    results: Seq<SearchResult>,
    ndcg: G,
    g: FloatBits,
) -> bool {
    exists|earned: &Vec<Credit>, ideal: &Vec<usize>| #[trigger]
        ndcg.ensures((earned, ideal), g) && weighs(case, results, earned@, ideal@)
}

/// Whether these are the gains that the results of a row earn, and the ones that a
/// perfect ranking would.
pub open spec fn weighs(
    case: Case,
    results: Seq<SearchResult>,
    earned: Seq<Credit>,
    ideal: Seq<usize>,
) -> bool {
    &&& earned == credits_of(results, text::texts(case.expected@), ndcg_depth(results))
    &&& ideal.len() == case.expected@.len()
    &&& forall|i: int| 0 <= i < ideal.len() ==> #[trigger] ideal[i] == gain_of(i)
}

/// Scores the results of a row.
pub fn score_case<G: Fn(&Vec<Credit>, &Vec<usize>) -> FloatBits>(
    case: &Case,
    results: &Vec<SearchResult>,
    k: usize,
    ndcg: &G,
) -> (r: Outcome)
    requires
        forall|earned: &Vec<Credit>, ideal: &Vec<usize>|
            weighs(*case, results@, earned@, ideal@) ==> #[trigger] ndcg.requires((earned, ideal)),
    ensures
        scores_case(*case, results@, k, *ndcg, r),
{
    let rank = rank_of(results, &case.expected);
    let earned = ndcg_credits(results, &case.expected);
    let ideal = ideal_gains(case.expected.len());
    let gain = ndcg(&earned, &ideal);
    assert(ndcg.ensures((&earned, &ideal), gain));
    assert(gained(*case, results@, *ndcg, gain));
    let hit = match case.expected_lines {
        Some(range) => Some(span_hit(results, &case.expected, range, k)),
        None => None,
    };
    Outcome { rank, ndcg: gain, span_hit: hit }
}

/// Each expected path earns its gain at most once.
pub proof fn paths_are_credited_once(results: Seq<SearchResult>, expected: Seq<Seq<char>>, n: int)
    requires
        0 <= n <= results.len(),
    ensures
        credited(results, expected, n).no_duplicates(),
        credits_of(results, expected, n).len() == credited(results, expected, n).len(),
        forall|i: int|
            0 <= i < credited(results, expected, n).len() ==> 0 <= #[trigger] credited(
                results,
                expected,
                n,
            )[i] < expected.len(),
    decreases n,
{
    if n > 0 {
        paths_are_credited_once(results, expected, n - 1);
        let file = results[n - 1].file@;
        if is_expected(file, expected) {
            lemma_has_first(file, expected);
        }
    }
}

proof fn lemma_has_first(file: Seq<char>, expected: Seq<Seq<char>>)
    requires
        is_expected(file, expected),
    ensures
        first_expected(file, expected, choose|i: int| first_expected(file, expected, i)),
{
    let k = choose|k: int| 0 <= k < expected.len() && text::contains(file, #[trigger] expected[k]);
    lemma_has_first_below(file, expected, k);
}

proof fn lemma_has_first_below(file: Seq<char>, expected: Seq<Seq<char>>, k: int)
    requires
        0 <= k < expected.len(),
        text::contains(file, expected[k]),
    ensures
        exists|i: int| first_expected(file, expected, i),
    decreases k,
{
    if forall|j: int| 0 <= j < k ==> !text::contains(file, #[trigger] expected[j]) {
        assert(first_expected(file, expected, k));
    } else {
        let j = choose|j: int| 0 <= j < k && text::contains(file, #[trigger] expected[j]);
        lemma_has_first_below(file, expected, j);
    }
}

// ---------------------------------------------------------------------------
// Counts
// ---------------------------------------------------------------------------

/// Running counts over some queries. The ranks and gains are kept in order, for the
/// means that are formed from them.
#[derive(Debug, Clone)]
pub struct Tally {
    pub n: usize,
    pub hits_k: usize,
    pub hits_10: usize,
    pub ranks: Vec<usize>,
    pub ndcgs: Vec<FloatBits>,
    /// Queries with expected lines, and those of them whose lines were found.
    pub span_n: usize,
    pub span_hits: usize,
}

/// Number of outcomes with a rank below `cutoff`.
pub open spec fn hits_below(outcomes: Seq<Outcome>, cutoff: nat) -> nat
    decreases outcomes.len(),
{
    if outcomes.len() == 0 {
        0
    } else {
        hits_below(outcomes.drop_last(), cutoff) + match outcomes.last().rank {
            Some(pos) => if pos < cutoff {
                1nat
            } else {
                0nat
            },
            None => 0nat,
        }
    }
}

/// The ranks of the outcomes that have one.
pub open spec fn ranks_of(outcomes: Seq<Outcome>) -> Seq<usize>
    decreases outcomes.len(),
{
    if outcomes.len() == 0 {
        seq![]
    } else {
        match outcomes.last().rank {
            Some(pos) => ranks_of(outcomes.drop_last()).push(pos),
            None => ranks_of(outcomes.drop_last()),
        }
    }
}

/// Number of outcomes with expected lines.
pub open spec fn span_queries(outcomes: Seq<Outcome>) -> nat
    decreases outcomes.len(),
{
    if outcomes.len() == 0 {
        0
    } else {
        span_queries(outcomes.drop_last()) + if outcomes.last().span_hit is Some {
            1nat
        } else {
            0nat
        }
    }
}

/// Number of outcomes whose expected lines were found.
pub open spec fn span_successes(outcomes: Seq<Outcome>) -> nat
    decreases outcomes.len(),
{
    if outcomes.len() == 0 {
        0
    } else {
        span_successes(outcomes.drop_last()) + if outcomes.last().span_hit == Some(true) {
            1nat
        } else {
            0nat
        }
    }
}

/// Whether a tally counts exactly these outcomes.
pub open spec fn counts(t: Tally, outcomes: Seq<Outcome>, k: usize) -> bool {
    &&& t.n == outcomes.len()
    &&& t.hits_k == hits_below(outcomes, k as nat)
    &&& t.hits_10 == hits_below(outcomes, RECALL_WIDE_K as nat)
    &&& t.ranks@ == ranks_of(outcomes)
    &&& t.ndcgs@ == outcomes.map_values(|o: Outcome| o.ndcg)
    &&& t.span_n == span_queries(outcomes)
    &&& t.span_hits == span_successes(outcomes)
}

impl Tally {
    /// No count is larger than the number of queries.
    pub open spec fn bounded(self) -> bool {
        self.hits_k <= self.n && self.hits_10 <= self.n && self.span_n <= self.n && self.span_hits
            <= self.span_n
    }

    /// Counts one more outcome.
    pub fn record(&mut self, outcome: &Outcome, k: usize)
        requires
            old(self).bounded(),
            old(self).n < usize::MAX,
        ensures
            final(self).bounded(),
            final(self).n == old(self).n + 1,
            final(self).hits_k == old(self).hits_k + if outcome.rank is Some && outcome.rank->0 < k {
                1int
            } else {
                0int
            },
            final(self).hits_10 == old(self).hits_10 + if outcome.rank is Some && outcome.rank->0
                < RECALL_WIDE_K {
                1int
            } else {
                0int
            },
            final(self).ranks@ == match outcome.rank {
                Some(pos) => old(self).ranks@.push(pos),
                None => old(self).ranks@,
            },
            final(self).ndcgs@ == old(self).ndcgs@.push(outcome.ndcg),
            final(self).span_n == old(self).span_n + if outcome.span_hit is Some {
                1int
            } else {
                0int
            },
            final(self).span_hits == old(self).span_hits + if outcome.span_hit == Some(true) {
                1int
            } else {
                0int
            },
    {
        self.n = self.n + 1;
        if let Some(pos) = outcome.rank {
            if pos < k {
                self.hits_k = self.hits_k + 1;
            }
            if pos < RECALL_WIDE_K {
                self.hits_10 = self.hits_10 + 1;
            }
            self.ranks.push(pos);
        }
        self.ndcgs.push(outcome.ndcg);
        if let Some(hit) = outcome.span_hit {
            self.span_n = self.span_n + 1;
            if hit {
                self.span_hits = self.span_hits + 1;
            }
        }
    }

    /// Successes and number of the queries with expected lines, if there are any.
    pub fn span_hit_rate(&self) -> (r: Option<(usize, usize)>)
        ensures
            r == if self.span_n > 0 {
                Some((self.span_hits, self.span_n))
            } else {
                None
            },
    {
        if self.span_n > 0 {
            Some((self.span_hits, self.span_n))
        } else {
            None
        }
    }
}

impl Default for Tally {
    fn default() -> (r: Self)
        ensures
            r.n == 0,
            r.hits_k == 0,
            r.hits_10 == 0,
            r.ranks@ == Seq::<usize>::empty(),
            r.ndcgs@ == Seq::<FloatBits>::empty(),
            r.span_n == 0,
            r.span_hits == 0,
    {
        Tally {
            n: 0,
            hits_k: 0,
            hits_10: 0,
            ranks: Vec::new(),
            ndcgs: Vec::new(),
            span_n: 0,
            span_hits: 0,
        }
    }
}

/// The counts of some outcomes are bounded by their number.
pub proof fn counts_are_bounded(t: Tally, outcomes: Seq<Outcome>, k: usize)
    requires
        counts(t, outcomes, k),
    ensures
        t.bounded(),
        t.ranks@.len() <= t.n,
{
    lemma_counts_bounded(outcomes, k as nat);
    lemma_counts_bounded(outcomes, RECALL_WIDE_K as nat);
}

proof fn lemma_counts_bounded(outcomes: Seq<Outcome>, cutoff: nat)
    ensures
        hits_below(outcomes, cutoff) <= outcomes.len(),
        ranks_of(outcomes).len() <= outcomes.len(),
        span_queries(outcomes) <= outcomes.len(),
        span_successes(outcomes) <= span_queries(outcomes),
    decreases outcomes.len(),
{
    if outcomes.len() > 0 {
        lemma_counts_bounded(outcomes.drop_last(), cutoff);
    }
}

/// A wider cutoff never finds less.
pub proof fn recall_grows_with_the_cutoff(outcomes: Seq<Outcome>, small: nat, large: nat)
    requires
        small <= large,
    ensures
        hits_below(outcomes, small) <= hits_below(outcomes, large),
    decreases outcomes.len(),
{
    if outcomes.len() > 0 {
        recall_grows_with_the_cutoff(outcomes.drop_last(), small, large);
    }
}

fn record_next(t: &mut Tally, o: &Outcome, k: usize, Ghost(done): Ghost<Seq<Outcome>>)
    requires
        counts(*old(t), done, k),
        done.len() < usize::MAX,
    ensures
        counts(*final(t), done.push(*o), k),
{
    let ghost next = done.push(*o);
    proof {
        counts_are_bounded(*t, done, k);
        assert(next.drop_last() =~= done);
        assert(next.last() == *o);
        assert(next.map_values(|o: Outcome| o.ndcg) =~= done.map_values(|o: Outcome| o.ndcg).push(
            o.ndcg,
        ));
    }
    t.record(o, k);
}

// ---------------------------------------------------------------------------
// Report
// ---------------------------------------------------------------------------

/// Counts of one category.
#[derive(Debug, Clone)]
pub struct StratumReport {
    pub category: String,
    pub tally: Tally,
}

/// Counts over a whole golden set, and by category.
#[derive(Debug, Clone)]
pub struct EvalReport {
    pub k: usize,
    pub overall: Tally,
    /// One for each category, sorted by its name.
    pub strata: Vec<StratumReport>,
}

/// The outcomes of the rows of one category.
pub open spec fn outcomes_in(
    cases: Seq<Case>,
    outcomes: Seq<Outcome>,
    category: Seq<char>,
) -> Seq<Outcome>
    decreases cases.len(),
{
    if cases.len() == 0 {
        seq![]
    } else {
        let rest = outcomes_in(cases.drop_last(), outcomes.drop_last(), category);
        if cases.last().category@ == category {
            rest.push(outcomes.last())
        } else {
            rest
        }
    }
}

/// Whether a stratum counts the outcomes of its category.
pub open spec fn counts_category(
    cases: Seq<Case>,
    outcomes: Seq<Outcome>,
    k: usize,
    s: StratumReport,
) -> bool {
    counts(s.tally, outcomes_in(cases, outcomes, s.category@), k) && s.tally.n > 0
}

/// Whether `strata` holds one stratum for each category, sorted by name.
pub open spec fn is_breakdown(
    cases: Seq<Case>,
    outcomes: Seq<Outcome>,
    k: usize,
    strata: Seq<StratumReport>,
) -> bool {
    &&& forall|i: int|
        0 <= i < strata.len() ==> counts_category(cases, outcomes, k, #[trigger] strata[i])
    &&& forall|i: int, j: int|
        0 <= i < j < strata.len() ==> order::lex_less(
            path::text_key((#[trigger] strata[i]).category@),
            path::text_key((#[trigger] strata[j]).category@),
        )
    &&& forall|c: int|
        0 <= c < cases.len() ==> has_stratum(strata, (#[trigger] cases[c]).category@)
}

/// Whether there is a stratum for a category.
pub open spec fn has_stratum(strata: Seq<StratumReport>, category: Seq<char>) -> bool {
    exists|i: int| 0 <= i < strata.len() && (#[trigger] strata[i]).category@ == category
}

/// Whether a report sums up the outcomes of all rows.
pub open spec fn reports(
    cases: Seq<Case>,
    outcomes: Seq<Outcome>,
    k: usize,
    r: EvalReport,
) -> bool {
    &&& r.k == k
    &&& counts(r.overall, outcomes, k)
    &&& is_breakdown(cases, outcomes, k, r.strata@)
}

/// Whether `groups` and `slots` cover the categories of all rows.
spec fn strata_cover(
    cases: Seq<Case>,
    outcomes: Seq<Outcome>,
    k: usize,
    groups: Seq<StratumReport>,
    slots: Map<Seq<char>, usize>,
) -> bool {
    &&& forall|g: int|
        0 <= g < groups.len() ==> counts_category(cases, outcomes, k, #[trigger] groups[g])
    &&& forall|g: int|
        0 <= g < groups.len() ==> slots.contains_key((#[trigger] groups[g]).category@)
            && slots[groups[g].category@] == g
    &&& forall|s: Seq<char>| #[trigger]
        slots.contains_key(s) ==> slots[s] < groups.len() && groups[slots[s] as int].category@ == s
    &&& forall|c: int|
        0 <= c < cases.len() ==> slots.contains_key((#[trigger] cases[c]).category@)
}

proof fn lemma_no_category(cases: Seq<Case>, outcomes: Seq<Outcome>, category: Seq<char>)
    requires
        forall|c: int| 0 <= c < cases.len() ==> (#[trigger] cases[c]).category@ != category,
    ensures
        outcomes_in(cases, outcomes, category) == Seq::<Outcome>::empty(),
    decreases cases.len(),
{
    if cases.len() > 0 {
        assert(cases[cases.len() - 1].category@ != category);
        assert forall|c: int| 0 <= c < cases.drop_last().len() implies (
        #[trigger] cases.drop_last()[c]).category@ != category by {
            assert(cases[c].category@ != category);
        }
        lemma_no_category(cases.drop_last(), outcomes.drop_last(), category);
    }
}

proof fn lemma_category_bound(cases: Seq<Case>, outcomes: Seq<Outcome>, category: Seq<char>)
    ensures
        outcomes_in(cases, outcomes, category).len() <= cases.len(),
    decreases cases.len(),
{
    if cases.len() > 0 {
        lemma_category_bound(cases.drop_last(), outcomes.drop_last(), category);
    }
}

/// Counts by category, in order of first occurrence.
fn group_outcomes(cases: &Vec<Case>, outcomes: &Vec<Outcome>, k: usize) -> (r: Vec<StratumReport>)
    requires
        cases.len() == outcomes.len(),
    ensures
        exists|slots: Map<Seq<char>, usize>| #[trigger]
            strata_cover(cases@, outcomes@, k, r@, slots),
{
    let mut groups: Vec<StratumReport> = Vec::new();
    let mut slots: StringHashMap<usize> = StringHashMap::new();
    let mut i: usize = 0;
    while i < cases.len()
        invariant
            cases.len() == outcomes.len(),
            i <= cases.len(),
            strata_cover(
                cases@.take(i as int),
                outcomes@.take(i as int),
                k,
                groups@,
                slots@,
            ),
        decreases cases.len() - i,
    {
        let ghost done = cases@.take(i as int);
        let ghost past = outcomes@.take(i as int);
        let ghost next = cases@.take(i + 1);
        let ghost seen = outcomes@.take(i + 1);
        let ghost prior = groups@;
        let ghost old_slots = slots@;
        let category = &cases[i].category;
        proof {
            assert(next.drop_last() =~= done);
            assert(seen.drop_last() =~= past);
            assert(next.last() == cases@[i as int]);
            assert(seen.last() == outcomes@[i as int]);
            lemma_category_bound(done, past, category@);
        }
        let found: Option<usize> = match slots.get(category.as_str()) {
            Some(g) => Some(*g),
            None => None,
        };
        let at: usize = match found {
            Some(g) => g,
            None => {
                let fresh = StratumReport { category: category.clone(), tally: Tally::default() };
                proof {
                    assert forall|c: int| 0 <= c < done.len() implies (
                    #[trigger] done[c]).category@ != category@ by {
                        if done[c].category@ == category@ {
                            assert(old_slots.contains_key(done[c].category@));
                        }
                    }
                    lemma_no_category(done, past, category@);
                    assert(fresh.tally.ndcgs@ =~= Seq::<Outcome>::empty().map_values(
                        |o: Outcome| o.ndcg,
                    ));
                    assert(counts(fresh.tally, outcomes_in(done, past, category@), k));
                }
                slots.insert(category.clone(), groups.len());
                groups.push(fresh);
                groups.len() - 1
            },
        };
        assert(groups@[at as int].category@ == category@);
        assert(counts(groups@[at as int].tally, outcomes_in(done, past, category@), k));
        let group = &mut groups[at];
        record_next(&mut group.tally, &outcomes[i], k, Ghost(outcomes_in(done, past, category@)));
        proof {
            assert forall|g: int| 0 <= g < groups@.len() implies counts_category(
                next,
                seen,
                k,
                #[trigger] groups@[g],
            ) by {
                if g != at {
                    assert(groups@[g] == prior[g]);
                    assert(old_slots[prior[g].category@] == g);
                    assert(prior[g].category@ != category@);
                    assert(counts_category(done, past, k, prior[g]));
                }
            }
            assert forall|g: int| 0 <= g < groups@.len() implies slots@.contains_key(
                (#[trigger] groups@[g]).category@,
            ) && slots@[groups@[g].category@] == g by {
                if g != at {
                    assert(groups@[g] == prior[g]);
                    assert(old_slots[prior[g].category@] == g);
                }
            }
            assert forall|x: Seq<char>| #[trigger] slots@.contains_key(x) implies slots@[x]
                < groups@.len() && groups@[slots@[x] as int].category@ == x by {
                if x != category@ {
                    assert(old_slots.contains_key(x));
                }
            }
            assert forall|c: int| 0 <= c < next.len() implies slots@.contains_key(
                (#[trigger] next[c]).category@,
            ) by {
                if c < i {
                    assert(next[c] == done[c]);
                }
            }
        }
        i += 1;
    }
    assert(cases@.take(cases@.len() as int) =~= cases@);
    assert(outcomes@.take(outcomes@.len() as int) =~= outcomes@);
    assert(strata_cover(cases@, outcomes@, k, groups@, slots@));
    groups
}

fn copy_tally(t: &Tally) -> (r: Tally)
    ensures
        r.n == t.n && r.hits_k == t.hits_k && r.hits_10 == t.hits_10,
        r.ranks@ == t.ranks@,
        r.ndcgs@ == t.ndcgs@,
        r.span_n == t.span_n && r.span_hits == t.span_hits,
{
    let mut ranks: Vec<usize> = Vec::new();
    ranks.extend_from_slice(t.ranks.as_slice());
    assert(ranks@ =~= t.ranks@);
    let mut ndcgs: Vec<FloatBits> = Vec::new();
    ndcgs.extend_from_slice(t.ndcgs.as_slice());
    assert(ndcgs@ =~= t.ndcgs@);
    Tally {
        n: t.n,
        hits_k: t.hits_k,
        hits_10: t.hits_10,
        ranks,
        ndcgs,
        span_n: t.span_n,
        span_hits: t.span_hits,
    }
}

/// Sums up the outcomes of all rows, overall and by category.
pub fn summarize(cases: &Vec<Case>, outcomes: &Vec<Outcome>, k: usize) -> (r: EvalReport)
    requires
        cases.len() == outcomes.len(),
    ensures
        reports(cases@, outcomes@, k, r),
{
    let mut overall = Tally::default();
    let mut i: usize = 0;
    assert(counts(overall, outcomes@.take(0), k)) by {
        assert(overall.ndcgs@ =~= outcomes@.take(0).map_values(|o: Outcome| o.ndcg));
    }
    while i < outcomes.len()
        invariant
            i <= outcomes.len(),
            counts(overall, outcomes@.take(i as int), k),
        decreases outcomes.len() - i,
    {
        assert(outcomes@.take(i as int).push(outcomes@[i as int]) =~= outcomes@.take(i + 1));
        record_next(&mut overall, &outcomes[i], k, Ghost(outcomes@.take(i as int)));
        i += 1;
    }
    assert(outcomes@.take(outcomes@.len() as int) =~= outcomes@);
    let groups = group_outcomes(cases, outcomes, k);
    let ghost slots = choose|slots: Map<Seq<char>, usize>| #[trigger]
        strata_cover(cases@, outcomes@, k, groups@, slots);
    let mut keys: Vec<Vec<u64>> = Vec::new();
    let mut g: usize = 0;
    while g < groups.len()
        invariant
            g <= groups.len(),
            keys.len() == g,
            forall|j: int|
                0 <= j < g ==> (#[trigger] keys@[j])@ == path::text_key(groups@[j].category@),
        decreases groups.len() - g,
    {
        let mut key: Vec<u64> = Vec::new();
        path::push_text_key(&mut key, groups[g].category.as_str());
        assert(key@ =~= path::text_key(groups@[g as int].category@));
        keys.push(key);
        g += 1;
    }
    let p = order::sort_order(&keys);
    let ghost views = order::key_views(keys@);
    let mut strata: Vec<StratumReport> = Vec::new();
    let mut j: usize = 0;
    while j < p.len()
        invariant
            strata_cover(cases@, outcomes@, k, groups@, slots),
            keys.len() == groups.len(),
            order::sorts(order::key_views(keys@), p@),
            j <= p.len(),
            strata.len() == j,
            forall|m: int|
                0 <= m < j ==> counts_category(cases@, outcomes@, k, #[trigger] strata@[m])
                    && strata@[m].category@ == groups@[p@[m] as int].category@,
        decreases p.len() - j,
    {
        let from = &groups[p[j]];
        assert(counts_category(cases@, outcomes@, k, *from));
        let tally = copy_tally(&from.tally);
        strata.push(StratumReport { category: from.category.clone(), tally });
        j += 1;
    }
    proof {
        assert forall|a: int, b: int| 0 <= a < b < strata@.len() implies order::lex_less(
            path::text_key((#[trigger] strata@[a]).category@),
            path::text_key((#[trigger] strata@[b]).category@),
        ) by {
            assert(order::before(views, p@[a] as int, p@[b] as int));
            let x = groups@[p@[a] as int].category@;
            let y = groups@[p@[b] as int].category@;
            assert(views[p@[a] as int] == path::text_key(x));
            assert(views[p@[b] as int] == path::text_key(y));
            if path::text_key(x) == path::text_key(y) {
                path::lemma_text_key_injective(x, y);
                assert(slots[x] == p@[a] && slots[y] == p@[b]);
            }
        }
        assert forall|c: int| 0 <= c < cases@.len() implies has_stratum(
            strata@,
            (#[trigger] cases@[c]).category@,
        ) by {
            let name = cases@[c].category@;
            let at = slots[name] as int;
            order::lemma_sorts_all(views, p@, at);
            let m = choose|m: int| 0 <= m < p@.len() && #[trigger] p@[m] == at;
            assert(strata@[m].category@ == name);
        }
    }
    EvalReport { k, overall, strata }
}

/// Why an evaluation failed.
#[derive(Debug)]
pub enum EvalError {
    NoQueries,
    Search(String),
    Observe(String),
}

/// Whether `search` gave `out` for the search for a row.
pub open spec fn searched<S: Fn(&SearchParams) -> Result<Vec<SearchResult>, String>>(
    case: Case,
    opts: EvalOpts,
    search: S,
    out: Result<Vec<SearchResult>, String>,
) -> bool {
    exists|p: &SearchParams| searches_case(case, opts, *p) && #[trigger] search.ensures((p,), out)
}

/// Whether the rows were searched and scored one after the other, with these results
/// and outcomes.
pub open spec fn evaluated<
    S: Fn(&SearchParams) -> Result<Vec<SearchResult>, String>,
    G: Fn(&Vec<Credit>, &Vec<usize>) -> FloatBits,
>(
    cases: Seq<Case>,
    opts: EvalOpts,
    search: S,
    ndcg: G,
    results: Seq<Vec<SearchResult>>,
    outcomes: Seq<Outcome>,
) -> bool {
    &&& results.len() == outcomes.len()
    &&& results.len() <= cases.len()
    &&& forall|i: int|
        0 <= i < results.len() ==> searched(cases[i], opts, search, Ok(#[trigger] results[i]))
            && scores_case(cases[i], results[i]@, opts.k, ndcg, outcomes[i])
}

/// Whether `observe` saw the first `n` rows with their results and outcomes, and let each
/// pass.
pub open spec fn observed<O: Fn(&Case, &Vec<SearchResult>, &Outcome) -> Result<(), String>>(
    cases: Seq<Case>,
    results: Seq<Vec<SearchResult>>,
    outcomes: Seq<Outcome>,
    observe: O,
    n: int,
) -> bool {
    forall|i: int|
        0 <= i < n ==> observe.ensures(
            (&cases[i], &#[trigger] results[i], &outcomes[i]),
            Ok::<(), String>(()),
        )
}

/// Whether an evaluation can call what it has to: a row is searched once all rows before
/// it were searched, scored and observed without a failure, and observed with what came
/// of that.
pub open spec fn can_evaluate<
    S: Fn(&SearchParams) -> Result<Vec<SearchResult>, String>,
    G: Fn(&Vec<Credit>, &Vec<usize>) -> FloatBits,
    O: Fn(&Case, &Vec<SearchResult>, &Outcome) -> Result<(), String>,
>(cases: Seq<Case>, opts: EvalOpts, search: S, ndcg: G, observe: O) -> bool {
    &&& forall|results: Seq<Vec<SearchResult>>, outcomes: Seq<Outcome>, p: &SearchParams|
        #[trigger]
        evaluated(cases, opts, search, ndcg, results, outcomes) && observed(
            cases,
            results,
            outcomes,
            observe,
            results.len() as int,
        ) && results.len() < cases.len() && searches_case(cases[results.len() as int], opts, *p)
            ==> #[trigger] search.requires((p,))
    &&& forall|n: int, list: Vec<SearchResult>, earned: &Vec<Credit>, ideal: &Vec<usize>|
        0 <= n < cases.len() && #[trigger] searched(cases[n], opts, search, Ok(list)) && weighs(
            cases[n],
            list@,
            earned@,
            ideal@,
        ) ==> #[trigger] ndcg.requires((earned, ideal))
    &&& forall|results: Seq<Vec<SearchResult>>, outcomes: Seq<Outcome>| #[trigger]
        evaluated(cases, opts, search, ndcg, results, outcomes) && results.len() > 0 && observed(
            cases,
            results,
            outcomes,
            observe,
            results.len() - 1,
        ) ==> observe.requires((&cases[results.len() - 1], &results.last(), &outcomes.last()))
}

/// Evaluates every row of a golden set in order, and sums up the outcomes. `search`
/// answers a query, `ndcg` forms the gain, and `observe` sees each row with its results
/// and outcome before the next. The first failure ends the evaluation.
pub fn run<
    S: Fn(&SearchParams) -> Result<Vec<SearchResult>, String>,
    G: Fn(&Vec<Credit>, &Vec<usize>) -> FloatBits,
    O: Fn(&Case, &Vec<SearchResult>, &Outcome) -> Result<(), String>,
>(cases: &Vec<Case>, opts: &EvalOpts, search: S, ndcg: G, observe: O) -> (r: Result<
    EvalReport,
    EvalError,
>)
    requires
        can_evaluate(cases@, *opts, search, ndcg, observe),
    ensures
        cases@.len() == 0 <==> r == Err::<EvalReport, EvalError>(EvalError::NoQueries),
        cases@.len() > 0 ==> exists|results: Seq<Vec<SearchResult>>, outcomes: Seq<Outcome>|
            #[trigger]
            evaluated(cases@, *opts, search, ndcg, results, outcomes) && (match r {
                Ok(report) => results.len() == cases@.len() && observed(
                    cases@,
                    results,
                    outcomes,
                    observe,
                    results.len() as int,
                ) && reports(cases@, outcomes, opts.k, report),
                Err(EvalError::Search(e)) => results.len() < cases@.len() && observed(
                    cases@,
                    results,
                    outcomes,
                    observe,
                    results.len() as int,
                ) && searched(cases@[results.len() as int], *opts, search, Err(e)),
                Err(EvalError::Observe(e)) => results.len() > 0 && observed(
                    cases@,
                    results,
                    outcomes,
                    observe,
                    results.len() - 1,
                ) && observe.ensures(
                    (&cases@[results.len() - 1], &results.last(), &outcomes.last()),
                    Err(e),
                ),
                Err(EvalError::NoQueries) => false,
            }),
{
    if cases.len() == 0 {
        return Err(EvalError::NoQueries);
    }
    let ghost mut results: Seq<Vec<SearchResult>> = seq![];
    let mut outcomes: Vec<Outcome> = Vec::new();
    let mut i: usize = 0;
    while i < cases.len()
        invariant
            can_evaluate(cases@, *opts, search, ndcg, observe),
            cases.len() > 0,
            i <= cases.len(),
            results.len() == i,
            evaluated(cases@, *opts, search, ndcg, results, outcomes@),
            observed(cases@, results, outcomes@, observe, i as int),
        decreases cases.len() - i,
    {
        let params = case_params(&cases[i], opts);
        let answer = search(&params);
        assert(searched(cases@[i as int], *opts, search, answer)) by {
            assert(search.ensures((&params,), answer));
        }
        let list = match answer {
            Ok(list) => list,
            Err(e) => {
                return Err(EvalError::Search(e));
            },
        };
        let outcome = score_case(&cases[i], &list, opts.k, &ndcg);
        let ghost next = results.push(list);
        let ghost sums = outcomes@.push(outcome);
        proof {
            assert(evaluated(cases@, *opts, search, ndcg, next, sums)) by {
                assert forall|n: int| 0 <= n < next.len() implies searched(
                    cases@[n],
                    *opts,
                    search,
                    Ok(#[trigger] next[n]),
                ) && scores_case(cases@[n], next[n]@, opts.k, ndcg, sums[n]) by {
                    if n < i {
                        assert(next[n] == results[n]);
                        assert(sums[n] == outcomes@[n]);
                    }
                }
            }
            assert(observed(cases@, next, sums, observe, i as int)) by {
                assert forall|n: int| 0 <= n < i implies observe.ensures(
                    (&cases@[n], &#[trigger] next[n], &sums[n]),
                    Ok::<(), String>(()),
                ) by {
                    assert(next[n] == results[n]);
                    assert(sums[n] == outcomes@[n]);
                }
            }
        }
        let seen = observe(&cases[i], &list, &outcome);
        let ghost verdict = seen;
        proof {
            results = next;
        }
        outcomes.push(outcome);
        match seen {
            Ok(unit) => {
                assert(unit == ());
            },
            Err(e) => {
                assert(observe.ensures((&cases@[i as int], &list, &outcome), Err(e)));
                return Err(EvalError::Observe(e));
            },
        }
        assert(verdict == Ok::<(), String>(()));
        assert(observe.ensures((&cases@[i as int], &results[i as int], &outcomes@[i as int]), verdict));
        i += 1;
    }
    let report = summarize(cases, &outcomes, opts.k);
    Ok(report)
}

// ---------------------------------------------------------------------------
// Every row in one stratum
// ---------------------------------------------------------------------------

/// Number of rows that strata count together.
pub open spec fn counted_rows(strata: Seq<StratumReport>) -> nat
    decreases strata.len(),
{
    if strata.len() == 0 {
        0
    } else {
        counted_rows(strata.drop_last()) + strata.last().tally.n as nat
    }
}

/// Number of rows in the categories that strata name.
spec fn named_rows(
    strata: Seq<StratumReport>,
    cases: Seq<Case>,
    outcomes: Seq<Outcome>,
) -> nat
    decreases strata.len(),
{
    if strata.len() == 0 {
        0
    } else {
        named_rows(strata.drop_last(), cases, outcomes) + outcomes_in(
            cases,
            outcomes,
            strata.last().category@,
        ).len()
    }
}

/// Number of strata that name a category.
spec fn naming_strata(strata: Seq<StratumReport>, category: Seq<char>) -> nat
    decreases strata.len(),
{
    if strata.len() == 0 {
        0
    } else {
        naming_strata(strata.drop_last(), category) + if strata.last().category@ == category {
            1nat
        } else {
            0nat
        }
    }
}

proof fn lemma_named_rows_next(
    strata: Seq<StratumReport>,
    cases: Seq<Case>,
    outcomes: Seq<Outcome>,
)
    requires
        cases.len() > 0,
    ensures
        named_rows(strata, cases, outcomes) == named_rows(
            strata,
            cases.drop_last(),
            outcomes.drop_last(),
        ) + naming_strata(strata, cases.last().category@),
    decreases strata.len(),
{
    if strata.len() > 0 {
        lemma_named_rows_next(strata.drop_last(), cases, outcomes);
    }
}

proof fn lemma_no_stratum_names(strata: Seq<StratumReport>, category: Seq<char>)
    requires
        forall|i: int| 0 <= i < strata.len() ==> (#[trigger] strata[i]).category@ != category,
    ensures
        naming_strata(strata, category) == 0,
    decreases strata.len(),
{
    if strata.len() > 0 {
        assert(strata[strata.len() - 1].category@ != category);
        assert forall|i: int| 0 <= i < strata.drop_last().len() implies (
        #[trigger] strata.drop_last()[i]).category@ != category by {
            assert(strata[i].category@ != category);
        }
        lemma_no_stratum_names(strata.drop_last(), category);
    }
}

proof fn lemma_one_stratum_names(strata: Seq<StratumReport>, at: int)
    requires
        0 <= at < strata.len(),
        forall|i: int, j: int|
            0 <= i < j < strata.len() ==> (#[trigger] strata[i]).category@ != (
            #[trigger] strata[j]).category@,
    ensures
        naming_strata(strata, strata[at].category@) == 1,
    decreases strata.len(),
{
    let init = strata.drop_last();
    let category = strata[at].category@;
    assert forall|i: int, j: int| 0 <= i < j < init.len() implies (#[trigger] init[i]).category@
        != (#[trigger] init[j]).category@ by {
        assert(strata[i].category@ != strata[j].category@);
    }
    if at == strata.len() - 1 {
        assert forall|i: int| 0 <= i < init.len() implies (#[trigger] init[i]).category@
            != category by {
            assert(strata[i].category@ != strata[at].category@);
        }
        lemma_no_stratum_names(init, category);
    } else {
        assert(strata[at].category@ != strata[strata.len() - 1].category@);
        assert(init[at] == strata[at]);
        lemma_one_stratum_names(init, at);
    }
}

proof fn lemma_rows_named(
    strata: Seq<StratumReport>,
    cases: Seq<Case>,
    outcomes: Seq<Outcome>,
    k: usize,
)
    requires
        forall|i: int|
            0 <= i < strata.len() ==> counts_category(cases, outcomes, k, #[trigger] strata[i]),
    ensures
        counted_rows(strata) == named_rows(strata, cases, outcomes),
    decreases strata.len(),
{
    if strata.len() > 0 {
        assert(counts_category(cases, outcomes, k, strata[strata.len() - 1]));
        assert forall|i: int| 0 <= i < strata.drop_last().len() implies counts_category(
            cases,
            outcomes,
            k,
            #[trigger] strata.drop_last()[i],
        ) by {
            assert(counts_category(cases, outcomes, k, strata[i]));
        }
        lemma_rows_named(strata.drop_last(), cases, outcomes, k);
    }
}

proof fn lemma_no_rows(strata: Seq<StratumReport>, cases: Seq<Case>, outcomes: Seq<Outcome>)
    requires
        cases.len() == 0,
    ensures
        named_rows(strata, cases, outcomes) == 0,
    decreases strata.len(),
{
    if strata.len() > 0 {
        lemma_no_rows(strata.drop_last(), cases, outcomes);
    }
}

proof fn lemma_named_is_all(
    strata: Seq<StratumReport>,
    cases: Seq<Case>,
    outcomes: Seq<Outcome>,
)
    requires
        forall|i: int, j: int|
            0 <= i < j < strata.len() ==> (#[trigger] strata[i]).category@ != (
            #[trigger] strata[j]).category@,
        forall|c: int|
            0 <= c < cases.len() ==> has_stratum(strata, (#[trigger] cases[c]).category@),
    ensures
        named_rows(strata, cases, outcomes) == cases.len(),
    decreases cases.len(),
{
    if cases.len() == 0 {
        lemma_no_rows(strata, cases, outcomes);
    } else {
        let init = cases.drop_last();
        assert forall|c: int| 0 <= c < init.len() implies has_stratum(
            strata,
            (#[trigger] init[c]).category@,
        ) by {
            assert(cases[c] == init[c]);
        }
        lemma_named_is_all(strata, init, outcomes.drop_last());
        lemma_named_rows_next(strata, cases, outcomes);
        assert(has_stratum(strata, cases[cases.len() - 1].category@));
        let at = choose|i: int|
            0 <= i < strata.len() && (#[trigger] strata[i]).category@ == cases.last().category@;
        lemma_one_stratum_names(strata, at);
    }
}

/// The strata of a report count every row of the golden set exactly once.
pub proof fn strata_count_every_row(
    cases: Seq<Case>,
    outcomes: Seq<Outcome>,
    k: usize,
    strata: Seq<StratumReport>,
)
    requires
        is_breakdown(cases, outcomes, k, strata),
    ensures
        counted_rows(strata) == cases.len(),
{
    assert forall|i: int, j: int| 0 <= i < j < strata.len() implies (
    #[trigger] strata[i]).category@ != (#[trigger] strata[j]).category@ by {
        order::lemma_lex_irreflexive(path::text_key(strata[i].category@));
    }
    lemma_rows_named(strata, cases, outcomes, k);
    lemma_named_is_all(strata, cases, outcomes);
}

// ---------------------------------------------------------------------------
// What a score says
// ---------------------------------------------------------------------------

/// Whether a path holds one of the expected texts.
pub open spec fn on_expected_path(file: Seq<char>, expected: Seq<Seq<char>>) -> bool {
    exists|e: int| 0 <= e < expected.len() && text::holds(file, #[trigger] expected[e])
}

/// Whether some line is both in the lines of a result and in a range.
pub open spec fn shares_line(r: SearchResult, lo: usize, hi: usize) -> bool {
    exists|n: usize| r.lines@[0] <= n <= r.lines@[1] && lo <= n && #[trigger] at_most(n, hi)
}

pub open spec fn at_most(n: usize, hi: usize) -> bool {
    n <= hi
}

/// A path is expected exactly where it is something, an expected text, and something.
pub proof fn expected_paths_hold_an_expected_text(file: Seq<char>, expected: Seq<Seq<char>>)
    ensures
        is_expected(file, expected) == on_expected_path(file, expected),
{
    assert forall|e: int| 0 <= e < expected.len() implies text::contains(
        file,
        #[trigger] expected[e],
    ) == text::holds(file, expected[e]) by {
        text::containing_is_standing_between(file, expected[e]);
    }
    if is_expected(file, expected) {
        let e = choose|e: int|
            0 <= e < expected.len() && text::contains(file, #[trigger] expected[e]);
        assert(text::holds(file, expected[e]));
    }
    if on_expected_path(file, expected) {
        let e = choose|e: int| 0 <= e < expected.len() && text::holds(file, #[trigger] expected[e]);
        assert(text::contains(file, expected[e]));
    }
}

/// There is a span hit exactly where one of the first `k` results is on an expected path
/// and shares a line with the expected range. So one whose lines lie within the range
/// and one whose lines hold it both count.
pub proof fn span_hits_share_a_line(
    results: Seq<SearchResult>,
    expected: Seq<Seq<char>>,
    lo: usize,
    hi: usize,
    k: nat,
)
    requires
        lo <= hi,
        forall|i: int|
            0 <= i < results.len() ==> (#[trigger] results[i]).lines@[0] <= results[i].lines@[1],
    ensures
        span_covered(results, expected, lo, hi, k) <==> exists|i: int|
            0 <= i < results.len() && i < k && on_expected_path(
                (#[trigger] results[i]).file@,
                expected,
            ) && shares_line(results[i], lo, hi),
{
    assert forall|i: int| 0 <= i < results.len() implies covers_span(
        #[trigger] results[i],
        expected,
        lo,
        hi,
    ) == (on_expected_path(results[i].file@, expected) && shares_line(results[i], lo, hi)) by {
        let r = results[i];
        expected_paths_hold_an_expected_text(r.file@, expected);
        let n = if r.lines@[0] < lo {
            lo
        } else {
            r.lines@[0]
        };
        if r.lines@[0] <= hi && lo <= r.lines@[1] {
            assert(at_most(n, hi));
            assert(shares_line(r, lo, hi));
        }
    }
    if span_covered(results, expected, lo, hi, k) {
        let i = choose|i: int|
            0 <= i < results.len() && i < k && covers_span(#[trigger] results[i], expected, lo, hi);
        assert(on_expected_path(results[i].file@, expected));
    }
    if exists|i: int|
        0 <= i < results.len() && i < k && on_expected_path((#[trigger] results[i]).file@, expected)
            && shares_line(results[i], lo, hi) {
        let i = choose|i: int|
            0 <= i < results.len() && i < k && on_expected_path(
                (#[trigger] results[i]).file@,
                expected,
            ) && shares_line(results[i], lo, hi);
        assert(covers_span(results[i], expected, lo, hi));
    }
}

/// The outcome of a row says where its first result on an expected path stands, and
/// whether one of the first `k` shares a line with the expected ones.
pub proof fn outcomes_name_the_first_match<G: Fn(&Vec<Credit>, &Vec<usize>) -> FloatBits>(
    case: Case,
    results: Seq<SearchResult>,
    k: usize,
    ndcg: G,
    o: Outcome,
)
    requires
        scores_case(case, results, k, ndcg, o),
        case.expected_lines is Some ==> (case.expected_lines->0).0 <= (case.expected_lines->0).1,
        forall|i: int|
            0 <= i < results.len() ==> (#[trigger] results[i]).lines@[0] <= results[i].lines@[1],
    ensures
        o.rank is Some <==> exists|i: int|
            0 <= i < results.len() && on_expected_path(
                (#[trigger] results[i]).file@,
                text::texts(case.expected@),
            ),
        o.rank is Some ==> o.rank->0 < results.len() && on_expected_path(
            results[o.rank->0 as int].file@,
            text::texts(case.expected@),
        ),
        o.rank is Some ==> forall|i: int|
            0 <= i < o.rank->0 ==> !on_expected_path(
                (#[trigger] results[i]).file@,
                text::texts(case.expected@),
            ),
        o.span_hit is Some <==> case.expected_lines is Some,
        o.span_hit is Some ==> (o.span_hit->0 <==> exists|i: int|
            0 <= i < results.len() && i < k && on_expected_path(
                (#[trigger] results[i]).file@,
                text::texts(case.expected@),
            ) && shares_line(
                results[i],
                (case.expected_lines->0).0,
                (case.expected_lines->0).1,
            )),
{
    let expected = text::texts(case.expected@);
    assert forall|i: int| 0 <= i < results.len() implies is_expected(
        (#[trigger] results[i]).file@,
        expected,
    ) == on_expected_path(results[i].file@, expected) by {
        expected_paths_hold_an_expected_text(results[i].file@, expected);
    }
    if case.expected_lines is Some {
        let range = case.expected_lines->0;
        span_hits_share_a_line(results, expected, range.0, range.1, k as nat);
    }
    if o.rank is Some {
        assert(on_expected_path(results[o.rank->0 as int].file@, expected));
    }
}

/// Whether `e` is the first of the expected texts that a path holds.
pub open spec fn best_expected(file: Seq<char>, expected: Seq<Seq<char>>, e: int) -> bool {
    &&& 0 <= e < expected.len()
    &&& text::holds(file, expected[e])
    &&& forall|f: int| 0 <= f < e ==> !text::holds(file, #[trigger] expected[f])
}

/// Whether a result is the first one on the expected text that it satisfies best.
pub open spec fn earns(
    results: Seq<SearchResult>,
    expected: Seq<Seq<char>>,
    rank: int,
    e: int,
) -> bool {
    &&& best_expected(results[rank].file@, expected, e)
    &&& forall|r: int|
        0 <= r < rank ==> !best_expected((#[trigger] results[r]).file@, expected, e)
}

proof fn lemma_satisfied(file: Seq<char>, expected: Seq<Seq<char>>)
    ensures
        forall|e: int| #[trigger]
            best_expected(file, expected, e) <==> satisfied(file, expected) == Some(e),
        satisfied(file, expected) is Some ==> best_expected(
            file,
            expected,
            satisfied(file, expected)->0,
        ),
{
    assert forall|e: int| 0 <= e < expected.len() implies text::contains(
        file,
        #[trigger] expected[e],
    ) == text::holds(file, expected[e]) by {
        text::containing_is_standing_between(file, expected[e]);
    }
    assert forall|e: int| #[trigger] best_expected(file, expected, e) == first_expected(
        file,
        expected,
        e,
    ) by {}
    if is_expected(file, expected) {
        let m = choose|e: int|
            0 <= e < expected.len() && text::contains(file, #[trigger] expected[e]);
        lemma_least_expected(file, expected, m);
        let e = choose|i: int| first_expected(file, expected, i);
        assert(best_expected(file, expected, e));
    }
    assert forall|e: int| #[trigger] best_expected(file, expected, e) implies satisfied(
        file,
        expected,
    ) == Some(e) by {
        assert(text::contains(file, expected[e]));
        let f = satisfied(file, expected)->0;
        assert(first_expected(file, expected, e));
        assert(first_expected(file, expected, f));
        if f < e {
            assert(!text::contains(file, expected[f]));
        }
        if e < f {
            assert(!text::contains(file, expected[e]));
        }
    }
}

proof fn lemma_least_expected(file: Seq<char>, expected: Seq<Seq<char>>, m: int)
    requires
        0 <= m < expected.len(),
        text::contains(file, expected[m]),
    ensures
        exists|i: int| first_expected(file, expected, i),
    decreases m,
{
    if exists|j: int| 0 <= j < m && text::contains(file, #[trigger] expected[j]) {
        let j = choose|j: int| 0 <= j < m && text::contains(file, #[trigger] expected[j]);
        lemma_least_expected(file, expected, j);
    } else {
        assert(first_expected(file, expected, m));
    }
}

proof fn lemma_credits(results: Seq<SearchResult>, expected: Seq<Seq<char>>, n: int)
    requires
        0 <= n <= results.len(),
        n <= usize::MAX,
    ensures
        forall|e: int|
            #![trigger credited(results, expected, n).contains(e)]
            credited(results, expected, n).contains(e) <==> exists|r: int|
                0 <= r < n && best_expected((#[trigger] results[r]).file@, expected, e),
        forall|j: int|
            0 <= j < credits_of(results, expected, n).len() ==> {
                let c = #[trigger] credits_of(results, expected, n)[j];
                c.rank < n && exists|e: int| #[trigger]
                    earns(results, expected, c.rank as int, e) && c.gain == if e == 0 {
                        2usize
                    } else {
                        1usize
                    }
            },
        forall|r: int, e: int|
            0 <= r < n && #[trigger] earns(results, expected, r, e) ==> exists|j: int|
                0 <= j < credits_of(results, expected, n).len() && (#[trigger] credits_of(
                    results,
                    expected,
                    n,
                )[j]).rank == r,
        forall|i: int, j: int|
            0 <= i < j < credits_of(results, expected, n).len() ==> (#[trigger] credits_of(
                results,
                expected,
                n,
            )[i]).rank < (#[trigger] credits_of(results, expected, n)[j]).rank,
    decreases n,
{
    if n > 0 {
        let m = n - 1;
        lemma_credits(results, expected, m);
        lemma_satisfied(results[m].file@, expected);
        let (old_list, list) = (credited(results, expected, m), credited(results, expected, n));
        let (old_credits, credits) = (
            credits_of(results, expected, m),
            credits_of(results, expected, n),
        );
        let best = satisfied(results[m].file@, expected);
        assert forall|e: int| #![trigger list.contains(e)] list.contains(e) <==> exists|r: int|
            0 <= r < n && best_expected((#[trigger] results[r]).file@, expected, e) by {
            if list.contains(e) {
                if old_list.contains(e) {
                    let r = choose|r: int|
                        0 <= r < m && best_expected((#[trigger] results[r]).file@, expected, e);
                    assert(best_expected(results[r].file@, expected, e));
                } else {
                    let k = choose|k: int| 0 <= k < list.len() && list[k] == e;
                    if k < old_list.len() {
                        assert(old_list[k] == e);
                    }
                    assert(best_expected(results[m].file@, expected, e));
                }
            }
            if exists|r: int|
                0 <= r < n && best_expected((#[trigger] results[r]).file@, expected, e) {
                let r = choose|r: int|
                    0 <= r < n && best_expected((#[trigger] results[r]).file@, expected, e);
                if r < m {
                    assert(old_list.contains(e));
                    let k = choose|k: int| 0 <= k < old_list.len() && old_list[k] == e;
                    assert(list[k] == e);
                } else if !old_list.contains(e) {
                    assert(list[old_list.len() as int] == e);
                }
            }
        }
        assert forall|j: int| 0 <= j < credits.len() implies {
            let c = #[trigger] credits[j];
            c.rank < n && exists|e: int| #[trigger]
                earns(results, expected, c.rank as int, e) && c.gain == if e == 0 {
                    2usize
                } else {
                    1usize
                }
        } by {
            if j < old_credits.len() {
                assert(credits[j] == old_credits[j]);
            } else {
                let e = best->0;
                assert(!old_list.contains(e));
                assert(earns(results, expected, m, e));
            }
        }
        assert forall|r: int, e: int|
            0 <= r < n && #[trigger] earns(results, expected, r, e) implies exists|j: int|
            0 <= j < credits.len() && (#[trigger] credits[j]).rank == r by {
            if r < m {
                let j = choose|j: int|
                    0 <= j < old_credits.len() && (#[trigger] old_credits[j]).rank == r;
                assert(credits[j] == old_credits[j]);
            } else {
                assert(best == Some(e));
                assert(!old_list.contains(e));
                assert(credits[old_credits.len() as int].rank == m);
            }
        }
        assert forall|i: int, j: int| 0 <= i < j < credits.len() implies (#[trigger] credits[i]).rank
            < (#[trigger] credits[j]).rank by {
            assert(credits[i] == old_credits[i]);
            if j < old_credits.len() {
                assert(credits[j] == old_credits[j]);
            }
        }
    }
}

/// What is earned: of the first ten results, each that is the first one on the expected
/// text that it satisfies best earns a gain at its rank, two for the primary text and one
/// for the others, and no other result earns anything. At best the primary text earns
/// two and each other one.
pub proof fn gains_go_to_the_first_on_each_path(
    case: Case,
    results: Seq<SearchResult>,
    earned: Seq<Credit>,
    ideal: Seq<usize>,
)
    requires
        weighs(case, results, earned, ideal),
        results.len() <= usize::MAX,
    ensures
        forall|r: int, e: int|
            0 <= r < results.len() && r < 10 && #[trigger] earns(
                results,
                text::texts(case.expected@),
                r,
                e,
            ) ==> exists|j: int| 0 <= j < earned.len() && (#[trigger] earned[j]).rank == r,
        forall|j: int|
            0 <= j < earned.len() ==> {
                let c = #[trigger] earned[j];
                c.rank < 10 && c.rank < results.len() && exists|e: int| #[trigger]
                    earns(results, text::texts(case.expected@), c.rank as int, e) && c.gain == if e
                        == 0 {
                        2usize
                    } else {
                        1usize
                    }
            },
        forall|i: int, j: int|
            0 <= i < j < earned.len() ==> (#[trigger] earned[i]).rank < (#[trigger] earned[j]).rank,
        ideal.len() == case.expected@.len(),
        forall|i: int|
            0 <= i < ideal.len() ==> #[trigger] ideal[i] == if i == 0 {
                2usize
            } else {
                1usize
            },
{
    lemma_credits(results, text::texts(case.expected@), ndcg_depth(results));
}

/// Whether the query was answered within the cutoff.
pub open spec fn answered_within(cutoff: usize) -> spec_fn(Outcome) -> bool {
    |o: Outcome| o.rank matches Some(rank) && rank < cutoff
}

proof fn lemma_tallies(outcomes: Seq<Outcome>, cutoff: usize)
    ensures
        hits_below(outcomes, cutoff as nat) == outcomes.filter(answered_within(cutoff)).len(),
        ranks_of(outcomes) == outcomes.filter(|o: Outcome| o.rank is Some).map_values(
            |o: Outcome| o.rank->0,
        ),
        span_queries(outcomes) == outcomes.filter(|o: Outcome| o.span_hit is Some).len(),
        span_successes(outcomes) == outcomes.filter(|o: Outcome| o.span_hit == Some(true)).len(),
    decreases outcomes.len(),
{
    reveal(Seq::filter);
    if outcomes.len() > 0 {
        lemma_tallies(outcomes.drop_last(), cutoff);
    }
    assert(ranks_of(outcomes) =~= outcomes.filter(|o: Outcome| o.rank is Some).map_values(
        |o: Outcome| o.rank->0,
    ));
}

/// A tally says of its queries how many were answered within the cutoff and within ten
/// results, at which ranks, what each gained, how many had expected lines, and how many
/// of those met them.
pub proof fn tallies_count_their_queries(t: Tally, outcomes: Seq<Outcome>, k: usize)
    requires
        counts(t, outcomes, k),
    ensures
        t.n == outcomes.len(),
        t.hits_k == outcomes.filter(answered_within(k)).len(),
        t.hits_10 == outcomes.filter(answered_within(10)).len(),
        t.ranks@ == outcomes.filter(|o: Outcome| o.rank is Some).map_values(|o: Outcome| o.rank->0),
        t.ndcgs@.len() == outcomes.len(),
        forall|i: int| 0 <= i < outcomes.len() ==> #[trigger] t.ndcgs@[i] == outcomes[i].ndcg,
        t.span_n == outcomes.filter(|o: Outcome| o.span_hit is Some).len(),
        t.span_hits == outcomes.filter(|o: Outcome| o.span_hit == Some(true)).len(),
{
    lemma_tallies(outcomes, k);
    lemma_tallies(outcomes, 10);
}

/// The outcomes of a category are those of its rows, in order: a row adds its own.
pub proof fn categories_collect_their_rows(
    cases: Seq<Case>,
    outcomes: Seq<Outcome>,
    case: Case,
    o: Outcome,
    category: Seq<char>,
)
    requires
        cases.len() == outcomes.len(),
    ensures
        outcomes_in(cases.push(case), outcomes.push(o), category) == if case.category@ == category {
            outcomes_in(cases, outcomes, category).push(o)
        } else {
            outcomes_in(cases, outcomes, category)
        },
        outcomes_in(Seq::<Case>::empty(), Seq::<Outcome>::empty(), category) == Seq::<
            Outcome,
        >::empty(),
{
    assert(cases.push(case).drop_last() =~= cases);
    assert(outcomes.push(o).drop_last() =~= outcomes);
}

/// A search for a row reads enough for both cutoffs, and filters nothing.
pub proof fn rows_are_searched_without_filters(case: Case, opts: EvalOpts, p: SearchParams)
    requires
        searches_case(case, opts, p),
    ensures
        p.query@ == case.query@,
        p.top_k >= 10 && p.top_k >= opts.k && (p.top_k == 10 || p.top_k == opts.k),
        p.retrieve_n >= p.top_k && p.retrieve_n >= opts.retrieve_n,
        p.retrieve_n == p.top_k || p.retrieve_n == opts.retrieve_n,
        p.langs is None && p.path_prefix is None && p.source is None && p.max_per_file == 0,
        p.rerank == opts.rerank && p.retrieval == opts.retrieval && p.rrf_k == opts.rrf_k,
        p.min_score == opts.min_score,
{
}

// ---------------------------------------------------------------------------
// What a golden set says
// ---------------------------------------------------------------------------

/// A range is two numbers with a hyphen between them, white space aside, in order.
pub proof fn a_range_is_two_numbers(lo: usize, hi: usize)
    ensures
        line_range(text::decimal(lo as nat) + seq!['-'] + text::decimal(hi as nat)) == if lo <= hi {
            Some((lo, hi))
        } else {
            None
        },
{
    let (a, b) = (text::decimal(lo as nat), text::decimal(hi as nat));
    let s = a + seq!['-'] + b;
    let none = Seq::<char>::empty();
    text::numbers_are_read_back(lo, none);
    text::numbers_are_read_back(hi, none);
    assert(none + a =~= a);
    assert(none + b =~= b);
    text::numbers_are_digits(a);
    text::numbers_are_digits(b);
    text::lemma_decimal_digits(lo as nat);
    text::lemma_decimal_digits(hi as nat);
    text::lemma_trim_nothing(s);
    text::lemma_trim_nothing(a);
    text::lemma_trim_nothing(b);
    let p = text::other_than('-');
    assert forall|i: int| 0 <= i < a.len() implies p(#[trigger] s[i]) by {
        assert(s[i] == a[i]);
    }
    text::lemma_prefix_len_is(s, p, a.len() as int);
    assert(s.take(a.len() as int) =~= a);
    assert(s.skip((a.len() + 1) as int) =~= b);
}

/// Nothing without a hyphen is a range.
pub proof fn a_range_has_a_hyphen(field: Seq<char>)
    requires
        !field.contains('-'),
    ensures
        line_range(field) is None,
{
    let s = text::trim(field);
    let ends = text::trimming_takes_white_space_off(field);
    let p = text::other_than('-');
    assert forall|i: int| 0 <= i < s.len() implies p(#[trigger] s[i]) by {
        assert(field[ends.0.len() + i] == s[i]);
    }
    text::lemma_prefix_len_is(s, p, s.len() as int);
}

/// A bar parts the expected texts; each is taken without the white space around it, and
/// an empty one is none.
pub proof fn a_bar_parts_the_expected_texts(first: Seq<char>, rest: Seq<char>)
    requires
        !first.contains('|'),
    ensures
        alternatives(first) == if text::trim(first).len() == 0 {
            seq![]
        } else {
            seq![text::trim(first)]
        },
        alternatives(first + seq!['|'] + rest) == alternatives(first) + alternatives(rest),
{
    text::a_separator_parts_the_pieces(first, '|', rest, 0);
    let f = |s: Seq<char>| text::trim(s);
    let more = text::split_on(rest, '|');
    let one = seq![first];
    assert((one + more).map_values(f) =~= one.map_values(f) + more.map_values(f));
    Seq::filter_distributes_over_add(one.map_values(f), more.map_values(f), nonempty());
    reveal(Seq::filter);
    let low = one.map_values(f);
    assert(low =~= seq![text::trim(first)]);
    assert(low.drop_last() =~= Seq::<Seq<char>>::empty());
    assert(low.drop_last().filter(nonempty()) =~= Seq::<Seq<char>>::empty());
    assert(low.filter(nonempty()) =~= if text::trim(first).len() == 0 {
        Seq::<Seq<char>>::empty()
    } else {
        seq![text::trim(first)]
    });
}

/// The columns of a row are parted by tabs: the query, the expected texts, the category,
/// and the lines. The last two may be left out, and a row that expects nothing is none.
pub proof fn tabs_part_the_columns(
    query: Seq<char>,
    expected: Seq<char>,
    category: Seq<char>,
    lines: Seq<char>,
)
    requires
        !query.contains('\t'),
        !expected.contains('\t'),
        !category.contains('\t'),
        alternatives(expected).len() > 0,
    ensures
        row_of(query + seq!['\t'] + (expected + seq!['\t'] + (category + seq!['\t'] + lines)))
            == Some(
            CaseFacts {
                query: text::trim(query),
                expected: alternatives(expected),
                category: if text::trim(category).len() == 0 {
                    DEFAULT_CATEGORY@
                } else {
                    text::trim(category)
                },
                expected_lines: line_range(lines),
            },
        ),
        row_of(query + seq!['\t'] + (expected + seq!['\t'] + category)) == Some(
            CaseFacts {
                query: text::trim(query),
                expected: alternatives(expected),
                category: if text::trim(category).len() == 0 {
                    DEFAULT_CATEGORY@
                } else {
                    text::trim(category)
                },
                expected_lines: None,
            },
        ),
        row_of(query + seq!['\t'] + expected) == Some(
            CaseFacts {
                query: text::trim(query),
                expected: alternatives(expected),
                category: DEFAULT_CATEGORY@,
                expected_lines: None,
            },
        ),
        row_of(query) is None,
{
    let none = Seq::<char>::empty();
    let tail = category + seq!['\t'] + lines;
    text::a_separator_parts_the_pieces(query, '\t', expected + seq!['\t'] + tail, 4);
    text::a_separator_parts_the_pieces(expected, '\t', tail, 3);
    text::a_separator_parts_the_pieces(category, '\t', lines, 2);
    let whole = text::split_limit(query + seq!['\t'] + (expected + seq!['\t'] + tail), '\t', 4);
    assert(whole =~= seq![query, expected, category, lines]);
    text::a_separator_parts_the_pieces(query, '\t', expected + seq!['\t'] + category, 4);
    text::a_separator_parts_the_pieces(expected, '\t', category, 3);
    assert(text::split_limit(category, '\t', 2) == seq![category]);
    let three = text::split_limit(query + seq!['\t'] + (expected + seq!['\t'] + category), '\t', 4);
    assert(three =~= seq![query, expected, category]);
    text::a_separator_parts_the_pieces(query, '\t', expected, 4);
    text::a_separator_parts_the_pieces(expected, '\t', none, 3);
    let two = text::split_limit(query + seq!['\t'] + expected, '\t', 4);
    assert(two =~= seq![query, expected]);
}

proof fn lemma_rows_concat(a: Seq<Seq<char>>, b: Seq<Seq<char>>)
    ensures
        rows_of(a + b) == rows_of(a) + rows_of(b),
    decreases b.len(),
{
    if b.len() == 0 {
        assert(a + b =~= a);
        assert(rows_of(a) + rows_of(b) =~= rows_of(a));
    } else {
        lemma_rows_concat(a, b.drop_last());
        assert((a + b).drop_last() =~= a + b.drop_last());
        assert((a + b).last() == b.last());
        assert(rows_of(a + b) =~= rows_of(a) + rows_of(b));
    }
}

/// The first line of a golden set is no row. Every other one is, unless it is blank or
/// expects nothing.
pub proof fn every_line_but_the_first_is_a_row(header: Seq<char>, line: Seq<char>, rest: Seq<char>)
    requires
        !header.contains('\n'),
        !line.contains('\n'),
    ensures
        golden_set(header + seq!['\n'] + (line + seq!['\n'] + rest)) == (if text::trim(
            text::chomp(line),
        ).len() == 0 || row_of(text::chomp(line)) is None {
            Seq::<CaseFacts>::empty()
        } else {
            seq![row_of(text::chomp(line))->0]
        }) + golden_set(header + seq!['\n'] + rest),
{
    text::a_line_feed_ends_a_line(header, line + seq!['\n'] + rest);
    text::a_line_feed_ends_a_line(header, rest);
    text::a_line_feed_ends_a_line(line, rest);
    let one = seq![text::chomp(line)];
    let all = text::lines(header + seq!['\n'] + (line + seq!['\n'] + rest));
    assert(all.drop_first() =~= one + text::lines(rest));
    let fewer = text::lines(header + seq!['\n'] + rest);
    assert(fewer.drop_first() =~= text::lines(rest));
    lemma_rows_concat(one, text::lines(rest));
    assert(one.drop_last() =~= Seq::<Seq<char>>::empty());
    assert(rows_of(one.drop_last()) =~= Seq::<CaseFacts>::empty());
    assert(one.last() == text::chomp(line));
}

// ---------------------------------------------------------------------------
// What the steps of an evaluation give
// ---------------------------------------------------------------------------

/// There is a span hit exactly if some line stands both in the expected range and in the
/// lines of one of the first `k` results that are on an expected path.
pub proof fn spans_are_hit_by_a_shared_line(
    results: &Vec<SearchResult>,
    expected: &Vec<String>,
    range: (usize, usize),
    k: usize,
    r: bool,
)
    requires
        call_ensures(span_hit, (results, expected, range, k), r),
        range.0 <= range.1,
        forall|i: int|
            0 <= i < results@.len() ==> (#[trigger] results@[i]).lines@[0] <= results@[i].lines@[1],
    ensures
        r <==> exists|i: int, n: usize|
            0 <= i < results@.len() && i < k && on_expected_path(
                (#[trigger] results@[i]).file@,
                text::texts(expected@),
            ) && results@[i].lines@[0] <= n <= results@[i].lines@[1] && range.0 <= n
                && #[trigger] at_most(n, range.1),
{
    let texts = text::texts(expected@);
    span_hits_share_a_line(results@, texts, range.0, range.1, k as nat);
    if r {
        let i = choose|i: int|
            0 <= i < results@.len() && i < k && on_expected_path(
                (#[trigger] results@[i]).file@,
                texts,
            ) && shares_line(results@[i], range.0, range.1);
        let n = choose|n: usize|
            results@[i].lines@[0] <= n <= results@[i].lines@[1] && range.0 <= n
                && #[trigger] at_most(n, range.1);
        assert(on_expected_path(results@[i].file@, texts));
        assert(at_most(n, range.1));
    }
    if exists|i: int, n: usize|
        0 <= i < results@.len() && i < k && on_expected_path((#[trigger] results@[i]).file@, texts)
            && results@[i].lines@[0] <= n <= results@[i].lines@[1] && range.0 <= n
            && #[trigger] at_most(n, range.1) {
        let (i, n) = choose|i: int, n: usize|
            0 <= i < results@.len() && i < k && on_expected_path(
                (#[trigger] results@[i]).file@,
                texts,
            ) && results@[i].lines@[0] <= n <= results@[i].lines@[1] && range.0 <= n
                && #[trigger] at_most(n, range.1);
        assert(shares_line(results@[i], range.0, range.1));
    }
}

/// A path is expected if it holds one of the texts, the first of those that it holds is
/// its best, and the rank is that of the first result on an expected path.
pub proof fn ranks_are_those_of_the_first_match(
    file: &str,
    expected: &Vec<String>,
    hit: bool,
    best: Option<usize>,
    results: &Vec<SearchResult>,
    rank: Option<usize>,
)
    requires
        call_ensures(matches_expected, (file, expected), hit),
        call_ensures(best_match_index, (file, expected), best),
        call_ensures(rank_of, (results, expected), rank),
    ensures
        hit == on_expected_path(file@, text::texts(expected@)),
        best is Some <==> hit,
        best is Some ==> best_expected(file@, text::texts(expected@), best->0 as int),
        rank is Some ==> rank->0 < results@.len() && on_expected_path(
            results@[rank->0 as int].file@,
            text::texts(expected@),
        ) && forall|i: int|
            0 <= i < rank->0 ==> !on_expected_path(
                (#[trigger] results@[i]).file@,
                text::texts(expected@),
            ),
{
    let texts = text::texts(expected@);
    expected_paths_hold_an_expected_text(file@, texts);
    assert forall|i: int| 0 <= i < results@.len() implies is_expected(
        (#[trigger] results@[i]).file@,
        texts,
    ) == on_expected_path(results@[i].file@, texts) by {
        expected_paths_hold_an_expected_text(results@[i].file@, texts);
    }
    if best is Some {
        let e = best->0 as int;
        assert forall|f: int| 0 <= f < texts.len() implies text::contains(
            file@,
            #[trigger] texts[f],
        ) == text::holds(file@, texts[f]) by {
            text::containing_is_standing_between(file@, texts[f]);
        }
        assert(text::holds(file@, texts[e]));
    }
}

/// At best the primary text earns two and each other one, and a row is searched for with
/// enough results for both cutoffs and without filters.
pub proof fn rows_are_weighed_and_searched(
    n: usize,
    gains: Vec<usize>,
    case: &Case,
    opts: &EvalOpts,
    p: SearchParams,
)
    requires
        call_ensures(ideal_gains, (n,), gains),
        call_ensures(case_params, (case, opts), p),
    ensures
        gains@.len() == n,
        forall|i: int| 0 < i < n ==> #[trigger] gains@[i] == 1,
        n > 0 ==> gains@[0] == 2,
        p.query@ == case.query@,
        p.top_k >= 10 && p.top_k >= opts.k,
        p.retrieve_n >= p.top_k && p.retrieve_n >= opts.retrieve_n,
        p.langs is None && p.path_prefix is None && p.source is None && p.max_per_file == 0,
        p.rerank == opts.rerank && p.retrieval == opts.retrieval && p.rrf_k == opts.rrf_k,
        p.min_score == opts.min_score,
{
    rows_are_searched_without_filters(*case, *opts, p);
}

/// The credits of a ranking go to the first result on each path, among the first ten.
pub proof fn credits_go_to_the_first_ten(
    results: &Vec<SearchResult>,
    expected: &Vec<String>,
    earned: Vec<Credit>,
    r: int,
    e: int,
)
    requires
        call_ensures(ndcg_credits, (results, expected), earned),
        results@.len() <= usize::MAX,
        0 <= r < results@.len(),
    ensures
        earns(results@, text::texts(expected@), r, e) && r < 10 ==> exists|j: int|
            0 <= j < earned@.len() && (#[trigger] earned@[j]).rank == r,
        forall|j: int|
            0 <= j < earned@.len() ==> (#[trigger] earned@[j]).rank < 10 && earned@[j].rank
                < results@.len() && exists|f: int| #[trigger]
                earns(results@, text::texts(expected@), earned@[j].rank as int, f)
                    && earned@[j].gain == if f == 0 {
                    2usize
                } else {
                    1usize
                },
{
    lemma_credits(results@, text::texts(expected@), ndcg_depth(results@));
}

/// The share of spans that were hit is told where there were any: the hits, then the
/// queries.
pub proof fn span_rates_are_hits_of_queries(t: &Tally, r: Option<(usize, usize)>)
    requires
        call_ensures(Tally::span_hit_rate, (t,), r),
    ensures
        r is Some <==> t.span_n > 0,
        r is Some ==> (r->0).0 == t.span_hits && (r->0).1 == t.span_n,
{
}

/// A report has one part for each category, in the order of their names, that counts the
/// outcomes of its rows, and one over all.
pub proof fn reports_have_a_part_for_each_category(
    cases: Seq<Case>,
    outcomes: Seq<Outcome>,
    k: usize,
    r: EvalReport,
    c: int,
    i: int,
    j: int,
)
    requires
        reports(cases, outcomes, k, r),
        0 <= c < cases.len(),
        0 <= i < j < r.strata@.len(),
    ensures
        r.k == k,
        r.overall.n == outcomes.len(),
        exists|s: int|
            0 <= s < r.strata@.len() && (#[trigger] r.strata@[s]).category@ == cases[c].category@,
        path::text_before(r.strata@[i].category@, r.strata@[j].category@),
        r.strata@[i].tally.n == outcomes_in(cases, outcomes, r.strata@[i].category@).len(),
        r.strata@[i].tally.n > 0,
{
    assert(has_stratum(r.strata@, cases[c].category@));
    path::text_keys_order_by_characters(r.strata@[i].category@, r.strata@[j].category@);
    assert(counts_category(cases, outcomes, k, r.strata@[i]));
}

} // verus!
