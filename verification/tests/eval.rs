use rag_bone::config::RetrievalMode;
use rag_bone::eval::{
    best_match_index, case_params, ideal_gains, matches_expected, ndcg_credits, parse_cases,
    parse_line_range, rank_of, run, score_case, span_hit, summarize, Case, Credit, EvalError,
    EvalOpts, Outcome, Tally, DEFAULT_CATEGORY,
};
use rag_bone::float::FloatBits;
use rag_bone::search::SearchResult;
use std::cell::RefCell;

fn bits(x: f32) -> FloatBits {
    FloatBits { bits: x.to_bits() }
}

fn recall_k(t: &Tally) -> f32 {
    t.hits_k as f32 / t.n as f32
}

fn recall_10(t: &Tally) -> f32 {
    t.hits_10 as f32 / t.n as f32
}

fn mrr(t: &Tally) -> f32 {
    let mut sum = 0.0f32;
    for r in &t.ranks {
        sum += 1.0 / (*r as f32 + 1.0);
    }
    sum / t.n as f32
}

fn gain_ratio(earned: &Vec<Credit>, ideal: &Vec<usize>) -> f32 {
    let mut dcg = 0.0f32;
    for c in earned {
        dcg += c.gain as f32 / (c.rank as f32 + 2.0).log2();
    }
    let mut idcg = 0.0f32;
    for (i, g) in ideal.iter().enumerate() {
        idcg += *g as f32 / (i as f32 + 2.0).log2();
    }
    if idcg > 0.0 {
        dcg / idcg
    } else {
        0.0
    }
}

fn ndcg_at_10(results: &Vec<SearchResult>, expected: &Vec<String>) -> f32 {
    gain_ratio(&ndcg_credits(results, expected), &ideal_gains(expected.len()))
}

fn strings(list: &[&str]) -> Vec<String> {
    list.iter().map(|s| s.to_string()).collect()
}

#[test]
fn matches_any_alternative() {
    let exp = vec!["quota.rs".to_string(), "permissions.rs".to_string()];
    assert!(matches_expected("src/permissions.rs", &exp));
    assert!(!matches_expected("src/session.rs", &exp));
}

#[test]
fn parse_skips_header_and_blanks() {
    let cases = parse_cases("query\texpected\nfoo\ta.rs|b.rs\n\nbar\tc.md\n");
    assert_eq!(cases.len(), 2);
    assert_eq!(cases[0].expected, vec!["a.rs", "b.rs"]);
    assert_eq!(cases[1].query, "bar");
}

#[test]
fn parse_reads_optional_category_column() {
    // Row 1 has a category, row 2 omits it.
    let cases = parse_cases("query\texpected\tcategory\nfoo\ta.rs\tdocs\nbar\tb.rs\n");
    assert_eq!(cases[0].category, "docs");
    assert_eq!(cases[1].category, DEFAULT_CATEGORY);
}

fn outcome(rank: Option<usize>, span_hit: Option<bool>) -> Outcome {
    Outcome { rank, ndcg: bits(0.0), span_hit }
}

#[test]
fn tally_folds_ranks_into_rates() {
    let mut t = Tally::default();
    t.record(&outcome(Some(0), None), 3); // hit@k, hit@10, rr=1
    t.record(&outcome(Some(5), None), 3); // miss@k (5>=3), hit@10, rr=1/6
    t.record(&outcome(None, None), 3); // full miss
    assert!((recall_k(&t) - 1.0 / 3.0).abs() < 1e-6);
    assert!((recall_10(&t) - 2.0 / 3.0).abs() < 1e-6);
    assert!((mrr(&t) - (1.0 + 1.0 / 6.0) / 3.0).abs() < 1e-6);
}

#[test]
fn tally_span_rate_only_counts_queries_with_a_range() {
    let mut t = Tally::default();
    t.record(&outcome(Some(0), Some(true)), 3);
    t.record(&outcome(Some(0), Some(false)), 3);
    t.record(&outcome(Some(0), None), 3); // no range
    let rate = t.span_hit_rate().map(|(hits, n)| (hits as f32 / n as f32, n));
    assert_eq!(rate, Some((0.5, 2)));
    assert_eq!(Tally::default().span_hit_rate(), None);
}

#[test]
fn parse_range_handles_valid_and_malformed() {
    assert_eq!(parse_line_range("40-80"), Some((40, 80)));
    assert_eq!(parse_line_range(" 5 - 5 "), Some((5, 5)));
    assert_eq!(parse_line_range("80-40"), None); // inverted
    assert_eq!(parse_line_range(""), None);
    assert_eq!(parse_line_range("abc"), None);
}

fn sr(file: &str, lines: [usize; 2]) -> SearchResult {
    SearchResult {
        chunk_id: format!("1-{file}"),
        file: file.to_string(),
        lang: "rust".into(),
        symbol: None,
        kind: None,
        headings: Vec::new(),
        source: None,
        corpus_source: None,
        fetched: None,
        lines,
        score: bits(1.0),
        snippet: String::new(),
    }
}

#[test]
fn ndcg_rewards_higher_ranked_relevant_and_credits_paths_once() {
    let expected = vec!["a.rs".to_string()];
    // Relevant at rank 0: perfect nDCG.
    let top = vec![sr("a.rs", [1, 5]), sr("b.rs", [1, 5])];
    assert!((ndcg_at_10(&top, &expected) - 1.0).abs() < 1e-6);
    // Relevant at rank 1: 1/log2(3), about 0.6309.
    let mid = vec![sr("b.rs", [1, 5]), sr("a.rs", [1, 5])];
    assert!((ndcg_at_10(&mid, &expected) - 1.0 / 3f32.log2()).abs() < 1e-4);
    // No relevant result: 0.
    assert_eq!(ndcg_at_10(&vec![sr("z.rs", [1, 5])], &expected), 0.0);
}

#[test]
fn span_hit_needs_path_and_overlap() {
    let expected = vec!["a.rs".to_string()];
    let results = vec![sr("a.rs", [40, 60])];
    assert!(span_hit(&results, &expected, (55, 90), 3)); // overlaps
    assert!(!span_hit(&results, &expected, (61, 90), 3)); // right file, disjoint lines
    let wrong = vec![sr("b.rs", [40, 60])];
    assert!(!span_hit(&wrong, &expected, (40, 60), 3)); // wrong file
}

#[test]
fn rows_are_split_into_at_most_four_trimmed_columns() {
    let cases = parse_cases("h\n  q one \t a.rs | b.rs ||\t cat \t 3-9 \n no tab here\n\tx.rs\nq\t|\n");
    assert_eq!(cases[0].query, "q one");
    assert_eq!(cases[0].expected, ["a.rs", "b.rs"]);
    assert_eq!(cases[0].category, "cat");
    assert_eq!(cases[0].expected_lines, Some((3, 9)));
    assert!(cases.iter().all(|c| c.query != "no tab here"));
}

#[test]
fn ranges_that_overflow_are_malformed() {
    assert_eq!(parse_line_range("1-99999999999999999999999"), None);
    assert_eq!(parse_line_range("+1-2"), Some((1, 2)));
    assert_eq!(parse_line_range("1-2-3"), None);
}

#[test]
fn each_expected_path_earns_once_at_its_first_rank() {
    let expected = strings(&["main.rs", "lib.rs"]);
    let results = vec![
        sr("src/lib.rs", [1, 2]),
        sr("other.rs", [1, 2]),
        sr("src/lib.rs", [3, 4]),
        sr("src/main.rs", [1, 2]),
    ];
    let credits = ndcg_credits(&results, &expected);
    assert_eq!(credits, [Credit { rank: 0, gain: 1 }, Credit { rank: 3, gain: 2 }]);
    assert_eq!(ideal_gains(3), [2, 1, 1]);
    assert_eq!(ideal_gains(0), Vec::<usize>::new());
    assert_eq!(best_match_index("src/lib.rs", &expected), Some(1));
    assert_eq!(best_match_index("x/main.rs/lib.rs", &expected), Some(0));
    assert_eq!(best_match_index("nothing", &expected), None);
    assert_eq!(rank_of(&results, &strings(&["main.rs"])), Some(3));
    assert_eq!(rank_of(&results, &strings(&["zig"])), None);
}

#[test]
fn only_the_first_ten_results_earn() {
    let mut results: Vec<SearchResult> = (0..10).map(|i| sr(&format!("f{i}.rs"), [1, 1])).collect();
    results.push(sr("late.rs", [1, 1]));
    assert!(ndcg_credits(&results, &strings(&["late.rs"])).is_empty());
    assert_eq!(rank_of(&results, &strings(&["late.rs"])), Some(10));
}

fn case(query: &str, expected: &[&str], category: &str) -> Case {
    Case {
        query: query.into(),
        expected: strings(expected),
        category: category.into(),
        expected_lines: None,
    }
}

fn opts() -> EvalOpts {
    EvalOpts {
        k: 3,
        retrieve_n: 5,
        rerank: false,
        min_score: bits(0.0),
        retrieval: RetrievalMode::Bm25,
        rrf_k: 60,
    }
}

#[test]
fn rows_are_searched_wide_and_unfiltered() {
    let p = case_params(&case("q", &["a.rs"], "c"), &opts());
    assert_eq!(p.query, "q");
    assert_eq!(p.top_k, 10);
    assert_eq!(p.retrieve_n, 10);
    assert_eq!(p.max_per_file, 0);
    assert!(p.langs.is_none() && p.path_prefix.is_none() && p.source.is_none());
    let wide = EvalOpts { k: 20, retrieve_n: 50, ..opts() };
    let p = case_params(&case("q", &["a.rs"], "c"), &wide);
    assert_eq!((p.top_k, p.retrieve_n), (20, 50));
}

#[test]
fn strata_count_each_row_once_in_name_order() {
    let cases = vec![case("1", &["a"], "docs"), case("2", &["b"], "code"), case("3", &["c"], "docs")];
    let outcomes = vec![
        outcome(Some(0), None),
        outcome(Some(12), Some(true)),
        outcome(None, None),
    ];
    let report = summarize(&cases, &outcomes, 3);
    assert_eq!((report.overall.n, report.overall.hits_k, report.overall.hits_10), (3, 1, 1));
    assert_eq!(report.overall.ranks, [0, 12]);
    let rows: Vec<(&str, usize)> =
        report.strata.iter().map(|s| (s.category.as_str(), s.tally.n)).collect();
    assert_eq!(rows, [("code", 1), ("docs", 2)]);
    assert_eq!(rows.iter().map(|r| r.1).sum::<usize>(), cases.len());
    assert!(report.overall.hits_k <= report.overall.hits_10);
    assert_eq!(report.strata[0].tally.span_hit_rate(), Some((1, 1)));
    assert_eq!(report.strata[1].tally.span_hit_rate(), None);
}

#[test]
fn an_evaluation_searches_scores_and_observes_every_row() {
    let cases = vec![case("one", &["a.rs"], "x"), case("two", &["b.rs"], "x")];
    let seen = RefCell::new(Vec::new());
    let search = |p: &rag_bone::search::SearchParams| Ok(vec![sr("a.rs", [1, p.top_k])]);
    let ndcg = |e: &Vec<Credit>, i: &Vec<usize>| bits(gain_ratio(e, i));
    let observe = |c: &Case, list: &Vec<SearchResult>, o: &Outcome| {
        seen.borrow_mut().push((c.query.clone(), list.len(), o.rank));
        Ok(())
    };
    let report = run(&cases, &opts(), search, ndcg, observe).unwrap();
    assert_eq!(report.overall.n, 2);
    assert_eq!(report.overall.ndcgs, [bits(1.0), bits(0.0)]);
    let rows = seen.into_inner();
    assert_eq!(rows, [("one".to_string(), 1, Some(0)), ("two".to_string(), 1, None)]);
}

#[test]
fn an_evaluation_fails_with_the_first_fault() {
    let ndcg = |_: &Vec<Credit>, _: &Vec<usize>| bits(0.0);
    let fine = |_: &Case, _: &Vec<SearchResult>, _: &Outcome| Ok(());
    let none = run(&Vec::new(), &opts(), |_: &_| Ok(Vec::new()), ndcg, fine);
    assert!(matches!(none, Err(EvalError::NoQueries)));
    let cases = vec![case("q", &["a"], "x")];
    let broken = run(&cases, &opts(), |_: &_| Err("down".to_string()), ndcg, fine);
    assert!(matches!(broken, Err(EvalError::Search(e)) if e == "down"));
    let full = |_: &Case, _: &Vec<SearchResult>, _: &Outcome| Err("disk".to_string());
    let unseen = run(&cases, &opts(), |_: &_| Ok(Vec::new()), ndcg, full);
    assert!(matches!(unseen, Err(EvalError::Observe(e)) if e == "disk"));
}

#[test]
fn a_row_with_lines_is_scored_by_them() {
    let row = Case { expected_lines: Some((4, 6)), ..case("q", &["a.rs"], "x") };
    let ndcg = |e: &Vec<Credit>, i: &Vec<usize>| bits(gain_ratio(e, i));
    let hit = score_case(&row, &vec![sr("a.rs", [6, 9])], 3, &ndcg);
    assert_eq!(hit, Outcome { rank: Some(0), ndcg: bits(1.0), span_hit: Some(true) });
    let miss = score_case(&row, &vec![sr("a.rs", [7, 9])], 3, &ndcg);
    assert_eq!(miss.span_hit, Some(false));
}

#[test]
fn the_primary_path_earns_twice_an_alternative() {
    let expected = strings(&["a.rs", "b.rs"]);
    let swapped = vec![sr("b.rs", [1, 5]), sr("a.rs", [1, 5])];
    let (first, second) = (1.0 / 2f32.log2(), 1.0 / 3f32.log2());
    let value = (first + 2.0 * second) / (2.0 * first + second);
    assert!((ndcg_at_10(&swapped, &expected) - value).abs() < 1e-3);
    assert!((value - 0.8597).abs() < 1e-3);
}
