use rag_bone::config::RetrievalMode;
use rag_bone::float::FloatBits;
use rag_bone::lexical::{DocMatch, LexicalIndex};
use rag_bone::search::{
    apply_ranking, passes_filters, passes_min_score, rrf_fuse, run, select_results,
    within_file_cap, FileCounts, Scoring, SearchError, SearchParams, SearchResult,
};
use rag_bone::store::{Hit, Index, Record, ScanError};

type Embed = fn(&String) -> Result<Vec<FloatBits>, String>;
type Rerank = fn(&String, &Vec<String>) -> Result<Vec<Hit>, String>;

fn bits(x: f32) -> FloatBits {
    FloatBits { bits: x.to_bits() }
}

fn hit(idx: usize, score: f32) -> Hit {
    Hit { idx, score: bits(score) }
}

fn params() -> SearchParams {
    SearchParams {
        query: "q".into(),
        top_k: 3,
        retrieve_n: 50,
        rerank: false,
        min_score: bits(0.0),
        langs: None,
        path_prefix: None,
        source: None,
        retrieval: RetrievalMode::Dense,
        rrf_k: 60,
        max_per_file: 0,
    }
}

fn record(file: &str, lang: &str) -> Record {
    Record {
        file: file.to_string(),
        lang: lang.into(),
        start_line: 1,
        end_line: 2,
        chunk_id: format!("1-{file}"),
        symbol: None,
        kind: None,
        parent: None,
        signature: None,
        headings: Vec::new(),
        source: None,
        corpus_source: None,
        fetched: None,
        embedding_key: 0,
        text: "x".into(),
        vector: vec![bits(1.0), bits(0.0)],
    }
}

fn reciprocal_sum(terms: &Vec<u128>) -> FloatBits {
    let mut sum = 0.0f32;
    for d in terms {
        sum += 1.0 / *d as f32;
    }
    bits(sum)
}

fn term_count(m: &DocMatch) -> FloatBits {
    bits(m.terms.iter().map(|t| t.tf as f32).sum())
}

fn dots(index: &Index) -> impl Fn(&Vec<usize>, &Vec<FloatBits>) -> Vec<FloatBits> + '_ {
    |found: &Vec<usize>, query: &Vec<FloatBits>| {
        found
            .iter()
            .map(|i| {
                let mut sum = 0.0f32;
                for (a, b) in index.records[*i].vector.iter().zip(query) {
                    sum += f32::from_bits(a.bits) * f32::from_bits(b.bits);
                }
                bits(sum)
            })
            .collect()
    }
}

fn search(
    index: &Index,
    embed: Option<Embed>,
    rerank: Option<Rerank>,
    lexical: Option<&LexicalIndex>,
    p: &SearchParams,
) -> Result<Vec<SearchResult>, SearchError> {
    let scoring = Scoring { dot: dots(index), bm25: term_count, fuse: reciprocal_sum };
    run(index, embed, rerank, lexical, p, scoring)
}

fn files(results: &[SearchResult]) -> Vec<&str> {
    results.iter().map(|r| r.file.as_str()).collect()
}

#[test]
fn lang_filter_matches() {
    let mut p = params();
    p.langs = Some(vec!["rust".into()]);
    assert!(passes_filters(&record("a.rs", "rust"), &p));
    assert!(!passes_filters(&record("a.md", "md"), &p));
}

#[test]
fn path_prefix_matches() {
    let mut p = params();
    p.path_prefix = Some("src/".into());
    assert!(passes_filters(&record("src/a.rs", "rust"), &p));
    assert!(!passes_filters(&record("docs/a.rs", "rust"), &p));
}

#[test]
fn source_filter_matches_web_docs_only() {
    let mut p = params();
    p.source = Some("docs.rs".into());
    let mut web = record("vendor/serde.md", "md");
    web.source = Some("https://docs.rs/serde".into());
    assert!(passes_filters(&web, &p));
    let mut other = record("vendor/tokio.md", "md");
    other.source = Some("https://tokio.rs".into());
    assert!(!passes_filters(&other, &p));
    // A local file (no source) never matches a source filter.
    assert!(!passes_filters(&record("src/a.rs", "rust"), &p));

    let mut corpus = record("vendor/full.md", "md");
    corpus.source = Some("https://site.test/requested-page".into());
    corpus.corpus_source = Some("https://site.test/llms-full.txt".into());
    p.source = Some("llms-full".into());
    assert!(passes_filters(&corpus, &p));
}

#[test]
fn zero_min_score_disables_filtering() {
    assert!(passes_min_score(bits(-0.25), bits(0.0)));
    assert!(!passes_min_score(bits(-0.25), bits(0.1)));
    assert!(passes_min_score(bits(0.5), bits(0.1)));
}

#[test]
fn rrf_dedups_union_and_rewards_agreement() {
    // Record 1 is top of both lists: highest fused score despite neither
    // channel's raw score; record 0 and 2 appear once each.
    let dense = vec![hit(0, 0.9), hit(1, 0.8)];
    let lexical = vec![hit(1, 5.0), hit(2, 4.0)];
    let fused = rrf_fuse(&dense, &lexical, 60, 10, reciprocal_sum);
    assert_eq!(fused.len(), 3, "union deduplicates the shared record");
    assert_eq!(fused[0].idx, 1, "the record both channels rank should win");
    // Fused score for record 1: 1/(60+2) + 1/(60+1); for record 0: 1/(60+1).
    let expect_1 = 1.0 / 62.0 + 1.0 / 61.0;
    assert!((f32::from_bits(fused[0].score.bits) - expect_1).abs() < 1e-6);
}

#[test]
fn within_file_cap_limits_per_file_but_zero_is_unlimited() {
    let a = "src/a.rs";
    let b = "src/b.rs";
    // cap 0: everything passes.
    let mut seen = FileCounts::new();
    assert!(within_file_cap(&mut seen, a, 0));
    assert!(within_file_cap(&mut seen, a, 0));
    // cap 1: the second chunk of the same file is dropped, other files pass.
    let mut seen = FileCounts::new();
    assert!(within_file_cap(&mut seen, a, 1));
    assert!(!within_file_cap(&mut seen, a, 1));
    assert!(within_file_cap(&mut seen, b, 1));
}

#[test]
fn rrf_truncates_union_to_cap_before_rerank() {
    let dense = vec![hit(0, 0.9), hit(1, 0.8), hit(2, 0.7)];
    let lexical = vec![hit(3, 5.0), hit(4, 4.0), hit(5, 3.0)];
    // Six distinct records, but the cap keeps only two for the reranker.
    let fused = rrf_fuse(&dense, &lexical, 60, 2, reciprocal_sum);
    assert_eq!(fused.len(), 2);
}

#[test]
fn bm25_runs_without_an_embedder() {
    let mut index = Index::new("model-that-must-not-load".to_string(), 2, 1);
    let mut first = record("docs/first.md", "md");
    first.text = "alpha retrieval contract".into();
    let mut second = record("docs/second.md", "md");
    second.text = "unrelated material".into();
    index.records = vec![first, second];
    let lexical = LexicalIndex::build(&index.records, true).unwrap();
    let mut p = params();
    p.query = "alpha contract".into();
    p.retrieval = RetrievalMode::Bm25;

    let results = search(&index, None, None, Some(&lexical), &p).unwrap();
    assert_eq!(results[0].file, "docs/first.md");
}

#[test]
fn dense_fails_loudly_without_an_embedder() {
    let index = Index::new("missing".to_string(), 2, 1);
    let error = search(&index, None, None, None, &params()).unwrap_err();
    assert!(error.message().contains("embedding model"));
}

fn sample() -> Index {
    let mut index = Index::new("m".to_string(), 2, 1);
    let rows = [
        ("a.rs", "alpha", [1.0, 0.0]),
        ("b.rs", "beta beta", [0.0, 1.0]),
        ("c.rs", "alpha beta", [0.6, 0.8]),
    ];
    for (file, text, v) in rows {
        let mut r = record(file, "rust");
        r.text = text.into();
        r.vector = vec![bits(v[0]), bits(v[1])];
        index.records.push(r);
    }
    index
}

fn east(_: &String) -> Result<Vec<FloatBits>, String> {
    Ok(vec![bits(1.0), bits(0.0)])
}

#[test]
fn dense_search_ranks_by_dot_product() {
    let index = sample();
    let results = search(&index, Some(east), None, None, &params()).unwrap();
    assert_eq!(files(&results), ["a.rs", "c.rs", "b.rs"]);
    assert_eq!(results[1].score, bits(0.6));
    assert_eq!(results[1].lines, [1, 2]);
    assert_eq!(results[1].snippet, "alpha beta");
}

#[test]
fn hybrid_search_fuses_both_channels() {
    let index = sample();
    let lexical = LexicalIndex::build(&index.records, true).unwrap();
    let mut p = params();
    p.query = "beta".into();
    p.retrieval = RetrievalMode::Hybrid;
    // Dense: a, c, b. Words: b (twice), c.
    let results = search(&index, Some(east), None, Some(&lexical), &p).unwrap();
    assert_eq!(files(&results), ["b.rs", "c.rs", "a.rs"]);
    let expected = 1.0f32 / 63.0 + 1.0 / 61.0;
    assert_eq!(results[0].score, bits(expected));
    // c: second in both lists.
    assert_eq!(results[1].score, bits(1.0f32 / 62.0 + 1.0 / 62.0));
}

#[test]
fn missing_channels_are_errors() {
    let index = sample();
    let mut p = params();
    p.retrieval = RetrievalMode::Bm25;
    let error = search(&index, Some(east), None, None, &p).unwrap_err();
    assert!(matches!(error, SearchError::NoLexicalChannel));
    assert!(error.message().contains("lexical channel"));
    p.retrieval = RetrievalMode::Hybrid;
    let error = search(&index, Some(east), None, None, &p).unwrap_err();
    assert!(matches!(error, SearchError::NoLexicalChannel));
    let lexical = LexicalIndex::build(&index.records, true).unwrap();
    let error = search(&index, None, None, Some(&lexical), &p).unwrap_err();
    assert!(matches!(error, SearchError::NoEmbedder));
}

#[test]
fn failing_models_are_reported() {
    let index = sample();
    let down: Embed = |_| Err("no model".to_string());
    let error = search(&index, Some(down), None, None, &params()).unwrap_err();
    assert!(matches!(&error, SearchError::Embed(e) if e == "no model"));
    let short: Embed = |_| Ok(vec![bits(1.0)]);
    let error = search(&index, Some(short), None, None, &params()).unwrap_err();
    assert!(matches!(error, SearchError::Scan(ScanError::QueryDimension { query: 1, index: 2 })));
    assert_eq!(error.message(), "query dimension 1 does not match index dimension 2");
    let mut p = params();
    p.rerank = true;
    let broken: Rerank = |_, _| Err("reranker".to_string());
    let error = search(&index, Some(east), Some(broken), None, &p).unwrap_err();
    assert!(matches!(&error, SearchError::Rerank(e) if e == "reranker"));
}

#[test]
fn rerankers_reorder_the_candidates() {
    let index = sample();
    let mut p = params();
    p.rerank = true;
    let reverse: Rerank = |query, docs| {
        assert_eq!(query, "q");
        assert_eq!(docs.len(), 3);
        Ok(vec![hit(2, 0.9), hit(0, 0.5)])
    };
    let results = search(&index, Some(east), Some(reverse), None, &p).unwrap();
    assert_eq!(files(&results), ["b.rs", "a.rs"]);
    assert_eq!(results[0].score, bits(0.9));
    p.rerank = false;
    let unused: Rerank = |_, _| panic!("reranking is off");
    let plain = search(&index, Some(east), Some(unused), None, &p).unwrap();
    assert_eq!(files(&plain), ["a.rs", "c.rs", "b.rs"]);
}

#[test]
fn unknown_candidates_are_an_error() {
    let error = apply_ranking(&vec![hit(4, 0.1)], &vec![hit(0, 0.3), hit(1, 0.2)]).unwrap_err();
    assert!(matches!(error, SearchError::UnknownCandidate { position: 1, candidates: 1 }));
    assert_eq!(
        error.message(),
        "reranker returned candidate index 1, but only 1 candidates exist"
    );
    let fine = apply_ranking(&vec![hit(4, 0.1)], &vec![hit(0, 0.3)]).unwrap();
    assert_eq!(fine, [hit(4, 0.3)]);
}

#[test]
fn results_keep_the_score_file_and_count_limits() {
    let mut index = sample();
    index.records.push(record("a.rs", "rust"));
    let ranked = vec![hit(0, 0.9), hit(3, 0.8), hit(1, 0.7), hit(2, 0.1)];
    let mut p = params();
    p.min_score = bits(0.5);
    p.max_per_file = 1;
    let results = select_results(&index, &ranked, &p);
    assert_eq!(files(&results), ["a.rs", "b.rs"]);
    p.min_score = bits(0.0);
    p.max_per_file = 0;
    p.top_k = 10;
    assert_eq!(select_results(&index, &ranked, &p).len(), 4);
    p.top_k = 1;
    assert_eq!(select_results(&index, &ranked, &p).len(), 1);
}

#[test]
fn filters_are_applied_before_the_candidates_are_cut() {
    let mut index = sample();
    index.records[0].lang = "md".into();
    let mut p = params();
    p.retrieve_n = 1;
    p.langs = Some(vec!["rust".into()]);
    let results = search(&index, Some(east), None, None, &p).unwrap();
    assert_eq!(files(&results), ["c.rs"]);
}

#[test]
fn a_result_leads_back_to_its_chunk() {
    let index = sample();
    let results = search(&index, Some(east), None, None, &params()).unwrap();
    for r in &results {
        let found = index.get_by_chunk_id(&r.chunk_id).unwrap();
        assert_eq!(found.text, r.snippet);
        assert_eq!(found.file, r.file);
    }
}

#[test]
fn each_list_adds_its_own_term() {
    let dense = vec![hit(7, 0.9), hit(3, 0.8)];
    let lexical = vec![hit(3, 5.0)];
    let seen = std::cell::RefCell::new(Vec::new());
    rrf_fuse(&dense, &lexical, 10, 5, |terms: &Vec<u128>| {
        seen.borrow_mut().push(terms.clone());
        reciprocal_sum(terms)
    });
    assert_eq!(seen.into_inner(), [vec![11], vec![12, 11]]);
}

#[test]
fn swapping_the_lists_gives_the_same_fusion() {
    let dense = vec![hit(0, 0.9), hit(1, 0.8), hit(2, 0.7)];
    let lexical = vec![hit(3, 5.0), hit(1, 4.0), hit(0, 3.0)];
    let one = rrf_fuse(&dense, &lexical, 60, 10, reciprocal_sum);
    let other = rrf_fuse(&lexical, &dense, 60, 10, reciprocal_sum);
    assert_eq!(one.len(), 4);
    assert_eq!(one, other);
}

#[test]
fn a_huge_constant_flattens_the_ranks() {
    let dense = vec![hit(3, 0.9), hit(1, 0.8)];
    let lexical = vec![hit(1, 5.0), hit(2, 4.0)];
    let seen = std::cell::RefCell::new(Vec::new());
    let note = |terms: &Vec<u128>| {
        seen.borrow_mut().push(terms.clone());
        reciprocal_sum(terms)
    };
    let fused = rrf_fuse(&dense, &lexical, usize::MAX, 10, note);
    assert_eq!(fused.iter().map(|h| h.idx).collect::<Vec<_>>(), [1, 2, 3]);
    let k = usize::MAX as u128;
    assert_eq!(seen.into_inner(), [vec![k + 1], vec![k + 2, k + 1], vec![k + 2]]);
}

#[test]
fn keyword_search_takes_any_fusion_constant() {
    let mut index = Index::new("m".to_string(), 2, 1);
    let mut only = record("docs/first.md", "md");
    only.text = "alpha".into();
    index.records = vec![only];
    let lexical = LexicalIndex::build(&index.records, true).unwrap();
    let mut p = params();
    p.query = "alpha".into();
    p.retrieval = RetrievalMode::Bm25;
    p.rrf_k = usize::MAX;
    assert_eq!(search(&index, None, None, Some(&lexical), &p).unwrap().len(), 1);
}

#[test]
fn only_ranks_count_for_fusion() {
    let dense = vec![hit(0, 0.9), hit(1, 0.8)];
    let lexical = vec![hit(1, 5.0), hit(2, 4.0)];
    let flat = vec![hit(0, 0.0), hit(1, 0.0)];
    let wild = vec![hit(1, -7.0), hit(2, 100.0)];
    let fused = rrf_fuse(&dense, &lexical, 60, 10, reciprocal_sum);
    assert_eq!(rrf_fuse(&flat, &wild, 60, 10, reciprocal_sum), fused);
}
