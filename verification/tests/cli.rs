use rag_bone::cli::{
    batch_query, build_lexical, context_range, eval_opts, limit_of, mode_of, needs_embedder,
    read_with_context, reranker_of, search_params, with_overrides, Cli, Command, SearchOptions,
    ZeroLimit,
};
use rag_bone::config::{Config, RetrievalMode};
use rag_bone::float::FloatBits;
use rag_bone::store::{Index, Record};

fn options() -> SearchOptions {
    SearchOptions {
        limit: None,
        no_rerank: false,
        reranker: None,
        retrieval: None,
        lang: None,
        path_prefix: None,
        source: None,
    }
}

fn record(start_line: usize, end_line: usize) -> Record {
    Record {
        file: "a.rs".into(),
        lang: "rust".into(),
        start_line,
        end_line,
        chunk_id: "1-a".into(),
        symbol: None,
        kind: None,
        parent: None,
        signature: None,
        headings: Vec::new(),
        source: None,
        corpus_source: None,
        fetched: None,
        embedding_key: 0,
        text: "text".into(),
        vector: vec![FloatBits { bits: 0 }],
    }
}

#[test]
fn the_config_file_has_a_default() {
    let cli = Cli { config: None, command: Command::Status };
    assert_eq!(cli.config_path(), ".rag-bone.toml");
    let cli = Cli { config: Some("x/y.toml".into()), command: Command::Status };
    assert_eq!(cli.config_path(), "x/y.toml");
}

#[test]
fn both_searches_have_options() {
    let batch = Command::SearchBatch {
        limit: Some(2),
        compact: true,
        no_rerank: true,
        reranker: None,
        retrieval: Some(RetrievalMode::Dense),
        lang: Some(vec!["rust".into(), "md".into()]),
        path_prefix: Some("src/".into()),
        source: None,
    };
    let o = batch.search_options().unwrap();
    assert_eq!(o.limit, Some(2));
    assert_eq!(o.lang.unwrap(), ["rust", "md"]);
    assert_eq!(o.path_prefix.as_deref(), Some("src/"));
    assert!(Command::Status.search_options().is_none());
}

#[test]
fn calls_override_the_configured_sources_and_model() {
    let cfg = with_overrides(Config::default(), vec!["./x".into()], Some("m".into()));
    assert_eq!(cfg.sources, ["./x"]);
    assert_eq!(cfg.model, "m");
    let same = with_overrides(Config::default(), Vec::new(), None);
    assert_eq!(same.sources, Config::default().sources);
    assert_eq!(same.model, Config::default().model);
}

#[test]
fn search_parameters_come_from_settings_and_options() {
    let cfg = Config { rerank: true, ..Config::default() };
    let p = search_params(&cfg, &options(), "what").unwrap();
    assert_eq!((p.query.as_str(), p.top_k, p.retrieve_n), ("what", 3, 30));
    assert!(p.rerank);
    assert_eq!(p.retrieval, RetrievalMode::Hybrid);
    let o = SearchOptions {
        limit: Some(50),
        no_rerank: true,
        retrieval: Some(RetrievalMode::Bm25),
        lang: Some(vec!["md".into()]),
        source: Some("docs.rs".into()),
        ..options()
    };
    let p = search_params(&cfg, &o, "what").unwrap();
    assert_eq!((p.top_k, p.retrieve_n), (50, 50));
    assert!(!p.rerank);
    assert_eq!(p.retrieval, RetrievalMode::Bm25);
    assert_eq!(p.langs.unwrap(), ["md"]);
    assert_eq!(p.source.as_deref(), Some("docs.rs"));
    let none = search_params(&cfg, &SearchOptions { limit: Some(0), ..options() }, "what");
    assert_eq!(none.err(), Some(ZeroLimit));
    assert_eq!(limit_of(&cfg, Some(0)), Err(ZeroLimit));
}

#[test]
fn models_are_loaded_only_where_they_are_needed() {
    let cfg = Config::default();
    assert_eq!(mode_of(&cfg, None), RetrievalMode::Hybrid);
    assert!(needs_embedder(RetrievalMode::Hybrid));
    assert!(!needs_embedder(RetrievalMode::Bm25));
    assert_eq!(reranker_of(&cfg, false, &Some("x".into())), None);
    let on = Config { rerank: true, ..Config::default() };
    assert_eq!(reranker_of(&on, false, &None).as_deref(), Some("ms-marco-MiniLM-L6-v2"));
    assert_eq!(reranker_of(&on, false, &Some("x".into())).as_deref(), Some("x"));
    assert_eq!(reranker_of(&on, true, &None), None);
}

#[test]
fn the_lexical_channel_is_built_where_it_is_needed() {
    let mut index = Index::new("m".to_string(), 1, 1);
    assert!(build_lexical(&index, RetrievalMode::Dense, true).unwrap().is_none());
    assert!(build_lexical(&index, RetrievalMode::Hybrid, true).is_err());
    index.records.push(record(1, 1));
    let lex = build_lexical(&index, RetrievalMode::Bm25, false).unwrap().unwrap();
    assert_eq!(lex.doc_count(), 1);
}

#[test]
fn blank_lines_of_a_batch_are_no_queries() {
    assert_eq!(batch_query("  how so \n").as_deref(), Some("how so"));
    assert_eq!(batch_query(" \t"), None);
}

#[test]
fn evaluations_need_a_cutoff() {
    let cfg = Config { rerank: true, ..Config::default() };
    let o = eval_opts(&cfg, 5, true, Some(RetrievalMode::Dense)).unwrap();
    assert_eq!((o.k, o.retrieve_n, o.rerank, o.rrf_k), (5, 30, false, 60));
    assert_eq!(o.retrieval, RetrievalMode::Dense);
    assert_eq!(eval_opts(&cfg, 0, false, None).err(), Some(ZeroLimit));
}

#[test]
fn context_is_clamped_to_the_file() {
    let content = "1\n2\n3\n4\n5\n6\n";
    let (lines, text) = read_with_context(&record(3, 4), content, 1);
    assert_eq!((lines, text.as_str()), ([2, 5], "2\n3\n4\n5"));
    let (lines, text) = read_with_context(&record(2, 6), content, 100);
    assert_eq!((lines, text.as_str()), ([1, 6], "1\n2\n3\n4\n5\n6"));
    assert_eq!(context_range(&record(9, 9), 1, 6), None);
    assert_eq!(context_range(&record(8, 9), 1, 6), None);
    assert_eq!(context_range(&record(3, 4), 1, 6), Some([2, 5]));
    assert_eq!(context_range(&record(3, 4), usize::MAX, 6), Some([1, 6]));
}

#[test]
fn a_file_that_became_too_short_gives_the_stored_chunk() {
    let mut stale = record(10, 12);
    stale.text = "as it was".into();
    let (lines, text) = read_with_context(&stale, "a\n", 1);
    assert_eq!((lines, text.as_str()), ([10, 12], "as it was"));
    let (lines, text) = read_with_context(&stale, &"x\n".repeat(8), 1);
    assert_eq!((lines, text.as_str()), ([10, 12], "as it was"));
    let (lines, text) = read_with_context(&stale, &"x\n".repeat(9), 1);
    assert_eq!((lines, text.as_str()), ([9, 9], "x"));
    let (lines, text) = read_with_context(&stale, "", 1);
    assert_eq!((lines, text.as_str()), ([10, 12], "as it was"));
}
