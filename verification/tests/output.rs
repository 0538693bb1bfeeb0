use rag_bone::float::FloatBits;
use rag_bone::index::Stats;
use rag_bone::output::{
    cache_line, catalog_line, compact_line, full_heading, indented_lines, ingest_line, preview,
    record_line, CompactResult, RecordMeta, PREVIEW_CHARS,
};
use rag_bone::search::SearchResult;
use rag_bone::store::{CatalogEntry, Record};

fn result() -> SearchResult {
    SearchResult {
        chunk_id: "1-abc".into(),
        file: "src/main.rs".into(),
        lang: "rust".into(),
        symbol: Some("main".into()),
        kind: Some("function".into()),
        headings: Vec::new(),
        source: None,
        corpus_source: None,
        fetched: None,
        lines: [1, 2],
        score: FloatBits { bits: 0.5f32.to_bits() },
        snippet: "fn main() {}\n    body".into(),
    }
}

fn record() -> Record {
    Record {
        file: "docs/g.md".into(),
        lang: "md".into(),
        start_line: 3,
        end_line: 9,
        chunk_id: "1-def".into(),
        symbol: None,
        kind: None,
        parent: None,
        signature: None,
        headings: vec!["Guide".into(), "Setup".into()],
        source: Some("https://x.y".into()),
        corpus_source: None,
        fetched: None,
        embedding_key: 0,
        text: "text".into(),
        vector: Vec::new(),
    }
}

#[test]
fn preview_uses_first_non_empty_line_and_truncates() {
    assert_eq!(preview("\n\n  hello world  \nmore"), "hello world");
    let long = "x".repeat(250);
    let p = preview(&long);
    assert!(p.ends_with('…'));
    assert_eq!(p.chars().count(), PREVIEW_CHARS + 1);
}

#[test]
fn previews_of_nothing_and_of_exactly_the_limit() {
    assert_eq!(preview(""), "");
    assert_eq!(preview(" \n\t\n"), "");
    let exact = "\u{e9}".repeat(PREVIEW_CHARS);
    assert_eq!(preview(&exact), exact);
}

#[test]
fn compact_results_have_a_preview_in_place_of_the_snippet() {
    let c = CompactResult::from(&result());
    assert_eq!(c.chunk_id, "1-abc");
    assert_eq!(c.preview, "fn main() {}");
    assert_eq!(c.lines, [1, 2]);
    assert_eq!(c.symbol.as_deref(), Some("main"));
}

#[test]
fn lines_for_people() {
    let mut r = result();
    assert_eq!(
        compact_line(&r, "0.500"),
        "1-abc  src/main.rs:1-2  (score 0.500)  main  fn main() {}"
    );
    assert_eq!(full_heading(&r, "0.500"), "src/main.rs:1-2  (score 0.500, rust)");
    r.symbol = None;
    assert_eq!(compact_line(&r, "0.500"), "1-abc  src/main.rs:1-2  (score 0.500)  fn main() {}");
    assert_eq!(indented_lines("a\n\nb"), ["    a", "    ", "    b"]);
}

#[test]
fn record_lines_name_symbol_or_section() {
    let mut r = record();
    assert_eq!(record_line(&r), "1-def  docs/g.md:3-9  Guide > Setup");
    r.symbol = Some("run".into());
    r.kind = Some("function".into());
    r.signature = Some("fn run()".into());
    assert_eq!(record_line(&r), "1-def  docs/g.md:3-9  function  run  fn run()");
    let m = RecordMeta::from(&r);
    assert_eq!(m.lines, [3, 9]);
    assert_eq!(m.headings, ["Guide", "Setup"]);
    assert_eq!(m.source.as_deref(), Some("https://x.y"));
}

#[test]
fn catalog_lines_name_the_corpus_only_where_it_differs() {
    let mut e = CatalogEntry {
        source: "https://x.y".into(),
        corpus_source: Some("https://x.y".into()),
        fetched: None,
        files: 2,
        chunks: 7,
    };
    assert_eq!(catalog_line(&e), "https://x.y  (2 files, 7 chunks, fetched \u{2014})");
    e.corpus_source = Some("https://x.y/all.txt".into());
    e.fetched = Some("today".into());
    assert_eq!(
        catalog_line(&e),
        "https://x.y  (2 files, 7 chunks, fetched today, corpus https://x.y/all.txt)"
    );
}

#[test]
fn ingest_lines_sum_up_a_run() {
    let stats = Stats { files_indexed: 12, chunks: 90, files_skipped: 3, ..Stats::default() };
    assert_eq!(
        ingest_line(&stats, "p/index.bin"),
        "indexed 12 files (90 chunks), skipped 3, failed 0, pruned 0 \u{2192} p/index.bin"
    );
    assert_eq!(cache_line(&stats), None);
    let cached = Stats { cache_hits: 80, cache_misses: 10, ..stats };
    assert_eq!(cache_line(&cached).as_deref(), Some("embedding cache: 80 hits, 10 misses"));
}
