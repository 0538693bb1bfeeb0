use rag_bone::chunk::{chunk_file, cut_spans, ChunkError, Grammar, Lang, Span};
use rag_bone::config::ChunkConfig;

fn cfg() -> ChunkConfig {
    ChunkConfig { max_chars: 200, overlap: 0 }
}

#[test]
fn lang_from_extension() {
    assert_eq!(Lang::from_path("a/b.rs"), Some(Lang::Rust));
    assert_eq!(Lang::from_path("README.md"), Some(Lang::Markdown));
    assert_eq!(Lang::from_path("x.unknownext"), None);
}

#[test]
fn rust_chunks_have_line_spans() {
    let src = "fn a() {\n    1\n}\n\nfn b() {\n    2\n}\n";
    let chunks = chunk_file(src, Lang::Rust, &cfg()).unwrap();
    assert!(!chunks.is_empty());
    assert_eq!(chunks[0].start_line, 1);
    assert!(chunks.iter().all(|c| c.end_line >= c.start_line));
}

#[test]
fn markdown_splits_within_budget() {
    let md = "# Title\n\nPara one.\n\n## Section\n\nPara two is here.\n";
    let chunks = chunk_file(md, Lang::Markdown, &cfg()).unwrap();
    assert!(!chunks.is_empty());
}

#[test]
fn oversized_budget_yields_single_chunk() {
    let src = "fn tiny() {}\n";
    let big = ChunkConfig { max_chars: 10_000, overlap: 0 };
    let chunks = chunk_file(src, Lang::Rust, &big).unwrap();
    assert_eq!(chunks.len(), 1);
    assert_eq!(chunks[0].start_line, 1);
}

#[test]
fn extensions_are_read_in_any_case_and_only_from_the_name() {
    assert_eq!(Lang::from_path("a/B.RS"), Some(Lang::Rust));
    assert_eq!(Lang::from_path("dir.rs/readme"), None);
    assert_eq!(Lang::from_path(".rs"), None);
    assert_eq!(Lang::from_path("a.tar.md"), Some(Lang::Markdown));
    assert_eq!(Lang::from_path("lib.hpp"), Some(Lang::Cpp));
    assert_eq!(Lang::from_path("lib.h"), Some(Lang::C));
    assert_eq!(Lang::from_path("notes.adoc"), Some(Lang::Text));
}

#[test]
fn names_and_grammars_of_languages() {
    assert_eq!(Lang::Markdown.name(), "md");
    assert_eq!(Lang::TypeScript.name(), "typescript");
    assert_eq!(Lang::Go.grammar(), Some(Grammar::Go));
    assert_eq!(Lang::Markdown.grammar(), None);
    assert_eq!(Lang::Text.grammar(), None);
}

#[test]
fn text_is_cut_where_the_text_splitter_cuts() {
    let s = "one two three\nfour five six\n\nseven \u{e9}ight nine";
    let small = ChunkConfig { max_chars: 12, overlap: 3 };
    let config = text_splitter::ChunkConfig::new(12).with_overlap(3).unwrap();
    let splitter = text_splitter::TextSplitter::new(config);
    let expected: Vec<(usize, &str)> = splitter.chunk_indices(s).collect();
    let chunks = chunk_file(s, Lang::Text, &small).unwrap();
    assert!(chunks.len() > 2);
    assert_eq!(chunks.len(), expected.len());
    for (c, (start, part)) in chunks.iter().zip(expected) {
        assert_eq!(c.start_byte, start);
        assert_eq!(c.end_byte, start + part.len());
        assert_eq!(c.text, part);
    }
    // Overlapping chunks still end one behind the other.
    assert!(chunks.windows(2).all(|w| w[0].end_byte < w[1].end_byte));
    assert!(chunks.iter().all(|c| c.start_byte < c.end_byte));
    assert!(chunks.windows(2).all(|w| w[0].start_byte <= w[1].start_byte));
    assert!(chunks.iter().all(|c| c.text.chars().count() <= 12));
}

#[test]
fn markdown_is_cut_where_the_markdown_splitter_cuts() {
    let s = "# Title\n\nPara one is long.\n\n## Section\n\nPara two is long too.\n";
    let small = ChunkConfig { max_chars: 25, overlap: 0 };
    let splitter = text_splitter::MarkdownSplitter::new(text_splitter::ChunkConfig::new(25));
    let expected: Vec<(usize, &str)> = splitter.chunk_indices(s).collect();
    let chunks = chunk_file(s, Lang::Markdown, &small).unwrap();
    assert!(chunks.len() > 1);
    let found: Vec<(usize, &str)> = chunks.iter().map(|c| (c.start_byte, c.text.as_str())).collect();
    assert_eq!(found, expected);
}

#[test]
fn code_is_cut_on_function_boundaries() {
    let src = "fn first() {\n    1\n}\n\nfn second() {\n    2\n}\n";
    let small = ChunkConfig { max_chars: 26, overlap: 0 };
    let chunks = chunk_file(src, Lang::Rust, &small).unwrap();
    assert_eq!(chunks.len(), 2);
    assert_eq!(chunks[0].text, "fn first() {\n    1\n}");
    assert_eq!((chunks[0].start_line, chunks[0].end_line), (1, 3));
    assert_eq!(chunks[1].text, "fn second() {\n    2\n}");
    assert_eq!((chunks[1].start_line, chunks[1].end_line), (5, 7));
}

#[test]
fn overlap_as_large_as_the_budget_is_an_error() {
    let bad = ChunkConfig { max_chars: 10, overlap: 10 };
    assert_eq!(chunk_file("text", Lang::Text, &bad).unwrap_err(), ChunkError::OverlapTooLarge);
    assert_eq!(ChunkError::OverlapTooLarge.message(), "chunk overlap must be smaller than max_chars");
    assert_eq!(ChunkError::NoCodeSplitter.message(), "building code splitter");
}

#[test]
fn spans_are_cut_with_their_lines() {
    let s = "a\nb\u{fc}\nc";
    let chunks = cut_spans(s, &vec![Span { start: 2, len: 4 }, Span { start: 0, len: 0 }]);
    assert_eq!(chunks[0].text, "b\u{fc}\n");
    assert_eq!((chunks[0].start_line, chunks[0].end_line), (2, 3));
    assert_eq!(chunks[1].text, "");
    assert_eq!((chunks[1].start_line, chunks[1].end_line), (1, 1));
    assert!(chunks.iter().all(|c| 1 <= c.start_line && c.start_line <= c.end_line));
}

#[test]
fn chunks_without_overlap_share_no_byte() {
    let src = "    fn first() {\n        1\n    }\n\n\n  fn second() {\n    2\n}\n# h\n\n  - a\n    b\n";
    for lang in [Lang::Rust, Lang::Markdown, Lang::Text, Lang::Python] {
        for max_chars in 1..40 {
            let cfg = ChunkConfig { max_chars, overlap: 0 };
            let chunks = chunk_file(src, lang, &cfg).unwrap();
            assert!(chunks.windows(2).all(|w| w[0].end_byte <= w[1].start_byte));
            assert!(chunks.iter().all(|c| c.text.chars().count() <= max_chars));
            assert!(chunks.iter().all(|c| src[c.start_byte..c.end_byte] == *c.text));
        }
    }
}
