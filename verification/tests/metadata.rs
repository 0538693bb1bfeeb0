use rag_bone::chunk::Lang;
use rag_bone::metadata::{
    chunk_id, def_kind, embedding_key, frontmatter_provenance, is_container, markdown_headings,
    parse_atx_heading, ranking_text, signature_line, truncate_chars, unquote, ChunkMeta,
    FileAnalysis, Provenance,
};

#[test]
fn reads_source_and_fetched_from_frontmatter() {
    let md = "---\nsource: https://docs.rs/serde\ncorpus_source: https://docs.rs/llms-full.txt\ndepth: llms\nfetched: 2026-07-19T10:00:00Z\ngenerated_by: search2md-rs\n---\n# Serde\nbody";
    let p = frontmatter_provenance(md);
    assert_eq!(p.source.as_deref(), Some("https://docs.rs/serde"));
    assert_eq!(p.corpus_source.as_deref(), Some("https://docs.rs/llms-full.txt"));
    assert_eq!(p.fetched.as_deref(), Some("2026-07-19T10:00:00Z"));
}

#[test]
fn absent_without_block_and_unquotes_values() {
    assert_eq!(
        frontmatter_provenance("# Heading\nno frontmatter"),
        Provenance::default()
    );
    let q = frontmatter_provenance("---\nsource: \"https://x.y/z\"\n---\n");
    assert_eq!(q.source.as_deref(), Some("https://x.y/z"));
    assert_eq!(q.corpus_source, None);
    assert_eq!(q.fetched, None);
}

/// Metadata for the chunk whose text is `needle` (found by byte offset).
fn meta_at(src: &str, lang: Lang, needle: &str) -> ChunkMeta {
    let start = src.find(needle).expect("needle present");
    FileAnalysis::new(src, lang).meta_for(start, start + needle.len())
}

#[test]
fn rust_function_symbol_and_signature() {
    let src = "pub fn save(&self, path: &Path) -> Result<()> {\n    ok()\n}\n";
    let m = meta_at(src, Lang::Rust, "ok()");
    assert_eq!(m.symbol.as_deref(), Some("save"));
    assert_eq!(m.kind.as_deref(), Some("function"));
    assert_eq!(
        m.signature.as_deref(),
        Some("pub fn save(&self, path: &Path) -> Result<()>")
    );
}

#[test]
fn rust_method_has_impl_parent() {
    let src = "impl Index {\n    fn save(&self) -> u8 {\n        1\n    }\n}\n";
    let m = meta_at(src, Lang::Rust, "1");
    assert_eq!(m.symbol.as_deref(), Some("save"));
    assert_eq!(m.parent.as_deref(), Some("impl Index"));
}

#[test]
fn rust_multiline_signature_collapses() {
    let src = "fn wide(\n    a: i32,\n    b: i32,\n) -> i32 {\n    a\n}\n";
    let m = meta_at(src, Lang::Rust, "a\n}");
    assert_eq!(m.signature.as_deref(), Some("fn wide( a: i32, b: i32, ) -> i32"));
}

#[test]
fn python_class_and_method() {
    let src = "class Foo:\n    def bar(self):\n        return 1\n";
    let m = meta_at(src, Lang::Python, "return 1");
    assert_eq!(m.symbol.as_deref(), Some("bar"));
    assert_eq!(m.kind.as_deref(), Some("function"));
    assert_eq!(m.parent.as_deref(), Some("class Foo"));
}

#[test]
fn typescript_interface() {
    let src = "interface Shape {\n  area(): number;\n}\n";
    let m = meta_at(src, Lang::TypeScript, "area");
    assert_eq!(m.symbol.as_deref(), Some("Shape"));
    assert_eq!(m.kind.as_deref(), Some("interface"));
}

#[test]
fn go_function() {
    let src = "func Add(a int, b int) int {\n\treturn a + b\n}\n";
    let m = meta_at(src, Lang::Go, "return a");
    assert_eq!(m.symbol.as_deref(), Some("Add"));
    assert_eq!(m.kind.as_deref(), Some("function"));
}

#[test]
fn java_method_in_class() {
    let src = "class C {\n  int add(int a) {\n    return a;\n  }\n}\n";
    let m = meta_at(src, Lang::Java, "return a");
    assert_eq!(m.symbol.as_deref(), Some("add"));
    assert_eq!(m.kind.as_deref(), Some("method"));
    assert_eq!(m.parent.as_deref(), Some("class C"));
}

#[test]
fn c_function_name_in_declarator() {
    let src = "int add(int a, int b) {\n    return a + b;\n}\n";
    let m = meta_at(src, Lang::C, "return a");
    assert_eq!(m.symbol.as_deref(), Some("add"));
    assert_eq!(m.kind.as_deref(), Some("function"));
}

#[test]
fn cpp_struct() {
    let src = "struct Point {\n    int x;\n    int y;\n};\n";
    let m = meta_at(src, Lang::Cpp, "int x");
    assert_eq!(m.symbol.as_deref(), Some("Point"));
    assert_eq!(m.kind.as_deref(), Some("struct"));
}

#[test]
fn chunk_spanning_two_functions_has_no_symbol() {
    let src = "fn a() {}\nfn b() {}\n";
    // Span both top-level functions: common ancestor is the source file.
    let m = FileAnalysis::new(src, Lang::Rust).meta_for(0, src.len());
    assert_eq!(m.symbol, None);
    assert_eq!(m.kind, None);
}

#[test]
fn parse_error_degrades_to_empty() {
    let src = "fn broken( { { { unterminated";
    let m = FileAnalysis::new(src, Lang::Rust).meta_for(0, src.len());
    // No panic, no wrong symbol, worst case an absent field.
    assert!(m.headings.is_empty());
}

#[test]
fn markdown_breadcrumb_is_ancestor_headings() {
    let src = "# Title\n\nintro\n\n## Section\n\nbody text here\n";
    let m = meta_at(src, Lang::Markdown, "body text here");
    assert_eq!(m.headings, vec!["Title".to_string(), "Section".to_string()]);
}

#[test]
fn markdown_sibling_heading_replaces_same_level() {
    let src = "# A\n\n## One\n\nx\n\n## Two\n\nlast body\n";
    let m = meta_at(src, Lang::Markdown, "last body");
    assert_eq!(m.headings, vec!["A".to_string(), "Two".to_string()]);
}

#[test]
fn ranking_text_omits_absent_fields() {
    let meta = ChunkMeta {
        symbol: Some("save".into()),
        kind: Some("method".into()),
        parent: Some("impl Index".into()),
        signature: Some("fn save(&self)".into()),
        headings: Vec::new(),
    };
    let rt = ranking_text("src/store.rs", Lang::Rust, &meta, "body");
    assert_eq!(
        rt,
        "path: src/store.rs\nlanguage: rust\nsymbol: save\nkind: method\nparent: impl Index\nsignature: fn save(&self)\n---\nbody"
    );
}

#[test]
fn ranking_text_prose_has_only_path_lang_section() {
    let meta = ChunkMeta {
        headings: vec!["Guide".into(), "Setup".into()],
        ..ChunkMeta::default()
    };
    let rt = ranking_text("docs/g.md", Lang::Markdown, &meta, "text");
    assert_eq!(
        rt,
        "path: docs/g.md\nlanguage: md\nsection: Guide > Setup\n---\ntext"
    );
}

#[test]
fn chunk_id_is_deterministic_and_versioned() {
    let a = chunk_id("src/a.rs", Lang::Rust, 0, 20, "code");
    let b = chunk_id("src/a.rs", Lang::Rust, 0, 20, "code");
    assert_eq!(a, b);
    assert!(a.starts_with("1-"));
    // Any identifying field change flips the id.
    assert_ne!(a, chunk_id("src/a.rs", Lang::Rust, 0, 21, "code"));
    assert_ne!(a, chunk_id("src/a.rs", Lang::Rust, 5, 20, "code"));
    assert_ne!(a, chunk_id("src/b.rs", Lang::Rust, 0, 20, "code"));
    assert_ne!(a, chunk_id("src/a.rs", Lang::Rust, 0, 20, "other"));
}

#[test]
fn embedding_key_ignores_line_span_but_tracks_text_and_fingerprint() {
    let rt = ranking_text("src/a.rs", Lang::Rust, &ChunkMeta::default(), "body");
    assert_eq!(embedding_key(7, &rt), embedding_key(7, &rt));
    assert_ne!(embedding_key(7, &rt), embedding_key(8, &rt));
    let rt2 = ranking_text("src/a.rs", Lang::Rust, &ChunkMeta::default(), "other");
    assert_ne!(embedding_key(7, &rt), embedding_key(7, &rt2));
}

#[test]
fn ids_and_keys_are_the_documented_hashes() {
    let h = xxhash_rust::xxh3::xxh3_128("src/a.rs\0rust\00\020\0code".as_bytes());
    assert_eq!(chunk_id("src/a.rs", Lang::Rust, 0, 20, "code"), format!("1-{h:032x}"));
    let mut bytes = 7u64.to_le_bytes().to_vec();
    bytes.extend_from_slice("text".as_bytes());
    assert_eq!(embedding_key(7, "text"), xxhash_rust::xxh3::xxh3_64(&bytes));
}

#[test]
fn frontmatter_ends_where_it_says() {
    let late = frontmatter_provenance("---\nfetched: 'today'\n---\nsource: https://x\n");
    assert_eq!(late.fetched.as_deref(), Some("today"));
    assert_eq!(late.source, None);
    let windows = frontmatter_provenance("---\r\nsource: https://x\r\n---\r\n");
    assert_eq!(windows.source.as_deref(), Some("https://x"));
    let empty = frontmatter_provenance("---\nsource:\n---\n");
    assert_eq!(empty.source.as_deref(), Some(""));
}

#[test]
fn quotes_are_taken_off_in_pairs() {
    assert_eq!(unquote(" \"a b\" "), "a b");
    assert_eq!(unquote("'x'"), "x");
    assert_eq!(unquote("\"x'"), "\"x'");
    assert_eq!(unquote("\""), "\"");
    assert_eq!(unquote("\"\""), "");
}

#[test]
fn headings_are_read_by_their_marks() {
    let h = parse_atx_heading("## Setup ##").unwrap();
    assert_eq!((h.level, h.title.as_str()), (2, "Setup"));
    assert!(parse_atx_heading("####### deep").is_none());
    assert!(parse_atx_heading("#nospace").is_none());
    assert!(parse_atx_heading("plain").is_none());
}

#[test]
fn breadcrumbs_nest_and_skip_code_of_other_levels() {
    let src = "# A\n### Deep\ntext\n## B\nmore\n";
    assert_eq!(markdown_headings(src, src.find("text").unwrap()), ["A", "Deep"]);
    assert_eq!(markdown_headings(src, src.find("more").unwrap()), ["A", "B"]);
    assert_eq!(markdown_headings(src, 0), Vec::<String>::new());
}

#[test]
fn signatures_are_cut_at_the_body_and_collapsed() {
    assert_eq!(signature_line("fn a(\n  x: u8,\n) {\n}").as_deref(), Some("fn a( x: u8, )"));
    assert_eq!(signature_line("  \n ").as_deref(), None);
    assert_eq!(truncate_chars("h\u{e9}llo", 2), "h\u{e9}");
    assert_eq!(truncate_chars("abc", 9), "abc");
}

#[test]
fn kinds_of_definitions() {
    assert_eq!(def_kind("function_item"), Some("function"));
    assert_eq!(def_kind("class_specifier"), Some("class"));
    assert_eq!(def_kind("let_declaration"), None);
    assert!(is_container("impl"));
    assert!(!is_container("function"));
}

#[test]
fn prose_and_empty_files_have_no_symbols() {
    let m = FileAnalysis::new("just text", Lang::Text).meta_for(0, 4);
    assert_eq!(m, ChunkMeta::default());
    let m = FileAnalysis::new("", Lang::Rust).meta_for(0, 0);
    assert_eq!(m, ChunkMeta::default());
    let src = "fn a() {}\n";
    let past = FileAnalysis::new(src, Lang::Rust).meta_for(900, 901);
    assert_eq!(past.headings, Vec::<String>::new());
}

#[test]
fn a_chunk_does_not_list_its_own_heading() {
    assert_eq!(markdown_headings(" # T\nx", 1), Vec::<String>::new());
    assert_eq!(markdown_headings(" # T\nx", 2), ["T"]);
    assert_eq!(markdown_headings(" # T\nx", 5), ["T"]);
    assert_eq!(markdown_headings("# A\n \u{a0} ## B\nx", 8), ["A"]);
    assert_eq!(markdown_headings("# A\n \u{a0} ## B\nx", 9), ["A", "B"]);
}

#[test]
fn signatures_are_capped_in_bytes() {
    let wide = signature_line(&"\u{e9}".repeat(201)).unwrap();
    assert_eq!(wide, "\u{e9}".repeat(100));
    let odd = signature_line(&format!("a{}", "\u{e9}".repeat(201))).unwrap();
    assert_eq!(odd, format!("a{}", "\u{e9}".repeat(99)));
    assert_eq!(signature_line(&"x".repeat(200)).unwrap().len(), 200);
    assert_eq!(signature_line(&"x".repeat(201)).unwrap().len(), 200);
    let spaced = signature_line(&format!("fn  f(\n\t{}) {{ body }}", "y: u8, ".repeat(40))).unwrap();
    assert!(spaced.starts_with("fn f( y: u8, y"));
    assert!(spaced.len() <= 200 && !spaced.contains("  ") && !spaced.contains(['\n', '{']));
}

#[test]
fn nothing_behind_the_block_counts() {
    let block = "source: https://a\n source: indented\nother: x\nsource: https://b\n";
    for opening in ["---\n", "---\r\n"] {
        let alone = frontmatter_provenance(&format!("{opening}{block}---\n"));
        assert_eq!(alone.source.as_deref(), Some("https://b"));
        assert_eq!((alone.corpus_source.as_deref(), alone.fetched.as_deref()), (None, None));
        let more = format!("{opening}{block}---\nsource: https://c\nfetched: now\n---\n");
        assert_eq!(frontmatter_provenance(&more), alone);
    }
    assert_eq!(frontmatter_provenance(" ---\nsource: x\n---\n"), Provenance::default());
}
