use rag_bone::float::FloatBits;
use rag_bone::lexical::{camel_split, structural_fields, tokenize, DocMatch, EmptyChannel, LexicalIndex};
use rag_bone::store::{Hit, Record};

fn bits(x: f32) -> FloatBits {
    FloatBits { bits: x.to_bits() }
}

fn rec(file: &str, symbol: Option<&str>, text: &str) -> Record {
    Record {
        file: file.to_string(),
        lang: "rust".into(),
        start_line: 1,
        end_line: 2,
        chunk_id: format!("1-{file}-{text}"),
        symbol: symbol.map(String::from),
        kind: symbol.map(|_| "function".to_string()),
        parent: None,
        signature: symbol.map(|s| format!("fn {s}()")),
        headings: Vec::new(),
        source: None,
        corpus_source: None,
        fetched: None,
        embedding_key: 0,
        text: text.into(),
        vector: vec![bits(1.0), bits(0.0)],
    }
}

fn bm25(lex: &LexicalIndex) -> impl Fn(&DocMatch) -> FloatBits {
    let total: f32 = lex.doc_lens().iter().map(|l| *l as f32).sum();
    let avgdl = total / lex.doc_count() as f32;
    move |m: &DocMatch| {
        let mut score = 0.0f32;
        for t in &m.terms {
            let n = m.doc_count as f32;
            let df = t.df as f32;
            let tf = t.tf as f32;
            let idf = (1.0 + (n - df + 0.5) / (df + 0.5)).ln();
            let norm = 1.2 * (1.0 - 0.75 + 0.75 * m.doc_len as f32 / avgdl);
            score += idf * (tf * 2.2) / (tf + norm);
        }
        bits(score)
    }
}

fn search(lex: &LexicalIndex, query: &str, n: usize, allowed: impl Fn(usize) -> bool) -> Vec<Hit> {
    lex.search(query, n, allowed, bm25(lex))
}

#[test]
fn tokenize_keeps_whole_identifier_and_parts() {
    let t = tokenize("search_document");
    assert!(t.contains(&"search_document".to_string()));
    assert!(t.contains(&"search".to_string()));
    assert!(t.contains(&"document".to_string()));
}

#[test]
fn tokenize_splits_camel_case_and_acronyms() {
    let t = tokenize("HTTPServer fooBar");
    assert!(t.contains(&"http".to_string()));
    assert!(t.contains(&"server".to_string()));
    assert!(t.contains(&"foo".to_string()));
    assert!(t.contains(&"bar".to_string()));
    assert!(t.contains(&"httpserver".to_string()));
}

#[test]
fn tokenize_splits_path_and_scope_separators() {
    let t = tokenize("src/store.rs Index::save");
    for expected in ["src", "store", "rs", "index", "save"] {
        assert!(t.contains(&expected.to_string()), "missing {expected}");
    }
}

#[test]
fn tokenize_keeps_versioned_identifier_whole() {
    // Digits stay attached: no `bm`, `25` split.
    let t = tokenize("bm25 utf8");
    assert!(t.contains(&"bm25".to_string()));
    assert!(t.contains(&"utf8".to_string()));
    assert!(!t.contains(&"bm".to_string()));
}

#[test]
fn single_word_identifier_is_not_duplicated() {
    // `save` == its only sub-token, so it appears exactly once (tf stays 1).
    let t = tokenize("save");
    assert_eq!(t.iter().filter(|w| *w == "save").count(), 1);
}

#[test]
fn bm25_ranks_exact_symbol_match_first() {
    let records = vec![
        rec("src/edit.rs", Some("edit_file"), "apply an edit to a file"),
        rec("src/write.rs", Some("write_file"), "write a new file to disk"),
        rec("src/read.rs", Some("read_file"), "read a file from disk"),
    ];
    let lex = LexicalIndex::build(&records, true).unwrap();
    let hits = search(&lex, "write_file", 3, |_| true);
    assert_eq!(hits[0].idx, 1, "write.rs should rank first for write_file");
}

#[test]
fn search_respects_the_filter_predicate() {
    let records = vec![
        rec("src/write.rs", Some("write_file"), "write a new file"),
        rec("docs/write.md", None, "write a new file"),
    ];
    let lex = LexicalIndex::build(&records, true).unwrap();
    // Only allow the second record: the first must not appear.
    let hits = search(&lex, "write file", 3, |idx| idx == 1);
    assert!(hits.iter().all(|h| h.idx == 1));
}

#[test]
fn structural_toggle_changes_symbol_visibility() {
    // The symbol lives only in the structural header, not the body.
    let records = vec![
        rec("a.rs", Some("quota_window"), "unrelated body text"),
        rec("b.rs", None, "some other unrelated body"),
    ];
    let with = LexicalIndex::build(&records, true).unwrap();
    assert!(!search(&with, "quota_window", 3, |_| true).is_empty());
    let without = LexicalIndex::build(&records, false).unwrap();
    assert!(search(&without, "quota_window", 3, |_| true).is_empty());
}

#[test]
fn empty_corpus_is_rejected() {
    assert!(LexicalIndex::build(&Vec::new(), true).is_err());
}

#[test]
fn words_are_cut_where_case_changes() {
    assert_eq!(camel_split("HTTPServer"), ["HTTP", "Server"]);
    assert_eq!(camel_split("fooBar"), ["foo", "Bar"]);
    assert_eq!(camel_split("utf8"), ["utf8"]);
    assert_eq!(camel_split("utf8Codec"), ["utf8Codec"]);
    assert_eq!(camel_split("HTTPServer").concat(), "HTTPServer");
}

#[test]
fn tokens_come_parts_first_and_in_small_letters() {
    assert_eq!(tokenize("getHTTPCode x"), ["get", "http", "code", "gethttpcode", "x"]);
    assert_eq!(tokenize("\u{c4}pfel_Saft"), ["\u{e4}pfel", "saft", "\u{e4}pfel_saft"]);
    assert_eq!(tokenize(" -- "), Vec::<String>::new());
    assert_eq!(tokenize("_x_"), ["x", "_x_"]);
}

#[test]
fn documents_hold_structure_before_text() {
    let r = rec("src/a.rs", Some("load"), "body");
    assert_eq!(structural_fields(&r), ["load", "function", "fn load()"]);
    let lex = LexicalIndex::build(&vec![r], false).unwrap();
    assert_eq!(lex.doc_count(), 1);
    assert_eq!(*lex.doc_lens(), vec![4]); // src, a, rs, body
}

#[test]
fn matches_carry_all_that_a_score_needs() {
    let records = vec![
        rec("a.rs", None, "alpha beta alpha"),
        rec("b.rs", None, "beta gamma"),
        rec("c.rs", None, "delta"),
    ];
    let lex = LexicalIndex::build(&records, false).unwrap();
    let found = lex.matches("beta alpha beta");
    assert_eq!(found.len(), 2);
    assert_eq!((found[0].doc, found[0].doc_len, found[0].doc_count), (0, 5, 3));
    let terms: Vec<(usize, usize)> = found[0].terms.iter().map(|t| (t.tf, t.df)).collect();
    assert_eq!(terms, [(1, 2), (2, 1)]);
    let terms: Vec<(usize, usize)> = found[1].terms.iter().map(|t| (t.tf, t.df)).collect();
    assert_eq!(terms, [(1, 2)]);
    assert!(lex.matches("omega").is_empty());
}

#[test]
fn equal_scores_keep_record_order_and_the_cut_is_kept() {
    let records = vec![rec("a.rs", None, "same"), rec("b.rs", None, "same"), rec("c.rs", None, "same")];
    let lex = LexicalIndex::build(&records, false).unwrap();
    let hits = search(&lex, "same", 2, |_| true);
    assert_eq!(hits.iter().map(|h| h.idx).collect::<Vec<_>>(), [0, 1]);
    assert_eq!(hits[0].score, hits[1].score);
}

#[test]
fn records_without_words_make_an_empty_channel() {
    let error = LexicalIndex::build(&vec![rec("", None, " -- ")], false).err();
    assert_eq!(error, Some(EmptyChannel));
    assert_eq!(
        EmptyChannel.message(),
        "lexical channel is empty (no indexable terms) \u{2014} rebuild the index with `rag-bone index --reindex`"
    );
}

#[test]
fn a_separator_parts_the_tokens() {
    let (a, b) = ("parseHTTPUrl of", "fn \u{c4}pfel_x2");
    for sep in [' ', '\n', '-', '.', '\u{2014}'] {
        let mut both = tokenize(a);
        both.extend(tokenize(b));
        assert_eq!(tokenize(&format!("{a}{sep}{b}")), both);
    }
    assert_ne!(tokenize("a_b").len(), 2);
    assert_eq!(tokenize(" .,;-\u{2014}\n"), Vec::<String>::new());
    assert_eq!(tokenize(""), Vec::<String>::new());
}

#[test]
fn searches_of_the_same_terms_agree() {
    let records = vec![
        rec("a.rs", None, "alpha beta"),
        rec("b.rs", None, "alpha"),
        rec("c.rs", None, "beta alpha alpha gamma"),
        rec("d.rs", None, "delta"),
    ];
    let lex = LexicalIndex::build(&records, true).unwrap();
    let whole = search(&lex, "alpha beta", 10, |_| true);
    assert_eq!(whole.len(), 3);
    for n in 0..4 {
        assert_eq!(search(&lex, "alpha beta", n, |_| true), whole[..n.min(3)]);
    }
    let odd = search(&lex, "alpha beta", 10, |d| d != 0);
    let kept: Vec<Hit> = whole.iter().filter(|h| h.idx != 0).copied().collect();
    assert_eq!(odd, kept);
    assert_eq!(search(&lex, "alpha beta alpha beta", 10, |_| true), whole);
}

#[test]
fn no_token_is_empty() {
    for text in ["__a__B", "_", "fooBarHTTPServer2", "\u{130}stanbul \u{df}"] {
        assert!(tokenize(text).iter().all(|t| !t.is_empty()));
        assert!(!tokenize(text).is_empty());
    }
}

#[test]
fn a_whole_search_lists_each_match_once() {
    let records = vec![
        rec("a.rs", None, "alpha"),
        rec("b.rs", None, "beta beta"),
        rec("c.rs", None, "gamma"),
        rec("d.rs", None, "ALPHA beta"),
    ];
    let lex = LexicalIndex::build(&records, true).unwrap();
    let mut ids: Vec<usize> =
        search(&lex, "beta Alpha", usize::MAX, |_| true).iter().map(|h| h.idx).collect();
    ids.sort_unstable();
    assert_eq!(ids, [0, 1, 3]);
    assert!(search(&lex, "delta", usize::MAX, |_| true).is_empty());
}
