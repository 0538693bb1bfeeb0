use rag_bone::find::{candidates, find, is_definition_like, FindError};
use rag_bone::float::FloatBits;
use rag_bone::lexical::{DocMatch, LexicalIndex};
use rag_bone::store::{Index, Record};

fn bits(x: f32) -> FloatBits {
    FloatBits { bits: x.to_bits() }
}

fn rec(file: &str, symbol: Option<&str>, text: &str) -> Record {
    Record {
        file: file.to_string(),
        lang: "rust".into(),
        start_line: 1,
        end_line: 2,
        chunk_id: format!("1-{file}"),
        symbol: symbol.map(String::from),
        kind: None,
        parent: None,
        signature: None,
        headings: Vec::new(),
        source: None,
        corpus_source: None,
        fetched: None,
        embedding_key: 0,
        text: text.into(),
        vector: Vec::new(),
    }
}

fn index(records: Vec<Record>) -> Index {
    let mut idx = Index::new("m".to_string(), 1, 1);
    idx.records = records;
    idx
}

fn by_count(m: &DocMatch) -> FloatBits {
    bits(m.terms.iter().map(|t| t.tf as f32).sum())
}

#[test]
fn definition_line_is_recognized_across_languages() {
    assert!(is_definition_like("pub fn tokenize(text: &str) {", "tokenize"));
    assert!(is_definition_like("    def parse(self):", "parse"));
    assert!(is_definition_like("func Add(a int) int {", "Add"));
    assert!(is_definition_like("struct Point {", "Point"));
    assert!(is_definition_like("impl Index {", "Index"));
}

#[test]
fn call_sites_and_bindings_are_not_definitions() {
    // A call, no def keyword before the name.
    assert!(!is_definition_like("    let v = tokenize(query);", "tokenize"));
    assert!(!is_definition_like("        self.tokenize(&doc)", "tokenize"));
    // Name absent entirely.
    assert!(!is_definition_like("fn other() {}", "tokenize"));
}

#[test]
fn only_the_first_mention_on_a_line_counts() {
    assert!(!is_definition_like("save(); fn save() {}", "save"));
    assert!(is_definition_like("save();\nFN SAVE() {}", "save"));
    assert!(!is_definition_like("fn save_all() {}", "save"));
    assert!(!is_definition_like("fn", "fn"));
    assert!(!is_definition_like("", "x"));
}

#[test]
fn symbols_are_found_before_keywords_are_tried() {
    let idx = index(vec![
        rec("a.rs", Some("save_all"), "x"),
        rec("b.rs", Some("save"), "y"),
        rec("c.rs", None, "fn save() {}"),
    ]);
    let found = find(&idx, "save", 10, |_: &LexicalIndex| -> fn(&DocMatch) -> FloatBits {
        panic!("keywords are not needed")
    })
    .unwrap();
    let files: Vec<&str> = found.iter().map(|r| r.file.as_str()).collect();
    assert_eq!(files, ["b.rs", "a.rs"]);
    let one = find(&idx, "save", 1, |_: &LexicalIndex| by_count).unwrap();
    assert_eq!(one.len(), 1);
    assert_eq!(one[0].file, "b.rs");
}

#[test]
fn definitions_float_above_mentions_in_keyword_order() {
    let idx = index(vec![
        rec("a.rs", None, "quota quota quota"),
        rec("b.rs", None, "fn quota() { quota }"),
        rec("c.rs", None, "nothing"),
        rec("d.rs", None, "class quota:"),
        rec("e.rs", None, "let quota = 1; quota"),
    ]);
    let found = find(&idx, "quota", 10, |_: &LexicalIndex| by_count).unwrap();
    let files: Vec<&str> = found.iter().map(|r| r.file.as_str()).collect();
    assert_eq!(files, ["b.rs", "d.rs", "a.rs", "e.rs"]);
    let lex = LexicalIndex::build(&idx.records, true).unwrap();
    assert_eq!(candidates(&idx, &lex, "quota", 2, by_count).len(), 4);
    let two = find(&idx, "quota", 2, |_: &LexicalIndex| by_count).unwrap();
    assert_eq!(two.len(), 2);
}

#[test]
fn a_name_that_nothing_holds_is_not_found() {
    let idx = index(vec![rec("a.rs", None, "alpha")]);
    let none = find(&idx, "omega", 10, |_: &LexicalIndex| by_count);
    assert_eq!(none.err(), Some(FindError::NoMatch));
    let nothing = index(Vec::new());
    let empty = find(&nothing, "omega", 10, |_: &LexicalIndex| by_count);
    assert_eq!(empty.err(), Some(FindError::NoTerms));
}

#[test]
fn a_definition_stands_on_one_line() {
    let defining = "pub fn save() {}\r";
    let calling = "save();";
    for (a, b) in [(defining, calling), (calling, defining), (calling, calling), ("fn", "save")] {
        let joined = format!("{a}\n{b}");
        let either = is_definition_like(a, "save") || is_definition_like(b, "save");
        assert_eq!(is_definition_like(&joined, "save"), either);
    }
    assert!(is_definition_like(defining, "SAVE"));
    assert!(!is_definition_like("fn ", ""));
    assert!(!is_definition_like("fn a b", "a b"));
    assert!(!is_definition_like("fn a-b", "a-b"));
    assert!(is_definition_like("fn \u{c4}pfel() {}", "\u{e4}PFEL"));
    assert!(!is_definition_like("fn \u{c4}pfel-x", "\u{e4}pfel-x"));
}

#[test]
fn any_limit_is_served() {
    let idx = index(vec![rec("a.rs", None, "call save here"), rec("b.rs", None, "fn save() {}")]);
    let one = |_: &LexicalIndex| |m: &DocMatch| bits(m.terms.len() as f32);
    let found = find(&idx, "save", usize::MAX, one).unwrap();
    let files: Vec<&str> = found.iter().map(|r| r.file.as_str()).collect();
    assert_eq!(files, ["b.rs", "a.rs"]);
}
