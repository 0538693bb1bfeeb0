use rag_bone::float::FloatBits;
use rag_bone::store::{
    accept_decoded, decode_header, encode_header, rank_hits, temporary_path, HeaderFault, Hit, Index, IndexFault,
    LoadError, Record, SaveError, ScanError, INDEX_HEADER_LEN, INDEX_SCHEMA_VERSION,
};
use std::cell::RefCell;
use std::io::Read;

fn bits(x: f32) -> FloatBits {
    FloatBits { bits: x.to_bits() }
}

fn vector(v: &[f32]) -> Vec<FloatBits> {
    v.iter().map(|x| bits(*x)).collect()
}

fn rec(file: &str, v: Vec<f32>) -> Record {
    Record {
        file: file.to_string(),
        lang: "rust".into(),
        start_line: 1,
        end_line: 2,
        chunk_id: format!("1-{file}"),
        symbol: None,
        kind: None,
        parent: None,
        signature: None,
        headings: Vec::new(),
        source: None,
        corpus_source: None,
        fetched: None,
        embedding_key: 0,
        text: "x".into(),
        vector: vector(&v),
    }
}

fn index(model: &str, dim: usize, fingerprint: u64) -> Index {
    Index::new(model.to_string(), dim, fingerprint)
}

fn dots(idx: &Index) -> impl Fn(&Vec<usize>, &Vec<FloatBits>) -> Vec<FloatBits> + '_ {
    |found: &Vec<usize>, query: &Vec<FloatBits>| {
        found
            .iter()
            .map(|i| {
                let mut sum = 0.0f32;
                for (a, b) in idx.records[*i].vector.iter().zip(query) {
                    sum += f32::from_bits(a.bits) * f32::from_bits(b.bits);
                }
                bits(sum)
            })
            .collect()
    }
}

type Text = Option<String>;
type Row = (
    String, String, usize, usize, String, Text, Text, Text, Text, Vec<String>, Text, Text, Text, u64,
    String, Vec<f32>,
);
type Stored = (u32, u64, String, usize, Vec<(String, u64)>, Vec<Row>);

fn to_stored(idx: &Index) -> Stored {
    let hashes = idx.file_hashes.paths().iter();
    let hashes = hashes.map(|p| (p.clone(), idx.file_hashes.get(p).unwrap())).collect();
    let rows = idx.records.iter().map(|r| {
        let r = r.clone();
        let v = r.vector.iter().map(|x| f32::from_bits(x.bits)).collect();
        (
            r.file, r.lang, r.start_line, r.end_line, r.chunk_id, r.symbol, r.kind, r.parent,
            r.signature, r.headings, r.source, r.corpus_source, r.fetched, r.embedding_key, r.text, v,
        )
    });
    (idx.schema_version, idx.ingest_fingerprint, idx.model.clone(), idx.dim, hashes, rows.collect())
}

fn from_stored(s: Stored) -> Index {
    let mut idx = index(&s.2, s.3, s.1);
    idx.schema_version = s.0;
    for (file, hash) in s.4 {
        idx.file_hashes.insert(file, hash);
    }
    for r in s.5 {
        idx.records.push(Record {
            file: r.0,
            lang: r.1,
            start_line: r.2,
            end_line: r.3,
            chunk_id: r.4,
            symbol: r.5,
            kind: r.6,
            parent: r.7,
            signature: r.8,
            headings: r.9,
            source: r.10,
            corpus_source: r.11,
            fetched: r.12,
            embedding_key: r.13,
            text: r.14,
            vector: vector(&r.15),
        });
    }
    idx
}

fn save(idx: &Index) -> Result<Vec<u8>, SaveError> {
    let file = RefCell::new(Vec::new());
    idx.save(|header: &Vec<u8>, i: &Index| {
        let body = postcard::to_stdvec(&to_stored(i)).map_err(|e| e.to_string())?;
        file.borrow_mut().extend_from_slice(header);
        file.borrow_mut().extend_from_slice(&body);
        Ok(())
    })?;
    Ok(file.into_inner())
}

fn load(file: &[u8]) -> Result<Index, LoadError> {
    let start: Vec<u8> = file.iter().take(20).copied().collect();
    Index::load(&start, file.len() as u64, |scratch| {
        let mut body = &file[20..];
        let mut buffer = vec![0u8; scratch];
        let (stored, _): (Stored, _) =
            postcard::from_io((&mut body, &mut buffer)).map_err(|e| e.to_string())?;
        let mut rest = Vec::new();
        body.read_to_end(&mut rest).map_err(|e| e.to_string())?;
        Ok((from_stored(stored), rest.is_empty()))
    })
}

#[test]
fn search_ranks_by_cosine() {
    let mut idx = index("m", 2, 1);
    idx.records = vec![
        rec("a.rs", vec![1.0, 0.0]),
        rec("b.rs", vec![0.0, 1.0]),
        rec("c.rs", vec![std::f32::consts::FRAC_1_SQRT_2; 2]),
    ];
    idx.file_hashes.insert("a.rs".to_string(), 1);
    idx.file_hashes.insert("b.rs".to_string(), 2);
    idx.file_hashes.insert("c.rs".to_string(), 3);
    let hits = idx.search_filtered(&vector(&[1.0, 0.0]), 2, |_: &Record| true, dots(&idx)).unwrap();
    assert_eq!(hits.len(), 2);
    assert_eq!(hits[0].idx, 0);
    assert_eq!(hits[1].idx, 2);
}

#[test]
fn save_load_roundtrip() {
    let mut idx = index("nomic", 2, 7);
    idx.records = vec![rec("a.rs", vec![1.0, 0.0])];
    idx.file_hashes.insert("a.rs".to_string(), 42);
    let loaded = load(&save(&idx).unwrap()).unwrap();
    assert_eq!(loaded.model, "nomic");
    assert_eq!(loaded.ingest_fingerprint, 7);
    assert_eq!(loaded.len(), 1);
    assert_eq!(loaded.file_hashes.get("a.rs"), Some(42));
}

#[test]
fn save_replaces_existing_index_with_large_record() {
    let mut idx = index("model", 2, 1);
    idx.records = vec![rec("large.rs", vec![1.0, 0.0])];
    idx.file_hashes.insert("large.rs".to_string(), 1);
    let first = save(&idx).unwrap();

    idx.records[0].text = "x".repeat(100_000);
    idx.file_hashes.insert("large.rs".to_string(), 2);
    let second = save(&idx).unwrap();
    assert!(second.len() > first.len());

    let loaded = load(&second).unwrap();
    assert_eq!(loaded.records[0].text.len(), 100_000);
    assert_eq!(loaded.file_hashes.get("large.rs"), Some(2));
}

#[test]
fn load_rejects_old_schema_with_reindex_hint() {
    let mut idx = index("m", 2, 1);
    idx.records = vec![rec("a.rs", vec![1.0, 0.0])];
    idx.file_hashes.insert("a.rs".to_string(), 1);
    // Corrupt the schema version in the fixed header (bytes 8..12).
    let mut bytes = save(&idx).unwrap();
    bytes[8..12].copy_from_slice(&(INDEX_SCHEMA_VERSION + 1).to_le_bytes());
    let err = load(&bytes).err().unwrap().message("index.bin");
    assert!(err.contains("--reindex"), "unexpected error: {err}");
}

#[test]
fn get_by_chunk_id_finds_and_misses() {
    let mut idx = index("m", 2, 1);
    idx.records = vec![rec("a.rs", vec![1.0, 0.0]), rec("b.rs", vec![0.0, 1.0])];
    assert_eq!(
        idx.get_by_chunk_id("1-b.rs").map(|r| r.file.clone()),
        Some("b.rs".to_string())
    );
    assert!(idx.get_by_chunk_id("nope").is_none());
}

#[test]
fn catalog_groups_web_sources_and_omits_local() {
    let mut idx = index("m", 2, 1);
    let mut a = rec("vendor/serde.md", vec![1.0, 0.0]);
    a.source = Some("https://docs.rs/serde".into());
    a.fetched = Some("2026-07-19T10:00:00Z".into());
    let mut a2 = rec("vendor/serde.md", vec![0.0, 1.0]);
    a2.chunk_id = "2-serde".into();
    a2.source = Some("https://docs.rs/serde".into());
    let local = rec("src/main.rs", vec![1.0, 0.0]);
    idx.records = vec![a, a2, local];
    let cat = idx.catalog();
    assert_eq!(cat.len(), 1, "local file omitted, web source grouped");
    assert_eq!(cat[0].source, "https://docs.rs/serde");
    assert_eq!(cat[0].chunks, 2);
    assert_eq!(cat[0].files, 1);
    assert_eq!(cat[0].fetched.as_deref(), Some("2026-07-19T10:00:00Z"));
}

fn rec_sym(file: &str, symbol: &str, start: usize) -> Record {
    let mut r = rec(file, vec![1.0, 0.0]);
    r.symbol = Some(symbol.into());
    r.kind = Some("function".into());
    r.start_line = start;
    r.chunk_id = format!("1-{file}-{start}");
    r
}

#[test]
fn outline_returns_file_chunks_in_source_order() {
    let mut idx = index("m", 2, 1);
    idx.records = vec![
        rec_sym("src/a.rs", "second", 50),
        rec_sym("src/a.rs", "first", 10),
        rec_sym("src/b.rs", "other", 1),
    ];
    let out = idx.outline("a.rs");
    assert_eq!(out.len(), 2);
    assert_eq!(out[0].symbol.as_deref(), Some("first")); // start_line 10 before 50
    assert_eq!(out[1].symbol.as_deref(), Some("second"));
}

#[test]
fn find_symbol_ranks_exact_before_substring() {
    let mut idx = index("m", 2, 1);
    idx.records = vec![
        rec_sym("src/a.rs", "save_all", 5), // substring
        rec_sym("src/b.rs", "save", 5),     // exact
        rec_sym("src/c.rs", "load", 5),     // no match
    ];
    let hits = idx.find_symbol("save");
    assert_eq!(hits.len(), 2);
    assert_eq!(hits[0].symbol.as_deref(), Some("save")); // exact first
    assert_eq!(hits[1].symbol.as_deref(), Some("save_all"));
    assert!(idx.find_symbol("missing").is_empty());
}

#[test]
fn remove_file_drops_records() {
    let mut idx = index("m", 2, 1);
    idx.records = vec![rec("a.rs", vec![1.0, 0.0]), rec("b.rs", vec![0.0, 1.0])];
    idx.file_hashes.insert("a.rs".to_string(), 1);
    idx.remove_file("a.rs");
    assert_eq!(idx.len(), 1);
    assert_eq!(idx.records[0].file, "b.rs");
}

#[test]
fn search_filters_before_top_n() {
    let mut idx = index("m", 2, 1);
    idx.records = vec![
        rec("docs/a.md", vec![1.0, 0.0]),
        rec("src/a.rs", vec![0.9, 0.1]),
    ];
    idx.records[0].lang = "md".into();
    idx.file_hashes.insert("docs/a.md".to_string(), 1);
    idx.file_hashes.insert("src/a.rs".to_string(), 2);

    let rust = |record: &Record| record.lang == "rust";
    let hits = idx.search_filtered(&vector(&[1.0, 0.0]), 1, rust, dots(&idx)).unwrap();
    assert_eq!(hits.len(), 1);
    assert_eq!(idx.records[hits[0].idx].file, "src/a.rs");
}

#[test]
fn rejects_wrong_query_dimension() {
    let idx = index("m", 2, 1);
    assert!(idx.search_filtered(&vector(&[1.0]), 1, |_: &Record| true, dots(&idx)).is_err());
}

#[test]
fn scores_must_be_one_for_each_record() {
    let mut idx = index("m", 1, 1);
    idx.records = vec![rec("a.rs", vec![1.0])];
    let none = |_: &Vec<usize>, _: &Vec<FloatBits>| Vec::new();
    let error = idx.search_filtered(&vector(&[1.0]), 1, |_: &Record| true, none).unwrap_err();
    assert_eq!(error, ScanError::ScoreCount { scores: 0, records: 1 });
}

#[test]
fn hits_are_ranked_by_score_and_then_by_position() {
    let hit = |idx, score: f32| Hit { idx, score: bits(score) };
    let hits = vec![hit(4, 0.5), hit(1, -0.0), hit(2, 0.5), hit(3, 0.0), hit(0, 0.9)];
    let ranked: Vec<usize> = rank_hits(&hits, 4).iter().map(|h| h.idx).collect();
    assert_eq!(ranked, [0, 2, 4, 3]);
    assert!(rank_hits(&hits, 0).is_empty());
    assert_eq!(rank_hits(&hits, 99).len(), 5);
}

fn valid_index() -> Index {
    let mut idx = index("m", 2, 1);
    idx.records = vec![rec("a.rs", vec![1.0, 0.0]), rec("b.rs", vec![0.0, 1.0])];
    idx.file_hashes.insert("a.rs".to_string(), 1);
    idx.file_hashes.insert("b.rs".to_string(), 2);
    idx
}

#[test]
fn each_fault_of_an_index_is_named() {
    assert!(valid_index().validate().is_ok());
    let mut old = valid_index();
    old.schema_version = 3;
    assert_eq!(old.validate(), Err(IndexFault::Schema { found: 3 }));
    assert_eq!(
        IndexFault::Schema { found: 3 }.message(&old),
        "unsupported index schema 3; expected 4 \u{2014} rebuild with `rag-bone index --reindex`"
    );
    let flat = index("m", 0, 1);
    assert_eq!(flat.validate(), Err(IndexFault::ZeroDimension));
    let mut short = valid_index();
    short.records[1].vector.pop();
    let fault = short.validate().unwrap_err();
    assert_eq!(fault, IndexFault::VectorLength { record: 1 });
    assert_eq!(
        fault.message(&short),
        "vector dimension 1 for b.rs does not match index dimension 2"
    );
    let mut nan = valid_index();
    nan.records[0].vector[1] = bits(f32::NAN);
    assert_eq!(nan.validate(), Err(IndexFault::NonFinite { record: 0 }));
    let mut lost = valid_index();
    lost.file_hashes.remove("b.rs");
    assert_eq!(lost.validate(), Err(IndexFault::NoFileHash { record: 1 }));
    let mut twice = valid_index();
    twice.records[1].chunk_id = "1-a.rs".into();
    let fault = twice.validate().unwrap_err();
    assert_eq!(fault, IndexFault::DuplicateId { record: 1 });
    assert_eq!(fault.message(&twice), "duplicate chunk id 1-a.rs (collision on b.rs)");
    assert!(matches!(save(&twice), Err(SaveError::Invalid { fault: IndexFault::DuplicateId { record: 1 }, .. })));
}

#[test]
fn removing_a_file_keeps_an_index_valid_and_happens_once() {
    let mut idx = valid_index();
    idx.remove_file("./b.rs");
    assert_eq!(idx.len(), 2);
    idx.remove_file("b.rs");
    assert!(idx.validate().is_ok());
    assert_eq!((idx.len(), idx.file_count()), (1, 1));
    idx.remove_file("b.rs");
    assert_eq!((idx.len(), idx.file_count()), (1, 1));
    assert!(!idx.is_empty());
}

#[test]
fn headers_read_back_and_others_are_refused() {
    let header = encode_header(300);
    assert_eq!(header.len() as u64, INDEX_HEADER_LEN);
    assert_eq!(header[8..12], 4u32.to_le_bytes());
    assert_eq!(header[12..20], 300u64.to_le_bytes());
    assert_eq!(decode_header(&header, 320), Ok(300));
    assert_eq!(decode_header(&header, 319), Err(HeaderFault::InvalidScratch));
    assert_eq!(decode_header(&encode_header(0), 320), Err(HeaderFault::InvalidScratch));
    assert_eq!(decode_header(&header[..12].to_vec(), 12), Err(HeaderFault::Truncated));
    assert_eq!(decode_header(&vec![7u8; 40], 40), Err(HeaderFault::NotAnIndex));
    let mut old = header.clone();
    old[8] = 3;
    assert_eq!(decode_header(&old, 320), Err(HeaderFault::Schema { found: 3 }));
    assert_eq!(HeaderFault::NotAnIndex.message("p"), "p is not a rag-bone index");
    assert_eq!(HeaderFault::Truncated.message("p"), "reading header from p");
}

#[test]
fn loading_checks_what_was_decoded() {
    let bytes = save(&valid_index()).unwrap();
    let mut longer = bytes.clone();
    longer.push(0);
    let error = load(&longer).err().unwrap();
    assert!(matches!(error, LoadError::TrailingData));
    assert_eq!(error.message("p"), "p has trailing data");
    let cut = &bytes[..bytes.len() - 1];
    assert!(matches!(load(cut), Err(LoadError::Decode(_))));
    let mut bad = valid_index();
    bad.dim = 3;
    let error = accept_decoded(Ok((bad, true))).err().unwrap();
    assert!(matches!(&error, LoadError::Invalid { fault: IndexFault::VectorLength { record: 0 }, .. }));
    assert_eq!(
        error.message("p"),
        "validating p: vector dimension 2 for a.rs does not match index dimension 3"
    );
}

#[test]
fn the_scratch_bound_covers_the_longest_text() {
    let mut idx = valid_index();
    assert_eq!(idx.scratch_len(), 8);
    idx.records[1].signature = Some("\u{e9}".repeat(20));
    assert_eq!(idx.scratch_len(), 40);
    idx.model = "m".repeat(50);
    assert_eq!(idx.scratch_len(), 50);
    idx.records[1].kind = Some("k".repeat(100));
    assert_eq!(idx.scratch_len(), 100);
}

#[test]
fn the_catalog_counts_every_web_chunk_once() {
    let mut idx = valid_index();
    for (i, source) in ["https://b", "https://a", "https://b"].iter().enumerate() {
        let mut r = rec(&format!("w{i}.md"), vec![1.0, 0.0]);
        r.source = Some(source.to_string());
        r.corpus_source = if i == 2 { Some("https://c".into()) } else { None };
        idx.records.push(r);
    }
    let cat = idx.catalog();
    let rows: Vec<(&str, usize, usize)> =
        cat.iter().map(|e| (e.source.as_str(), e.files, e.chunks)).collect();
    assert_eq!(rows, [("https://a", 1, 1), ("https://b", 2, 2)]);
    assert_eq!(cat[1].corpus_source.as_deref(), Some("https://c"));
    assert_eq!(cat.iter().map(|e| e.chunks).sum::<usize>(), 3);
}

#[test]
fn look_ups_ignore_case_and_empty_names_match_all() {
    let mut idx = index("m", 2, 1);
    idx.records = vec![rec_sym("src/A.rs", "Save", 5), rec_sym("src/b.rs", "load", 1)];
    assert_eq!(idx.find_symbol("SAVE").len(), 1);
    assert_eq!(idx.find_symbol("").len(), 2);
    assert_eq!(idx.outline("src").len(), 2);
}

#[test]
fn temporary_files_stand_beside_what_they_replace() {
    assert_eq!(temporary_path("p/.rag-bone/index.bin", 42, 7), "p/.rag-bone/.index.bin.tmp-42-7");
    assert_eq!(temporary_path("index.bin", 1, 0), "./.index.bin.tmp-1-0");
    assert_eq!(temporary_path("a/..", 1, 0), "a/.index.tmp-1-0");
}

#[test]
fn every_text_of_a_record_fits_into_the_scratch_bound() {
    let mut idx = index("m", 2, 1);
    let mut r = rec("a.rs", vec![1.0, 0.0]);
    r.kind = Some("k".repeat(100));
    idx.records = vec![r];
    idx.file_hashes.insert("a.rs".to_string(), 1);
    assert_eq!(idx.scratch_len(), 100);
    assert_eq!(load(&save(&idx).unwrap()).unwrap().records[0].kind, Some("k".repeat(100)));
}
