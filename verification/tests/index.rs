use rag_bone::chunk::ChunkError;
use rag_bone::config::{ChunkConfig, Config, ConfigFault};
use rag_bone::embcache::{EmbeddingCache, ResolveError};
use rag_bone::float::FloatBits;
use rag_bone::index::{
    build, index_file, load_or_new, prune, reuse_or_new, source_dirs, update, BuildError,
    IngestError, Job, Run, Stats,
};
use rag_bone::store::{Index, LoadError, SaveError};
use std::cell::RefCell;
use std::collections::HashMap;

fn bits(x: f32) -> FloatBits {
    FloatBits { bits: x.to_bits() }
}

fn index(model: &str, dim: usize, fingerprint: u64) -> Index {
    Index::new(model.to_string(), dim, fingerprint)
}

fn strings(list: &[&str]) -> Vec<String> {
    list.iter().map(|s| s.to_string()).collect()
}

/// One number for each text: its length.
fn embed(texts: &Vec<String>) -> Result<Vec<Vec<FloatBits>>, String> {
    Ok(texts.iter().map(|t| vec![bits(t.len() as f32)]).collect())
}

fn no_embed(_: &Vec<String>) -> Result<Vec<Vec<FloatBits>>, String> {
    Err("no model".to_string())
}

type Disk = HashMap<&'static str, &'static str>;

fn job<'a, E>(
    disk: &'a Disk,
    reindex: bool,
    embed: E,
) -> Job<impl Fn(&String) -> Option<String> + 'a, E> {
    let read = |p: &String| disk.get(p.as_str()).map(|s| s.to_string());
    Job { root: "proj".to_string(), config: Config::default(), reindex, read, embed }
}

fn files_of(idx: &Index) -> Vec<&str> {
    idx.records.iter().map(|r| r.file.as_str()).collect()
}

#[test]
fn load_or_new_rejects_model_mismatch() {
    let stored = || Ok(index("old-model", 384, 1));
    let idx = load_or_new(true, stored, "new-model", 768, 2, false).unwrap();
    assert!(idx.is_empty());
    assert_eq!(idx.model, "new-model");
}

#[test]
fn load_or_new_rejects_corrupt_index() {
    let bytes = b"not an index";
    let load = || {
        Index::load(&bytes.to_vec(), bytes.len() as u64, |_| panic!("there is no body"))
    };
    assert!(load_or_new(true, load, "model", 384, 1, false).is_err());
}

#[test]
fn a_stored_index_is_reused_only_with_the_same_settings() {
    let mut old = index("m", 1, 7);
    old.file_hashes.insert("a.rs".to_string(), 1);
    assert_eq!(reuse_or_new(old, "m", 1, 7).file_count(), 1);
    for (model, dim, fingerprint) in [("n", 1, 7), ("m", 2, 7), ("m", 1, 8)] {
        let mut old = index("m", 1, 7);
        old.file_hashes.insert("a.rs".to_string(), 1);
        let fresh = reuse_or_new(old, model, dim, fingerprint);
        assert_eq!(fresh.file_count(), 0);
        assert_eq!((fresh.model.as_str(), fresh.dim, fresh.ingest_fingerprint), (model, dim, fingerprint));
    }
    let unread = || -> Result<Index, LoadError> { panic!("a rebuild reads nothing") };
    assert!(load_or_new(true, unread, "m", 1, 7, true).unwrap().is_empty());
    let missing = || -> Result<Index, LoadError> { panic!("there is nothing to read") };
    assert!(load_or_new(false, missing, "m", 1, 7, false).unwrap().is_empty());
}

#[test]
fn vanished_files_are_pruned() {
    let mut idx = index("m", 1, 1);
    idx.file_hashes.insert("src/a.rs".to_string(), 1);
    idx.file_hashes.insert("src/b.rs".to_string(), 2);
    idx.file_hashes.insert("/abs/c.rs".to_string(), 3);
    let n = prune(&mut idx, "proj", &strings(&["proj/src//b.rs", "/abs/c.rs", "proj/new.rs"]));
    assert_eq!(n, 1);
    assert_eq!(*idx.file_hashes.paths(), strings(&["src/b.rs", "/abs/c.rs"]));
}

#[test]
fn a_run_indexes_skips_prunes_and_fails() {
    let mut disk = Disk::new();
    disk.insert("proj/a.rs", "fn alpha() {}\n");
    disk.insert("proj/b.md", "---\nsource: https://x.y\n---\n# Top\n\ntext\n");
    disk.insert("proj/empty.txt", "");
    let files = strings(&["proj/a.rs", "proj/b.md", "proj/empty.txt", "proj/gone.rs", "proj/x.bin"]);
    let first =
        update(&job(&disk, false, embed), &files, index("m", 1, 9), EmbeddingCache::empty(1)).unwrap();
    assert_eq!(
        first.stats,
        Stats { files_indexed: 2, files_failed: 1, chunks: 2, cache_misses: 2, ..Stats::default() }
    );
    assert_eq!(files_of(&first.index), ["a.rs", "b.md"]);
    let a = &first.index.records[0];
    assert_eq!(a.symbol.as_deref(), Some("alpha"));
    assert_eq!((a.lang.as_str(), a.start_line, a.end_line), ("rust", 1, 1));
    assert_eq!(a.text, "fn alpha() {}");
    let embedded = "path: a.rs\nlanguage: rust\nsymbol: alpha\nkind: function\nsignature: fn alpha()\n---\nfn alpha() {}";
    assert_eq!(a.vector, [bits(embedded.len() as f32)]);
    assert!(a.chunk_id.starts_with("1-"));
    let b = &first.index.records[1];
    assert_eq!(b.source.as_deref(), Some("https://x.y"));
    assert_eq!(first.index.file_count(), 3);
    assert!(first.index.validate().is_ok());

    // Nothing has changed: everything is skipped, and nothing is embedded.
    let again = update(&job(&disk, false, no_embed), &files, first.index, first.cache).unwrap();
    assert_eq!(again.stats, Stats { files_skipped: 3, files_failed: 1, ..Stats::default() });
    assert_eq!(files_of(&again.index), ["a.rs", "b.md"]);

    // One file has changed, and one is gone.
    disk.insert("proj/a.rs", "fn beta() {}\n");
    let fewer = strings(&["proj/a.rs", "proj/empty.txt"]);
    let third = update(&job(&disk, false, embed), &fewer, again.index, again.cache).unwrap();
    assert_eq!(
        third.stats,
        Stats {
            files_indexed: 1,
            files_skipped: 1,
            files_pruned: 1,
            chunks: 1,
            cache_misses: 1,
            ..Stats::default()
        }
    );
    assert_eq!(files_of(&third.index), ["a.rs"]);
    assert_eq!(third.index.records[0].symbol.as_deref(), Some("beta"));

    // A rebuild reads all again, from the cache.
    let fourth = update(&job(&disk, true, no_embed), &fewer, index("m", 1, 9), third.cache).unwrap();
    assert_eq!((fourth.stats.cache_hits, fourth.stats.cache_misses), (1, 0));
    assert_eq!(fourth.stats.cache_hits + fourth.stats.cache_misses, fourth.stats.chunks);
}

#[test]
fn one_file_leaves_the_others_alone() {
    let disk = Disk::new();
    let j = job(&disk, false, embed);
    let mut run = Run {
        index: index("m", 1, 9),
        stats: Stats::default(),
        cache: EmbeddingCache::empty(1),
    };
    index_file(&j, "proj/a.rs", Some("fn a() {}".into()), &mut run).unwrap();
    index_file(&j, "proj/b.rs", Some("fn b() {}".into()), &mut run).unwrap();
    index_file(&j, "proj/a.rs", Some("fn c() {}".into()), &mut run).unwrap();
    assert_eq!(files_of(&run.index), ["b.rs", "a.rs"]);
    index_file(&j, "proj/b.rs", None, &mut run).unwrap();
    assert_eq!(files_of(&run.index), ["a.rs"]);
    assert_eq!(run.index.file_hashes.get("b.rs"), None);
    index_file(&j, "proj/note.unknown", Some("x".into()), &mut run).unwrap();
    assert_eq!((run.stats.files_indexed, run.stats.files_failed), (3, 1));
}

#[test]
fn a_file_that_cannot_be_indexed_stops_the_run() {
    let mut disk = Disk::new();
    disk.insert("proj/a.rs", "fn a() {}");
    let files = strings(&["proj/a.rs"]);
    let cache = EmbeddingCache::empty(1);
    let error = update(&job(&disk, false, no_embed), &files, index("m", 1, 9), cache).err().unwrap();
    assert!(matches!(error, IngestError::Resolve(ResolveError::Embed(e)) if e == "no model"));
    let mut bad = job(&disk, false, embed);
    bad.config.chunk = ChunkConfig { max_chars: 5, overlap: 5 };
    let cache = EmbeddingCache::empty(1);
    let error = update(&bad, &files, index("m", 1, 9), cache).err().unwrap();
    assert!(matches!(
        error,
        IngestError::Chunk { file, fault: ChunkError::OverlapTooLarge } if file == "proj/a.rs"
    ));
}

fn built(
    job: &Job<impl Fn(&String) -> Option<String>, fn(&Vec<String>) -> Result<Vec<Vec<FloatBits>>, String>>,
    dim: usize,
    write: impl FnOnce(&Vec<u8>, &Index) -> Result<(), String>,
) -> Result<(Index, Stats), BuildError> {
    let load = || -> Result<Index, LoadError> { Err(LoadError::TrailingData) };
    let files = strings(&["proj/a.rs"]);
    let cache = EmbeddingCache::empty(dim);
    build(job, dim, 9, false, load, cache, &files, |_, _, _| Ok(()), write)
}

#[test]
fn a_build_checks_updates_and_saves() {
    let mut disk = Disk::new();
    disk.insert("proj/a.rs", "fn a() {}");
    let written = RefCell::new(0);
    let j = job(&disk, false, embed as fn(&Vec<String>) -> _);
    let (idx, stats) = built(&j, 1, |header, i| {
        assert_eq!(header.len(), 20);
        *written.borrow_mut() += i.len();
        Ok(())
    })
    .unwrap();
    assert_eq!(*written.borrow(), 1);
    assert_eq!((idx.len(), stats.files_indexed), (1, 1));

    let failed = built(&j, 1, |_, _| Err("disk".to_string())).err().unwrap();
    assert!(matches!(failed, BuildError::Save(SaveError::Write(e)) if e == "disk"));
    // Vectors of another dimension are refused before anything is written.
    let refused = built(&j, 2, |_, _| panic!("not valid")).err().unwrap();
    assert!(matches!(refused, BuildError::Save(SaveError::Invalid { .. })));

    let mut bad = job(&disk, false, embed as fn(&Vec<String>) -> _);
    bad.config.top_k = 0;
    let unchecked = built(&bad, 1, |_, _| panic!("not reached")).err().unwrap();
    assert!(matches!(unchecked, BuildError::Config(ConfigFault::ZeroTopK)));
}

#[test]
fn an_unreadable_stored_index_is_an_error() {
    let disk = Disk::new();
    let j = job(&disk, false, embed);
    let load = || -> Result<Index, LoadError> { Err(LoadError::TrailingData) };
    let cache = EmbeddingCache::empty(1);
    let error =
        build(&j, 1, 9, true, load, cache, &Vec::new(), |_, _, _| Ok(()), |_, _| Ok(())).err().unwrap();
    assert!(matches!(error, BuildError::Load(LoadError::TrailingData)));
}

#[test]
fn sources_are_seen_from_the_root() {
    assert_eq!(source_dirs("proj", &strings(&["./docs", "/abs"])), ["proj/./docs", "/abs"]);
    assert_eq!(source_dirs(".", &strings(&["src"])), ["./src"]);
}

#[test]
fn a_finished_run_reflects_every_discovered_file_and_no_other() {
    let mut disk = Disk::new();
    disk.insert("proj/a.rs", "fn a() {}");
    disk.insert("proj/b/c.md", "# C\n\ntext");
    disk.insert("/abs/d.txt", "d");
    let files = strings(&["/abs/d.txt", "proj/a.rs", "proj/b/c.md", "proj/unreadable.rs"]);
    let mut old = index("m", 1, 9);
    old.file_hashes.insert("left.rs".to_string(), 1);
    old.file_hashes.insert("a.rs".to_string(), 2);
    let run = update(&job(&disk, false, embed), &files, old, EmbeddingCache::empty(1)).unwrap();
    let hashes = &run.index.file_hashes;
    assert_eq!(hashes.len(), 3);
    for (file, content) in [("a.rs", "fn a() {}"), ("b/c.md", "# C\n\ntext"), ("/abs/d.txt", "d")] {
        assert_eq!(hashes.get(file), Some(rag_bone::hash::content_hash(content)));
    }
    assert_eq!(run.stats.files_pruned, 1);
    assert!(run.index.records.iter().all(|r| hashes.contains(&r.file)));
}

#[test]
fn a_chunk_that_moves_is_not_embedded_again() {
    let disk = Disk::new();
    let mut j = job(&disk, false, embed);
    j.config.chunk = ChunkConfig { max_chars: 14, overlap: 0 };
    let mut run = Run {
        index: index("m", 1, 9),
        stats: Stats::default(),
        cache: EmbeddingCache::empty(1),
    };
    let code = "fn alpha() {}\n\nfn beta() {}\n";
    index_file(&j, "proj/a.rs", Some(code.to_string()), &mut run).unwrap();
    assert_eq!((run.stats.cache_hits, run.stats.cache_misses), (0, 2));
    let keys: Vec<u64> = run.index.records.iter().map(|r| r.embedding_key).collect();
    index_file(&j, "proj/a.rs", Some(format!("// note\n\n{code}")), &mut run).unwrap();
    assert_eq!((run.stats.cache_hits, run.stats.cache_misses), (2, 3));
    let moved: Vec<u64> = run.index.records[1..].iter().map(|r| r.embedding_key).collect();
    assert_eq!(moved, keys);
    assert_eq!(run.index.records[1].start_line, 3);
}

#[test]
fn a_second_build_changes_nothing_and_embeds_nothing() {
    let mut disk = Disk::new();
    disk.insert("proj/a.rs", "fn alpha() {}\n");
    disk.insert("proj/b.md", "# Top\n\ntext\n");
    let files = strings(&["proj/a.rs", "proj/b.md", "proj/gone.rs", "proj/x.bin"]);
    let first =
        update(&job(&disk, true, embed), &files, index("m", 1, 9), EmbeddingCache::empty(1)).unwrap();
    assert!(first.index.validate().is_ok());
    let ids: Vec<String> = first.index.records.iter().map(|r| r.chunk_id.clone()).collect();
    let again = update(&job(&disk, false, no_embed), &files, first.index, first.cache).unwrap();
    assert_eq!(again.stats, Stats { files_skipped: 2, files_failed: 1, ..Stats::default() });
    let kept: Vec<String> = again.index.records.iter().map(|r| r.chunk_id.clone()).collect();
    assert_eq!(kept, ids);
    assert_eq!(*again.index.file_hashes.paths(), strings(&["a.rs", "b.md"]));
}

#[test]
fn a_second_run_over_readable_files_skips_them_all() {
    let mut disk = Disk::new();
    disk.insert("proj/a.rs", "fn alpha() {}\n");
    disk.insert("proj/b.md", "# Top\n\ntext\n");
    let files = strings(&["proj/a.rs", "proj/b.md", "proj/x.bin"]);
    let first =
        update(&job(&disk, false, embed), &files, index("m", 1, 9), EmbeddingCache::empty(1)).unwrap();
    let unused = |_: &Vec<String>| -> Result<Vec<Vec<FloatBits>>, String> {
        panic!("nothing is embedded")
    };
    let again = update(&job(&disk, false, unused), &files, first.index, first.cache).unwrap();
    assert_eq!(again.stats, Stats { files_skipped: 2, ..Stats::default() });
}
