use rag_bone::config::{
    cache_root, index_path, model_cache_dir, root_of, Config, ConfigError, ConfigFault, InitError,
    RetrievalMode, DEFAULT_MODEL,
};
use rag_bone::float::FloatBits;

fn bits(x: f32) -> FloatBits {
    FloatBits { bits: x.to_bits() }
}

#[test]
fn load_missing_returns_default() {
    let cfg = Config::load(false, || Err("must not be read".to_string())).unwrap();
    assert_eq!(cfg.top_k, 3);
}

#[test]
fn rejects_invalid_values() {
    let mut cfg = Config::default();
    cfg.chunk.overlap = cfg.chunk.max_chars;
    assert!(cfg.validate().is_err());

    let cfg = Config { top_k: 0, ..Config::default() };
    assert!(cfg.validate().is_err());

    let cfg = Config { min_score: bits(f32::NAN), ..Config::default() };
    assert!(cfg.validate().is_err());
}

#[test]
fn defaults_are_as_documented_and_valid() {
    let cfg = Config::default();
    assert_eq!(cfg.sources, ["./docs", "./src"]);
    assert_eq!(cfg.model, DEFAULT_MODEL);
    assert!(!cfg.rerank);
    assert_eq!(cfg.retrieval, RetrievalMode::Hybrid);
    assert_eq!(RetrievalMode::default(), RetrievalMode::Dense);
    assert_eq!((cfg.retrieve_n, cfg.rrf_k, cfg.max_per_file), (30, 60, 0));
    assert_eq!((cfg.chunk.max_chars, cfg.chunk.overlap), (1500, 0));
    assert_eq!(cfg.min_score, bits(0.0));
    assert!(cfg.validate().is_ok());
}

#[test]
fn every_fault_has_its_name() {
    let base = Config::default();
    let fault = |c: &Config| c.validate().unwrap_err();
    assert_eq!(fault(&Config { model: " \t".into(), ..base.clone() }), ConfigFault::EmptyModel);
    let blank = Config { reranker: " ".into(), ..base.clone() };
    assert!(blank.validate().is_ok());
    assert_eq!(fault(&Config { rerank: true, ..blank }), ConfigFault::EmptyReranker);
    assert_eq!(fault(&Config { top_k: 0, ..base.clone() }), ConfigFault::ZeroTopK);
    assert_eq!(fault(&Config { retrieve_n: 0, ..base.clone() }), ConfigFault::ZeroRetrieveN);
    assert_eq!(fault(&Config { rrf_k: 0, ..base.clone() }), ConfigFault::ZeroRrfK);
    let infinite = Config { min_score: bits(f32::INFINITY), ..base.clone() };
    assert_eq!(fault(&infinite), ConfigFault::MinScoreNotFinite);
    let mut zero = base.clone();
    zero.chunk.max_chars = 0;
    assert_eq!(fault(&zero), ConfigFault::ZeroMaxChars);
    let mut wide = base;
    wide.chunk.overlap = 1500;
    assert_eq!(fault(&wide), ConfigFault::OverlapTooLarge);
    assert_eq!(fault(&wide).message(), "chunk.overlap must be smaller than chunk.max_chars");
    assert_eq!(ConfigFault::ZeroTopK.message(), "top_k must be greater than zero");
}

#[test]
fn a_config_file_is_read_and_checked() {
    let read = Config::load(true, || Ok(Config { top_k: 5, ..Config::default() })).unwrap();
    assert_eq!(read.top_k, 5);
    let bad = Config::load(true, || Ok(Config { top_k: 0, ..Config::default() }));
    assert!(matches!(bad, Err(ConfigError::Invalid(ConfigFault::ZeroTopK))));
    let broken = Config::load(true, || Err("no".to_string()));
    assert!(matches!(broken, Err(ConfigError::Read(e)) if e == "no"));
}

#[test]
fn init_writes_the_defaults_but_never_over_a_file() {
    let written = Config::init(false, |c| if c.top_k == 3 { Ok(()) } else { Err("no".to_string()) });
    assert!(written.is_ok());
    let there = Config::init(true, |_| panic!("an existing file was written over"));
    assert!(matches!(there, Err(InitError::AlreadyExists)));
    let failed = Config::init(false, |_| Err("disk".to_string()));
    assert!(matches!(failed, Err(InitError::Write(e)) if e == "disk"));
}

#[test]
fn caches_are_kept_under_the_cache_directory() {
    let root = cache_root(Some("/x".into()), Some("/home/u".into()));
    assert_eq!(root.as_deref(), Some("/x/rag-bone"));
    let home = cache_root(None, Some("/home/u".into()));
    assert_eq!(home.as_deref(), Some("/home/u/.cache/rag-bone"));
    assert_eq!(cache_root(None, None), None);
    let set = model_cache_dir(Some("/models".into()), Some("/x".into()), None);
    assert_eq!(set.as_deref(), Some("/models"));
    let unset = model_cache_dir(None, Some("/x".into()), None);
    assert_eq!(unset.as_deref(), Some("/x/rag-bone/models"));
}

#[test]
fn the_index_lies_beside_the_config_file() {
    assert_eq!(root_of(".rag-bone.toml"), ".");
    assert_eq!(root_of("proj/.rag-bone.toml"), "proj");
    assert_eq!(root_of("/.rag-bone.toml"), "/");
    assert_eq!(index_path("proj"), "proj/.rag-bone/index.bin");
}
