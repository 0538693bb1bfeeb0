use rag_bone::config::ChunkConfig;
use rag_bone::embed::{document_text, document_texts, ingest_fingerprint, query_text, registry, spec};

#[test]
fn registry_lookup() {
    assert!(spec("nomic-embed-text-v1.5").is_ok());
    assert!(spec("does-not-exist").is_err());
}

#[test]
fn ingest_fingerprint_tracks_chunk_config() {
    let spec = spec("embeddinggemma-300m-q4").unwrap();
    let base = ChunkConfig { max_chars: 1500, overlap: 0 };
    let changed = ChunkConfig { max_chars: 1200, overlap: 0 };
    assert_ne!(
        ingest_fingerprint(&spec, 768, &base),
        ingest_fingerprint(&spec, 768, &changed)
    );
}

#[test]
fn fingerprint_is_the_hash_of_the_settings() {
    let spec = spec("embeddinggemma-300m-q4").unwrap();
    let chunk = ChunkConfig { max_chars: 1500, overlap: 20 };
    let whole = ingest_fingerprint(&spec, 768, &chunk);
    assert_ne!(whole, ingest_fingerprint(&spec, 384, &chunk));
    assert_ne!(whole, ingest_fingerprint(&spec, 768, &ChunkConfig { max_chars: 1500, overlap: 2 }));
    let descriptor = "v=2\0model=embeddinggemma-300m-q4\0doc_prefix=title: none | text: \0dim=768\0max_tokens=512\0max_chars=1500\0overlap=20";
    assert_eq!(whole, xxhash_rust::xxh3::xxh3_64(descriptor.as_bytes()));
}

#[test]
fn prefixes_are_put_before_texts() {
    let nomic = spec("nomic-embed-text-v1.5").unwrap();
    assert_eq!(document_text(&nomic, "body"), "search_document: body");
    assert_eq!(query_text(&nomic, "what"), "search_query: what");
    let both = document_texts(&nomic, &vec!["a".to_string(), "b".to_string()]);
    assert_eq!(both, ["search_document: a", "search_document: b"]);
}

#[test]
fn unknown_models_are_answered_with_the_known_ones() {
    let message = spec("nope").unwrap_err().message();
    assert!(message.starts_with("unknown model 'nope'; available: "));
    for m in registry() {
        assert!(message.contains(m.id));
        assert!(spec(m.id).is_ok());
    }
}
