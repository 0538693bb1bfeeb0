use rag_bone::embcache::{
    accept_entries, cache_path, frame, resolve_with_cache, unframe, CacheEntry, EmbeddingCache,
    Persisted, ResolveError,
};
use rag_bone::float::FloatBits;
use std::cell::RefCell;

fn vector(v: &[f32]) -> Vec<FloatBits> {
    v.iter().map(|x| FloatBits { bits: x.to_bits() }).collect()
}

fn strings(list: &[&str]) -> Vec<String> {
    list.iter().map(|s| s.to_string()).collect()
}

type Stored = (usize, Vec<(u64, Vec<f32>)>);

fn parse(body: &Vec<u8>) -> Option<Persisted> {
    let (dim, entries): Stored = postcard::from_bytes(body).ok()?;
    let entries = entries
        .into_iter()
        .map(|(key, v)| CacheEntry { key, vector: vector(&v) })
        .collect();
    Some(Persisted { dim, entries })
}

#[test]
fn resolve_uses_cache_and_embeds_only_misses_in_order() {
    let mut cache = EmbeddingCache::empty(2);
    cache.insert(10, vector(&[1.0, 0.0])); // pre-seed the first key
    let keys = vec![10u64, 20, 30];
    let texts = strings(&["a", "b", "c"]);
    let mut embedded_texts: Vec<String> = Vec::new();
    let r = resolve_with_cache(&mut cache, &keys, &texts, |miss: &Vec<String>| {
        embedded_texts = miss.to_vec();
        Ok(miss.iter().map(|_| vector(&[0.5, 0.5])).collect())
    })
    .unwrap();
    assert_eq!((r.hits, r.misses), (1, 2));
    assert_eq!(embedded_texts, ["b", "c"]); // only misses, in input order
    assert_eq!(r.vectors[0], vector(&[1.0, 0.0])); // served from cache
    assert_eq!(r.vectors[1], vector(&[0.5, 0.5]));
    assert_eq!(r.vectors[2], vector(&[0.5, 0.5]));
    assert_eq!(cache.get(20), Some(&vector(&[0.5, 0.5]))); // written back
}

#[test]
fn resolve_all_hits_never_calls_embed() {
    let mut cache = EmbeddingCache::empty(1);
    cache.insert(1, vector(&[9.0]));
    let r = resolve_with_cache(&mut cache, &vec![1], &strings(&["x"]), |_: &Vec<String>| {
        panic!("embed must not run when everything is cached")
    })
    .unwrap();
    assert_eq!((r.hits, r.misses), (1, 0));
    assert_eq!(r.vectors, vec![vector(&[9.0])]);
}

#[test]
fn roundtrip_persists_and_rejects_dim_mismatch() {
    let stored: Stored = (2, vec![(7u64, vec![1.0f32, 2.0])]);
    let file = frame(&postcard::to_stdvec(&stored).unwrap());
    let read = |_: &String| Some(file.clone());
    let cache = EmbeddingCache::load(Some("emb.postcard".into()), 2, read, parse);
    assert_eq!(cache.get(7), Some(&vector(&[1.0, 2.0])));
    let read = |_: &String| Some(file.clone());
    let other = EmbeddingCache::load(Some("emb.postcard".into()), 3, read, parse);
    assert_eq!(other.get(7), None); // dim mismatch
}

#[test]
fn what_was_resolved_is_not_embedded_again() {
    let mut cache = EmbeddingCache::empty(1);
    let keys = vec![4u64, 5, 4];
    let texts = strings(&["a", "b", "a"]);
    let first = resolve_with_cache(&mut cache, &keys, &texts, |miss: &Vec<String>| {
        Ok(miss.iter().map(|t| vector(&[t.len() as f32])).collect())
    })
    .unwrap();
    assert_eq!((first.hits, first.misses), (0, 3));
    let again = resolve_with_cache(&mut cache, &keys, &texts, |_: &Vec<String>| {
        panic!("every key was resolved before")
    })
    .unwrap();
    assert_eq!((again.hits, again.misses), (3, 0));
    assert_eq!(again.vectors, first.vectors);
}

#[test]
fn a_failing_embedder_leaves_the_cache_alone() {
    let mut cache = EmbeddingCache::empty(1);
    let failed = resolve_with_cache(&mut cache, &vec![1], &strings(&["x"]), |_: &Vec<String>| {
        Err("offline".to_string())
    });
    let error = failed.unwrap_err();
    assert!(matches!(&error, ResolveError::Embed(e) if e == "offline"));
    assert_eq!(error.message(), "offline");
    let short = resolve_with_cache(&mut cache, &vec![1], &strings(&["x"]), |_: &Vec<String>| {
        Ok(Vec::new())
    });
    let error = short.unwrap_err();
    assert!(matches!(error, ResolveError::Count { vectors: 0, texts: 1 }));
    assert_eq!(error.message(), "embedder returned 0 vectors for 1 texts");
    assert_eq!(cache.get(1), None);
}

#[test]
fn vectors_of_another_dimension_are_not_kept() {
    let mut cache = EmbeddingCache::empty(2);
    cache.insert(1, vector(&[1.0]));
    assert_eq!(cache.get(1), None);
    let entries = vec![
        CacheEntry { key: 1, vector: vector(&[1.0, 2.0]) },
        CacheEntry { key: 2, vector: vector(&[1.0]) },
    ];
    let kept = accept_entries(Some(Persisted { dim: 2, entries }), 2);
    assert_eq!(kept.len(), 1);
    assert_eq!(kept.get(&1), Some(&vector(&[1.0, 2.0])));
    assert!(accept_entries(None, 2).is_empty());
}

#[test]
fn framed_bytes_read_back_and_foreign_ones_do_not() {
    let body = vec![1u8, 2, 3];
    let framed = frame(&body);
    assert_eq!(unframe(&framed), Some(body));
    assert_eq!(unframe(&vec![1, 2, 3]), None);
    let mut foreign = framed;
    foreign[0] ^= 1;
    assert_eq!(unframe(&foreign), None);
    let read = |_: &String| Some(vec![0u8; 40]);
    let cache = EmbeddingCache::load(Some("f".into()), 2, read, parse);
    assert_eq!(cache.get(0), None);
    let missing = EmbeddingCache::load(Some("f".into()), 2, |_: &String| None, parse);
    assert_eq!(missing.get(0), None);
}

#[test]
fn only_a_changed_cache_with_a_file_is_saved() {
    let stored: Stored = (1, vec![(3u64, vec![1.5f32])]);
    let file = frame(&postcard::to_stdvec(&stored).unwrap());
    let read = |_: &String| Some(file.clone());
    let mut cache = EmbeddingCache::load(Some("dir/emb".into()), 1, read, parse);
    assert!(cache.save(|_, _, _| panic!("nothing has changed")).is_none());
    cache.insert(4, vector(&[2.5]));
    let seen = RefCell::new(Vec::new());
    let saved = cache.save(|path, dim, entries| {
        let mut keys: Vec<u64> = entries.keys().copied().collect();
        keys.sort();
        seen.borrow_mut().push((path.clone(), dim, keys));
        Ok(())
    });
    assert_eq!(saved, Some(Ok(())));
    assert_eq!(*seen.borrow(), vec![("dir/emb".to_string(), 1, vec![3, 4])]);
    let mut homeless = EmbeddingCache::empty(1);
    homeless.insert(1, vector(&[1.0]));
    assert!(homeless.save(|_, _, _| panic!("there is no file")).is_none());
}

#[test]
fn cache_files_are_named_after_model_and_dimension() {
    let path = cache_path(Some("/c/rag-bone".into()), "Org/model v1.5", 768);
    assert_eq!(path.as_deref(), Some("/c/rag-bone/emb-Org_model_v1.5-768.postcard"));
    assert_eq!(cache_path(None, "m", 1), None);
}

#[test]
fn a_saved_cache_loads_in_any_order() {
    let mut cache = EmbeddingCache::load(Some("f".into()), 1, |_: &String| None, parse);
    for key in [9u64, 2, 5] {
        cache.insert(key, vector(&[key as f32]));
    }
    let file = RefCell::new(Vec::new());
    cache.save(|_, dim, entries| {
        let list: Vec<(u64, Vec<f32>)> = entries
            .iter()
            .map(|(k, v)| (*k, v.iter().map(|x| f32::from_bits(x.bits)).collect()))
            .collect();
        let stored: Stored = (dim, list);
        *file.borrow_mut() = frame(&postcard::to_stdvec(&stored).unwrap());
        Ok(())
    });
    let file = file.into_inner();
    let again = EmbeddingCache::load(Some("f".into()), 1, |_: &String| Some(file), parse);
    for key in [9u64, 2, 5] {
        assert_eq!(again.get(key), Some(&vector(&[key as f32])));
    }
}
