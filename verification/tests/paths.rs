use rag_bone::float::FloatBits;
use rag_bone::hash::content_hash;
use rag_bone::hashes::FileHashes;
use rag_bone::path::{is_same_path, join_path, parent_dir, strip_base};
use std::path::Path;

const SAMPLES: [&str; 14] = [
    "", ".", "/", "a", "a/b", "./a", "a/./b", "a//b/", "/a", "/a/b", "../a", "a/..", "./", "a b/c.d",
];

#[test]
fn paths_are_compared_by_component() {
    for a in SAMPLES {
        for b in SAMPLES {
            assert_eq!(is_same_path(a, b), Path::new(a) == Path::new(b), "{a:?} {b:?}");
        }
    }
}

#[test]
fn paths_are_joined_stripped_and_cut() {
    for a in SAMPLES {
        for b in SAMPLES {
            let joined = Path::new(a).join(b);
            assert_eq!(join_path(a, b), joined.to_str().unwrap(), "{a:?} {b:?}");
            let rel = Path::new(a).strip_prefix(b).unwrap_or(Path::new(a));
            assert_eq!(strip_base(a, b), rel.to_str().unwrap(), "{a:?} {b:?}");
        }
        let parent = Path::new(a).parent().filter(|p| !p.as_os_str().is_empty());
        let expected = parent.unwrap_or(Path::new("."));
        assert_eq!(parent_dir(a), expected.to_str().unwrap(), "{a:?}");
    }
}

#[test]
fn hashes_are_kept_by_path() {
    let mut h = FileHashes::new();
    h.insert("a/b".into(), 1);
    h.insert("a//b".into(), 2);
    h.insert("c".into(), 3);
    assert_eq!(h.len(), 2);
    assert_eq!(h.get("a/./b"), Some(2));
    assert_eq!(*h.paths(), vec!["a/b".to_string(), "c".to_string()]);
    assert!(h.contains("c/"));
    h.remove("a/b/");
    assert_eq!(h.get("a/b"), None);
    assert_eq!(h.len(), 1);
}

#[test]
fn contents_are_hashed_as_bytes() {
    assert_eq!(content_hash(""), 0x2d06800538d394c2);
    assert_eq!(content_hash("\u{e9}"), xxhash_rust::xxh3::xxh3_64(&[0xc3, 0xa9]));
}

#[test]
fn float_bits_order_as_floats_do() {
    let values = [
        f32::NEG_INFINITY, -1.5, -0.0, 0.0, f32::MIN_POSITIVE, 0.25, 1.0, f32::MAX, f32::INFINITY,
        f32::NAN, -f32::NAN,
    ];
    for a in values {
        let x = FloatBits { bits: a.to_bits() };
        assert_eq!(x.is_finite(), a.is_finite());
        assert_eq!(x.is_zero(), a == 0.0);
        for b in values {
            let y = FloatBits { bits: b.to_bits() };
            assert_eq!(x.ge(y), a >= b, "{a} {b}");
            assert_eq!(x.total_order() < y.total_order(), a.total_cmp(&b).is_lt(), "{a} {b}");
        }
    }
}

#[test]
fn what_a_file_is_called_leads_back_to_it() {
    for base in SAMPLES {
        for rel in ["a/b.rs", "./a", "x//y", "..", "a/"] {
            let p = join_path(base, rel);
            assert!(is_same_path(&join_path(base, &strip_base(&p, base)), &p), "{base:?} {rel:?}");
        }
    }
    assert!(is_same_path(&join_path("proj", &strip_base("/abs/x", "proj")), "/abs/x"));
}
