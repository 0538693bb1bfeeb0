use rag_bone::walk::discover;

fn strings(list: &[&str]) -> Vec<String> {
    list.iter().map(|s| s.to_string()).collect()
}

#[test]
fn discovers_supported_files_only() {
    let found = discover(&strings(&["dir/a.rs", "dir/b.md", "dir/c.bin"]));
    assert!(found.contains(&"dir/a.rs".to_string()));
    assert!(found.contains(&"dir/b.md".to_string()));
    assert!(!found.contains(&"dir/c.bin".to_string()));
}

#[test]
fn discovered_files_are_sorted_and_each_once() {
    let found = discover(&strings(&["b/z.rs", "a/y.rs", "b//z.rs", "a-b/x.rs", "b/./z.rs"]));
    // Paths are ordered by component: `a` before `a-b`.
    assert_eq!(found, ["a/y.rs", "a-b/x.rs", "b/z.rs"]);
    assert!(discover(&Vec::new()).is_empty());
}

#[test]
fn order_and_repetition_of_walked_files_make_no_difference() {
    let once = discover(&strings(&["a/x.rs", "b/y.md", "c.bin"]));
    assert_eq!(once, ["a/x.rs", "b/y.md"]);
    assert_eq!(discover(&strings(&["b/y.md", "c.bin", "a/x.rs"])), once);
    assert_eq!(discover(&strings(&["a/x.rs", "b/y.md", "a/x.rs", "c.bin", "b/y.md"])), once);
    assert!(discover(&strings(&["c.bin"])).is_empty());
}
