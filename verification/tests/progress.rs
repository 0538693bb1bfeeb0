use rag_bone::progress::Progress;

#[test]
fn reports_start_intervals_and_completion() {
    let mut progress = Progress::new(100);
    assert_eq!(progress.update(0), Some(0));
    assert_eq!(progress.update(4), None);
    assert_eq!(progress.update(5), Some(5));
    assert_eq!(progress.update(99), Some(99));
    assert_eq!(progress.update(100), Some(100));
    assert_eq!(progress.update(100), None);
}

#[test]
fn empty_work_is_complete() {
    assert_eq!(Progress::new(0).update(0), Some(100));
}

#[test]
fn reports_only_go_up() {
    let mut progress = Progress::new(3);
    let reports: Vec<usize> = [0, 2, 1, 3, 9].iter().filter_map(|n| progress.update(*n)).collect();
    assert_eq!(reports, [0, 66, 100]);
}

#[test]
fn completion_is_reported_whatever_the_total() {
    let mut progress = Progress::new(usize::MAX);
    assert_eq!(progress.update(usize::MAX / 2), Some(49));
    assert_eq!(progress.update(usize::MAX), Some(100));
    assert_eq!(Progress::new(usize::MAX).update(usize::MAX), Some(100));
}
