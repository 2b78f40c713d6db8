use easyversion::patch::Patch;
use easyversion::timeline::{Timeline, VersionError};

#[test]
fn timeline_new() {
    let timeline = Timeline::new("test-data/timeline/new");
    assert!(timeline.is_empty());
    assert_eq!(timeline.len(), 0);
}

#[test]
fn timeline_push() {
    let patch = Patch::from_data(&[2]);
    let mut timeline = Timeline::new("test-data/timeline/push");
    assert!(timeline.is_empty());
    timeline.push(&patch).unwrap();
    assert_eq!(timeline.len(), 1);
}

#[test]
fn timeline_pop() {
    let patch = Patch::from_data(&[2]);
    let mut timeline = Timeline::new("test-data/timeline/pop");
    assert!(timeline.is_empty());
    timeline.push(&patch).unwrap();
    assert_eq!(timeline.len(), 1);
    timeline.pop().unwrap();
    assert!(timeline.is_empty());
}

#[test]
fn truncate() {
    let patch = Patch::from_data(&[2]);
    let mut timeline = Timeline::new("test-data/timeline/truncate");
    assert!(timeline.is_empty());
    timeline.push(&patch).unwrap();
    assert_eq!(timeline.len(), 1);
    timeline.truncate(0).unwrap();
    assert!(timeline.is_empty());
}

#[test]
fn timeline_get() {
    let patch = Patch::from_data(&[2]);
    let mut timeline = Timeline::new("test-data/timeline/get");
    assert!(timeline.is_empty());
    timeline.push(&patch).unwrap();
    assert_eq!(timeline.len(), 1);
    let gotten_patch = timeline.get(0);
    assert!(gotten_patch.is_ok());
    assert_eq!(gotten_patch.unwrap(), patch);
}

#[test]
fn patch_timeline_new() {
    let timeline = Timeline::new("test-data/patch-timeline/new");
    assert!(timeline.is_empty());
    assert_eq!(timeline.len(), 0);
}

#[test]
fn patch_timeline_push() {
    let patch = Patch::from_data(&[]);
    let mut timeline = Timeline::new("test-data/patch-timeline/push");
    assert!(timeline.is_empty());
    timeline.push(&patch).unwrap();
    assert_eq!(timeline.len(), 1);
}

#[test]
fn patch_timeline_pop() {
    let patch = Patch::from_data(&[]);
    let mut timeline = Timeline::new("test-data/patch-timeline/pop");
    assert!(timeline.is_empty());
    timeline.push(&patch).unwrap();
    assert_eq!(timeline.len(), 1);
    timeline.pop().unwrap();
    assert!(timeline.is_empty());
}

#[test]
fn patch_timeline_get() {
    let patch = Patch::from_data(&[2]);
    let mut timeline = Timeline::new("test-data/patch-timeline/get");
    assert!(timeline.is_empty());
    timeline.push(&patch).unwrap();
    assert_eq!(timeline.len(), 1);
    let gotten_patch = timeline.get(0).unwrap();
    assert_eq!(gotten_patch, patch);
}

#[test]
fn pop_on_empty_reports_no_versions() {
    let mut timeline = Timeline::new("test-data/timeline/pop-empty");
    assert!(matches!(timeline.pop(), Err(VersionError::NoVersionsAvailable)));
}

#[test]
fn truncate_beyond_len_is_out_of_range() {
    let mut timeline = Timeline::new("test-data/timeline/truncate-beyond");
    assert!(matches!(timeline.truncate(1), Err(VersionError::IndexOutOfRange(1))));
}

#[test]
fn get_beyond_len_is_out_of_range() {
    let timeline = Timeline::new("test-data/timeline/get-beyond");
    assert!(matches!(timeline.get(0), Err(VersionError::IndexOutOfRange(0))));
}

#[test]
fn dedup_stores_one_blob_per_distinct_patch() {
    let patch = Patch::from_data(&[9, 9, 9]);
    let mut timeline = Timeline::new("test-data/timeline/dedup");
    timeline.push(&patch).unwrap();
    timeline.push(&patch).unwrap();
    assert_eq!(timeline.len(), 2);
    assert_eq!(timeline.blob_count(), 1);
    let other = Patch::from_data(&[1]);
    timeline.push(&other).unwrap();
    assert_eq!(timeline.len(), 3);
    assert_eq!(timeline.blob_count(), 2);
}

#[test]
fn pop_keeps_blob_while_still_referenced() {
    let patch = Patch::from_data(&[9, 9, 9]);
    let mut timeline = Timeline::new("test-data/timeline/dedup-pop");
    timeline.push(&patch).unwrap();
    timeline.push(&patch).unwrap();
    timeline.pop().unwrap();
    assert_eq!(timeline.len(), 1);
    assert_eq!(timeline.blob_count(), 1);
    timeline.pop().unwrap();
    assert_eq!(timeline.blob_count(), 0);
}

#[test]
fn patch_keys_follow_pushes() {
    let patch = Patch::from_data(&[3, 4]);
    let mut timeline = Timeline::new("test-data/timeline/keys");
    timeline.push(&patch).unwrap();
    assert_eq!(timeline.patch_keys(), &vec![patch.id()]);
    assert_eq!(timeline.patch_dir().as_str(), "test-data/timeline/keys");
}

#[test]
fn reconstruct_replays_the_chain() {
    let mut timeline = Timeline::new("test-data/timeline/reconstruct");
    let first = Patch::new(&[], b"a").unwrap();
    timeline.push(&first).unwrap();
    let second = Patch::new(b"a", b"ab").unwrap();
    timeline.push(&second).unwrap();
    assert_eq!(timeline.reconstruct(0).unwrap(), b"a");
    assert_eq!(timeline.reconstruct(1).unwrap(), b"ab");
    assert!(matches!(timeline.reconstruct(2), Err(VersionError::IndexOutOfRange(2))));
}
