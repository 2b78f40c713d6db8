use easyversion::timeline::VersionError;
use easyversion::tracked_file::TrackedFile;

#[test]
fn file_new() {
    let tracked_file = TrackedFile::new("file.txt", "store");
    assert_eq!(tracked_file.path().as_str(), "file.txt");
    assert_eq!(tracked_file.version_count(), 0);
}

#[test]
fn file_commit() {
    let mut tracked_file = TrackedFile::new("file.txt", "store");
    tracked_file.commit(b"hello world").unwrap();
    assert_eq!(tracked_file.version_count(), 1);
}

#[test]
fn apply_no_versions_available() {
    let tracked_file = TrackedFile::new("file.txt", "store");
    let result = tracked_file.apply(0);
    assert!(matches!(result, Err(VersionError::NoVersionsAvailable)));
}

#[test]
fn file_apply() {
    let mut tracked_file = TrackedFile::new("file.txt", "store");
    tracked_file.commit(b"hello world").unwrap();
    let source = tracked_file.apply(0).unwrap();
    assert_eq!(&source, b"hello world");
}

#[test]
fn file_load_version() {
    let mut tracked_file = TrackedFile::new("file.txt", "store");
    tracked_file.commit(b"hello world").unwrap();
    let content = tracked_file.load_version(0).unwrap();
    assert_eq!(&content, b"hello world");
}

#[test]
fn load_version_no_versions_available() {
    let tracked_file = TrackedFile::new("file.txt", "store");
    let result = tracked_file.load_version(0);
    assert!(matches!(result, Err(VersionError::NoVersionsAvailable)));
}

#[test]
fn file_delete_version() {
    let mut tracked_file = TrackedFile::new("file.txt", "store");
    tracked_file.commit(b"hello world").unwrap();
    tracked_file.delete_version(0).unwrap();
    let result = tracked_file.load_version(0);
    assert!(matches!(result, Err(VersionError::NoVersionsAvailable)));
}

#[test]
fn delete_version_no_versions_available() {
    let mut tracked_file = TrackedFile::new("file.txt", "store");
    let result = tracked_file.delete_version(0);
    assert!(matches!(result, Err(VersionError::NoVersionsAvailable)));
}

#[test]
fn version_count() {
    let tracked_file = TrackedFile::new("file.txt", "store");
    assert_eq!(tracked_file.version_count(), 0);
}

#[test]
fn chain_reconstruction() {
    let mut tracked_file = TrackedFile::new("file.txt", "store");
    tracked_file.commit(b"a").unwrap();
    tracked_file.commit(b"ab").unwrap();
    tracked_file.commit(b"abc").unwrap();
    assert_eq!(tracked_file.load_version(0).unwrap(), b"a");
    assert_eq!(tracked_file.load_version(1).unwrap(), b"ab");
    assert_eq!(tracked_file.load_version(2).unwrap(), b"abc");
}

#[test]
fn truncation_leaves_version_zero_live() {
    let mut tracked_file = TrackedFile::new("file.txt", "store");
    tracked_file.commit(b"a").unwrap();
    tracked_file.commit(b"ab").unwrap();
    tracked_file.commit(b"abc").unwrap();
    assert_eq!(tracked_file.version_count(), 3);
    let live = tracked_file.delete_version(1).unwrap();
    assert_eq!(tracked_file.version_count(), 1);
    assert_eq!(live, b"a");
    assert!(matches!(
        tracked_file.load_version(1),
        Err(VersionError::IndexOutOfRange(1)) | Err(VersionError::NoVersionsAvailable)
    ));
}

#[test]
fn load_version_beyond_count_is_out_of_range() {
    let mut tracked_file = TrackedFile::new("file.txt", "store");
    tracked_file.commit(b"a").unwrap();
    assert!(matches!(
        tracked_file.load_version(1),
        Err(VersionError::IndexOutOfRange(1))
    ));
}

#[test]
fn fork_independence() {
    let mut tracked_file = TrackedFile::new("file.txt", "store");
    tracked_file.commit(b"a").unwrap();
    tracked_file.commit(b"ab").unwrap();
    assert_eq!(tracked_file.version_count(), 2);
    let mut forked = tracked_file.fork(b"ab").unwrap();
    assert_eq!(forked.version_count(), 1);
    assert_eq!(forked.load_version(0).unwrap(), b"ab");
    forked.commit(b"abc").unwrap();
    assert_eq!(forked.version_count(), 2);
    assert_eq!(tracked_file.version_count(), 2);
    assert_eq!(tracked_file.load_version(1).unwrap(), b"ab");
}

#[test]
fn load_latest_and_revert() {
    let mut tracked_file = TrackedFile::new("file.txt", "store");
    assert!(matches!(
        tracked_file.load_latest(),
        Err(VersionError::NoVersionsAvailable)
    ));
    tracked_file.commit(b"one").unwrap();
    tracked_file.commit(b"two").unwrap();
    assert_eq!(tracked_file.load_latest().unwrap(), b"two");
    assert_eq!(tracked_file.revert().unwrap(), b"two");
    assert_eq!(tracked_file.latest_version_index(), Some(1));
}

#[test]
fn delete_latest_drops_one_version() {
    let mut tracked_file = TrackedFile::new("file.txt", "store");
    tracked_file.commit(b"one").unwrap();
    tracked_file.commit(b"two").unwrap();
    let live = tracked_file.delete_latest().unwrap();
    assert_eq!(live, b"one");
    assert_eq!(tracked_file.version_count(), 1);
}

#[test]
fn replace_latest_swaps_the_last_version() {
    let mut tracked_file = TrackedFile::new("file.txt", "store");
    tracked_file.commit(b"one").unwrap();
    tracked_file.commit(b"two").unwrap();
    tracked_file.replace_latest(b"2").unwrap();
    assert_eq!(tracked_file.version_count(), 2);
    assert_eq!(tracked_file.load_version(1).unwrap(), b"2");
    assert_eq!(tracked_file.load_version(0).unwrap(), b"one");
}

#[test]
fn clear_versions_empties_the_history() {
    let mut tracked_file = TrackedFile::new("file.txt", "store");
    tracked_file.commit(b"one").unwrap();
    tracked_file.commit(b"two").unwrap();
    tracked_file.clear_versions().unwrap();
    assert_eq!(tracked_file.version_count(), 0);
    assert!(tracked_file.is_empty());
}

#[test]
fn store_key_depends_on_the_path() {
    let a = TrackedFile::new("a.txt", "store");
    let again = TrackedFile::new("a.txt", "store");
    assert_eq!(a.store_key(), again.store_key());
    assert_eq!(a.timeline().patch_dir().as_str(), "store");
}

#[test]
fn restore_rebuilds_the_history() {
    let mut original = TrackedFile::new("file.txt", "store");
    original.commit(b"a").unwrap();
    original.commit(b"ab").unwrap();
    let timeline = original.timeline();
    let mut blobs = Vec::new();
    for i in 0..timeline.len() {
        blobs.push(timeline.get(i).unwrap().data().to_vec());
    }
    let restored = TrackedFile::restore("file.txt", "store", &blobs).unwrap();
    assert_eq!(restored.version_count(), 2);
    assert_eq!(restored.load_version(0).unwrap(), b"a");
    assert_eq!(restored.load_version(1).unwrap(), b"ab");
    assert_eq!(restored.timeline().patch_keys(), original.timeline().patch_keys());
}

#[test]
fn recommit_of_unchanged_content_reuses_the_blob() {
    let mut tracked_file = TrackedFile::new("file.txt", "store");
    tracked_file.commit(b"same").unwrap();
    tracked_file.commit(b"same").unwrap();
    tracked_file.commit(b"same").unwrap();
    assert_eq!(tracked_file.version_count(), 3);
    assert_eq!(tracked_file.load_version(2).unwrap(), b"same");
    // the second and third commits store the same no-op delta once
    assert_eq!(tracked_file.timeline().blob_count(), 2);
}
