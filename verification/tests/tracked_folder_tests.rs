use easyversion::timeline::VersionError;
use easyversion::tracked_folder::{PathNode, TrackedFolder, TrackedItem};

fn two_file_folder(name: &str) -> TrackedFolder {
    let entries = vec![
        PathNode::File { path: format!("{}/a.txt", name) },
        PathNode::File { path: format!("{}/b.txt", name) },
    ];
    TrackedFolder::new(name, &entries, "store")
}

#[test]
fn folder_new() {
    let tracked_folder = TrackedFolder::new("folder", &Vec::new(), "store");
    assert_eq!(tracked_folder.version_count(), 0);
    assert!(tracked_folder.is_empty());
    assert_eq!(tracked_folder.len(), 0);
    assert_eq!(tracked_folder.path().as_str(), "folder");
}

#[test]
fn folder_commit() {
    let mut tracked_folder = two_file_folder("folder");
    tracked_folder.commit(&vec![b"a".to_vec(), b"b".to_vec()]).unwrap();
    assert_eq!(tracked_folder.version_count(), 1);
}

#[test]
fn folder_load_version() {
    let mut tracked_folder = two_file_folder("folder");
    tracked_folder.commit(&vec![b"a".to_vec(), b"b".to_vec()]).unwrap();
    let contents = tracked_folder.load_version(0).unwrap();
    assert_eq!(contents, vec![b"a".to_vec(), b"b".to_vec()]);
    assert_eq!(tracked_folder.version_count(), 1);
}

#[test]
fn folder_delete_version() {
    let mut tracked_folder = two_file_folder("folder");
    tracked_folder.commit(&vec![b"a".to_vec(), b"b".to_vec()]).unwrap();
    let live = tracked_folder.delete_version(0).unwrap();
    assert_eq!(live, vec![b"".to_vec(), b"".to_vec()]);
    assert_eq!(tracked_folder.version_count(), 0);
}

#[test]
fn folder_synchronization() {
    let mut tracked_folder = two_file_folder("folder");
    tracked_folder.commit(&vec![b"a1".to_vec(), b"b1".to_vec()]).unwrap();
    tracked_folder.commit(&vec![b"a2".to_vec(), b"b2".to_vec()]).unwrap();
    tracked_folder.commit(&vec![b"a3".to_vec(), b"b3".to_vec()]).unwrap();
    assert_eq!(tracked_folder.version_count(), 3);
    for item in tracked_folder.items() {
        assert_eq!(item.version_count(), 3);
    }
    let contents = tracked_folder.load_version(1).unwrap();
    assert_eq!(contents, vec![b"a2".to_vec(), b"b2".to_vec()]);
}

#[test]
fn nested_folder_traversal_order() {
    let entries = vec![
        PathNode::File { path: "root/a.txt".to_string() },
        PathNode::Folder {
            path: "root/sub".to_string(),
            entries: vec![PathNode::File { path: "root/sub/b.txt".to_string() }],
        },
    ];
    let mut folder = TrackedFolder::new("root", &entries, "store");
    folder.commit(&vec![b"top".to_vec(), b"nested".to_vec()]).unwrap();
    let contents = folder.load_version(0).unwrap();
    assert_eq!(contents, vec![b"top".to_vec(), b"nested".to_vec()]);
    assert_eq!(folder.len(), 2);
    let first = folder.items()[0].file();
    assert!(first.is_some());
    assert_eq!(first.unwrap().path().as_str(), "root/a.txt");
    let second = folder.items()[1].folder();
    assert!(second.is_some());
    assert_eq!(second.unwrap().path().as_str(), "root/sub");
}

#[test]
fn folder_load_without_versions_fails() {
    let folder = two_file_folder("folder");
    assert!(matches!(
        folder.load_version(0),
        Err(VersionError::NoVersionsAvailable)
    ));
}

#[test]
fn folder_fork_starts_afresh() {
    let mut folder = two_file_folder("folder");
    folder.commit(&vec![b"a1".to_vec(), b"b1".to_vec()]).unwrap();
    folder.commit(&vec![b"a2".to_vec(), b"b2".to_vec()]).unwrap();
    let forked = folder.fork(&vec![b"a2".to_vec(), b"b2".to_vec()]).unwrap();
    assert_eq!(forked.version_count(), 1);
    assert_eq!(forked.load_version(0).unwrap(), vec![b"a2".to_vec(), b"b2".to_vec()]);
    assert_eq!(folder.version_count(), 2);
}

#[test]
fn item_from_node_and_derived_operations() {
    let node = PathNode::File { path: "single.txt".to_string() };
    let mut item = TrackedItem::from_node(&node, "store");
    assert!(item.is_empty());
    assert_eq!(item.latest_version_index(), None);
    item.commit(&vec![b"one".to_vec()]).unwrap();
    item.commit(&vec![b"two".to_vec()]).unwrap();
    assert_eq!(item.latest_version_index(), Some(1));
    assert_eq!(item.load_latest().unwrap(), vec![b"two".to_vec()]);
    assert_eq!(item.revert().unwrap(), vec![b"two".to_vec()]);
    let live = item.delete_latest().unwrap();
    assert_eq!(live, vec![b"one".to_vec()]);
    assert_eq!(item.version_count(), 1);
    item.clear_versions().unwrap();
    assert_eq!(item.version_count(), 0);
}

#[test]
fn item_fork_has_one_version() {
    let node = PathNode::File { path: "single.txt".to_string() };
    let mut item = TrackedItem::from_node(&node, "store");
    item.commit(&vec![b"one".to_vec()]).unwrap();
    item.commit(&vec![b"two".to_vec()]).unwrap();
    let forked = item.fork(&vec![b"two".to_vec()]).unwrap();
    assert_eq!(forked.version_count(), 1);
    assert_eq!(forked.load_version(0).unwrap(), vec![b"two".to_vec()]);
    assert_eq!(item.version_count(), 2);
}

#[test]
fn folder_replace_latest() {
    let mut folder = two_file_folder("folder");
    folder.commit(&vec![b"a1".to_vec(), b"b1".to_vec()]).unwrap();
    folder.commit(&vec![b"a2".to_vec(), b"b2".to_vec()]).unwrap();
    folder.replace_latest(&vec![b"a2x".to_vec(), b"b2x".to_vec()]).unwrap();
    assert_eq!(folder.version_count(), 2);
    assert_eq!(
        folder.load_version(1).unwrap(),
        vec![b"a2x".to_vec(), b"b2x".to_vec()]
    );
    assert_eq!(folder.load_version(0).unwrap(), vec![b"a1".to_vec(), b"b1".to_vec()]);
}

#[test]
fn leaf_count_counts_nested_files() {
    let entries = vec![
        PathNode::File { path: "root/a.txt".to_string() },
        PathNode::Folder {
            path: "root/sub".to_string(),
            entries: vec![
                PathNode::File { path: "root/sub/b.txt".to_string() },
                PathNode::File { path: "root/sub/c.txt".to_string() },
            ],
        },
    ];
    let folder = TrackedFolder::new("root", &entries, "store");
    assert_eq!(folder.leaf_count(), 3);
    let node = PathNode::Folder { path: "root".to_string(), entries };
    let item = TrackedItem::from_node(&node, "store");
    assert_eq!(item.leaf_count(), 3);
}
