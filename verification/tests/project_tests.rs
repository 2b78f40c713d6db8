use easyversion::easy_version::EasyVersion;
use easyversion::project::{Project, VersionInfo};
use easyversion::tracked_folder::PathNode;

fn items_node() -> PathNode {
    PathNode::Folder {
        path: "test-data/project/items".to_string(),
        entries: vec![PathNode::File { path: "test-data/project/items/file.txt".to_string() }],
    }
}

#[test]
fn project_test_new() {
    let name = "Test name";
    let description = "Test description";
    let version_info = VersionInfo::new(name, Some(description));
    assert_eq!(version_info.name(), name);
    assert_eq!(version_info.description(), Some(description));

    let project = Project::new(&items_node(), &vec![b"123".to_vec()]);
    assert!(project.is_ok());
}

#[test]
fn test_with_patch_dir() {
    let project = Project::with_patch_dir(
        &items_node(),
        "test-data/project/patches",
        &vec![b"123".to_vec()],
    );
    assert!(project.is_ok());
}

#[test]
fn test_save() {
    let mut project = Project::new(&items_node(), &vec![b"123".to_vec()]).unwrap();
    project.save(VersionInfo::new("first", None), &vec![b"124".to_vec()]).unwrap();
    assert_eq!(project.versions().len(), 1);
    assert_eq!(project.versions()[0].name(), "first");
}

#[test]
fn test_load() {
    let mut project = Project::new(&items_node(), &vec![b"123".to_vec()]).unwrap();
    project.save(VersionInfo::new("first", None), &vec![b"124".to_vec()]).unwrap();
    assert_eq!(project.load(0).unwrap(), vec![b"123".to_vec()]);
    assert_eq!(project.load(1).unwrap(), vec![b"124".to_vec()]);
}

#[test]
fn easy_version_new() {
    let _ = EasyVersion::new();
}

#[test]
fn new_project() {
    let mut easy_version = EasyVersion::new();
    easy_version
        .new_project("test-data/easy-version/items/A", &items_node(), &vec![b"123".to_vec()])
        .unwrap();
    assert!(easy_version.get_current_project().is_some());
}

#[test]
fn new_project_twice_appends_under_the_same_path() {
    let mut easy_version = EasyVersion::new();
    let node = items_node();
    easy_version.new_project("A", &node, &vec![b"one".to_vec()]).unwrap();
    easy_version.new_project("A", &node, &vec![b"two".to_vec()]).unwrap();
    let current = easy_version.get_current_project().unwrap();
    assert_eq!(current.load(0).unwrap(), vec![b"two".to_vec()]);
    easy_version.set_current_project("A", 0);
    let first = easy_version.get_current_project().unwrap();
    assert_eq!(first.load(0).unwrap(), vec![b"one".to_vec()]);
}

#[test]
fn cursor_on_missing_project_yields_none() {
    let mut easy_version = EasyVersion::new();
    easy_version.set_current_project("nowhere", 3);
    assert!(easy_version.get_current_project().is_none());
    assert!(easy_version.get_current_project_mut().is_none());
}

#[test]
fn current_project_mut_saves_through() {
    let mut easy_version = EasyVersion::new();
    easy_version.new_project("A", &items_node(), &vec![b"one".to_vec()]).unwrap();
    let project = easy_version.get_current_project_mut().unwrap();
    project.save(VersionInfo::new("second", None), &vec![b"two".to_vec()]).unwrap();
    let reread = easy_version.get_current_project().unwrap();
    assert_eq!(reread.versions().len(), 1);
    assert_eq!(reread.load(1).unwrap(), vec![b"two".to_vec()]);
}
