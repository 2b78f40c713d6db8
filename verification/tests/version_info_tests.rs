use easyversion::version_info::{
    Label, VersionIdentifier, VersionInfo, VersionInfoManager, VersionInfoManagerError,
};

#[test]
fn version_info_new() {
    assert!(Label::new("v1.0").is_ok());
    assert!(Label::new("foobar").is_ok());
    assert!(Label::new("foo-bar").is_ok());
    assert!(Label::new(" ").is_err());
    assert!(Label::new("foo bar").is_err());
    assert!(VersionInfo::new(0).label().is_none());
    assert!(VersionInfo::new(0).message().is_none());
    assert!(VersionInfo::new(1).label().is_none());
    assert!(VersionInfo::new(1).message().is_none());
    assert!(VersionInfo::new(2).label().is_none());
    assert!(VersionInfo::new(2).message().is_none());
    assert!(VersionInfoManager::new().versions().is_empty());
}

#[test]
fn is_valid_name() {
    assert!(Label::is_valid_name("v1.0"));
    assert!(Label::is_valid_name("foobar"));
    assert!(Label::is_valid_name("foo-bar"));
    assert!(!Label::is_valid_name(" "));
    assert!(!Label::is_valid_name("foo bar"));
}

#[test]
fn label_new() {
    let label = Label::new("label");
    assert!(label.is_ok());

    let label = Label::new("label 2 electric boogaloo");
    assert!(label.is_err());
}

#[test]
fn label_rejects_unicode_whitespace() {
    assert!(Label::new("wide\u{3000}space").is_err());
    assert!(Label::new("thin\u{2009}space").is_err());
    assert!(Label::new("nonspace\u{00b7}dot").is_ok());
    assert_eq!(Label::new("v2").unwrap().name(), "v2");
}

#[test]
fn with_message() {
    assert!(VersionInfo::with_message(0, "0").label().is_none());
    assert!(VersionInfo::with_message(0, "0").message().is_some_and(|message| message == "0"));
    assert!(VersionInfo::with_message(1, "1").label().is_none());
    assert!(VersionInfo::with_message(1, "1").message().is_some_and(|message| message == "1"));
    assert!(VersionInfo::with_message(2, "2").label().is_none());
    assert!(VersionInfo::with_message(2, "2").message().is_some_and(|message| message == "2"));
}

#[test]
fn identifier() {
    assert!(VersionInfo::new(0).identifier().label().is_none());
    assert!(VersionInfo::new(0).identifier().index().is_some_and(|index| index == 0));
    assert!(VersionInfo::new(1).identifier().label().is_none());
    assert!(VersionInfo::new(1).identifier().index().is_some_and(|index| index == 1));
    assert!(VersionInfo::new(2).identifier().label().is_none());
    assert!(VersionInfo::new(2).identifier().index().is_some_and(|index| index == 2));
}

#[test]
fn labelled_identifier_carries_the_label() {
    let mut info = VersionInfo::new(3);
    info.set_label(Label::new("stable").unwrap());
    let id = info.identifier();
    assert!(id.index().is_none());
    assert_eq!(id.label().unwrap().name(), "stable");
}

#[test]
fn versions() {
    let versions = vec![];
    assert!(VersionInfoManager::from_versions(versions.clone()).versions().is_empty());
    let versions = vec![VersionInfo::new(0), VersionInfo::new(1), VersionInfo::new(2)];
    assert_eq!(VersionInfoManager::from_versions(versions.clone()).versions(), &versions);
}

#[test]
fn version_info_get() {
    let versions = vec![VersionInfo::new(0), VersionInfo::new(1), VersionInfo::new(2)];
    let manager = VersionInfoManager::from_versions(versions.clone());
    assert!(manager.get(&VersionIdentifier::from_index(0)).is_some());
    assert!(manager.get(&VersionIdentifier::from_index(1)).is_some());
    assert!(manager.get(&VersionIdentifier::from_index(2)).is_some());
    assert!(manager.get(&VersionIdentifier::from_label(Label::new("foo").unwrap())).is_none());
}

#[test]
fn get_mut() {
    let versions = vec![VersionInfo::new(0), VersionInfo::new(1), VersionInfo::new(2)];
    let mut manager = VersionInfoManager::from_versions(versions.clone());
    assert!(manager.get_mut(&VersionIdentifier::from_index(0)).is_some());
    assert!(manager.get_mut(&VersionIdentifier::from_index(1)).is_some());
    assert!(manager.get_mut(&VersionIdentifier::from_index(2)).is_some());
    assert!(manager.get_mut(&VersionIdentifier::from_label(Label::new("foo").unwrap())).is_none());
}

#[test]
fn get_mut_updates_in_place() {
    let versions = vec![VersionInfo::new(0), VersionInfo::new(1)];
    let mut manager = VersionInfoManager::from_versions(versions);
    let info = manager.get_mut(&VersionIdentifier::from_index(1)).unwrap();
    info.set_message("second");
    let reread = manager.get(&VersionIdentifier::from_index(1)).unwrap();
    assert_eq!(reread.message(), Some("second"));
}

#[test]
fn contains_label() {
    let mut version = VersionInfo::new(2);
    version.set_label(Label::new("foo").unwrap());
    let versions = vec![VersionInfo::new(0), VersionInfo::new(1), version];
    let manager = VersionInfoManager::from_versions(versions.clone());
    assert!(manager.contains_label(&Label::new("foo").unwrap()));
    assert!(!manager.contains_label(&Label::new("1.0").unwrap()));
}

#[test]
fn set_label() {
    let mut version = VersionInfo::new(2);
    version.set_label(Label::new("foo").unwrap());
    let versions = vec![VersionInfo::new(0), VersionInfo::new(1), version];
    let mut manager = VersionInfoManager::from_versions(versions.clone());
    assert!(manager.set_label(&VersionIdentifier::from_index(2), Label::new("bar").unwrap()).is_ok());
    assert!(manager.set_label(&VersionIdentifier::from_index(2), Label::new("foo").unwrap()).is_ok());
    assert!(manager
        .set_label(
            &VersionIdentifier::from_label(Label::new("bar").unwrap()),
            Label::new("baz").unwrap()
        )
        .is_err());
}

#[test]
fn set_label_error_variants() {
    let mut manager = VersionInfoManager::new();
    manager.add_version();
    manager.add_version();
    manager.set_label(&VersionIdentifier::from_index(0), Label::new("taken").unwrap()).unwrap();
    assert_eq!(
        manager.set_label(&VersionIdentifier::from_index(1), Label::new("taken").unwrap()),
        Err(VersionInfoManagerError::DuplicateLabel)
    );
    assert_eq!(
        manager.set_label(&VersionIdentifier::from_index(7), Label::new("fresh").unwrap()),
        Err(VersionInfoManagerError::VersionIdentifierNotFound)
    );
}

#[test]
fn add_version_info() {
    let mut manager = VersionInfoManager::new();
    manager.add_version_info();
    assert_eq!(manager.versions().len(), 1);
}

#[test]
fn test_version_count() {
    let mut version_info_manager = VersionInfoManager::new();
    assert_eq!(version_info_manager.version_count(), 0);
    version_info_manager.add_version();
    assert_eq!(version_info_manager.version_count(), 1);
    version_info_manager.add_version();
    assert_eq!(version_info_manager.version_count(), 2);
}

#[test]
fn test_latest_version_index() {
    let mut version_info_manager = VersionInfoManager::new();
    assert_eq!(version_info_manager.latest_version_index(), None);
    version_info_manager.add_version();
    assert_eq!(version_info_manager.latest_version_index(), Some(0));
    version_info_manager.add_version();
    assert_eq!(version_info_manager.latest_version_index(), Some(1));
}

#[test]
fn test_clear() {
    let mut version_info_manager = VersionInfoManager::new();
    version_info_manager.add_version();
    version_info_manager.add_version();
    version_info_manager.clear();
    assert_eq!(version_info_manager.version_count(), 0);
}

#[test]
fn test_fork() {
    let version_info_manager = VersionInfoManager::new();
    let forked_version_info_manager = version_info_manager.fork();
    assert_eq!(forked_version_info_manager.version_count(), 1);
}

#[test]
fn test_set_label() {
    let mut version_info_manager = VersionInfoManager::new();
    version_info_manager.add_version();
    let label = Label::new("label").unwrap();
    assert!(version_info_manager.set_label(&VersionIdentifier::Index(0), label.clone()).is_ok());
    assert!(version_info_manager.set_label(&VersionIdentifier::Index(0), label).is_err());
}

#[test]
fn remove_version_truncates_at_the_stored_index() {
    let mut manager = VersionInfoManager::new();
    manager.add_version();
    manager.add_version();
    manager.add_version();
    manager.remove_version(&VersionIdentifier::from_index(1));
    assert_eq!(manager.version_count(), 1);
    manager.remove_version(&VersionIdentifier::from_index(9));
    assert_eq!(manager.version_count(), 1);
}

#[test]
fn clear_and_set_message_roundtrip() {
    let mut info = VersionInfo::with_message(4, "first");
    info.set_message("second");
    assert_eq!(info.message(), Some("second"));
    info.clear_message();
    assert!(info.message().is_none());
    info.set_label(Label::new("tag").unwrap());
    info.clear_label();
    assert!(info.label().is_none());
    assert_eq!(info.index(), 4);
}
