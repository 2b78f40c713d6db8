use easyversion::patch::{Patch, PatchError};

#[test]
fn patch_new() {
    assert!(Patch::new(&[2], &[1, 2, 3]).is_ok());
}

#[test]
fn patch_apply() {
    let source = [2];
    let target = [1, 2, 3];
    let patch = Patch::new(&source, &target).unwrap();
    assert_eq!(patch.apply(&source).unwrap(), target);
}

#[test]
fn id() {
    let patch = Patch::new(&[2], &[1, 2, 3]).unwrap();
    assert_eq!(patch.id(), 132369031730439770);
}

#[test]
fn write_to() {
    let patch = Patch::from_data(&[2]);
    let mut out = Vec::new();
    patch.write_to(&mut out);
    assert_eq!(out, [2]);
}

#[test]
fn read_from() {
    let data = [2];
    let patch = Patch::from_data(&data);
    assert_eq!(patch.data(), &data);
}

#[test]
fn read_from_round_trip() {
    let patch = Patch::new(&[5, 6], &[6, 7, 8]).unwrap();
    let mut out = Vec::new();
    patch.write_to(&mut out);
    let reread = Patch::read_from(&out);
    assert_eq!(reread, patch);
    assert_eq!(reread.id(), patch.id());
}

#[test]
fn round_trip_empty_buffers() {
    let source: [u8; 0] = [];
    let target: [u8; 0] = [];
    let patch = Patch::new(&source, &target).unwrap();
    assert_eq!(patch.apply(&source).unwrap(), target);
}

#[test]
fn round_trip_large_change() {
    let source = vec![7u8; 1000];
    let mut target = vec![7u8; 1500];
    target[300] = 9;
    target[1400] = 1;
    let patch = Patch::new(&source, &target).unwrap();
    assert_eq!(patch.apply(&source).unwrap(), target);
}

#[test]
fn apply_rejects_garbage() {
    let garbage = Patch::from_data(&[1, 2, 3, 4]);
    assert!(matches!(
        garbage.apply(&[1]),
        Err(PatchError::DecompressFailed) | Err(PatchError::ApplyFailed)
    ));
}

#[test]
fn len_and_is_empty() {
    let patch = Patch::from_data(&[1, 2]);
    assert_eq!(patch.len(), 2);
    assert!(!patch.is_empty());
    assert!(Patch::from_data(&[]).is_empty());
}
