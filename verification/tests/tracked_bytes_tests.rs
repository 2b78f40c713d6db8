use easyversion::tracked_bytes::TrackedBytes;

#[test]
fn tracked_bytes_save() {
    let bytes = vec![0; 10];
    let mut bytes_history = TrackedBytes::new("test-data/tracked-bytes/patches");
    assert!(bytes_history.save(&bytes).is_ok());
}

#[test]
fn tracked_bytes_load() {
    let mut bytes = vec![0; 5];
    let mut bytes_history = TrackedBytes::new("test-data/tracked-bytes/patches");
    bytes_history.save(&bytes).unwrap();
    bytes[0] = 1;
    bytes_history.save(&bytes).unwrap();
    assert_eq!(&bytes, &vec![1, 0, 0, 0, 0]);
    let loaded = bytes_history.load(0).unwrap();
    assert_eq!(&loaded, &vec![0, 0, 0, 0, 0]);
    let loaded = bytes_history.load(1).unwrap();
    assert_eq!(&loaded, &vec![1, 0, 0, 0, 0]);
}

#[test]
fn tracked_bytes_new() {
    let bytes_history = TrackedBytes::new("test-data/tracked-bytes/patches");
    assert!(bytes_history.is_empty());
    assert_eq!(bytes_history.len(), 0);
}

#[test]
fn tracked_bytes_truncate() {
    let mut bytes_history = TrackedBytes::new("test-data/tracked-bytes/patches");
    bytes_history.save(b"a").unwrap();
    bytes_history.save(b"ab").unwrap();
    bytes_history.truncate(1).unwrap();
    assert_eq!(bytes_history.len(), 1);
    assert_eq!(bytes_history.load(0).unwrap(), b"a");
}
