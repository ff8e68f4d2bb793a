use debugfs::hrange::{Error, HttpFile};

#[test]
fn connect_requires_range_support() {
    assert_eq!(
        Error::NoRange,
        HttpFile::connect(None, Some(&b"100".to_vec())).unwrap_err()
    );
    assert_eq!(
        Error::NoRange,
        HttpFile::connect(Some(&b"none".to_vec()), Some(&b"100".to_vec())).unwrap_err()
    );
    let f = HttpFile::connect(Some(&b"bytes".to_vec()), Some(&b"100".to_vec())).unwrap();
    assert_eq!(100, f.len);
}

#[test]
fn connect_defaults_length_to_zero() {
    let f = HttpFile::connect(Some(&b"bytes".to_vec()), None).unwrap();
    assert_eq!(0, f.len);
    let f = HttpFile::connect(Some(&b"bytes".to_vec()), Some(&b"12x4".to_vec())).unwrap();
    assert_eq!(0, f.len);
}

#[test]
fn ranges_are_inclusive_and_bounded() {
    let f = HttpFile::connect(Some(&b"bytes".to_vec()), Some(&b"73".to_vec())).unwrap();
    assert_eq!(Some((8, 68)), f.reader_at_to(8, 60));
    assert_eq!(None, f.reader_at_to(73, 60));
    assert_eq!(None, f.reader_at_to(100, 1));
}
