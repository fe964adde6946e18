use limmat::util::{
    ByteSize, DisplayablePathBuf, ErrGroup, IoErrorKind, IoResultExt, Rect, SizeError,
};

fn bytes(s: &str) -> Result<usize, SizeError> {
    ByteSize::from_str(s).map(|size| size.to_bytes())
}

#[test]
fn sizes_are_read_with_their_suffixes() {
    assert_eq!(bytes("0"), Ok(0));
    assert_eq!(bytes("123"), Ok(123));
    assert_eq!(bytes("+5"), Ok(5));
    assert_eq!(bytes("2k"), Ok(2048));
    assert_eq!(bytes("2K"), Ok(2048));
    assert_eq!(bytes("3m"), Ok(3 * 1024 * 1024));
    assert_eq!(bytes("3M"), Ok(3 * 1024 * 1024));
    assert_eq!(bytes("1g"), Ok(1024 * 1024 * 1024));
    assert_eq!(bytes("1G"), Ok(1024 * 1024 * 1024));
}

#[test]
fn large_sizes_saturate() {
    assert_eq!(bytes(&usize::MAX.to_string()), Ok(usize::MAX));
    assert_eq!(bytes(&format!("{}G", usize::MAX)), Ok(usize::MAX));
}

#[test]
fn bad_sizes_are_refused() {
    assert_eq!(bytes(""), Err(SizeError::Empty));
    assert_eq!(bytes("K"), Err(SizeError::Empty));
    assert_eq!(bytes("-1"), Err(SizeError::InvalidDigit));
    assert_eq!(bytes("1T"), Err(SizeError::InvalidDigit));
    assert_eq!(bytes("1KK"), Err(SizeError::InvalidDigit));
    assert_eq!(bytes(" 1"), Err(SizeError::InvalidDigit));
    assert_eq!(bytes("+"), Err(SizeError::InvalidDigit));
    assert_eq!(bytes("99999999999999999999999"), Err(SizeError::TooLarge));
    // These are judged as the standard library judges them.
    for s in ["", "-1", "+", "1x", "99999999999999999999999"] {
        assert_eq!(
            bytes(s).unwrap_err().describe(s),
            format!(
                "invalid size format {:?}: {}",
                s,
                s.parse::<usize>().unwrap_err()
            )
        );
    }
}

#[test]
fn operations_on_sizes_saturate() {
    let b = ByteSize::from_bytes;
    assert_eq!(b(3).plus(b(4)), b(7));
    assert_eq!(b(usize::MAX).plus(b(1)), b(usize::MAX));
    assert_eq!(b(7).minus(b(4)), b(3));
    assert_eq!(b(4).minus(b(7)), b(0));
    assert_eq!(ByteSize::sum(&vec![b(1), b(2), b(3)]), b(6));
    assert_eq!(ByteSize::sum(&vec![]), b(0));
    assert_eq!(ByteSize::sum(&vec![b(usize::MAX), b(2)]), b(usize::MAX));
    assert_eq!(ByteSize::from_mib(64).to_bytes(), 67108864);
    assert_eq!(ByteSize::from_mib(usize::MAX).to_bytes(), usize::MAX);
    assert!(b(1) < b(2));
}

#[test]
fn errors_of_one_kind_are_ignored() {
    let exists: Result<(), IoErrorKind> = Err(IoErrorKind::AlreadyExists);
    assert_eq!(exists.ignore(IoErrorKind::AlreadyExists), Ok(()));
    assert_eq!(
        exists.ignore(IoErrorKind::NotFound),
        Err(IoErrorKind::AlreadyExists)
    );
    let fine: Result<(), IoErrorKind> = Ok(());
    assert_eq!(fine.ignore(IoErrorKind::Other(1)), Ok(()));
    let full: Result<(), IoErrorKind> = Err(IoErrorKind::Other(28));
    assert_eq!(full.ignore(IoErrorKind::Other(28)), Ok(()));
    assert_eq!(
        full.ignore(IoErrorKind::Other(13)),
        Err(IoErrorKind::Other(28))
    );
}

#[test]
fn the_first_error_of_a_group_counts() {
    let mut group: ErrGroup<&str> = ErrGroup::new();
    assert!(!group.finished(Ok(())));
    assert!(group.finished(Err("first")));
    assert!(!group.finished(Ok(())));
    assert!(group.finished(Err("second")));
    assert_eq!(group.wait(), Err("first"));

    let mut group: ErrGroup<&str> = ErrGroup::new();
    group.finished(Ok(()));
    assert_eq!(group.wait(), Ok(()));
}

#[test]
fn paths_are_shown_as_they_are() {
    let path = DisplayablePathBuf::from_str("/a b/c");
    assert_eq!(path.to_string(), "/a b/c");
    assert_eq!(path.clone(), path);
}

#[test]
fn rectangles_are_equal_by_size() {
    assert_eq!(Rect { cols: 1, rows: 2 }, Rect { cols: 1, rows: 2 });
    assert_ne!(Rect { cols: 1, rows: 2 }, Rect { cols: 2, rows: 1 });
}
