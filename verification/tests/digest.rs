use limmat::digest::{digest_text, DigestHasher};
use sha3::{Digest, Sha3_256};

#[test]
fn the_empty_digest_is_the_known_one() {
    assert_eq!(
        DigestHasher::new().finish(),
        "a7ffc6f8bf1ed76651c14756a061d662f580ff4de43b49fa82d80a4b80f8434a"
    );
}

#[test]
fn digests_are_written_in_hexadecimal() {
    assert_eq!(digest_text(&vec![0, 10, 255, 128]), "000aff80");
    assert_eq!(digest_text(&vec![]), "");
}

#[test]
fn values_are_digested_byte_by_byte() {
    let mut hasher = DigestHasher::new();
    hasher.write_number(0x0102);
    hasher.write_signed(-2);
    hasher.write_signed(3);
    hasher.write_flag(true);
    hasher.write_flag(false);
    hasher.write_text("aé");
    hasher.write_texts(&vec!["x".to_owned(), "".to_owned()]);
    hasher.write_signed_numbers(&vec![-1]);
    let bytes: Vec<u8> = [
        &[2, 1, 0, 0, 0, 0, 0, 0][..],
        &[0xfe, 0xff, 0xff, 0xff],
        &[3, 0, 0, 0],
        &[1],
        &[0],
        &[b'a', 0xc3, 0xa9, 0xff],
        &[2, 0, 0, 0, 0, 0, 0, 0, b'x', 0xff, 0xff],
        &[1, 0, 0, 0, 0, 0, 0, 0, 0xff, 0xff, 0xff, 0xff],
    ]
    .concat();
    assert_eq!(hasher.finish(), hex::encode(Sha3_256::digest(&bytes)));
}

#[test]
fn lists_are_told_apart() {
    let digest = |lists: &[&[&str]]| {
        let mut hasher = DigestHasher::new();
        for list in lists {
            hasher.write_texts(&list.iter().map(|s| s.to_string()).collect());
        }
        hasher.finish()
    };
    assert_ne!(digest(&[&["a", "b"]]), digest(&[&["ab"]]));
    assert_ne!(digest(&[&["a"], &["b"]]), digest(&[&["a", "b"], &[]]));
    assert_eq!(digest(&[&["a"]]), digest(&[&["a"]]));
}
