use py_dependency_mapper::fingerprint::fingerprint;

#[test]
fn fingerprint_of_no_bytes() {
    assert_eq!(
        fingerprint(b""),
        "e3b0c44298fc1c149afbf4c8996fb92427ae41e4649b934ca495991b7852b855"
    );
}

#[test]
fn fingerprint_of_three_letters() {
    assert_eq!(
        fingerprint(b"abc"),
        "ba7816bf8f01cfea414140de5dae2223b00361a396177a9cb410ff61f20015ad"
    );
}

#[test]
fn fingerprint_is_sixty_four_lowercase_hex_digits() {
    let hash = fingerprint(b"import os\n");
    assert_eq!(hash.len(), 64);
    assert!(hash.chars().all(|c| c.is_ascii_digit() || ('a'..='f').contains(&c)));
}

#[test]
fn identical_bytes_have_identical_fingerprints() {
    let first = vec![0u8, 1, 2, 3, 255];
    let second = vec![0u8, 1, 2, 3, 255];
    assert_eq!(fingerprint(&first), fingerprint(&second));
}

#[test]
fn one_changed_byte_changes_the_fingerprint() {
    assert_ne!(fingerprint(b"x = 1\n"), fingerprint(b"x = 2\n"));
}

#[test]
fn line_endings_are_not_normalised() {
    assert_ne!(fingerprint(b"a\nb\n"), fingerprint(b"a\r\nb\r\n"));
}
