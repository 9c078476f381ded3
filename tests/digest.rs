use pwned_search::digest::{is_valid_sha1_hash, query_key, sha1_hash, to_hex_upper};

fn is_upper_hex(s: &str) -> bool {
    s.chars().all(|c| c.is_ascii_digit() || ('A'..='F').contains(&c))
}

#[test]
fn sha1_of_empty_input() {
    assert_eq!(sha1_hash(""), "DA39A3EE5E6B4B0D3255BFEF95601890AFD80709");
}

#[test]
fn sha1_of_known_passwords() {
    assert_eq!(sha1_hash("password"), "5BAA61E4C9B93F3F0682250B6CF8331B7EE68FD8");
    assert_eq!(sha1_hash("123456"), "7C4A8D09CA3762AF61E59520943DC26494F8941B");
    assert_eq!(sha1_hash("abc"), "A9993E364706816ABA3E25717850C26C9CD0D89D");
}

#[test]
fn digest_has_forty_uppercase_hex_digits() {
    for s in ["", "a", "password", "ünïcødé ✓", "a much longer passphrase with spaces"] {
        let d = sha1_hash(s);
        assert_eq!(d.len(), 40);
        assert!(is_upper_hex(&d));
    }
}

#[test]
fn digest_is_the_same_on_every_call() {
    for s in ["", "hunter2", "ünïcødé"] {
        assert_eq!(sha1_hash(s), sha1_hash(s));
    }
}

#[test]
fn hex_is_uppercase_high_half_first() {
    assert_eq!(to_hex_upper(&[0x00, 0xab, 0x0f, 0xf0, 0xff]), "00AB0FF0FF");
    assert_eq!(to_hex_upper(&[]), "");
}

#[test]
fn valid_hash_accepts_either_case() {
    assert!(is_valid_sha1_hash("7C4A8D09CA3762AF61E59520943DC26494F8941B"));
    assert!(is_valid_sha1_hash("7c4a8d09ca3762af61e59520943dc26494f8941b"));
    assert!(is_valid_sha1_hash("7c4A8d09Ca3762af61e59520943dc26494f8941B"));
}

#[test]
fn valid_hash_rejects_other_strings() {
    assert!(!is_valid_sha1_hash(""));
    assert!(!is_valid_sha1_hash("7C4A8D09CA3762AF61E59520943DC26494F8941"));
    assert!(!is_valid_sha1_hash("7C4A8D09CA3762AF61E59520943DC26494F8941BB"));
    assert!(!is_valid_sha1_hash("7C4A8D09CA3762AF61E59520943DC26494F8941G"));
    assert!(!is_valid_sha1_hash("password"));
    assert!(!is_valid_sha1_hash("ééééééééééééééééééébb"));
}

#[test]
fn query_key_uppercases_a_given_digest() {
    assert_eq!(
        query_key("7c4a8d09ca3762af61e59520943dc26494f8941b"),
        "7C4A8D09CA3762AF61E59520943DC26494F8941B"
    );
    assert_eq!(
        query_key("F7C3BC1D808E04732ADF679965CCC34CA7AE3441"),
        "F7C3BC1D808E04732ADF679965CCC34CA7AE3441"
    );
}

#[test]
fn query_key_hashes_a_password() {
    assert_eq!(query_key("password"), "5BAA61E4C9B93F3F0682250B6CF8331B7EE68FD8");
    assert_eq!(query_key(""), "DA39A3EE5E6B4B0D3255BFEF95601890AFD80709");
}
