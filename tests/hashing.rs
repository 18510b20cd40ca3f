use distinct_hash::algorithm::{algorithm_from_upper, digest_len, parse_algorithm, HashAlgorithm};
use distinct_hash::hasher::Hasher;

fn hex(bytes: &[u8]) -> String {
    let mut s = String::new();
    for b in bytes {
        s.push_str(&format!("{:02x}", b));
    }
    s
}

fn digest(alg: HashAlgorithm, chunks: &[&[u8]]) -> Vec<u8> {
    let mut h = Hasher::new(alg);
    for c in chunks {
        h.update(c);
    }
    h.finish().unwrap()
}

#[test]
fn sha256_of_abc() {
    assert_eq!(
        hex(&digest(HashAlgorithm::Sha256, &[b"abc"])),
        "ba7816bf8f01cfea414140de5dae2223b00361a396177a9cb410ff61f20015ad"
    );
}

#[test]
fn sha256_of_nothing() {
    assert_eq!(
        hex(&digest(HashAlgorithm::Sha256, &[])),
        "e3b0c44298fc1c149afbf4c8996fb92427ae41e4649b934ca495991b7852b855"
    );
}

#[test]
fn sha384_of_abc() {
    assert_eq!(
        hex(&digest(HashAlgorithm::Sha384, &[b"abc"])),
        "cb00753f45a35e8bb5a03d699ac65007272c32ab0eded1631a8b605a43ff5bed8086072ba1e7cc2358baeca134c825a7"
    );
}

#[test]
fn sha512_of_abc() {
    assert_eq!(
        hex(&digest(HashAlgorithm::Sha512, &[b"abc"])),
        "ddaf35a193617abacc417349ae20413112e6fa4e89a97ea20a9eeee64b55d39a2192992a274fc1a836ba3c23a3feebbd454d4423643ce80e2a9ac94fa54ca49f"
    );
}

#[test]
fn sha512_256_of_abc() {
    assert_eq!(
        hex(&digest(HashAlgorithm::Sha512_256, &[b"abc"])),
        "53048e2681941ef99b2e29b76b4c7dabe4c2d0c634fc6d46e0e2f13107e7af23"
    );
}

#[test]
fn digest_lengths_match_algorithm() {
    for alg in [
        HashAlgorithm::Sha256,
        HashAlgorithm::Sha384,
        HashAlgorithm::Sha512,
        HashAlgorithm::Sha512_256,
    ] {
        assert_eq!(digest(alg, &[b"x"]).len(), digest_len(alg));
    }
    assert_eq!(digest_len(HashAlgorithm::Sha256), 32);
    assert_eq!(digest_len(HashAlgorithm::Sha384), 48);
    assert_eq!(digest_len(HashAlgorithm::Sha512), 64);
    assert_eq!(digest_len(HashAlgorithm::Sha512_256), 32);
}

#[test]
fn same_content_same_digest_whatever_the_chunks() {
    let whole = digest(HashAlgorithm::Sha256, &[b"hello, world"]);
    let parts = digest(HashAlgorithm::Sha256, &[b"hello", b", ", b"", b"world"]);
    assert_eq!(whole, parts);
    let long: Vec<u8> = (0..5000u32).map(|i| (i % 251) as u8).collect();
    let chunks: Vec<&[u8]> = long.chunks(1024).collect();
    assert_eq!(
        digest(HashAlgorithm::Sha512, &[&long]),
        digest(HashAlgorithm::Sha512, &chunks)
    );
}

#[test]
fn different_content_different_digest() {
    for alg in [
        HashAlgorithm::Sha256,
        HashAlgorithm::Sha384,
        HashAlgorithm::Sha512,
        HashAlgorithm::Sha512_256,
    ] {
        assert_ne!(digest(alg, &[b"x"]), digest(alg, &[b"y"]));
        assert_ne!(digest(alg, &[b""]), digest(alg, &[b"\0"]));
    }
}

#[test]
fn algorithm_names_ignore_case() {
    assert_eq!(parse_algorithm("SHA256"), Some(HashAlgorithm::Sha256));
    assert_eq!(parse_algorithm("sha256"), Some(HashAlgorithm::Sha256));
    assert_eq!(parse_algorithm("Sha384"), Some(HashAlgorithm::Sha384));
    assert_eq!(parse_algorithm("sha512"), Some(HashAlgorithm::Sha512));
    assert_eq!(parse_algorithm("sha512_256"), Some(HashAlgorithm::Sha512_256));
    // U+017F LATIN SMALL LETTER LONG S upper-cases to 'S'.
    assert_eq!(parse_algorithm("\u{17f}ha256"), Some(HashAlgorithm::Sha256));
}

#[test]
fn unsupported_algorithm_is_refused() {
    assert_eq!(parse_algorithm("MD5"), None);
    assert_eq!(parse_algorithm("md5"), None);
    assert_eq!(parse_algorithm(""), None);
    assert_eq!(parse_algorithm("SHA-256"), None);
    assert_eq!(parse_algorithm("SHA2566"), None);
}

#[test]
fn upper_case_names_are_matched_exactly() {
    assert_eq!(algorithm_from_upper("SHA512_256"), Some(HashAlgorithm::Sha512_256));
    assert_eq!(algorithm_from_upper("SHA384"), Some(HashAlgorithm::Sha384));
    assert_eq!(algorithm_from_upper("sha256"), None);
    assert_eq!(algorithm_from_upper("SHA512 "), None);
}
