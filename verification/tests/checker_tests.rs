use quantum_nonce::searcher::checker::Checker;
use quantum_nonce::sha256::sha256_checker::{bytes_less, hash_below_limit, SHA256Checker};
use sha2::{Digest, Sha256};

#[test]
fn the_digest_of_data_and_nonce_is_compared_with_the_limit() {
    let data = b"block header".to_vec();
    let nonce = vec![7u8, 9];
    let mut joined = data.clone();
    joined.extend_from_slice(&nonce);
    let digest: Vec<u8> = Sha256::digest(&joined).to_vec();
    let mut exact = [0u8; 32];
    exact.copy_from_slice(&digest);
    assert!(SHA256Checker::init(data.clone(), [0xFF; 32]).check_nonce(nonce.clone()));
    // The comparison is strict.
    assert!(!SHA256Checker::init(data.clone(), exact).check_nonce(nonce.clone()));
    assert!(!SHA256Checker::init(data, [0; 32]).check_nonce(nonce));
}

#[test]
fn the_digest_is_not_the_message() {
    // 32 zero bytes are below a limit of ones, but their digest starts with 0x66.
    let checker = SHA256Checker::init(vec![0; 16], [1; 32]);
    assert!(!checker.check_nonce(vec![0; 16]));
    let checker = SHA256Checker::init(vec![0; 16], [0x67; 32]);
    assert!(checker.check_nonce(vec![0; 16]));
}

#[test]
fn byte_order_is_lexicographic() {
    assert!(bytes_less(&vec![1, 2, 3], &vec![1, 2, 4]));
    assert!(bytes_less(&vec![1, 2], &vec![1, 2, 0]));
    assert!(!bytes_less(&vec![1, 2, 0], &vec![1, 2]));
    assert!(!bytes_less(&vec![2], &vec![1, 9, 9]));
    assert!(!bytes_less(&vec![5, 5], &vec![5, 5]));
    let mut limit = [0u8; 32];
    limit[0] = 1;
    assert!(hash_below_limit(&vec![0; 32], &limit));
    assert!(!hash_below_limit(&vec![1; 32], &limit));
}

#[test]
fn a_zero_limit_accepts_no_nonce() {
    let checker = SHA256Checker::init(vec![1, 2, 3], [0; 32]);
    for n in 0..=255u8 {
        assert!(!checker.check_nonce(vec![n]));
        assert!(!checker.check_nonce(vec![n, n]));
    }
}
