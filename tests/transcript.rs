use frs_iopp::{Field, FriError, ProofStream};

#[test]
fn push_then_pull_in_order() {
    let mut t = ProofStream::new();
    t.push(&vec![1, 2]);
    t.push(&vec![3]);
    assert_eq!(t.pull().unwrap(), vec![1, 2]);
    assert_eq!(t.pull().unwrap(), vec![3]);
    assert_eq!(t.pull(), Err(FriError::TranscriptExhausted));
    assert_eq!(t.read_index, 2);
}

#[test]
fn serialize_is_a_json_array_of_byte_arrays() {
    let mut t = ProofStream::new();
    t.push(&vec![1, 2]);
    t.push(&vec![3]);
    t.push(&vec![]);
    let text = t.serialize();
    assert_eq!(text, "[[1,2],[3],[]]");
    let back = t.deserialize(text).unwrap();
    assert_eq!(back.objects, t.objects);
    assert_eq!(back.read_index, 0);
}

#[test]
fn deserialize_rejects_malformed_text() {
    let t = ProofStream::new();
    assert_eq!(t.deserialize("[[1,2],".to_string()).err(), Some(FriError::MalformedInput));
    assert_eq!(t.deserialize("[[300]]".to_string()).err(), Some(FriError::MalformedInput));
}

#[test]
fn challenges_are_deterministic() {
    let field = Field::new(97);
    let pushes: Vec<Vec<u8>> = vec![vec![7; 32], vec![9; 32], vec![1, 2, 3]];
    let mut a = ProofStream::new();
    let mut b = ProofStream::new();
    let mut prover_challenges = Vec::new();
    for p in &pushes {
        a.push(p);
        b.push(p);
        assert_eq!(a.prover_fiat_shamir(&field), b.prover_fiat_shamir(&field));
        prover_challenges.push(a.prover_fiat_shamir(&field));
    }
    // the verifier, having read k objects, derives the prover's k-th challenge
    for expected in &prover_challenges {
        b.pull().unwrap();
        assert_eq!(&b.verifier_fiat_shamir(&field), expected);
    }
}

#[test]
fn challenge_depends_on_the_log() {
    let field = Field::new(1_000_000_007);
    let mut a = ProofStream::new();
    a.push(&vec![1]);
    let mut b = ProofStream::new();
    b.push(&vec![2]);
    assert_ne!(a.prover_fiat_shamir(&field), b.prover_fiat_shamir(&field));
    // nothing read yet: the verifier hashes the empty log
    let empty = ProofStream::new();
    assert_eq!(a.verifier_fiat_shamir(&field), empty.prover_fiat_shamir(&field));
}

#[test]
fn random_index_stays_in_range() {
    let mut t = ProofStream::new();
    for _ in 0..100 {
        assert!(t.verifier_random_index(7) < 7);
    }
    assert_eq!(t.verifier_random_index(1), 0);
}

#[test]
fn challenge_is_sha256_of_the_json_log() {
    // SHA-256 of the text "[[1]]", read big-endian, modulo 1_000_000_007
    let field = Field::new(1_000_000_007);
    let mut t = ProofStream::new();
    t.push(&vec![1]);
    assert_eq!(t.prover_fiat_shamir(&field).num, 313401486);
}
