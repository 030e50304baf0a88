use frs_iopp::fri::fold_polynomial_evaluation;
use frs_iopp::{
    fri_commit, fri_query_phase, verify_fri, Field, FieldElement, FriError, FriLayer, Polynomial,
    ProofStream,
};

fn example() -> (Field, Polynomial, Vec<FieldElement>) {
    let field = Field::new(97);
    let coeffs = [19, 56, 34, 48, 43, 37, 10, 0]
        .iter()
        .map(|v| FieldElement::new(*v, field))
        .collect();
    let domain = vec![
        FieldElement::new(28, field),
        FieldElement::new(28i128.pow(2), field),
        FieldElement::new(28i128.pow(4), field),
        FieldElement::new(28i128.pow(8), field),
    ];
    (field, Polynomial::new(coeffs), domain)
}

// The powers of 22, a fourth root of unity modulo 97: 1, 22, -1, -22.
fn subgroup_example() -> (Field, Polynomial, Vec<FieldElement>) {
    let (field, poly, _) = example();
    let domain = [1, 22, 96, 75].iter().map(|v| FieldElement::new(*v, field)).collect();
    (field, poly, domain)
}

#[test]
fn can_create_fri_layer() {
    let prime = 97;
    let field = Field::new(prime);
    let a = FieldElement::new(1, field);
    let b = FieldElement::new(2, field);
    let c = FieldElement::new(3, field);
    let poly = Polynomial::new(vec![a, b, c]);

    let domain = vec![
        FieldElement::new(0, field),
        FieldElement::new(1, field),
        FieldElement::new(2, field),
    ];

    let layer = FriLayer::new(&poly, domain).unwrap();

    assert!(!layer.polynomial.coeffs.is_empty());
}

#[test]
fn commit_builds_layers_and_transcript() {
    let (field, poly, domain) = example();
    let mut transcript = ProofStream::new();
    let (last, layers) = fri_commit(3, poly, &mut transcript, &domain).unwrap();
    assert_eq!(layers.len(), 3);
    assert_eq!(layers[0].domain.len(), 4);
    assert_eq!(layers[1].domain.len(), 2);
    assert_eq!(layers[2].domain.len(), 1);
    assert_eq!(layers[1].domain[0], FieldElement::new(28 * 28, field));
    assert_eq!(layers[1].polynomial.coeffs.len(), 4);
    assert_eq!(layers[2].polynomial.coeffs.len(), 2);
    // three roots, then the constant's sixteen big-endian bytes
    assert_eq!(transcript.objects.len(), 4);
    assert_eq!(transcript.objects[0], layers[0].merkle_tree.root_hash().clone());
    assert_eq!(transcript.objects[3], last.num.to_be_bytes().to_vec());
    assert_eq!(transcript.read_index, 0);
}

#[test]
fn commit_rejects_malformed_inputs() {
    let (field, poly, domain) = example();
    let mut t = ProofStream::new();
    assert_eq!(fri_commit(0, poly.clone(), &mut t, &domain).err(), Some(FriError::MalformedInput));
    assert_eq!(fri_commit(3, Polynomial::new(vec![]), &mut t, &domain).err(), Some(FriError::MalformedInput));
    assert_eq!(fri_commit(3, poly.clone(), &mut t, &vec![]).err(), Some(FriError::MalformedInput));
    // a domain of three points cannot be halved
    let odd = domain[..3].to_vec();
    assert_eq!(fri_commit(2, poly.clone(), &mut t, &odd).err(), Some(FriError::MalformedInput));
    // two layers leave more than a constant of eight coefficients
    assert_eq!(fri_commit(2, poly.clone(), &mut t, &domain).err(), Some(FriError::MalformedInput));
    // four layers ask a domain of four points to halve three times
    assert_eq!(fri_commit(4, poly.clone(), &mut t, &domain).err(), Some(FriError::MalformedInput));
    let other = vec![FieldElement::new(3, Field::new(101)); 4];
    assert_eq!(fri_commit(3, poly, &mut t, &other).err(), Some(FriError::FieldMismatch));
    // no failure touched the transcript
    assert!(t.objects.is_empty());
    let _ = field;
}

#[test]
fn honest_round_trip_at_one_verifies() {
    // a domain size of one fixes the query index at 0, whose points are 1 and -1
    let (field, poly, domain) = subgroup_example();
    let mut transcript = ProofStream::new();
    let (_last, layers) = fri_commit(3, poly, &mut transcript, &domain).unwrap();
    let decommitments = fri_query_phase(field.one(), 1, &layers, &mut transcript, 10).unwrap();
    assert_eq!(decommitments.len(), 10);
    for d in &decommitments {
        assert_eq!(d.layers_evaluations.len(), 3);
        assert!(d.layers_auth_paths.iter().all(|p| p.is_some()));
    }
    assert_eq!(verify_fri(&layers, &decommitments, &mut transcript), Ok(true));
    assert_eq!(transcript.read_index, 2);
}

fn honest_run() -> (Vec<FriLayer>, Vec<frs_iopp::FriDecommitment>, ProofStream) {
    let (field, poly, domain) = subgroup_example();
    let mut transcript = ProofStream::new();
    let (_last, layers) = fri_commit(3, poly, &mut transcript, &domain).unwrap();
    let decommitments = fri_query_phase(field.one(), 1, &layers, &mut transcript, 3).unwrap();
    (layers, decommitments, transcript)
}

#[test]
fn tampered_evaluation_is_rejected() {
    let (layers, mut decommitments, mut transcript) = honest_run();
    decommitments[1].layers_evaluations[1].num ^= 1;
    assert_eq!(verify_fri(&layers, &decommitments, &mut transcript), Ok(false));
}

#[test]
fn tampered_last_symmetric_evaluation_is_rejected() {
    let (layers, mut decommitments, mut transcript) = honest_run();
    let before = decommitments[0].layers_evaluations_sym[2].num;
    decommitments[0].layers_evaluations_sym[2].num ^= 2;
    assert_ne!(before, decommitments[0].layers_evaluations_sym[2].num);
    assert_eq!(verify_fri(&layers, &decommitments, &mut transcript), Ok(false));
}

#[test]
fn tampered_first_evaluation_is_rejected() {
    let (layers, mut decommitments, mut transcript) = honest_run();
    decommitments[2].layers_evaluations[0].num ^= 4;
    assert_eq!(verify_fri(&layers, &decommitments, &mut transcript), Ok(false));
}

#[test]
fn tampered_merkle_proof_is_rejected() {
    let (layers, mut decommitments, mut transcript) = honest_run();
    decommitments[0].layers_auth_paths_sym[2].as_mut().unwrap().root_hash[0] ^= 0x80;
    assert_eq!(verify_fri(&layers, &decommitments, &mut transcript), Ok(false));
}

#[test]
fn tampered_proof_leaf_is_rejected() {
    let (layers, mut decommitments, mut transcript) = honest_run();
    decommitments[1].layers_auth_paths[0].as_mut().unwrap().value[0] ^= 1;
    assert_eq!(verify_fri(&layers, &decommitments, &mut transcript), Ok(false));
}

#[test]
fn missing_proof_is_rejected() {
    let (layers, mut decommitments, mut transcript) = honest_run();
    decommitments[0].layers_auth_paths[1] = None;
    assert_eq!(verify_fri(&layers, &decommitments, &mut transcript), Ok(false));
}

#[test]
fn query_opens_domain_points_and_their_leaves() {
    let (field, poly, domain) = subgroup_example();
    let mut transcript = ProofStream::new();
    let (_last, layers) = fri_commit(3, poly, &mut transcript, &domain).unwrap();
    let decommitments = fri_query_phase(field.one(), domain.len(), &layers, &mut transcript, 8).unwrap();
    for d in &decommitments {
        // one query index serves every layer
        let q = (0..domain.len())
            .find(|q| {
                layers.iter().enumerate().all(|(i, layer)| {
                    let n = layer.domain.len();
                    let index = q % n;
                    let sym = (index + n / 2) % n;
                    d.layers_evaluations[i] == layer.polynomial.evaluate(layer.domain[index]).unwrap()
                        && d.layers_evaluations_sym[i] == layer.polynomial.evaluate(layer.domain[sym]).unwrap()
                })
            });
        assert!(q.is_some());
        for (i, _) in layers.iter().enumerate() {
            let leaf = d.layers_evaluations[i].num.to_le_bytes().to_vec();
            assert_eq!(d.layers_auth_paths[i].as_ref().unwrap().value, leaf);
            let leaf_sym = d.layers_evaluations_sym[i].num.to_le_bytes().to_vec();
            assert_eq!(d.layers_auth_paths_sym[i].as_ref().unwrap().value, leaf_sym);
        }
    }
}

#[test]
fn query_phase_edge_cases() {
    let (field, poly, domain) = example();
    let mut transcript = ProofStream::new();
    assert_eq!(fri_query_phase(field.one(), 4, &vec![], &mut transcript, 5).unwrap().len(), 0);
    let (_last, layers) = fri_commit(3, poly, &mut transcript, &domain).unwrap();
    assert_eq!(fri_query_phase(field.one(), 0, &layers, &mut transcript, 5).err(), Some(FriError::MalformedInput));
    let other = FieldElement::new(1, Field::new(101));
    assert_eq!(fri_query_phase(other, 4, &layers, &mut transcript, 5).err(), Some(FriError::FieldMismatch));
    let empty = vec![FriLayer::new(&Polynomial::new(vec![field.one()]), vec![]).unwrap()];
    assert_eq!(fri_query_phase(field.one(), 4, &empty, &mut transcript, 5).err(), Some(FriError::MalformedInput));
}

#[test]
fn verify_needs_the_transcript() {
    let (field, poly, domain) = example();
    let mut transcript = ProofStream::new();
    let (_last, layers) = fri_commit(3, poly, &mut transcript, &domain).unwrap();
    let decommitments = fri_query_phase(field.one(), domain.len(), &layers, &mut transcript, 2).unwrap();
    let mut empty = ProofStream::new();
    assert_eq!(verify_fri(&layers, &decommitments, &mut empty), Err(FriError::TranscriptExhausted));
    assert_eq!(verify_fri(&layers, &vec![], &mut empty), Ok(true));
}

#[test]
fn layer_root_is_the_merkle_root_of_the_values() {
    // values 1 and 6 as sixteen little-endian bytes; leaves hashed as
    // SHA-256(0x00 || leaf), the node as SHA-256(0x01 || left || right)
    let field = Field::new(97);
    let poly = Polynomial::new(vec![
        FieldElement::new(1, field),
        FieldElement::new(2, field),
        FieldElement::new(3, field),
    ]);
    let layer = FriLayer::new(&poly, vec![FieldElement::new(0, field), FieldElement::new(1, field)]).unwrap();
    let expected: Vec<u8> = vec![
        216, 55, 141, 0, 170, 49, 33, 13, 52, 19, 42, 103, 177, 183, 75, 185, 20, 67, 204, 7, 136, 182, 121,
        91, 179, 173, 254, 146, 204, 92, 29, 246,
    ];
    assert_eq!(layer.merkle_tree.root_hash(), &expected);
}

#[test]
fn fold_consistency_value() {
    let field = Field::new(97);
    let e = FieldElement::new(5, field);
    let s = FieldElement::new(3, field);
    // (5 + 3) / 2 + 2 * (5 - 3) / 2 = 6
    assert_eq!(fold_polynomial_evaluation(e, s, &FieldElement::new(2, field)), Ok(FieldElement::new(6, field)));
    let other = FieldElement::new(2, Field::new(101));
    assert_eq!(fold_polynomial_evaluation(e, s, &other), Err(FriError::FieldMismatch));
    let f2 = Field::new(2);
    let one = FieldElement::new(1, f2);
    assert_eq!(fold_polynomial_evaluation(one, one, &one), Err(FriError::NotInvertible));
}

#[test]
fn verify_in_characteristic_two_fails() {
    let f2 = Field::new(2);
    let poly = Polynomial::new(vec![FieldElement::new(1, f2), FieldElement::new(1, f2)]);
    let domain = vec![FieldElement::new(1, f2), FieldElement::new(1, f2)];
    let mut transcript = ProofStream::new();
    let (_last, layers) = fri_commit(1, poly, &mut transcript, &domain).unwrap();
    let decommitments = fri_query_phase(f2.one(), 2, &layers, &mut transcript, 1).unwrap();
    assert_eq!(verify_fri(&layers, &decommitments, &mut transcript), Err(FriError::NotInvertible));
}
