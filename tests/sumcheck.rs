use sumcheck_gkr::field::Fe;
use sumcheck_gkr::multilinear::interpolate;
use sumcheck_gkr::sumcheck::{to_bytes, Proof, Prover, UnivariatePoly, Verifier};

fn fr(v: u64) -> Fe {
    Fe::from_u64(v)
}

fn get_test_poly() -> Vec<Fe> {
    vec![fr(0), fr(0), fr(0), fr(3), fr(0), fr(0), fr(2), fr(5)]
}

#[test]
fn test_prover_initialization() {
    let initial_poly = get_test_poly();
    let prover = Prover::new(3, initial_poly.clone());
    assert_eq!(prover.n_vars, 3);
    assert_eq!(prover.initial_poly, initial_poly);
}

#[test]
fn main_test_create_paired_arrays() {
    let prover = Prover::new(3, get_test_poly());

    let (vec0, vec1) = prover.create_paired_arrays(0);
    assert_eq!(vec0, vec![fr(0), fr(0), fr(0), fr(3)]);
    assert_eq!(vec1, vec![fr(0), fr(0), fr(2), fr(5)]);

    let (vec0, vec1) = prover.create_paired_arrays(1);
    assert_eq!(vec0, vec![fr(0), fr(0), fr(0), fr(0)]);
    assert_eq!(vec1, vec![fr(0), fr(3), fr(2), fr(5)]);

    let (vec0, vec1) = prover.create_paired_arrays(2);
    assert_eq!(vec0, vec![fr(0), fr(0), fr(0), fr(2)]);
    assert_eq!(vec1, vec![fr(0), fr(3), fr(0), fr(5)]);
}

#[test]
fn main_test_partial_evaluate() {
    let initial_poly = get_test_poly();
    let init_clone = initial_poly.clone();
    let prover = Prover::new(3, initial_poly);

    let result = prover.partial_evaluate(&init_clone, (0, Fe::one()));
    assert_eq!(result.len(), 4);

    let expected = vec![
        interpolate(&fr(0), &fr(0), &Fe::one()),
        interpolate(&fr(0), &fr(0), &Fe::one()),
        interpolate(&fr(0), &fr(2), &Fe::one()),
        interpolate(&fr(3), &fr(5), &Fe::one()),
    ];
    assert_eq!(result, expected);
}

#[test]
fn test_complete_protocol() {
    let initial_poly = get_test_poly();
    let prover = Prover::new(3, initial_poly.clone());
    let verifier = Verifier::new(3, initial_poly.clone());

    let proof = prover.prove();
    assert!(verifier.verify(proof));
}

#[test]
fn test_proof_structure() {
    let prover = Prover::new(3, get_test_poly());
    let proof = prover.prove();

    assert_eq!(proof.initial_claimed_sum, fr(10));
    assert_eq!(proof.proof.len(), 3);
    for poly in &proof.proof {
        assert_eq!(poly.evals.len(), 2);
    }
}

#[test]
fn test_univariate_evaluations() {
    let prover = Prover::new(3, get_test_poly());
    let proof = prover.prove();

    let first_uni = &proof.proof[0].evals;
    assert_eq!(first_uni.len(), 2);

    let sum = first_uni[0].add(&first_uni[1]);
    assert_eq!(sum, fr(10));
}

#[test]
fn test_transcript_consistency() {
    let initial_poly = get_test_poly();
    let prover = Prover::new(3, initial_poly.clone());
    let verifier = Verifier::new(3, initial_poly.clone());

    let proof1 = prover.prove();
    let proof2 = prover.prove();

    assert!(verifier.verify(proof1.clone()));
    assert!(verifier.verify(proof2.clone()));

    assert_eq!(proof1.initial_claimed_sum, proof2.initial_claimed_sum);
    for (poly1, poly2) in proof1.proof.iter().zip(proof2.proof.iter()) {
        assert_eq!(poly1.evals, poly2.evals);
    }
}

#[test]
fn first_round_holds_the_half_sums() {
    let proof = Prover::new(3, get_test_poly()).prove();
    // first half sums to 3, second half to 7
    assert_eq!(proof.proof[0].evals, vec![fr(3), fr(7)]);
}

#[test]
fn every_single_tampered_value_is_rejected() {
    let tables = vec![get_test_poly(), vec![fr(1), fr(9)], (0..16).map(|k| fr(3 * k + 1)).collect()];
    for table in tables {
        let n = table.len().trailing_zeros() as usize;
        let proof = Prover::new(n, table.clone()).prove();
        let verifier = Verifier::new(n, table.clone());
        assert!(verifier.verify(proof.clone()));
        for i in 0..n {
            for j in 0..2 {
                let mut bad = proof.clone();
                bad.proof[i].evals[j] = bad.proof[i].evals[j].add(&Fe::one());
                assert!(!verifier.verify(bad));
            }
        }
    }
}

#[test]
fn wrong_claimed_sum_is_rejected() {
    let proof = Prover::new(3, get_test_poly()).prove();
    let verifier = Verifier::new(3, get_test_poly());
    let bad = Proof { initial_claimed_sum: fr(11), proof: proof.proof.clone() };
    assert!(!verifier.verify(bad));
}

#[test]
fn malformed_proofs_are_rejected() {
    let proof = Prover::new(3, get_test_poly()).prove();
    let verifier = Verifier::new(3, get_test_poly());

    let mut short = proof.clone();
    short.proof.pop();
    assert!(!verifier.verify(short));

    let mut long = proof.clone();
    long.proof.push(UnivariatePoly { evals: vec![fr(0), fr(0)] });
    assert!(!verifier.verify(long));

    let mut three = proof.clone();
    three.proof[1].evals.push(fr(0));
    assert!(!verifier.verify(three));

    let empty = Proof { initial_claimed_sum: fr(10), proof: vec![] };
    assert!(!verifier.verify(empty));
}

#[test]
fn proof_for_another_table_is_rejected() {
    let proof = Prover::new(3, get_test_poly()).prove();
    let mut other = get_test_poly();
    other.swap(0, 3);
    let verifier = Verifier::new(3, other);
    assert!(!verifier.verify(proof));
}

#[test]
fn one_variable_protocol() {
    let table = vec![fr(4), fr(6)];
    let proof = Prover::new(1, table.clone()).prove();
    assert_eq!(proof.initial_claimed_sum, fr(10));
    assert_eq!(proof.proof.len(), 1);
    assert_eq!(proof.proof[0].evals, table);
    assert!(Verifier::new(1, table).verify(proof));
}

#[test]
fn oracle_evaluation_at_a_point() {
    let verifier = Verifier::new(3, get_test_poly());
    assert_eq!(verifier.evaluate_oracle_at_point(vec![fr(3), fr(2), fr(1)]), fr(18));
}

#[test]
fn bytes_are_big_endian_and_concatenated() {
    let bytes = to_bytes(vec![fr(7), fr(258)]);
    assert_eq!(bytes.len(), 64);
    let mut expected = vec![0u8; 64];
    expected[31] = 7;
    expected[62] = 1;
    expected[63] = 2;
    assert_eq!(bytes, expected);
}
