use plonky2x::error::CircuitError;
use plonky2x::fri::FriParams;
use plonky2x::stream::VariableStream;
use plonky2x::variables::Variable;

fn stream_of(n: u64) -> VariableStream {
    VariableStream::from_variables((0..n).map(Variable).collect())
}

fn params() -> FriParams {
    FriParams {
        reduction_arity_bits: vec![1, 2],
        cap_height: 1,
        num_query_rounds: 2,
        lde_bits: 5,
        final_poly_len: 3,
    }
}

// Slot counts for `params()` with extension degree 2 and oracle leaf
// counts [4, 3]:
//   caps: 2 * (1 * 4)                                   =   8
//   one round: initial (4 + 16) + (3 + 16) = 39
//              step 1: 2^1 * 2 + 3 * 4     = 16
//              step 2: 2^2 * 2 + 1 * 4     = 12         =  67
//   rounds: 2 * 67                                      = 134
//   final poly: 3 * 2                                   =   6
//   pow witness                                          =   1
const TOTAL_SLOTS: u64 = 149;

#[test]
fn test_geometry_determinism() {
    let leaf_counts = vec![4usize, 3usize];
    let p = params();
    let mut s = stream_of(TOTAL_SLOTS);
    let proof = s.read_fri_proof::<2>(&leaf_counts, &p).unwrap();

    assert_eq!(proof.commit_phase_merkle_caps.len(), p.reduction_arity_bits.len());
    assert_eq!(proof.query_round_proofs.len(), p.num_query_rounds);
    assert_eq!(proof.final_poly.0.len(), p.final_poly_len);
    for cap in &proof.commit_phase_merkle_caps {
        assert_eq!(cap.0.len(), p.cap_height);
    }
    for round in &proof.query_round_proofs {
        assert_eq!(round.initial_trees_proof.evals_proofs.len(), 2);
        assert_eq!(round.initial_trees_proof.evals_proofs[0].0.len(), 4);
        assert_eq!(round.initial_trees_proof.evals_proofs[1].0.len(), 3);
        // initial proofs at depth lde_bits - cap_height = 4
        assert_eq!(round.initial_trees_proof.evals_proofs[0].1.siblings.len(), 4);
        assert_eq!(round.steps.len(), 2);
        // arity 1: 2 evaluations, depth shrinks to 3
        assert_eq!(round.steps[0].evals.len(), 2);
        assert_eq!(round.steps[0].merkle_proof.siblings.len(), 3);
        // arity 2: 4 evaluations, depth shrinks to 1
        assert_eq!(round.steps[1].evals.len(), 4);
        assert_eq!(round.steps[1].merkle_proof.siblings.len(), 1);
    }
    // Every slot was consumed, in order.
    assert_eq!(s.position, TOTAL_SLOTS as usize);

    // Determinism: the same parameters on another stream give the same
    // geometry.
    let mut s2 = stream_of(TOTAL_SLOTS + 10);
    let proof2 = s2.read_fri_proof::<2>(&leaf_counts, &p).unwrap();
    assert_eq!(
        proof2.commit_phase_merkle_caps.len(),
        proof.commit_phase_merkle_caps.len()
    );
    assert_eq!(proof2.query_round_proofs.len(), proof.query_round_proofs.len());
    assert_eq!(proof2.final_poly.0.len(), proof.final_poly.0.len());
}

#[test]
fn test_conversion() {
    // Structuring a concrete (flat) proof and converting it back is the
    // identity on the consumed wires.
    let leaf_counts = vec![4usize, 3usize];
    let p = params();
    let mut s = stream_of(TOTAL_SLOTS);
    let proof = s.read_fri_proof::<2>(&leaf_counts, &p).unwrap();

    let concrete = proof.to_concrete();
    let expected: Vec<Variable> = (0..TOTAL_SLOTS).map(Variable).collect();
    assert_eq!(concrete, expected);

    // Re-reading the concrete form yields the same structure.
    let mut s2 = VariableStream::from_variables(concrete);
    let proof2 = s2.read_fri_proof::<2>(&leaf_counts, &p).unwrap();
    assert_eq!(proof2, proof);
}

#[test]
fn test_query_round_rejects_low_lde() {
    // lde_bits below the cap height is a malformed-parameter error.
    let p = FriParams {
        reduction_arity_bits: vec![1],
        cap_height: 3,
        lde_bits: 2,
        num_query_rounds: 1,
        final_poly_len: 1,
    };
    let mut s = stream_of(1000);
    let r = s.read_fri_query_round::<2>(&vec![2], &p);
    assert_eq!(r.unwrap_err(), CircuitError::Geometry);
}

#[test]
fn test_query_round_rejects_deep_schedule() {
    // A scheduled arity exceeding the remaining proof depth is a
    // malformed-parameter error: depth starts at 5 - 1 = 4, and the
    // second arity of 3 exceeds the 4 - 3 = 1 level left.
    let p = FriParams {
        reduction_arity_bits: vec![3, 3],
        cap_height: 1,
        lde_bits: 5,
        num_query_rounds: 1,
        final_poly_len: 1,
    };
    let mut s = stream_of(10000);
    let r = s.read_fri_query_round::<2>(&vec![2], &p);
    assert_eq!(r.unwrap_err(), CircuitError::Geometry);
}

#[test]
fn test_reads_fail_on_short_stream() {
    let leaf_counts = vec![4usize, 3usize];
    let p = params();
    let mut s = stream_of(TOTAL_SLOTS - 1);
    let r = s.read_fri_proof::<2>(&leaf_counts, &p);
    assert_eq!(r.unwrap_err(), CircuitError::ShortRead);

    let mut s2 = stream_of(3);
    assert_eq!(
        s2.read_exact(4).unwrap_err(),
        CircuitError::ShortRead
    );
}

#[test]
fn test_stream_reads_in_order() {
    let mut s = stream_of(10);
    let a = s.read_exact(3).unwrap();
    assert_eq!(a, vec![Variable(0), Variable(1), Variable(2)]);
    let b = s.read_variable().unwrap();
    assert_eq!(b, Variable(3));
    let c = s.read_merkle_proof(1).unwrap();
    let flat: Vec<u64> = c.siblings[0].elements.iter().map(|v| v.0).collect();
    assert_eq!(flat, vec![4, 5, 6, 7]);
    assert_eq!(s.position, 8);
}

#[test]
fn test_poly_coeff_read() {
    let mut s = stream_of(10);
    let p = s.read_poly_coeff_ext::<3>(2).unwrap();
    assert_eq!(p.0.len(), 2);
    assert_eq!(p.0[0].elements, vec![Variable(0), Variable(1), Variable(2)]);
    assert_eq!(p.0[1].elements, vec![Variable(3), Variable(4), Variable(5)]);
}

#[test]
fn test_stream_write_then_read() {
    let mut s = VariableStream::from_variables(vec![Variable(1)]);
    s.write_slots(&vec![Variable(2), Variable(3)]);
    let all = s.read_exact(3).unwrap();
    assert_eq!(all, vec![Variable(1), Variable(2), Variable(3)]);
}
