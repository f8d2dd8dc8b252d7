use gte_encoding::gte::{DoubleGeneralizedTotalizer, GeneralizedTotalizer, InvertedGeneralizedTotalizer};
use gte_encoding::node::Node;
use gte_encoding::types::{BasicVarManager, EncodingError, Lit, Var};

fn four_inputs(a: usize, b: usize, c: usize, d: usize) -> Vec<(Lit, usize)> {
    vec![
        (Lit::positive(0), a),
        (Lit::positive(1), b),
        (Lit::positive(2), c),
        (Lit::positive(3), d),
    ]
}

#[test]
fn ub_gte_functions() {
    let mut gte = GeneralizedTotalizer::new();
    gte.add(four_inputs(5, 5, 3, 3));
    assert_eq!(gte.enforce_ub(4), Err(EncodingError::NotEncoded));
    let mut var_manager = BasicVarManager::new();
    gte.encode_ub(0, 6, &mut var_manager).unwrap();
    assert_eq!(gte.get_depth(), 3);
    assert_eq!(gte.n_vars(), 10);
}

#[test]
fn lb_gte_functions() {
    let mut gte = InvertedGeneralizedTotalizer::new();
    gte.add(four_inputs(5, 5, 3, 3));
    assert_eq!(gte.enforce_lb(4), Err(EncodingError::NotEncoded));
    let mut var_manager = BasicVarManager::new();
    gte.encode_lb(0, 6, &mut var_manager).unwrap();
    assert_eq!(gte.get_depth(), 3);
    assert_eq!(gte.n_vars(), 7);
}

#[test]
fn ub_gte_incremental_building() {
    let mut gte1 = GeneralizedTotalizer::new();
    gte1.add(four_inputs(5, 5, 3, 3));
    let mut var_manager = BasicVarManager::new();
    let cnf1 = gte1.encode_ub(0, 4, &mut var_manager).unwrap();
    let mut gte2 = GeneralizedTotalizer::new();
    gte2.add(four_inputs(5, 5, 3, 3));
    let mut var_manager = BasicVarManager::new();
    let mut cnf2 = gte2.encode_ub(0, 2, &mut var_manager).unwrap();
    cnf2.extend(gte2.encode_ub_change(0, 4, &mut var_manager).unwrap());
    assert_eq!(cnf1.n_clauses(), cnf2.n_clauses());
    assert_eq!(cnf1.n_clauses(), gte1.n_clauses());
    assert_eq!(cnf2.n_clauses(), gte2.n_clauses());
}

#[test]
fn lb_gte_incremental_building() {
    let mut gte1 = InvertedGeneralizedTotalizer::new();
    gte1.add(four_inputs(5, 5, 3, 3));
    let mut var_manager = BasicVarManager::new();
    var_manager.increase_next_free(Var::new(4));
    let cnf1 = gte1.encode_lb(0, 4, &mut var_manager.clone()).unwrap();
    let mut gte2 = InvertedGeneralizedTotalizer::new();
    gte2.add(four_inputs(5, 5, 3, 3));
    let mut cnf2 = gte2.encode_lb(2, 4, &mut var_manager).unwrap();
    cnf2.extend(gte2.encode_lb_change(0, 4, &mut var_manager).unwrap());
    assert_eq!(cnf1.n_clauses(), cnf2.n_clauses());
    assert_eq!(cnf1.n_clauses(), gte1.n_clauses());
    assert_eq!(cnf2.n_clauses(), gte2.n_clauses());
}

#[test]
fn ub_gte_multiplication() {
    let mut gte1 = GeneralizedTotalizer::new();
    gte1.add(four_inputs(5, 5, 3, 3));
    let mut var_manager = BasicVarManager::new();
    let cnf1 = gte1.encode_ub(0, 4, &mut var_manager).unwrap();
    let mut gte2 = GeneralizedTotalizer::new();
    gte2.add(four_inputs(10, 10, 6, 6));
    let mut var_manager = BasicVarManager::new();
    let cnf2 = gte2.encode_ub(0, 8, &mut var_manager).unwrap();
    assert_eq!(cnf1.n_clauses(), cnf2.n_clauses());
    assert_eq!(cnf1.n_clauses(), gte1.n_clauses());
    assert_eq!(cnf2.n_clauses(), gte2.n_clauses());
}

#[test]
fn ub_gte_invalid_useage() {
    let mut gte = GeneralizedTotalizer::new();
    let mut var_manager = BasicVarManager::new();
    assert_eq!(
        gte.encode_ub(5, 4, &mut var_manager),
        Err(EncodingError::InvalidLimits)
    );
}

#[test]
fn lb_gte_invalid_useage() {
    let mut gte = InvertedGeneralizedTotalizer::new();
    let mut var_manager = BasicVarManager::new();
    assert_eq!(
        gte.encode_lb(5, 4, &mut var_manager),
        Err(EncodingError::InvalidLimits)
    );
}

#[test]
fn ub_gte_equals_tot() {
    let mut var_manager_gte = BasicVarManager::new();
    var_manager_gte.increase_next_free(Var::new(7));
    let mut gte = GeneralizedTotalizer::new();
    let lits: Vec<(Lit, usize)> = (0..7).map(|i| (Lit::positive(i), 1)).collect();
    gte.add(lits);
    let gte_cnf = gte.encode_ub(3, 7, &mut var_manager_gte).unwrap();
    println!("{:?}", gte_cnf);
    // A totalizer over seven unit inputs for bounds 3 to 7 mints 17
    // variables and emits 32 clauses: the leaves split into [x0 | x1 x2] and
    // [x3 x4 | x5 x6], with outputs {1,2} (3 clauses) at each pair, {1,2,3}
    // (5 clauses) and {1,2,3,4} (8 clauses) below the root, and outputs 4 to
    // 7 (10 clauses) at the root
    assert_eq!(var_manager_gte.next_free(), Var::new(7 + 17));
    assert_eq!(gte_cnf.n_clauses(), 32);
    assert_eq!(gte_cnf.n_clauses(), gte.n_clauses());
    assert_eq!(gte.n_vars(), 17);
}

#[test]
fn enforce_ub_after_encoding() {
    let mut gte = GeneralizedTotalizer::new();
    gte.add(four_inputs(5, 5, 3, 3));
    let mut var_manager = BasicVarManager::new();
    var_manager.increase_next_free(Var::new(4));
    gte.encode_ub(0, 6, &mut var_manager).unwrap();
    // Tree of 3, 3, 5, 5 with the root's outputs 3, 5, 6, 8, 10, 11
    let assumps = gte.enforce_ub(6).unwrap();
    // Outputs in (6, 11]: 8, 10, 11
    assert_eq!(assumps.len(), 3);
    for l in &assumps {
        assert!(l.negated);
        assert!(l.var.idx >= 4);
    }
    // Bound above everything needs no assumption
    assert_eq!(gte.enforce_ub(16), Ok(vec![]));
    // Bound 0: every input and the outputs 3 and 5
    assert_eq!(gte.enforce_ub(0).unwrap().len(), 6);
    // Bound below the encoded window
    let mut gte = GeneralizedTotalizer::new();
    gte.add(four_inputs(5, 5, 3, 3));
    gte.encode_ub(3, 6, &mut var_manager).unwrap();
    assert_eq!(gte.enforce_ub(1), Err(EncodingError::NotEncoded));
    assert!(gte.enforce_ub(3).is_ok());
}

#[test]
fn enforce_ub_forbids_heavy_buffered_inputs() {
    let mut gte = GeneralizedTotalizer::new();
    gte.add(four_inputs(5, 5, 3, 3));
    let mut var_manager = BasicVarManager::new();
    var_manager.increase_next_free(Var::new(4));
    // Only the weight-3 inputs join the tree
    gte.encode_ub(0, 3, &mut var_manager).unwrap();
    assert_eq!(gte.lit_buffer.len(), 2);
    let assumps = gte.enforce_ub(3).unwrap();
    assert_eq!(assumps[0], Lit::negative(0));
    assert_eq!(assumps[1], Lit::negative(1));
    // The root over 3 and 3 has output 6 in (3, 6]
    assert_eq!(assumps.len(), 3);
}

#[test]
fn add_sums_duplicates_and_skips_zero() {
    let mut gte = GeneralizedTotalizer::new();
    gte.add(vec![(Lit::positive(0), 2), (Lit::positive(1), 0), (Lit::positive(0), 3)]);
    assert_eq!(gte.lit_buffer, vec![(Lit::positive(0), 5)]);
    assert_eq!(gte.total_weight, 5);
    gte.add(vec![(Lit::positive(0), 1)]);
    assert_eq!(gte.lit_buffer, vec![(Lit::positive(0), 6)]);
}

#[test]
fn encode_change_twice_emits_nothing() {
    let mut gte = GeneralizedTotalizer::new();
    gte.add(four_inputs(5, 5, 3, 3));
    let mut var_manager = BasicVarManager::new();
    let first = gte.encode_ub_change(1, 7, &mut var_manager).unwrap();
    assert!(first.n_clauses() > 0);
    let used = var_manager.n_used();
    let second = gte.encode_ub_change(1, 7, &mut var_manager).unwrap();
    assert_eq!(second.n_clauses(), 0);
    assert_eq!(var_manager.n_used(), used);
    let narrower = gte.encode_ub_change(2, 5, &mut var_manager).unwrap();
    assert_eq!(narrower.n_clauses(), 0);
}

#[test]
fn encodings_are_deterministic() {
    let run = || {
        let mut gte = GeneralizedTotalizer::new();
        gte.add(four_inputs(5, 5, 3, 3));
        gte.add(vec![(Lit::positive(4), 7)]);
        let mut var_manager = BasicVarManager::new();
        var_manager.increase_next_free(Var::new(5));
        let mut cnf = gte.encode_ub(0, 4, &mut var_manager).unwrap();
        cnf.extend(gte.encode_ub_change(0, 9, &mut var_manager).unwrap());
        (cnf.clauses, var_manager.n_used())
    };
    assert_eq!(run(), run());
}

#[test]
fn inverted_matches_negated_upper_bound() {
    let mut inv = InvertedGeneralizedTotalizer::new();
    inv.add(four_inputs(5, 5, 3, 3));
    let mut ub = GeneralizedTotalizer::new();
    ub.add(vec![
        (Lit::negative(0), 5),
        (Lit::negative(1), 5),
        (Lit::negative(2), 3),
        (Lit::negative(3), 3),
    ]);
    let mut vm1 = BasicVarManager::new();
    vm1.increase_next_free(Var::new(4));
    let mut vm2 = vm1;
    // Lower bounds 6..=10 are upper bounds 6..=10 on the negations (W = 16)
    let c1 = inv.encode_lb(6, 10, &mut vm1).unwrap();
    let c2 = ub.encode_ub(6, 10, &mut vm2).unwrap();
    assert_eq!(c1.clauses, c2.clauses);
    for k in 6..=10 {
        assert_eq!(inv.enforce_lb(k), ub.enforce_ub(16 - k));
    }
    assert_eq!(inv.enforce_lb(16), Err(EncodingError::Unsat));
    assert_eq!(inv.convert_lb_ub(10), Ok(6));
    assert_eq!(inv.convert_lb_ub(20), Err(EncodingError::Unsat));
}

#[test]
fn enforce_lb_assumes_heavy_inputs() {
    let mut inv = InvertedGeneralizedTotalizer::new();
    inv.add(four_inputs(5, 5, 3, 3));
    let mut vm = BasicVarManager::new();
    vm.increase_next_free(Var::new(4));
    // Lower bound 13 is upper bound 3 on the negations: weights 5 stay out
    inv.encode_lb(13, 13, &mut vm).unwrap();
    let assumps = inv.enforce_lb(13).unwrap();
    assert_eq!(assumps[0], Lit::positive(0));
    assert_eq!(assumps[1], Lit::positive(1));
}

#[test]
fn double_gte_bounds_both_ways() {
    let mut dgte = DoubleGeneralizedTotalizer::new();
    dgte.add(four_inputs(5, 5, 3, 3));
    let mut vm = BasicVarManager::new();
    vm.increase_next_free(Var::new(4));
    let c1 = dgte.encode_ub(0, 6, &mut vm).unwrap();
    let c2 = dgte.encode_lb(0, 6, &mut vm).unwrap();
    assert_eq!(dgte.n_clauses(), c1.n_clauses() + c2.n_clauses());
    assert_eq!(dgte.n_vars(), 10 + 7);
    assert!(dgte.enforce_ub(6).is_ok());
    assert!(dgte.enforce_lb(6).is_ok());
    assert_eq!(dgte.enforce_lb(16), Err(EncodingError::Unsat));
    let again = dgte.encode_ub_change(0, 6, &mut vm).unwrap();
    assert_eq!(again.n_clauses(), 0);
    assert_eq!(
        dgte.encode_lb_change(7, 6, &mut vm).map(|c| c.n_clauses()),
        Err(EncodingError::InvalidLimits)
    );
}

#[test]
fn reserving_encoder_mints_up_front() {
    let mut gte = GeneralizedTotalizer::new_reserving();
    gte.add(four_inputs(5, 5, 3, 3));
    let mut vm = BasicVarManager::new();
    gte.encode_ub(0, 2, &mut vm).unwrap();
    // Only the weight-free window: nothing joins the tree
    assert_eq!(vm.n_used(), 0);
    gte.encode_ub(0, 6, &mut vm).unwrap();
    // [3,3]: 3, 6; [5,5]: 5, 10; root: 3, 5, 6, 8, 10, 11, 13, 16
    assert_eq!(vm.n_used(), 2 + 2 + 8);
    assert_eq!(gte.n_vars(), 12);
}

fn true_weight(node: &Node, inputs: &[bool]) -> usize {
    match node {
        Node::Leaf { lit, weight } => {
            let v = inputs[lit.var.idx as usize] != lit.negated;
            if v {
                *weight
            } else {
                0
            }
        }
        Node::Internal { left, right, .. } => true_weight(left, inputs) + true_weight(right, inputs),
    }
}

/// Sets every output variable by the threshold rule.
fn threshold_assign(node: &Node, inputs: &[bool], vals: &mut Vec<bool>) {
    if let Node::Internal { out_lits, left, right, .. } = node {
        let tw = true_weight(node, inputs);
        for (v, l) in out_lits {
            vals[l.var.idx as usize] = *v <= tw;
        }
        threshold_assign(left, inputs, vals);
        threshold_assign(right, inputs, vals);
    }
}

#[test]
fn enforce_ub_admits_every_assignment_within_the_bound() {
    let weights = [5usize, 5, 3, 3, 2];
    for k in 0..=18usize {
        let mut gte = GeneralizedTotalizer::new();
        gte.add(weights.iter().enumerate().map(|(i, w)| (Lit::positive(i as u32), *w)).collect());
        let mut vm = BasicVarManager::new();
        vm.increase_next_free(Var::new(weights.len() as u32));
        let cnf = gte.encode_ub(k, k, &mut vm).unwrap();
        let assumps = gte.enforce_ub(k).unwrap();
        for mask in 0u32..(1 << weights.len()) {
            let inputs: Vec<bool> = (0..weights.len()).map(|i| mask & (1 << i) != 0).collect();
            let sum: usize = (0..weights.len()).filter(|&i| inputs[i]).map(|i| weights[i]).sum();
            if sum > k {
                continue;
            }
            let mut vals = vec![false; vm.n_used()];
            vals[..weights.len()].copy_from_slice(&inputs);
            if let Some(root) = &gte.root {
                threshold_assign(root, &inputs, &mut vals);
            }
            let holds = |l: &Lit| vals[l.var.idx as usize] != l.negated;
            for clause in &cnf.clauses {
                assert!(clause.iter().any(|l| holds(l)), "k {} mask {} clause {:?}", k, mask, clause);
            }
            for l in &assumps {
                assert!(holds(l), "k {} mask {} assumption {:?}", k, mask, l);
            }
        }
    }
}

#[test]
fn encode_lb_above_total_weight_is_unsat() {
    let mut inv = InvertedGeneralizedTotalizer::new();
    inv.add(four_inputs(5, 5, 3, 3));
    let mut vm = BasicVarManager::new();
    vm.increase_next_free(Var::new(4));
    assert_eq!(inv.encode_lb(17, 20, &mut vm), Err(EncodingError::Unsat));
    assert_eq!(inv.encode_lb_change(17, 17, &mut vm), Err(EncodingError::Unsat));
    assert_eq!(vm.n_used(), 4);
    assert_eq!(inv.n_clauses(), 0);
    // The whole weight is a reachable lower bound
    assert!(inv.encode_lb(16, 16, &mut vm).is_ok());
    let mut dgte = DoubleGeneralizedTotalizer::new();
    dgte.add(four_inputs(5, 5, 3, 3));
    assert_eq!(dgte.encode_lb(17, 18, &mut vm), Err(EncodingError::Unsat));
    assert_eq!(dgte.encode_lb_change(20, 30, &mut vm), Err(EncodingError::Unsat));
}

#[test]
fn zero_weights_leave_the_buffer_alone() {
    let mut gte = GeneralizedTotalizer::new();
    gte.add(vec![(Lit::positive(0), 0), (Lit::positive(1), 0)]);
    assert!(gte.lit_buffer.is_empty());
    assert_eq!(gte.enforce_ub(0), Ok(vec![]));
}

#[test]
fn many_heavy_inputs_encode() {
    let mut gte = GeneralizedTotalizer::new();
    gte.add((0..1000).map(|i| (Lit::positive(i), 10_000)).collect());
    let mut vm = BasicVarManager::new();
    vm.increase_next_free(Var::new(1000));
    let cnf = gte.encode_ub(20_000, 20_000, &mut vm).unwrap();
    assert!(cnf.n_clauses() > 0);
    assert_eq!(gte.get_depth(), 11);
}
