use gte_encoding::node::Node;
use gte_encoding::types::{BasicVarManager, Lit};

fn child_with_outputs(first: u32) -> Node {
    // Deliberately inconsistent child: its outputs exceed its maximum value
    Node::Internal {
        out_lits: vec![
            (3, Lit::positive(first)),
            (5, Lit::positive(first + 1)),
            (8, Lit::positive(first + 2)),
        ],
        depth: 1,
        n_clauses: 0,
        max_val: 2,
        min_max_enc: Some((0, 8)),
        left: Box::new(Node::new_leaf(Lit::positive(0), 5)),
        right: Box::new(Node::new_leaf(Lit::positive(0), 3)),
    }
}

fn n_outputs(node: &Node) -> usize {
    match node {
        Node::Leaf { .. } => panic!(),
        Node::Internal { out_lits, .. } => out_lits.len(),
    }
}

#[test]
fn adder_1() {
    let child1 = Node::new_leaf(Lit::positive(0), 5);
    let child2 = Node::new_leaf(Lit::positive(1), 3);
    let mut node = Node::new_internal(child1, child2);
    let mut var_manager = BasicVarManager::new();
    let cnf = node.encode_from_till(0, 8, &mut var_manager);
    assert_eq!(n_outputs(&node), 3);
    assert_eq!(cnf.n_clauses(), 3);
}

#[test]
fn adder_2() {
    let mut node = Node::new_internal(child_with_outputs(1), child_with_outputs(4));
    let mut var_manager = BasicVarManager::new();
    let cnf = node.encode_from_till(0, 6, &mut var_manager);
    assert_eq!(n_outputs(&node), 3);
    assert_eq!(cnf.n_clauses(), 5);
}

#[test]
fn partial_adder_1() {
    let mut node = Node::new_internal(child_with_outputs(1), child_with_outputs(4));
    let mut var_manager = BasicVarManager::new();
    let cnf = node.encode_from_till(4, 6, &mut var_manager);
    assert_eq!(n_outputs(&node), 2);
    assert_eq!(cnf.n_clauses(), 3);
}

#[test]
fn partial_adder_already_encoded() {
    let mut node = Node::new_internal(child_with_outputs(1), child_with_outputs(4));
    let mut var_manager = BasicVarManager::new();
    let cnf = node.encode_from_till(6, 4, &mut var_manager);
    assert_eq!(cnf.n_clauses(), 0);
}

#[test]
fn adder_clauses_are_implications() {
    // Leaves 5 (x0) and 3 (x1): outputs 3, 5 and 8
    let mut node = Node::new_internal(
        Node::new_leaf(Lit::positive(0), 5),
        Node::new_leaf(Lit::positive(1), 3),
    );
    let mut var_manager = BasicVarManager::new();
    var_manager.increase_next_free(gte_encoding::types::Var::new(2));
    let cnf = node.encode_from_till(0, 8, &mut var_manager);
    let outs = match &node {
        Node::Leaf { .. } => panic!(),
        Node::Internal { out_lits, .. } => out_lits.clone(),
    };
    let values: Vec<usize> = outs.iter().map(|(v, _)| *v).collect();
    assert_eq!(values, vec![3, 5, 8]);
    let lit_of = |v: usize| outs.iter().find(|(w, _)| *w == v).unwrap().1;
    // Fresh positive literals from the manager
    for (_, l) in &outs {
        assert!(!l.negated);
        assert!(l.var.idx >= 2 && l.var.idx < 5);
    }
    assert_eq!(var_manager.n_used(), 5);
    let x0 = Lit::positive(0);
    let x1 = Lit::positive(1);
    assert!(cnf.clauses.contains(&vec![x0.negate(), lit_of(5)]));
    assert!(cnf.clauses.contains(&vec![x1.negate(), lit_of(3)]));
    assert!(cnf.clauses.contains(&vec![x0.negate(), x1.negate(), lit_of(8)]));
}

#[test]
fn adder_window_above_max_is_empty() {
    let mut node = Node::new_internal(
        Node::new_leaf(Lit::positive(0), 5),
        Node::new_leaf(Lit::positive(1), 3),
    );
    let mut var_manager = BasicVarManager::new();
    let cnf = node.encode_from_till(9, 20, &mut var_manager);
    assert_eq!(cnf.n_clauses(), 0);
    assert_eq!(n_outputs(&node), 0);
    assert_eq!(var_manager.n_used(), 0);
}

#[test]
fn required_min_enc_rules() {
    let leaf = Node::new_leaf(Lit::positive(0), 4);
    assert_eq!(Node::compute_required_min_enc(5, 9, &leaf), 4);
    assert_eq!(Node::compute_required_min_enc(2, 9, &leaf), 1);
    let internal = Node::new_internal(
        Node::new_leaf(Lit::positive(0), 4),
        Node::new_leaf(Lit::positive(1), 6),
    );
    // max_val is 10
    assert_eq!(Node::compute_required_min_enc(12, 5, &internal), 7);
    assert_eq!(Node::compute_required_min_enc(3, 5, &internal), 1);
    assert_eq!(Node::compute_required_min_enc(13, 20, &internal), 3);
    assert_eq!(Node::compute_required_min_enc(7, 20, &internal), 1);
}

#[test]
fn reserving_mints_every_output() {
    let mut node = Node::new_internal(
        Node::new_internal(
            Node::new_leaf(Lit::positive(0), 1),
            Node::new_leaf(Lit::positive(1), 2),
        ),
        Node::new_leaf(Lit::positive(2), 4),
    );
    let mut var_manager = BasicVarManager::new();
    var_manager.increase_next_free(gte_encoding::types::Var::new(3));
    node.reserve_all_vars_rec(&mut var_manager);
    // Inner node: 1, 2, 3; root: 1, 2, 3, 4, 5, 6, 7
    assert_eq!(var_manager.n_used(), 3 + 3 + 7);
    assert_eq!(n_outputs(&node), 7);
    assert_eq!(node.get_depth(), 3);
}

#[test]
fn outputs_are_minted_in_visiting_order() {
    // Left leaf 5, right leaf 3: left value, right value, then the sum
    let mut node = Node::new_internal(
        Node::new_leaf(Lit::positive(0), 5),
        Node::new_leaf(Lit::positive(1), 3),
    );
    let mut var_manager = BasicVarManager::new();
    var_manager.increase_next_free(gte_encoding::types::Var::new(2));
    let cnf = node.encode_from_till(0, 8, &mut var_manager);
    match &node {
        Node::Leaf { .. } => panic!(),
        Node::Internal { out_lits, .. } => assert_eq!(
            out_lits,
            &vec![(3, Lit::positive(3)), (5, Lit::positive(2)), (8, Lit::positive(4))]
        ),
    }
    // Left value, right value, then the pair, in that order
    assert_eq!(
        cnf.clauses,
        vec![
            vec![Lit::negative(0), Lit::positive(2)],
            vec![Lit::negative(1), Lit::positive(3)],
            vec![Lit::negative(0), Lit::negative(1), Lit::positive(4)],
        ]
    );
}
