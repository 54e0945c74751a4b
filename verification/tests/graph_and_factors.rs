use ternary_belief::factor::{decode_assignment, table_size, Factor, FactorTerm};
use ternary_belief::graph::{FactorGraph, MessageSources};
use ternary_belief::ternary::{ternary_idx, TERNARY_VALS};

fn simple_chain() -> FactorGraph<f64> {
    // x0 — f01 — x1
    // f01 table: symmetric preference for same value
    let mut g = FactorGraph::new();
    let x0 = g.add_variable("x0");
    let x1 = g.add_variable("x1");
    // table[i*3+j] = P(x0=i, x1=j), prefer matching
    let mut table = vec![0.1; 9];
    table[0] = 0.5; // (-1,-1)
    table[4] = 0.5; // (0,0)
    table[8] = 0.5; // (+1,+1)
    let sum: f64 = table.iter().sum();
    let table: Vec<f64> = table.iter().map(|&t| t / sum).collect();
    g.add_factor(vec![x0, x1], table);
    g
}

#[test]
fn test_add_variable_increments_id() {
    let mut g = FactorGraph::<f64>::new();
    let id0 = g.add_variable("a");
    let id1 = g.add_variable("b");
    assert_eq!(id0, 0);
    assert_eq!(id1, 1);
}

#[test]
fn test_add_factor_links_vars() {
    let g = simple_chain();
    assert_eq!(g.n_factors(), 1);
    let flist0 = g.var_to_factors.get(&0).unwrap();
    let flist1 = g.var_to_factors.get(&1).unwrap();
    assert!(flist0.contains(&0));
    assert!(flist1.contains(&0));
}

#[test]
fn test_factor_get_prob() {
    let f = Factor::<f64>::new(0, vec![0, 1], vec![0.1; 9]);
    let p = f.get_prob(&[0, 0]);
    assert!((p - 0.1).abs() < 1e-10);
}

#[test]
fn test_clear_evidence_restores_uniform() {
    let mut g = simple_chain();
    g.clamp_evidence(0, 1);
    g.clear_evidence(0);
    assert!(g.variables[0].evidence.is_none());
}

#[test]
fn test_ternary_idx() {
    assert_eq!(ternary_idx(-1), 0);
    assert_eq!(ternary_idx(0), 1);
    assert_eq!(ternary_idx(1), 2);
}

#[test]
fn ternary_positions_give_back_values() {
    for v in [-1i8, 0, 1] {
        assert_eq!(TERNARY_VALS[ternary_idx(v)], v);
    }
}

#[test]
fn ternary_idx_outside_range_casts() {
    assert_eq!(ternary_idx(2), 3);
    assert_eq!(ternary_idx(-2), usize::MAX);
}

#[test]
fn table_size_is_power_of_three() {
    assert_eq!(table_size(0), Some(1));
    assert_eq!(table_size(1), Some(3));
    assert_eq!(table_size(2), Some(9));
    assert_eq!(table_size(5), Some(243));
    assert_eq!(table_size(200), None);
}

#[test]
fn decode_gives_base_three_digits() {
    assert_eq!(decode_assignment(0, 2), vec![0, 0]);
    assert_eq!(decode_assignment(5, 2), vec![1, 2]);
    assert_eq!(decode_assignment(8, 2), vec![2, 2]);
    assert_eq!(decode_assignment(7, 3), vec![0, 2, 1]);
    assert_eq!(decode_assignment(4, 0), Vec::<usize>::new());
    // digits above the requested count are dropped
    assert_eq!(decode_assignment(10, 2), vec![0, 1]);
}

#[test]
fn decoded_configurations_index_the_table_in_order() {
    let table: Vec<u32> = (0..27).collect();
    let f = Factor::new(3, vec![4, 5, 6], table);
    for c in 0..27usize {
        let a = decode_assignment(c, 3);
        assert_eq!(f.get_prob(&a), c as u32);
    }
}

#[test]
fn get_prob_is_row_major() {
    let f = Factor::new(0, vec![0, 1], vec![10, 11, 12, 13, 14, 15, 16, 17, 18]);
    assert_eq!(f.get_prob(&[0, 0]), 10);
    assert_eq!(f.get_prob(&[0, 2]), 12);
    assert_eq!(f.get_prob(&[1, 0]), 13);
    assert_eq!(f.get_prob(&[2, 1]), 17);
    // a shorter assignment reads the position its digits give
    assert_eq!(f.get_prob(&[2]), 12);
}

#[test]
fn factor_new_keeps_its_parts() {
    let f = Factor::new(7, vec![2], vec![0.6, 0.3, 0.1]);
    assert_eq!(f.id, 7);
    assert_eq!(f.var_ids, vec![2]);
    assert_eq!(f.table, vec![0.6, 0.3, 0.1]);
}

#[test]
fn position_finds_first_occurrence() {
    let f = Factor::new(0, vec![4, 2, 4], vec![0u8; 27]);
    assert_eq!(f.position(4), Some(0));
    assert_eq!(f.position(2), Some(1));
    assert_eq!(f.position(9), None);
}

#[test]
fn factor_lists_follow_additions() {
    let mut g = FactorGraph::<u8>::new();
    let a = g.add_variable("a");
    let b = g.add_variable("b");
    let f0 = g.add_factor(vec![a], vec![1, 2, 3]);
    let f1 = g.add_factor(vec![a, b], vec![0; 9]);
    let f2 = g.add_factor(vec![b, b], vec![0; 9]);
    assert_eq!((f0, f1, f2), (0, 1, 2));
    assert_eq!(g.var_to_factors.get(&a).unwrap(), &vec![0, 1]);
    assert_eq!(g.var_to_factors.get(&b).unwrap(), &vec![1, 2, 2]);
    assert_eq!(g.n_vars(), 2);
    assert_eq!(g.n_factors(), 3);
    assert_eq!(g.factors[1].id, 1);
    assert_eq!(g.variables[1].name, "b");
}

#[test]
fn factor_naming_a_future_variable() {
    let mut g = FactorGraph::<u8>::new();
    let a = g.add_variable("a");
    g.add_factor(vec![a, 1], vec![0; 9]);
    // id 1 is listed although it is not a variable yet
    assert_eq!(g.var_to_factors.get(&1).unwrap(), &vec![0]);
    // adding variable 1 starts its list afresh
    let b = g.add_variable("b");
    assert_eq!(b, 1);
    assert!(g.var_to_factors.get(&1).unwrap().is_empty());
    assert_eq!(g.var_to_factors.get(&0).unwrap(), &vec![0]);
    assert!(g.var_to_factors.get(&2).is_none());
}

#[test]
fn evidence_on_missing_variable_is_ignored() {
    let mut g = simple_chain();
    g.clamp_evidence(5, 1);
    assert!(g.variables.iter().all(|v| v.evidence.is_none()));
    g.clamp_evidence(1, -1);
    assert_eq!(g.variables[1].evidence, Some(-1));
    assert_eq!(g.variables[0].evidence, None);
    g.clear_evidence(7);
    assert_eq!(g.variables[1].evidence, Some(-1));
}

#[test]
fn clear_after_clamp_leaves_no_evidence() {
    let mut g = simple_chain();
    g.clamp_evidence(1, 0);
    g.clear_evidence(1);
    assert_eq!(g.variables[1].evidence, None);
    assert_eq!(g.variables[1].name, "x1");
}

#[test]
fn edges_list_incidences_in_order() {
    let mut g = FactorGraph::<u8>::new();
    let a = g.add_variable("a");
    let b = g.add_variable("b");
    g.add_factor(vec![b, a], vec![0; 9]);
    g.add_factor(vec![a], vec![0; 3]);
    assert_eq!(g.edges(), vec![(0, b), (0, a), (1, a)]);
    assert!(FactorGraph::<u8>::new().edges().is_empty());
}

#[test]
fn message_sources_follow_evidence_and_exclusion() {
    let mut g = FactorGraph::<u8>::new();
    let a = g.add_variable("a");
    let b = g.add_variable("b");
    g.add_factor(vec![a, b], vec![0; 9]);
    g.add_factor(vec![a, a], vec![0; 9]);
    g.add_factor(vec![a], vec![0; 3]);
    match g.message_sources(a, None) {
        MessageSources::Product(l) => assert_eq!(l, vec![0, 1, 1, 2]),
        MessageSources::Observed(_) => panic!("no evidence was set"),
    }
    match g.message_sources(a, Some(1)) {
        MessageSources::Product(l) => assert_eq!(l, vec![0, 2]),
        MessageSources::Observed(_) => panic!("no evidence was set"),
    }
    g.clamp_evidence(a, -1);
    match g.message_sources(a, Some(0)) {
        MessageSources::Observed(v) => assert_eq!(v, -1),
        MessageSources::Product(_) => panic!("evidence was set"),
    }
}

#[test]
fn default_graph_is_empty() {
    let g: FactorGraph<f64> = Default::default();
    assert_eq!(g.n_vars(), 0);
    assert_eq!(g.n_factors(), 0);
    assert!(g.var_to_factors.is_empty());
}

#[test]
fn message_terms_cover_every_configuration() {
    let f = Factor::new(0, vec![7, 8], vec![0u8; 9]);
    let terms: Vec<FactorTerm> = f.message_terms(1);
    assert_eq!(terms.len(), 9);
    for (c, t) in terms.iter().enumerate() {
        assert_eq!(t.config, c);
        assert_eq!(t.target, c % 3);
        assert_eq!(t.inputs, vec![(7, c / 3)]);
    }
    let terms = f.message_terms(0);
    assert_eq!(terms[5].target, 1);
    assert_eq!(terms[5].inputs, vec![(8, 2)]);
}

#[test]
fn message_terms_of_a_unary_factor() {
    let f = Factor::new(4, vec![3], vec![0.6, 0.3, 0.1]);
    let terms = f.message_terms(0);
    assert_eq!(terms.len(), 3);
    for (c, t) in terms.iter().enumerate() {
        assert_eq!(t.config, c);
        assert_eq!(t.target, c);
        assert!(t.inputs.is_empty());
    }
}

#[test]
fn message_terms_keep_repeated_variables() {
    let f = Factor::new(0, vec![2, 2, 5], vec![0u8; 27]);
    let terms = f.message_terms(0);
    // configuration 16 = digits 1, 2, 1
    assert_eq!(terms[16].target, 1);
    assert_eq!(terms[16].inputs, vec![(2, 2), (5, 1)]);
}

#[test]
fn listed_factors_are_edges() {
    let mut g = FactorGraph::<u8>::new();
    let a = g.add_variable("a");
    let b = g.add_variable("b");
    let c = g.add_variable("c");
    g.add_factor(vec![a, b], vec![0; 9]);
    g.add_factor(vec![c], vec![0; 3]);
    g.add_factor(vec![b, c, a], vec![0; 27]);
    let edges = g.edges();
    for v in [a, b, c] {
        for &j in g.var_to_factors.get(&v).unwrap() {
            assert!(edges.contains(&(j, v)));
            assert!(g.factors[j].var_ids.contains(&v));
        }
    }
    assert_eq!(edges.len(), 6);
}
