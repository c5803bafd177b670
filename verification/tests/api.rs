use round_eliminator::problem::Problem;
use round_eliminator::simpleapi::{new_problem, possible_addarrow, possible_simplifications, simplify};

#[test]
fn reachability_adjacency_follows_the_diagram() {
    let mut p = Problem::from_string("A B\n\nAB AB\nC ABC").unwrap();
    p.compute_diagram();
    let adj = p.diagram_indirect_to_reachability_adj();
    let labels = p.labels();
    assert_eq!(labels, vec![0, 1, 2]);
    for l in &labels {
        assert!(adj.contains_key(l));
    }
    let edges = p.diagram_indirect.clone().unwrap();
    for (a, b) in &edges {
        assert!(adj[a].contains(b));
    }
    let inv = p.diagram_indirect_to_inverse_reachability_adj();
    for (a, b) in &edges {
        assert!(inv[b].contains(a));
    }
}

#[test]
fn old_reachability_adjacency_uses_the_old_mapping() {
    let mut p = Problem::from_string("A B\n\nA B").unwrap();
    p.diagram_indirect_old = Some(vec![(7, 8)]);
    p.mapping_oldlabel_text = Some(vec![(7, "X".to_string()), (8, "Y".to_string())]);
    let adj = p.diagram_indirect_old_to_reachability_adj();
    assert!(adj.contains_key(&7));
    assert!(adj.contains_key(&8));
    assert!(adj[&7].contains(&8));
    assert!(!adj[&8].contains(&7));
}

#[test]
fn simplifications_list_diagram_pairs_first() {
    let mut p = Problem::from_string("A B\n\nAB AB\nC ABC").unwrap();
    p.compute_diagram();
    let diagram = p.diagram_indirect.clone().unwrap();
    let sims = possible_simplifications(&p);
    assert!(sims.len() >= diagram.len());
    for (k, (pair, _)) in sims.iter().take(diagram.len()).enumerate() {
        assert_eq!(*pair, diagram[k]);
    }
    for ((a, b), _) in sims.iter().skip(diagram.len()) {
        assert!(a != b);
        assert!(!diagram.contains(&(*a, *b)));
    }
}

#[test]
fn addarrow_lists_only_unconnected_pairs() {
    let mut p = Problem::from_string("A B C\n\nAB AB\nC C").unwrap();
    p.compute_diagram();
    let diagram = p.diagram_indirect.clone().unwrap();
    let arrows = possible_addarrow(&p);
    for ((a, b), (ta, tb)) in &arrows {
        assert!(a != b);
        assert!(!diagram.contains(&(*a, *b)));
        assert_eq!(ta.len(), 1);
        assert_eq!(tb.len(), 1);
    }
}

#[test]
fn merged_problem_keeps_fewer_labels() {
    let mut p = Problem::from_string("A ABC ABC\n\nAB AB\nC ABC").unwrap();
    p.compute_diagram();
    let q = p.merge_equivalent_labels();
    assert!(q.labels().len() <= p.labels().len());
    assert_eq!(q.labels(), vec![0]);
}

#[test]
fn new_problem_joins_the_two_sides() {
    let (p, rendered) = new_problem("AB^5 BC^100 CD^3\nABCD^108", "AB CD").unwrap();
    assert_eq!(rendered, "ABCD^108\n\nAB CD\n");
    assert_eq!(p.labels(), vec![0, 1, 2, 3]);
    assert!(new_problem("AB CD**", "AB").is_err());
}

#[test]
fn simplify_merges_one_pair() {
    let p = Problem::from_string("AB AB\n\nA B").unwrap();
    let (q, rendered) = simplify(&p, (1, 0));
    assert_eq!(rendered, "A^2\n\nA^2\n");
    assert_eq!(q.labels(), vec![0]);
}
