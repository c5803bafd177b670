use round_eliminator::problem::Problem;

#[test]
#[should_panic]
fn parsing_err() {
    let _ = Problem::from_string("AB^5 BC^100 CD^3\nABCD^108\n\nAB CD**").unwrap();
}

#[test]
fn parsing() {
    let p = Problem::from_string("AB^5 BC^100 CD^3\nABCD^108\n\nAB CD").unwrap();
    assert_eq!(p.to_text(), "ABCD^108\n\nAB CD\n");

    let p = Problem::from_string("A AB*\nC CD*\n\nAB CD").unwrap();
    assert_eq!(p.to_text(), "A AB*\nC CD*\n\nAB CD\n");
}

#[test]
fn relax_merge() {
    let mut p = Problem::from_string("A ABC ABC\n\nAB AB\nC ABC").unwrap();
    p.compute_diagram();
    let p = p.merge_equivalent_labels();
    assert_eq!(p.to_text(), "A^3\n\nA^2\n");
}

#[test]
fn parsing_rejects_missing_separator() {
    assert!(Problem::from_string("AB AB").is_err());
}

#[test]
fn parsing_rejects_bad_count() {
    assert!(Problem::from_string("A^\n\nA").is_err());
    assert!(Problem::from_string("A^x\n\nA").is_err());
    assert!(Problem::from_string("A^0\n\nA").is_err());
    assert!(Problem::from_string("A^9999999\n\nA").is_err());
}

#[test]
fn parsing_rejects_empty_part() {
    assert!(Problem::from_string("^3\n\nA").is_err());
    assert!(Problem::from_string("*\n\nA").is_err());
}

#[test]
fn parsing_assigns_labels_in_order() {
    let p = Problem::from_string("AB\n\nBC").unwrap();
    let labels = p.labels();
    assert_eq!(labels, vec![0, 1, 2]);
    let texts: Vec<String> = p
        .mapping_label_text
        .iter()
        .map(|(_, t)| t.clone())
        .collect();
    assert_eq!(texts, vec!["A".to_string(), "B".to_string(), "C".to_string()]);
}

#[test]
fn duplicate_lines_are_discarded() {
    let p = Problem::from_string("A A\nA A\n\nA").unwrap();
    assert_eq!(p.to_text(), "A^2\n\nA\n");
}

#[test]
fn counts_render_without_caret_for_one() {
    let p = Problem::from_string("A^1 B\n\nAB").unwrap();
    assert_eq!(p.to_text(), "A B\n\nAB\n");
}

#[test]
fn relax_merge_removes_merged_label() {
    let p = Problem::from_string("AB AB\n\nA B").unwrap();
    let q = p.relax_merge(1, 0);
    assert_eq!(q.to_text(), "A^2\n\nA^2\n");
    assert_eq!(q.labels(), vec![0]);
}

#[test]
fn compute_diagram_fills_both_fields() {
    let mut p = Problem::from_string("A B\n\nA B").unwrap();
    p.compute_diagram();
    assert!(p.diagram_indirect.is_some());
    assert!(p.diagram_direct.is_some());
}
