use lira_analyzer::element_matching::{
    compare_element_indices, match_element_numbers, sli_shape, sli_vertex_positions, SliShape,
};

fn keys(items: &[&str]) -> Vec<String> {
    items.iter().map(|s| s.to_string()).collect()
}

#[test]
fn test_match_element_numbers_by_key() {
    let txt = keys(&["a", "b", "c"]);
    let sli = keys(&["c", "a", "x"]);
    assert_eq!(match_element_numbers(&txt, &sli), vec![3, 1, 0]);
}

#[test]
fn test_match_element_numbers_last_duplicate_wins() {
    let txt = keys(&["a", "b", "a"]);
    let sli = keys(&["a", "a", "b"]);
    // Only the last SLI element with a key is numbered, after the last text
    // element with it.
    assert_eq!(match_element_numbers(&txt, &sli), vec![0, 3, 2]);
}

#[test]
fn test_match_element_numbers_empty_lists() {
    assert_eq!(match_element_numbers(&keys(&[]), &keys(&["a"])), vec![0]);
    assert!(match_element_numbers(&keys(&["a"]), &keys(&[])).is_empty());
}

#[test]
fn test_compare_element_indices_reports_each_kind() {
    let txt = keys(&["a", "b", "c"]);
    let sli = keys(&["b", "a", "d"]);
    let r = compare_element_indices(&txt, &sli);
    assert_eq!(r.checked, 2);
    assert_eq!(r.mismatches, vec![(0, 1), (1, 0)]);
    assert_eq!(r.txt_only, vec![2]);
    assert_eq!(r.sli_only, vec![2]);
    assert!(!r.is_consistent());
}

#[test]
fn test_compare_same_keys_is_consistent() {
    let txt = keys(&["p", "q", "p", "r"]);
    let r = compare_element_indices(&txt, &txt.clone());
    assert_eq!(r.checked, 3);
    assert!(r.mismatches.is_empty());
    assert!(r.txt_only.is_empty());
    assert!(r.sli_only.is_empty());
    assert!(r.is_consistent());
}

#[test]
fn test_mismatch_rows_agree_with_numbers() {
    let txt = keys(&["a", "b", "c", "d"]);
    let sli = keys(&["d", "c", "b", "a"]);
    let numbers = match_element_numbers(&txt, &sli);
    let r = compare_element_indices(&txt, &sli);
    assert_eq!(r.mismatches.len(), 4);
    for &(i, p) in &r.mismatches {
        assert_ne!(i, p);
        assert_eq!(numbers[p], i + 1);
        assert_eq!(txt[i], sli[p]);
    }
}

#[test]
fn test_compare_uses_last_position_of_duplicates() {
    let txt = keys(&["a", "a"]);
    let sli = keys(&["a"]);
    let r = compare_element_indices(&txt, &sli);
    assert_eq!(r.checked, 1);
    assert_eq!(r.mismatches, vec![(1, 0)]);
    assert!(r.txt_only.is_empty());
    assert!(r.sli_only.is_empty());
}

#[test]
fn test_sli_shape_by_vertex_count() {
    assert_eq!(sli_shape(2), SliShape::Line);
    assert_eq!(sli_shape(3), SliShape::Triangle);
    assert_eq!(sli_shape(4), SliShape::Quad);
    assert_eq!(sli_shape(0), SliShape::Unknown);
    assert_eq!(sli_shape(5), SliShape::Unknown);
}

#[test]
fn test_sli_vertex_positions_skip_missing_points() {
    assert_eq!(sli_vertex_positions(&vec![1, 3, 5], 4), vec![0, 2]);
    assert_eq!(sli_vertex_positions(&vec![4, 4], 4), vec![3, 3]);
    assert!(sli_vertex_positions(&vec![], 4).is_empty());
    assert!(sli_vertex_positions(&vec![1], 0).is_empty());
}
