use lira_analyzer::render::{is_adjacent_to_beam_by_nodes, parse_diameter_descriptions};
use lira_analyzer::types::{ElementType, LiraElement};

fn element(id: u32, element_type: ElementType, nodes: Vec<u32>) -> LiraElement {
    LiraElement { id, element_type, nodes }
}

#[test]
fn test_is_adjacent_to_beam_by_nodes() {
    let shell = element(1, ElementType::Shell, vec![1, 2, 3, 4]);
    // a beam along the side 2-3
    let side = vec![shell.clone(), element(2, ElementType::Beam, vec![2, 3])];
    assert!(is_adjacent_to_beam_by_nodes(&shell, &side));
    // a column along the closing side 4-1
    let closing = vec![element(3, ElementType::Column, vec![4, 1])];
    assert!(is_adjacent_to_beam_by_nodes(&shell, &closing));
    // a beam across the diagonal 1-3 is not along a side
    let diagonal = vec![element(4, ElementType::Beam, vec![1, 3])];
    assert!(!is_adjacent_to_beam_by_nodes(&shell, &diagonal));
    // a plate along a side is no bar
    let plate = vec![element(5, ElementType::Shell, vec![2, 3, 7])];
    assert!(!is_adjacent_to_beam_by_nodes(&shell, &plate));
    // a bar that touches one node only
    let touching = vec![element(6, ElementType::Beam, vec![2, 9])];
    assert!(!is_adjacent_to_beam_by_nodes(&shell, &touching));
}

#[test]
fn test_parse_diameter_descriptions() {
    let scale = "[2.515см2:Ø8 мм s=200 мм][3.930см2:Ø8 мм s=200 мм + Ø6 мм s=200 мм]";
    assert_eq!(
        parse_diameter_descriptions(scale),
        vec!["2.515см2:Ø8 мм s=200 мм".to_string(), "3.930см2:Ø8 мм s=200 мм + Ø6 мм s=200 мм".to_string()]
    );
    assert!(parse_diameter_descriptions("").is_empty());
    assert!(parse_diameter_descriptions("[]").is_empty());
    assert_eq!(parse_diameter_descriptions("a][][b"), vec!["a".to_string(), "b".to_string()]);
    assert_eq!(parse_diameter_descriptions("[[x]]"), vec!["x".to_string()]);
}
