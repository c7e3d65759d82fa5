use lira_analyzer::graph::GraphAnalyzer;
use lira_analyzer::types::{ConnectedGroup, ElementType, LiraElement};

fn element(id: u32, element_type: ElementType, nodes: Vec<u32>) -> LiraElement {
    LiraElement { id, element_type, nodes }
}

fn create_test_elements() -> Vec<LiraElement> {
    vec![
        element(1, ElementType::Shell, vec![10, 11, 12, 13]),
        element(2, ElementType::Shell, vec![12, 13, 14, 15]),
        element(3, ElementType::Shell, vec![20, 21, 22, 23]),
        element(4, ElementType::Beam, vec![13, 16, 17, 18]),
    ]
}

#[test]
fn test_find_connected_components() {
    let mut analyzer = GraphAnalyzer::new();
    let elements = create_test_elements();

    let components = analyzer.find_connected_components(&elements);

    assert_eq!(components.len(), 2);

    let large_component = components.iter().find(|c| c.elements.len() == 3).unwrap();
    let small_component = components.iter().find(|c| c.elements.len() == 1).unwrap();

    assert!(large_component.elements.contains(&1));
    assert!(large_component.elements.contains(&2));
    assert!(large_component.elements.contains(&4));

    assert!(small_component.elements.contains(&3));
}

#[test]
fn test_build_node_index() {
    let mut analyzer = GraphAnalyzer::new();
    let elements = create_test_elements();

    analyzer.build_node_index(&elements);

    let elements_at_node_13 = analyzer.elements_at_node(13).unwrap();
    assert_eq!(elements_at_node_13.len(), 3);
    assert!(elements_at_node_13.contains(&1));
    assert!(elements_at_node_13.contains(&2));
    assert!(elements_at_node_13.contains(&4));

    let elements_at_node_20 = analyzer.elements_at_node(20).unwrap();
    assert_eq!(elements_at_node_20.len(), 1);
    assert!(elements_at_node_20.contains(&3));
}

#[test]
fn test_unused_node_has_no_entry() {
    let mut analyzer = GraphAnalyzer::new();
    analyzer.build_node_index(&create_test_elements());
    assert!(analyzer.elements_at_node(99).is_none());
}

#[test]
fn test_groups_follow_chains_of_shared_nodes() {
    // 1-2 share node 2, 2-3 share node 3, 4 stands alone: groups {1,2,3} and {4}
    let elements = vec![
        element(1, ElementType::Shell, vec![1, 2]),
        element(2, ElementType::Shell, vec![2, 3]),
        element(3, ElementType::Beam, vec![3, 4]),
        element(4, ElementType::Column, vec![9]),
    ];
    let mut analyzer = GraphAnalyzer::new();
    let groups = analyzer.find_connected_components(&elements);
    assert_eq!(groups.len(), 2);
    assert_eq!(groups[0].id, 0);
    assert_eq!(groups[1].id, 1);
    let mut first = groups[0].elements.clone();
    first.sort();
    assert_eq!(first, vec![1, 2, 3]);
    assert_eq!(groups[1].elements, vec![4]);
}

#[test]
fn test_each_element_in_one_group() {
    let elements = create_test_elements();
    let mut analyzer = GraphAnalyzer::new();
    let groups = analyzer.find_connected_components(&elements);
    for e in &elements {
        let holding = groups.iter().filter(|g| g.elements.contains(&e.id)).count();
        assert_eq!(holding, 1);
    }
}

#[test]
fn test_crowded_node_links_all() {
    // Elements sharing a node are connected, however many list it.
    let mut elements = Vec::new();
    for id in 1..=101u32 {
        elements.push(element(id, ElementType::Shell, vec![500, 1000 + id]));
    }
    let mut analyzer = GraphAnalyzer::new();
    let groups = analyzer.find_connected_components(&elements);
    assert_eq!(groups.len(), 1);
    assert_eq!(groups[0].elements.len(), 101);
}

#[test]
fn test_group_statistics_of_components() {
    let elements = create_test_elements();
    let mut analyzer = GraphAnalyzer::new();
    let groups = analyzer.find_connected_components(&elements);
    let large = groups.iter().find(|g| g.elements.len() == 3).unwrap();
    assert_eq!(large.stats.shell_count, 2);
    assert_eq!(large.stats.beam_count, 1);
    assert_eq!(large.stats.column_count, 0);
    // nodes 10..18 without duplicates: 10,11,12,13,14,15,16,17,18
    assert_eq!(large.stats.total_nodes, 9);
    assert_eq!(large.group_type, ElementType::Shell);
    let small = groups.iter().find(|g| g.elements.len() == 1).unwrap();
    assert_eq!(small.stats.total_nodes, 4);
    assert_eq!(small.group_type, ElementType::Shell);
}

#[test]
fn test_update_statistics_prevailing_kind() {
    let elements = vec![
        element(1, ElementType::Beam, vec![1, 2]),
        element(2, ElementType::Beam, vec![2, 3]),
        element(3, ElementType::Column, vec![3, 4]),
        element(4, ElementType::Shell, vec![4, 5, 6]),
    ];
    let mut group = ConnectedGroup::new(7, vec![1, 2, 3, 4]);
    assert_eq!(group.group_type, ElementType::Unknown);
    group.update_statistics(&elements);
    assert_eq!(group.id, 7);
    assert_eq!(group.stats.beam_count, 2);
    assert_eq!(group.stats.column_count, 1);
    assert_eq!(group.stats.shell_count, 1);
    assert_eq!(group.stats.total_nodes, 6);
    assert_eq!(group.group_type, ElementType::Beam);

    let mut columns = ConnectedGroup::new(0, vec![3]);
    columns.update_statistics(&elements);
    assert_eq!(columns.group_type, ElementType::Column);

    let mut empty = ConnectedGroup::new(0, vec![42]);
    empty.update_statistics(&elements);
    assert_eq!(empty.group_type, ElementType::Unknown);
    assert_eq!(empty.stats.total_nodes, 0);
}

#[test]
fn test_is_shell_and_is_beam() {
    let shell = element(1, ElementType::Shell, vec![]);
    let beam = element(2, ElementType::Beam, vec![]);
    let column = element(3, ElementType::Column, vec![]);
    let unknown = element(4, ElementType::Unknown, vec![]);
    assert!(shell.is_shell() && !shell.is_beam());
    assert!(beam.is_beam() && !beam.is_shell());
    assert!(column.is_beam() && !column.is_shell());
    assert!(!unknown.is_beam() && !unknown.is_shell());
}

#[test]
fn test_bridge_elements() {
    // 1 - 2 - 3 in a chain: 2 holds the group together
    let elements = vec![
        element(1, ElementType::Shell, vec![1, 2]),
        element(2, ElementType::Shell, vec![2, 3]),
        element(3, ElementType::Shell, vec![3, 4]),
    ];
    let mut analyzer = GraphAnalyzer::new();
    let groups = analyzer.find_connected_components(&elements);
    assert_eq!(groups.len(), 1);
    let group = &groups[0];
    assert!(analyzer.is_bridge_element(2, group));
    assert!(!analyzer.is_bridge_element(1, group));
    assert!(!analyzer.is_bridge_element(3, group));
    assert_eq!(analyzer.find_bridge_elements(group), vec![2]);
}

#[test]
fn test_no_bridge_in_a_ring() {
    let elements = vec![
        element(1, ElementType::Shell, vec![1, 2]),
        element(2, ElementType::Shell, vec![2, 3]),
        element(3, ElementType::Shell, vec![3, 1]),
    ];
    let mut analyzer = GraphAnalyzer::new();
    let groups = analyzer.find_connected_components(&elements);
    assert_eq!(groups.len(), 1);
    assert!(analyzer.find_bridge_elements(&groups[0]).is_empty());
}

#[test]
fn test_analyze_element_connectivity() {
    let elements = create_test_elements();
    let mut analyzer = GraphAnalyzer::new();
    analyzer.find_connected_components(&elements);
    let c1 = analyzer.analyze_element_connectivity(1);
    assert_eq!(c1.element_id, 1);
    // element 1 is linked to 2 and 4
    assert_eq!(c1.direct_connections, 2);
    // nodes 12 and 13 are shared with other elements
    assert_eq!(c1.shared_nodes, 2);
    let c4 = analyzer.analyze_element_connectivity(4);
    assert_eq!(c4.direct_connections, 2);
    assert_eq!(c4.shared_nodes, 1);
    let c3 = analyzer.analyze_element_connectivity(3);
    assert_eq!(c3.direct_connections, 0);
    assert_eq!(c3.shared_nodes, 0);
}

#[test]
fn test_links_are_symmetric() {
    let elements = create_test_elements();
    let mut analyzer = GraphAnalyzer::new();
    analyzer.find_connected_components(&elements);
    let c2 = analyzer.analyze_element_connectivity(2);
    let c4 = analyzer.analyze_element_connectivity(4);
    // 2 and 4 share node 13, so each counts the other
    assert_eq!(c2.direct_connections, 2);
    assert_eq!(c4.direct_connections, 2);
}

#[test]
fn test_group_members_in_search_order() {
    // A chain listed out of order: 3-1 share node 7, 1-4 share node 8, 4-2 share node 9.
    let elements = vec![
        element(1, ElementType::Shell, vec![7, 8]),
        element(2, ElementType::Shell, vec![9]),
        element(3, ElementType::Shell, vec![7]),
        element(4, ElementType::Shell, vec![8, 9]),
    ];
    let mut analyzer = GraphAnalyzer::new();
    let groups = analyzer.find_connected_components(&elements);
    assert_eq!(groups.len(), 1);
    let members = &groups[0].elements;
    assert_eq!(members[0], 1);
    let shares = |a: u32, b: u32| {
        let na = &elements.iter().find(|e| e.id == a).unwrap().nodes;
        let nb = &elements.iter().find(|e| e.id == b).unwrap().nodes;
        na.iter().any(|n| nb.contains(n))
    };
    for k in 1..members.len() {
        assert!((0..k).any(|j| shares(members[j], members[k])));
    }
}
