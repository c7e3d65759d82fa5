use lira_analyzer::render::element_color_by_adjacency;
use lira_analyzer::report::{
    group_row, lists_elements, report_overview, select_report_groups, DocumentSettings, PageMargins,
};
use lira_analyzer::types::{ConnectedGroup, ElementType, FileMetadata, LiraElement};

fn element(id: u32, element_type: ElementType, nodes: Vec<u32>) -> LiraElement {
    LiraElement { id, element_type, nodes }
}

#[test]
fn test_select_report_groups() {
    let mut groups = Vec::new();
    for id in 0..30usize {
        let members = if id % 2 == 0 { vec![id as u32, 100 + id as u32] } else { vec![id as u32] };
        groups.push(ConnectedGroup::new(id, members));
    }
    let selected = select_report_groups(groups);
    // 15 groups have two elements; all of them are kept, in order
    assert_eq!(selected.len(), 15);
    assert!(selected.iter().all(|g| g.elements.len() > 1));
    assert_eq!(selected[0].id, 0);
    assert_eq!(selected[14].id, 28);

    let many: Vec<ConnectedGroup> = (0..50usize).map(|id| ConnectedGroup::new(id, vec![1, 2])).collect();
    let selected = select_report_groups(many);
    assert_eq!(selected.len(), 20);
    assert_eq!(selected[19].id, 19);

    assert!(select_report_groups(Vec::new()).is_empty());
}

#[test]
fn test_report_overview() {
    let elements = vec![
        element(1, ElementType::Shell, vec![]),
        element(2, ElementType::Beam, vec![]),
        element(3, ElementType::Column, vec![]),
        element(4, ElementType::Unknown, vec![]),
        element(5, ElementType::Shell, vec![]),
    ];
    let groups = vec![ConnectedGroup::new(0, vec![1, 2])];
    let overview = report_overview(&elements, &groups);
    assert_eq!(overview.total_elements, 5);
    assert_eq!(overview.shell_elements, 2);
    assert_eq!(overview.bar_elements, 2);
    assert_eq!(overview.groups, 1);
}

#[test]
fn test_group_row() {
    let elements = vec![
        element(1, ElementType::Shell, vec![1, 2, 3]),
        element(2, ElementType::Beam, vec![3, 4]),
        element(3, ElementType::Column, vec![4, 5]),
    ];
    let mut group = ConnectedGroup::new(4, vec![1, 2, 3]);
    group.update_statistics(&elements);
    let row = group_row(2, &group);
    assert_eq!(row.number, 3);
    assert_eq!(row.elements, 3);
    assert_eq!(row.shells, 1);
    assert_eq!(row.bars, 2);
    // one beam does not outnumber one column
    assert_eq!(row.group_type, ElementType::Column);
}

#[test]
fn test_lists_elements() {
    let small = ConnectedGroup::new(0, (1..=20).collect());
    let large = ConnectedGroup::new(1, (1..=21).collect());
    assert!(lists_elements(&small));
    assert!(!lists_elements(&large));
}

#[test]
fn test_document_settings_default() {
    let settings = DocumentSettings::default();
    assert_eq!(settings.title, "Анализ связных компонент LIRA");
    assert_eq!(settings.author, "LIRA Analyzer");
    assert_eq!(settings.image_width_emu, 5486400);
    assert_eq!(settings.image_height_emu, 3657600);
    assert_eq!(settings.page_width, 16838);
    assert_eq!(settings.page_height, 11906);
    assert_eq!(settings.margins, PageMargins { top: 720, right: 720, bottom: 720, left: 720 });
}

#[test]
fn test_file_metadata_default() {
    let metadata = FileMetadata::default();
    assert!(metadata.filename.is_empty());
    assert!(metadata.lira_version.is_none());
    assert!(metadata.created_date.is_none());
    assert!(metadata.comments.is_empty());
}

#[test]
fn test_element_color_by_adjacency() {
    let shell = element(1, ElementType::Shell, vec![1, 2, 3, 4]);
    let beam = element(2, ElementType::Beam, vec![1, 2]);
    let far_beam = element(3, ElementType::Beam, vec![7, 8]);
    let unknown = element(4, ElementType::Unknown, vec![]);
    let next_to_beam = vec![shell.clone(), beam.clone()];
    let alone = vec![shell.clone(), far_beam.clone()];
    assert_eq!(element_color_by_adjacency(&shell, &next_to_beam), (135, 206, 250));
    assert_eq!(element_color_by_adjacency(&shell, &alone), (255, 255, 0));
    assert_eq!(element_color_by_adjacency(&beam, &next_to_beam), (139, 69, 19));
    assert_eq!(element_color_by_adjacency(&unknown, &alone), (128, 128, 128));
}
