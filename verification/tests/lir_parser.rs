use lira_analyzer::text_format::is_decimal_text;
use lira_analyzer::lir_parser::{LiraErrorKind, LiraFormat, LirParser};
use lira_analyzer::lira_file::WorkingProjectLiraFile;
use lira_analyzer::graph::GraphAnalyzer;
use lira_analyzer::types::ElementType;

#[test]
fn test_parse_element_type() {
    let parser = LirParser::new().unwrap();

    assert_eq!(parser.parse_element_type("SHELL"), ElementType::Shell);
    assert_eq!(parser.parse_element_type("BEAM"), ElementType::Beam);
    assert_eq!(parser.parse_element_type("COLUMN"), ElementType::Column);
    assert_eq!(parser.parse_element_type("UNKNOWN"), ElementType::Unknown);
}

#[test]
fn test_parse_element_type_synonyms() {
    let parser = LirParser::new().unwrap();
    for word in ["PLATE", "MEMBRANE", "QUAD", "TRIANGLE"] {
        assert_eq!(parser.parse_element_type(word), ElementType::Shell);
    }
    for word in ["BAR", "TRUSS", "FRAME"] {
        assert_eq!(parser.parse_element_type(word), ElementType::Beam);
    }
    assert_eq!(parser.parse_element_type("PILLAR"), ElementType::Column);
    // the words are matched as written: lower case is not recognised
    assert_eq!(parser.parse_element_type("shell"), ElementType::Unknown);
}

#[test]
fn test_parse_element_line() {
    let parser = LirParser::new().unwrap();

    let element = parser.parse_element_line("1 SHELL 1 2 3 4").unwrap().unwrap();
    assert_eq!(element.id, 1);
    assert!(element.is_shell());
    assert_eq!(element.nodes, vec![1, 2, 3, 4]);

    let element = parser.parse_element_line("ELEMENT 5 TYPE=BEAM NODES=10,20").unwrap().unwrap();
    assert_eq!(element.id, 5);
    assert!(element.is_beam());
    assert_eq!(element.nodes, vec![10, 20]);
}

#[test]
fn test_parse_element_line_lower_case_type() {
    let parser = LirParser::new().unwrap();
    let element = parser.parse_element_line("element 7 type=column nodes=3, 4").unwrap().unwrap();
    assert_eq!(element.id, 7);
    assert_eq!(element.element_type, ElementType::Column);
    assert_eq!(element.nodes, vec![3, 4]);
}

#[test]
fn test_parse_element_line_no_match() {
    let parser = LirParser::new().unwrap();
    assert!(parser.parse_element_line("no numbers here").unwrap().is_none());
}

#[test]
fn test_parse_element_line_errors() {
    let parser = LirParser::new().unwrap();
    let err = parser.parse_element_line("99999999999 BEAM 1 2").unwrap_err();
    assert_eq!(err.kind, LiraErrorKind::InvalidElementNumber);
    assert_eq!(err.text, "99999999999 BEAM 1 2");
    let err = parser.parse_element_line("1 BEAM 1 99999999999").unwrap_err();
    assert_eq!(err.kind, LiraErrorKind::InvalidNodeList);
    assert_eq!(err.text, "1 BEAM 1 99999999999");
}

#[test]
fn test_parse_node_line() {
    let parser = LirParser::new().unwrap();

    let node = parser.parse_node_line("1 0.0 1.5 -2.3").unwrap().unwrap();
    assert_eq!(node.id, 1);
    let position: (f32, f32, f32) =
        (node.x.parse().unwrap(), node.y.parse().unwrap(), node.z.parse().unwrap());
    assert_eq!(position, (0.0, 1.5, -2.3));

    let node = parser.parse_node_line("NODE 42 X=10.5 Y=-5.0 Z=0.0").unwrap().unwrap();
    assert_eq!(node.id, 42);
    let position: (f32, f32, f32) =
        (node.x.parse().unwrap(), node.y.parse().unwrap(), node.z.parse().unwrap());
    assert_eq!(position, (10.5, -5.0, 0.0));
}

#[test]
fn test_parse_node_line_errors() {
    let parser = LirParser::new().unwrap();
    let err = parser.parse_node_line("99999999999 1 2 3").unwrap_err();
    assert_eq!(err.kind, LiraErrorKind::InvalidNodeId);
    assert_eq!(err.text, "99999999999 1 2 3");
    assert!(parser.parse_node_line("just text").unwrap().is_none());
}

#[test]
fn test_parse_node_list() {
    let parser = LirParser::new().unwrap();
    assert_eq!(parser.parse_node_list("1, 2,3\t4  5").unwrap(), vec![1, 2, 3, 4, 5]);
    assert_eq!(parser.parse_node_list("").unwrap(), Vec::<u32>::new());
    assert_eq!(parser.parse_node_list("+7").unwrap(), vec![7]);
    let err = parser.parse_node_list("1, x2, y3").unwrap_err();
    assert_eq!(err.kind, LiraErrorKind::InvalidNodeNumber);
    assert_eq!(err.text, "x2");
    let err = parser.parse_node_list("4294967296").unwrap_err();
    assert_eq!(err.kind, LiraErrorKind::InvalidNodeNumber);
    assert_eq!(parser.parse_node_list("4294967295").unwrap(), vec![4294967295]);
}

#[test]
fn test_detect_format() {
    assert_eq!(LirParser::detect_format("[NODES]\n1 0 0 0"), LiraFormat::Text);
    assert_eq!(LirParser::detect_format("x [ELEMENTS] y"), LiraFormat::Text);
    assert_eq!(LirParser::detect_format("(1/\n1 2\n)"), LiraFormat::Documents);
    assert_eq!(LirParser::detect_format("(1/ 1 2"), LiraFormat::Unknown);
    assert_eq!(LirParser::detect_format(""), LiraFormat::Unknown);
    assert_eq!(LirParser::detect_format("[NODES"), LiraFormat::Unknown);
}

const DOCUMENT_FILE: &str = "(1/\n1 2 3 4 5/\n10 1 1 2/\n44 1 1 2 3 4\n)\n(4/0 0 0/1 0 0/\n1 1 0/0 1 0/\n)\n";

#[test]
fn test_parse_file_from_string() {
    let mut file = WorkingProjectLiraFile::new();
    file.parse_file_from_string(DOCUMENT_FILE).unwrap();
    assert_eq!(file.document_count(), 2);
    let doc1 = file.document("1").unwrap();
    assert_eq!(doc1.id, "1");
    assert_eq!(doc1.content, "1 2 3 4 5//10 1 1 2//44 1 1 2 3 4");
    let doc4 = file.document("4").unwrap();
    assert_eq!(doc4.content, "0 0 0/1 0 0//1 1 0/0 1 0/");
    assert!(file.document("2").is_none());

    // the placeholder coordinate 0 and four coordinates of document 4
    assert_eq!(file.coordinates.len(), 5);
    assert_eq!(file.coordinates[0].x, "0");
    assert_eq!(file.coordinates[2].x, "1");
    assert_eq!(file.coordinates[3].y, "1");

    let elements = file.get_elements();
    assert_eq!(elements.len(), 3);
    assert_eq!(elements[0].element_type, 1);
    assert_eq!(elements[0].material, 2);
    // coordinate 5 does not exist and is left out
    assert_eq!(elements[0].coordinate_indices, vec![3, 4]);
    assert_eq!(elements[1].element_type, 10);
    assert_eq!(elements[1].coordinate_indices, vec![1, 2]);
    assert_eq!(elements[2].element_type, 44);
    assert_eq!(elements[2].coordinate_indices, vec![1, 2, 3, 4]);
}

#[test]
fn test_convert_from_working_project() {
    let mut file = WorkingProjectLiraFile::new();
    file.parse_file_from_string(DOCUMENT_FILE).unwrap();
    assert!(LirParser::node_numbers_fit(&file));
    let parser = LirParser::new().unwrap();
    let elements = parser.convert_from_working_project(&file).unwrap();
    assert_eq!(elements.len(), 3);
    assert_eq!(elements[0].id, 1);
    // type 1 with two coordinates: a bar
    assert_eq!(elements[0].element_type, ElementType::Beam);
    assert_eq!(elements[0].nodes, vec![1, 2]);
    assert_eq!(elements[1].id, 2);
    assert_eq!(elements[1].element_type, ElementType::Beam);
    assert_eq!(elements[1].nodes, vec![11, 12]);
    assert_eq!(elements[2].id, 3);
    assert_eq!(elements[2].element_type, ElementType::Shell);
    assert_eq!(elements[2].nodes, vec![21, 22, 23, 24]);
}

#[test]
fn test_element_kind_by_coordinate_count() {
    let text = "(4/0 0 0/1 0 0/1 1 0/0 1 0/2 2 2\n)\n(1/7 1 1 2 3/7 1 1 2 3 4 5/43 1/5 1 1 2 3 4\n)\n";
    let mut file = WorkingProjectLiraFile::new();
    file.parse_file_from_string(text).unwrap();
    let parser = LirParser::new().unwrap();
    let elements = parser.convert_from_working_project(&file).unwrap();
    assert_eq!(elements.len(), 4);
    assert_eq!(elements[0].element_type, ElementType::Shell);
    assert_eq!(elements[1].element_type, ElementType::Unknown);
    assert_eq!(elements[2].element_type, ElementType::Shell);
    assert!(elements[2].nodes.is_empty());
    assert_eq!(elements[3].element_type, ElementType::Beam);
    assert_eq!(elements[3].nodes, vec![31, 32, 33, 34]);
}

#[test]
fn test_document_reads_back() {
    let mut file = WorkingProjectLiraFile::new();
    file.parse_file_from_string("(7/ head\n  first line \nsecond\n)").unwrap();
    assert_eq!(file.document("7").unwrap().content, "head/first line/second");
    let mut file = WorkingProjectLiraFile::new();
    file.parse_file_from_string("( 8 /\nonly\n)").unwrap();
    assert_eq!(file.document("8").unwrap().content, "only");
}

#[test]
fn test_later_document_replaces_earlier() {
    let mut file = WorkingProjectLiraFile::new();
    file.parse_file_from_string("(3/a\n)\n(3/b\n)").unwrap();
    assert_eq!(file.document_count(), 1);
    assert_eq!(file.document("3").unwrap().content, "b");
    file.parse_file_from_string("(3/c\n)").unwrap();
    assert_eq!(file.document("3").unwrap().content, "c");
}

#[test]
fn test_unclosed_document_is_dropped() {
    let mut file = WorkingProjectLiraFile::new();
    file.parse_file_from_string("(5/ never closed\nmore\n(6/x\n)").unwrap();
    assert!(file.document("5").is_none());
    assert_eq!(file.document("6").unwrap().content, "x");
}

#[test]
fn test_text_outside_documents_is_ignored() {
    let mut file = WorkingProjectLiraFile::new();
    file.parse_file_from_string("header\n)\nplain text\n").unwrap();
    assert_eq!(file.document_count(), 0);
    assert!(file.coordinates.is_empty());
    assert!(file.get_elements().is_empty());
}

#[test]
fn test_crlf_lines() {
    let mut file = WorkingProjectLiraFile::new();
    file.parse_file_from_string("(1/\r\n10 1 1 2\r\n)\r\n").unwrap();
    assert_eq!(file.document("1").unwrap().content, "10 1 1 2");
    assert_eq!(file.get_elements().len(), 1);
    // no document 4: only coordinate numbers below the count are kept
    assert!(file.get_elements()[0].coordinate_indices.is_empty());
}

#[test]
fn test_element_coordinates_exist() {
    let mut file = WorkingProjectLiraFile::new();
    file.parse_file_from_string("(4/1 2 3/4 5 6\n)\n(1/1 1 0 1 2 3 -1 x 99\n)").unwrap();
    assert_eq!(file.coordinates.len(), 3);
    let e = &file.get_elements()[0];
    assert_eq!(e.coordinate_indices, vec![1, 2]);
    for &i in &e.coordinate_indices {
        assert!(i > 0 && i < file.coordinates.len());
    }
}

#[test]
fn test_unreadable_numbers_become_zero() {
    let mut file = WorkingProjectLiraFile::new();
    file.parse_file_from_string("(1/x y 1\n)").unwrap();
    let e = &file.get_elements()[0];
    assert_eq!(e.element_type, 0);
    assert_eq!(e.material, 0);
}

const TEXT_MODEL: &str = "! Test model\n[NODES]\n1 0.0 0.0 0.0\n2 1.0 0.0 0.0\nNODE 3 X=1.0 Y=1.0 Z=0.0\n\n[ELEMENTS]\n1 SHELL 1 2 3\nELEMENT 2 TYPE=BAR NODES=2,3\n# done\n";

#[test]
fn test_parse_text_content() {
    let mut parser = LirParser::new().unwrap();
    parser.init_text_regexes().unwrap();
    let result = parser.parse_text_content(TEXT_MODEL, "model.txt".to_string()).unwrap();
    assert_eq!(result.metadata.filename, "model.txt");
    assert_eq!(result.metadata.comments, vec!["Test model".to_string(), "done".to_string()]);
    assert!(result.metadata.lira_version.is_none());
    assert_eq!(result.elements.len(), 2);
    assert_eq!(result.elements[0].id, 1);
    assert_eq!(result.elements[0].element_type, ElementType::Shell);
    assert_eq!(result.elements[0].nodes, vec![1, 2, 3]);
    assert_eq!(result.elements[1].id, 2);
    assert_eq!(result.elements[1].element_type, ElementType::Beam);
    assert_eq!(result.elements[1].nodes, vec![2, 3]);
    assert_eq!(result.nodes.len(), 3);
    let node = |id: u32| result.nodes.iter().find(|n| n.id == id).unwrap();
    assert_eq!(node(1).connected_elements, vec![1]);
    assert_eq!(node(2).connected_elements, vec![1, 2]);
    assert_eq!(node(3).connected_elements, vec![1, 2]);
    assert_eq!(node(3).x, "1.0");
    assert_eq!(node(3).y, "1.0");
}

#[test]
fn test_parse_text_content_later_node_replaces_earlier() {
    let mut parser = LirParser::new().unwrap();
    let text = "[NODES]\n1 0 0 0\n1 5 5 5\n";
    let result = parser.parse_text_content(text, String::new()).unwrap();
    assert_eq!(result.nodes.len(), 1);
    assert_eq!(result.nodes[0].x, "5");
}

#[test]
fn test_parse_text_content_errors() {
    let mut parser = LirParser::new().unwrap();
    let err = parser
        .parse_text_content("[NODES]\n99999999999 1 2 3\n", String::new())
        .unwrap_err();
    assert_eq!(err.kind, LiraErrorKind::InvalidNodeId);
    assert_eq!(err.text, "99999999999 1 2 3");
    let err = parser
        .parse_text_content("[ELEMENTS]\n  1 BEAM 1 99999999999  \n", String::new())
        .unwrap_err();
    assert_eq!(err.kind, LiraErrorKind::InvalidNodeList);
    assert_eq!(err.text, "1 BEAM 1 99999999999");
}

#[test]
fn test_parse_text_content_section_heads() {
    let mut parser = LirParser::new().unwrap();
    // "*ELEMENTS" opens the element section; "[nodes]" is no section head
    let text = "*ELEMENTS\n4 BEAM 7 8\n[nodes]\n";
    let result = parser.parse_text_content(text, String::new()).unwrap();
    assert_eq!(result.elements.len(), 1);
    assert_eq!(result.elements[0].nodes, vec![7, 8]);
    assert!(result.nodes.is_empty());
}

#[test]
fn test_document_file_elements_are_isolated() {
    let mut file = WorkingProjectLiraFile::new();
    file.parse_file_from_string(DOCUMENT_FILE).unwrap();
    let parser = LirParser::new().unwrap();
    let elements = parser.convert_from_working_project(&file).unwrap();
    let mut analyzer = GraphAnalyzer::new();
    let groups = analyzer.find_connected_components(&elements);
    assert_eq!(groups.len(), elements.len());
    assert!(groups.iter().all(|g| g.elements.len() == 1));
}

#[test]
fn test_decimal_text_form() {
    assert!(is_decimal_text("12"));
    assert!(is_decimal_text("-2.3"));
    assert!(is_decimal_text("+.5"));
    assert!(is_decimal_text("10.25"));
    assert!(!is_decimal_text("1.2.3"));
    assert!(!is_decimal_text("1."));
    assert!(!is_decimal_text("+"));
    assert!(!is_decimal_text(""));
    assert!(!is_decimal_text("1-2"));
    assert!(!is_decimal_text("\u{0663}"));
}
