use lira_analyzer::element_matching::SliShape;
use lira_analyzer::lir_parser::LirParser;
use lira_analyzer::sli::read_sli_records;
use lira_analyzer::types::ElementType;

const MODEL: &str = r#"<?xml version="1.0"?>
<Model>
  <NodeCoords NdX="0.0" NdY="0.0" NdZ="3.0"/>
  <NodeCoords NdX="1.5" NdY="0.0" NdZ="3.0"/>
  <NodeCoords NdX="1.5" NdY="2.0" NdZ="3.0"/>
  <Element Type="2" Material="7"><Nodes N1="1" N2="2" N3="3"/></Element>
  <Element Type="1"><Nodes N1="3" N2="9"/></Element>
  <MaterialsArray>
    <Material Num="7" H="0.2"><SectGeom SGType="S1" b_OR_D="0.3" h_OR_d="0.5"/></Material>
  </MaterialsArray>
</Model>"#;

#[test]
fn test_parse_sli_content_reads_points_and_elements() {
    let parser = LirParser::new().unwrap();
    let model = parser.parse_sli_content(MODEL).ok().unwrap();
    assert!(model.xml_complete);
    assert_eq!(model.points.len(), 3);
    assert_eq!(model.points[1].x.as_deref(), Some("1.5"));
    assert_eq!(model.points[2].y.as_deref(), Some("2.0"));
    assert_eq!(model.elements.len(), 2);
    assert_eq!(model.elements[0].id, 1);
    assert_eq!(model.elements[0].element_type, ElementType::Shell);
    assert_eq!(model.elements[0].nodes, vec![1, 2, 3]);
    assert_eq!(model.vertices[0], vec![0, 1, 2]);
    assert_eq!(model.elements[1].id, 2);
    assert_eq!(model.elements[1].element_type, ElementType::Beam);
    assert_eq!(model.elements[1].nodes, vec![3, 9]);
    // node 9 names no point
    assert_eq!(model.vertices[1], vec![2]);
}

#[test]
fn test_parse_sli_content_skips_unreadable_node_numbers() {
    let parser = LirParser::new().unwrap();
    let xml = r#"<M><NodeCoords NdX="1" NdY="2" NdZ="3"/><Element Type="5"/><Nodes A="x" B="0" C="1"/></M>"#;
    let model = parser.parse_sli_content(xml).ok().unwrap();
    assert_eq!(model.elements[0].element_type, ElementType::Unknown);
    assert_eq!(model.elements[0].nodes, vec![1]);
    assert_eq!(model.vertices[0], vec![0]);
}

#[test]
fn test_parse_sli_content_missing_coordinate_kept_missing() {
    let parser = LirParser::new().unwrap();
    let xml = r#"<M><NodeCoords NdX="1" NdZ="3"/></M>"#;
    let model = parser.parse_sli_content(xml).ok().unwrap();
    assert_eq!(model.points[0].x.as_deref(), Some("1"));
    assert!(model.points[0].y.is_none());
}

#[test]
fn test_parse_sli_content_stops_at_element_without_type() {
    let parser = LirParser::new().unwrap();
    let xml = r#"<M><NodeCoords NdX="1" NdY="2" NdZ="3"/><Element/><NodeCoords NdX="4" NdY="5" NdZ="6"/></M>"#;
    let partial = match parser.parse_sli_content(xml) {
        Ok(_) => panic!("expected the reading to stop"),
        Err(m) => m,
    };
    assert_eq!(partial.points.len(), 1);
    assert!(partial.elements.is_empty());
}

#[test]
fn test_parse_sli_content_keeps_tags_before_xml_error() {
    let parser = LirParser::new().unwrap();
    let xml = r#"<M><NodeCoords NdX="1" NdY="2" NdZ="3"/><Element Type="1"></M>"#;
    let model = parser.parse_sli_content(xml).ok().unwrap();
    assert!(!model.xml_complete);
    assert_eq!(model.points.len(), 1);
    assert_eq!(model.elements.len(), 1);
}

#[test]
fn test_nodes_before_any_element_change_nothing() {
    let parser = LirParser::new().unwrap();
    let model = parser.parse_sli_content(r#"<M><Nodes N1="1"/></M>"#).ok().unwrap();
    assert!(model.elements.is_empty());
}

#[test]
fn test_read_sli_records() {
    let r = read_sli_records(MODEL).unwrap();
    assert!(r.xml_complete);
    assert_eq!(r.points.len(), 3);
    assert_eq!(r.points[0].z, "3.0");
    assert_eq!(r.entities.len(), 2);
    assert_eq!(r.entities[0].kind, ElementType::Shell);
    assert_eq!(r.entities[0].material_num, Some(7));
    assert_eq!(r.entities[0].vertices, vec![0, 1, 2]);
    assert_eq!(r.entities[0].shape, Some(SliShape::Triangle));
    assert_eq!(r.entities[1].material_num, None);
    assert_eq!(r.entities[1].vertices, vec![2]);
    assert_eq!(r.entities[1].shape, Some(SliShape::Unknown));
    assert_eq!(r.materials.len(), 1);
    assert_eq!(r.materials[0].num, 7);
    assert_eq!(r.materials[0].h, "0.2");
    assert_eq!(r.materials[0].sg_type.as_deref(), Some("S1"));
    assert_eq!(r.materials[0].b_or_d.as_deref(), Some("0.3"));
    assert_eq!(r.materials[0].h_or_d.as_deref(), Some("0.5"));
}

#[test]
fn test_read_sli_records_element_without_nodes_has_no_shape() {
    let r = read_sli_records(r#"<M><Element Type="1" Material="x"/></M>"#).unwrap();
    assert_eq!(r.entities[0].kind, ElementType::Beam);
    assert_eq!(r.entities[0].material_num, None);
    assert!(r.entities[0].vertices.is_empty());
    assert_eq!(r.entities[0].shape, None);
}

#[test]
fn test_read_sli_records_stops() {
    // unreadable node number
    assert!(read_sli_records(r#"<M><Element Type="1"/><Nodes N1="a"/></M>"#).is_none());
    // node number 0 of an element
    assert!(read_sli_records(r#"<M><Element Type="1"/><Nodes N1="0"/></M>"#).is_none());
    // missing coordinate
    assert!(read_sli_records(r#"<M><NodeCoords NdX="1" NdY="2"/></M>"#).is_none());
    // material without H
    assert!(read_sli_records(r#"<M><Material Num="1"/></M>"#).is_none());
    // element without Type
    assert!(read_sli_records(r#"<M><Element/></M>"#).is_none());
}

#[test]
fn test_read_sli_records_section_goes_to_last_material() {
    let xml = r#"<M><Material Num="1" H="1"/><Material Num="2" H="2"/><SectGeom SGType="K"/></M>"#;
    let r = read_sli_records(xml).unwrap();
    assert_eq!(r.materials[0].sg_type, None);
    assert_eq!(r.materials[1].sg_type.as_deref(), Some("K"));
    assert_eq!(r.materials[1].b_or_d, None);
}
