use lira_analyzer::lir_parser::{LiraErrorKind, LirParser, SliElements};
use lira_analyzer::types::ElementType;

#[test]
fn test_parse_lira_documents_and_convert() {
    let mut parser = LirParser::new().unwrap();
    let text = "(4/0 0 0/1 0 0\n)\n(1/5 1 1 2/12 1 0 7 x/25 3 4/99 1\n)\n";
    parser.parse_lira_documents(text).unwrap();
    assert_eq!(parser.raw_element_count(), 4);
    let elements = parser.convert_to_lira_elements().unwrap();
    assert_eq!(elements.len(), 4);
    assert_eq!(elements[0].id, 1);
    // type codes 1 to 10 are plates
    assert_eq!(elements[0].element_type, ElementType::Shell);
    // every number that reads is kept as a node number, also 0 and 7
    assert_eq!(elements[0].nodes, vec![1, 2]);
    assert_eq!(elements[1].element_type, ElementType::Beam);
    assert_eq!(elements[1].nodes, vec![0, 7]);
    assert_eq!(elements[2].element_type, ElementType::Column);
    assert_eq!(elements[2].nodes, vec![4]);
    assert_eq!(elements[3].element_type, ElementType::Unknown);
    assert!(elements[3].nodes.is_empty());
}

#[test]
fn test_parse_lira_documents_starts_afresh() {
    let mut parser = LirParser::new().unwrap();
    parser.parse_lira_documents("(1/1 1 1\n)").unwrap();
    assert_eq!(parser.raw_element_count(), 1);
    // no document 1 this time: the elements read before stay
    parser.parse_lira_documents("(4/0 0 0\n)").unwrap();
    assert_eq!(parser.raw_element_count(), 1);
    parser.parse_lira_elements("2 1/3 1/4 1").unwrap();
    assert_eq!(parser.raw_element_count(), 3);
}

#[test]
fn test_try_decode_binary() {
    let parser = LirParser::new().unwrap();
    // valid UTF-8 without header: taken whole
    assert_eq!(parser.try_decode_binary(b"abc").unwrap(), "abc");
    // a header: the text starts at the first parenthesis
    assert_eq!(parser.try_decode_binary(b"$LIRA-SAPR 2013 (1/ 2\n)").unwrap(), "(1/ 2\n)");
    // a header without parenthesis: taken whole
    assert_eq!(parser.try_decode_binary(b"$LIRA-SAPR xyz").unwrap(), "$LIRA-SAPR xyz");
    // invalid UTF-8 with both parentheses: decoded with replacements
    let data = [b'(', 0xFF, b')'];
    assert_eq!(parser.try_decode_binary(&data).unwrap(), "(\u{FFFD})");
    // invalid UTF-8 without parentheses: refused
    let err = parser.try_decode_binary(&[b'a', 0xFF]).unwrap_err();
    assert_eq!(err.kind, LiraErrorKind::Undecodable);
}

#[test]
fn test_sli_elements() {
    let mut sli = SliElements::new();
    // nodes before any element are ignored
    sli.set_nodes(&vec!["1".to_string()]);
    assert!(sli.elements.is_empty());
    sli.start_element("1");
    sli.set_nodes(&vec!["3".to_string(), "0".to_string(), "x".to_string(), "4".to_string()]);
    sli.start_element("2");
    sli.start_element("7");
    assert_eq!(sli.elements.len(), 3);
    assert_eq!(sli.elements[0].id, 1);
    assert_eq!(sli.elements[0].element_type, ElementType::Beam);
    assert_eq!(sli.elements[0].nodes, vec![3, 4]);
    assert_eq!(sli.elements[1].id, 2);
    assert_eq!(sli.elements[1].element_type, ElementType::Shell);
    assert!(sli.elements[1].nodes.is_empty());
    assert_eq!(sli.elements[2].element_type, ElementType::Unknown);
}
