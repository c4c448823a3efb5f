use p4y::ztag::parse_ztag;

#[test]
fn test_parse_ztag_single_record() {
    let output = "... depotFile //depot/file1\n... rev 1\n";
    let parsed = parse_ztag(output);
    assert_eq!(parsed.records.len(), 1);
    assert_eq!(parsed.records[0].get("depotFile").unwrap(), "//depot/file1");
    assert_eq!(parsed.records[0].get("rev").unwrap(), "1");
}

#[test]
fn test_parse_ztag_multiple_records() {
    let output = r#"... depotFile //depot/file1
... rev 1

... depotFile //depot/file2
... rev 2
"#;
    let parsed = parse_ztag(output);
    assert_eq!(parsed.records.len(), 2);
    assert_eq!(parsed.records[0].get("depotFile").unwrap(), "//depot/file1");
    assert_eq!(parsed.records[1].get("depotFile").unwrap(), "//depot/file2");
}

#[test]
fn test_parse_ztag_empty_value() {
    let output = "... fieldWithNoValue ";
    let parsed = parse_ztag(output);
    assert_eq!(parsed.records.len(), 1);
    assert_eq!(parsed.records[0].get("fieldWithNoValue").unwrap(), "");
}

#[test]
fn test_parse_ztag_extra_whitespace() {
    let output = "  ...   field   value  \n\n  ... field2 value2  ";
    let parsed = parse_ztag(output);
    assert_eq!(parsed.records.len(), 2);
    assert_eq!(parsed.records[0].get("field").unwrap(), "value");
    assert_eq!(parsed.records[1].get("field2").unwrap(), "value2");
}

#[test]
fn test_parse_ztag_empty_lines_and_noise() {
    let output = "\n\n... key1 value1\n\n\n... key2 value2\n\n";
    let parsed = parse_ztag(output);
    assert_eq!(parsed.records.len(), 2);
    assert_eq!(parsed.records[0].get("key1").unwrap(), "value1");
    assert_eq!(parsed.records[1].get("key2").unwrap(), "value2");
}

#[test]
fn test_parse_ztag_no_value() {
    let output = "... key1\n... key2  ";
    let parsed = parse_ztag(output);
    assert_eq!(parsed.records.len(), 1);
    assert_eq!(parsed.records[0].get("key1").unwrap(), "");
    assert_eq!(parsed.records[0].get("key2").unwrap(), "");
}
