use p4y::text::is_whitespace;
use p4y::ztag::{parse_ztag, ZtagOutput, ZtagRecord};

fn fields(out: &ZtagOutput, i: usize, keys: &[&str]) -> Vec<Option<String>> {
    keys.iter().map(|k| out.records[i].get(k).cloned()).collect()
}

#[test]
fn whitespace_matches_std() {
    for v in 0u32..=0x10FFFF {
        if let Some(c) = char::from_u32(v) {
            assert_eq!(is_whitespace(c), c.is_whitespace(), "char {:#x}", v);
        }
    }
}

#[test]
fn records_are_never_empty() {
    let parsed = parse_ztag("\n\n   \n...\n... \n\t\n");
    assert_eq!(parsed.records.len(), 0);
    let parsed = parse_ztag("");
    assert_eq!(parsed.records.len(), 0);
    let parsed = parse_ztag("noise\nmore noise\n\n");
    assert_eq!(parsed.records.len(), 0);
}

#[test]
fn final_newline_is_optional() {
    for s in ["... a 1\n... b 2", "... a 1\n\n... b 2", "", "... x"] {
        let with = parse_ztag(&format!("{}\n", s));
        let without = parse_ztag(s);
        assert_eq!(with.records.len(), without.records.len());
        for i in 0..with.records.len() {
            assert_eq!(fields(&with, i, &["a", "b", "x"]), fields(&without, i, &["a", "b", "x"]));
        }
    }
}

#[test]
fn padding_and_crlf_change_nothing() {
    let plain = parse_ztag("... key value\n... other thing");
    let padded = parse_ztag("\t ... key value \r\n\u{3000}... other thing\r");
    assert_eq!(plain.records.len(), 1);
    assert_eq!(padded.records.len(), 1);
    assert_eq!(fields(&plain, 0, &["key", "other"]), fields(&padded, 0, &["key", "other"]));
    assert_eq!(padded.records[0].get("key").unwrap(), "value");
}

#[test]
fn last_value_wins() {
    let parsed = parse_ztag("... k first\n... k second\n... j x");
    assert_eq!(parsed.records.len(), 1);
    assert_eq!(parsed.records[0].get("k").unwrap(), "second");
    assert_eq!(parsed.records[0].len(), 2);
}

#[test]
fn value_keeps_inner_spaces_and_key_stops_at_first_space() {
    let parsed = parse_ztag("...desc  a  long   text \n");
    assert_eq!(parsed.records[0].get("desc").unwrap(), "a  long   text");
    let parsed = parse_ztag("....key value");
    assert_eq!(parsed.records[0].get(".key").unwrap(), "value");
    let parsed = parse_ztag("...\u{2003}key\u{2003}value");
    assert_eq!(parsed.records[0].get("key").unwrap(), "value");
}

#[test]
fn lines_without_dots_are_ignored() {
    let parsed = parse_ztag("key value\n.. half\n... real one\nx ... y");
    assert_eq!(parsed.records.len(), 1);
    assert_eq!(parsed.records[0].len(), 1);
    assert_eq!(parsed.records[0].get("real").unwrap(), "one");
    assert!(parsed.records[0].get("key").is_none());
}

#[test]
fn record_insert_get_and_clone() {
    let mut r = ZtagRecord::new();
    assert!(r.is_empty());
    assert_eq!(r.len(), 0);
    r.insert("a".to_string(), "1".to_string());
    r.insert("b".to_string(), "2".to_string());
    r.insert("a".to_string(), "3".to_string());
    assert!(!r.is_empty());
    assert_eq!(r.len(), 2);
    assert_eq!(r.get("a").unwrap(), "3");
    assert_eq!(r.get("b").unwrap(), "2");
    assert!(r.get("c").is_none());
    let c = r.clone();
    assert_eq!(c.get("a").unwrap(), "3");
    assert_eq!(c.len(), 2);
}

#[test]
fn output_clone_and_default() {
    let parsed = parse_ztag("... a 1\n\n... b 2");
    let copy = parsed.clone();
    assert_eq!(copy.records.len(), 2);
    assert_eq!(copy.records[1].get("b").unwrap(), "2");
    assert_eq!(ZtagOutput::default().records.len(), 0);
}

#[test]
fn joined_outputs_keep_both_record_lists() {
    let a = "... x 1\n\n... y 2";
    let b = "... z 3\n... w 4";
    let joined = parse_ztag(&format!("{}\n\n{}", a, b));
    assert_eq!(joined.records.len(), 3);
    assert_eq!(joined.records[0].get("x").unwrap(), "1");
    assert_eq!(joined.records[1].get("y").unwrap(), "2");
    assert_eq!(joined.records[2].get("z").unwrap(), "3");
    assert_eq!(joined.records[2].get("w").unwrap(), "4");
}
