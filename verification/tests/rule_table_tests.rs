use dorfromantik_calculator::config::rule_table::parse_rule_lines;

fn owned(v: &[&str]) -> Vec<String> {
    v.iter().map(|s| s.to_string()).collect()
}

#[test]
fn rule_lines_are_split_into_keys_and_values() {
    let text = "# levels\nRULE_A = 1.5, 2 ,inf\n   \nRULE_B=3\nno equals here\n RULE_C = \nKEY=a=b,\n";
    let r = parse_rule_lines(text);
    assert_eq!(r.len(), 4);
    assert_eq!(r[0], ("RULE_A".to_string(), owned(&["1.5", "2", "inf"])));
    assert_eq!(r[1], ("RULE_B".to_string(), owned(&["3"])));
    assert_eq!(r[2], ("RULE_C".to_string(), owned(&[""])));
    assert_eq!(r[3], ("KEY".to_string(), owned(&["a=b", ""])));
}

#[test]
fn crlf_and_missing_final_newline() {
    let r = parse_rule_lines("A=1,2\r\nB = 3\r\n#C=4\r\nD=5");
    assert_eq!(r.len(), 3);
    assert_eq!(r[0], ("A".to_string(), owned(&["1", "2"])));
    assert_eq!(r[1], ("B".to_string(), owned(&["3"])));
    assert_eq!(r[2], ("D".to_string(), owned(&["5"])));
}

#[test]
fn empty_text_has_no_rules() {
    assert!(parse_rule_lines("").is_empty());
    assert!(parse_rule_lines("\n\n  \n# only a comment").is_empty());
}

#[test]
fn repeated_keys_are_all_listed_in_order() {
    let r = parse_rule_lines("X=1\nX=2\n");
    assert_eq!(r, vec![("X".to_string(), owned(&["1"])), ("X".to_string(), owned(&["2"]))]);
}
