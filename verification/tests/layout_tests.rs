use mkrl::cobol_parser::{parse_cobol_structure, CobolError, CobolField};
use mkrl::record_layout::{
    calculate_comp_length, calculate_field_length, calculate_picture_length, generate_layout,
    get_format_string, process_field, process_field_with_multiplier, truncate_string,
};

#[test]
fn test_calculate_picture_length() {
    assert_eq!(calculate_picture_length("9(8)").unwrap(), 8);
    assert_eq!(calculate_picture_length("x(20)").unwrap(), 20);
    assert_eq!(calculate_picture_length("zzzzz9").unwrap(), 6);
    assert_eq!(calculate_picture_length("s9(9)v9(2)").unwrap(), 11);
}

#[test]
fn test_calculate_comp_length() {
    assert_eq!(calculate_comp_length("9(8)", "COMP-3").unwrap(), 5);
    assert_eq!(calculate_comp_length("s9(9)v9(2)", "COMP-3").unwrap(), 6);
    assert_eq!(calculate_comp_length("9(4)", "COMP").unwrap(), 4);
}

#[test]
fn test_calculate_field_length() {
    let field = CobolField {
        level: 2,
        name: "test-field".to_string(),
        picture: Some("9(8)".to_string()),
        data_type: Some("COMP-3".to_string()),
        occurs: None,
        children: Vec::new(),
        line_number: 1,
    };

    let (total, displayed) = calculate_field_length(&field).unwrap();
    assert_eq!(total, 5); // COMP-3 of 9(8) is 5 bytes
    assert_eq!(displayed, 5);
}

#[test]
fn test_picture_length_round_trip() {
    // the fixed picture set and its byte lengths
    assert_eq!(calculate_picture_length("9").unwrap(), 1);
    assert_eq!(calculate_picture_length("9(8)").unwrap(), 8);
    assert_eq!(calculate_picture_length("x(20)").unwrap(), 20);
    assert_eq!(calculate_picture_length("zzzzz9").unwrap(), 6);
    assert_eq!(calculate_picture_length("s9(9)v9(2)").unwrap(), 11);
    // upper-case pictures measure the same
    assert_eq!(calculate_picture_length("X(20)").unwrap(), 20);
    // an unrecognized edited picture falls back to its character count
    assert_eq!(calculate_picture_length("99v99").unwrap(), 5);
}

#[test]
fn test_comp_length_cases() {
    // a bare digit under packed decimal: one digit plus sign nibble
    assert_eq!(calculate_comp_length("9", "COMP-3").unwrap(), 1);
    // binary usages are a fixed four bytes
    assert_eq!(calculate_comp_length("9(8)", "COMP-1").unwrap(), 4);
    assert_eq!(calculate_comp_length("9(8)", "COMP-2").unwrap(), 4);
    // an unknown usage falls back to the picture rules
    assert_eq!(calculate_comp_length("9(8)", "COMP-9").unwrap(), 8);
}

#[test]
fn test_group_length_sums_children() {
    let leaf = |name: &str, pic: &str| CobolField {
        level: 5,
        name: name.to_string(),
        picture: Some(pic.to_string()),
        data_type: None,
        occurs: None,
        children: Vec::new(),
        line_number: 1,
    };
    let group = CobolField {
        level: 1,
        name: "grp".to_string(),
        picture: None,
        data_type: None,
        occurs: Some(7), // repetition plays no part in the unmultiplied length
        children: vec![leaf("a", "9(3)"), leaf("b", "x(4)")],
        line_number: 1,
    };
    let (total, displayed) = calculate_field_length(&group).unwrap();
    assert_eq!(total, 7);
    assert_eq!(displayed, 7);
}

#[test]
fn test_placeholder_field_has_length_zero() {
    let field = CobolField {
        level: 2,
        name: "only-occurs".to_string(),
        picture: None,
        data_type: None,
        occurs: Some(3),
        children: Vec::new(),
        line_number: 1,
    };
    assert_eq!(calculate_field_length(&field).unwrap(), (0, 0));
}

#[test]
fn test_get_format_string() {
    let mut field = CobolField {
        level: 2,
        name: "f".to_string(),
        picture: Some("9(4)".to_string()),
        data_type: None,
        occurs: None,
        children: Vec::new(),
        line_number: 1,
    };
    assert_eq!(get_format_string(&field), "9(4)");
    field.occurs = Some(3);
    assert_eq!(get_format_string(&field), "OCCURS(3)");
    field.occurs = None;
    field.picture = None;
    assert_eq!(get_format_string(&field), "");
}

#[test]
fn test_truncate_string() {
    assert_eq!(truncate_string("short", 29), "short");
    assert_eq!(truncate_string("abcdef", 4), "abcd");
    assert_eq!(truncate_string("", 5), "");
}

#[test]
fn test_occurs_effective_length() {
    // a level-02 field with three repetitions of a four-digit picture:
    // unmultiplied length four, effective length twelve
    let field = mkrl::cobol_parser::parse_cobol_line("02 arr pic 9(4) occurs 3 times.", 1)
        .unwrap()
        .unwrap();
    assert_eq!(calculate_field_length(&field).unwrap(), (4, 4));

    let mut out = String::new();
    let mut pos: u64 = 1;
    let mut total: u64 = 0;
    process_field(&field, &mut out, &mut pos, &mut total, 0).unwrap();
    assert_eq!(pos, 13);
    let expected = format!(
        "{:<29} {:<14} {:<14} {} {} {}\n",
        "arr",
        "OCCURS(3)",
        "",
        "     ",
        format!("{:5}", 1),
        format!("{:5}", 12)
    );
    assert_eq!(out, expected);
}

#[test]
fn test_inherited_multiplier() {
    // the effective multiplier compounds the inherited one with the field's own
    let field = mkrl::cobol_parser::parse_cobol_line("02 arr pic 9(4) occurs 3 times.", 1)
        .unwrap()
        .unwrap();
    let mut out = String::new();
    let mut pos: u64 = 1;
    let mut total: u64 = 0;
    process_field_with_multiplier(&field, &mut out, &mut pos, &mut total, 0, 2).unwrap();
    assert_eq!(pos, 25); // 4 * 3 * 2 bytes past position 1
}

#[test]
fn test_end_to_end_scenario() {
    let content = "01 REC-A.\n  02 FIELD-B PIC 9(8) COMP-3.\n  02 FIELD-C PIC X(20).";
    let s = parse_cobol_structure(content).unwrap();
    assert_eq!(s.name, "REC-A");
    assert_eq!(s.root_fields.len(), 1);
    let root = &s.root_fields[0];
    assert_eq!(root.children.len(), 2);
    assert_eq!(calculate_field_length(&root.children[0]).unwrap(), (5, 5));
    assert_eq!(calculate_field_length(&root.children[1]).unwrap(), (20, 20));
    assert_eq!(calculate_field_length(root).unwrap(), (25, 25));

    let report = generate_layout(&s).unwrap();
    let mut expected = String::new();
    expected.push_str(
        "Data Name                     Format         Type           N-Len  Pos  F-Len\n",
    );
    expected.push_str(
        "----------------------------- -------------- -------------- ----- ----- -----\n",
    );
    expected.push_str(&format!(
        "{:<29} {:<14} {:<14} {:5} {:5}      \n",
        "REC-A", "", "", 25, 1
    ));
    expected.push_str(&format!(
        "{:<29} {:<14} {:<14} {} {} {}\n",
        "FIELD-B",
        "9(8)",
        "COMP-3",
        "     ",
        format!("{:5}", 1),
        format!("{:5}", 5)
    ));
    expected.push_str(&format!(
        "{:<29} {:<14} {:<14} {} {} {}\n",
        "FIELD-C",
        "X(20)",
        "",
        "     ",
        format!("{:5}", 6),
        format!("{:5}", 20)
    ));
    expected.push_str(
        "                                                                        -----\n",
    );
    expected.push_str(&format!(
        "                                        Total            {:6}\n",
        25
    ));
    assert_eq!(report, expected);
}

#[test]
fn test_grand_total_is_last_root() {
    // the footer's total reflects only the last root field processed
    let content = "01 first.\n  02 a pic x(10).\n01 second.\n  02 b pic x(3).";
    let s = parse_cobol_structure(content).unwrap();
    let report = generate_layout(&s).unwrap();
    let last = report.lines().last().unwrap();
    assert_eq!(
        last,
        format!("                                        Total            {:6}", 3)
    );
    // and the second root starts where the first ended
    assert!(report.contains(&format!(
        "{:<29} {:<14} {:<14} {:5} {:5}      ",
        "second", "", "", 3, 11
    )));
}

#[test]
fn test_oversized_picture_count_is_malformed() {
    // a written digit count too large to compute with is refused
    let r = calculate_picture_length("9(99999999999999999999999)");
    assert!(matches!(r, Err(CobolError::MalformedField { .. })));
    let r = calculate_comp_length("9(99999999999999999999999)", "COMP-3");
    assert!(matches!(r, Err(CobolError::MalformedField { .. })));

    // and the whole layout fails on such a field
    let s = parse_cobol_structure("01 rec.\n  02 big pic 9(99999999999999999999999).").unwrap();
    assert!(matches!(generate_layout(&s), Err(CobolError::MalformedField { .. })));

    // leading zeros in a count are just digits
    assert_eq!(calculate_picture_length("9(007)").unwrap(), 7);
}

#[test]
fn test_leaf_roots_advance_the_cursor() {
    // a root that is itself a leaf still advances the byte cursor,
    // so the next root starts after it
    let content = "01 head pic x(5).\n01 tail-rec pic x(2).";
    let s = parse_cobol_structure(content).unwrap();
    let report = generate_layout(&s).unwrap();
    assert!(report.contains(&format!(
        "{:<29} {:<14} {:<14} {:5} {:5}      ",
        "head", "", "", 5, 1
    )));
    assert!(report.contains(&format!(
        "{:<29} {:<14} {:<14} {:5} {:5}      ",
        "tail-rec", "", "", 2, 6
    )));
}
