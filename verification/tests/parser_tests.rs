use mkrl::cobol_parser::{parse_cobol_line, parse_cobol_structure, check_unsupported_features, CobolError};

#[test]
fn test_parse_simple_field() {
    let line = "           02  sd-Cstart-Yyyymmdd   pic 9(8) COMP-3.";
    let field = parse_cobol_line(line, 1).unwrap().unwrap();

    assert_eq!(field.level, 2);
    assert_eq!(field.name, "sd-Cstart-Yyyymmdd");
    assert_eq!(field.picture, Some("9(8)".to_string()));
    assert_eq!(field.data_type, Some("COMP-3".to_string()));
    assert_eq!(field.occurs, None);
}

#[test]
fn test_parse_occurs_field() {
    let line = "           02  Dinc-Bsta occurs 2 times.";
    let field = parse_cobol_line(line, 1).unwrap().unwrap();

    assert_eq!(field.level, 2);
    assert_eq!(field.name, "Dinc-Bsta");
    assert_eq!(field.occurs, Some(2));
}

#[test]
fn test_unsupported_features() {
    let content = "01 test redefines something.";
    assert!(check_unsupported_features(content).is_err());

    let content2 = "01 test varying in size.";
    assert!(check_unsupported_features(content2).is_err());
}

#[test]
fn test_guard_rejects_any_case_anywhere() {
    assert!(matches!(
        check_unsupported_features("01 A REDEFINES B."),
        Err(CobolError::UnsupportedFeature { .. })
    ));
    assert!(matches!(
        check_unsupported_features("comment: ReDefines inside text"),
        Err(CobolError::UnsupportedFeature { .. })
    ));
    assert!(matches!(
        check_unsupported_features("05 r VARYING IN SIZE."),
        Err(CobolError::UnsupportedFeature { .. })
    ));
    assert!(matches!(
        check_unsupported_features("02 t occurs 5 to 10 times."),
        Err(CobolError::UnsupportedFeature { .. })
    ));
    // the scan is purely textual: a match inside a longer word still counts
    assert!(check_unsupported_features("reoccurs 2 to").is_err());
    // and input lacking all three markers passes
    assert!(check_unsupported_features("01 rec.\n  02 f pic 9(3) occurs 5 times.").is_ok());
    assert!(check_unsupported_features("").is_ok());
}

#[test]
fn test_guard_error_messages() {
    match check_unsupported_features("01 a redefines b.") {
        Err(CobolError::UnsupportedFeature { message }) => {
            assert_eq!(message, "ERROR: redefines not implemented");
        }
        other => panic!("expected an unsupported-feature error, got {:?}", other),
    }
    match check_unsupported_features("01 a varying in size.") {
        Err(CobolError::UnsupportedFeature { message }) => {
            assert_eq!(message, "ERROR: variable length files not implemented");
        }
        other => panic!("expected an unsupported-feature error, got {:?}", other),
    }
    match check_unsupported_features("02 t occurs 5 to 10 times.") {
        Err(CobolError::UnsupportedFeature { message }) => {
            assert_eq!(message, "ERROR: variable length files not implemented");
        }
        other => panic!("expected an unsupported-feature error, got {:?}", other),
    }
}

#[test]
fn test_non_field_lines_are_skipped() {
    assert!(parse_cobol_line("", 1).unwrap().is_none());
    assert!(parse_cobol_line("* a comment line", 2).unwrap().is_none());
    assert!(parse_cobol_line("fd file-section", 3).unwrap().is_none());
    assert!(parse_cobol_line("garbage text", 4).unwrap().is_none());
    assert!(parse_cobol_line("1 too-short-level", 5).unwrap().is_none());
    assert!(parse_cobol_line("123 three-digit-level", 6).unwrap().is_none());
}

#[test]
fn test_parse_line_details() {
    // picture, usage and repetition together, with a trailing period
    let f = parse_cobol_line("05 all-of-it pic s9(9)v9(2) comp-3 occurs 4 times.", 7)
        .unwrap()
        .unwrap();
    assert_eq!(f.level, 5);
    assert_eq!(f.name, "all-of-it");
    assert_eq!(f.picture, Some("s9(9)v9(2)".to_string()));
    assert_eq!(f.data_type, Some("COMP-3".to_string()));
    assert_eq!(f.occurs, Some(4));
    assert_eq!(f.line_number, 7);

    // the usage keyword is normalized to upper case
    let f = parse_cobol_line("02 u pic 9(4) comp", 1).unwrap().unwrap();
    assert_eq!(f.data_type, Some("COMP".to_string()));

    // a group line has neither picture nor usage
    let f = parse_cobol_line("01 rec-top.", 1).unwrap().unwrap();
    assert_eq!(f.level, 1);
    assert_eq!(f.picture, None);
    assert_eq!(f.data_type, None);
    assert_eq!(f.occurs, None);
}

#[test]
fn test_malformed_occurs_count() {
    // a repetition count too large for its type is a malformed field
    match parse_cobol_line("02 big occurs 99999999999 times.", 3) {
        Err(CobolError::MalformedField { line_number, text }) => {
            assert_eq!(line_number, 3);
            assert_eq!(text, "02 big occurs 99999999999 times.");
        }
        other => panic!("expected a malformed-field error, got {:?}", other),
    }

    // the whole parse reports the first offending line
    match parse_cobol_structure("01 rec.\n  02 big occurs 99999999999 times.") {
        Err(CobolError::MalformedField { line_number, text }) => {
            assert_eq!(line_number, 2);
            assert_eq!(text, "  02 big occurs 99999999999 times.");
        }
        other => panic!("expected a malformed-field error, got {:?}", other),
    }
}

#[test]
fn test_hierarchy_nesting() {
    let content = "01 rec.\n  05 grp.\n    10 inner pic x(2).\n  05 tail pic 9(3).";
    let s = parse_cobol_structure(content).unwrap();
    assert_eq!(s.name, "rec");
    assert_eq!(s.root_fields.len(), 1);
    let root = &s.root_fields[0];
    assert_eq!(root.name, "rec");
    assert_eq!(root.children.len(), 2);
    assert_eq!(root.children[0].name, "grp");
    assert_eq!(root.children[0].children.len(), 1);
    assert_eq!(root.children[0].children[0].name, "inner");
    assert_eq!(root.children[1].name, "tail");
    assert!(root.children[1].children.is_empty());
}

#[test]
fn test_equal_level_closes_sibling() {
    // a field at the same level closes the open field as a sibling
    let content = "01 rec.\n  02 a pic 9(1).\n  02 b pic 9(1).";
    let s = parse_cobol_structure(content).unwrap();
    assert_eq!(s.root_fields.len(), 1);
    assert_eq!(s.root_fields[0].children.len(), 2);
}

#[test]
fn test_structure_name_from_outermost_level() {
    // the name comes from the first field at the minimum root level,
    // whatever that level is
    let s = parse_cobol_structure("05 lonely pic x(3).").unwrap();
    assert_eq!(s.name, "lonely");
    assert_eq!(s.root_fields.len(), 1);

    let s = parse_cobol_structure("01 first.\n01 second.").unwrap();
    assert_eq!(s.name, "first");
    assert_eq!(s.root_fields.len(), 2);

    // a lower level appearing later still names the record
    let s = parse_cobol_structure("05 outer-a.\n03 mid.\n  05 inner pic 9(2).").unwrap();
    assert_eq!(s.name, "mid");

    // no fields: no name
    let s = parse_cobol_structure("").unwrap();
    assert_eq!(s.name, "");
}
