use properties_override::model::{Args, Configuration, InternalError, Property};
use properties_override::replacement::ReplacementMap;
use properties_override::test_utils::assert_contains_exactly_in_any_order;

#[test]
fn new_should_construct_the_expected_property() {
    let property = Property::new("foo", "bar");

    assert_eq!(property.key, "foo");
    assert_eq!(property.value, "bar");
}

#[test]
fn equals_should_be_well_implemented() {
    let p1 = Property::new("1", "2");
    let p2 = Property::new("1", "2");
    let p3 = Property::new("1", "3");
    let p4 = Property::new("4", "2");

    assert_eq!(p1, p2);
    assert_ne!(p1, p3);
    assert_ne!(p1, p4);

    // commutative
    assert_eq!(p2, p1);
    assert_ne!(p3, p1);
    assert_ne!(p4, p1);
}

#[test]
fn parse_error_should_product_the_expected_error() {
    let parse_error = InternalError::parse_error(42, "foobar");

    match parse_error {
        InternalError::ParseError { line_num, message } => {
            assert_eq!(line_num, 42);
            assert_eq!(message, "foobar");
        }
        _ => assert!(false),
    }
}

#[test]
fn fmt_should_produce_the_expected_error_for_parse_error() {
    let error = InternalError::parse_error(45, "message");

    let result = error.describe();

    assert_eq!(result, "cannot parse property at line 45: message");
}

#[test]
fn fmt_should_produce_the_expected_error_for_argument_validation_error() {
    let error = InternalError::ArgumentValidationErrors(vec!["one".to_string(), "two".to_string()]);

    let result = error.describe();

    assert_eq!(result, "invalid arguments:\n- one\n- two")
}

#[test]
fn describe_should_produce_the_expected_text_for_file_access_error() {
    let error = InternalError::FileAccessError("No such file or directory".to_string());

    assert_eq!(
        error.describe(),
        "file access error: No such file or directory"
    );
}

#[test]
fn describe_should_write_a_single_message_without_a_line_feed_behind_it() {
    let error = InternalError::ArgumentValidationErrors(vec!["one".to_string()]);

    assert_eq!(error.describe(), "invalid arguments:\n- one");
}

#[test]
fn describe_should_write_no_message_where_there_is_none() {
    let error = InternalError::ArgumentValidationErrors(vec![]);

    assert_eq!(error.describe(), "invalid arguments:\n");
}

#[test]
fn describe_should_write_line_numbers_in_base_ten() {
    let texts: Vec<(i32, &str)> = vec![
        (0, "cannot parse property at line 0: m"),
        (7, "cannot parse property at line 7: m"),
        (10, "cannot parse property at line 10: m"),
        (1203, "cannot parse property at line 1203: m"),
        (-1, "cannot parse property at line -1: m"),
        (-450, "cannot parse property at line -450: m"),
        (i32::MAX, "cannot parse property at line 2147483647: m"),
        (i32::MIN, "cannot parse property at line -2147483648: m"),
    ];
    for (line_num, expected) in texts {
        assert_eq!(
            InternalError::parse_error(line_num, "m").describe(),
            expected
        );
    }
}

fn assert_parse_error_equal(actual: &InternalError, expected: &InternalError) {
    match actual {
        InternalError::ParseError { line_num, message } => {
            let (actual_line_num, actual_message) = (line_num, message);
            match expected {
                InternalError::ParseError { line_num, message } => {
                    let (expected_line_num, expected_message) = (line_num, message);
                    assert_eq!(actual_line_num, expected_line_num);
                    assert_eq!(actual_message, expected_message);
                }
                _ => panic!("expected value is not ParseError"),
            }
        }
        _ => panic!("actual is not ParseError"),
    }
}

fn assert_parse_error_not_equal(actual: &InternalError, expected: &InternalError) {
    match actual {
        InternalError::ParseError { line_num, message } => {
            let (actual_line_num, actual_message) = (line_num, message);
            match expected {
                InternalError::ParseError { line_num, message } => {
                    let (expected_line_num, expected_message) = (line_num, message);
                    assert_ne!(
                        (actual_line_num, actual_message),
                        (expected_line_num, expected_message)
                    );
                }
                _ => panic!("expected value is not ParseError"),
            }
        }
        _ => panic!("actual is not ParseError"),
    }
}

#[test]
fn eq_should_be_well_implemented_for_parse_error() {
    let e1 = InternalError::parse_error(23, "foo");
    let e2 = InternalError::parse_error(23, "foo");
    let e3 = InternalError::parse_error(55, "foo");
    let e4 = InternalError::parse_error(23, "bar");

    assert_parse_error_equal(&e1, &e2);
    assert_parse_error_not_equal(&e1, &e3);
    assert_parse_error_not_equal(&e1, &e4);

    assert_parse_error_equal(&e2, &e1);
    assert_parse_error_not_equal(&e3, &e1);
    assert_parse_error_not_equal(&e4, &e1);
}

fn assert_in_any_order(actual: &Vec<String>, expected: &Vec<String>) {
    if let Err(report) = assert_contains_exactly_in_any_order(actual, expected) {
        panic!("{}", report);
    }
}

fn assert_argument_validation_error(
    result: &Result<Configuration, InternalError>,
    messages: &Vec<String>,
) {
    match result {
        Ok(_) => panic!("result is successful, error expected"),
        Err(err) => match err {
            InternalError::ArgumentValidationErrors(actual_messages) => {
                assert_in_any_order(actual_messages, messages)
            }
            _ => panic!("error is not ArgumentValidationError"),
        },
    }
}

fn replacement_map(pairs: &[(char, &str)]) -> ReplacementMap {
    ReplacementMap::from_pairs(
        &pairs
            .iter()
            .map(|(character, replacement)| (*character, replacement.to_string()))
            .collect(),
    )
}

#[test]
fn should_be_invalid_if_spring_flag_true_and_replacement_present() {
    let args = Args {
        output_file: None,
        spring: true,
        prefix: "PREFIX_".to_string(),
        replacement: vec![".#_".to_string()],
        file: None,
    };

    assert_argument_validation_error(
        &args.validate_and_convert(),
        &vec!["replacements are not allowed when 'spring' flag is passed".to_string()],
    );
}

#[test]
fn should_be_invalid_if_prefix_is_empty() {
    let args = Args {
        output_file: None,
        spring: true,
        prefix: "".to_string(),
        replacement: vec![],
        file: None,
    };

    assert_argument_validation_error(
        &args.validate_and_convert(),
        &vec!["prefix must not be empty".to_string()],
    );
}

#[test]
fn should_return_configuration_with_spring_flag_passed() {
    let args = Args {
        output_file: Some("output2".to_string()),
        spring: true,
        prefix: "PREFIX_".to_string(),
        replacement: vec![],
        file: Some("file1".to_string()),
    };

    assert_eq!(
        args.validate_and_convert().unwrap(),
        Configuration {
            output_file: Some("output2".to_string()),
            spring: true,
            prefix: "PREFIX_".to_string(),
            replacement_map: ReplacementMap::new(),
            file: Some("file1".to_string()),
        }
    )
}

#[test]
fn should_be_invalid_if_any_replacement_does_not_contain_arrow() {
    let args = Args {
        output_file: None,
        spring: false,
        prefix: "PREFIX_".to_string(),
        replacement: vec!["invalid".to_string()],
        file: None,
    };

    assert_argument_validation_error(&args.validate_and_convert(),
        &vec!["replacement 'invalid' does not contain valid mapping in the format 'c#str': '#' missing".to_string()]
    );
}

#[test]
fn should_be_invalid_if_any_replacement_does_not_have_character() {
    let args = Args {
        output_file: None,
        spring: false,
        prefix: "PREFIX_".to_string(),
        replacement: vec!["asdf#str".to_string()],
        file: None,
    };

    assert_argument_validation_error(
        &args.validate_and_convert(),
        &vec!["replacement 'asdf#str' does not contain valid mapping in the format 'c#str': 'asdf' is not a character".to_string()]
    );
}

#[test]
fn should_be_invalid_if_multiple_errors_present() {
    let args = Args {
        output_file: None,
        spring: false,
        prefix: "PREFIX_".to_string(),
        replacement: vec!["invalid1".to_string(), "fdas#str".to_string()],
        file: None,
    };

    let result = args.validate_and_convert();
    match result {
        Err(InternalError::ArgumentValidationErrors(messages)) => {
            assert_in_any_order(&messages, &vec![
                "replacement 'invalid1' does not contain valid mapping in the format 'c#str': '#' missing".to_string(),
                "replacement 'fdas#str' does not contain valid mapping in the format 'c#str': 'fdas' is not a character".to_string()
            ]);
        }
        _ => panic!("result from validate and convert is not an ArgumentValidationErrors instance"),
    }
}

#[test]
fn should_return_parsed_replacement_mapping() {
    let args = Args {
        output_file: None,
        spring: false,
        prefix: "PREFIX_".to_string(),
        replacement: vec!["-#__".to_string(), ".#_".to_string()],
        file: None,
    };

    assert_eq!(
        args.validate_and_convert().unwrap(),
        Configuration {
            output_file: None,
            spring: false,
            prefix: "PREFIX_".to_string(),
            replacement_map: replacement_map(&[('.', "_"), ('-', "__")]),
            file: None,
        }
    )
}

#[test]
fn should_map_escaped_dash_as_dash() {
    let args = Args {
        output_file: None,
        spring: false,
        prefix: "PREFIX_".to_string(),
        replacement: vec!["\\-#__".to_string(), ".#_".to_string()],
        file: None,
    };

    assert_eq!(
        args.validate_and_convert().unwrap(),
        Configuration {
            output_file: None,
            spring: false,
            prefix: "PREFIX_".to_string(),
            replacement_map: replacement_map(&[('.', "_"), ('-', "__")]),
            file: None,
        }
    )
}

#[test]
fn should_trim_spaces_in_replacement_mapping() {
    let args = Args {
        output_file: Some("foo".to_string()),
        spring: false,
        prefix: "PREFIX_".to_string(),
        replacement: vec![" - # __ ".to_string(), "  .  # _ ".to_string()],
        file: None,
    };

    assert_eq!(
        args.validate_and_convert().unwrap(),
        Configuration {
            output_file: Some("foo".to_string()),
            spring: false,
            prefix: "PREFIX_".to_string(),
            replacement_map: replacement_map(&[('.', "_"), ('-', "__")]),
            file: None,
        }
    )
}

fn errors_of(spring: bool, prefix: &str, replacement: &[&str]) -> Vec<String> {
    let args = Args {
        output_file: None,
        spring,
        prefix: prefix.to_string(),
        replacement: replacement.iter().map(|r| r.to_string()).collect(),
        file: None,
    };
    match args.validate_and_convert() {
        Err(InternalError::ArgumentValidationErrors(messages)) => messages,
        Err(_) => panic!("error is not ArgumentValidationError"),
        Ok(_) => panic!("result is successful, error expected"),
    }
}

#[test]
fn should_give_both_messages_for_spring_with_replacements_and_empty_prefix() {
    assert_eq!(
        errors_of(true, "", &[".#_"]),
        vec![
            "replacements are not allowed when 'spring' flag is passed".to_string(),
            "prefix must not be empty".to_string(),
        ]
    );
}

#[test]
fn should_be_invalid_if_prefix_is_empty_in_custom_style() {
    assert_eq!(
        errors_of(false, "", &[".#_"]),
        vec!["prefix must not be empty".to_string()]
    );
}

#[test]
fn should_report_every_fault_in_the_order_of_the_arguments() {
    assert_eq!(
        errors_of(true, "", &["a#b", "invalid", "xy#z"]),
        vec![
            "replacements are not allowed when 'spring' flag is passed".to_string(),
            "prefix must not be empty".to_string(),
            "replacement 'invalid' does not contain valid mapping in the format 'c#str': '#' missing".to_string(),
            "replacement 'xy#z' does not contain valid mapping in the format 'c#str': 'xy' is not a character".to_string(),
        ]
    );
}

#[test]
fn should_be_invalid_if_left_side_of_replacement_is_empty() {
    assert_eq!(
        errors_of(false, "PREFIX_", &["#str", "   # x", "##"]),
        vec![
            "replacement '#str' does not contain valid mapping in the format 'c#str': '' is not a character".to_string(),
            "replacement '   # x' does not contain valid mapping in the format 'c#str': '' is not a character".to_string(),
            "replacement '##' does not contain valid mapping in the format 'c#str': '' is not a character".to_string(),
        ]
    );
}

fn configuration_of(replacement: &[&str]) -> Configuration {
    let args = Args {
        output_file: None,
        spring: false,
        prefix: "PREFIX_".to_string(),
        replacement: replacement.iter().map(|r| r.to_string()).collect(),
        file: None,
    };
    args.validate_and_convert().unwrap()
}

#[test]
fn should_accept_a_single_character_of_any_width() {
    assert_eq!(
        configuration_of(&["\u{e9}#e", "\u{4e2d}#zh"]).replacement_map,
        replacement_map(&[('\u{e9}', "e"), ('\u{4e2d}', "zh")])
    );
}

#[test]
fn should_split_a_replacement_at_its_first_separator() {
    assert_eq!(
        configuration_of(&["a#b#c", "x#", "y##"]).replacement_map,
        replacement_map(&[('a', "b#c"), ('x', ""), ('y', "#")])
    );
}

#[test]
fn should_keep_the_last_replacement_of_a_character() {
    assert_eq!(
        configuration_of(&[".#_", "-#__", ".#::"]).replacement_map,
        replacement_map(&[('-', "__"), ('.', "::")])
    );
}

#[test]
fn should_trim_every_kind_of_whitespace_in_replacement_mapping() {
    assert_eq!(
        configuration_of(&["\t.\u{a0}#\u{2003}_\u{3000}\n"]).replacement_map,
        replacement_map(&[('.', "_")])
    );
}

#[test]
fn should_take_a_backslash_and_a_dash_apart_as_no_character() {
    assert_eq!(
        errors_of(false, "PREFIX_", &["\\ -#x"]),
        vec!["replacement '\\ -#x' does not contain valid mapping in the format 'c#str': '\\ -' is not a character".to_string()]
    );
}

#[test]
fn replacement_maps_should_be_equal_whatever_the_order_of_their_entries() {
    let one = replacement_map(&[('.', "_"), ('-', "__")]);
    let other = replacement_map(&[('-', "__"), ('.', "_")]);

    assert_eq!(one, other);
    assert_eq!(other, one);
    assert_ne!(one, replacement_map(&[('.', "_")]));
    assert_ne!(replacement_map(&[('.', "_")]), one);
    assert_ne!(one, replacement_map(&[('.', "_"), ('-', "_")]));
    assert_eq!(one.clone(), one);
    assert_eq!(one.len(), 2);
    assert!(!one.is_empty());
    assert!(ReplacementMap::new().is_empty());
}

#[test]
fn replacement_map_should_give_what_a_character_is_mapped_to() {
    let map = ReplacementMap::new()
        .with('.', "_".to_string())
        .with('-', "__".to_string())
        .with('.', "::".to_string());

    assert_eq!(map.get('.'), Some(&"::".to_string()));
    assert_eq!(map.get('-'), Some(&"__".to_string()));
    assert_eq!(map.get('_'), None);
    assert_eq!(map.len(), 2);
    assert_eq!(map.entry(0), ('.', &"::".to_string()));
    assert_eq!(map.entry(1), ('-', &"__".to_string()));
}
