use properties_override::model::Property;
use properties_override::test_utils::{assert_contains_exactly_in_any_order, write_listing};

fn strings(texts: &[&str]) -> Vec<String> {
    texts.iter().map(|t| t.to_string()).collect()
}

#[test]
fn should_accept_the_same_elements_in_any_order() {
    assert_eq!(
        assert_contains_exactly_in_any_order(&strings(&["a", "b", "c"]), &strings(&["c", "a", "b"])),
        Ok(())
    );
    assert_eq!(
        assert_contains_exactly_in_any_order(&strings(&["a", "b", "a"]), &strings(&["a", "a", "b"])),
        Ok(())
    );
    assert_eq!(
        assert_contains_exactly_in_any_order(&strings(&[]), &strings(&[])),
        Ok(())
    );
    assert_eq!(
        assert_contains_exactly_in_any_order(
            &vec![Property::new("a", "1"), Property::new("b", "2")],
            &vec![Property::new("b", "2"), Property::new("a", "1")]
        ),
        Ok(())
    );
}

#[test]
fn should_name_what_was_expected_and_not_found() {
    assert_eq!(
        assert_contains_exactly_in_any_order(&strings(&["a"]), &strings(&["a", "b", "c"])),
        Err("The following elements where expected but not found:\n[\"b\", \"c\"]\n".to_string())
    );
}

#[test]
fn should_name_what_was_not_expected() {
    assert_eq!(
        assert_contains_exactly_in_any_order(&strings(&["x", "a", "y"]), &strings(&["a"])),
        Err("The following elements where not expected:\n[\"x\", \"y\"]".to_string())
    );
}

#[test]
fn should_name_both_what_is_missing_and_what_is_in_excess() {
    assert_eq!(
        assert_contains_exactly_in_any_order(&strings(&["a", "a"]), &strings(&["a", "b"])),
        Err(
            "The following elements where expected but not found:\n[\"b\"]\nThe following elements where not expected:\n[\"a\"]"
                .to_string()
        )
    );
}

#[test]
fn should_count_how_often_an_element_occurs() {
    assert!(
        assert_contains_exactly_in_any_order(&strings(&["a", "a", "b"]), &strings(&["a", "b", "b"]))
            .is_err()
    );
    assert!(
        assert_contains_exactly_in_any_order(&strings(&["a"]), &strings(&["a", "a"])).is_err()
    );
    assert!(
        assert_contains_exactly_in_any_order(
            &vec![Property::new("a", "1")],
            &vec![Property::new("a", "2")]
        )
        .is_err()
    );
}

#[test]
fn should_write_texts_as_a_list() {
    assert_eq!(write_listing(&strings(&["a", "b c", ""])), "[a, b c, ]");
    assert_eq!(write_listing(&strings(&["one"])), "[one]");
    assert_eq!(write_listing(&strings(&[])), "]");
}
