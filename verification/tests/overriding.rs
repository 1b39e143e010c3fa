use properties_override::model::Property;
use properties_override::overriding::{
    CustomCaseSensitiveStyleOverrider, Environment, Overrider, SpringStyleOverrider,
};
use properties_override::replacement::ReplacementMap;
use properties_override::test_utils::assert_contains_exactly_in_any_order;

const PREFIX: &str = "PREFIX_";

fn pairs(entries: &[(&str, &str)]) -> Vec<(String, String)> {
    entries
        .iter()
        .map(|(name, value)| (name.to_string(), value.to_string()))
        .collect()
}

fn environment(entries: &[(&str, &str)]) -> Environment {
    Environment::new(&pairs(entries))
}

fn assert_in_any_order(actual: Vec<Property>, expected: Vec<Property>) {
    if let Err(report) = assert_contains_exactly_in_any_order(&actual, &expected) {
        panic!("{}", report);
    }
}

#[test]
fn new_should_construct_expected_environment() {
    let map: Vec<(String, String)> = vec![("foo".to_string(), "value".to_string())];
    let environment = Environment::new(&map);

    assert_eq!(environment.entries(), map.clone());
}

#[test]
fn new_should_construct_environment_from_string_refs() {
    let testee = environment(&[("foo", "value")]);

    assert_eq!(
        testee.entries(),
        vec![("foo".to_string(), "value".to_string())]
    );
}

#[test]
fn get_should_return_none_if_variable_not_defined() {
    let testee = environment(&[("foo", "bar")]);

    assert_eq!(testee.get("baz"), None);
}

#[test]
fn get_should_return_some_if_variable_defined() {
    let testee = environment(&[("foo", "bar")]);

    assert_eq!(testee.get("foo"), Some("bar"));
}

#[test]
fn new_should_keep_the_later_of_two_variables_of_one_name() {
    let testee = environment(&[("a", "1"), ("b", "2"), ("a", "3"), ("c", "4"), ("b", "5")]);

    assert_eq!(testee.entries(), pairs(&[("a", "3"), ("b", "5"), ("c", "4")]));
    assert_eq!(testee.len(), 3);
    assert_eq!(testee.get("a"), Some("3"));
    assert_eq!(testee.get("b"), Some("5"));
    assert_eq!(testee.get("c"), Some("4"));
    assert_eq!(testee.entry(1), ("b", "5"));
}

#[test]
fn get_should_tell_names_apart_exactly() {
    let testee = environment(&[("foo", "1"), ("FOO", "2"), ("", "3"), ("foo ", "4")]);

    assert_eq!(testee.get("foo"), Some("1"));
    assert_eq!(testee.get("FOO"), Some("2"));
    assert_eq!(testee.get(""), Some("3"));
    assert_eq!(testee.get("foo "), Some("4"));
    assert_eq!(testee.get("Foo"), None);
    assert_eq!(testee.get("fo"), None);
}

#[test]
fn clone_should_hold_the_same_variables() {
    let testee = environment(&[("foo", "1"), ("bar", "2")]);

    assert_eq!(testee.clone().entries(), testee.entries());
}

#[test]
fn new_should_generate_expected_instance() {
    let map = pairs(&[("foo", "bar")]);
    let environment = Environment::new(&map);
    let instance = SpringStyleOverrider::new(environment);

    assert_eq!(instance.env().entries(), map);
}

fn make_spring(entries: &[(&str, &str)]) -> SpringStyleOverrider {
    SpringStyleOverrider::new(environment(entries))
}

#[test]
fn should_replace_single_word_with_capital_letters() {
    let testee = make_spring(&[("FOO", "value for foo")]);

    assert_eq!(
        testee.resolve_substitution("foo", None),
        Some("value for foo")
    );
}

#[test]
fn should_return_none_for_non_existing_replacement() {
    let testee = make_spring(&[("FOO", "value for foo")]);

    assert_eq!(testee.resolve_substitution("bar", None), None);
}

#[test]
fn should_ignore_capitalisation_of_key() {
    let testee = make_spring(&[("FOO", "value for foo")]);

    assert_eq!(
        testee.resolve_substitution("fOo", None),
        Some("value for foo")
    );
}

#[test]
fn should_replace_dots_with_underscores_for_lookup() {
    let testee = make_spring(&[("FOO_BAR", "value for foo")]);

    assert_eq!(
        testee.resolve_substitution("foo.bar", None),
        Some("value for foo")
    );
}

#[test]
fn should_replace_multiple_dots_with_underscores_for_lookup() {
    let testee = make_spring(&[("FOO_BAR_BAZ", "value for foo")]);

    assert_eq!(
        testee.resolve_substitution("foo.bar.baz", None),
        Some("value for foo")
    );
}

#[test]
fn should_replace_dashes_with_underscores_for_lookup() {
    let testee = make_spring(&[("FOO_BAR", "value for foo")]);

    assert_eq!(
        testee.resolve_substitution("foo-bar", None),
        Some("value for foo")
    );
}

#[test]
fn should_replace_multiple_dashes_with_underscores_for_lookup() {
    let testee = make_spring(&[("FOO_BAR_BAZ", "value for foo")]);

    assert_eq!(
        testee.resolve_substitution("foo-bar-baz", None),
        Some("value for foo")
    );
}

#[test]
fn should_not_replace_underscores_for_lookup() {
    let testee = make_spring(&[("FOO_BAR", "value for foo")]);

    assert_eq!(
        testee.resolve_substitution("foo_bar", None),
        Some("value for foo")
    );
}

#[test]
fn should_not_replace_multiple_underscores_for_lookup() {
    let testee = make_spring(&[("FOO_BAR_BAZ", "value for foo")]);

    assert_eq!(
        testee.resolve_substitution("foo_bar_baz", None),
        Some("value for foo")
    );
}

#[test]
fn should_search_for_variable_with_prefix_if_specified() {
    let testee = make_spring(&[
        ("FOO_BAR", "value1"),
        ("PREFIX_FOO_BAR", "value2"),
        ("FOO", "value3"),
        ("PREFIX_FOO", "value4"),
    ]);

    assert_eq!(
        testee.resolve_substitution("foo.bar", Some("PREFIX_")),
        Some("value2")
    );
    assert_eq!(
        testee.resolve_substitution("foo", Some("PREFIX_")),
        Some("value4")
    );
}

#[test]
fn spring_should_look_up_the_name_in_upper_case_only() {
    let testee = make_spring(&[("PREFIX_foo_bar", "lower"), ("prefix_FOO", "lower prefix")]);

    assert_eq!(testee.resolve_substitution("foo.bar", Some("PREFIX_")), None);
    assert_eq!(testee.resolve_substitution("foo", Some("prefix_")), Some("lower prefix"));
    assert_eq!(testee.resolve_substitution("foo", Some("PREFIX_")), None);
}

#[test]
fn spring_should_put_keys_of_any_alphabet_in_upper_case() {
    let testee = make_spring(&[("PREFIX_STRASSE_\u{c9}T\u{c9}", "value")]);

    assert_eq!(
        testee.resolve_substitution("stra\u{df}e.\u{e9}t\u{e9}", Some("PREFIX_")),
        Some("value")
    );
}

#[test]
fn should_convert_simple_prefixed_keys_with_values_to_lowercase_key() {
    let testee = make_spring(&[("PREFIX_FOO", "value1"), ("PREFIX_BAR", "value2")]);

    assert_in_any_order(
        testee.generate_additions(PREFIX),
        vec![
            Property::new("foo", "value1"),
            Property::new("bar", "value2"),
        ],
    );
}

#[test]
fn should_ignore_non_prefixed_key() {
    let testee = make_spring(&[("PREFIX_FOO", "value3"), ("NOT_PREFIX_BAR", "value2")]);

    assert_in_any_order(
        testee.generate_additions(PREFIX),
        vec![Property::new("foo", "value3")],
    );
}

#[test]
fn should_convert_underscores_in_dots_for_keys() {
    let testee = make_spring(&[("PREFIX_FOO_BAZ", "value5"), ("PREFIX_BAR_FOO", "value1")]);

    assert_in_any_order(
        testee.generate_additions(PREFIX),
        vec![
            Property::new("foo.baz", "value5"),
            Property::new("bar.foo", "value1"),
        ],
    );
}

#[test]
fn spring_additions_should_never_restore_a_dash() {
    let testee = make_spring(&[("PREFIX_FOO_BAR", "value")]);

    assert_eq!(
        testee.resolve_substitution("foo-bar", Some(PREFIX)),
        Some("value")
    );
    assert_eq!(
        testee.generate_additions(PREFIX),
        vec![Property::new("foo.bar", "value")]
    );
}

#[test]
fn spring_additions_should_come_in_the_order_of_the_variables() {
    let testee = make_spring(&[
        ("PREFIX_B", "1"),
        ("OTHER", "2"),
        ("PREFIX_A_C", "3"),
        ("PREFIX_", "4"),
        ("PREFIX", "5"),
        ("prefix_D", "6"),
        ("PREFIX_B", "7"),
    ]);

    assert_eq!(
        testee.generate_additions(PREFIX),
        vec![
            Property::new("b", "7"),
            Property::new("a.c", "3"),
            Property::new("", "4"),
        ]
    );
}

#[test]
fn spring_additions_should_strip_the_prefix_once() {
    let testee = make_spring(&[("PREFIX_PREFIX_FOO", "value")]);

    assert_eq!(
        testee.generate_additions(PREFIX),
        vec![Property::new("prefix.foo", "value")]
    );
}

#[test]
fn spring_additions_should_keep_a_dash_of_the_name() {
    let testee = make_spring(&[("PREFIX_FOO-BAR_\u{c9}", "value")]);

    assert_eq!(
        testee.generate_additions(PREFIX),
        vec![Property::new("foo-bar.\u{e9}", "value")]
    );
}

fn replacements() -> ReplacementMap {
    ReplacementMap::from_pairs(&vec![
        ('.', "_".to_string()),
        ('-', "__".to_string()),
        ('_', "___".to_string()),
    ])
}

#[test]
fn new_should_create_expected_type() {
    let replacement = replacements();
    let environment = environment(&[("foo", "bar")]);

    let testee = CustomCaseSensitiveStyleOverrider::new(replacement.clone(), environment.clone());

    assert_eq!(replacement, *testee.character_replacement_map());
    assert_eq!(environment.entries(), testee.environment().entries());
}

fn make(entries: &[(&str, &str)]) -> CustomCaseSensitiveStyleOverrider {
    CustomCaseSensitiveStyleOverrider::new(replacements(), environment(entries))
}

#[test]
fn should_replace_single_word() {
    let testee = make(&[("foo", "value for foo")]);

    assert_eq!(
        testee.resolve_substitution("foo", None),
        Some("value for foo")
    );
}

#[test]
fn overriding_should_return_none_for_non_existing_replacement() {
    let testee = make(&[("foo", "value for foo")]);

    assert_eq!(testee.resolve_substitution("bar", None), None);
}

#[test]
fn should_use_case_sensitive_resolution_for_key() {
    let testee = make(&[("fOo", "value for foo")]);

    assert_eq!(
        testee.resolve_substitution("fOo", None),
        Some("value for foo")
    );
    assert_eq!(testee.resolve_substitution("foo", None), None);
}

#[test]
fn should_use_all_character_replacements_for_lookup() {
    let testee = make(&[("foo_bar__baz___foobarbaz", "value for foo")]);

    assert_eq!(
        testee.resolve_substitution("foo.bar-baz_foobarbaz", None),
        Some("value for foo")
    );
}

#[test]
fn should_replace_multiple_occurrences_of_the_same_charater() {
    let testee = make(&[("foo_bar_baz", "value for foo")]);

    assert_eq!(
        testee.resolve_substitution("foo.bar.baz", None),
        Some("value for foo")
    );
}

#[test]
fn overriding_should_search_for_variable_with_prefix_if_specified() {
    let testee = make(&[
        ("foo_bar", "value1"),
        ("PREFIX_foo_bar", "value2"),
        ("foo", "value3"),
        ("PREFIX_foo", "value4"),
    ]);

    assert_eq!(
        testee.resolve_substitution("foo.bar", Some("PREFIX_")),
        Some("value2")
    );
    assert_eq!(
        testee.resolve_substitution("foo", Some("PREFIX_")),
        Some("value4")
    );
}

#[test]
fn process_character_should_give_the_replacement_or_the_character() {
    let testee = make(&[]);

    assert_eq!(testee.process_character('.'), "_");
    assert_eq!(testee.process_character('-'), "__");
    assert_eq!(testee.process_character('_'), "___");
    assert_eq!(testee.process_character('a'), "a");
    assert_eq!(testee.process_character('\u{e9}'), "\u{e9}");
}

#[test]
fn should_convert_simple_prefixed_keys_with_values() {
    let testee = make(&[("PREFIX_foo", "value1"), ("PREFIX_bar", "value2")]);

    assert_in_any_order(
        testee.generate_additions(PREFIX),
        vec![
            Property::new("foo", "value1"),
            Property::new("bar", "value2"),
        ],
    );
}

#[test]
fn overriding_should_ignore_non_prefixed_key() {
    let testee = make(&[("PREFIX_foo", "value3"), ("NOT_PREFIX_bar", "value2")]);

    assert_in_any_order(
        testee.generate_additions(PREFIX),
        vec![Property::new("foo", "value3")],
    );
}

#[test]
fn should_convert_all_converted_characters_into_original_characters() {
    let testee = make(&[
        ("PREFIX_foo_bar__baz___barfoo", "value5"),
        ("PREFIX_bar____foo_baz__foobar", "value1"),
    ]);

    assert_in_any_order(
        testee.generate_additions(PREFIX),
        vec![
            Property::new("foo.bar-baz_barfoo", "value5"),
            Property::new("bar_.foo.baz-foobar", "value1"),
        ],
    );
}

#[test]
fn should_convert_handle_repeated_occurrences_conversion() {
    let testee = make(&[
        ("PREFIX_foo___bar__baz___barfoo_", "value5"),
        ("PREFIX_bar__foo__baz__foobar__", "value1"),
    ]);

    assert_in_any_order(
        testee.generate_additions(PREFIX),
        vec![
            Property::new("foo_bar-baz_barfoo.", "value5"),
            Property::new("bar-foo-baz-foobar-", "value1"),
        ],
    );
}

#[test]
fn custom_should_read_back_the_name_that_a_key_is_looked_up_under() {
    let key = "foo.bar-baz_foobarbaz";
    let testee = make(&[("PREFIX_foo_bar__baz___foobarbaz", "value")]);

    assert_eq!(testee.resolve_substitution(key, Some(PREFIX)), Some("value"));
    assert_eq!(
        testee.generate_additions(PREFIX),
        vec![Property::new(key, "value")]
    );
}

#[test]
fn custom_should_not_always_read_back_the_key() {
    let testee = make(&[("PREFIX_____", "value")]);

    assert_eq!(testee.resolve_substitution("._", Some(PREFIX)), Some("value"));
    assert_eq!(
        testee.generate_additions(PREFIX),
        vec![Property::new("_.", "value")]
    );
}

fn make_with(
    replacement: &[(char, &str)],
    entries: &[(&str, &str)],
) -> CustomCaseSensitiveStyleOverrider {
    let map = ReplacementMap::from_pairs(
        &replacement
            .iter()
            .map(|(character, text)| (*character, text.to_string()))
            .collect(),
    );
    CustomCaseSensitiveStyleOverrider::new(map, environment(entries))
}

#[test]
fn custom_should_read_the_lesser_character_for_a_replacement_of_two() {
    let forth = make_with(&[('b', "xy"), ('a', "xy"), ('c', "x")], &[("P_xyxz", "v")]);
    let back = make_with(&[('c', "x"), ('a', "xy"), ('b', "xy")], &[("P_xyxz", "v")]);

    assert_eq!(forth.generate_additions("P_"), vec![Property::new("acz", "v")]);
    assert_eq!(back.generate_additions("P_"), vec![Property::new("acz", "v")]);
}

#[test]
fn custom_should_never_read_an_empty_replacement() {
    let testee = make_with(&[('x', ""), ('.', "_")], &[("P_a_b", "v"), ("P_", "w")]);

    assert_eq!(testee.resolve_substitution("axx.xb", Some("P_")), Some("v"));
    assert_eq!(testee.resolve_substitution("x", Some("P_")), Some("w"));
    assert_eq!(
        testee.generate_additions("P_"),
        vec![Property::new("a.b", "v"), Property::new("", "w")]
    );
}

#[test]
fn custom_should_read_names_of_any_alphabet() {
    let testee = make_with(
        &[('\u{e9}', "e'"), ('.', "\u{2192}")],
        &[("P_cle'\u{2192}\u{4e2d}e", "v")],
    );

    assert_eq!(
        testee.resolve_substitution("cl\u{e9}.\u{4e2d}e", Some("P_")),
        Some("v")
    );
    assert_eq!(
        testee.generate_additions("P_"),
        vec![Property::new("cl\u{e9}.\u{4e2d}e", "v")]
    );
}

#[test]
fn custom_should_leave_names_alone_without_replacements() {
    let testee = make_with(&[], &[("P_Foo_Bar-baz", "v"), ("Q_x", "w")]);

    assert_eq!(testee.resolve_substitution("Foo_Bar-baz", Some("P_")), Some("v"));
    assert_eq!(testee.resolve_substitution("x", Some("Q_")), Some("w"));
    assert_eq!(testee.resolve_substitution("x", None), None);
    assert_eq!(
        testee.generate_additions("P_"),
        vec![Property::new("Foo_Bar-baz", "v")]
    );
}

#[test]
fn custom_should_take_a_replacement_that_is_cut_short_as_it_stands() {
    let testee = make_with(&[('a', "xyz")], &[("P_xyzxy", "v")]);

    assert_eq!(
        testee.generate_additions("P_"),
        vec![Property::new("axy", "v")]
    );
}

#[test]
fn additions_should_take_every_variable_with_an_empty_prefix() {
    let spring = make_spring(&[("A_B", "1"), ("c", "2")]);
    let custom = make(&[("A_B", "1"), ("c", "2")]);

    assert_eq!(
        spring.generate_additions(""),
        vec![Property::new("a.b", "1"), Property::new("c", "2")]
    );
    assert_eq!(
        custom.generate_additions(""),
        vec![Property::new("A.B", "1"), Property::new("c", "2")]
    );
}
