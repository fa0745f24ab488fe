use command_sync::command_eq;
use command_sync::data::ChoiceValue;
use command_sync::data::CommandDefinition;
use command_sync::data::CommandKind;
use command_sync::data::CommandOption;
use command_sync::data::CommandOptionChoice;
use command_sync::data::LocaleMap;
use command_sync::data::NumericValue;
use command_sync::data::OptionKind;
use command_sync::localizations_eq;
use command_sync::Sorted;

fn bare_opt(name: &str) -> CommandOption {
    CommandOption {
        name: name.to_string(),
        kind: OptionKind::Text,
        description: format!("option {name}"),
        name_localizations: None,
        description_localizations: None,
        required: None,
        autocomplete: None,
        min_length: None,
        max_length: None,
        min_value: None,
        max_value: None,
        channel_types: None,
        choices: None,
        options: None,
    }
}

fn choice(name: &str, value: ChoiceValue) -> CommandOptionChoice {
    CommandOptionChoice { name: name.to_string(), name_localizations: None, value }
}

fn cmd_with_options(options: Vec<CommandOption>) -> CommandDefinition {
    CommandDefinition {
        id: None,
        name: "probe".to_string(),
        kind: CommandKind::ChatInput,
        description: "a probe".to_string(),
        default_member_permissions: None,
        dm_allowed: None,
        nsfw: None,
        name_localizations: None,
        description_localizations: None,
        options,
    }
}

#[test]
fn options_order_is_insensitive() {
    let a = cmd_with_options(vec![bare_opt("alpha"), bare_opt("beta"), bare_opt("gamma")]);
    let b = cmd_with_options(vec![bare_opt("gamma"), bare_opt("alpha"), bare_opt("beta")]);
    assert!(command_eq(&a, &b));
}

#[test]
fn differing_options_are_detected() {
    let a = cmd_with_options(vec![bare_opt("alpha"), bare_opt("beta")]);
    let b = cmd_with_options(vec![bare_opt("alpha"), bare_opt("delta")]);
    assert!(!command_eq(&a, &b));
}

#[test]
fn choices_order_is_insensitive() {
    let mut oa = bare_opt("pick");
    oa.choices = Some(vec![
        choice("one", ChoiceValue::Int(1)),
        choice("two", ChoiceValue::Int(2)),
    ]);
    let mut ob = bare_opt("pick");
    ob.choices = Some(vec![
        choice("two", ChoiceValue::Int(2)),
        choice("one", ChoiceValue::Int(1)),
    ]);
    let a = cmd_with_options(vec![oa]);
    let b = cmd_with_options(vec![ob]);
    assert!(command_eq(&a, &b));
}

#[test]
fn differing_choice_values_are_detected() {
    let mut oa = bare_opt("pick");
    oa.choices = Some(vec![choice("one", ChoiceValue::Int(1))]);
    let mut ob = bare_opt("pick");
    ob.choices = Some(vec![choice("one", ChoiceValue::Int(2))]);
    assert!(!command_eq(&cmd_with_options(vec![oa]), &cmd_with_options(vec![ob])));
}

#[test]
fn text_and_number_choice_values_differ() {
    let mut oa = bare_opt("pick");
    oa.choices = Some(vec![choice("one", ChoiceValue::Text("1".to_string()))]);
    let mut ob = bare_opt("pick");
    ob.choices = Some(vec![choice("one", ChoiceValue::Int(1))]);
    assert!(!command_eq(&cmd_with_options(vec![oa]), &cmd_with_options(vec![ob])));
}

#[test]
fn absent_flags_equal_explicit_false() {
    let a = cmd_with_options(vec![]);
    let mut b = cmd_with_options(vec![]);
    b.dm_allowed = Some(false);
    b.nsfw = Some(false);
    assert!(command_eq(&a, &b));

    let mut oa = bare_opt("flagged");
    oa.required = None;
    oa.autocomplete = None;
    let mut ob = bare_opt("flagged");
    ob.required = Some(false);
    ob.autocomplete = Some(false);
    assert!(command_eq(&cmd_with_options(vec![oa]), &cmd_with_options(vec![ob])));
}

#[test]
fn explicit_true_flag_differs_from_absent() {
    let a = cmd_with_options(vec![]);
    let mut b = cmd_with_options(vec![]);
    b.nsfw = Some(true);
    assert!(!command_eq(&a, &b));
}

#[test]
fn absent_localizations_equal_empty_map() {
    let a = cmd_with_options(vec![]);
    let mut b = cmd_with_options(vec![]);
    b.name_localizations = Some(LocaleMap::new());
    assert!(command_eq(&a, &b));
    assert!(localizations_eq(None, Some(&LocaleMap::new())));
    assert!(localizations_eq(None, None));
}

#[test]
fn localization_entries_compare_as_maps() {
    let mut m1 = LocaleMap::new();
    m1.insert("de".to_string(), "hallo".to_string());
    m1.insert("fr".to_string(), "salut".to_string());
    let mut m2 = LocaleMap::new();
    m2.insert("fr".to_string(), "salut".to_string());
    m2.insert("de".to_string(), "hallo".to_string());
    assert!(localizations_eq(Some(&m1), Some(&m2)));

    let mut m3 = LocaleMap::new();
    m3.insert("de".to_string(), "servus".to_string());
    m3.insert("fr".to_string(), "salut".to_string());
    assert!(!localizations_eq(Some(&m1), Some(&m3)));
}

#[test]
fn localization_insert_replaces_same_locale() {
    let mut m1 = LocaleMap::new();
    m1.insert("de".to_string(), "alt".to_string());
    m1.insert("de".to_string(), "neu".to_string());
    let mut m2 = LocaleMap::new();
    m2.insert("de".to_string(), "neu".to_string());
    assert!(localizations_eq(Some(&m1), Some(&m2)));
    assert_eq!(m1.len(), 1);
}

#[test]
fn channel_types_compare_as_sets() {
    let mut oa = bare_opt("where");
    oa.kind = OptionKind::Channel;
    oa.channel_types = Some(vec![5, 0, 2]);
    let mut ob = bare_opt("where");
    ob.kind = OptionKind::Channel;
    ob.channel_types = Some(vec![0, 2, 5]);
    assert!(command_eq(&cmd_with_options(vec![oa]), &cmd_with_options(vec![ob])));

    let mut oc = bare_opt("where");
    oc.kind = OptionKind::Channel;
    oc.channel_types = Some(vec![0, 2, 4]);
    let mut od = bare_opt("where");
    od.kind = OptionKind::Channel;
    od.channel_types = Some(vec![0, 2, 5]);
    assert!(!command_eq(&cmd_with_options(vec![oc]), &cmd_with_options(vec![od])));
}

#[test]
fn absent_channel_types_equal_empty_list() {
    let mut oa = bare_opt("where");
    oa.channel_types = None;
    let mut ob = bare_opt("where");
    ob.channel_types = Some(vec![]);
    assert!(command_eq(&cmd_with_options(vec![oa]), &cmd_with_options(vec![ob])));
}

#[test]
fn numeric_bounds_compare_exactly() {
    let mut oa = bare_opt("amount");
    oa.kind = OptionKind::Integer;
    oa.min_value = Some(NumericValue::Int(3));
    let mut ob = bare_opt("amount");
    ob.kind = OptionKind::Integer;
    ob.min_value = Some(NumericValue::Int(3));
    assert!(command_eq(&cmd_with_options(vec![oa]), &cmd_with_options(vec![ob])));

    let mut oc = bare_opt("amount");
    oc.kind = OptionKind::Integer;
    oc.min_value = Some(NumericValue::Int(3));
    let mut od = bare_opt("amount");
    od.kind = OptionKind::Integer;
    od.min_value = Some(NumericValue::Int(4));
    assert!(!command_eq(&cmd_with_options(vec![oc]), &cmd_with_options(vec![od])));

    let mut oe = bare_opt("ratio");
    oe.kind = OptionKind::Number;
    oe.max_value = Some(NumericValue::NumBits(4611686018427387904));
    let mut of = bare_opt("ratio");
    of.kind = OptionKind::Number;
    of.max_value = Some(NumericValue::NumBits(4611686018427387905));
    assert!(!command_eq(&cmd_with_options(vec![oe]), &cmd_with_options(vec![of])));
}

#[test]
fn nested_option_order_is_insensitive() {
    let mut group_a = bare_opt("group");
    group_a.kind = OptionKind::SubCommandGroup;
    let mut sub_a = bare_opt("sub");
    sub_a.kind = OptionKind::SubCommand;
    sub_a.options = Some(vec![bare_opt("x"), bare_opt("y")]);
    group_a.options = Some(vec![sub_a]);

    let mut group_b = bare_opt("group");
    group_b.kind = OptionKind::SubCommandGroup;
    let mut sub_b = bare_opt("sub");
    sub_b.kind = OptionKind::SubCommand;
    sub_b.options = Some(vec![bare_opt("y"), bare_opt("x")]);
    group_b.options = Some(vec![sub_b]);

    assert!(command_eq(&cmd_with_options(vec![group_a]), &cmd_with_options(vec![group_b])));
}

#[test]
fn absent_nested_options_equal_empty_list() {
    let mut oa = bare_opt("sub");
    oa.options = None;
    oa.choices = None;
    let mut ob = bare_opt("sub");
    ob.options = Some(vec![]);
    ob.choices = Some(vec![]);
    assert!(command_eq(&cmd_with_options(vec![oa]), &cmd_with_options(vec![ob])));
}

#[test]
fn identifier_is_ignored_by_equality() {
    let a = cmd_with_options(vec![]);
    let mut b = cmd_with_options(vec![]);
    b.id = Some(42);
    assert!(command_eq(&a, &b));
}

#[test]
fn sorted_vec_orders_bytes() {
    let v: Vec<u8> = vec![9, 1, 5, 1, 0];
    assert_eq!(v.sorted(), vec![0, 1, 1, 5, 9]);
}

#[test]
fn same_named_options_keep_their_listed_order() {
    let mut oa = bare_opt("twin");
    oa.description = "first".to_string();
    let mut ob = bare_opt("twin");
    ob.description = "second".to_string();
    let a = cmd_with_options(vec![oa.duplicate(), ob.duplicate()]);
    let b = cmd_with_options(vec![ob, oa]);
    assert!(!command_eq(&a, &b));
}

#[test]
fn repeated_channel_types_count() {
    let mut oa = bare_opt("where");
    oa.channel_types = Some(vec![5, 5, 0]);
    let mut ob = bare_opt("where");
    ob.channel_types = Some(vec![0, 5, 5]);
    assert!(command_eq(&cmd_with_options(vec![oa]), &cmd_with_options(vec![ob])));

    let mut oc = bare_opt("where");
    oc.channel_types = Some(vec![5, 0, 0]);
    let mut od = bare_opt("where");
    od.channel_types = Some(vec![5, 5, 0]);
    assert!(!command_eq(&cmd_with_options(vec![oc]), &cmd_with_options(vec![od])));
}
