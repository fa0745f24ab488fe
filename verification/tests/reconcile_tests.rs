use command_sync::data::CommandDefinition;
use command_sync::data::CommandKind;
use command_sync::data::CommandOption;
use command_sync::data::OptionKind;
use command_sync::diff;

fn text_opt(name: &str, desc: &str, min: u16, max: u16) -> CommandOption {
    CommandOption {
        name: name.to_string(),
        kind: OptionKind::Text,
        description: desc.to_string(),
        name_localizations: None,
        description_localizations: None,
        required: Some(true),
        autocomplete: None,
        min_length: Some(min),
        max_length: Some(max),
        min_value: None,
        max_value: None,
        channel_types: None,
        choices: None,
        options: None,
    }
}

fn channel_opt(name: &str, desc: &str) -> CommandOption {
    CommandOption {
        name: name.to_string(),
        kind: OptionKind::Channel,
        description: desc.to_string(),
        name_localizations: None,
        description_localizations: None,
        required: Some(true),
        autocomplete: None,
        min_length: None,
        max_length: None,
        min_value: None,
        max_value: None,
        channel_types: None,
        choices: None,
        options: None,
    }
}

fn chat_cmd(
    name: &str,
    permissions: Option<u64>,
    options: Vec<CommandOption>,
) -> CommandDefinition {
    CommandDefinition {
        id: None,
        name: name.to_string(),
        kind: CommandKind::ChatInput,
        description: "Test command 2".to_string(),
        default_member_permissions: permissions,
        dm_allowed: None,
        nsfw: None,
        name_localizations: None,
        description_localizations: None,
        options,
    }
}

fn test_cmd_1() -> CommandDefinition {
    chat_cmd(
        "tcone",
        Some(8),
        vec![
            text_opt("message", "The message to send.", 1, 2000),
            text_opt("button_msg", "The text to put on the button", 1, 32),
            channel_opt("button_channel", "The channel to send the message in"),
            channel_opt("modmail_channel", "The channel to create modmails in"),
        ],
    )
}

fn test_cmd_2() -> CommandDefinition {
    chat_cmd(
        "tc2",
        None,
        vec![
            text_opt("message", "The message to send.", 1, 2000),
            text_opt("button_msg", "The text to put on the button", 1, 32),
            channel_opt("button_channel", "The channel to send the message in"),
            channel_opt("modmail_channel", "The channel to create modmails in"),
        ],
    )
}

fn test_cmd_2_update() -> CommandDefinition {
    chat_cmd("tc2", None, vec![text_opt("message", "The message to send.", 1, 2000)])
}

fn with_id(cmd: CommandDefinition, id: u64) -> CommandDefinition {
    CommandDefinition { id: Some(id), ..cmd }
}

#[test]
fn basic_add() {
    let d = diff(&[], &[test_cmd_1()]);
    assert_eq!(d.to_create, vec![test_cmd_1()]);
    assert!(d.to_update.is_empty());
    assert!(d.to_delete.is_empty());
}

#[test]
fn basic_add_plus_delete() {
    let d = diff(&[with_id(test_cmd_2(), 1)], &[test_cmd_1()]);
    println!("{d:#?}");
    assert_eq!(d.to_create, vec![test_cmd_1()]);
    assert!(d.to_update.is_empty());
    assert_eq!(d.to_delete, vec![1]);
}

#[test]
fn different_options() {
    let d = diff(&[with_id(test_cmd_2(), 1)], &[test_cmd_2_update()]);
    println!("{d:#?}");
    assert_eq!(d.to_update, vec![(1, test_cmd_2_update())]);
    assert!(d.to_create.is_empty());
    assert!(d.to_delete.is_empty());
}

#[test]
fn reconcile_same_collection_is_empty() {
    let x = vec![with_id(test_cmd_1(), 4), with_id(test_cmd_2(), 5)];
    let d = diff(&x, &x);
    assert!(d.to_delete.is_empty());
    assert!(d.to_create.is_empty());
    assert!(d.to_update.is_empty());
}

#[test]
fn removed_entry_is_deleted_by_identifier() {
    let d = diff(&[with_id(test_cmd_1(), 7)], &[]);
    assert_eq!(d.to_delete, vec![7]);
    assert!(d.to_create.is_empty());
    assert!(d.to_update.is_empty());
}

#[test]
fn changed_entry_is_updated_in_place() {
    let d = diff(&[with_id(test_cmd_2(), 1)], &[test_cmd_2_update()]);
    assert_eq!(d.to_update, vec![(1, test_cmd_2_update())]);
    assert!(d.to_delete.is_empty());
    assert!(d.to_create.is_empty());
}

#[test]
fn entry_without_identifier_is_never_deleted() {
    let d = diff(&[test_cmd_1()], &[]);
    assert!(d.to_delete.is_empty());
    assert!(d.to_create.is_empty());
    assert!(d.to_update.is_empty());
}

#[test]
fn entry_without_identifier_is_never_updated() {
    let d = diff(&[test_cmd_2()], &[test_cmd_2_update()]);
    assert!(d.to_update.is_empty());
    assert!(d.to_delete.is_empty());
    assert!(d.to_create.is_empty());
}

#[test]
fn duplicate_key_last_seen_wins() {
    let shadowed = with_id(test_cmd_2(), 1);
    let survivor = with_id(test_cmd_2_update(), 2);
    let d = diff(&[shadowed, survivor], &[test_cmd_2_update()]);
    assert!(d.to_delete.is_empty());
    assert!(d.to_create.is_empty());
    assert!(d.to_update.is_empty());
}

#[test]
fn create_and_delete_together() {
    let d = diff(
        &[with_id(test_cmd_2(), 9), with_id(test_cmd_1(), 10)],
        &[test_cmd_1(), chat_cmd("fresh", None, vec![])],
    );
    assert_eq!(d.to_delete, vec![9]);
    assert_eq!(d.to_create, vec![chat_cmd("fresh", None, vec![])]);
    assert!(d.to_update.is_empty());
}

#[test]
fn context_kind_is_part_of_the_key() {
    let mut user_cmd = chat_cmd("tcone", Some(8), vec![]);
    user_cmd.kind = CommandKind::User;
    user_cmd.description = String::new();
    let d = diff(&[with_id(test_cmd_1(), 3)], &[user_cmd.duplicate()]);
    assert_eq!(d.to_delete, vec![3]);
    assert_eq!(d.to_create, vec![user_cmd]);
    assert!(d.to_update.is_empty());
}
