use rust_kv_store::cli::{command_type, InputCommand, InputCommandType, InputError};

#[test]
fn set_needs_key_and_value() {
    let command = InputCommand::parse("set name Alice\n").unwrap();
    assert_eq!(command.command(), InputCommandType::Put);
    assert_eq!(command.key(), "name");
    assert_eq!(command.value(), "Alice");
    assert!(matches!(InputCommand::parse("set name"), Err(InputError::MissingArgument)));
    assert!(matches!(InputCommand::parse("set"), Err(InputError::MissingArgument)));
}

#[test]
fn get_needs_a_key() {
    let command = InputCommand::parse("  GET\tname  ").unwrap();
    assert_eq!(command.command(), InputCommandType::Get);
    assert_eq!(command.key(), "name");
    assert_eq!(command.value(), "");
    assert!(matches!(InputCommand::parse("get"), Err(InputError::MissingArgument)));
    let command = InputCommand::parse("get a b c").unwrap();
    assert_eq!(command.value(), "b");
}

#[test]
fn other_words_are_no_commands() {
    assert!(matches!(
        InputCommand::parse("put a b"),
        Err(InputError::UnknownCommand(word)) if word == "put"
    ));
    assert!(matches!(
        InputCommand::parse(" \n"),
        Err(InputError::UnknownCommand(word)) if word.is_empty()
    ));
    assert_eq!(command_type(&"sEt".to_string()), Some(InputCommandType::Put));
    assert_eq!(command_type(&"Get".to_string()), Some(InputCommandType::Get));
    assert_eq!(command_type(&"gets".to_string()), None);
    assert_eq!(command_type(&"ge".to_string()), None);
}

#[test]
fn words_are_taken_in_order() {
    let words: Vec<String> = ["SET", "k", "v", "rest"].iter().map(|w| w.to_string()).collect();
    let command = InputCommand::from_words(&words).unwrap();
    assert_eq!(command.command(), InputCommandType::Put);
    assert_eq!(command.key(), "k");
    assert_eq!(command.value(), "v");
}
