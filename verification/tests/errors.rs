use todo::{help, Command, StoreError, Usage};

fn strings(items: &[&str]) -> Vec<String> {
    items.iter().map(|s| s.to_string()).collect()
}

#[test]
fn a_corrupt_file_ends_with_status_two() {
    assert_eq!(StoreError::CorruptFile { line: 1 }.exit_code(), 2);
}

#[test]
fn every_other_error_ends_with_status_one() {
    assert_eq!(StoreError::Usage(Usage::MissingArgument(Command::Add)).exit_code(), 1);
    assert_eq!(StoreError::Usage(Usage::NotAnIndex(Command::Done)).exit_code(), 1);
    assert_eq!(StoreError::Usage(Usage::FilterCount).exit_code(), 1);
    assert_eq!(StoreError::Usage(Usage::MissingLines).exit_code(), 1);
    assert_eq!(StoreError::Io("disk full".to_string()).exit_code(), 1);
    assert_eq!(StoreError::Logic.exit_code(), 1);
}

#[test]
fn messages_name_the_command() {
    assert_eq!(
        StoreError::Usage(Usage::MissingArgument(Command::Add)).message(),
        "todo add needs at least 1 argument"
    );
    assert_eq!(
        StoreError::Usage(Usage::MissingArgument(Command::Remove)).message(),
        "todo rm needs at least 1 argument"
    );
    assert_eq!(
        StoreError::Usage(Usage::NotAnIndex(Command::Undone)).message(),
        "todo undone requires a positive integer as argument"
    );
    assert_eq!(
        StoreError::Usage(Usage::NotAnIndex(Command::Edit)).message(),
        "todo edit requires a positive integer as argument"
    );
    assert_eq!(
        StoreError::Usage(Usage::FilterCount).message(),
        "todo raw needs 1 argument [done|undone]"
    );
    assert_eq!(
        StoreError::Usage(Usage::MissingLines).message(),
        "todo edit needs 1 line for each edited task"
    );
}

#[test]
fn the_message_of_a_corrupt_file_names_the_line() {
    assert_eq!(
        StoreError::CorruptFile { line: 12 }.message(),
        "corrupt todo file: invalid format at line 12"
    );
}

#[test]
fn other_messages() {
    assert_eq!(
        StoreError::Io("failed to open todo file: denied".to_string()).message(),
        "failed to open todo file: denied"
    );
    assert_eq!(
        StoreError::Logic.message(),
        "cannot append to file because there is nothing to append"
    );
}

#[test]
fn verbs() {
    assert_eq!(Command::List.verb(), "list");
    assert_eq!(Command::Add.verb(), "add");
    assert_eq!(Command::Remove.verb(), "rm");
    assert_eq!(Command::Edit.verb(), "edit");
    assert_eq!(Command::Done.verb(), "done");
    assert_eq!(Command::Undone.verb(), "undone");
    assert_eq!(Command::Sort.verb(), "sort");
    assert_eq!(Command::Raw.verb(), "raw");
    assert_eq!(Command::Help.verb(), "help");
}

#[test]
fn the_first_word_names_the_command() {
    assert_eq!(Command::named(&strings(&["list"])), Command::List);
    assert_eq!(Command::named(&strings(&["add", "x"])), Command::Add);
    assert_eq!(Command::named(&strings(&["rm", "1"])), Command::Remove);
    assert_eq!(Command::named(&strings(&["done", "1"])), Command::Done);
    assert_eq!(Command::named(&strings(&["undone", "1"])), Command::Undone);
    assert_eq!(Command::named(&strings(&["sort"])), Command::Sort);
    assert_eq!(Command::named(&strings(&["raw", "done"])), Command::Raw);
}

#[test]
fn no_word_asks_for_the_listing() {
    assert_eq!(Command::named(&[]), Command::List);
}

#[test]
fn any_other_word_asks_for_help() {
    for word in ["help", "--help", "-h", "edit", "remove", "LIST", "", "list "] {
        assert_eq!(Command::named(&strings(&[word])), Command::Help, "word {:?}", word);
    }
}

#[test]
fn help_gives_the_usage_text() {
    let text = help();
    assert!(text.starts_with("Usage: todo [COMMAND] [ARGUMENTS]\n"));
    assert!(text.contains("    - raw [done|undone]\n"));
    assert!(text.ends_with("Example: todo raw done\n"));
    assert_eq!(text, todo::usage::TODO_HELP);
    assert_eq!(text.lines().count(), 27);
}
