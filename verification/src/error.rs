//! The commands of the task list and the ways in which one of them fails.

use crate::number::{decimal, decimal_text};
use crate::text::{same_text, texts};
use vstd::prelude::*;

verus! {

/// A command of the task list.
#[derive(Debug, Clone, Copy, PartialEq, Eq)]
pub enum Command {
    List,
    Add,
    Remove,
    Edit,
    Done,
    Undone,
    Sort,
    Raw,
    Help,
}

/// A misuse of a command.
#[derive(Debug, Clone, Copy, PartialEq, Eq)]
pub enum Usage {
    /// The command takes at least one argument and got none.
    MissingArgument(Command),
    /// An argument of the command should be a list index and is not one.
    NotAnIndex(Command),
    /// `raw` takes exactly one argument and got fewer or more.
    FilterCount,
    /// The editor gave back fewer lines than the tasks it was opened on.
    MissingLines,
}

/// Why a command failed.
#[derive(Debug, Clone, PartialEq, Eq)]
pub enum StoreError {
    /// The command was given the wrong arguments.
    Usage(Usage),
    /// A line that the command had to interpret is no task record. `line`
    /// counts the lines of the file from one.
    CorruptFile { line: usize },
    /// The file could not be opened, read or written; the text says why.
    Io(String),
    /// An append was asked for although the list has not grown.
    Logic,
}

/// The word by which a command is called.
pub open spec fn verb_text(command: Command) -> Seq<char> {
    match command {
        Command::List => "list"@,
        Command::Add => "add"@,
        Command::Remove => "rm"@,
        Command::Edit => "edit"@,
        Command::Done => "done"@,
        Command::Undone => "undone"@,
        Command::Sort => "sort"@,
        Command::Raw => "raw"@,
        Command::Help => "help"@,
    }
}

/// The command that a command line asks for: the one its first word names,
/// the listing where there is no word, the help text for any other word.
/// `edit` is experimental and has no word on the command line.
pub open spec fn command_named(words: Seq<Seq<char>>) -> Command {
    if words.len() == 0 {
        Command::List
    } else if words[0] == "list"@ {
        Command::List
    } else if words[0] == "add"@ {
        Command::Add
    } else if words[0] == "rm"@ {
        Command::Remove
    } else if words[0] == "done"@ {
        Command::Done
    } else if words[0] == "undone"@ {
        Command::Undone
    } else if words[0] == "sort"@ {
        Command::Sort
    } else if words[0] == "raw"@ {
        Command::Raw
    } else {
        Command::Help
    }
}

/// The status with which the process ends after an error: 2 for a corrupt
/// file, 1 for every other error.
pub open spec fn exit_code_of(error: StoreError) -> i32 {
    match error {
        StoreError::CorruptFile { .. } => 2,
        _ => 1,
    }
}

/// The diagnostic that tells the user of an error.
pub open spec fn message_text(error: StoreError) -> Seq<char> {
    match error {
        StoreError::Usage(Usage::MissingArgument(command)) => "todo "@ + verb_text(command)
            + " needs at least 1 argument"@,
        StoreError::Usage(Usage::NotAnIndex(command)) => "todo "@ + verb_text(command)
            + " requires a positive integer as argument"@,
        StoreError::Usage(Usage::FilterCount) => "todo raw needs 1 argument [done|undone]"@,
        StoreError::Usage(Usage::MissingLines) => "todo edit needs 1 line for each edited task"@,
        StoreError::CorruptFile { line } => "corrupt todo file: invalid format at line "@
            + decimal_text(line as nat),
        StoreError::Io(reason) => reason@,
        StoreError::Logic => "cannot append to file because there is nothing to append"@,
    }
}

impl Command {
    /// The word by which the command is called.
    pub fn verb(&self) -> (word: &'static str)
        ensures
            word@ == verb_text(*self),
    {
        match self {
            Command::List => "list",
            Command::Add => "add",
            Command::Remove => "rm",
            Command::Edit => "edit",
            Command::Done => "done",
            Command::Undone => "undone",
            Command::Sort => "sort",
            Command::Raw => "raw",
            Command::Help => "help",
        }
    }

    /// Picks the command that the words of a command line ask for.
    pub fn named(words: &[String]) -> (command: Command)
        ensures
            command == command_named(texts(words@)),
    {
        if words.len() == 0 {
            return Command::List;
        }
        let word = words[0].as_str();
        if same_text(word, "list") {
            Command::List
        } else if same_text(word, "add") {
            Command::Add
        } else if same_text(word, "rm") {
            Command::Remove
        } else if same_text(word, "done") {
            Command::Done
        } else if same_text(word, "undone") {
            Command::Undone
        } else if same_text(word, "sort") {
            Command::Sort
        } else if same_text(word, "raw") {
            Command::Raw
        } else {
            Command::Help
        }
    }
}

impl StoreError {
    /// The status with which the process ends after this error.
    pub fn exit_code(&self) -> (code: i32)
        ensures
            code == exit_code_of(*self),
    {
        match self {
            StoreError::CorruptFile { .. } => 2,
            _ => 1,
        }
    }

    /// The diagnostic that tells the user of this error.
    pub fn message(&self) -> (text: String)
        ensures
            text@ == message_text(*self),
    {
        match self {
            StoreError::Usage(Usage::MissingArgument(command)) => {
                let mut text = "todo ".to_owned();
                text.append(command.verb());
                text.append(" needs at least 1 argument");
                text
            },
            StoreError::Usage(Usage::NotAnIndex(command)) => {
                let mut text = "todo ".to_owned();
                text.append(command.verb());
                text.append(" requires a positive integer as argument");
                text
            },
            StoreError::Usage(Usage::FilterCount) => {
                "todo raw needs 1 argument [done|undone]".to_owned()
            },
            StoreError::Usage(Usage::MissingLines) => {
                "todo edit needs 1 line for each edited task".to_owned()
            },
            StoreError::CorruptFile { line } => {
                let mut text = "corrupt todo file: invalid format at line ".to_owned();
                text.append(decimal(*line).as_str());
                text
            },
            StoreError::Io(reason) => reason.clone(),
            StoreError::Logic => {
                "cannot append to file because there is nothing to append".to_owned()
            },
        }
    }
}

} // verus!
