//! Where the task file lies: the directory that the platform's environment
//! names, and the file's name in it.

use crate::error::StoreError;
use crate::text::same_text;
use vstd::prelude::*;

verus! {

/// The name of the task file in its directory.
pub const TODO_FILE: &'static str = ".todo";

/// The platform keeps a user's files under `$XDG_DATA_HOME` or `$HOME`.
pub open spec fn is_unix_like(os: Seq<char>) -> bool {
    os == "linux"@ || os == "macos"@
}

/// The platform keeps a user's files under `%USERPROFILE%`.
pub open spec fn is_windows(os: Seq<char>) -> bool {
    os == "windows"@
}

/// `outcome` is the failure to find a directory, with `reason` as its text.
pub open spec fn is_unfound<T>(outcome: Result<T, StoreError>, reason: Seq<char>) -> bool {
    outcome matches Err(StoreError::Io(text)) && text@ == reason
}

/// Picks the directory of the task file from what the environment holds.
/// `os` is the name of the platform; the three values are those of
/// `XDG_DATA_HOME`, `HOME` and `USERPROFILE`, `None` where a variable is
/// not set. On Linux and macOS `HOME` must be set, and `XDG_DATA_HOME`
/// goes before it; on Windows `USERPROFILE` is taken; no other platform
/// is served.
pub fn home_directory<T>(
    os: &str,
    data_home: Option<T>,
    home: Option<T>,
    user_profile: Option<T>,
) -> (outcome: Result<T, StoreError>)
    ensures
        is_unix_like(os@) ==> match (home, data_home) {
            (Some(_), Some(dir)) => outcome == Ok::<T, StoreError>(dir),
            (Some(dir), None) => outcome == Ok::<T, StoreError>(dir),
            (None, _) => is_unfound(outcome, "failed to read $XDG_DATA_HOME or $HOME"@),
        },
        !is_unix_like(os@) && is_windows(os@) ==> match user_profile {
            Some(dir) => outcome == Ok::<T, StoreError>(dir),
            None => is_unfound(outcome, "failed to read %USERPROFILE%"@),
        },
        !is_unix_like(os@) && !is_windows(os@) ==> is_unfound(
            outcome,
            "unsupported operating system"@,
        ),
{
    if same_text(os, "linux") || same_text(os, "macos") {
        match home {
            Some(dir) => match data_home {
                Some(data_dir) => Ok(data_dir),
                None => Ok(dir),
            },
            None => Err(StoreError::Io("failed to read $XDG_DATA_HOME or $HOME".to_owned())),
        }
    } else if same_text(os, "windows") {
        match user_profile {
            Some(dir) => Ok(dir),
            None => Err(StoreError::Io("failed to read %USERPROFILE%".to_owned())),
        }
    } else {
        Err(StoreError::Io("unsupported operating system".to_owned()))
    }
}

} // verus!
