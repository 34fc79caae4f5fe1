use vstd::prelude::*;
use vstd::string::*;

verus! {

/// Why a path given on the command line cannot be listed.
#[derive(Clone, Copy, Debug, PartialEq, Eq, Structural)]
pub enum PathError {
    /// The path does not resolve.
    DoesNotExist,
    /// The path resolves to something that is not a directory.
    NotADirectory,
}

/// Decides whether a path can be listed, from whether it resolved and
/// whether what it resolved to is a directory.
pub fn check_target(resolved: bool, is_dir: bool) -> (r: Result<(), PathError>)
    ensures
        !resolved ==> r == Err::<(), PathError>(PathError::DoesNotExist),
        resolved && !is_dir ==> r == Err::<(), PathError>(PathError::NotADirectory),
        resolved && is_dir ==> r is Ok,
{
    if !resolved {
        Err(PathError::DoesNotExist)
    } else if !is_dir {
        Err(PathError::NotADirectory)
    } else {
        Ok(())
    }
}

/// The one line reported for a path that cannot be listed.
pub open spec fn message_text(err: PathError, path: Seq<char>) -> Seq<char> {
    match err {
        PathError::DoesNotExist => "❌ Error: Directory '"@ + path + "' does not exist."@,
        PathError::NotADirectory => "❌ Error: '"@ + path + "' is not a directory."@,
    }
}

/// The diagnostic for `err`, naming the path as the user wrote it.
pub fn path_error_message(err: PathError, path: &str) -> (r: String)
    ensures
        r@ == message_text(err, path@),
{
    match err {
        PathError::DoesNotExist => {
            let mut m = String::from_str("❌ Error: Directory '");
            m.append(path);
            m.append("' does not exist.");
            m
        },
        PathError::NotADirectory => {
            let mut m = String::from_str("❌ Error: '");
            m.append(path);
            m.append("' is not a directory.");
            m
        },
    }
}

/// The two diagnostics differ for every path.
pub proof fn lemma_messages_differ(path: Seq<char>)
    ensures
        message_text(PathError::DoesNotExist, path) != message_text(PathError::NotADirectory, path),
{
    reveal_strlit("❌ Error: Directory '");
    reveal_strlit("❌ Error: '");
    assert(message_text(PathError::DoesNotExist, path)[9] == 'D');
    assert(message_text(PathError::NotADirectory, path)[9] == '\'');
}

} // verus!
