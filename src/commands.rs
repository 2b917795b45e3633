//! Results handed back to the user interface, and the checks made on files
//! before they are opened.

use vstd::prelude::*;
use crate::text::{chars_of, lower_of, lowercase, same_chars};

verus! {

/// `anyhow::Error`, carried through as an opaque value.
#[verifier::external_type_specification]
#[verifier::external_body]
pub struct ExAnyhowError(anyhow::Error);

/// Relies on the `Display` of `anyhow::Error`, which gives its top-level message.
#[verifier::external_body]
fn error_text(e: &anyhow::Error) -> String {
    e.to_string()
}

/// The outcome of a command: its data on success, its message on failure.
#[derive(Debug)]
pub struct CommandResult<T> {
    pub success: bool,
    pub data: Option<T>,
    pub error: Option<String>,
}

impl<T> CommandResult<T> {
    pub fn ok(data: T) -> (r: Self)
        ensures
            r.success,
            r.data == Some(data),
            r.error is None,
    {
        CommandResult { success: true, data: Some(data), error: None }
    }

    pub fn err(error: String) -> (r: Self)
        ensures
            !r.success,
            r.data is None,
            r.error == Some(error),
    {
        CommandResult { success: false, data: None, error: Some(error) }
    }
}

/// Turns the result of an operation into a command result; a failure keeps
/// the error's message.
pub fn handle_command_error<T>(result: Result<T, anyhow::Error>) -> (r: CommandResult<T>)
    ensures
        result matches Ok(d) ==> r.success && r.data == Some(d) && r.error is None,
        result is Err ==> !r.success && r.data is None && r.error is Some,
{
    match result {
        Ok(data) => CommandResult::ok(data),
        Err(e) => CommandResult::err(error_text(&e)),
    }
}

/// Facts about the host that the interface shows.
#[derive(Debug, Clone)]
pub struct SystemInfo {
    pub os: String,
    pub arch: String,
    pub version: String,
}

/// Whether a lower-cased extension is one of `md`, `markdown`, `mdown`, `mkd`.
pub open spec fn is_markdown_name(ext: Seq<char>) -> bool {
    ext == "md"@ || ext == "markdown"@ || ext == "mdown"@ || ext == "mkd"@
}

/// Whether a file extension names a Markdown file, in any letter case.
pub fn is_markdown_extension(ext: &str) -> (r: bool)
    ensures
        r == is_markdown_name(lower_of(ext@)),
{
    let lowered = chars_of(lowercase(ext).as_str());
    same_chars(&lowered, &chars_of("md")) || same_chars(&lowered, &chars_of("markdown"))
        || same_chars(&lowered, &chars_of("mdown")) || same_chars(&lowered, &chars_of("mkd"))
}

/// Why a path cannot be opened as a Markdown file.
#[derive(Clone, Copy, Debug, PartialEq, Eq, Structural)]
pub enum PathError {
    NotFound,
    NotAFile,
    NotMarkdown,
}

/// Decides whether a path may be opened as a Markdown file, from what the
/// file system says of it: it must exist, be a file, and carry a Markdown
/// extension. The first condition that fails gives the error.
pub fn validate_markdown_file(exists: bool, is_file: bool, extension: Option<&str>) -> (r: Result<(), PathError>)
    ensures
        !exists ==> r == Err::<(), PathError>(PathError::NotFound),
        exists && !is_file ==> r == Err::<(), PathError>(PathError::NotAFile),
        exists && is_file ==> (r is Ok <==> (extension matches Some(e) && is_markdown_name(lower_of(e@)))),
        exists && is_file && r is Err ==> r == Err::<(), PathError>(PathError::NotMarkdown),
{
    if !exists {
        return Err(PathError::NotFound);
    }
    if !is_file {
        return Err(PathError::NotAFile);
    }
    match extension {
        Some(e) => if is_markdown_extension(e) {
            Ok(())
        } else {
            Err(PathError::NotMarkdown)
        },
        None => Err(PathError::NotMarkdown),
    }
}

} // verus!
