use typolite::commands::{
    handle_command_error, is_markdown_extension, validate_markdown_file, CommandResult, PathError,
};

#[test]
fn test_validate_markdown_file() {
    // A file that exists, with a Markdown extension.
    assert!(validate_markdown_file(true, true, Some("md")).is_ok());

    // Invalid extension.
    assert!(validate_markdown_file(true, true, Some("txt")).is_err());
}

#[test]
fn test_command_result() {
    let success = CommandResult::ok("test data");
    assert!(success.success);
    assert_eq!(success.data, Some("test data"));
    assert!(success.error.is_none());

    let error = CommandResult::<String>::err("test error".to_string());
    assert!(!error.success);
    assert!(error.data.is_none());
    assert_eq!(error.error, Some("test error".to_string()));
}

#[test]
fn validation_errors_in_order() {
    assert!(matches!(validate_markdown_file(false, false, Some("md")), Err(PathError::NotFound)));
    assert!(matches!(validate_markdown_file(true, false, Some("md")), Err(PathError::NotAFile)));
    assert!(matches!(validate_markdown_file(true, true, None), Err(PathError::NotMarkdown)));
    assert!(matches!(validate_markdown_file(true, true, Some("txt")), Err(PathError::NotMarkdown)));
}

#[test]
fn markdown_extensions_in_any_case() {
    assert!(is_markdown_extension("md"));
    assert!(is_markdown_extension("MD"));
    assert!(is_markdown_extension("Markdown"));
    assert!(is_markdown_extension("mdown"));
    assert!(is_markdown_extension("MKD"));
    assert!(!is_markdown_extension("txt"));
    assert!(!is_markdown_extension(""));
    assert!(!is_markdown_extension("mdx"));
}

#[test]
fn command_error_keeps_message() {
    let ok = handle_command_error::<u32>(Ok(7));
    assert!(ok.success);
    assert_eq!(ok.data, Some(7));
    assert!(ok.error.is_none());

    let failed = handle_command_error::<u32>(Err(anyhow::Error::msg("disk full")));
    assert!(!failed.success);
    assert!(failed.data.is_none());
    assert_eq!(failed.error, Some("disk full".to_string()));
}
