use pipe::modules::{log_entry, log_level, log_message, Output, OutputType};
use pipe::parser::Error;

#[test]
fn log_line_format() {
    assert_eq!(log_message("info", "\"hi\""), "{\"level\":\"info\", \"message\": \"hi\"}");
}

#[test]
fn log_entry_uses_error_level_on_failure() {
    assert_eq!(log_entry("warn", Ok("1".to_string())), "{\"level\":\"warn\", \"message\": 1}");
    assert_eq!(
        log_entry("warn", Err("bad".to_string())),
        "{\"level\":\"error\", \"message\": bad}"
    );
}

#[test]
fn log_level_defaults_to_info() {
    assert_eq!(log_level(None), "info");
    assert_eq!(log_level(Some("debug".to_string())), "debug");
}

#[test]
fn output_is_stdout() {
    assert_eq!(Output::new(None).output_type, OutputType::Stdout);
    assert_eq!(Output::new(Some("file".to_string())).output_type, OutputType::Stdout);
}

#[test]
fn file_error_keeps_message() {
    let e = Error::file("no such file");
    assert_eq!(e.file_text(), Some("no such file".to_string()));
    assert!(!e.is_parse());
}
