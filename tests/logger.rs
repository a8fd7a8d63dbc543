use keys_lsp::logger::{log, log_line};

#[test]
fn log_line_joins_stamp_and_message() {
    assert_eq!(log_line("2024-01-02 03:04:05", "hello"), "2024-01-02 03:04:05: hello\n");
}

#[test]
fn log_stamps_the_message() {
    let line = log("started");
    assert!(line.ends_with(": started\n"));
    assert!(line.len() > ": started\n".len());
}
