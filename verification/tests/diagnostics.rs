use brainf::bfir::Position;
use brainf::diagnostics::{position, source_line, Info, Level};

fn info(level: Level, position: Option<Position>, source: Option<&str>) -> Info {
    Info {
        level,
        filename: "foo.bf".to_owned(),
        message: "Something went wrong".to_owned(),
        position,
        source: source.map(|s| s.to_owned()),
    }
}

#[test]
fn position_counts_lines_and_columns() {
    assert_eq!(position("ab\ncd", 0), (0, 0));
    assert_eq!(position("ab\ncd", 1), (0, 1));
    assert_eq!(position("ab\ncd", 2), (0, 2));
    assert_eq!(position("ab\ncd", 3), (1, 0));
    assert_eq!(position("ab\ncd", 4), (1, 1));
    assert_eq!(position("\n\n+", 2), (2, 0));
    assert_eq!(position("", 0), (0, 0));
}

#[test]
fn source_line_stops_at_the_newline() {
    assert_eq!(source_line("ab\ncd\nef", 3), "cd");
    assert_eq!(source_line("ab\ncd", 3), "cd");
    assert_eq!(source_line("ab\ncd", 0), "ab");
    assert_eq!(source_line("ab\n\ncd", 3), "");
    assert_eq!(source_line("é+\n-", 0), "é+");
    assert_eq!(source_line("ab", 7), "");
}

#[test]
fn file_text_names_line_and_column_from_one() {
    let located = info(Level::Error, Some(Position { start: 4, end: 4 }), Some("+\n+-[\n"));
    assert_eq!(located.file_text(), "foo.bf:2:3");
    let unlocated = info(Level::Error, None, Some("+"));
    assert_eq!(unlocated.file_text(), "foo.bf");
    let no_source = info(Level::Error, Some(Position { start: 0, end: 0 }), None);
    assert_eq!(no_source.file_text(), "foo.bf");
}

#[test]
fn context_line_is_the_source_line() {
    let located = info(Level::Error, Some(Position { start: 4, end: 4 }), Some("+\n+-[\n"));
    assert_eq!(located.context_line(), "\n+-[");
    assert_eq!(info(Level::Error, None, None).context_line(), "");
}

#[test]
fn caret_line_marks_the_range() {
    let point = info(Level::Error, Some(Position { start: 4, end: 4 }), Some("+\n+-[\n"));
    assert_eq!(point.caret_line(), "\n  ^");
    let range = info(Level::Warning, Some(Position { start: 0, end: 2 }), Some("+++"));
    assert_eq!(range.caret_line(), "\n^~~");
    let backwards = info(Level::Warning, Some(Position { start: 2, end: 0 }), Some("+++"));
    assert_eq!(backwards.caret_line(), "\n  ^");
    assert_eq!(info(Level::Warning, None, Some("+")).caret_line(), "");
}

#[test]
fn render_paints_the_parts() {
    let error = info(Level::Error, Some(Position { start: 0, end: 0 }), Some("["));
    let text = error.render();
    assert!(text.contains("foo.bf:1:1"));
    assert!(text.contains(" error: "));
    assert!(text.contains("Something went wrong"));
    assert!(text.contains("\n["));
    assert!(text.contains("^"));
    assert!(text.contains("\u{1b}[1m"));
    assert!(text.contains("\u{1b}[1;31m"));
    assert!(text.ends_with("\u{1b}[0m"));
}

#[test]
fn warnings_are_purple() {
    let warning = info(Level::Warning, None, None);
    let text = warning.render();
    assert!(text.contains(" warning: "));
    assert!(text.contains("\u{1b}[1;35m") || text.contains("\u{1b}[35m"));
    assert!(!text.contains("31m"));
    assert_ne!(text, "foo.bf warning: Something went wrong");
}

#[test]
fn render_writes_the_escape_codes_of_an_error() {
    let error = info(Level::Error, Some(Position { start: 0, end: 0 }), Some("["));
    assert_eq!(
        error.render(),
        "\u{1b}[1mfoo.bf:1:1\u{1b}[31m error: \u{1b}[0m\u{1b}[1mSomething went wrong\u{1b}[0m\n[\u{1b}[1;31m\n^\u{1b}[0m"
    );
}

#[test]
fn render_writes_the_escape_codes_of_a_warning() {
    let warning = info(Level::Warning, Some(Position { start: 3, end: 5 }), Some("+\n++++"));
    assert_eq!(
        warning.render(),
        "\u{1b}[1mfoo.bf:2:2\u{1b}[35m warning: \u{1b}[0m\u{1b}[1mSomething went wrong\u{1b}[0m\n++++\u{1b}[1;35m\n ^~~\u{1b}[0m"
    );
}

#[test]
fn render_without_a_place_keeps_the_codes() {
    let warning = info(Level::Warning, None, None);
    assert_eq!(
        warning.render(),
        "\u{1b}[1mfoo.bf\u{1b}[35m warning: \u{1b}[0m\u{1b}[1mSomething went wrong\u{1b}[0m\u{1b}[1;35m\u{1b}[0m"
    );
    let error = info(Level::Error, None, Some("+"));
    assert_eq!(
        error.render(),
        "\u{1b}[1mfoo.bf\u{1b}[31m error: \u{1b}[0m\u{1b}[1mSomething went wrong\u{1b}[0m\u{1b}[1;31m\u{1b}[0m"
    );
}
