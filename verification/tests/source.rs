use torch::errors::{CompileError, ErrorReporter};
use torch::source::Source;
use torch::source_map::SourceMap;

fn source(text: &str) -> Source {
    Source::new(text.to_string(), "demo.torch".to_string())
}

#[test]
fn lines_start_behind_each_newline() {
    let source = source("ab\ncd\n\nef");
    assert_eq!(source.content, "ab\ncd\n\nef");
    assert_eq!(source.file_name, "demo.torch");
    assert_eq!(source.line_starts, vec![0, 3, 6, 7]);
}

#[test]
fn an_empty_text_has_one_line() {
    assert_eq!(source("").line_starts, vec![0]);
    assert_eq!(source("").get_line_col(0), (1, 1));
    assert_eq!(source("\n").line_starts, vec![0, 1]);
    assert_eq!(source("\n\n").line_starts, vec![0, 1, 2]);
    assert_eq!(source("x").line_starts, vec![0]);
}

#[test]
fn line_starts_count_bytes() {
    // The letter takes two bytes.
    assert_eq!(source("\u{e4}\nb").line_starts, vec![0, 3]);
    assert_eq!(source("\u{e4}\nb").get_line_col(3), (2, 1));
    // A carriage return belongs to the line that it ends.
    assert_eq!(source("a\r\nb").line_starts, vec![0, 3]);
}

#[test]
fn positions_map_to_lines_and_columns() {
    let source = source("ab\ncd\n\nef");
    assert_eq!(source.get_line_col(0), (1, 1));
    assert_eq!(source.get_line_col(1), (1, 2));
    assert_eq!(source.get_line_col(2), (1, 3));
    assert_eq!(source.get_line_col(3), (2, 1));
    assert_eq!(source.get_line_col(5), (2, 3));
    assert_eq!(source.get_line_col(6), (3, 1));
    assert_eq!(source.get_line_col(7), (4, 1));
    assert_eq!(source.get_line_col(8), (4, 2));
}

#[test]
fn positions_beyond_the_text_belong_to_the_last_line() {
    let source = source("ab\ncd");
    assert_eq!(source.get_line_col(5), (2, 3));
    assert_eq!(source.get_line_col(100), (2, 98));
    assert_eq!(source.get_line_col(usize::MAX), (2, usize::MAX - 2));
}

#[test]
fn many_lines_are_searched() {
    let text = "x\n".repeat(1000);
    let source = source(&text);
    assert_eq!(source.line_starts.len(), 1001);
    for line in 0..1000 {
        assert_eq!(source.get_line_col(2 * line), (line + 1, 1));
        assert_eq!(source.get_line_col(2 * line + 1), (line + 1, 2));
    }
    assert_eq!(source.get_line_col(2000), (1001, 1));
}

#[test]
fn a_map_numbers_its_sources() {
    let mut map = SourceMap::new();
    assert_eq!(map.files.len(), 0);
    assert_eq!(map.add(source("a")), 0);
    assert_eq!(map.add(source("b\nc")), 1);
    assert_eq!(map.files.len(), 2);
    assert_eq!(map.files[1].content, "b\nc");
    assert_eq!(map.files[1].line_starts, vec![0, 2]);
}

#[test]
fn a_diagnostic_is_rendered_with_its_place() {
    let mut map = SourceMap::new();
    map.add(source("let x = 1;\nlet y = @;\n"));
    let error = CompileError {
        message: "unexpected character '@'".to_string(),
        position: 19,
        source_id: 0,
    };
    assert_eq!(
        ErrorReporter::render(&map, &error),
        "error: unexpected character '@'\n --> demo.torch:2:9"
    );
}

#[test]
fn numerals_have_no_leading_zeros() {
    let mut map = SourceMap::new();
    map.add(Source::new("\n".repeat(120), "f".to_string()));
    let at = |position: usize| CompileError { message: String::new(), position, source_id: 0 };
    assert_eq!(ErrorReporter::render(&map, &at(0)), "error: \n --> f:1:1");
    assert_eq!(ErrorReporter::render(&map, &at(8)), "error: \n --> f:9:1");
    assert_eq!(ErrorReporter::render(&map, &at(9)), "error: \n --> f:10:1");
    assert_eq!(ErrorReporter::render(&map, &at(99)), "error: \n --> f:100:1");
    assert_eq!(ErrorReporter::render(&map, &at(108)), "error: \n --> f:109:1");
    assert_eq!(ErrorReporter::render(&map, &at(1234567)), "error: \n --> f:121:1234448");
}

#[test]
fn a_diagnostic_names_the_source_that_it_refers_to() {
    let mut map = SourceMap::new();
    map.add(source("a"));
    map.add(Source::new("\n\nb".to_string(), "lib.torch".to_string()));
    let error = CompileError { message: "m".to_string(), position: 2, source_id: 1 };
    assert_eq!(ErrorReporter::render(&map, &error), "error: m\n --> lib.torch:3:1");
}
