use code_tables::table::CodeTables;

#[test]
fn first_row_cells_are_all_headings() {
    let row = CodeTables::get_table_row("| a | `b` | --- |", true);
    assert_eq!(
        row.get_as_html(),
        "<tr><th></th><th>a</th><th>`b`</th><th>---</th><th></th></tr>"
    );
}

#[test]
fn data_row_classifies_each_cell() {
    // empty, alignment, code, text, empty
    let row = CodeTables::get_table_row("|---|`x`| y |", false);
    assert_eq!(row.get_as_html(), "<tr><td><pre>`x`</pre><td><td>y</td></tr>");
}

#[test]
fn hyphenated_word_without_space_counts_as_alignment() {
    let row = CodeTables::get_table_row("a-b", false);
    assert_eq!(row.get_as_html(), "<tr></tr>");
}

#[test]
fn hyphen_with_space_is_plain_text() {
    let row = CodeTables::get_table_row("- -", false);
    assert_eq!(row.get_as_html(), "<tr><td>- -</td></tr>");
}

#[test]
fn single_backtick_is_a_code_cell() {
    let row = CodeTables::get_table_row("`", false);
    assert_eq!(row.get_as_html(), "<tr><td><pre>`</pre><td></tr>");
}

#[test]
fn cells_are_trimmed_before_classification() {
    let row = CodeTables::get_table_row("  spaced  |\ttabbed\t", false);
    assert_eq!(row.get_as_html(), "<tr><td>spaced</td><td>tabbed</td></tr>");
}

#[test]
fn no_table_when_first_line_has_no_pipe() {
    assert!(CodeTables::get_table_metadata("plain text\n| a |\n").is_none());
    assert!(CodeTables::get_table_metadata("").is_none());
}

#[test]
fn header_only_table_is_valid() {
    let (table, consumed) = CodeTables::get_table_metadata("| a |\nrest").unwrap();
    assert_eq!(consumed, 5);
    assert_eq!(
        table.get_as_html(),
        "<table><thead><tr><th></th><th>a</th><th></th></tr></thead></table>"
    );
}

#[test]
fn consumed_span_reaches_the_last_line_feed() {
    // Both lines and the separator between them, up to (not including) the
    // line feed after the last line.
    let (_, consumed) = CodeTables::get_table_metadata("| a |\n| b |\nrest").unwrap();
    assert_eq!(consumed, 11);
}

#[test]
fn consumed_span_without_trailing_line_feed() {
    let (_, consumed) = CodeTables::get_table_metadata("| a |").unwrap();
    assert_eq!(consumed, 5);
}

#[test]
fn consumed_span_covers_a_table_that_ends_the_input() {
    // Both rows and the separator between them: 3 + 1 + 3.
    let (table, consumed) = CodeTables::get_table_metadata("a|b\nc|d").unwrap();
    assert_eq!(consumed, 7);
    assert_eq!(
        table.get_as_html(),
        "<table><thead><tr><th>a</th><th>b</th></tr></thead><tr><td>c</td><td>d</td></tr></table>"
    );
}

#[test]
fn consumed_span_with_short_last_line() {
    // Three one-character lines and their two separators; the line feed
    // after the last line stays in the remainder.
    let (_, consumed) = CodeTables::get_table_metadata("|\n|\n|\nx").unwrap();
    assert_eq!(consumed, 5);
}

#[test]
fn consumed_span_takes_the_carriage_return_before_a_line_feed() {
    let (_, consumed) = CodeTables::get_table_metadata("|a|\r\nrest").unwrap();
    assert_eq!(consumed, 4);
}

#[test]
fn bare_carriage_return_at_end_of_input_belongs_to_the_line() {
    let (table, consumed) = CodeTables::get_table_metadata("|a|\r").unwrap();
    assert_eq!(consumed, 4);
    assert_eq!(
        table.get_as_html(),
        "<table><thead><tr><th></th><th>a</th><th></th></tr></thead></table>"
    );
}

#[test]
fn unicode_whitespace_is_trimmed_from_cells() {
    let row = CodeTables::get_table_row("|\u{a0}x\u{a0}|\u{3000}y\u{2009}|", false);
    assert_eq!(row.get_as_html(), "<tr><td>x</td><td>y</td></tr>");
}

#[test]
fn mismatched_column_counts_are_rendered_as_is() {
    let (table, _) = CodeTables::get_table_metadata("|a|b|\n|c|\n").unwrap();
    assert_eq!(
        table.get_as_html(),
        "<table><thead><tr><th></th><th>a</th><th>b</th><th></th></tr></thead><tr><td>c</td></tr></table>"
    );
}
