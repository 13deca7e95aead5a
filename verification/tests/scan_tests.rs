use code_tables::table::CodeTables;

#[test]
fn marker_free_text_is_unchanged() {
    let input = "hello | world\nno markers here | at all\n";
    assert_eq!(CodeTables::parse_chapter_contents(input), input);
}

#[test]
fn empty_input_gives_empty_output() {
    assert_eq!(CodeTables::parse_chapter_contents(""), "");
}

#[test]
fn unmatched_marker_is_dropped_and_rest_rescanned() {
    let out = CodeTables::parse_chapter_contents("a@codeb\nc");
    assert_eq!(out, "ab\nc");
}

#[test]
fn marker_at_end_of_input_is_dropped() {
    let out = CodeTables::parse_chapter_contents("abc@code");
    assert_eq!(out, "abc");
}

#[test]
fn end_to_end_example() {
    let input = "before @code| a | b |\n|---|---|\n| `x` | y |\nafter";
    let expected = "before <table><thead><tr><th></th><th>a</th><th>b</th><th></th></tr></thead><tr></tr><tr><td><pre>`x`</pre><td><td>y</td></tr></table>\nafter";
    assert_eq!(CodeTables::parse_chapter_contents(input), expected);
}

#[test]
fn header_cells_are_th_whatever_their_text() {
    let input = "@code|---|`x`|\nafter";
    let expected = "<table><thead><tr><th></th><th>---</th><th>`x`</th><th></th></tr></thead></table>\nafter";
    assert_eq!(CodeTables::parse_chapter_contents(input), expected);
}

#[test]
fn code_cell_keeps_delimiters_inside_pre() {
    let input = "@code|h|\n|`x`|\n";
    let expected = "<table><thead><tr><th></th><th>h</th><th></th></tr></thead><tr><td><pre>`x`</pre><td></tr></table>\n";
    assert_eq!(CodeTables::parse_chapter_contents(input), expected);
}

#[test]
fn alignment_row_renders_as_empty_tr() {
    let input = "@code|h|\n|---|\n";
    let expected = "<table><thead><tr><th></th><th>h</th><th></th></tr></thead><tr></tr></table>\n";
    assert_eq!(CodeTables::parse_chapter_contents(input), expected);
}

#[test]
fn crlf_line_endings_are_handled() {
    let input = "@code|a|\r\n|b|\r\nrest";
    let expected = "<table><thead><tr><th></th><th>a</th><th></th></tr></thead><tr><td>b</td></tr></table>\nrest";
    assert_eq!(CodeTables::parse_chapter_contents(input), expected);
}

#[test]
fn table_at_end_of_input_is_consumed_whole() {
    // A table that runs to the end of the input is consumed in full: no
    // character of it is scanned again or echoed after the rendering.
    let input = "@code|a|\n|b|";
    let expected = "<table><thead><tr><th></th><th>a</th><th></th></tr></thead><tr><td>b</td></tr></table>";
    assert_eq!(CodeTables::parse_chapter_contents(input), expected);
}

#[test]
fn short_last_line_does_not_leave_the_cursor_mid_table() {
    // Three one-character rows: the scanner resumes at the line feed after
    // the last row, not at some separator inside the table.
    let input = "@code|\n|\n|\nx";
    let expected = "<table><thead><tr><th></th><th></th></tr></thead><tr></tr><tr></tr></table>\nx";
    assert_eq!(CodeTables::parse_chapter_contents(input), expected);
}

#[test]
fn two_tables_in_one_body() {
    let input = "x @code|a|\n\ny @code|b|\nz";
    let expected = "x <table><thead><tr><th></th><th>a</th><th></th></tr></thead></table>\n\ny <table><thead><tr><th></th><th>b</th><th></th></tr></thead></table>\nz";
    assert_eq!(CodeTables::parse_chapter_contents(input), expected);
}

#[test]
fn later_marker_on_a_pipe_line_is_swallowed_by_the_table() {
    // Table lines accumulate as long as each line contains a pipe, so a
    // second marker standing on such a line becomes plain cell text.
    let input = "x @code|a|\ny @code|b|\nz";
    let expected = "x <table><thead><tr><th></th><th>a</th><th></th></tr></thead><tr><td>y @code</td><td>b</td></tr></table>\nz";
    assert_eq!(CodeTables::parse_chapter_contents(input), expected);
}

#[test]
fn adversarial_marker_run_terminates_within_the_cap() {
    // 2500 back-to-back markers: the scanner's iteration ceiling is 2048, so
    // it drops 2048 of them and returns the rest untouched.
    let input = "@code".repeat(2500);
    let out = CodeTables::parse_chapter_contents(&input);
    assert_eq!(out, "@code".repeat(452));
}
