use mdmath_lsp::markdown::extract_statements;

#[test]
fn extracts_only_lines_after_marker() {
    let text = "before\nmath:\na := 1\nb := a + 2\n";
    let statements = extract_statements(text);

    assert_eq!(statements.len(), 2);
    assert_eq!(statements[0].text, "a := 1");
    assert_eq!(statements[1].text, "b := a + 2");
}

#[test]
fn supports_expression_on_marker_line() {
    let text = "math: 2 + 2\n3 + 3";
    let statements = extract_statements(text);

    assert_eq!(statements.len(), 2);
    assert_eq!(statements[0].text, "2 + 2");
    assert_eq!(statements[1].text, "3 + 3");
}

#[test]
fn requires_marker_at_start_of_line() {
    let text = "  math:\na := 1\nmath:\nb := 2\n";
    let statements = extract_statements(text);

    assert_eq!(statements.len(), 1);
    assert_eq!(statements[0].text, "b := 2");
}

#[test]
fn collects_column_list_blocks() {
    let text = "math:\nfigures:\n12\n18\n9\n21\n\nsum(figures)\n";
    let statements = extract_statements(text);

    assert_eq!(statements.len(), 2);
    assert_eq!(statements[0].text, "figures := [12, 18, 9, 21]");
    assert_eq!(statements[1].text, "sum(figures)");
}

#[test]
fn list_blocks_can_end_at_end_of_file() {
    let text = "math:\nfigures:\n12\n18";
    let statements = extract_statements(text);

    assert_eq!(statements.len(), 1);
    assert_eq!(statements[0].text, "figures := [12, 18]");
}

#[test]
fn collects_markdown_bullet_list_blocks() {
    let text = "math:\nfigures:\n- 12\n- 18\n* 9\n* 21\n\nsum(figures)\n";
    let statements = extract_statements(text);

    assert_eq!(statements.len(), 2);
    assert_eq!(statements[0].text, "figures := [12, 18, 9, 21]");
    assert_eq!(statements[1].text, "sum(figures)");
}

#[test]
fn list_blocks_stop_at_blank_line() {
    let text = "math:\nprices:\n98.99\n17.09\n\n11.55\nsum(prices)\n";
    let statements = extract_statements(text);

    assert_eq!(statements.len(), 3);
    assert_eq!(statements[0].text, "prices := [98.99, 17.09]");
    assert_eq!(statements[1].text, "11.55");
    assert_eq!(statements[2].text, "sum(prices)");
}

#[test]
fn list_blocks_accept_expression_items() {
    let text = "math:\nprices:\n10\n5 * 3\n2 + 8\n";
    let statements = extract_statements(text);

    assert_eq!(statements.len(), 1);
    assert_eq!(statements[0].text, "prices := [10, 5 * 3, 2 + 8]");
}

fn texts(text: &str) -> Vec<String> {
    extract_statements(text).into_iter().map(|s| s.text).collect()
}

#[test]
fn sheet_marker_opens_a_mode_for_plain_statements() {
    assert_eq!(texts("sheet:\na := 10\n"), vec!["a := 10"]);
    assert_eq!(texts("sheet: 1 + 1\n2 + 2"), vec!["2 + 2"]);
}

#[test]
fn closing_line_ends_the_mode() {
    assert_eq!(texts("math:\na := 1\n/math\nb + 1"), vec!["a := 1"]);
    assert_eq!(texts("math:\na := 1\n  /sheet  \nb + 1\nmath:\nc"), vec!["a := 1", "c"]);
}

#[test]
fn fenced_code_blocks_are_skipped() {
    let text = "math:\na := 10\n```python\nthis is ignored\n```\na + 1";
    assert_eq!(texts(text), vec!["a := 10", "a + 1"]);
    assert_eq!(texts("```\nmath:\n1 + 1\n```\n2 + 2"), Vec::<String>::new());
}

#[test]
fn inline_code_and_appended_results_are_left_out() {
    assert_eq!(texts("math:\na := 10 `comment`\na + 1\n`sum(prices)`"), vec!["a := 10", "a + 1"]);
    assert_eq!(texts("math:\n2 + 2 = 4\nx := 3 = 3\n56 * 88 ="), vec!["2 + 2", "x := 3", "56 * 88 ="]);
    assert_eq!(texts("math: 2 + 2 = 4"), vec!["2 + 2"]);
}

#[test]
fn cut_statement_spans_end_at_the_kept_text() {
    let statements = extract_statements("math:\n2 + 2 = 4");
    assert_eq!(statements[0].source_span.start, 6);
    assert_eq!(statements[0].source_span.end, 11);
    assert_eq!(statements[0].insert_span.start, 11);
}

#[test]
fn sheet_table_rows_are_left_out() {
    let text = "sheet:\n| Item | Price |\n| ---- | ----- |\n| iPad | 999 |\n\nsum(1, 2)\n";
    assert_eq!(texts(text), vec!["sum(1, 2)"]);
    assert_eq!(texts("math:\n| a |\nsheet:\n  | b |\nmath:\n| c |"), vec!["| a |", "| c |"]);
}
