use mdmath_lsp::analysis::{analyze, hint_label, hover_text};
use mdmath_lsp::eval::{
    aggregate_numbers, convert_quantity, eval_statement, median, plan_call, sort_numbers,
    Arithmetic, CallPlan, NumberFn, Value,
};
use mdmath_lsp::format::{format_list, format_number, format_value, trim_decimal_text};
use mdmath_lsp::scope::find_binding;
use mdmath_lsp::lexer::{lex, LangError, TokenKind};
use mdmath_lsp::markdown::extract_statements;
use mdmath_lsp::parser::parse_statement;
use mdmath_lsp::requests::{code_actions, hover_at, inlay_hints, ActionKind};
use mdmath_lsp::syntax::{BinaryOp, Stmt};
use mdmath_lsp::text::{
    apply_content_changes, offset_to_position, position_to_offset, range_overlaps, span_to_range,
    ContentChange, Position, Range, Span,
};
use mdmath_lsp::units::{check_conversion, unit_definition, Dimension};

/// Hardware `f64` arithmetic.
struct F64;

impl Arithmetic for F64 {
    type Num = f64;

    fn literal(&self, text: &str) -> f64 {
        text.parse().unwrap_or(f64::NAN)
    }

    fn from_count(&self, count: usize) -> f64 {
        count as f64
    }

    fn negate(&self, value: f64) -> f64 {
        -value
    }

    fn apply(&self, op: BinaryOp, left: f64, right: f64) -> f64 {
        match op {
            BinaryOp::Add => left + right,
            BinaryOp::Sub => left - right,
            BinaryOp::Mul => left * right,
            BinaryOp::Div => left / right,
            BinaryOp::Pow => left.powf(right),
        }
    }

    fn is_zero(&self, value: f64) -> bool {
        value == 0.0
    }

    fn apply_fn(&self, f: NumberFn, value: f64) -> f64 {
        match f {
            NumberFn::Abs => value.abs(),
            NumberFn::Floor => value.floor(),
            NumberFn::Ceil => value.ceil(),
            NumberFn::Sqrt => value.sqrt(),
            NumberFn::Round => value.round(),
        }
    }

    fn smaller(&self, left: f64, right: f64) -> f64 {
        left.min(right)
    }

    fn larger(&self, left: f64, right: f64) -> f64 {
        left.max(right)
    }

    fn sum(&self, values: &Vec<f64>) -> f64 {
        values.iter().sum()
    }

    fn product(&self, values: &Vec<f64>) -> f64 {
        values.iter().product()
    }

    fn precedes(&self, left: f64, right: f64) -> bool {
        left.total_cmp(&right).is_lt()
    }

    fn format_fixed(&self, value: f64) -> String {
        let value = if value.abs() < 1e-10 { 0.0 } else { value };
        format!("{value:.10}")
    }
}

fn eval(source: &str) -> Result<Value<f64>, LangError> {
    let stmt = parse_statement(source)?;
    eval_statement(&stmt, &F64)
}

fn error_of(source: &str) -> String {
    match eval(source) {
        Ok(value) => panic!("expected an error, got {value:?}"),
        Err(error) => error.message,
    }
}

fn parse_error(source: &str) -> (Span, String) {
    match parse_statement(source) {
        Ok(statement) => panic!("expected a parse error, got {statement:?}"),
        Err(error) => (error.span, error.message),
    }
}

fn labels(text: &str) -> Vec<String> {
    analyze(text, &F64)
        .statements
        .iter()
        .filter_map(|statement| statement.hint_label.clone())
        .collect()
}

#[test]
fn span_cover_and_contains() {
    let a = Span::new(3, 5);
    let b = Span::new(8, 9);
    assert_eq!(a.cover(b), Span::new(3, 9));
    assert_eq!(b.cover(a), a.cover(b));
    assert!(a.contains(3) && a.contains(5));
    assert!(!a.contains(6));
    assert!(a.cover(b).contains(7));
}

#[test]
fn marker_statement_spans() {
    let statements = extract_statements("intro\nmath:  2 + 2\n3 + 3");
    assert_eq!(statements.len(), 2);
    assert_eq!(statements[0].source_span, Span::new(13, 18));
    assert_eq!(statements[0].display_span, Span::new(6, 18));
    assert_eq!(statements[0].insert_span, Span::new(18, 18));
    assert_eq!(statements[1].source_span, Span::new(19, 24));
    assert_eq!(statements[1].display_span, Span::new(19, 24));
}

#[test]
fn list_statement_spans() {
    let text = "math:\n  prices:\n- 1\n- 2\n\nsum(prices)";
    let statements = extract_statements(text);
    assert_eq!(statements.len(), 2);
    assert_eq!(statements[0].text, "prices := [1, 2]");
    assert_eq!(statements[0].source_span, Span::new(8, 23));
    assert_eq!(statements[0].insert_span, Span::new(23, 23));
    assert_eq!(&text[statements[1].source_span.start..statements[1].source_span.end], "sum(prices)");
}

#[test]
fn carriage_returns_and_unicode_white_space_are_trimmed() {
    let statements = extract_statements("math:\r\n\u{a0}a := 1\r\n\u{3000}\r\nb := 2");
    assert_eq!(statements.len(), 2);
    assert_eq!(statements[0].text, "a := 1");
    assert_eq!(statements[0].source_span, Span::new(9, 15));
    assert_eq!(statements[1].text, "b := 2");
}

#[test]
fn list_header_on_last_line_is_a_plain_statement() {
    let statements = extract_statements("math:\nfigures:");
    assert_eq!(statements.len(), 1);
    assert_eq!(statements[0].text, "figures:");
}

#[test]
fn text_without_marker_has_no_statements() {
    assert!(extract_statements("a := 1\n  math:\nb := 2\n").is_empty());
    assert!(extract_statements("").is_empty());
}

#[test]
fn empty_list_block() {
    let statements = extract_statements("math:\nempty:\n\n1");
    assert_eq!(statements.len(), 2);
    assert_eq!(statements[0].text, "empty := []");
    assert_eq!(statements[1].text, "1");
}

#[test]
fn lexer_reports_invalid_number_and_characters() {
    let error = lex(".").unwrap_err();
    assert_eq!(error.message, "invalid number `.`");
    assert_eq!(error.span, Span::new(0, 1));
    let error = lex("a = 1").unwrap_err();
    assert_eq!(error.message, "unexpected character `=`");
    assert_eq!(error.span, Span::new(2, 3));
    let error = lex("1 : 2").unwrap_err();
    assert_eq!(error.message, "unexpected character `:`");
}

#[test]
fn lexer_tokens_and_spans() {
    let tokens = lex("x1 := .5 -> ft").unwrap();
    assert_eq!(tokens.len(), 5);
    assert!(matches!(&tokens[0].kind, TokenKind::Ident(name) if name == "x1"));
    assert!(matches!(tokens[1].kind, TokenKind::Assign));
    assert!(matches!(&tokens[2].kind, TokenKind::Number(text) if text == ".5"));
    assert!(matches!(tokens[3].kind, TokenKind::Arrow));
    assert_eq!(tokens[4].span, Span::new(12, 14));
    let tokens = lex("1.2.3").unwrap();
    assert_eq!(tokens.len(), 2);
    assert!(matches!(&tokens[1].kind, TokenKind::Number(text) if text == ".3"));
}

#[test]
fn parser_reports_each_error() {
    assert_eq!(parse_error("(1 + 2"), (Span::new(0, 1), "expected `)`".to_string()));
    assert_eq!(parse_error("(1 + 2]"), (Span::new(6, 7), "expected `)`".to_string()));
    assert_eq!(parse_error("[1, 2"), (Span::new(0, 1), "expected `]`".to_string()));
    assert_eq!(parse_error("*"), (Span::new(0, 1), "expected expression".to_string()));
    assert_eq!(parse_error(""), (Span::new(0, 0), "unexpected end of input".to_string()));
    assert_eq!(parse_error("5 ft ->"), (Span::new(0, 4), "expected target unit after `->`".to_string()));
    assert_eq!(parse_error("5 ft -> 3"), (Span::new(8, 9), "expected target unit after `->`".to_string()));
    assert_eq!(parse_error("1 2"), (Span::new(2, 3), "unexpected trailing input".to_string()));
    assert_eq!(parse_error("f(1,"), (Span::new(0, 0), "unexpected end of input".to_string()));
}

#[test]
fn parser_builds_spans_and_shapes() {
    let statement = parse_statement("total := 2 * (3 + 4) km").unwrap();
    assert_eq!(statement.span(), Span::new(0, 23));
    assert!(matches!(statement, Stmt::Assign { ref name, .. } if name == "total"));
    let statement = parse_statement("-2 ^ 2").unwrap();
    assert_eq!(statement.span(), Span::new(0, 6));
}

#[test]
fn evaluation_errors() {
    assert_eq!(error_of("[1, 2] + 1"), "expected number, found list");
    assert_eq!(error_of("round()"), "`round` expects one or two arguments");
    assert_eq!(error_of("sum()"), "expected at least one argument");
    assert_eq!(error_of("avg([])"), "`avg` requires a non-empty list");
    assert_eq!(error_of("min([])"), "`min` requires a non-empty list");
    assert_eq!(error_of("max([])"), "`max` requires a non-empty list");
    assert_eq!(error_of("median([])"), "`median` requires a non-empty list");
    assert_eq!(error_of("len(3)"), "expected list argument");
    assert_eq!(error_of("sqrt(1, 2)"), "`sqrt` expects exactly one argument");
    assert_eq!(error_of("5 -> m"), "expected a quantity for unit conversion");
    assert_eq!(error_of("5 furlongs"), "unknown unit `furlongs`");
    assert_eq!(error_of("x + 1"), "unknown variable `x`");
    assert_eq!(error_of("2 h -> C"), "incompatible conversion from `h` to `C`");
}

#[test]
fn evaluation_values() {
    assert_eq!(eval("2 ^ 3 ^ 2").unwrap(), Value::Number(512.0));
    assert_eq!(eval("10 - 4 - 3").unwrap(), Value::Number(3.0));
    assert_eq!(eval("round(2.5)").unwrap(), Value::Number(3.0));
    assert_eq!(eval("median([4, 1, 3, 2])").unwrap(), Value::Number(2.5));
    assert_eq!(eval("count([])").unwrap(), Value::Number(0.0));
    assert_eq!(eval("[]").unwrap(), Value::List(vec![]));
    assert_eq!(labels("math:\n100 C -> F\n72 in -> cm"), vec!["= 212 F", "= 182.88 cm"]);
    assert_eq!(
        eval("2 h -> min").unwrap(),
        Value::Quantity {
            value: 120.0,
            unit: "min".to_string()
        }
    );
}

#[test]
fn quantities_are_not_numbers() {
    let analysis = analyze("math:\nd := 5 ft\nd + 1\nd -> m", &F64);
    assert_eq!(analysis.diagnostics.len(), 1);
    assert_eq!(analysis.diagnostics[0].message, "expected number, found quantity");
    assert_eq!(
        analysis.statements[2].hint_label,
        Some("= 1.524 m".to_string())
    );
}

#[test]
fn number_texts_are_trimmed() {
    assert_eq!(trim_decimal_text("12.5000000000"), "12.5");
    assert_eq!(trim_decimal_text("3.0000000000"), "3");
    assert_eq!(trim_decimal_text("100"), "100");
    assert_eq!(trim_decimal_text("5."), "5");
    assert_eq!(trim_decimal_text("0.0000000000"), "0");
}

#[test]
fn lists_and_labels_are_formatted() {
    assert_eq!(format_list(&vec!["1".to_string(), "2.5".to_string()]), "[1, 2.5]");
    assert_eq!(format_list(&vec![]), "[]");
    let assignment = parse_statement("a := 10").unwrap();
    let expression = parse_statement("a + 1").unwrap();
    assert_eq!(hint_label(&assignment, "10"), "a = 10");
    assert_eq!(hint_label(&expression, "11"), "= 11");
    assert_eq!(
        hover_text("  a := 10 ", &assignment, "10"),
        "Expression: `a := 10`\n\nResult: `a = 10`"
    );
    assert_eq!(
        hover_text("a + 1", &expression, "11"),
        "Expression: `a + 1`\n\nResult: `11`"
    );
}

#[test]
fn calls_are_planned_before_evaluation() {
    assert_eq!(plan_call("sum", 2), Ok(CallPlan::Sum));
    assert_eq!(plan_call("round", 2), Ok(CallPlan::Round));
    assert_eq!(plan_call("abs", 1), Ok(CallPlan::Unary(NumberFn::Abs)));
    assert_eq!(plan_call("len", 0), Err("`len` expects exactly one argument".to_string()));
    assert_eq!(plan_call("nope", 1), Err("unknown function `nope`".to_string()));
}

#[test]
fn units_and_conversions() {
    let foot = unit_definition("ft").unwrap();
    assert_eq!(foot.dimension, Dimension::Length);
    assert!(unit_definition("parsec").is_none());
    assert!(check_conversion("kg", "lb").is_ok());
    assert_eq!(
        check_conversion("kg", "m").unwrap_err(),
        "incompatible conversion from `kg` to `m`"
    );
    assert_eq!(check_conversion("x", "m").unwrap_err(), "unknown unit `x`");
    assert_eq!(check_conversion("m", "y").unwrap_err(), "unknown unit `y`");
}

#[test]
fn variables_refer_to_last_earlier_or_first_later_assignment() {
    let parsed = vec![
        Some(parse_statement("a := 1").unwrap()),
        Some(parse_statement("b := a").unwrap()),
        Some(parse_statement("a := 2").unwrap()),
        None,
    ];
    assert_eq!(find_binding(&parsed, "a", 1), Some(0));
    assert_eq!(find_binding(&parsed, "a", 3), Some(2));
    assert_eq!(find_binding(&parsed, "b", 0), Some(1));
    assert_eq!(find_binding(&parsed, "c", 3), None);
    assert_eq!(labels("math:\nb := a\na := 3"), vec!["b = 3", "a = 3"]);
    assert_eq!(labels("math:\na := 1\na + 1\na := 5\na"), vec!["a = 1", "= 2", "a = 5", "= 5"]);
}

#[test]
fn analysis_places_diagnostics_and_finds_statements() {
    let analysis = analyze("math:\n1 / 0\nx := 2 +", &F64);
    assert_eq!(analysis.diagnostics.len(), 2);
    assert_eq!(analysis.diagnostics[0].message, "unexpected end of input");
    assert_eq!(analysis.diagnostics[1].message, "divide by zero");
    assert_eq!(analysis.diagnostics[1].span, Span::new(10, 11));
    let analysis = analyze("text\nmath:\na := 10\na * 2", &F64);
    let statement = analysis.statement_at_offset(14).unwrap();
    assert_eq!(statement.replacement_text(), Some("10".to_string()));
    assert_eq!(statement.hint_label(), Some("a = 10".to_string()));
    assert_eq!(statement.source_span(), Span::new(11, 18));
    assert!(analysis.statement_at_offset(2).is_none());
    assert_eq!(analysis.statements().len(), 2);
    assert_eq!(
        analysis.statements()[1].hover_text(),
        Some("Expression: `a * 2`\n\nResult: `20`".to_string())
    );
}

#[test]
fn statements_are_evaluated_once_and_cycles_reported_where_used() {
    let analysis = analyze("math:\na := a + 1", &F64);
    assert_eq!(analysis.diagnostics.len(), 1);
    assert_eq!(analysis.diagnostics[0].message, "circular reference detected");
    assert_eq!(analysis.diagnostics[0].span, Span::new(11, 12));
}

#[test]
fn positions_and_offsets() {
    let text = "ab\nc😸d\n";
    assert_eq!(offset_to_position(text, 0), Position { line: 0, character: 0 });
    assert_eq!(offset_to_position(text, 3), Position { line: 1, character: 0 });
    assert_eq!(offset_to_position(text, 8), Position { line: 1, character: 3 });
    assert_eq!(offset_to_position(text, 100), Position { line: 2, character: 0 });
    assert_eq!(position_to_offset(text, Position { line: 1, character: 3 }), 8);
    assert_eq!(position_to_offset(text, Position { line: 1, character: 2 }), 4);
    assert_eq!(position_to_offset(text, Position { line: 0, character: 9 }), 2);
    assert_eq!(position_to_offset(text, Position { line: 7, character: 0 }), text.len());
    for offset in [0, 1, 2, 3, 4, 8, 9, 10] {
        assert_eq!(position_to_offset(text, offset_to_position(text, offset)), offset);
    }
    let range = span_to_range(text, Span::new(1, 4));
    assert_eq!(range.start, Position { line: 0, character: 1 });
    assert_eq!(range.end, Position { line: 1, character: 1 });
}

#[test]
fn ranges_overlap_when_they_share_a_position() {
    let p = |line, character| Position { line, character };
    let a = Range { start: p(0, 0), end: p(1, 2) };
    let b = Range { start: p(1, 2), end: p(3, 0) };
    let c = Range { start: p(1, 3), end: p(3, 0) };
    assert!(range_overlaps(&a, &b));
    assert!(range_overlaps(&b, &a));
    assert!(!range_overlaps(&a, &c));
}

#[test]
fn content_changes_replace_whole_text_or_ranges_in_order() {
    let p = |line, character| Position { line, character };
    let changed = apply_content_changes(
        "one\ntwo".to_string(),
        vec![
            ContentChange { range: None, text: "abc\ndef".to_string() },
            ContentChange { range: Some(Range { start: p(1, 0), end: p(1, 1) }), text: "X".to_string() },
            ContentChange { range: Some(Range { start: p(0, 2), end: p(0, 1) }), text: "ignored".to_string() },
            ContentChange { range: Some(Range { start: p(0, 3), end: p(0, 3) }), text: "!".to_string() },
        ],
    );
    assert_eq!(changed, "abc!\nXef");
}

fn pos(line: u32, character: u32) -> Position {
    Position { line, character }
}

fn whole_document() -> Range {
    Range {
        start: pos(0, 0),
        end: pos(100, 0),
    }
}

#[test]
fn hover_shows_the_statement_under_the_cursor() {
    let text = "math:\nx := 2 + 3\n  x * 2\n";
    let analysis = analyze(text, &F64);
    let reply = hover_at(text, &analysis, pos(2, 4)).unwrap();
    assert_eq!(reply.contents, "Expression: `x * 2`\n\nResult: `10`");
    assert_eq!(
        reply.range,
        Range {
            start: pos(2, 2),
            end: pos(2, 7)
        }
    );
    let first = hover_at(text, &analysis, pos(1, 0)).unwrap();
    assert_eq!(first.contents, "Expression: `x := 2 + 3`\n\nResult: `x = 5`");
    assert!(hover_at(text, &analysis, pos(0, 2)).is_none());
    assert!(hover_at(text, &analysis, pos(2, 0)).is_none());
}

#[test]
fn hover_of_a_failed_statement_is_empty() {
    let text = "math:\n1 / 0\n";
    let analysis = analyze(text, &F64);
    assert!(hover_at(text, &analysis, pos(1, 1)).is_none());
}

#[test]
fn inlay_hints_follow_evaluated_statements_in_range() {
    let text = "math:\nx := 2\nnope(1)\nx + 1\n";
    let analysis = analyze(text, &F64);
    let hints = inlay_hints(text, &analysis, whole_document());
    assert_eq!(hints.len(), 2);
    assert_eq!(hints[0].position, pos(1, 6));
    assert_eq!(hints[0].label, " x = 2");
    assert_eq!(
        hints[0].tooltip.as_deref(),
        Some("Expression: `x := 2`\n\nResult: `x = 2`")
    );
    assert_eq!(hints[1].position, pos(3, 5));
    assert_eq!(hints[1].label, " = 3");

    let only_last = Range {
        start: pos(3, 0),
        end: pos(3, 0),
    };
    let hints = inlay_hints(text, &analysis, only_last);
    assert_eq!(hints.len(), 1);
    assert_eq!(hints[0].label, " = 3");
}

#[test]
fn code_actions_replace_or_append_the_result() {
    let text = "math: 2 * 21\n";
    let analysis = analyze(text, &F64);
    let actions = code_actions(text, &analysis, whole_document());
    assert_eq!(actions.len(), 2);
    assert_eq!(actions[0].title, "Replace with 42");
    assert_eq!(actions[0].kind, ActionKind::Rewrite);
    assert_eq!(
        actions[0].range,
        Range {
            start: pos(0, 6),
            end: pos(0, 12)
        }
    );
    assert_eq!(actions[0].new_text, "42");
    assert_eq!(actions[1].title, "Insert evaluated result (= 42)");
    assert_eq!(actions[1].kind, ActionKind::QuickFix);
    assert_eq!(
        actions[1].range,
        Range {
            start: pos(0, 12),
            end: pos(0, 12)
        }
    );
    assert_eq!(actions[1].new_text, " = 42");

    let elsewhere = Range {
        start: pos(1, 0),
        end: pos(1, 0),
    };
    assert!(code_actions(text, &analysis, elsewhere).is_empty());
    let failing = "math: 1 / 0\n";
    let analysis = analyze(failing, &F64);
    assert!(code_actions(failing, &analysis, whole_document()).is_empty());
}

#[test]
fn numbers_sort_in_increasing_order_for_the_median() {
    assert_eq!(
        sort_numbers(&F64, &vec![3.0, -1.0, 2.0, 2.0, 0.5]),
        vec![-1.0, 0.5, 2.0, 2.0, 3.0]
    );
    assert!(sort_numbers(&F64, &Vec::new()).is_empty());
    assert_eq!(median(&F64, &vec![1.0, 9.0, 3.0]), 3.0);
    assert_eq!(median(&F64, &vec![4.0, 1.0, 3.0, 2.0]), 2.5);
    assert_eq!(median(&F64, &vec![7.0]), 7.0);
}

#[test]
fn errors_of_earlier_statements_are_reported_where_they_are_used() {
    let text = "math:\na := 1 / 0\nb := a + 1\nc := b * 2\n";
    let analysis = analyze(text, &F64);
    assert_eq!(analysis.diagnostics.len(), 3);
    assert_eq!(analysis.diagnostics[0].message, "divide by zero");
    assert_eq!(analysis.diagnostics[0].span, Span::new(15, 16));
    assert_eq!(analysis.diagnostics[1].message, "divide by zero");
    assert_eq!(analysis.diagnostics[1].span, Span::new(22, 23));
    assert_eq!(analysis.diagnostics[2].message, "divide by zero");
    assert_eq!(analysis.diagnostics[2].span, Span::new(33, 34));
    assert!(analysis.statements().iter().all(|s| s.hint_label().is_none()));
}

#[test]
fn values_of_earlier_statements_flow_in_document_order() {
    let text = "math:\nsubtotal := 100\ntax := subtotal * 0.07\nsubtotal + tax\n";
    let labels: Vec<String> = analyze(text, &F64)
        .statements()
        .iter()
        .map(|s| s.hint_label().unwrap())
        .collect();
    assert_eq!(labels, vec!["subtotal = 100", "tax = 7", "= 107"]);
}

#[test]
fn sheet_mode_evaluates_plain_statements() {
    assert_eq!(labels("sheet:\na := 10\na * 2"), vec!["a = 10", "= 20"]);
}

#[test]
fn appended_results_are_ignored() {
    let analysis = analyze("math:\n2 + 2 = 4", &F64);
    assert!(analysis.diagnostics.is_empty());
    assert_eq!(labels("math:\n2 + 2 = 4"), vec!["= 4"]);
    assert_eq!(labels("math:\nsubtotal := 100\nsubtotal + 7 = 107"), vec!["subtotal = 100", "= 107"]);
}

#[test]
fn inline_code_is_escaped_from_evaluation() {
    let analysis = analyze("math:\na := 10 `comment`\na + 1", &F64);
    assert!(analysis.diagnostics.is_empty());
    assert_eq!(labels("math:\na := 10 `comment`\na + 1"), vec!["a = 10", "= 11"]);
}

#[test]
fn closing_line_and_fences_end_evaluation() {
    assert_eq!(labels("math:\na := 1\n/math\na + 1"), vec!["a = 1"]);
    assert_eq!(labels("math:\na := 10\n```python\nthis is ignored\n```\na + 1"), vec!["a = 10", "= 11"]);
}

#[test]
fn aggregate_numbers_follow_their_plan() {
    let values = vec![3.0, 1.0, 2.0];
    assert_eq!(aggregate_numbers(&F64, CallPlan::Sum, "sum", Span::new(0, 3), &values).unwrap(), 6.0);
    assert_eq!(aggregate_numbers(&F64, CallPlan::Avg, "avg", Span::new(0, 3), &values).unwrap(), 2.0);
    assert_eq!(aggregate_numbers(&F64, CallPlan::Min, "min", Span::new(0, 3), &values).unwrap(), 1.0);
    assert_eq!(aggregate_numbers(&F64, CallPlan::Max, "max", Span::new(0, 3), &values).unwrap(), 3.0);
    assert_eq!(aggregate_numbers(&F64, CallPlan::Count, "count", Span::new(0, 3), &values).unwrap(), 3.0);
    assert_eq!(aggregate_numbers(&F64, CallPlan::Product, "product", Span::new(0, 3), &values).unwrap(), 6.0);
    assert_eq!(aggregate_numbers(&F64, CallPlan::Median, "median", Span::new(0, 3), &values).unwrap(), 2.0);
    let empty: Vec<f64> = Vec::new();
    let error = aggregate_numbers(&F64, CallPlan::Avg, "avg", Span::new(4, 9), &empty).unwrap_err();
    assert_eq!(error.message, "`avg` requires a non-empty list");
    assert_eq!((error.span.start, error.span.end), (4, 9));
    assert_eq!(aggregate_numbers(&F64, CallPlan::Sum, "sum", Span::new(0, 0), &empty).unwrap(), 0.0);
}

#[test]
fn conversions_scale_through_the_base_unit_or_kelvin() {
    assert!((convert_quantity(&F64, 5.0, "ft", "m").unwrap() - 1.524).abs() < 1e-9);
    assert!((convert_quantity(&F64, 32.0, "F", "C").unwrap()).abs() < 1e-9);
    assert!((convert_quantity(&F64, 100.0, "C", "F").unwrap() - 212.0).abs() < 1e-9);
    assert_eq!(convert_quantity(&F64, 1.0, "ft", "kg").unwrap_err(), "incompatible conversion from `ft` to `kg`");
}

#[test]
fn formatted_values_trim_trailing_zeros() {
    assert_eq!(format_number(&F64, 2.5), "2.5");
    assert_eq!(format_number(&F64, 40.0 / 3.0), "13.3333333333");
    assert_eq!(format_value(&F64, &Value::List(vec![1.0, 2.5])), "[1, 2.5]");
    assert_eq!(format_value(&F64, &Value::Quantity { value: 1.524, unit: "m".to_string() }), "1.524 m");
}

#[test]
fn self_reference_is_circular() {
    let messages: Vec<String> = analyze("math:\na := a + 1", &F64).diagnostics.into_iter().map(|d| d.message).collect();
    assert_eq!(messages, vec!["circular reference detected"]);
}

#[test]
fn two_statement_cycle_reports_both_statements() {
    let messages: Vec<String> = analyze("math:\na := b + 1\nb := a + 1", &F64)
        .diagnostics
        .into_iter()
        .map(|d| d.message)
        .collect();
    assert_eq!(messages, vec!["circular reference detected", "circular reference detected"]);
    assert!(labels("math:\na := b + 1\nb := a + 1").is_empty());
}

#[test]
fn statements_show_values_computed_from_earlier_results() {
    assert_eq!(labels("math:\nb := a * 2\na := 3\nb + a"), vec!["b = 6", "a = 3", "= 9"]);
    let analysis = analyze("math:\nnums := [1, 2]\nsum(nums)", &F64);
    let replacements: Vec<Option<String>> = analysis.statements.iter().map(|s| s.replacement_text.clone()).collect();
    assert_eq!(replacements, vec![Some("[1, 2]".to_string()), Some("3".to_string())]);
}

#[test]
fn sheet_tables_report_nothing() {
    let text = "sheet:\na := 10\n\n| Item | Price |\n| ---- | ----- |\n| iPad | 999 |\n\na * 2";
    assert!(analyze(text, &F64).diagnostics.is_empty());
    assert_eq!(labels(text), vec!["a = 10", "= 20"]);
}

#[test]
fn later_bindings_and_divisions_give_values() {
    assert_eq!(labels("math:\nb := a * 2\na := 3"), vec!["b = 6", "a = 3"]);
    assert_eq!(labels("math:\nx := 10 / 2\ny := x + 1"), vec!["x = 5", "y = 6"]);
    assert_eq!(labels("math:\na := 1\na + 0\na := 5\na + 0"), vec!["a = 1", "= 1", "a = 5", "= 5"]);
}
