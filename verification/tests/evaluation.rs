use mdmath_lsp::analysis::analyze;
use mdmath_lsp::eval::{eval_statement, Arithmetic, NumberFn, Value};
use mdmath_lsp::lexer::LangError;
use mdmath_lsp::parser::parse_statement;
use mdmath_lsp::syntax::{BinaryOp, Stmt};

/// Hardware `f64` arithmetic.
struct F64;

impl Arithmetic for F64 {
    type Num = f64;

    fn literal(&self, text: &str) -> f64 {
        text.parse().unwrap_or(f64::NAN)
    }

    fn from_count(&self, count: usize) -> f64 {
        count as f64
    }

    fn negate(&self, value: f64) -> f64 {
        -value
    }

    fn apply(&self, op: BinaryOp, left: f64, right: f64) -> f64 {
        match op {
            BinaryOp::Add => left + right,
            BinaryOp::Sub => left - right,
            BinaryOp::Mul => left * right,
            BinaryOp::Div => left / right,
            BinaryOp::Pow => left.powf(right),
        }
    }

    fn is_zero(&self, value: f64) -> bool {
        value == 0.0
    }

    fn apply_fn(&self, f: NumberFn, value: f64) -> f64 {
        match f {
            NumberFn::Abs => value.abs(),
            NumberFn::Floor => value.floor(),
            NumberFn::Ceil => value.ceil(),
            NumberFn::Sqrt => value.sqrt(),
            NumberFn::Round => value.round(),
        }
    }

    fn smaller(&self, left: f64, right: f64) -> f64 {
        left.min(right)
    }

    fn larger(&self, left: f64, right: f64) -> f64 {
        left.max(right)
    }

    fn sum(&self, values: &Vec<f64>) -> f64 {
        values.iter().sum()
    }

    fn product(&self, values: &Vec<f64>) -> f64 {
        values.iter().product()
    }

    fn precedes(&self, left: f64, right: f64) -> bool {
        left.total_cmp(&right).is_lt()
    }

    fn format_fixed(&self, value: f64) -> String {
        let value = if value.abs() < 1e-10 { 0.0 } else { value };
        format!("{value:.10}")
    }
}

fn eval(source: &str) -> Result<Value<f64>, LangError> {
    let stmt = parse_statement(source)?;
    eval_statement(&stmt, &F64)
}

fn labels(text: &str) -> Vec<String> {
    analyze(text, &F64)
        .statements
        .iter()
        .filter_map(|statement| statement.hint_label.clone())
        .collect()
}

fn diagnostic_messages(text: &str) -> Vec<String> {
    analyze(text, &F64)
        .diagnostics
        .into_iter()
        .map(|diagnostic| diagnostic.message)
        .collect()
}

#[test]
fn parses_operator_precedence() {
    let value = eval("2 + 2 * 5").unwrap();
    assert_eq!(value, Value::Number(12.0));
}

#[test]
fn parses_unary_minus() {
    let value = eval("-2 + 5").unwrap();
    assert_eq!(value, Value::Number(3.0));
}

#[test]
fn parses_lists_and_functions() {
    let value = eval("sum([1, 2, 3])").unwrap();
    assert_eq!(value, Value::Number(6.0));
}

#[test]
fn supports_variadic_spreadsheet_style_functions() {
    assert_eq!(eval("sum(1999, 2)").unwrap(), Value::Number(2001.0));
    assert_eq!(eval("product(3, 4)").unwrap(), Value::Number(12.0));
    assert_eq!(eval("count(3, 4, 5)").unwrap(), Value::Number(3.0));
}

#[test]
fn evaluates_min_max_and_len() {
    assert_eq!(eval("min([3, 1, 2])").unwrap(), Value::Number(1.0));
    assert_eq!(eval("max([3, 1, 2])").unwrap(), Value::Number(3.0));
    assert_eq!(eval("len([3, 1, 2])").unwrap(), Value::Number(3.0));
}

#[test]
fn evaluates_additional_spreadsheet_functions() {
    assert_eq!(eval("median([1, 9, 3])").unwrap(), Value::Number(3.0));
    assert_eq!(eval("abs(-5)").unwrap(), Value::Number(5.0));
    assert_eq!(eval("round(3.14159, 2)").unwrap(), Value::Number(3.14));
    assert_eq!(eval("floor(3.9)").unwrap(), Value::Number(3.0));
    assert_eq!(eval("ceil(3.1)").unwrap(), Value::Number(4.0));
    assert_eq!(eval("sqrt(9)").unwrap(), Value::Number(3.0));
}

#[test]
fn parses_assignments_and_conversion() {
    assert!(matches!(
        parse_statement("a := 10"),
        Ok(Stmt::Assign { .. })
    ));
    assert!(matches!(
        parse_statement("5 ft -> m"),
        Ok(Stmt::Convert { .. })
    ));
}

#[test]
fn reports_divide_by_zero() {
    let error = eval("10 / 0").unwrap_err();
    assert_eq!(error.message, "divide by zero");
}

#[test]
fn converts_units() {
    let value = eval("32 F -> C").unwrap();
    assert_eq!(
        value,
        Value::Quantity {
            value: 0.0,
            unit: "C".to_string(),
        }
    );
}

#[test]
fn reports_unknown_function() {
    let error = eval("mystery([1, 2, 3])").unwrap_err();
    assert_eq!(error.message, "unknown function `mystery`");
}

#[test]
fn reports_wrong_argument_count() {
    let error = eval("len([1, 2], [3, 4])").unwrap_err();
    assert_eq!(error.message, "`len` expects exactly one argument");
}

#[test]
fn reports_unknown_unit() {
    let error = eval("5 parsecs -> m").unwrap_err();
    assert_eq!(error.message, "unknown unit `parsecs`");
}

#[test]
fn evaluates_arithmetic() {
    let labels = labels("math:\n2 + 2 * 5");
    assert_eq!(labels, vec!["= 12"]);
}

#[test]
fn evaluates_variables_in_document_order() {
    let labels = labels("math:\na := 10\nb := a * 2\na + b");
    assert_eq!(labels, vec!["a = 10", "b = 20", "= 30"]);
}

#[test]
fn evaluates_lists() {
    let labels = labels("math:\nnums := [1, 2, 3, 4]\nsum(nums)\navg(nums)");
    assert_eq!(labels, vec!["nums = [1, 2, 3, 4]", "= 10", "= 2.5"]);
}

#[test]
fn evaluates_conversion() {
    let labels = labels("math:\n5 ft -> m");
    assert_eq!(labels, vec!["= 1.524 m"]);
}

#[test]
fn reports_unknown_variable() {
    let analysis = analyze("math:\na + 1", &F64);
    assert_eq!(analysis.diagnostics[0].message, "unknown variable `a`");
}

#[test]
fn reports_bad_list_function_arguments() {
    let analysis = analyze("math:\nsum(3)", &F64);
    assert_eq!(analysis.diagnostics[0].message, "expected list argument");
}

#[test]
fn reports_incompatible_conversion() {
    let analysis = analyze("math:\n5 ft -> kg", &F64);
    assert_eq!(
        analysis.diagnostics[0].message,
        "incompatible conversion from `ft` to `kg`"
    );
}

#[test]
fn ignores_lines_before_marker() {
    let text = "plain text\nmore text\nmath:\na := 10\na + 1";
    let labels = labels(text);
    assert_eq!(labels, vec!["a = 10", "= 11"]);
}

#[test]
fn evaluates_column_lists() {
    let text = "math:\nfigures:\n12\n18\n9\n21\n\nsum(figures)\navg(figures)";
    let labels = labels(text);
    assert_eq!(labels, vec!["figures = [12, 18, 9, 21]", "= 60", "= 15"]);
}

#[test]
fn evaluates_markdown_bullet_lists() {
    let text = "math:\nfigures:\n- 12\n- 18\n- 9\n- 21\n\nsum(figures)\navg(figures)";
    let labels = labels(text);
    assert_eq!(labels, vec!["figures = [12, 18, 9, 21]", "= 60", "= 15"]);
}

#[test]
fn evaluates_expression_items_inside_column_lists() {
    let text = "math:\nbase := 10\nprices:\nbase\nbase * 2\n5 + 5\n\nsum(prices)\navg(prices)";
    let labels = labels(text);
    assert_eq!(
        labels,
        vec![
            "base = 10",
            "prices = [10, 20, 10]",
            "= 40",
            "= 13.3333333333"
        ]
    );
}

#[test]
fn evaluates_min_max_and_len_for_column_lists() {
    let text =
        "math:\nprices:\n- 98.99\n- 17.09\n- 11.55\n\nmin(prices)\nmax(prices)\nlen(prices)";
    let labels = labels(text);
    assert_eq!(
        labels,
        vec![
            "prices = [98.99, 17.09, 11.55]",
            "= 11.55",
            "= 98.99",
            "= 3"
        ]
    );
}

#[test]
fn blank_line_ends_column_list_before_following_expression() {
    let text = "math:\nprices:\n98.99\n17.09\n\n11.55\nsum(prices)";
    let labels = labels(text);
    assert_eq!(
        labels,
        vec!["prices = [98.99, 17.09]", "= 11.55", "= 116.08"]
    );
}

#[test]
fn reports_invalid_characters_in_column_list_items() {
    let messages = diagnostic_messages("math:\nprices:\n$98.99\n17.09\n\nsum(prices)");
    assert!(messages
        .iter()
        .any(|message| message.contains("unexpected character `$`")));
    assert!(messages
        .iter()
        .any(|message| message.contains("unknown variable `prices`")));
}

#[test]
fn cycles_are_flagged() {
    let analysis = analyze("math:\na := b + 1\nb := a + 1", &F64);
    assert!(analysis
        .diagnostics
        .iter()
        .any(|diagnostic| diagnostic.message.contains("circular reference")));
}
