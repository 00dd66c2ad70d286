use calculator::lexer::tokenize;
use calculator::plan::{parse_expr, precedence, EvalError, Op, Plan, Step};
use calculator::session::{command, Command};
use calculator::vars::Vars;

fn numeric_flags(tokens: &Vec<String>) -> Vec<bool> {
    tokens.iter().map(|t| t.parse::<f64>().is_ok()).collect()
}

fn plan_of(line: &str, vars: &Vars<f64>) -> (Vec<String>, Plan) {
    let tokens = tokenize(line);
    let numeric = numeric_flags(&tokens);
    let plan = parse_expr(&tokens, &numeric, vars);
    (tokens, plan)
}

fn run(tokens: &Vec<String>, steps: &Vec<Step>, vars: &Vars<f64>) -> Result<f64, EvalError> {
    let mut stack: Vec<f64> = Vec::new();
    for step in steps {
        match *step {
            Step::Literal(i) => stack.push(tokens[i].parse::<f64>().unwrap()),
            Step::Variable(i) => stack.push(*vars.get(&tokens[i]).unwrap()),
            Step::Apply(op) => {
                let b = stack.pop().unwrap();
                let a = stack.pop().unwrap();
                stack.push(match op {
                    Op::Add => a + b,
                    Op::Sub => a - b,
                    Op::Mul => a * b,
                    Op::Div => {
                        if b == 0.0 {
                            return Err(EvalError::DivisionByZero);
                        }
                        a / b
                    }
                });
            }
            Step::Fail(e) => return Err(e),
        }
    }
    Ok(stack.pop().unwrap())
}

fn eval_line(line: &str, vars: &mut Vars<f64>) -> Result<f64, EvalError> {
    let (tokens, plan) = plan_of(line, vars);
    let value = run(&tokens, &plan.steps, vars)?;
    if let Some(name) = plan.target {
        vars.set(name, value);
    }
    Ok(value)
}

fn strings(v: &[&str]) -> Vec<String> {
    v.iter().map(|s| s.to_string()).collect()
}

#[test]
fn tokenize_splits_assignment() {
    assert_eq!(tokenize("x=3+4"), strings(&["x", "=", "3", "+", "4"]));
}

#[test]
fn tokenize_splits_parentheses() {
    assert_eq!(tokenize("(1+2)*3"), strings(&["(", "1", "+", "2", ")", "*", "3"]));
}

#[test]
fn tokenize_empty_and_blank() {
    assert!(tokenize("").is_empty());
    assert!(tokenize(" \t\n").is_empty());
}

#[test]
fn tokenize_joins_run_across_whitespace() {
    assert_eq!(tokenize("2 3"), strings(&["23"]));
    assert_eq!(tokenize("ab c+d"), strings(&["abc", "+", "d"]));
}

#[test]
fn tokenize_skips_unicode_whitespace() {
    assert_eq!(tokenize("1\u{3000}+\u{a0}2"), strings(&["1", "+", "2"]));
    assert_eq!(tokenize("a\u{1f}b"), strings(&["a\u{1f}b"]));
}

#[test]
fn tokenize_is_pure_and_ignores_spacing() {
    assert_eq!(tokenize("2 + 3"), tokenize("2 + 3"));
    assert_eq!(tokenize("2 + 3"), tokenize("2+3"));
    let mut vars = Vars::new();
    assert_eq!(eval_line("2 + 3", &mut vars), Ok(5.0));
    assert_eq!(eval_line("2+3", &mut vars), Ok(5.0));
}

#[test]
fn precedence_table() {
    assert_eq!(precedence("+"), 1);
    assert_eq!(precedence("-"), 1);
    assert_eq!(precedence("*"), 2);
    assert_eq!(precedence("/"), 2);
    assert_eq!(precedence("("), 0);
    assert_eq!(precedence("x"), 0);
    assert_eq!(precedence("+-"), 0);
}

#[test]
fn multiplication_binds_tighter() {
    let vars = Vars::new();
    let (_, plan) = plan_of("2+3*4", &vars);
    assert_eq!(
        plan.steps,
        vec![Step::Literal(0), Step::Literal(2), Step::Literal(4), Step::Apply(Op::Mul), Step::Apply(Op::Add)]
    );
    let mut vars = Vars::new();
    assert_eq!(eval_line("2+3*4", &mut vars), Ok(14.0));
}

#[test]
fn parentheses_override_precedence() {
    let mut vars = Vars::new();
    assert_eq!(eval_line("(2+3)*4", &mut vars), Ok(20.0));
}

#[test]
fn equal_precedence_is_left_associative() {
    let mut vars = Vars::new();
    assert_eq!(eval_line("10-2-3", &mut vars), Ok(5.0));
    assert_eq!(eval_line("8/4/2", &mut vars), Ok(1.0));
}

#[test]
fn assignment_round_trip() {
    let mut vars = Vars::new();
    let (_, plan) = plan_of("x=5", &vars);
    assert_eq!(plan.target, Some("x".to_string()));
    assert_eq!(plan.steps, vec![Step::Literal(2)]);
    assert_eq!(eval_line("x=5", &mut vars), Ok(5.0));
    assert_eq!(vars.get(&"x".to_string()), Some(&5.0));
    assert_eq!(eval_line("x+1", &mut vars), Ok(6.0));
}

#[test]
fn assignment_overwrites() {
    let mut vars = Vars::new();
    assert_eq!(eval_line("x=5", &mut vars), Ok(5.0));
    assert_eq!(eval_line("x=x*2", &mut vars), Ok(10.0));
    assert_eq!(vars.len(), 1);
    assert_eq!(vars.get(&"x".to_string()), Some(&10.0));
}

#[test]
fn failed_assignment_leaves_vars_unchanged() {
    let mut vars = Vars::new();
    assert_eq!(eval_line("y=1/0", &mut vars), Err(EvalError::DivisionByZero));
    assert!(!vars.contains(&"y".to_string()));
    assert_eq!(eval_line("y+1", &mut vars), Err(EvalError::InvalidToken));
}

#[test]
fn two_tokens_with_equals_is_no_assignment() {
    let vars = Vars::new();
    let (_, plan) = plan_of("x=", &vars);
    assert_eq!(plan.target, None);
    assert_eq!(plan.steps, vec![Step::Fail(EvalError::InvalidToken)]);
}

#[test]
fn number_literal_shadows_variable() {
    let mut vars = Vars::new();
    assert_eq!(eval_line("3=7", &mut vars), Ok(7.0));
    assert_eq!(vars.get(&"3".to_string()), Some(&7.0));
    assert_eq!(eval_line("3", &mut vars), Ok(3.0));
}

#[test]
fn division_by_zero() {
    let mut vars = Vars::new();
    let r = eval_line("5/0", &mut vars);
    assert_eq!(r, Err(EvalError::DivisionByZero));
    assert!(EvalError::DivisionByZero.message().contains("Division by zero"));
}

#[test]
fn division_by_zero_before_later_invalid_token() {
    let mut vars = Vars::new();
    assert_eq!(eval_line("5/0+@", &mut vars), Err(EvalError::DivisionByZero));
}

#[test]
fn unknown_token() {
    let mut vars = Vars::new();
    let r = eval_line("2+@", &mut vars);
    assert_eq!(r, Err(EvalError::InvalidToken));
    assert!(EvalError::InvalidToken.message().contains("Invalid token"));
}

#[test]
fn trailing_operator_is_invalid() {
    let mut vars = Vars::new();
    assert_eq!(eval_line("2+", &mut vars), Err(EvalError::InvalidExpression));
    assert_eq!(EvalError::InvalidExpression.message(), "Invalid expression");
}

#[test]
fn empty_line_is_invalid() {
    let mut vars = Vars::new();
    assert_eq!(eval_line("", &mut vars), Err(EvalError::InvalidExpression));
    assert_eq!(eval_line("(", &mut vars), Err(EvalError::InvalidExpression));
}

#[test]
fn leftover_parenthesis_is_unknown_operator() {
    let mut vars = Vars::new();
    assert_eq!(eval_line("2(3", &mut vars), Err(EvalError::UnknownOperator));
    assert_eq!(EvalError::UnknownOperator.message(), "Unknown operator");
}

#[test]
fn unmatched_close_parenthesis_is_accepted() {
    let mut vars = Vars::new();
    assert_eq!(eval_line("2)", &mut vars), Ok(2.0));
    assert_eq!(eval_line("1+2)*3", &mut vars), Ok(9.0));
}

#[test]
fn last_value_is_the_result() {
    let mut vars = Vars::new();
    assert_eq!(eval_line("2(3)", &mut vars), Ok(3.0));
}

#[test]
fn exit_with_surrounding_whitespace() {
    assert!(matches!(command("  exit  "), Command::Exit));
    assert!(matches!(command("exit"), Command::Exit));
    assert!(matches!(command("\texit\n"), Command::Exit));
}

#[test]
fn other_lines_are_evaluated() {
    match command("  exits ") {
        Command::Evaluate(tokens) => assert_eq!(tokens, strings(&["exits"])),
        Command::Exit => panic!("exits is no exit"),
    }
    match command(" 1 + 2 ") {
        Command::Evaluate(tokens) => assert_eq!(tokens, strings(&["1", "+", "2"])),
        Command::Exit => panic!("expected tokens"),
    }
}

#[test]
fn vars_store_and_replace() {
    let mut vars: Vars<f64> = Vars::new();
    assert_eq!(vars.len(), 0);
    vars.set("a".to_string(), 1.0);
    vars.set("B".to_string(), 2.0);
    vars.set("a".to_string(), 3.0);
    assert_eq!(vars.len(), 2);
    assert_eq!(vars.get(&"a".to_string()), Some(&3.0));
    assert_eq!(vars.get(&"A".to_string()), None);
    assert!(vars.contains(&"B".to_string()));
}
