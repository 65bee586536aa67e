use redex::ast::expr::{Statement, Unzip};
use redex::error::ParseError;

#[test]
fn lines_join_continuations() {
    assert_eq!(Statement::make_lines("a\n b\nc"), vec!["ab".to_string(), "c".to_string()]);
    assert_eq!(Statement::make_lines("a\n  b  \n\tc\nd"), vec!["abc".to_string(), "d".to_string()]);
}

#[test]
fn lines_without_continuations_stay() {
    assert_eq!(Statement::make_lines("a\nb"), vec!["a".to_string(), "b".to_string()]);
    assert_eq!(Statement::make_lines("a\r\nb\n"), vec!["a".to_string(), "b".to_string()]);
    assert_eq!(Statement::make_lines(" a\nb"), vec![" a".to_string(), "b".to_string()]);
    assert_eq!(Statement::make_lines(""), Vec::<String>::new());
}

#[test]
fn statements_read_assignments_and_expressions() {
    let sts = Statement::parse("x := y\nz\n\nI := Lx.x").unwrap();
    assert_eq!(sts.len(), 3);
    assert!(sts[0].is_assignment());
    assert!(sts[1].is_expression());
    assert!(sts[2].is_assignment());
    assert_eq!(sts[0].to_string(), "x := y");
    assert_eq!(sts[1].to_string(), "z");
    assert_eq!(sts[2].to_string(), "I := Lx.x");
}

#[test]
fn assignment_sides_must_hold_something() {
    assert_eq!(Statement::parse("x :=").unwrap_err(), ParseError::InvalidAssignment);
    assert_eq!(Statement::parse(":= y").unwrap_err(), ParseError::InvalidAssignment);
    assert_eq!(Statement::parse(" := y").unwrap_err(), ParseError::InvalidVariable);
}

#[test]
fn first_bad_line_decides() {
    assert_eq!(Statement::parse("xy\nL\n:= z").unwrap_err(), ParseError::MissingDot);
}

#[test]
fn unzip_keeps_order_and_count() {
    let sts = Statement::parse("a := x\ny\nb := z\nw").unwrap();
    let n = sts.len();
    let parts = sts.unzip();
    assert_eq!(parts.assignments.len() + parts.expressions.len(), n);
    assert_eq!(parts.assignments[0].to_string(), "a := x");
    assert_eq!(parts.assignments[1].to_string(), "b := z");
    assert_eq!(parts.expressions[0].to_string(), "y");
    assert_eq!(parts.expressions[1].to_string(), "w");
}

#[test]
fn statement_conversions() {
    let mut sts = Statement::parse("a := x\ny").unwrap();
    let e = sts.pop().unwrap().into_expression();
    assert_eq!(e.to_string(), "y");
    let a = sts.pop().unwrap().into_assignment();
    assert_eq!(a.bound.ident, "a");
}

#[test]
fn statement_reduce_steps_expression() {
    let mut sts = Statement::parse("xy").unwrap();
    sts[0].reduce();
    assert_eq!(sts[0].to_string(), "xy");
    let mut sts = Statement::parse("a := Lx.x").unwrap();
    sts[0].reduce();
    assert_eq!(sts[0].to_string(), "a := Lx.x");
}
