use redex::ast::expr::{Assignment, Statement, Unzip};
use redex::ast::node::assignments::{insert_assignment, insert_many_assignments, Assignments};
use redex::ast::node::deep_clone::NodeDeepClone;
use redex::ast::node::node_ref::NodeRef;
use redex::ast::node::variable::Variable;
use redex::ast::node::Node;

fn node(s: &str) -> NodeRef<Node> {
    NodeRef::new(Node::parse_str(s).unwrap())
}

fn var(s: &str) -> NodeRef<Variable> {
    NodeRef::new(Variable::parse_str(s).unwrap())
}

fn assignment(s: &str) -> Assignment {
    Statement::parse(s).unwrap().unzip().assignments.remove(0)
}

#[test]
fn substitute_replaces_variable() {
    let mut n = node("xy");
    Node::substitute(&mut n, &var("x"), node("z"));
    assert_eq!(n.to_string(), "zy");
}

#[test]
fn substitute_unmentioned_variable_changes_nothing() {
    let mut n = node("Lx.x(y)");
    let before = n.to_string();
    n.substitute(&var("q"), node("z"));
    assert_eq!(n.to_string(), before);
}

#[test]
fn substitute_keeps_bound_body() {
    let mut n = node("Lx.xy");
    Node::substitute(&mut n, &var("x"), node("z"));
    assert_eq!(n.to_string(), "Lx.xy");
    let mut n = node("Ly.x");
    Node::substitute(&mut n, &var("x"), node("z"));
    assert_eq!(n.to_string(), "Ly.z");
    let mut n = node("Lx.x");
    Node::substitute(&mut n, &var("x"), node("z"));
    assert_eq!(n.to_string(), "z");
}

#[test]
fn substitute_assignments_from_empty_table_changes_nothing() {
    let table = Assignments::new();
    let mut n = node("Lx.x(yz)");
    let before = n.to_string();
    Node::substitute_assignments(&mut n, &table, None);
    assert_eq!(n.to_string(), before);
}

#[test]
fn substitute_assignments_replaces_free_names() {
    let mut table = Assignments::new();
    assert!(insert_assignment(&mut table, assignment("I := Lx.x")).is_none());
    let mut n = node("Iy");
    Node::substitute_assignments(&mut n, &table, None);
    assert_eq!(n.to_string(), "Lx.x(y)");
    let mut n = node("LI.I");
    Node::substitute_assignments(&mut n, &table, None);
    assert_eq!(n.to_string(), "LI.I");
    let mut n = node("Iy");
    Node::substitute_assignments(&mut n, &table, Some(&var("I")));
    assert_eq!(n.to_string(), "Iy");
}

#[test]
fn insert_then_get_reads_back() {
    let mut table = Assignments::new();
    assert_eq!(table.len(), 0);
    assert!(insert_assignment(&mut table, assignment("a := x")).is_none());
    assert_eq!(table.len(), 1);
    let old = insert_assignment(&mut table, assignment("a := y")).unwrap();
    assert_eq!(old.to_string(), "x");
    assert_eq!(table.len(), 1);
    assert_eq!(table.get(&Variable::parse_str("a").unwrap()).unwrap().to_string(), "y");
    assert!(table.get(&Variable::parse_str("b").unwrap()).is_none());
}

#[test]
fn insert_many_stops_after_first_new_name() {
    let mut table = Assignments::new();
    let r = insert_many_assignments(
        &mut table,
        vec![assignment("a := x"), assignment("b := y")],
    );
    assert!(r.is_none());
    assert_eq!(table.len(), 1);
    assert!(table.get(&Variable::parse_str("b").unwrap()).is_none());
    let r = insert_many_assignments(&mut table, vec![assignment("a := z")]).unwrap();
    assert_eq!(r.len(), 1);
    assert_eq!(r[0].to_string(), "x");
}

#[test]
fn application_reduces_abstraction_on_the_left() {
    let mut table = Assignments::new();
    insert_assignment(&mut table, assignment("I := Lx.x"));
    let mut n = node("Iy");
    Node::substitute_assignments(&mut n, &table, None);
    Node::reduce(&mut n, None, None);
    assert_eq!(n.to_string(), "y");
}

#[test]
fn variable_reduces_to_itself_or_its_replacement() {
    let mut n = node("x");
    Node::reduce(&mut n, None, None);
    assert_eq!(n.to_string(), "x");
    let mut n = node("x");
    Node::reduce(&mut n, Some(&var("x")), Some(node("y")));
    assert_eq!(n.to_string(), "y");
}

#[test]
fn abstraction_reduce_with_argument() {
    let mut n = node("Lx.xy");
    redex::ast::node::abstraction::Abstraction::reduce(&mut n, None, node("z"));
    assert_eq!(n.to_string(), "zy");
    let mut n = node("Lx.y");
    Node::reduce(&mut n, Some(&var("y")), Some(node("w")));
    assert_eq!(n.to_string(), "Lx.w");
}

#[test]
fn can_reduce_reports_stopping_terms() {
    assert!(!Node::can_reduce(&node("Lx.x")));
    assert!(Node::can_reduce(&node("x")));
    assert!(Node::can_reduce(&node("xy")));
}

#[test]
fn deep_clone_keeps_term() {
    let n = node("Lxy.x(y)");
    let c = n.deep_clone();
    assert!(c.same_as(&n.deep_clone()));
    assert_eq!(c.to_string(), n.to_string());
    assert_eq!(c.len(), n.borrow().len());
    assert_eq!(c.checked_len(), Some(n.borrow().len()));
    assert!(c.printable());
    let other = node("Lxy.y").deep_clone();
    assert!(!c.same_as(&other));
    let d = NodeDeepClone::deep_clone_from(node("xy"));
    assert_eq!(d.to_string(), "xy");
}

#[test]
fn duplicate_is_equal_copy() {
    let n = node("x_{12}(Ly.y)");
    let d = n.borrow().duplicate();
    assert_eq!(d.to_string(), n.to_string());
}
