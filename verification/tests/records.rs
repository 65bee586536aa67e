use redex::ast::expr::{Assignment, Statement, Unzip};
use redex::ast::node::application::Application;
use redex::ast::node::assignments::Assignments;
use redex::ast::node::deep_clone::{
    AbstractionDeepClone, ApplicationDeepClone, NodeDeepClone, VariableDeepClone,
};
use redex::ast::node::node_ref::NodeRef;
use redex::ast::node::variable::Variable;
use redex::ast::node::Node;
use redex::cli::{CLIArgs, LogLevel};
use redex::interpreter::{handle_assignments, handle_expressions, InterpretError, NodeHist};

fn node(s: &str) -> NodeRef<Node> {
    NodeRef::new(Node::parse_str(s).unwrap())
}

#[test]
fn copies_of_each_kind() {
    let ap = ApplicationDeepClone::deep_clone_from(node("xyz"));
    assert_eq!(ap.to_string(), "x(yz)");
    assert_eq!(ap.len(), 3);
    let ab = AbstractionDeepClone::deep_clone_from(node("Lxy.y"));
    assert_eq!(ab.to_string(), "Lxy.y");
    assert_eq!(ab.len(), 7);
    let v = VariableDeepClone::deep_clone_from(node("x_{ab}"));
    assert_eq!(v.to_string(), "x_{ab}");
    assert_eq!(v.len(), 6);
    let w = VariableDeepClone::deep_clone_var_from(NodeRef::new(Variable::parse_str("q_1").unwrap()));
    assert_eq!(w.to_string(), "q_1");
    assert_eq!(w.checked_len(), Some(3));
    assert!(!w.same_as(&v));
}

#[test]
fn copy_checks() {
    let c = NodeDeepClone::deep_clone_from(node("Lx.x"));
    assert!(c.can_display());
    assert_eq!(c.checked_len(), Some(4));
}

#[test]
fn new_record_is_empty() {
    let h = NodeHist::new(NodeDeepClone::deep_clone_from(node("xy")));
    assert_eq!(h.original.to_string(), "xy");
    assert!(h.assignment_subs.is_empty());
    assert!(h.reductions.is_empty());
}

#[test]
fn assignments_are_written_and_added() {
    let statements = Statement::parse("I := Lx.x\nIy").unwrap().unzip();
    let mut table = Assignments::new();
    let args = CLIArgs {
        files: Vec::new(),
        outfile: None,
        outdir: None,
        nostdlib: true,
        stdout: false,
        interactive: false,
        loglevel: LogLevel::All,
    };
    let mut out = String::new();
    assert_eq!(handle_assignments(&statements, &mut table, &args, &mut out), Ok(()));
    assert_eq!(
        out,
        "========================= Assignments =========================\nI := Lx.x\n"
    );
    assert_eq!(table.len(), 1);
    let hists = handle_expressions(&statements, &table, 10).unwrap();
    assert_eq!(hists.len(), 1);
    assert_eq!(hists[0].original.to_string(), "Iy");
    assert_eq!(hists[0].assignment_subs.len(), 1);
    assert_eq!(hists[0].assignment_subs[0].to_string(), "Lx.x(y)");
    assert_eq!(hists[0].reductions.len(), 1);
    assert_eq!(hists[0].reductions[0].to_string(), "y");
}

#[test]
fn quiet_level_writes_no_assignments() {
    let statements = Statement::parse("a := b").unwrap().unzip();
    let mut table = Assignments::new();
    let args = CLIArgs {
        files: Vec::new(),
        outfile: None,
        outdir: None,
        nostdlib: true,
        stdout: false,
        interactive: false,
        loglevel: LogLevel::ReductionsOnly,
    };
    let mut out = String::new();
    assert_eq!(handle_assignments(&statements, &mut table, &args, &mut out), Ok(()));
    assert_eq!(out, "");
    assert_eq!(table.len(), 1);
}

#[test]
fn expressions_that_stop_are_reported() {
    let statements = Statement::parse("Lx.x").unwrap().unzip();
    let table = Assignments::new();
    assert!(matches!(
        handle_expressions(&statements, &table, 10),
        Err(InterpretError::Stops)
    ));
}

#[test]
fn application_reduce_self_steps() {
    let mut table = Assignments::new();
    let a = Statement::parse("I := Lx.x").unwrap().unzip().assignments.remove(0);
    redex::ast::node::assignments::insert_assignment(&mut table, a);
    let mut n = node("I(Iz)");
    Node::substitute_assignments(&mut n, &table, None);
    Application::reduce_self(&mut n);
    assert_eq!(n.to_string(), "((Lx.x(z)))");
}

#[test]
fn assignment_and_statement_builders() {
    let v = Variable::parse_str("a").unwrap();
    let a = Assignment::new(v.duplicate(), node("xy"));
    assert_eq!(a.to_string(), "a := xy");
    let st = Statement::new_assignment(v, node("z"));
    assert!(st.is_assignment());
    assert_eq!(st.to_string(), "a := z");
}

#[test]
fn node_ref_gives_access() {
    let mut r = node("x");
    if let Node::Variable(v) = r.borrow_mut() {
        v.ident.push('y');
    }
    assert_eq!(r.to_string(), "xy");
    assert!(!r.borrow().is_empty());
}
