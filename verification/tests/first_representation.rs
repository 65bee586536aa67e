use redex::error::ParseError;
use redex::node::abstraction::Abstraction;
use redex::node::node_ref::NodeRef;
use redex::node::variable::Variable;
use redex::node::Node;
use redex::ast::node::variable::Variable as TermVariable;
use redex::ast::expr::Statement;

#[test]
fn word_variable_reads_whole_word() {
    let v = Variable::parse_str("foo").unwrap();
    assert_eq!(v.ident, "foo");
    assert_eq!(v.len(), 3);
    let v = Variable::parse_str(" ab_{cd} ").unwrap();
    assert_eq!(v.ident, "ab");
    assert_eq!(v.subtext, Some("cd".to_string()));
    assert_eq!(v.len(), 6);
    let v = Variable::parse_str("x_1").unwrap();
    assert_eq!(v.len(), 2);
    let v = Variable::parse_str("TRUEx").unwrap();
    assert_eq!(v.ident, "TRUE");
    let v = Variable::parse_str("").unwrap();
    assert!(v.is_empty());
}

#[test]
fn word_abstraction_refusals() {
    assert_eq!(Abstraction::parse_str("x.y").unwrap_err(), ParseError::MissingLambda);
    assert_eq!(Abstraction::parse_str("Lxy").unwrap_err(), ParseError::MissingDot);
    assert_eq!(
        Abstraction::parse_str("Lx y.z").unwrap_err(),
        ParseError::BoundNotSingleVariable
    );
}

#[test]
fn word_node_lengths() {
    let x = Node::Variable(Variable { ident: "x".to_string(), subtext: None });
    let y = Node::Variable(Variable { ident: "yy".to_string(), subtext: Some("ab".to_string()) });
    assert_eq!(y.len(), 6);
    let ab = Abstraction { bound: NodeRef::new(x), body: NodeRef::new(y) };
    assert_eq!(ab.len(), 9);
    assert!(!ab.is_empty());
    let n = Node::Abstraction(ab);
    assert_eq!(n.len(), 9);
    assert!(!n.is_empty());
}

#[test]
fn word_node_ref_gives_access() {
    let mut r = NodeRef::new(Variable { ident: "a".to_string(), subtext: None });
    r.borrow_mut().ident.push('b');
    assert_eq!(r.borrow().ident, "ab");
}

#[test]
fn uppercase_test_covers_more_than_ascii() {
    let v = TermVariable::parse_str("ÄÖx").unwrap();
    assert_eq!(v.ident, "ÄÖ");
    let v = TermVariable::parse_str("äx").unwrap();
    assert_eq!(v.ident, "ä");
    let v = Variable::parse_str("ABc").unwrap();
    assert_eq!(v.ident, "AB");
}

#[test]
fn white_space_test_covers_more_than_ascii() {
    assert_eq!(Statement::make_lines("a\n\u{2003}b"), vec!["ab".to_string()]);
    let v = TermVariable::parse_str("\u{2003}y\u{2003}").unwrap();
    assert_eq!(v.ident, "y");
    assert_eq!(Statement::make_lines("a\nxb"), vec!["a".to_string(), "xb".to_string()]);
}

#[test]
fn written_text_appends_characters() {
    let v = TermVariable::parse_str("x_{ab}").unwrap();
    assert_eq!(v.to_string(), "x_{ab}");
    let v = TermVariable::parse_str("x_a").unwrap();
    assert_eq!(v.to_string(), "x_a");
}
