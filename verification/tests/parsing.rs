use redex::ast::node::abstraction;
use redex::ast::node::application;
use redex::ast::node::variable::Variable;
use redex::ast::node::{Node, NodeVariant};
use redex::error::ParseError;
use redex::utils::{find_closing_delim, group_by_delim};

fn parse(s: &str) -> Node {
    Node::parse_str(s).expect("the text should read")
}

#[test]
fn closing_delim_finds_matching_brace() {
    assert_eq!(find_closing_delim("a{b}c", '{', '}'), Ok(1..3));
    assert_eq!(find_closing_delim("{{}}", '{', '}'), Ok(0..3));
    assert_eq!(find_closing_delim("x{a{b}c}y", '{', '}'), Ok(1..7));
}

#[test]
fn closing_delim_reports_open_groups() {
    assert_eq!(find_closing_delim("abc", '{', '}'), Err(0));
    assert_eq!(find_closing_delim("{{}", '{', '}'), Err(1));
}

#[test]
fn groups_split_at_delimiters() {
    assert_eq!(group_by_delim("a(b)c", '(', ')'), Ok(vec!["a", "b", "c"]));
    assert_eq!(group_by_delim("(b)", '(', ')'), Ok(vec!["b"]));
    assert_eq!(group_by_delim("x", '(', ')'), Ok(vec!["x"]));
    assert_eq!(group_by_delim("a(b", '(', ')'), Err(1));
}

#[test]
fn variable_reads_identifier_and_subscript() {
    let v = Variable::parse_str("x").unwrap();
    assert_eq!(v.ident, "x");
    assert_eq!(v.subtext, None);
    assert_eq!(v.len(), 1);

    let v = Variable::parse_str("TRUE").unwrap();
    assert_eq!(v.ident, "TRUE");
    assert_eq!(v.len(), 4);

    let v = Variable::parse_str("x_1").unwrap();
    assert_eq!(v.subtext, Some("1".to_string()));
    assert_eq!(v.len(), 3);

    let v = Variable::parse_str("x_{12}").unwrap();
    assert_eq!(v.ident, "x");
    assert_eq!(v.subtext, Some("12".to_string()));
    assert_eq!(v.len(), 6);
    assert_eq!(v.to_string(), "x_{12}");
}

#[test]
fn variable_ignores_surrounding_white_space() {
    let a = Variable::parse_str("  y  ").unwrap();
    let b = Variable::parse_str("y").unwrap();
    assert_eq!(a, b);
}

#[test]
fn variable_of_white_space_is_refused() {
    assert_eq!(Variable::parse_str("   ").unwrap_err(), ParseError::InvalidVariable);
    assert_eq!(Variable::parse_str("").unwrap_err(), ParseError::InvalidVariable);
}

#[test]
fn node_reads_abstraction() {
    let n = parse("Lx.x");
    assert!(matches!(n, Node::Abstraction(_)));
    assert_eq!(n.to_string(), "Lx.x");
    assert_eq!(n.len(), 4);
}

#[test]
fn node_reads_applications_right_nested() {
    let n = parse("xy");
    assert!(matches!(n, Node::Application(_)));
    assert_eq!(n.to_string(), "xy");
    let n = parse("xyz");
    assert_eq!(n.to_string(), "x(yz)");
    assert_eq!(n.len(), 3);
}

#[test]
fn node_reads_curried_abstraction() {
    let n = parse("Lxy.x");
    match &n {
        Node::Abstraction(ab) => {
            assert!(ab.was_curried);
            assert_eq!(ab.bound.borrow().ident, "x");
        }
        _ => panic!("expected an abstraction"),
    }
    assert_eq!(n.to_string(), "Lxy.x");
    assert_eq!(n.len(), 7);
}

#[test]
fn node_reads_parentheses_as_variables() {
    assert_eq!(parse("(Lx.x)y").to_string(), "((Lx.x()y))");
    assert_eq!(parse("x_{12}y").to_string(), "x_{12}(y)");
}

#[test]
fn node_refusals() {
    assert_eq!(Node::parse_str("L").unwrap_err(), ParseError::MissingDot);
    assert_eq!(Node::parse_str("").unwrap_err(), ParseError::InvalidApplication);
    assert_eq!(
        abstraction::Abstraction::parse_str("x.y", true).unwrap_err(),
        ParseError::MissingLambda
    );
    assert_eq!(
        application::Application::parse_str("x").unwrap_err(),
        ParseError::VariableSpansInput
    );
    assert_eq!(
        application::Application::parse_str("   ").unwrap_err(),
        ParseError::InvalidApplication
    );
}

#[test]
fn node_variant_is_reported() {
    let r = redex::ast::node::node_ref::NodeRef::new(parse("xy"));
    assert_eq!(r.variant(), NodeVariant::Application);
    let r = redex::ast::node::node_ref::NodeRef::new(parse("Lx.x"));
    assert_eq!(Node::variant(&r), NodeVariant::Abstraction);
    let r = redex::ast::node::node_ref::NodeRef::new(parse("x"));
    assert_eq!(r.variant(), NodeVariant::Variable);
}

#[test]
fn application_reads_abstraction_then_rest() {
    let ap = application::Application::parse_str("Lx.x").unwrap_err();
    assert_eq!(ap, ParseError::InvalidApplication);
    let ap = application::Application::parse_str("xyz").unwrap();
    assert_eq!(ap.to_string(), "x(yz)");
    assert_eq!(ap.len(), 3);
    assert!(!ap.is_empty());
}

#[test]
fn leading_white_space_is_read_twice() {
    assert_eq!(parse(" y").to_string(), "yy");
}

#[test]
fn variable_written_out_reads_back() {
    for text in ["x", "TRUE", "x_1", "x_{ab}", "x_{a}", "AB_{c{d}e}", "  y_{ z }  "] {
        let v = Variable::parse_str(text).unwrap();
        let again = Variable::parse_str(&v.to_string()).unwrap();
        assert_eq!(again, v);
    }
}

#[test]
fn variable_with_empty_subscript_does_not_read_back() {
    let v = Variable::parse_str("x_{}").unwrap();
    assert_eq!(v.subtext, Some(String::new()));
    let again = Variable::parse_str(&v.to_string()).unwrap();
    assert_eq!(again.subtext, None);
}

#[test]
fn lengths_count_bytes() {
    let v = Variable::parse_str("é").unwrap();
    assert_eq!(v.len(), 2);
    let w = Variable { ident: "x".to_string(), subtext: Some("é".to_string()) };
    assert_eq!(w.to_string(), "x_{é}");
    assert_eq!(w.len(), 6);
    let n = parse("éy");
    assert_eq!(n.len(), 3);
    assert_eq!(n.to_string(), "é(y)");
}

#[test]
fn byte_offsets_inside_characters_stop_reading() {
    assert!(matches!(Node::read("x_é"), redex::error::Parsed::Aborts));
    assert!(matches!(Variable::read("x_{é}"), redex::error::Parsed::Aborts));
}

#[test]
fn well_formed_variables_read_back() {
    let cases: Vec<(&str, Option<&str>)> = vec![
        ("x", None),
        ("TRUE", None),
        ("y", Some("1")),
        ("AND", Some("x")),
        ("z", Some("12")),
        ("Q", Some("a b")),
        ("_", Some("}")),
    ];
    for (ident, sub) in cases {
        let v = Variable { ident: ident.to_string(), subtext: sub.map(|s| s.to_string()) };
        let back = Variable::parse_str(v.to_string().as_str()).unwrap();
        assert_eq!(back, v);
    }
}

#[test]
fn plainly_written_terms_take_their_text_length() {
    for s in ["x", "xyz", "Lx.x", "Lx.Ly.xy", "x_1y_{ab}z", "Lx_{12}.x_{12}y", "TRUE"] {
        let n = Node::parse_str(s).unwrap();
        assert_eq!(n.len(), s.len(), "{}", s);
    }
    // A curried abstraction counts the bound variables once more than its text.
    assert_eq!(Node::parse_str("Lxy.x").unwrap().len(), 7);
    // The dot that ends the binder is taken into it.
    assert_eq!(Node::parse_str("L.x").unwrap().len(), 4);
}
