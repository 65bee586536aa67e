use redex::cli::{CLIArgs, LogLevel};
use redex::error::ParseError;
use redex::interpreter::{interpret, InterpretError};
use redex::stdlib::numerals::{generate_numeral, NumeralKind};
use redex::stdlib::{stdlib_assignments, stdlib_sources};

fn args(nostdlib: bool, loglevel: LogLevel) -> CLIArgs {
    CLIArgs {
        files: vec!["input.txt".to_string()],
        outfile: None,
        outdir: None,
        nostdlib,
        stdout: false,
        interactive: false,
        loglevel,
    }
}

const IDENTITY_PROGRAM: &str = "I := Lx.x\nIy";

#[test]
fn interpret_writes_every_stage() {
    let out = interpret(IDENTITY_PROGRAM, &args(true, LogLevel::All), 100).unwrap();
    assert_eq!(
        out,
        "========================= Assignments =========================\n\
         I := Lx.x\n\
         ========================= Expressions =========================\n\
         (Original)\n\tIy\n\n\
         (Assignment Replacements)\n\tLx.x(y)\n\n\
         (Reductions):\n     => y\n\n"
    );
}

#[test]
fn interpret_with_standard_library() {
    let out = interpret(IDENTITY_PROGRAM, &args(false, LogLevel::All), 100).unwrap();
    assert!(out.ends_with("(Reductions):\n     => y\n\n"));
}

#[test]
fn lower_levels_write_less() {
    let all = interpret(IDENTITY_PROGRAM, &args(true, LogLevel::All), 100).unwrap();
    let only = interpret(IDENTITY_PROGRAM, &args(true, LogLevel::ReductionsOnly), 100).unwrap();
    assert_eq!(only, "(Reductions):\n     => y\n\n");
    let subs =
        interpret(IDENTITY_PROGRAM, &args(true, LogLevel::AssignmentReplacements), 100).unwrap();
    assert_eq!(subs, "(Assignment Replacements)\n\tLx.x(y)\n\n(Reductions):\n     => y\n\n");
    let asg = interpret(IDENTITY_PROGRAM, &args(true, LogLevel::Assignment), 100).unwrap();
    assert!(asg.starts_with("========================= Assignments"));
    assert!(asg.ends_with(&subs));
    assert!(all.ends_with(&subs));
}

fn lines_left_out(a: &str, b: &str) -> bool {
    let mut rest = b.split_inclusive('\n');
    a.split_inclusive('\n').all(|line| rest.any(|other| other == line))
}

#[test]
fn each_level_writes_lines_of_the_next() {
    let program = "I := Lx.x\nK := Lx.Ly.x\nKIz\nIw";
    let levels = [
        LogLevel::ReductionsOnly,
        LogLevel::AssignmentReplacements,
        LogLevel::Assignment,
        LogLevel::All,
    ];
    let outs: Vec<String> =
        levels.iter().map(|l| interpret(program, &args(true, l.clone()), 100).unwrap()).collect();
    for i in 0..outs.len() {
        for j in i..outs.len() {
            assert!(lines_left_out(&outs[i], &outs[j]), "{} / {}", i, j);
        }
    }
    assert!(!outs[0].contains("(Original)"));
    assert!(!outs[0].contains("Assignments"));
    assert!(!outs[0].contains("(Assignment Replacements)"));
    assert!(!lines_left_out(&outs[3], &outs[0]));
}

#[test]
fn interpret_reports_parse_errors() {
    assert_eq!(
        interpret("x :=", &args(true, LogLevel::All), 10),
        Err(InterpretError::Parse(ParseError::InvalidAssignment))
    );
}

#[test]
fn interpret_stops_on_abstraction_result() {
    assert_eq!(interpret("Lx.x", &args(true, LogLevel::All), 10), Err(InterpretError::Stops));
}

#[test]
fn interpret_runs_out_of_fuel_on_growing_term() {
    assert_eq!(
        interpret("a := Lx.xxx\naa", &args(true, LogLevel::All), 3),
        Err(InterpretError::OutOfFuel)
    );
}

#[test]
fn interpret_sample_program() {
    let out = interpret("(Lm_1.(Ly.Lk.m_1))xb", &args(false, LogLevel::All), 1000).unwrap();
    assert_eq!(
        out,
        "========================= Expressions =========================\n\
         (Original)\n\t((Lm_1.((Ly.Lk.m_1()()(xb)))))\n\n\
         (Assignment Replacements)\n\t((Lm_1.((Ly.Lk.m_1()()(xb)))))\n\n\
         (Reductions):\n     => ((Lm_1.((Ly.Lk.m_1()()(xb)))))\n\n"
    );
}

#[test]
fn interpret_several_expressions_in_order() {
    let out = interpret("xy\nz", &args(true, LogLevel::AssignmentReplacements), 10).unwrap();
    assert_eq!(
        out,
        "(Assignment Replacements)\n\txy\n\n(Reductions):\n     => xy\n\
         (Assignment Replacements)\n\tz\n\n(Reductions):\n     => z\n\n"
    );
}

#[test]
fn standard_library_reads() {
    assert_eq!(stdlib_sources().len(), 29);
    let table = stdlib_assignments().expect("the standard library should read");
    assert_eq!(table.len(), 29);
    let i = table.get(&redex::ast::node::variable::Variable::parse_str("I").unwrap()).unwrap();
    assert_eq!(i.to_string(), "Lx.x");
    let k = table.get(&redex::ast::node::variable::Variable::parse_str("K").unwrap()).unwrap();
    assert_eq!(k.to_string(), "Lx.Ly.x");
}

#[test]
fn church_numerals() {
    assert_eq!(generate_numeral(0, NumeralKind::Church).to_string(), "Lf.Lx.x");
    assert_eq!(generate_numeral(1, NumeralKind::Church).to_string(), "Lf.Lx.f(((x)))");
    assert_eq!(
        generate_numeral(2, NumeralKind::Church).to_string(),
        "Lf.Lx.f(((f(((x()))))))"
    );
}

#[test]
fn church_numeral_is_what_its_text_reads_as() {
    let n = generate_numeral(3, NumeralKind::Church);
    let read = redex::ast::node::Node::parse_str("Lf.Lx.f(f(f(x)))").unwrap();
    assert_eq!(n.to_string(), read.to_string());
}

#[test]
fn levels_are_ordered() {
    assert!(LogLevel::All.at_least(LogLevel::Assignment));
    assert!(LogLevel::Assignment.at_least(LogLevel::AssignmentReplacements));
    assert!(LogLevel::AssignmentReplacements.at_least(LogLevel::ReductionsOnly));
    assert!(!LogLevel::ReductionsOnly.at_least(LogLevel::All));
    assert_eq!(LogLevel::All.rank(), 3);
}
