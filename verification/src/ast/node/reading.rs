//! How text is read as a lambda term.

use vstd::prelude::*;
use crate::error::{ParseError, Parsed};
use crate::text::{
    ascii, byte_len, char_index_at, find_char, lemma_byte_len_ascii, lemma_byte_len_bounds,
    lemma_byte_len_split, lemma_char_index_at, lemma_char_index_at_ascii, lemma_find_char_facts,
    lemma_trim_facts, starts_with_char, trim, trim_offset,
};
use crate::ast::node::Term;
use crate::ast::node::term_len;
use crate::ast::node::variable::{
    parse_variable, var_len, lemma_parsed_variable_len, lemma_parsed_variable_len_ascii, VarV,
};

verus! {

/// Reading a whole term from `s`: an abstraction if `s` starts with the lambda character, a
/// variable if one variable spans all of `s` (its length in bytes is the text's), and an
/// application otherwise.
pub open spec fn parse_node(s: Seq<char>) -> Parsed<Term>
    decreases s.len(), 2int,
{
    if starts_with_char(s, 'L') {
        match parse_abs(s, true) {
            Parsed::Value((b, body, c)) => Parsed::Value(Term::Abs(b, Box::new(body), c)),
            Parsed::Refused(e) => Parsed::Refused(e),
            Parsed::Aborts => Parsed::Aborts,
        }
    } else {
        match parse_variable(s) {
            Parsed::Aborts => Parsed::Aborts,
            Parsed::Value(v) => if var_len(v) == byte_len(s) {
                Parsed::Value(Term::Var(v))
            } else {
                parse_app(s)
            },
            Parsed::Refused(_) => parse_app(s),
        }
    }
}

/// Reading an abstraction from `s`, which starts with the lambda character when `lam` holds:
/// the bound variable stands before the first `.`; if it takes fewer bytes than that, the text
/// from the byte after it on is read as a further abstraction (the curried form `Lxy.body`),
/// else the text after the `.` is the body. Where that byte offset is no character start, the
/// program stops.
pub open spec fn parse_abs(s: Seq<char>, lam: bool) -> Parsed<(VarV, Term, bool)>
    decreases s.len(), 0int,
{
    if lam && !starts_with_char(s, 'L') {
        Parsed::Refused(ParseError::MissingLambda)
    } else {
        match find_char(s, '.') {
            None => Parsed::Refused(ParseError::MissingDot),
            Some(d) => {
                let start: int = if lam { 1 } else { 0 };
                proof {
                    lemma_find_char_facts(s, '.');
                }
                match parse_variable(s.subrange(start, d + start)) {
                    Parsed::Aborts => Parsed::Aborts,
                    Parsed::Refused(e) => Parsed::Refused(e),
                    Parsed::Value(b) => {
                        proof {
                            lemma_parsed_variable_len(s.subrange(start, d + start));
                            lemma_char_index_at(s, var_len(b) + start);
                        }
                        if var_len(b) + start < byte_len(s.take(d)) {
                            match char_index_at(s, var_len(b) + start) {
                                None => Parsed::Aborts,
                                Some(i) => match parse_abs(s.skip(i), false) {
                                    Parsed::Value((b2, body2, c2)) => Parsed::Value(
                                        (b, Term::Abs(b2, Box::new(body2), c2), true),
                                    ),
                                    Parsed::Refused(e) => Parsed::Refused(e),
                                    Parsed::Aborts => Parsed::Aborts,
                                },
                            }
                        } else {
                            match parse_node(s.skip(d + 1)) {
                                Parsed::Value(body) => Parsed::Value((b, body, false)),
                                Parsed::Refused(e) => Parsed::Refused(e),
                                Parsed::Aborts => Parsed::Aborts,
                            }
                        }
                    },
                }
            },
        }
    }
}

/// Reading an application from `s`: an abstraction followed by a term, or a variable followed by
/// a term, the term read from the byte after the first part's length on. Where that byte offset
/// is no character start, or lies past the text, the program stops.
pub open spec fn parse_app(s: Seq<char>) -> Parsed<Term>
    decreases s.len(), 1int,
{
    if starts_with_char(s, 'L') {
        match parse_abs(s, true) {
            Parsed::Value((b, body, c)) => {
                let left = Term::Abs(b, Box::new(body), c);
                let l = term_len(left);
                proof {
                    lemma_char_index_at(s, l as int);
                }
                match char_index_at(s, l as int) {
                    None => Parsed::Aborts,
                    Some(i) => match parse_node(s.skip(i)) {
                        Parsed::Value(right) => Parsed::Value(
                            Term::App(Box::new(left), Box::new(right)),
                        ),
                        Parsed::Refused(e) => Parsed::Refused(e),
                        Parsed::Aborts => Parsed::Aborts,
                    },
                }
            },
            Parsed::Refused(e) => Parsed::Refused(e),
            Parsed::Aborts => Parsed::Aborts,
        }
    } else {
        match parse_variable(s) {
            Parsed::Aborts => Parsed::Aborts,
            Parsed::Refused(_) => Parsed::Refused(ParseError::InvalidApplication),
            Parsed::Value(v) => {
                proof {
                    lemma_parsed_variable_len(s);
                    lemma_char_index_at(s, var_len(v) as int);
                }
                if var_len(v) == byte_len(s) {
                    Parsed::Refused(ParseError::VariableSpansInput)
                } else {
                    match char_index_at(s, var_len(v) as int) {
                        None => Parsed::Aborts,
                        Some(i) => match parse_node(s.skip(i)) {
                            Parsed::Value(right) => Parsed::Value(
                                Term::App(Box::new(Term::Var(v)), Box::new(right)),
                            ),
                            Parsed::Refused(e) => Parsed::Refused(e),
                            Parsed::Aborts => Parsed::Aborts,
                        },
                    }
                }
            },
        }
    }
}

/// A term read from text is never empty: it takes at least one byte.
pub proof fn lemma_read_term_not_empty(s: Seq<char>)
    ensures
        parse_node(s) matches Parsed::Value(t) ==> term_len(t) >= 1,
{
    lemma_parsed_variable_len(s);
    match parse_node(s) {
        Parsed::Value(t) => {
            match t {
                Term::Abs(b, body, c) => {
                    assert(term_len(t) == var_len(b) + term_len(*body) + 2);
                },
                Term::Var(v) => {
                    assert(!starts_with_char(s, 'L'));
                    assert(parse_variable(s) == Parsed::Value(v));
                },
                Term::App(l, r) => {
                    assert(!starts_with_char(s, 'L'));
                    match parse_variable(s) {
                        Parsed::Value(v) => {
                            assert(parse_app(s) == Parsed::Value(t));
                            assert(*l == Term::Var(v));
                            assert(term_len(t) == term_len(*l) + term_len(*r));
                        },
                        _ => {},
                    }
                },
            }
        },
        _ => {},
    }
}

/// Reading an application never gives a variable alone.
proof fn lemma_app_is_app(s: Seq<char>)
    ensures
        parse_app(s) matches Parsed::Value(t) ==> t is App,
{
}

/// What kind of term a text reads as: the variable `v` exactly when the text does not start
/// with the lambda character, reads as the variable `v`, and `v` takes all its bytes; an
/// abstraction only when it starts with the lambda character; an application only when it does
/// not.
pub proof fn lemma_read_kinds(s: Seq<char>, v: VarV)
    ensures
        parse_node(s) == Parsed::Value(Term::Var(v)) <==> (!starts_with_char(s, 'L')
            && parse_variable(s) == Parsed::Value(v) && var_len(v) == byte_len(s)),
        parse_node(s) matches Parsed::Value(t) && t is Abs ==> starts_with_char(s, 'L'),
        parse_node(s) matches Parsed::Value(t) && t is App ==> !starts_with_char(s, 'L'),
{
    lemma_app_is_app(s);
}

/// A term read from text counts at most three bytes for each byte of the text.
pub proof fn lemma_parse_node_len(s: Seq<char>)
    ensures
        parse_node(s) matches Parsed::Value(t) ==> term_len(t) <= 3 * byte_len(s),
    decreases s.len(), 2int,
{
    if starts_with_char(s, 'L') {
        lemma_parse_abs_len(s, true);
    } else {
        lemma_parse_app_len(s);
    }
}

/// An abstraction read from text counts at most three bytes for each byte of the text.
pub proof fn lemma_parse_abs_len(s: Seq<char>, lam: bool)
    ensures
        parse_abs(s, lam) matches Parsed::Value((b, body, c)) ==> var_len(b) + term_len(body) + 2
            <= 3 * byte_len(s),
    decreases s.len(), 0int,
{
    if !(lam && !starts_with_char(s, 'L')) {
        lemma_find_char_facts(s, '.');
        match find_char(s, '.') {
            None => {},
            Some(d) => {
                let start: int = if lam { 1 } else { 0 };
                let piece = s.subrange(start, d + start);
                lemma_parsed_variable_len(piece);
                lemma_byte_len_split(s, d);
                lemma_byte_len_split(s.skip(d), 1);
                assert(s.skip(d).skip(1) =~= s.skip(d + 1));
                lemma_byte_len_bounds(s.skip(d).take(1));
                lemma_byte_len_split(s, d + start);
                lemma_byte_len_split(s.take(d + start), start);
                assert(s.take(d + start).skip(start) =~= piece);
                lemma_byte_len_bounds(s.take(d + start).take(start));
                if lam {
                    assert(s.take(d + 1) =~= s.take(d) + s.skip(d).take(1));
                    crate::text::lemma_byte_len_concat(s.take(d), s.skip(d).take(1));
                } else {
                    assert(piece =~= s.take(d));
                }
                match parse_variable(piece) {
                    Parsed::Value(b) => {
                        let k = var_len(b) + start;
                        if k < byte_len(s.take(d)) {
                            lemma_char_index_at(s, k);
                            match char_index_at(s, k) {
                                Some(i) => {
                                    lemma_byte_len_split(s, i);
                                    lemma_parse_abs_len(s.skip(i), false);
                                },
                                None => {},
                            }
                        } else {
                            lemma_parse_node_len(s.skip(d + 1));
                        }
                    },
                    _ => {},
                }
            },
        }
    }
}

/// An application read from text counts at most three bytes for each byte of the text.
pub proof fn lemma_parse_app_len(s: Seq<char>)
    ensures
        parse_app(s) matches Parsed::Value(t) ==> term_len(t) <= 3 * byte_len(s),
    decreases s.len(), 1int,
{
    if starts_with_char(s, 'L') {
        match parse_abs(s, true) {
            Parsed::Value((b, body, c)) => {
                let left = Term::Abs(b, Box::new(body), c);
                let l = term_len(left);
                lemma_char_index_at(s, l as int);
                match char_index_at(s, l as int) {
                    Some(i) => {
                        lemma_byte_len_split(s, i);
                        lemma_parse_node_len(s.skip(i));
                        match parse_node(s.skip(i)) {
                            Parsed::Value(right) => {
                                assert(parse_app(s) == Parsed::Value(
                                    Term::App(Box::new(left), Box::new(right)),
                                ));
                                assert(term_len(Term::App(Box::new(left), Box::new(right))) == l
                                    + term_len(right));
                            },
                            _ => {},
                        }
                    },
                    None => {},
                }
            },
            _ => {},
        }
    } else {
        lemma_parsed_variable_len(s);
        match parse_variable(s) {
            Parsed::Value(v) => {
                let k = var_len(v);
                if k != byte_len(s) {
                    lemma_char_index_at(s, k as int);
                    match char_index_at(s, k as int) {
                        Some(i) => {
                            lemma_byte_len_split(s, i);
                            lemma_parse_node_len(s.skip(i));
                            match parse_node(s.skip(i)) {
                                Parsed::Value(right) => {
                                    assert(parse_app(s) == Parsed::Value(
                                        Term::App(Box::new(Term::Var(v)), Box::new(right)),
                                    ));
                                    assert(term_len(Term::Var(v)) == var_len(v));
                                    assert(term_len(
                                        Term::App(Box::new(Term::Var(v)), Box::new(right)),
                                    ) == var_len(v) + term_len(right));
                                },
                                _ => {},
                            }
                        },
                        None => {},
                    }
                }
            },
            _ => {},
        }
    }
}

/// Whether every abstraction of `t` binds one variable written plainly before its `.`: none was
/// written in the curried form `Lxy.body`, and no bound variable holds a `.` (as when `L.x` or
/// `Lx_.y` is read, where the dot that ends the binder is taken into it).
pub open spec fn binds_plainly(t: Term) -> bool
    decreases t,
{
    match t {
        Term::Var(_) => true,
        Term::Abs(b, body, c) => !c && (forall|i: int| 0 <= i < b.ident.len() ==> b.ident[i] != '.')
            && b.subtext != Some(seq!['.']) && binds_plainly(*body),
        Term::App(l, r) => binds_plainly(*l) && binds_plainly(*r),
    }
}

proof fn lemma_ascii_subrange(s: Seq<char>, a: int, b: int)
    requires
        ascii(s),
        0 <= a <= b <= s.len(),
    ensures
        ascii(s.subrange(a, b)),
{
    assert forall|i: int| 0 <= i < s.subrange(a, b).len() implies (#[trigger] s.subrange(a, b)[i]
        as u32) < 0x80 by {
        assert(s.subrange(a, b)[i] == s[a + i]);
    }
}

/// The length of a term read from ASCII text is the length of the text, where every
/// abstraction in it binds one variable written plainly before its `.`.
pub proof fn lemma_read_term_text_len(s: Seq<char>)
    requires
        ascii(s),
    ensures
        parse_node(s) matches Parsed::Value(t) ==> (binds_plainly(t) ==> term_len(t) == s.len()),
    decreases s.len(), 2int,
{
    lemma_byte_len_ascii(s);
    if starts_with_char(s, 'L') {
        lemma_abs_text_len(s);
    } else {
        lemma_app_text_len(s);
    }
}

proof fn lemma_abs_text_len(s: Seq<char>)
    requires
        ascii(s),
    ensures
        parse_abs(s, true) matches Parsed::Value((b, body, c)) ==> (binds_plainly(
            Term::Abs(b, Box::new(body), c),
        ) ==> var_len(b) + term_len(body) + 2 == s.len()),
    decreases s.len(), 0int,
{
    if starts_with_char(s, 'L') {
        lemma_find_char_facts(s, '.');
        match find_char(s, '.') {
            None => {},
            Some(d) => {
                let piece = s.subrange(1, d + 1);
                lemma_ascii_subrange(s, 1, d + 1);
                lemma_ascii_subrange(s, 0, d);
                assert(s.take(d) =~= s.subrange(0, d));
                lemma_byte_len_ascii(s.take(d));
                lemma_parsed_variable_len_ascii(piece);
                lemma_trim_facts(piece);
                match parse_variable(piece) {
                    Parsed::Value(b) => {
                        if var_len(b) + 1 >= d {
                            lemma_ascii_subrange(s, d + 1, s.len() as int);
                            assert(s.skip(d + 1) =~= s.subrange(d + 1, s.len() as int));
                            lemma_read_term_text_len(s.skip(d + 1));
                            let t = trim(piece);
                            let off = trim_offset(piece);
                            assert(piece.last() == '.');
                            if t.len() > 0 && off + t.len() == piece.len() {
                                assert(t.last() == piece.last());
                            }
                        }
                    },
                    _ => {},
                }
            },
        }
    }
}

proof fn lemma_app_text_len(s: Seq<char>)
    requires
        ascii(s),
        !starts_with_char(s, 'L'),
    ensures
        parse_app(s) matches Parsed::Value(t) ==> (binds_plainly(t) ==> term_len(t) == s.len()),
    decreases s.len(), 1int,
{
    lemma_byte_len_ascii(s);
    lemma_parsed_variable_len_ascii(s);
    lemma_parsed_variable_len(s);
    lemma_trim_facts(s);
    match parse_variable(s) {
        Parsed::Value(v) => {
            let k = var_len(v) as int;
            if k != s.len() {
                lemma_char_index_at_ascii(s, k);
                lemma_ascii_subrange(s, k, s.len() as int);
                assert(s.skip(k) =~= s.subrange(k, s.len() as int));
                lemma_read_term_text_len(s.skip(k));
                match parse_node(s.skip(k)) {
                    Parsed::Value(right) => {
                        assert(parse_app(s) == Parsed::Value(
                            Term::App(Box::new(Term::Var(v)), Box::new(right)),
                        ));
                        assert(term_len(Term::Var(v)) == var_len(v));
                        assert(term_len(Term::App(Box::new(Term::Var(v)), Box::new(right))) == k
                            + term_len(right));
                    },
                    _ => {},
                }
            }
        },
        _ => {},
    }
}

} // verus!
