//! Numerals written as lambda terms.

use vstd::prelude::*;
use crate::error::Parsed;
use crate::text::{
    char_is_uppercase, find_char, is_space, is_upper, lemma_find_char_facts,
    lemma_trim_unchanged, push_char, ascii, lemma_byte_len_ascii, lemma_byte_len_single,
    lemma_char_index_at_ascii,
};
use crate::ast::node::{Node, Term};
use crate::ast::node::reading::{parse_abs, parse_app, parse_node};
use crate::ast::node::variable::{VarV, ident_end, parse_variable, var_len};

verus! {

/// The ways a number can be written as a lambda term.
#[derive(Debug, Clone, Copy, PartialEq, Eq, Structural)]
pub enum NumeralKind {
    /// `n` as `Lf.Lx.f(f(...f(x)...))`, with `n` applications of `f`.
    Church,
}

/// `p` written `n` times in a row.
pub open spec fn repeat(p: Seq<char>, n: nat) -> Seq<char>
    decreases n,
{
    if n == 0 {
        Seq::empty()
    } else {
        repeat(p, (n - 1) as nat) + p
    }
}

/// The body of the Church numeral `n` as text: `n` times `f(`, then `x`, then `n` times `)`.
pub open spec fn church_body_text(n: nat) -> Seq<char> {
    repeat(seq!['f', '('], n) + seq!['x'] + repeat(seq![')'], n)
}

/// The text of the Church numeral `n`: `Lf.Lx.` and its body.
pub open spec fn church_text(n: nat) -> Seq<char> {
    seq!['L', 'f', '.', 'L', 'x', '.'] + church_body_text(n)
}

/// The variable named by the single character `c`.
pub open spec fn char_var(c: char) -> VarV {
    VarV { ident: seq![c], subtext: None }
}

/// The term that text made of single-character variables stands for: each character applied to
/// the term of the characters after it, the last one alone.
pub open spec fn chain(s: Seq<char>) -> Term
    decreases s.len(),
{
    if s.len() <= 1 {
        Term::Var(VarV { ident: s, subtext: None })
    } else {
        Term::App(Box::new(Term::Var(char_var(s[0]))), Box::new(chain(s.drop_first())))
    }
}

/// The Church numeral `n`: `Lf.Lx.` over the body `f(f(...x...))`, which reads as a chain of
/// single-character variables, parentheses included.
pub open spec fn church_term(n: nat) -> Term {
    Term::Abs(
        char_var('f'),
        Box::new(Term::Abs(char_var('x'), Box::new(chain(church_body_text(n))), false)),
        false,
    )
}

/// A character that reads as a variable of its own: an ASCII character that is not uppercase,
/// not white space, not `_` and not the lambda character.
pub open spec fn plain(c: char) -> bool {
    !is_upper(c) && !is_space(c) && c != '_' && c != 'L' && (c as u32) < 0x80
}

/// The characters of numeral texts read as the text says: `f`, `x` and the parentheses are
/// plain characters.
pub open spec fn numeral_chars_plain() -> bool {
    plain('f') && plain('x') && plain('(') && plain(')')
}

/// Text made of plain characters reads as the chain of its characters.
pub proof fn lemma_parse_chain(s: Seq<char>)
    requires
        s.len() > 0,
        forall|i: int| 0 <= i < s.len() ==> plain(#[trigger] s[i]),
    ensures
        parse_node(s) == Parsed::Value(chain(s)),
    decreases s.len(),
{
    assert(plain(s[0]));
    assert(plain(s[s.len() - 1]));
    lemma_trim_unchanged(s);
    assert(ident_end(s) == 1);
    if s.len() > 1 {
        assert(plain(s[1]));
    }
    let v = VarV { ident: s.take(1), subtext: None };
    assert(parse_variable(s) == Parsed::Value(v));
    assert(s.take(1) =~= seq![s[0]]);
    assert(ascii(s));
    lemma_byte_len_ascii(s);
    lemma_byte_len_single(s[0]);
    assert(var_len(v) == 1);
    if s.len() == 1 {
        assert(s.take(1) =~= s);
    } else {
        let rest = s.drop_first();
        assert forall|i: int| 0 <= i < rest.len() implies plain(#[trigger] rest[i]) by {
            assert(rest[i] == s[i + 1]);
        }
        lemma_parse_chain(rest);
        assert(s.skip(1) =~= rest);
        lemma_char_index_at_ascii(s, 1);
        assert(parse_app(s) == Parsed::Value(
            Term::App(Box::new(Term::Var(v)), Box::new(chain(rest))),
        ));
    }
}

proof fn lemma_repeat_len(p: Seq<char>, n: nat)
    ensures
        repeat(p, n).len() == p.len() * n,
    decreases n,
{
    if n > 0 {
        let m = (n - 1) as nat;
        lemma_repeat_len(p, m);
        assert(repeat(p, n) == repeat(p, m) + p);
        assert(p.len() * n == p.len() * m + p.len()) by (nonlinear_arith)
            requires
                m + 1 == n,
        ;
    } else {
        assert(repeat(p, n) =~= Seq::<char>::empty());
        assert(p.len() * n == 0) by (nonlinear_arith)
            requires
                n == 0,
        ;
    }
}

proof fn lemma_repeat_chars(p: Seq<char>, n: nat, c: char)
    requires
        forall|i: int| 0 <= i < p.len() ==> #[trigger] p[i] != c,
    ensures
        forall|i: int| 0 <= i < repeat(p, n).len() ==> #[trigger] repeat(p, n)[i] != c,
    decreases n,
{
    if n > 0 {
        lemma_repeat_chars(p, (n - 1) as nat, c);
        let prev = repeat(p, (n - 1) as nat);
        assert forall|i: int| 0 <= i < repeat(p, n).len() implies #[trigger] repeat(p, n)[i]
            != c by {
            if i >= prev.len() {
                assert(repeat(p, n)[i] == p[i - prev.len()]);
            } else {
                assert(repeat(p, n)[i] == prev[i]);
            }
        }
    }
}

proof fn lemma_repeat_plain(p: Seq<char>, n: nat)
    requires
        forall|i: int| 0 <= i < p.len() ==> plain(#[trigger] p[i]),
    ensures
        forall|i: int| 0 <= i < repeat(p, n).len() ==> plain(#[trigger] repeat(p, n)[i]),
    decreases n,
{
    if n > 0 {
        lemma_repeat_plain(p, (n - 1) as nat);
        let prev = repeat(p, (n - 1) as nat);
        assert forall|i: int| 0 <= i < repeat(p, n).len() implies plain(
            #[trigger] repeat(p, n)[i],
        ) by {
            if i >= prev.len() {
                assert(repeat(p, n)[i] == p[i - prev.len()]);
            } else {
                assert(repeat(p, n)[i] == prev[i]);
            }
        }
    }
}

/// The body of a numeral is made of plain characters and holds no `.`.
proof fn lemma_church_body(n: nat)
    requires
        numeral_chars_plain(),
    ensures
        church_body_text(n).len() == 3 * n + 1,
        forall|i: int| 0 <= i < church_body_text(n).len() ==> plain(#[trigger] church_body_text(n)[i]),
        forall|i: int| 0 <= i < church_body_text(n).len() ==> #[trigger] church_body_text(n)[i] != '.',
{
    let fp = seq!['f', '('];
    let cl = seq![')'];
    lemma_repeat_len(fp, n);
    lemma_repeat_len(cl, n);
    lemma_repeat_plain(fp, n);
    lemma_repeat_plain(cl, n);
    lemma_repeat_chars(fp, n, '.');
    lemma_repeat_chars(cl, n, '.');
    let a = repeat(fp, n);
    let b = repeat(cl, n);
    let body = church_body_text(n);
    assert(fp.len() == 2);
    assert(cl.len() == 1);
    assert(fp.len() * n == 2 * n) by (nonlinear_arith)
        requires
            fp.len() == 2,
    ;
    assert(cl.len() * n == n) by (nonlinear_arith)
        requires
            cl.len() == 1,
    ;
    assert(a.len() == 2 * n);
    assert(b.len() == n);
    assert(body.len() == a.len() + 1 + b.len());
    assert forall|i: int| 0 <= i < body.len() implies plain(#[trigger] body[i]) && body[i] != '.' by {
        if i < a.len() {
            assert(body[i] == a[i]);
        } else if i == a.len() {
            assert(body[i] == 'x');
        } else {
            assert(body[i] == b[i - a.len() - 1]);
        }
    }
}

/// The text of the Church numeral `n` reads as the Church numeral `n`.
pub proof fn lemma_church_text_reads(n: nat)
    requires
        numeral_chars_plain(),
    ensures
        parse_node(church_text(n)) == Parsed::Value(church_term(n)),
{
    let body = church_body_text(n);
    lemma_church_body(n);
    lemma_parse_chain(body);
    let s = church_text(n);
    let inner = s.skip(3);
    assert(inner =~= seq!['L', 'x', '.'] + body);
    // the outer abstraction: its bound variable is read from `f.`
    lemma_find_char_facts(s, '.');
    assert(s[2] == '.');
    assert(find_char(s, '.') == Some(2int));
    let piece = s.subrange(1, 3);
    assert(piece =~= seq!['f', '.']);
    lemma_trim_unchanged(piece);
    assert(ident_end(piece) == 1);
    assert(piece.take(1) =~= seq!['f']);
    assert(parse_variable(piece) == Parsed::Value(char_var('f')));
    lemma_byte_len_single('f');
    assert(s.take(2) =~= seq!['L', 'f']);
    assert(ascii(s.take(2)));
    lemma_byte_len_ascii(s.take(2));
    assert(var_len(char_var('f')) == 1);
    // the inner abstraction: its bound variable is read from `x.`
    lemma_find_char_facts(inner, '.');
    assert(inner[2] == '.');
    assert(find_char(inner, '.') == Some(2int));
    let piece2 = inner.subrange(1, 3);
    assert(piece2 =~= seq!['x', '.']);
    lemma_trim_unchanged(piece2);
    assert(ident_end(piece2) == 1);
    assert(piece2.take(1) =~= seq!['x']);
    assert(parse_variable(piece2) == Parsed::Value(char_var('x')));
    lemma_byte_len_single('x');
    assert(inner.take(2) =~= seq!['L', 'x']);
    assert(ascii(inner.take(2)));
    lemma_byte_len_ascii(inner.take(2));
    assert(var_len(char_var('x')) == 1);
    assert(inner.skip(3) =~= body);
    assert(parse_abs(inner, true) == Parsed::Value((char_var('x'), chain(body), false)));
    assert(parse_node(inner) == Parsed::Value(
        Term::Abs(char_var('x'), Box::new(chain(body)), false),
    ));
    assert(parse_abs(s, true) == Parsed::Value(
        (char_var('f'), Term::Abs(char_var('x'), Box::new(chain(body)), false), false),
    ));
}

/// Builds the term for `number` written as a numeral of the given kind.
pub fn generate_numeral(number: usize, kind: NumeralKind) -> (r: Node)
    requires
        36 * number + 84 <= usize::MAX,
    ensures
        match kind {
            NumeralKind::Church => r@ == church_term(number as nat),
        },
{
    match kind {
        NumeralKind::Church => generate_church_numeral(number),
    }
}

/// Learns from the character tests themselves that `f`, `x` and the parentheses read as plain
/// characters.
fn check_numeral_chars()
    ensures
        numeral_chars_plain(),
{
    let _ = char_is_uppercase('f');
    let _ = char_is_uppercase('x');
    let _ = char_is_uppercase('(');
    let _ = char_is_uppercase(')');
    assert(('f' as u32) < 0x80 && ('x' as u32) < 0x80 && ('(' as u32) < 0x80 && (')' as u32)
        < 0x80);
}

/// Reads the Church numeral `number` from its text.
fn generate_church_numeral(number: usize) -> (r: Node)
    requires
        36 * number + 84 <= usize::MAX,
    ensures
        r@ == church_term(number as nat),
{
    check_numeral_chars();
    let mut s = String::new();
    push_char(&mut s, 'L');
    push_char(&mut s, 'f');
    push_char(&mut s, '.');
    push_char(&mut s, 'L');
    push_char(&mut s, 'x');
    push_char(&mut s, '.');
    let ghost head = s@;
    assert(head =~= seq!['L', 'f', '.', 'L', 'x', '.']);
    let mut i: usize = 0;
    assert(head + repeat(seq!['f', '('], 0) =~= head);
    while i < number
        invariant
            i <= number,
            s@ == head + repeat(seq!['f', '('], i as nat),
        decreases number - i,
    {
        push_char(&mut s, 'f');
        push_char(&mut s, '(');
        i = i + 1;
        assert(s@ =~= head + repeat(seq!['f', '('], i as nat));
    }
    push_char(&mut s, 'x');
    let ghost mid = s@;
    let mut j: usize = 0;
    assert(mid + repeat(seq![')'], 0) =~= mid);
    while j < number
        invariant
            j <= number,
            s@ == mid + repeat(seq![')'], j as nat),
        decreases number - j,
    {
        push_char(&mut s, ')');
        j = j + 1;
        assert(s@ =~= mid + repeat(seq![')'], j as nat));
    }
    assert(s@ =~= church_text(number as nat));
    proof {
        lemma_church_text_reads(number as nat);
        lemma_church_body(number as nat);
    }
    match Node::parse_str(s.as_str()) {
        Ok(n) => n,
        Err(_) => {
            proof {
                assert(false);
            }
            Node::Variable(crate::ast::node::variable::Variable { ident: String::new(), subtext: None })
        },
    }
}

} // verus!
