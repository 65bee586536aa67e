//! Writing terms out as text.

use vstd::prelude::*;
use crate::LAMBDA_CHAR;
use crate::text::push_char;
use crate::ast::node::{Abstraction, Application, Node, Term, term_len};
use crate::ast::node::node_ref::NodeRef;
use crate::ast::node::variable::var_text;

verus! {

/// How a term is written out: a variable as itself; an abstraction as the lambda character, its
/// bound variable, `.` and its body, a curried one with both bound variables before the `.`; an
/// application as its two parts side by side, the second in parentheses unless the application
/// takes no more than two characters.
pub open spec fn term_text(t: Term) -> Seq<char>
    decreases t,
{
    match t {
        Term::Var(v) => var_text(v),
        Term::Abs(b, body, c) => if c {
            match *body {
                Term::Abs(b2, body2, _) => seq![LAMBDA_CHAR] + var_text(b) + var_text(b2) + seq!['.']
                    + term_text(*body2),
                _ => Seq::empty(),
            }
        } else {
            seq![LAMBDA_CHAR] + var_text(b) + seq!['.'] + term_text(*body)
        },
        Term::App(l, r) => if term_len(t) > 2 {
            term_text(*l) + seq!['('] + term_text(*r) + seq![')']
        } else {
            term_text(*l) + term_text(*r)
        },
    }
}

/// Whether `t` can be written out: every abstraction marked curried has an abstraction as its
/// body (else writing it out stops the program).
pub open spec fn display_ok(t: Term) -> bool
    decreases t,
{
    match t {
        Term::Var(_) => true,
        Term::Abs(_, body, c) => if c {
            match *body {
                Term::Abs(_, body2, _) => display_ok(*body2),
                _ => false,
            }
        } else {
            display_ok(*body)
        },
        Term::App(l, r) => display_ok(*l) && display_ok(*r),
    }
}

/// The parts of a term are counted as no longer than the term.
pub proof fn lemma_term_len_parts(t: Term)
    ensures
        match t {
            Term::Abs(_, body, _) => term_len(*body) < term_len(t),
            Term::App(l, r) => term_len(*l) <= term_len(t) && term_len(*r) <= term_len(t),
            _ => true,
        },
{
}

impl Node {
    /// Appends how this term is written out to `out`.
    pub fn write_to(&self, out: &mut String)
        requires
            display_ok(self@),
            term_len(self@) <= usize::MAX,
        ensures
            final(out)@ == old(out)@ + term_text(self@),
        decreases self,
    {
        match self {
            Node::Variable(v) => v.write_to(out),
            Node::Abstraction(ab) => ab.write_to(out),
            Node::Application(ap) => ap.write_to(out),
        }
    }

    /// How this term is written out.
    pub fn to_string(&self) -> (r: String)
        requires
            display_ok(self@),
            term_len(self@) <= usize::MAX,
        ensures
            r@ == term_text(self@),
    {
        let mut out = String::new();
        self.write_to(&mut out);
        assert(out@ =~= term_text(self@));
        out
    }
}

impl Abstraction {
    /// Appends how this abstraction is written out to `out`.
    pub fn write_to(&self, out: &mut String)
        requires
            display_ok(self@),
            term_len(self@) <= usize::MAX,
        ensures
            final(out)@ == old(out)@ + term_text(self@),
        decreases self,
    {
        proof {
            lemma_term_len_parts(self@);
        }
        let ghost start = out@;
        if self.was_curried {
            match self.body.borrow() {
                Node::Abstraction(inner) => {
                    proof {
                        lemma_term_len_parts(inner@);
                    }
                    push_char(out, LAMBDA_CHAR);
                    self.bound.borrow().write_to(out);
                    inner.bound.borrow().write_to(out);
                    push_char(out, '.');
                    inner.body.borrow().write_to(out);
                    proof {
                        let t = self@;
                        assert(out@ =~= start + term_text(t));
                    }
                },
                _ => {
                    proof {
                        assert(false);
                    }
                },
            }
        } else {
            push_char(out, LAMBDA_CHAR);
            self.bound.borrow().write_to(out);
            push_char(out, '.');
            self.body.borrow().write_to(out);
            assert(out@ =~= start + term_text(self@));
        }
    }

    /// How this abstraction is written out.
    pub fn to_string(&self) -> (r: String)
        requires
            display_ok(self@),
            term_len(self@) <= usize::MAX,
        ensures
            r@ == term_text(self@),
    {
        let mut out = String::new();
        self.write_to(&mut out);
        assert(out@ =~= term_text(self@));
        out
    }
}

impl Application {
    /// Appends how this application is written out to `out`.
    pub fn write_to(&self, out: &mut String)
        requires
            display_ok(self@),
            term_len(self@) <= usize::MAX,
        ensures
            final(out)@ == old(out)@ + term_text(self@),
        decreases self,
    {
        proof {
            lemma_term_len_parts(self@);
        }
        let ghost start = out@;
        if self.len() > 2 {
            self.left.borrow().write_to(out);
            push_char(out, '(');
            self.right.borrow().write_to(out);
            push_char(out, ')');
        } else {
            self.left.borrow().write_to(out);
            self.right.borrow().write_to(out);
        }
        assert(out@ =~= start + term_text(self@));
    }

    /// How this application is written out.
    pub fn to_string(&self) -> (r: String)
        requires
            display_ok(self@),
            term_len(self@) <= usize::MAX,
        ensures
            r@ == term_text(self@),
    {
        let mut out = String::new();
        self.write_to(&mut out);
        assert(out@ =~= term_text(self@));
        out
    }
}

impl NodeRef<Node> {
    /// How the held term is written out.
    pub fn to_string(&self) -> (r: String)
        requires
            display_ok(self@),
            term_len(self@) <= usize::MAX,
        ensures
            r@ == term_text(self@),
    {
        self.borrow().to_string()
    }
}

} // verus!
