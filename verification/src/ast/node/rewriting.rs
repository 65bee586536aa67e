//! Substitution, replacement of assigned names, and beta reduction.

use vstd::prelude::*;
use crate::ast::node::{Abstraction, Application, Node, NodeVariant, Term, term_variant};
use crate::ast::node::node_ref::NodeRef;
use crate::ast::node::variable::{Variable, VarV};
use crate::ast::node::assignments::Assignments;

verus! {

/// Substituting `r` for the variable `x` in `t`. An abstraction whose bound variable is `x`
/// keeps its body, and an abstraction whose body is (or becomes) the variable `x` itself is
/// replaced by `r` as a whole.
pub open spec fn subst(t: Term, x: VarV, r: Term) -> Term
    decreases t,
{
    match t {
        Term::Var(v) => if v == x {
            r
        } else {
            t
        },
        Term::App(left, right) => Term::App(
            Box::new(subst(*left, x, r)),
            Box::new(subst(*right, x, r)),
        ),
        Term::Abs(b, body, c) => {
            let body2 = if b != x {
                subst(*body, x, r)
            } else {
                *body
            };
            if body2 == Term::Var(x) {
                r
            } else {
                Term::Abs(b, Box::new(body2), c)
            }
        },
    }
}

/// Replacing each variable of `t` that has an entry in `a` by its term, except the variable
/// `keep` and, inside an abstraction, its bound variable.
pub open spec fn subst_assign(t: Term, a: Map<VarV, Term>, keep: Option<VarV>) -> Term
    decreases t,
{
    match t {
        Term::Var(v) => if keep == Some(v) {
            t
        } else if a.contains_key(v) {
            a[v]
        } else {
            t
        },
        Term::App(left, right) => Term::App(
            Box::new(subst_assign(*left, a, keep)),
            Box::new(subst_assign(*right, a, keep)),
        ),
        Term::Abs(b, body, c) => Term::Abs(b, Box::new(subst_assign(*body, a, Some(b))), c),
    }
}

/// Whether the variable `x` stands anywhere in `t` (bound variables of abstractions aside).
pub open spec fn mentions(t: Term, x: VarV) -> bool
    decreases t,
{
    match t {
        Term::Var(v) => v == x,
        Term::App(left, right) => mentions(*left, x) || mentions(*right, x),
        Term::Abs(_, body, _) => mentions(*body, x),
    }
}

/// Substituting for a variable that a term does not mention leaves the term as it is.
pub proof fn lemma_subst_unmentioned(t: Term, x: VarV, r: Term)
    requires
        !mentions(t, x),
    ensures
        subst(t, x, r) == t,
    decreases t,
{
    match t {
        Term::Var(_) => {},
        Term::App(left, right) => {
            lemma_subst_unmentioned(*left, x, r);
            lemma_subst_unmentioned(*right, x, r);
        },
        Term::Abs(_, body, _) => {
            lemma_subst_unmentioned(*body, x, r);
        },
    }
}

/// Replacing names from a table without entries leaves a term as it is.
pub proof fn lemma_subst_assign_empty(t: Term, keep: Option<VarV>)
    ensures
        subst_assign(t, Map::empty(), keep) == t,
    decreases t,
{
    match t {
        Term::Var(_) => {},
        Term::App(left, right) => {
            lemma_subst_assign_empty(*left, keep);
            lemma_subst_assign_empty(*right, keep);
        },
        Term::Abs(b, body, _) => {
            lemma_subst_assign_empty(*body, Some(b));
        },
    }
}

/// The variables of `t` that replacing names may replace: every variable that stands in `t`,
/// except `keep` where no abstraction encloses it, and except the bound variable of the
/// innermost abstraction that encloses it.
pub open spec fn replaceable(t: Term, keep: Option<VarV>) -> Set<VarV>
    decreases t,
{
    match t {
        Term::Var(v) => if keep == Some(v) {
            Set::empty()
        } else {
            set![v]
        },
        Term::App(left, right) => replaceable(*left, keep) + replaceable(*right, keep),
        Term::Abs(b, body, _) => replaceable(*body, Some(b)),
    }
}

/// Whether `u` stands in `t` as a part of it (or is `t`).
pub open spec fn occurs_in(u: Term, t: Term) -> bool
    decreases t,
{
    t == u || match t {
        Term::Var(_) => false,
        Term::App(left, right) => occurs_in(u, *left) || occurs_in(u, *right),
        Term::Abs(_, body, _) => occurs_in(u, *body),
    }
}

/// Replacing names changes a term exactly where a replaceable variable has an entry: where none
/// has one the term stays as it is; where one has an entry (inside an abstraction's body too,
/// whatever the enclosing binders) its term stands in the result, and the term changes unless
/// that entry is the variable itself; a replaceable variable without an entry stays replaceable.
pub proof fn lemma_replacing_names_law(t: Term, a: Map<VarV, Term>, keep: Option<VarV>, x: VarV)
    ensures
        replaceable(t, keep).disjoint(a.dom()) ==> subst_assign(t, a, keep) == t,
        replaceable(t, keep).contains(x) && a.contains_key(x) && a[x] != Term::Var(x)
            ==> subst_assign(t, a, keep) != t,
        replaceable(t, keep).contains(x) && a.contains_key(x) ==> occurs_in(
            a[x],
            subst_assign(t, a, keep),
        ),
        replaceable(t, keep).contains(x) && !a.contains_key(x) ==> replaceable(
            subst_assign(t, a, keep),
            keep,
        ).contains(x),
    decreases t,
{
    match t {
        Term::Var(v) => {
            if keep != Some(v) {
                assert(replaceable(t, keep).contains(v));
            }
        },
        Term::App(left, right) => {
            lemma_replacing_names_law(*left, a, keep, x);
            lemma_replacing_names_law(*right, a, keep, x);
            if replaceable(t, keep).disjoint(a.dom()) {
                assert(replaceable(*left, keep).disjoint(a.dom()));
                assert(replaceable(*right, keep).disjoint(a.dom()));
            }
            if replaceable(t, keep).contains(x) && a.contains_key(x) && a[x] != Term::Var(x) {
                if replaceable(*left, keep).contains(x) {
                    assert(subst_assign(*left, a, keep) != *left);
                } else {
                    assert(subst_assign(*right, a, keep) != *right);
                }
            }
            let u = subst_assign(t, a, keep);
            if replaceable(t, keep).contains(x) && a.contains_key(x) {
                assert(occurs_in(a[x], u) == (u == a[x] || occurs_in(
                    a[x],
                    subst_assign(*left, a, keep),
                ) || occurs_in(a[x], subst_assign(*right, a, keep))));
            }
        },
        Term::Abs(b, body, c) => {
            lemma_replacing_names_law(*body, a, Some(b), x);
            if replaceable(t, keep).contains(x) && a.contains_key(x) && a[x] != Term::Var(x) {
                assert(subst_assign(*body, a, Some(b)) != *body);
            }
            let u = subst_assign(t, a, keep);
            if replaceable(t, keep).contains(x) && a.contains_key(x) {
                assert(occurs_in(a[x], u) == (u == a[x] || occurs_in(
                    a[x],
                    subst_assign(*body, a, Some(b)),
                )));
            }
        },
    }
}

/// One step of reducing the application `t`: an abstraction applied to an argument becomes its
/// body with the argument substituted for the bound variable; an application applied to an
/// application has both parts reduced; a variable applied to anything stays. `None` where the
/// program would stop: `t` is no application, or an application applied to something other
/// than an application.
pub open spec fn app_reduce(t: Term) -> Option<Term>
    decreases t,
{
    match t {
        Term::App(left, right) => match *left {
            Term::Abs(b, body, _) => Some(subst(*body, b, *right)),
            Term::App(_, _) => match (app_reduce(*left), app_reduce(*right)) {
                (Some(l2), Some(r2)) => Some(Term::App(Box::new(l2), Box::new(r2))),
                _ => None,
            },
            Term::Var(_) => Some(t),
        },
        _ => None,
    }
}

/// One step on an application whose function part is an application steps both parts: it
/// comes to an end exactly when each part's step does, and then gives the application of the
/// two stepped parts. An abstraction applied to an argument steps to its body with the
/// argument put in for the bound variable, so such a redex in the argument part of an
/// application headed by an application does not survive the step. A variable applied to
/// anything stays as it is, and a term that is no application has no step.
pub proof fn lemma_step_law(l: Term, r: Term, b: VarV, body: Term, c: bool, arg: Term)
    ensures
        l is App ==> ((app_reduce(Term::App(Box::new(l), Box::new(r))) is Some) <==> (app_reduce(
            l,
        ) is Some && app_reduce(r) is Some)),
        l is App ==> (app_reduce(Term::App(Box::new(l), Box::new(r))) matches Some(u) ==> (u
            matches Term::App(l2, r2) && app_reduce(l) == Some(*l2) && app_reduce(r) == Some(
            *r2,
        ))),
        app_reduce(Term::App(Box::new(Term::Abs(b, Box::new(body), c)), Box::new(arg))) == Some(
            subst(body, b, arg),
        ),
        app_reduce(Term::App(Box::new(Term::Var(b)), Box::new(r))) == Some(
            Term::App(Box::new(Term::Var(b)), Box::new(r)),
        ),
        !(l is App) ==> app_reduce(l) is None,
{
}

/// Reducing the abstraction `t` with the argument `r`: with a variable given, `r` is
/// substituted for it in all of `t`; without, for the bound variable of `t` in its body. `None`
/// where the program would stop (no variable given and `t` no abstraction).
pub open spec fn abs_reduce(t: Term, bound: Option<VarV>, r: Term) -> Option<Term> {
    match bound {
        Some(x) => Some(subst(t, x, r)),
        None => match t {
            Term::Abs(b, body, _) => Some(subst(*body, b, r)),
            _ => None,
        },
    }
}

/// Whether reducing the abstraction `t` on its own comes to an end: it only looks into nested
/// abstractions, and stops the program at the first body that is an application or a variable.
pub open spec fn reduce_self_returns(t: Term) -> bool
    decreases t,
{
    match t {
        Term::Abs(_, body, _) => match *body {
            Term::Abs(..) => reduce_self_returns(*body),
            _ => false,
        },
        _ => false,
    }
}

/// No abstraction reduced on its own comes to an end.
pub proof fn lemma_reduce_self_never_returns(t: Term)
    ensures
        !reduce_self_returns(t),
    decreases t,
{
    match t {
        Term::Abs(_, body, _) => {
            lemma_reduce_self_never_returns(*body);
        },
        _ => {},
    }
}

/// Reducing `t`, optionally substituting `rep` for `var` first: what `Node::reduce` computes.
/// `None` where the program would stop.
pub open spec fn node_reduce(t: Term, var: Option<VarV>, rep: Option<Term>) -> Option<Term> {
    match t {
        Term::Abs(..) => match rep {
            Some(r) => abs_reduce(t, var, r),
            None => if reduce_self_returns(t) {
                Some(t)
            } else {
                None
            },
        },
        Term::App(..) => app_reduce(
            match (var, rep) {
                (Some(x), Some(r)) => subst(t, x, r),
                _ => t,
            },
        ),
        Term::Var(_) => Some(
            match (var, rep) {
                (Some(x), Some(r)) => subst(t, x, r),
                _ => t,
            },
        ),
    }
}

/// The value of an optional variable handle.
pub open spec fn opt_var(v: Option<&NodeRef<Variable>>) -> Option<VarV> {
    match v {
        Some(x) => Some(x@),
        None => None,
    }
}

/// The value of an optional term handle.
pub open spec fn opt_term(t: Option<NodeRef<Node>>) -> Option<Term> {
    match t {
        Some(x) => Some(x@),
        None => None,
    }
}

/// A node that stands in while the real one is taken out: a variable with an empty name and no
/// subscript.
fn placeholder() -> (r: Node)
    ensures
        r@ == Term::Var(VarV { ident: Seq::empty(), subtext: None }),
{
    Node::Variable(Variable { ident: String::new(), subtext: None })
}

/// Takes the node out of `node`, leaving a placeholder.
fn take_out(node: &mut NodeRef<Node>) -> (r: Node)
    ensures
        r@ == old(node)@,
{
    let mut taken = NodeRef::new(placeholder());
    core::mem::swap(node, &mut taken);
    *taken.inner
}

impl Node {
    /// A copy of this term.
    pub fn duplicate(&self) -> (r: Node)
        ensures
            r@ == self@,
        decreases self,
    {
        match self {
            Node::Variable(v) => Node::Variable(v.duplicate()),
            Node::Abstraction(ab) => Node::Abstraction(
                Abstraction {
                    bound: NodeRef::new(ab.bound.inner.duplicate()),
                    body: NodeRef::new(ab.body.inner.duplicate()),
                    was_curried: ab.was_curried,
                },
            ),
            Node::Application(ap) => Node::Application(
                Application {
                    left: NodeRef::new(ap.left.inner.duplicate()),
                    right: NodeRef::new(ap.right.inner.duplicate()),
                },
            ),
        }
    }

    /// `n` with `rep` substituted for `var`.
    fn substituted(n: Node, var: &Variable, rep: &Node) -> (r: Node)
        ensures
            r@ == subst(n@, var@, rep@),
        decreases n,
    {
        match n {
            Node::Variable(v) => {
                if v.same_as(var) {
                    rep.duplicate()
                } else {
                    Node::Variable(v)
                }
            },
            Node::Application(Application { left, right }) => {
                let l = Node::substituted(*left.inner, var, rep);
                let r = Node::substituted(*right.inner, var, rep);
                Node::Application(Application { left: NodeRef::new(l), right: NodeRef::new(r) })
            },
            Node::Abstraction(Abstraction { bound, body, was_curried }) => {
                let body2 = if !bound.inner.same_as(var) {
                    Node::substituted(*body.inner, var, rep)
                } else {
                    *body.inner
                };
                let body_is_var = match &body2 {
                    Node::Variable(bv) => bv.same_as(var),
                    _ => false,
                };
                if body_is_var {
                    rep.duplicate()
                } else {
                    Node::Abstraction(
                        Abstraction { bound, body: NodeRef::new(body2), was_curried },
                    )
                }
            },
        }
    }

    /// Substitutes `replacement` for `var` in the term `node` holds.
    pub fn substitute(node: &mut NodeRef<Node>, var: &NodeRef<Variable>, replacement: NodeRef<Node>)
        ensures
            final(node)@ == subst(old(node)@, var@, replacement@),
    {
        let n = take_out(node);
        let r = Node::substituted(n, var.borrow(), replacement.borrow());
        *node = NodeRef::new(r);
    }

    /// `n` with each variable that has an entry in `a` replaced by its term, except `keep` and
    /// the bound variables of abstractions within their bodies.
    fn assigned(n: Node, a: &Assignments, keep: Option<&Variable>) -> (r: Node)
        requires
            a.wf(),
        ensures
            r@ == subst_assign(
                n@,
                a@,
                match keep {
                    Some(k) => Some(k@),
                    None => None,
                },
            ),
        decreases n,
    {
        match n {
            Node::Variable(v) => {
                let kept = match keep {
                    Some(k) => k.same_as(&v),
                    None => false,
                };
                if kept {
                    Node::Variable(v)
                } else {
                    match a.get(&v) {
                        Some(body) => body.inner.duplicate(),
                        None => Node::Variable(v),
                    }
                }
            },
            Node::Application(Application { left, right }) => {
                let l = Node::assigned(*left.inner, a, keep);
                let r = Node::assigned(*right.inner, a, keep);
                Node::Application(Application { left: NodeRef::new(l), right: NodeRef::new(r) })
            },
            Node::Abstraction(Abstraction { bound, body, was_curried }) => {
                let body2 = Node::assigned(*body.inner, a, Some(bound.borrow()));
                Node::Abstraction(Abstraction { bound, body: NodeRef::new(body2), was_curried })
            },
        }
    }

    /// Replaces, in the term `node` holds, each variable that has an entry in `assignments` by
    /// its term; `no_replace` is kept as it is, and inside an abstraction its bound variable.
    pub fn substitute_assignments(
        node: &mut NodeRef<Node>,
        assignments: &Assignments,
        no_replace: Option<&NodeRef<Variable>>,
    )
        requires
            assignments.wf(),
        ensures
            final(node)@ == subst_assign(old(node)@, assignments@, opt_var(no_replace)),
    {
        let n = take_out(node);
        let keep = match no_replace {
            Some(v) => Some(v.borrow()),
            None => None,
        };
        let r = Node::assigned(n, assignments, keep);
        *node = NodeRef::new(r);
    }

    /// Which kind of term `node` holds.
    pub fn variant(node: &NodeRef<Self>) -> (r: NodeVariant)
        ensures
            r == term_variant(node@),
    {
        match node.borrow() {
            Node::Variable(_) => NodeVariant::Variable,
            Node::Abstraction(_) => NodeVariant::Abstraction,
            Node::Application(_) => NodeVariant::Application,
        }
    }

    /// Reduces the term `node` holds, substituting `replacement` for `var` first when both are
    /// given. An abstraction with a replacement is reduced by `Abstraction::reduce`; an
    /// application by `Application::reduce_self`; a variable stays as it is.
    pub fn reduce(
        node: &mut NodeRef<Self>,
        var: Option<&NodeRef<Variable>>,
        replacement: Option<NodeRef<Self>>,
    )
        requires
            node_reduce(old(node)@, opt_var(var), opt_term(replacement)) is Some,
        ensures
            final(node)@ == node_reduce(old(node)@, opt_var(var), opt_term(replacement))->0,
    {
        match Node::variant(node) {
            NodeVariant::Abstraction => {
                match replacement {
                    Some(with) => {
                        Abstraction::reduce(node, var, with);
                    },
                    None => {
                        Abstraction::reduce_self(node);
                    },
                }
            },
            NodeVariant::Application => {
                match (var, replacement) {
                    (Some(v), Some(r)) => {
                        Node::substitute(node, v, r);
                    },
                    _ => {},
                }
                Application::reduce_self(node);
            },
            NodeVariant::Variable => {
                match (var, replacement) {
                    (Some(v), Some(r)) => {
                        Node::substitute(node, v, r);
                    },
                    _ => {},
                }
            },
        }
    }
}

impl Node {
    /// Whether one step of reducing the application `n` comes to an end (see `app_reduce`).
    fn app_reducible(n: &Node) -> (r: bool)
        ensures
            r == (app_reduce(n@) is Some),
        decreases n,
    {
        match n {
            Node::Application(ap) => match ap.left.borrow() {
                Node::Abstraction(_) => true,
                Node::Application(_) => Node::app_reducible(ap.left.borrow())
                    && Node::app_reducible(ap.right.borrow()),
                Node::Variable(_) => true,
            },
            _ => false,
        }
    }

    /// Whether `Node::reduce` without a variable and a replacement comes to an end on the term
    /// `node` holds: never on an abstraction, always on a variable, and on an application as
    /// `app_reduce` says.
    pub fn can_reduce(node: &NodeRef<Node>) -> (r: bool)
        ensures
            r == (node_reduce(node@, None, None) is Some),
    {
        match node.borrow() {
            Node::Abstraction(_) => {
                proof {
                    lemma_reduce_self_never_returns(node@);
                }
                false
            },
            Node::Variable(_) => true,
            Node::Application(_) => Node::app_reducible(node.borrow()),
        }
    }
}

impl Abstraction {
    /// Reduces the abstraction `ab` holds on its own. Its body is looked into only where it is
    /// an abstraction again; an application or a variable there stops the program, so no call
    /// comes to an end (see `lemma_reduce_self_never_returns`).
    pub fn reduce_self(ab: &NodeRef<Node>)
        requires
            reduce_self_returns(ab@),
        decreases ab@,
    {
        match ab.borrow() {
            Node::Abstraction(a) => {
                match Node::variant(&a.body) {
                    NodeVariant::Abstraction => Abstraction::reduce_self(&a.body),
                    _ => {},
                }
            },
            _ => {},
        }
    }

    /// Reduces the abstraction `ab` holds with the argument `replacement`: with `bound` given,
    /// `replacement` is substituted for it in the whole term; without, `ab` becomes its body
    /// with `replacement` substituted for its bound variable.
    pub fn reduce(ab: &mut NodeRef<Node>, bound: Option<&NodeRef<Variable>>, replacement: NodeRef<Node>)
        requires
            abs_reduce(old(ab)@, opt_var(bound), replacement@) is Some,
        ensures
            final(ab)@ == abs_reduce(old(ab)@, opt_var(bound), replacement@)->0,
    {
        match bound {
            Some(b) => {
                Node::substitute(ab, b, replacement);
            },
            None => {
                let n = take_out(ab);
                match n {
                    Node::Abstraction(Abstraction { bound, body, was_curried: _ }) => {
                        let mut body = body;
                        Node::substitute(&mut body, &bound, replacement);
                        *ab = body;
                    },
                    _ => {
                        proof {
                            assert(false);
                        }
                    },
                }
            },
        }
    }
}

impl Application {
    /// Reduces the application `ap` holds by one step (see `app_reduce`).
    pub fn reduce_self(ap: &mut NodeRef<Node>)
        requires
            app_reduce(old(ap)@) is Some,
        ensures
            final(ap)@ == app_reduce(old(ap)@)->0,
        decreases old(ap)@,
    {
        let n = take_out(ap);
        let ghost t = n@;
        match n {
            Node::Application(Application { left, right }) => {
                match Node::variant(&left) {
                    NodeVariant::Abstraction => {
                        let mut l = left;
                        Abstraction::reduce(&mut l, None, right);
                        *ap = l;
                    },
                    NodeVariant::Application => {
                        let mut l = left;
                        let mut r = right;
                        Application::reduce_self(&mut l);
                        Application::reduce_self(&mut r);
                        *ap = NodeRef::new(Node::Application(Application { left: l, right: r }));
                    },
                    NodeVariant::Variable => {
                        *ap = NodeRef::new(Node::Application(Application { left, right }));
                    },
                }
            },
            _ => {
                proof {
                    assert(false);
                }
            },
        }
    }
}

impl NodeRef<Node> {
    /// Substitutes `replacement` for `var` in the held term.
    pub fn substitute(&mut self, var: &NodeRef<Variable>, replacement: NodeRef<Node>)
        ensures
            final(self)@ == subst(old(self)@, var@, replacement@),
    {
        Node::substitute(self, var, replacement);
    }

    /// Which kind of term is held.
    pub fn variant(&self) -> (r: NodeVariant)
        ensures
            r == term_variant(self@),
    {
        Node::variant(self)
    }
}

} // verus!
