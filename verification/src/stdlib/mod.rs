//! The standard library: named terms that every program can use.

pub mod numerals;

use vstd::prelude::*;
use crate::error::Parsed;
use crate::ast::expr::{Statement, Unzip, assignments_of, parse_statements};
use crate::ast::node::Term;
use crate::ast::node::assignments::{Assignments, insert_assignment};
use crate::ast::node::variable::VarV;

verus! {

/// The texts of the standard library, one assignment each, in the order they are added.
pub open spec fn stdlib_texts() -> Seq<Seq<char>> {
    seq![
        "0 := Lf.Lx.x"@,
        "I := Lx.x"@,
        "S := Lx.Ly.Lz.xyz"@,
        "K := Lx.Ly.x"@,
        "B := Lx.Ly.Lz.xyz"@,
        "C := Lx.Ly.Lz.xzy"@,
        "W := Lx.Ly.xyy"@,
        "U := (Lx.x)x"@,
        "OMEGA := U U"@,
        "Y := BU(C(B(U)))"@,
        "TRUE := Lx.Ly.x"@,
        "FALSE := Lx.Ly.y"@,
        "AND := Lp.Lq.((pq)p)"@,
        "OR := Lp.Lq.ppq"@,
        "NOT := Lp.p(TRUE FALSE)"@,
        "IFTHENELSE := Lp.La.Lb.(pab)"@,
        "SUCC := Ln.Lf.Lx.(f((nf)x))"@,
        "PLUS := Lm.Ln.(m SUCC n)"@,
        "SUB := Lm.Ln.(n PRED m)"@,
        "MULT := Lm.Ln.((m PLUS n) 0)"@,
        "POW := Lb.Ln.(nb)"@,
        "PAIR := Lx.Ly.Lf.(f(xy))"@,
        "FIRST := Lp.(p(Lx.Ly.x))"@,
        "SECOND := Lp.(p(Lx.Ly.y))"@,
        "NULL := Lp.p(Lx.Ly.FALSE)"@,
        "NIL := Lf.TRUE"@,
        "ISZERO := Ln.(n (Lx.FALSE) TRUE)"@,
        "LEQ := Lm.Ln.(ISZERO(SUB mn))"@,
        "PREDICATE := Ln.(n(Lg.Lk.ISZERO)(g1)k(PLUS((gk)1))(Lv.0)0)"@
    ]
}

/// The assignment the text `text` holds: the first assignment among its statements, where it
/// reads.
pub open spec fn stdlib_entry(text: Seq<char>) -> Option<(VarV, Term)> {
    match parse_statements(text) {
        Parsed::Value(sts) => if assignments_of(sts).len() > 0 {
            Some(assignments_of(sts)[0])
        } else {
            None
        },
        _ => None,
    }
}

/// The table the texts `texts` give, added in order: none where a text holds no assignment or
/// an assignment names a variable a text before it named.
pub open spec fn stdlib_table_from(texts: Seq<Seq<char>>) -> Option<Map<VarV, Term>>
    decreases texts.len(),
{
    if texts.len() == 0 {
        Some(Map::empty())
    } else {
        match (stdlib_table_from(texts.drop_last()), stdlib_entry(texts.last())) {
            (Some(m), Some((v, t))) => if m.contains_key(v) {
                None
            } else {
                Some(m.insert(v, t))
            },
            _ => None,
        }
    }
}

/// The table of the standard library.
pub open spec fn stdlib_table() -> Option<Map<VarV, Term>> {
    stdlib_table_from(stdlib_texts())
}

/// Once a prefix of the texts gives no table, no longer prefix gives one.
proof fn lemma_table_none_extends(texts: Seq<Seq<char>>, i: int, j: int)
    requires
        0 <= i <= j <= texts.len(),
        stdlib_table_from(texts.take(i)) is None,
    ensures
        stdlib_table_from(texts.take(j)) is None,
    decreases j - i,
{
    if j > i {
        lemma_table_none_extends(texts, i, j - 1);
        assert(texts.take(j).drop_last() =~= texts.take(j - 1));
    }
}

/// Appends a source text of at most 64 characters.
fn add_source(v: &mut Vec<&'static str>, s: &'static str)
    requires
        s@.len() <= 64,
        forall|i: int| 0 <= i < old(v)@.len() ==> #[trigger] old(v)@[i]@.len() <= 64,
    ensures
        final(v)@ == old(v)@.push(s),
        forall|i: int| 0 <= i < final(v)@.len() ==> #[trigger] final(v)@[i]@.len() <= 64,
{
    v.push(s);
}

/// The texts of the standard library.
pub fn stdlib_sources() -> (r: Vec<&'static str>)
    ensures
        r@.map_values(|s: &str| s@) == stdlib_texts(),
        forall|i: int| 0 <= i < r@.len() ==> #[trigger] r@[i]@.len() <= 64,
{
    let mut v: Vec<&'static str> = Vec::new();
    proof {
        reveal_strlit("0 := Lf.Lx.x");
    }
    add_source(&mut v, "0 := Lf.Lx.x");
    proof {
        reveal_strlit("I := Lx.x");
    }
    add_source(&mut v, "I := Lx.x");
    proof {
        reveal_strlit("S := Lx.Ly.Lz.xyz");
    }
    add_source(&mut v, "S := Lx.Ly.Lz.xyz");
    proof {
        reveal_strlit("K := Lx.Ly.x");
    }
    add_source(&mut v, "K := Lx.Ly.x");
    proof {
        reveal_strlit("B := Lx.Ly.Lz.xyz");
    }
    add_source(&mut v, "B := Lx.Ly.Lz.xyz");
    proof {
        reveal_strlit("C := Lx.Ly.Lz.xzy");
    }
    add_source(&mut v, "C := Lx.Ly.Lz.xzy");
    proof {
        reveal_strlit("W := Lx.Ly.xyy");
    }
    add_source(&mut v, "W := Lx.Ly.xyy");
    proof {
        reveal_strlit("U := (Lx.x)x");
    }
    add_source(&mut v, "U := (Lx.x)x");
    proof {
        reveal_strlit("OMEGA := U U");
    }
    add_source(&mut v, "OMEGA := U U");
    proof {
        reveal_strlit("Y := BU(C(B(U)))");
    }
    add_source(&mut v, "Y := BU(C(B(U)))");
    proof {
        reveal_strlit("TRUE := Lx.Ly.x");
    }
    add_source(&mut v, "TRUE := Lx.Ly.x");
    proof {
        reveal_strlit("FALSE := Lx.Ly.y");
    }
    add_source(&mut v, "FALSE := Lx.Ly.y");
    proof {
        reveal_strlit("AND := Lp.Lq.((pq)p)");
    }
    add_source(&mut v, "AND := Lp.Lq.((pq)p)");
    proof {
        reveal_strlit("OR := Lp.Lq.ppq");
    }
    add_source(&mut v, "OR := Lp.Lq.ppq");
    proof {
        reveal_strlit("NOT := Lp.p(TRUE FALSE)");
    }
    add_source(&mut v, "NOT := Lp.p(TRUE FALSE)");
    proof {
        reveal_strlit("IFTHENELSE := Lp.La.Lb.(pab)");
    }
    add_source(&mut v, "IFTHENELSE := Lp.La.Lb.(pab)");
    proof {
        reveal_strlit("SUCC := Ln.Lf.Lx.(f((nf)x))");
    }
    add_source(&mut v, "SUCC := Ln.Lf.Lx.(f((nf)x))");
    proof {
        reveal_strlit("PLUS := Lm.Ln.(m SUCC n)");
    }
    add_source(&mut v, "PLUS := Lm.Ln.(m SUCC n)");
    proof {
        reveal_strlit("SUB := Lm.Ln.(n PRED m)");
    }
    add_source(&mut v, "SUB := Lm.Ln.(n PRED m)");
    proof {
        reveal_strlit("MULT := Lm.Ln.((m PLUS n) 0)");
    }
    add_source(&mut v, "MULT := Lm.Ln.((m PLUS n) 0)");
    proof {
        reveal_strlit("POW := Lb.Ln.(nb)");
    }
    add_source(&mut v, "POW := Lb.Ln.(nb)");
    proof {
        reveal_strlit("PAIR := Lx.Ly.Lf.(f(xy))");
    }
    add_source(&mut v, "PAIR := Lx.Ly.Lf.(f(xy))");
    proof {
        reveal_strlit("FIRST := Lp.(p(Lx.Ly.x))");
    }
    add_source(&mut v, "FIRST := Lp.(p(Lx.Ly.x))");
    proof {
        reveal_strlit("SECOND := Lp.(p(Lx.Ly.y))");
    }
    add_source(&mut v, "SECOND := Lp.(p(Lx.Ly.y))");
    proof {
        reveal_strlit("NULL := Lp.p(Lx.Ly.FALSE)");
    }
    add_source(&mut v, "NULL := Lp.p(Lx.Ly.FALSE)");
    proof {
        reveal_strlit("NIL := Lf.TRUE");
    }
    add_source(&mut v, "NIL := Lf.TRUE");
    proof {
        reveal_strlit("ISZERO := Ln.(n (Lx.FALSE) TRUE)");
    }
    add_source(&mut v, "ISZERO := Ln.(n (Lx.FALSE) TRUE)");
    proof {
        reveal_strlit("LEQ := Lm.Ln.(ISZERO(SUB mn))");
    }
    add_source(&mut v, "LEQ := Lm.Ln.(ISZERO(SUB mn))");
    proof {
        reveal_strlit("PREDICATE := Ln.(n(Lg.Lk.ISZERO)(g1)k(PLUS((gk)1))(Lv.0)0)");
    }
    add_source(&mut v, "PREDICATE := Ln.(n(Lg.Lk.ISZERO)(g1)k(PLUS((gk)1))(Lv.0)0)");
    assert(v@.map_values(|s: &str| s@) =~= stdlib_texts());
    v
}

/// Reads the standard library into a table of assignments. Each text is read as a program and
/// its first assignment is added; where a text does not read, holds no assignment, or names a
/// variable that an earlier one named, there is no table.
pub fn stdlib_assignments() -> (r: Option<Assignments>)
    ensures
        match stdlib_table() {
            Some(m) => r matches Some(a) && a.wf() && a@ == m,
            None => r is None,
        },
{
    let sources = stdlib_sources();
    let ghost texts = stdlib_texts();
    let mut map = Assignments::new();
    let mut i: usize = 0;
    assert(texts.take(0) =~= Seq::<Seq<char>>::empty());
    while i < sources.len()
        invariant
            i <= sources.len(),
            texts == stdlib_texts(),
            sources@.map_values(|s: &str| s@) == texts,
            forall|k: int| 0 <= k < sources@.len() ==> #[trigger] sources@[k]@.len() <= 64,
            map.wf(),
            stdlib_table_from(texts.take(i as int)) == Some(map@),
        decreases sources.len() - i,
    {
        let src: &str = sources[i];
        assert(src@ == texts[i as int]);
        assert(src@.len() <= 64);
        assert(texts.take(i + 1).drop_last() =~= texts.take(i as int));
        assert(texts.take(i + 1).last() == texts[i as int]);
        let sts = match Statement::read(src) {
            Parsed::Value(sts) => sts,
            _ => {
                proof {
                    assert(stdlib_entry(texts[i as int]) is None);
                    assert(stdlib_table_from(texts.take(i + 1)) is None);
                    lemma_table_none_extends(texts, i + 1, texts.len() as int);
                    assert(texts.take(texts.len() as int) =~= texts);
                }
                return None;
            },
        };
        let ghost stv = sts@.map_values(|st: Statement| st@);
        let parts = sts.unzip();
        let mut found = parts.assignments;
        if found.len() == 0 {
            proof {
                assert(assignments_of(stv).len() == 0);
                assert(stdlib_entry(texts[i as int]) is None);
                assert(stdlib_table_from(texts.take(i + 1)) is None);
                lemma_table_none_extends(texts, i + 1, texts.len() as int);
                assert(texts.take(texts.len() as int) =~= texts);
            }
            return None;
        }
        let first = found.remove(0);
        assert(first@ == assignments_of(stv)[0]);
        if insert_assignment(&mut map, first).is_some() {
            proof {
                lemma_table_none_extends(texts, i + 1, texts.len() as int);
                assert(texts.take(texts.len() as int) =~= texts);
            }
            return None;
        }
        i = i + 1;
    }
    assert(texts.take(i as int) =~= texts);
    Some(map)
}

} // verus!
