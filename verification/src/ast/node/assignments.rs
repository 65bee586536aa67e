//! The table of named terms that assignments `NAME := term` build.

use vstd::prelude::*;
use crate::ast::node::{Node, Term};
use crate::ast::node::node_ref::NodeRef;
use crate::ast::node::variable::{Variable, VarV};
use crate::ast::expr::Assignment;

verus! {

/// The map that the entries `(name, term)` stand for, later entries taking the place of earlier
/// ones under the same name.
pub open spec fn entries_map(es: Seq<(VarV, Term)>) -> Map<VarV, Term>
    decreases es.len(),
{
    if es.len() == 0 {
        Map::empty()
    } else {
        entries_map(es.drop_last()).insert(es.last().0, es.last().1)
    }
}

/// No name stands twice among the entries.
pub open spec fn distinct_names(es: Seq<(VarV, Term)>) -> bool {
    forall|i: int, j: int| 0 <= i < j < es.len() ==> es[i].0 != es[j].0
}

/// A table from variables to the terms assigned to them.
#[derive(Debug)]
pub struct Assignments {
    pub entries: Vec<(Variable, NodeRef<Node>)>,
}

impl Assignments {
    /// The entries as values.
    pub open spec fn entries_view(&self) -> Seq<(VarV, Term)> {
        self.entries@.map_values(|e: (Variable, NodeRef<Node>)| (e.0@, e.1@))
    }

    /// No variable has two entries.
    pub open spec fn wf(&self) -> bool {
        distinct_names(self.entries_view())
    }
}

impl View for Assignments {
    type V = Map<VarV, Term>;

    open spec fn view(&self) -> Map<VarV, Term> {
        entries_map(self.entries_view())
    }
}

/// A variable has an entry in the table exactly when some entry names it.
pub proof fn lemma_entries_map_domain(es: Seq<(VarV, Term)>, k: VarV)
    ensures
        entries_map(es).contains_key(k) <==> exists|i: int| 0 <= i < es.len() && es[i].0 == k,
    decreases es.len(),
{
    if es.len() > 0 {
        lemma_entries_map_domain(es.drop_last(), k);
        if entries_map(es.drop_last()).contains_key(k) {
            let i = choose|i: int| 0 <= i < es.drop_last().len() && es.drop_last()[i].0 == k;
            assert(es[i].0 == k);
        }
        if exists|i: int| 0 <= i < es.len() && es[i].0 == k {
            let i = choose|i: int| 0 <= i < es.len() && es[i].0 == k;
            if i < es.len() - 1 {
                assert(es.drop_last()[i].0 == k);
            }
        }
    }
}

/// Where names are distinct, the table maps the name of each entry to its term.
pub proof fn lemma_entries_map_at(es: Seq<(VarV, Term)>, i: int)
    requires
        distinct_names(es),
        0 <= i < es.len(),
    ensures
        entries_map(es).contains_key(es[i].0),
        entries_map(es)[es[i].0] == es[i].1,
    decreases es.len(),
{
    if i < es.len() - 1 {
        assert(distinct_names(es.drop_last()));
        lemma_entries_map_at(es.drop_last(), i);
        assert(es.drop_last()[i] == es[i]);
        assert(es.last().0 != es[i].0);
    }
}

/// Changing the term of one entry changes the table at that entry's name only.
pub proof fn lemma_entries_map_update(es: Seq<(VarV, Term)>, i: int, t: Term)
    requires
        distinct_names(es),
        0 <= i < es.len(),
    ensures
        distinct_names(es.update(i, (es[i].0, t))),
        entries_map(es.update(i, (es[i].0, t))) == entries_map(es).insert(es[i].0, t),
    decreases es.len(),
{
    let es2 = es.update(i, (es[i].0, t));
    if i == es.len() - 1 {
        assert(es2.drop_last() =~= es.drop_last());
    } else {
        assert(distinct_names(es.drop_last()));
        lemma_entries_map_update(es.drop_last(), i, t);
        assert(es2.drop_last() =~= es.drop_last().update(i, (es[i].0, t)));
        assert(es.last().0 != es[i].0);
        assert(entries_map(es2) =~= entries_map(es).insert(es[i].0, t));
    }
}

impl Assignments {
    /// An empty table.
    pub fn new() -> (r: Assignments)
        ensures
            r.wf(),
            r@ == Map::<VarV, Term>::empty(),
    {
        let r = Assignments { entries: Vec::new() };
        assert(r.entries_view() =~= Seq::<(VarV, Term)>::empty());
        r
    }

    /// The number of variables with an entry.
    pub fn len(&self) -> (r: usize)
        requires
            self.wf(),
        ensures
            r == self@.dom().len(),
    {
        proof {
            self.lemma_len();
        }
        self.entries.len()
    }

    proof fn lemma_len(&self)
        requires
            self.wf(),
        ensures
            self@.dom().len() == self.entries@.len(),
            self@.dom().finite(),
    {
        lemma_distinct_map_len(self.entries_view());
    }

    /// Where `v` has an entry, its index.
    fn position(&self, v: &Variable) -> (r: Option<usize>)
        requires
            self.wf(),
        ensures
            match r {
                Some(i) => i < self.entries@.len() && self.entries_view()[i as int].0 == v@,
                None => !self@.contains_key(v@),
            },
    {
        let mut i: usize = 0;
        while i < self.entries.len()
            invariant
                i <= self.entries@.len(),
                forall|j: int| 0 <= j < i ==> self.entries_view()[j].0 != v@,
            decreases self.entries@.len() - i,
        {
            if self.entries[i].0.same_as(v) {
                return Some(i);
            }
            i = i + 1;
        }
        proof {
            lemma_entries_map_domain(self.entries_view(), v@);
        }
        None
    }

    /// The term assigned to `v`, if any.
    pub fn get(&self, v: &Variable) -> (r: Option<&NodeRef<Node>>)
        requires
            self.wf(),
        ensures
            r is Some <==> self@.contains_key(v@),
            r matches Some(b) ==> b@ == self@[v@],
    {
        match self.position(v) {
            Some(i) => {
                proof {
                    lemma_entries_map_at(self.entries_view(), i as int);
                }
                Some(&self.entries[i].1)
            },
            None => None,
        }
    }

    /// Assigns `body` to `v`, giving back the term assigned to `v` before, if any.
    pub fn insert(&mut self, v: Variable, body: NodeRef<Node>) -> (r: Option<NodeRef<Node>>)
        requires
            old(self).wf(),
        ensures
            final(self).wf(),
            final(self)@ == old(self)@.insert(v@, body@),
            r is Some <==> old(self)@.contains_key(v@),
            r matches Some(b) ==> b@ == old(self)@[v@],
    {
        match self.position(&v) {
            Some(i) => {
                proof {
                    lemma_entries_map_at(self.entries_view(), i as int);
                    lemma_entries_map_update(self.entries_view(), i as int, body@);
                }
                let ghost old_view = self.entries_view();
                let mut entry = (v, body);
                core::mem::swap(&mut entry, &mut self.entries[i]);
                assert(self.entries_view() =~= old_view.update(i as int, (old_view[i as int].0, body@)));
                Some(entry.1)
            },
            None => {
                proof {
                    lemma_entries_map_domain(self.entries_view(), v@);
                }
                let ghost old_view = self.entries_view();
                self.entries.push((v, body));
                assert(self.entries_view() =~= old_view.push((v@, body@)));
                assert(self.entries_view().drop_last() =~= old_view);
                None
            },
        }
    }
}

proof fn lemma_distinct_map_len(es: Seq<(VarV, Term)>)
    requires
        distinct_names(es),
    ensures
        entries_map(es).dom().len() == es.len(),
        entries_map(es).dom().finite(),
    decreases es.len(),
{
    if es.len() > 0 {
        assert(distinct_names(es.drop_last()));
        lemma_distinct_map_len(es.drop_last());
        lemma_entries_map_domain(es.drop_last(), es.last().0);
        if entries_map(es.drop_last()).contains_key(es.last().0) {
            let i = choose|i: int| 0 <= i < es.drop_last().len() && es.drop_last()[i].0 == es.last().0;
            assert(es[i].0 == es[es.len() - 1].0);
        }
    }
}

/// After a term is assigned to a variable, looking the variable up gives that term; every other
/// variable keeps what it had; the table has one more entry exactly when the variable had none.
pub proof fn lemma_insert_then_get(m: Map<VarV, Term>, v: VarV, t: Term, w: VarV)
    requires
        m.dom().finite(),
    ensures
        m.insert(v, t).contains_key(v),
        m.insert(v, t)[v] == t,
        w != v ==> (m.insert(v, t).contains_key(w) <==> m.contains_key(w)),
        w != v && m.contains_key(w) ==> m.insert(v, t)[w] == m[w],
        m.insert(v, t).dom().len() == if m.contains_key(v) {
            m.dom().len()
        } else {
            m.dom().len() + 1
        },
{
    if m.contains_key(v) {
        assert(m.insert(v, t).dom() =~= m.dom());
    } else {
        assert(m.insert(v, t).dom() =~= m.dom().insert(v));
    }
}

/// Adds one assignment to the table, giving back the term its variable had before, if any.
pub fn insert_assignment(map: &mut Assignments, assignment: Assignment) -> (r: Option<NodeRef<Node>>)
    requires
        old(map).wf(),
    ensures
        final(map).wf(),
        final(map)@ == old(map)@.insert(assignment.bound@, assignment.body@),
        r is Some <==> old(map)@.contains_key(assignment.bound@),
        r matches Some(b) ==> b@ == old(map)@[assignment.bound@],
{
    map.insert(assignment.bound, assignment.body)
}


/// Adding the assignments `asg` to the table `m` one after another, as long as each one finds
/// its variable already in the table: the table afterwards, and the terms the variables had
/// before (none, if the adding stopped at a variable the table did not hold; that assignment is
/// still added, the ones after it are not).
pub open spec fn insert_many_spec(m: Map<VarV, Term>, asg: Seq<(VarV, Term)>) -> (
    Map<VarV, Term>,
    Option<Seq<Term>>,
)
    decreases asg.len(),
{
    if asg.len() == 0 {
        (m, Some(Seq::empty()))
    } else {
        let k = asg[0].0;
        let m2 = m.insert(k, asg[0].1);
        if m.contains_key(k) {
            let rest = insert_many_spec(m2, asg.drop_first());
            (
                rest.0,
                match rest.1 {
                    Some(olds) => Some(seq![m[k]] + olds),
                    None => None,
                },
            )
        } else {
            (m2, None)
        }
    }
}

/// Adding assignments whose variables all have entries replaces them: the table keeps its
/// variables, each variable the assignments name maps to the term the last of them assigned it,
/// every other variable keeps its term, and the terms the variables had before come back, one
/// for each assignment.
pub proof fn lemma_adding_known_names_law(m: Map<VarV, Term>, asg: Seq<(VarV, Term)>)
    requires
        forall|i: int| 0 <= i < asg.len() ==> m.contains_key(#[trigger] asg[i].0),
    ensures
        insert_many_spec(m, asg).0.dom() == m.dom(),
        forall|i: int|
            0 <= i < asg.len() && (forall|j: int| i < j < asg.len() ==> asg[j].0 != asg[i].0)
                ==> #[trigger] insert_many_spec(m, asg).0[asg[i].0] == asg[i].1,
        forall|k: VarV|
            m.contains_key(k) && (forall|j: int| 0 <= j < asg.len() ==> asg[j].0 != k)
                ==> #[trigger] insert_many_spec(m, asg).0[k] == m[k],
        insert_many_spec(m, asg).1 matches Some(olds) && olds.len() == asg.len(),
    decreases asg.len(),
{
    if asg.len() > 0 {
        let k0 = asg[0].0;
        let m2 = m.insert(k0, asg[0].1);
        let rest = asg.drop_first();
        assert(m.contains_key(asg[0].0));
        assert forall|i: int| 0 <= i < rest.len() implies m2.contains_key(#[trigger] rest[i].0) by {
            assert(rest[i] == asg[i + 1]);
            assert(m.contains_key(asg[i + 1].0));
        }
        lemma_adding_known_names_law(m2, rest);
        assert(m2.dom() =~= m.dom());
        let res = insert_many_spec(m, asg).0;
        assert(res == insert_many_spec(m2, rest).0);
        assert forall|i: int|
            0 <= i < asg.len() && (forall|j: int| i < j < asg.len() ==> asg[j].0 != asg[i].0)
                implies #[trigger] res[asg[i].0] == asg[i].1 by {
            if i > 0 {
                assert(rest[i - 1] == asg[i]);
                assert forall|j: int| i - 1 < j < rest.len() implies #[trigger] rest[j].0 != rest[i - 1].0 by {
                    assert(rest[j] == asg[j + 1]);
                }
            } else {
                assert forall|j: int| 0 <= j < rest.len() implies #[trigger] rest[j].0 != k0 by {
                    assert(rest[j] == asg[j + 1]);
                }
                assert(res[k0] == m2[k0]);
            }
        }
        assert forall|k: VarV|
            m.contains_key(k) && (forall|j: int| 0 <= j < asg.len() ==> asg[j].0 != k)
                implies #[trigger] res[k] == m[k] by {
            assert(asg[0].0 != k);
            assert forall|j: int| 0 <= j < rest.len() implies #[trigger] rest[j].0 != k by {
                assert(rest[j] == asg[j + 1]);
            }
            assert(res[k] == m2[k]);
        }
    }
}

/// Adding assignments stops after the first one whose variable had no entry: that one is still
/// added, on top of the ones before it, the ones after it are not, and no earlier terms come
/// back.
pub proof fn lemma_adding_stops_at_new_name(m: Map<VarV, Term>, asg: Seq<(VarV, Term)>, i: int)
    requires
        0 <= i < asg.len(),
        !m.contains_key(asg[i].0),
        forall|j: int| 0 <= j < i ==> m.contains_key(#[trigger] asg[j].0),
    ensures
        insert_many_spec(m, asg).0 == insert_many_spec(m, asg.take(i)).0.insert(
            asg[i].0,
            asg[i].1,
        ),
        insert_many_spec(m, asg).1 is None,
    decreases i,
{
    if i == 0 {
        assert(asg.take(0) =~= Seq::<(VarV, Term)>::empty());
    } else {
        let m2 = m.insert(asg[0].0, asg[0].1);
        let rest = asg.drop_first();
        assert(m.contains_key(asg[0].0));
        assert(rest[i - 1] == asg[i]);
        assert forall|j: int| 0 <= j < i - 1 implies m2.contains_key(#[trigger] rest[j].0) by {
            assert(rest[j] == asg[j + 1]);
            assert(m.contains_key(asg[j + 1].0));
        }
        lemma_adding_stops_at_new_name(m2, rest, i - 1);
        let pre = asg.take(i);
        assert(pre[0] == asg[0]);
        assert(pre.drop_first() =~= rest.take(i - 1));
    }
}

/// Adds the assignments in order, stopping after the first one whose variable had no entry
/// before; gives back the terms the variables had before when every one of them had one.
pub fn insert_many_assignments(map: &mut Assignments, assignments: Vec<Assignment>) -> (r: Option<
    Vec<NodeRef<Node>>,
>)
    requires
        old(map).wf(),
    ensures
        final(map).wf(),
        final(map)@ == insert_many_spec(
            old(map)@,
            assignments@.map_values(|a: Assignment| a@),
        ).0,
        match insert_many_spec(old(map)@, assignments@.map_values(|a: Assignment| a@)).1 {
            Some(olds) => r matches Some(v) && v@.map_values(|b: NodeRef<Node>| b@) == olds,
            None => r is None,
        },
{
    let ghost whole = assignments@.map_values(|a: Assignment| a@);
    let ghost m0 = map@;
    let mut olds: Vec<NodeRef<Node>> = Vec::new();
    let mut rest = assignments;
    assert(olds@.map_values(|b: NodeRef<Node>| b@) =~= Seq::<Term>::empty());
    assert(rest@.map_values(|a: Assignment| a@) =~= whole);
    while rest.len() > 0
        invariant
            map.wf(),
            m0 == old(map)@,
            whole == assignments@.map_values(|a: Assignment| a@),
            insert_many_spec(m0, whole) == (
                insert_many_spec(map@, rest@.map_values(|a: Assignment| a@)).0,
                match insert_many_spec(map@, rest@.map_values(|a: Assignment| a@)).1 {
                    Some(more) => Some(olds@.map_values(|b: NodeRef<Node>| b@) + more),
                    None => None::<Seq<Term>>,
                },
            ),
        decreases rest@.len(),
    {
        let ghost before = rest@.map_values(|a: Assignment| a@);
        let ghost olds_before = olds@.map_values(|b: NodeRef<Node>| b@);
        let ghost m1 = map@;
        let a = rest.remove(0);
        assert(before[0] == a@);
        assert(before.drop_first() =~= rest@.map_values(|x: Assignment| x@));
        match insert_assignment(map, a) {
            Some(prev) => {
                let ghost pv = prev@;
                olds.push(prev);
                assert(olds@.map_values(|b: NodeRef<Node>| b@) =~= olds_before.push(pv));
                assert(pv == m1[before[0].0]);
                proof {
                    let tail = insert_many_spec(map@, rest@.map_values(|x: Assignment| x@)).1;
                    if tail is Some {
                        assert(olds_before + (seq![pv] + tail->0) =~= olds_before.push(pv) + tail->0);
                    }
                }
            },
            None => {
                assert(!m1.contains_key(before[0].0));
                assert(insert_many_spec(m1, before) == (map@, None::<Seq<Term>>));
                return None;
            },
        }
    }
    assert(rest@.map_values(|a: Assignment| a@) =~= Seq::<(VarV, Term)>::empty());
    assert(olds@.map_values(|b: NodeRef<Node>| b@) + Seq::<Term>::empty() =~= olds@.map_values(|b: NodeRef<Node>| b@));
    Some(olds)
}

} // verus!
