use vstd::prelude::*;

use crate::regex::Regex;
use crate::stateset::{from_bits, to_bits};
use crate::dfa::insert_symbol;
use crate::text::{push_char, push_decimal};

use std::collections::BTreeSet;

verus! {

/// A transition: its symbol (`None` for an ε-move) and its target state.
pub type Step = (Option<char>, usize);

/// The rows of a transition table, as sequences.
pub open spec fn rows_of(t: Seq<Vec<Step>>) -> Seq<Seq<Step>> {
    Seq::new(t.len(), |i: int| t[i]@)
}

/// `t` with the transition `e` appended to the row of state `from`.
pub open spec fn add_edge(t: Seq<Seq<Step>>, from: int, e: Step) -> Seq<Seq<Step>> {
    t.update(from, t[from].push(e))
}

/// The number of states of the Thompson automaton of `r`: two for each node but the
/// concatenations.
pub open spec fn state_total(r: Regex) -> nat
    decreases r,
{
    match r {
        Regex::Union(a, b) => 2 + state_total(*a) + state_total(*b),
        Regex::Concat(a, b) => state_total(*a) + state_total(*b),
        Regex::Star(a) => 2 + state_total(*a),
        _ => 2,
    }
}

/// Thompson's construction of the fragment for `r`, its states numbered after those of
/// the table `t`: the extended table, the start state and the accepting state.
pub open spec fn thompson(r: Regex, t: Seq<Seq<Step>>) -> (Seq<Seq<Step>>, int, int)
    decreases r,
{
    match r {
        Regex::EmptySet => {
            let s = t.len() as int;
            (t.push(seq![]).push(seq![]), s, s + 1)
        },
        Regex::EmptyStr => {
            let s = t.len() as int;
            (t.push(seq![(None, (s + 1) as usize)]).push(seq![]), s, s + 1)
        },
        Regex::Char(c) => {
            let s = t.len() as int;
            (t.push(seq![(Some(c), (s + 1) as usize)]).push(seq![]), s, s + 1)
        },
        Regex::Union(a, b) => {
            let (t1, s1, a1) = thompson(*a, t);
            let (t2, s2, a2) = thompson(*b, t1);
            let s = t2.len() as int;
            let t3 = t2.push(seq![(None, s1 as usize), (None, s2 as usize)]).push(seq![]);
            let t4 = add_edge(add_edge(t3, a1, (None, (s + 1) as usize)), a2, (None, (s + 1) as usize));
            (t4, s, s + 1)
        },
        Regex::Concat(a, b) => {
            let (t1, s1, a1) = thompson(*a, t);
            let (t2, s2, a2) = thompson(*b, t1);
            (add_edge(t2, a1, (None, s2 as usize)), s1, a2)
        },
        Regex::Star(a) => {
            let (t1, s1, a1) = thompson(*a, t);
            let s = t1.len() as int;
            let t3 = t1.push(seq![(None, s1 as usize), (None, (s + 1) as usize)]).push(seq![]);
            let t4 = add_edge(add_edge(t3, a1, (None, s1 as usize)), a1, (None, (s + 1) as usize));
            (t4, s, s + 1)
        },
    }
}

/// The shape of a Thompson fragment: it adds two states per node after those of `t`,
/// leaves the rows of `t` as they were, has distinct start and accepting states, an
/// accepting state with no transition, and transitions that stay among its own states.
pub proof fn lemma_thompson_shape(r: Regex, t: Seq<Seq<Step>>)
    requires
        t.len() + state_total(r) <= usize::MAX,
    ensures
        ({
            let (t2, s, a) = thompson(r, t);
            &&& t2.len() == t.len() + state_total(r)
            &&& t.len() <= s < t2.len()
            &&& t.len() <= a < t2.len()
            &&& s != a
            &&& t2[a] == Seq::<Step>::empty()
            &&& forall|x: int| 0 <= x < t.len() ==> #[trigger] t2[x] == t[x]
            &&& forall|x: int, k: int| t.len() <= x < t2.len() && 0 <= k < t2[x].len()
                ==> t.len() <= (#[trigger] t2[x][k]).1 < t2.len()
        }),
    decreases r,
{
    let (t2, s, a) = thompson(r, t);
    match r {
        Regex::Union(l, rr) => {
            lemma_thompson_shape(*l, t);
            let (t1, s1, a1) = thompson(*l, t);
            lemma_thompson_shape(*rr, t1);
            let (tb, s2, a2) = thompson(*rr, t1);
            let n = tb.len() as int;
            let t3 = tb.push(seq![(None, s1 as usize), (None, s2 as usize)]).push(seq![]);
            let t4 = add_edge(t3, a1, (None, (n + 1) as usize));
            assert(t2.len() == t.len() + state_total(r));
            assert(t2[a] == Seq::<Step>::empty());
            assert forall|x: int| 0 <= x < t.len() implies #[trigger] t2[x] == t[x] by {
                assert(t2[x] == t4[x]);
                assert(t4[x] == t3[x]);
                assert(t3[x] == tb[x]);
                assert(tb[x] == t1[x]);
            }
            assert forall|x: int, k: int| t.len() <= x < t2.len() && 0 <= k < t2[x].len()
                implies t.len() <= (#[trigger] t2[x][k]).1 < t2.len() by {
                if x == a2 {
                    if k < t4[x].len() {
                        assert(t2[x][k] == t4[x][k]);
                        if x == a1 {
                        } else {
                            assert(t4[x][k] == t3[x][k]);
                        }
                    }
                } else {
                    assert(t2[x] == t4[x]);
                    if x == a1 {
                        if k < t3[x].len() {
                            assert(t4[x][k] == t3[x][k]);
                        }
                    } else {
                        assert(t4[x] == t3[x]);
                    }
                }
            }
        },
        Regex::Concat(l, rr) => {
            lemma_thompson_shape(*l, t);
            let (t1, s1, a1) = thompson(*l, t);
            lemma_thompson_shape(*rr, t1);
            let (tb, s2, a2) = thompson(*rr, t1);
            assert forall|x: int, k: int| t.len() <= x < t2.len() && 0 <= k < t2[x].len()
                implies t.len() <= (#[trigger] t2[x][k]).1 < t2.len() by {
                if x == a1 {
                    if k < tb[x].len() {
                        assert(t2[x][k] == tb[x][k]);
                    }
                } else {
                    assert(t2[x] == tb[x]);
                }
            }
        },
        Regex::Star(inner) => {
            lemma_thompson_shape(*inner, t);
            let (t1, s1, a1) = thompson(*inner, t);
            let n = t1.len() as int;
            let t3 = t1.push(seq![(None, s1 as usize), (None, (n + 1) as usize)]).push(seq![]);
            let t4 = add_edge(t3, a1, (None, s1 as usize));
            assert forall|x: int, k: int| t.len() <= x < t2.len() && 0 <= k < t2[x].len()
                implies t.len() <= (#[trigger] t2[x][k]).1 < t2.len() by {
                if x == a1 {
                    if k < t4[x].len() {
                        assert(t2[x][k] == t4[x][k]);
                        if k < t3[x].len() {
                            assert(t4[x][k] == t3[x][k]);
                        }
                    }
                } else {
                    assert(t2[x] == t3[x]);
                }
            }
        },
        _ => {},
    }
}

/// Some transition of the table reads `c`.
pub open spec fn table_has_symbol(t: Seq<Seq<Step>>, c: char) -> bool {
    exists|x: int, k: int| #![trigger t[x][k]] 0 <= x < t.len() && 0 <= k < t[x].len() && t[x][k].0 == Some(c)
}

proof fn lemma_push_symbols(t: Seq<Seq<Step>>, row: Seq<Step>, c: char)
    ensures
        table_has_symbol(t.push(row), c) <==> (table_has_symbol(t, c) || exists|k: int| 0 <= k < row.len() && #[trigger] row[k].0 == Some(c)),
{
    let u = t.push(row);
    if table_has_symbol(u, c) {
        let (x, k) = choose|x: int, k: int| #![trigger u[x][k]] 0 <= x < u.len() && 0 <= k < u[x].len() && u[x][k].0 == Some(c);
        if x < t.len() {
            assert(t[x][k] == u[x][k]);
        } else {
            assert(row[k] == u[x][k]);
        }
    }
    if table_has_symbol(t, c) {
        let (x, k) = choose|x: int, k: int| #![trigger t[x][k]] 0 <= x < t.len() && 0 <= k < t[x].len() && t[x][k].0 == Some(c);
        assert(u[x][k] == t[x][k]);
    }
    if exists|k: int| 0 <= k < row.len() && #[trigger] row[k].0 == Some(c) {
        let k = choose|k: int| 0 <= k < row.len() && #[trigger] row[k].0 == Some(c);
        assert(u[t.len() as int][k] == row[k]);
    }
}

proof fn lemma_edge_symbols(t: Seq<Seq<Step>>, from: int, e: Step, c: char)
    requires
        0 <= from < t.len(),
        e.0 is None,
    ensures
        table_has_symbol(add_edge(t, from, e), c) <==> table_has_symbol(t, c),
{
    let u = add_edge(t, from, e);
    if table_has_symbol(u, c) {
        let (x, k) = choose|x: int, k: int| #![trigger u[x][k]] 0 <= x < u.len() && 0 <= k < u[x].len() && u[x][k].0 == Some(c);
        assert(t[x][k] == u[x][k]);
    }
    if table_has_symbol(t, c) {
        let (x, k) = choose|x: int, k: int| #![trigger t[x][k]] 0 <= x < t.len() && 0 <= k < t[x].len() && t[x][k].0 == Some(c);
        assert(u[x][k] == t[x][k]);
    }
}

/// The transitions Thompson's construction adds for `r` read exactly the symbols of `r`.
pub proof fn lemma_thompson_symbols(r: Regex, t: Seq<Seq<Step>>, c: char)
    requires
        t.len() + state_total(r) <= usize::MAX,
    ensures
        table_has_symbol(thompson(r, t).0, c) <==> (table_has_symbol(t, c) || crate::regex::symbols(r).contains(c)),
    decreases r,
{
    lemma_thompson_shape(r, t);
    match r {
        Regex::EmptySet => {
            lemma_push_symbols(t, seq![], c);
            lemma_push_symbols(t.push(seq![]), seq![], c);
        },
        Regex::EmptyStr => {
            let s = t.len() as int;
            let row: Seq<Step> = seq![(None, (s + 1) as usize)];
            lemma_push_symbols(t, row, c);
            lemma_push_symbols(t.push(row), seq![], c);
        },
        Regex::Char(d) => {
            let s = t.len() as int;
            let row: Seq<Step> = seq![(Some(d), (s + 1) as usize)];
            lemma_push_symbols(t, row, c);
            lemma_push_symbols(t.push(row), seq![], c);
            if d == c {
                assert(row[0].0 == Some(c));
            }
        },
        Regex::Union(a, b) => {
            lemma_thompson_symbols(*a, t, c);
            let (t1, s1, a1) = thompson(*a, t);
            lemma_thompson_shape(*a, t);
            lemma_thompson_symbols(*b, t1, c);
            lemma_thompson_shape(*b, t1);
            let (t2, s2, a2) = thompson(*b, t1);
            let s = t2.len() as int;
            let row: Seq<Step> = seq![(None, s1 as usize), (None, s2 as usize)];
            lemma_push_symbols(t2, row, c);
            lemma_push_symbols(t2.push(row), seq![], c);
            let t3 = t2.push(row).push(seq![]);
            lemma_edge_symbols(t3, a1, (None, (s + 1) as usize), c);
            lemma_edge_symbols(add_edge(t3, a1, (None, (s + 1) as usize)), a2, (None, (s + 1) as usize), c);
        },
        Regex::Concat(a, b) => {
            lemma_thompson_symbols(*a, t, c);
            let (t1, s1, a1) = thompson(*a, t);
            lemma_thompson_shape(*a, t);
            lemma_thompson_symbols(*b, t1, c);
            lemma_thompson_shape(*b, t1);
            let (t2, s2, a2) = thompson(*b, t1);
            lemma_edge_symbols(t2, a1, (None, s2 as usize), c);
        },
        Regex::Star(a) => {
            lemma_thompson_symbols(*a, t, c);
            let (t1, s1, a1) = thompson(*a, t);
            lemma_thompson_shape(*a, t);
            let s = t1.len() as int;
            let row: Seq<Step> = seq![(None, s1 as usize), (None, (s + 1) as usize)];
            lemma_push_symbols(t1, row, c);
            lemma_push_symbols(t1.push(row), seq![], c);
            let t3 = t1.push(row).push(seq![]);
            lemma_edge_symbols(t3, a1, (None, s1 as usize), c);
            lemma_edge_symbols(add_edge(t3, a1, (None, s1 as usize)), a1, (None, (s + 1) as usize), c);
        },
    }
}

/// The word a path reads is made of symbols of the table.
pub proof fn lemma_path_symbols(rows: Seq<Seq<Step>>, s: int, p: Seq<Step>)
    requires
        is_path(rows, s, p),
    ensures
        forall|i: int| 0 <= i < path_label(p).len() ==> table_has_symbol(rows, #[trigger] path_label(p)[i]),
    decreases p.len(),
{
    if p.len() > 0 {
        let rest = p.drop_first();
        lemma_path_symbols(rows, p[0].1 as int, rest);
        let l0 = step_label(p[0]);
        let lr = path_label(rest);
        assert(path_label(p) == l0 + lr);
        assert forall|i: int| 0 <= i < path_label(p).len() implies table_has_symbol(rows, #[trigger] path_label(p)[i]) by {
            if i < l0.len() {
                let k = choose|k: int| 0 <= k < rows[s].len() && rows[s][k] == p[0];
                assert(rows[s][k].0 == Some(path_label(p)[i]));
            } else {
                assert(path_label(p)[i] == lr[i - l0.len()]);
            }
        }
    }
}

/// In a table without transitions, a path reads nothing and stays where it starts.
pub proof fn lemma_no_transitions(rows: Seq<Seq<Step>>, s: int, t: int, w: Seq<char>)
    requires
        forall|x: int| 0 <= x < rows.len() ==> (#[trigger] rows[x]).len() == 0,
    ensures
        runs(rows, s, t, w) <==> (s == t && w.len() == 0),
{
    if runs(rows, s, t, w) {
        let p = choose|p: Seq<Step>| #[trigger] is_path(rows, s, p) && path_end(s, p) == t && path_label(p) == w;
        if p.len() > 0 {
            assert(has_step(rows, s, p[0]));
            assert(rows[s].len() == 0);
        }
    }
    if s == t && w.len() == 0 {
        let p = Seq::<Step>::empty();
        assert(is_path(rows, s, p) && path_end(s, p) == t && path_label(p) =~= w);
    }
}

/// The table has the transition `e` out of state `s`.
pub open spec fn has_step(rows: Seq<Seq<Step>>, s: int, e: Step) -> bool {
    0 <= s < rows.len() && rows[s].contains(e)
}

/// `p` is a sequence of transitions of the table, the first out of state `s`, each
/// following one out of the state the previous one leads to.
pub open spec fn is_path(rows: Seq<Seq<Step>>, s: int, p: Seq<Step>) -> bool
    decreases p.len(),
{
    p.len() == 0 || (has_step(rows, s, p[0]) && is_path(rows, p[0].1 as int, p.drop_first()))
}

/// The state a path from `s` leads to.
pub open spec fn path_end(s: int, p: Seq<Step>) -> int {
    if p.len() == 0 {
        s
    } else {
        p.last().1 as int
    }
}

/// The state that transition `i` of a path from `s` leaves (for `i == p.len()`, the end).
pub open spec fn source(s: int, p: Seq<Step>, i: int) -> int {
    if i == 0 {
        s
    } else {
        p[i - 1].1 as int
    }
}

/// The characters a transition reads.
pub open spec fn step_label(e: Step) -> Seq<char> {
    match e.0 {
        Some(c) => seq![c],
        None => Seq::empty(),
    }
}

/// The word a path reads.
pub open spec fn path_label(p: Seq<Step>) -> Seq<char>
    decreases p.len(),
{
    if p.len() == 0 {
        Seq::empty()
    } else {
        step_label(p[0]) + path_label(p.drop_first())
    }
}

/// Some path of the table leads from `s` to `t` reading `w`.
pub open spec fn runs(rows: Seq<Seq<Step>>, s: int, t: int, w: Seq<char>) -> bool {
    exists|p: Seq<Step>| #[trigger] is_path(rows, s, p) && path_end(s, p) == t && path_label(p) == w
}

/// The ε-closure of a set of states: the states that some path reading nothing leads
/// to from one of them.
pub open spec fn eps_closure(rows: Seq<Seq<Step>>, s: Set<usize>) -> Set<usize> {
    Set::new(|t: usize| exists|x: usize| #[trigger] s.contains(x) && runs(rows, x as int, t as int, Seq::<char>::empty()))
}

/// A set of states that holds the target of every ε-move out of its states.
pub open spec fn eps_closed(rows: Seq<Seq<Step>>, c: Set<usize>) -> bool {
    forall|x: usize, k: int| c.contains(x) && 0 <= k < rows[x as int].len() && (#[trigger] rows[x as int][k]).0 is None
        ==> c.contains(rows[x as int][k].1)
}

/// A set closed under ε-moves holds every state that a path reading nothing leads to
/// from one of its states.
pub proof fn lemma_closed_contains(rows: Seq<Seq<Step>>, c: Set<usize>, s: int, p: Seq<Step>)
    requires
        is_path(rows, s, p),
        path_label(p) == Seq::<char>::empty(),
        0 <= s,
        rows.len() <= usize::MAX,
        c.contains(s as usize),
        eps_closed(rows, c),
    ensures
        c.contains(path_end(s, p) as usize),
    decreases p.len(),
{
    if p.len() > 0 {
        let e = p[0];
        assert(has_step(rows, s, e));
        let k = choose|k: int| 0 <= k < rows[s].len() && rows[s][k] == e;
        if e.0 is Some {
            assert(path_label(p).len() >= 1);
        }
        assert(rows[s as usize as int][k] == e);
        assert(c.contains(rows[s as usize as int][k].1));
        assert(path_label(p) == step_label(e) + path_label(p.drop_first()));
        assert(path_label(p.drop_first()) =~= Seq::<char>::empty());
        if p.len() > 1 {
            assert(path_end(e.1 as int, p.drop_first()) == path_end(s, p));
        }
        lemma_closed_contains(rows, c, e.1 as int, p.drop_first());
    }
}

/// Two runs that read nothing, the second from where the first ends, make one.
pub proof fn lemma_eps_runs_join(rows: Seq<Seq<Step>>, x: int, y: int, z: int)
    requires
        runs(rows, x, y, Seq::<char>::empty()),
        runs(rows, y, z, Seq::<char>::empty()),
    ensures
        runs(rows, x, z, Seq::<char>::empty()),
{
    let p1 = choose|p: Seq<Step>| #[trigger] is_path(rows, x, p) && path_end(x, p) == y && path_label(p) == Seq::<char>::empty();
    let p2 = choose|p: Seq<Step>| #[trigger] is_path(rows, y, p) && path_end(y, p) == z && path_label(p) == Seq::<char>::empty();
    crate::thompson::lemma_path_join(rows, x, p1, p2);
    crate::thompson::lemma_path_append(x, p1, p2);
    assert(path_label(p1 + p2) =~= Seq::<char>::empty());
    assert(is_path(rows, x, p1 + p2));
}

/// A path of no transitions runs from a state to itself reading nothing.
proof fn lemma_eps_stay(rows: Seq<Seq<Step>>, x: int)
    ensures
        runs(rows, x, x, Seq::<char>::empty()),
{
    let p = Seq::<Step>::empty();
    assert(is_path(rows, x, p) && path_end(x, p) == x && path_label(p) =~= Seq::<char>::empty());
}

proof fn lemma_eps_idempotent(rows: Seq<Seq<Step>>, s: Set<usize>)
    ensures
        eps_closure(rows, eps_closure(rows, s)) == eps_closure(rows, s),
{
    let c = eps_closure(rows, s);
    assert forall|z: usize| eps_closure(rows, c).contains(z) implies c.contains(z) by {
        let y = choose|y: usize| #[trigger] c.contains(y) && runs(rows, y as int, z as int, Seq::<char>::empty());
        let x = choose|x: usize| #[trigger] s.contains(x) && runs(rows, x as int, y as int, Seq::<char>::empty());
        lemma_eps_runs_join(rows, x as int, y as int, z as int);
    }
    assert forall|z: usize| c.contains(z) implies eps_closure(rows, c).contains(z) by {
        lemma_eps_stay(rows, z as int);
    }
    assert(eps_closure(rows, c) =~= c);
}

/// The ε-closure is a closure operator that distributes over union: it holds the states
/// it starts from, closing twice gives what closing once gives, a larger set has a larger
/// closure, the closure of a union is the union of the closures, and nothing closes to
/// nothing.
pub proof fn law_eps_closure(rows: Seq<Seq<Step>>, s: Set<usize>, t: Set<usize>)
    ensures
        s.subset_of(eps_closure(rows, s)),
        eps_closure(rows, eps_closure(rows, s)) == eps_closure(rows, s),
        s.subset_of(t) ==> eps_closure(rows, s).subset_of(eps_closure(rows, t)),
        eps_closure(rows, s.union(t)) == eps_closure(rows, s).union(eps_closure(rows, t)),
        eps_closure(rows, Set::empty()) == Set::<usize>::empty(),
{
    assert forall|x: usize| s.contains(x) implies eps_closure(rows, s).contains(x) by {
        lemma_eps_stay(rows, x as int);
    }
    lemma_eps_idempotent(rows, s);
    lemma_eps_union(rows, s, t);
    if s.subset_of(t) {
        lemma_eps_union(rows, s, t);
        assert(s.union(t) =~= t);
    }
    assert(eps_closure(rows, Set::empty()) =~= Set::<usize>::empty());
}

proof fn lemma_eps_union(rows: Seq<Seq<Step>>, s: Set<usize>, t: Set<usize>)
    ensures
        eps_closure(rows, s.union(t)) == eps_closure(rows, s).union(eps_closure(rows, t)),
{
    let u = s.union(t);
    assert forall|z: usize| eps_closure(rows, u).contains(z) implies eps_closure(rows, s).union(eps_closure(rows, t)).contains(z) by {
        let x = choose|x: usize| #[trigger] u.contains(x) && runs(rows, x as int, z as int, Seq::<char>::empty());
        if s.contains(x) {
            assert(eps_closure(rows, s).contains(z));
        } else {
            assert(eps_closure(rows, t).contains(z));
        }
    }
    assert forall|z: usize| eps_closure(rows, s).union(eps_closure(rows, t)).contains(z) implies eps_closure(rows, u).contains(z) by {
        if eps_closure(rows, s).contains(z) {
            let x = choose|x: usize| #[trigger] s.contains(x) && runs(rows, x as int, z as int, Seq::<char>::empty());
            assert(u.contains(x));
        } else {
            let x = choose|x: usize| #[trigger] t.contains(x) && runs(rows, x as int, z as int, Seq::<char>::empty());
            assert(u.contains(x));
        }
    }
    assert(eps_closure(rows, u) =~= eps_closure(rows, s).union(eps_closure(rows, t)));
}

/// A path reading nothing, extended by an ε-move, still reads nothing.
pub proof fn lemma_eps_extend(rows: Seq<Seq<Step>>, x: int, y: int, z: usize)
    requires
        runs(rows, x, y, Seq::<char>::empty()),
        has_step(rows, y, (None, z)),
    ensures
        runs(rows, x, z as int, Seq::<char>::empty()),
{
    let p = choose|p: Seq<Step>| #[trigger] is_path(rows, x, p) && path_end(x, p) == y && path_label(p) == Seq::<char>::empty();
    let e: Step = (None, z);
    crate::thompson::lemma_one_step(rows, y, e);
    crate::thompson::lemma_path_join(rows, x, p, seq![e]);
    crate::thompson::lemma_path_append(x, p, seq![e]);
    assert(path_label(p + seq![e]) =~= Seq::<char>::empty());
    assert(is_path(rows, x, p + seq![e]));
}

/// The states that a transition reading `c` leads to from one of the states of `s`.
pub open spec fn step_set(rows: Seq<Seq<Step>>, s: Set<usize>, c: char) -> Set<usize> {
    Set::new(|t: usize| exists|x: usize| #[trigger] s.contains(x) && has_step(rows, x as int, (Some(c), t)))
}

/// The set of states the automaton can be in after reading `w` from the states of `s`
/// (the subset simulation): each character moves the set and closes it under ε-moves.
pub open spec fn sim(rows: Seq<Seq<Step>>, s: Set<usize>, w: Seq<char>) -> Set<usize>
    decreases w.len(),
{
    if w.len() == 0 {
        s
    } else {
        sim(rows, eps_closure(rows, step_set(rows, s, w[0])), w.drop_first())
    }
}

/// A path reading a nonempty word: ε-moves, then a transition reading its first
/// character, then a path reading the rest.
pub proof fn lemma_runs_split(rows: Seq<Seq<Step>>, s: int, t: int, w: Seq<char>) -> (xy: (usize, usize))
    requires
        rows.len() <= usize::MAX,
        w.len() > 0,
        runs(rows, s, t, w),
    ensures
        runs(rows, s, xy.0 as int, Seq::<char>::empty()),
        has_step(rows, xy.0 as int, (Some(w[0]), xy.1)),
        runs(rows, xy.1 as int, t, w.drop_first()),
{
    let p = choose|p: Seq<Step>| #[trigger] is_path(rows, s, p) && path_end(s, p) == t && path_label(p) == w;
    lemma_path_split(rows, s, p)
}

proof fn lemma_path_split(rows: Seq<Seq<Step>>, s: int, p: Seq<Step>) -> (xy: (usize, usize))
    requires
        rows.len() <= usize::MAX,
        is_path(rows, s, p),
        path_label(p).len() > 0,
    ensures
        runs(rows, s, xy.0 as int, Seq::<char>::empty()),
        has_step(rows, xy.0 as int, (Some(path_label(p)[0]), xy.1)),
        runs(rows, xy.1 as int, path_end(s, p), path_label(p).drop_first()),
    decreases p.len(),
{
    let e = p[0];
    let q = p.drop_first();
    assert(has_step(rows, s, e));
    if q.len() > 0 {
        assert(path_end(e.1 as int, q) == path_end(s, p));
    }
    match e.0 {
        Some(c) => {
            assert(path_label(p) == seq![c] + path_label(q));
            assert(path_label(p).drop_first() =~= path_label(q));
            assert(is_path(rows, s, Seq::<Step>::empty()));
            assert(path_label(Seq::<Step>::empty()) =~= Seq::<char>::empty());
            assert(0 <= s < rows.len());
            assert(is_path(rows, e.1 as int, q));
            assert(e == (Some(path_label(p)[0]), e.1));
            (s as usize, e.1)
        },
        None => {
            assert(path_label(p) =~= path_label(q));
            let xy = lemma_path_split(rows, e.1 as int, q);
            let p1 = choose|p1: Seq<Step>| #[trigger] is_path(rows, e.1 as int, p1) && path_end(e.1 as int, p1) == xy.0 as int
                && path_label(p1) == Seq::<char>::empty();
            crate::thompson::lemma_one_step(rows, s, e);
            crate::thompson::lemma_path_join(rows, s, seq![e], p1);
            crate::thompson::lemma_path_append(s, seq![e], p1);
            assert(path_label(seq![e] + p1) =~= Seq::<char>::empty());
            assert(is_path(rows, s, seq![e] + p1));
            xy
        },
    }
}

/// Joining ε-moves, a transition reading `c` and a path reading `v`.
pub proof fn lemma_runs_join(rows: Seq<Seq<Step>>, s: int, x: usize, y: usize, t: int, c: char, v: Seq<char>)
    requires
        runs(rows, s, x as int, Seq::<char>::empty()),
        has_step(rows, x as int, (Some(c), y)),
        runs(rows, y as int, t, v),
    ensures
        runs(rows, s, t, seq![c] + v),
{
    let p1 = choose|p1: Seq<Step>| #[trigger] is_path(rows, s, p1) && path_end(s, p1) == x as int
        && path_label(p1) == Seq::<char>::empty();
    let p3 = choose|p3: Seq<Step>| #[trigger] is_path(rows, y as int, p3) && path_end(y as int, p3) == t
        && path_label(p3) == v;
    let e: Step = (Some(c), y);
    crate::thompson::lemma_one_step(rows, x as int, e);
    crate::thompson::lemma_path_join(rows, s, p1, seq![e]);
    crate::thompson::lemma_path_append(s, p1, seq![e]);
    let q = p1 + seq![e];
    crate::thompson::lemma_path_join(rows, s, q, p3);
    crate::thompson::lemma_path_append(s, q, p3);
    assert(path_label(q + p3) =~= seq![c] + v);
    assert(is_path(rows, s, q + p3));
}

/// The subset simulation from the ε-closure of `s` holds exactly the states that some
/// path reading `w` leads to from a state of `s`.
pub proof fn lemma_sim(rows: Seq<Seq<Step>>, s: Set<usize>, w: Seq<char>, t: usize)
    requires
        rows.len() <= usize::MAX,
    ensures
        sim(rows, eps_closure(rows, s), w).contains(t) <==> exists|x: usize| #[trigger] s.contains(x) && runs(rows, x as int, t as int, w),
    decreases w.len(),
{
    if w.len() > 0 {
        let c = w[0];
        let v = w.drop_first();
        let s2 = step_set(rows, eps_closure(rows, s), c);
        lemma_sim(rows, s2, v, t);
        assert(w =~= seq![c] + v);
        assert(sim(rows, eps_closure(rows, s), w) == sim(rows, eps_closure(rows, s2), v));
        if sim(rows, eps_closure(rows, s), w).contains(t) {
            let y = choose|y: usize| #[trigger] s2.contains(y) && runs(rows, y as int, t as int, v);
            let xx = choose|xx: usize| #[trigger] eps_closure(rows, s).contains(xx) && has_step(rows, xx as int, (Some(c), y));
            let x = choose|x: usize| #[trigger] s.contains(x) && runs(rows, x as int, xx as int, Seq::<char>::empty());
            lemma_runs_join(rows, x as int, xx, y, t as int, c, v);
        }
        if exists|x: usize| #[trigger] s.contains(x) && runs(rows, x as int, t as int, w) {
            let x = choose|x: usize| #[trigger] s.contains(x) && runs(rows, x as int, t as int, w);
            let xy = lemma_runs_split(rows, x as int, t as int, w);
            assert(eps_closure(rows, s).contains(xy.0));
            assert(s2.contains(xy.1));
        }
    } else {
        assert(sim(rows, eps_closure(rows, s), w) == eps_closure(rows, s));
        assert(w =~= Seq::<char>::empty());
    }
}

/// The name of state `i`: `q` followed by its number.
pub open spec fn q_name(i: nat) -> Seq<char> {
    seq!['q'] + crate::text::decimal(i)
}

/// A nondeterministic finite automaton with ε-moves and one accepting state.
///
/// The invariant of the type, `wf`, which Thompson's construction and the reader of
/// descriptions establish, is that there is one row of transitions per state and that
/// every transition leads to a state.
#[derive(Debug, Clone)]
pub struct NFA {
    pub start: usize,
    pub accept: usize,
    pub transitions: Vec<Vec<Step>>,
    pub state_count: usize,
    pub state_names: Vec<String>,
}

struct Fragment {
    start: usize,
    accept: usize,
}

struct NFABuilder {
    transitions: Vec<Vec<Step>>,
    next_state: usize,
}

impl NFA {
    /// The transition table as sequences.
    pub open spec fn rows(&self) -> Seq<Seq<Step>> {
        rows_of(self.transitions@)
    }

    /// The language of the automaton: the words that some path from the start state to the
    /// accepting state reads.
    pub open spec fn accepts(&self, w: Seq<char>) -> bool {
        runs(self.rows(), self.start as int, self.accept as int, w)
    }

/// The ε-closure of `states`.
    pub fn epsilon_closure(&self, states: &BTreeSet<usize>) -> (closure: BTreeSet<usize>)
        requires
            self.wf(),
            forall|s: usize| states@.contains(s) ==> s < self.state_count,
        ensures
            closure@ == eps_closure(self.rows(), states@),
    {
        let bits = to_bits(states, self.state_count);
        proof {
            assert(crate::stateset::bits_set(bits@) =~= states@);
        }
        let c = self.closure_bits(bits);
        from_bits(&c)
    }

    /// The ε-closure of the states that `init` marks, as flags.
    pub(crate) fn closure_bits(&self, init: Vec<bool>) -> (closure: Vec<bool>)
        requires
            self.wf(),
            init@.len() == self.state_count,
        ensures
            closure@.len() == self.state_count,
            crate::stateset::bits_set(closure@) == eps_closure(self.rows(), crate::stateset::bits_set(init@)),
    {
        let n = self.state_count;
        let ghost rows = self.rows();
        let ghost start_set = crate::stateset::bits_set(init@);
        let mut closure = init;
        let mut stack: Vec<usize> = Vec::new();
        let mut i: usize = 0;
        while i < n
            invariant
                i <= n,
                n == self.state_count,
                closure@.len() == n,
                closure@ == init@,
                forall|j: int| 0 <= j < stack@.len() ==> stack@[j] < n && closure@[stack@[j] as int],
                forall|x: int| 0 <= x < i && closure@[x] ==> stack@.contains(x as usize),
            decreases n - i,
        {
            if closure[i] {
                let ghost old_stack = stack@;
                stack.push(i);
                proof {
                    assert(stack@[stack@.len() - 1] == i);
                    assert forall|x: int| 0 <= x < i + 1 && closure@[x] implies stack@.contains(x as usize) by {
                        if x < i {
                            let q = choose|q: int| 0 <= q < old_stack.len() && old_stack[q] == x as usize;
                            assert(stack@[q] == x as usize);
                        }
                    }
                    assert forall|j: int| 0 <= j < stack@.len() implies stack@[j] < n && closure@[stack@[j] as int] by {
                        if j < old_stack.len() {
                            assert(stack@[j] == old_stack[j]);
                        }
                    }
                }
            }
            i = i + 1;
        }
        proof {
            crate::stateset::lemma_num_marked_bound(closure@);
            assert forall|x: usize| #[trigger] closure@[x as int] && x < n implies
                eps_closure(rows, start_set).contains(x) by {
                assert(start_set.contains(x));
                assert(is_path(rows, x as int, Seq::<Step>::empty()));
                assert(path_label(Seq::<Step>::empty()) =~= Seq::<char>::empty());
            }
        }
        while stack.len() > 0
            invariant
                n == self.state_count,
                self.wf(),
                rows == self.rows(),
                closure@.len() == n,
                forall|j: int| 0 <= j < stack@.len() ==> stack@[j] < n && closure@[stack@[j] as int],
                forall|x: usize| x < n && init@[x as int] ==> #[trigger] closure@[x as int],
                forall|x: usize| #[trigger] closure@[x as int] && x < n ==> eps_closure(rows, start_set).contains(x),
                forall|x: usize, k: int| x < n && closure@[x as int] && !stack@.contains(x)
                    && 0 <= k < rows[x as int].len() && (#[trigger] rows[x as int][k]).0 is None
                    ==> closure@[rows[x as int][k].1 as int],
                crate::stateset::num_marked(closure@) <= n,
            decreases n - crate::stateset::num_marked(closure@), stack.len(),
        {
            let ghost full_stack = stack@;
            let s = stack.pop().unwrap();
            proof {
                assert(full_stack =~= stack@.push(s));
                assert forall|x: usize, j: int| x < n && closure@[x as int] && !stack@.contains(x) && x != s
                    && 0 <= j < rows[x as int].len() && (#[trigger] rows[x as int][j]).0 is None
                    implies closure@[rows[x as int][j].1 as int] by {
                    if full_stack.contains(x) {
                        let q = choose|q: int| 0 <= q < full_stack.len() && full_stack[q] == x;
                        if q < stack@.len() {
                            assert(stack@[q] == x);
                        }
                    }
                }
                assert forall|j: int| 0 <= j < stack@.len() implies stack@[j] < n && closure@[stack@[j] as int] by {
                    assert(stack@[j] == full_stack[j]);
                }
            }
            let ghost marked_before = crate::stateset::num_marked(closure@);
            let ghost stack_before = stack@;
            let row = &self.transitions[s];
            let mut k: usize = 0;

            while k < row.len()
                invariant
                    n == self.state_count,
                    self.wf(),
                    rows == self.rows(),
                    s < n,
                    closure@[s as int],
                    row@ == rows[s as int],
                    k <= row.len(),
                    closure@.len() == n,
                    forall|j: int| 0 <= j < stack@.len() ==> stack@[j] < n && closure@[stack@[j] as int],
                    forall|x: usize| x < n && init@[x as int] ==> #[trigger] closure@[x as int],
                    forall|x: usize| #[trigger] closure@[x as int] && x < n ==> eps_closure(rows, start_set).contains(x),
                    forall|x: usize, j: int| x < n && closure@[x as int] && !stack@.contains(x) && x != s
                        && 0 <= j < rows[x as int].len() && (#[trigger] rows[x as int][j]).0 is None
                        ==> closure@[rows[x as int][j].1 as int],
                    forall|j: int| 0 <= j < k && (#[trigger] rows[s as int][j]).0 is None ==> closure@[rows[s as int][j].1 as int],
                    crate::stateset::num_marked(closure@) <= n,
                    crate::stateset::num_marked(closure@) >= marked_before,
                    crate::stateset::num_marked(closure@) == marked_before ==> stack@ == stack_before,
                    stack_before.is_prefix_of(stack@),
                decreases row.len() - k,
            {
                let (sym, target) = row[k];
                proof {
                    assert(self.transitions@[s as int]@[k as int] == rows[s as int][k as int]);
                }
                if sym.is_none() && !closure[target] {
                    proof {
                        crate::stateset::lemma_num_marked_set(closure@, target as int);
                        crate::stateset::lemma_num_marked_bound(closure@.update(target as int, true));
                        assert(rows[s as int].contains((None, target)));
                        assert(eps_closure(rows, start_set).contains(s));
                        let x0 = choose|x0: usize| #[trigger] start_set.contains(x0) && runs(rows, x0 as int, s as int, Seq::<char>::empty());
                        lemma_eps_extend(rows, x0 as int, s as int, target);
                    }
                    let ghost old_closure = closure@;
                    let ghost old_stack = stack@;
                    closure.set(target, true);
                    stack.push(target);
                    proof {
                        assert forall|y: int| 0 <= y < n && old_closure[y] implies closure@[y] by {
                            if y != target as int {
                                assert(closure@[y] == old_closure[y]);
                            }
                        }
                        assert(stack_before.is_prefix_of(stack@)) by {
                            assert(stack@.subrange(0, stack_before.len() as int) =~= stack@.drop_last().subrange(0, stack_before.len() as int));
                        }
                        assert forall|x: usize, j: int| x < n && closure@[x as int] && !stack@.contains(x) && x != s
                            && 0 <= j < rows[x as int].len() && (#[trigger] rows[x as int][j]).0 is None
                            implies closure@[rows[x as int][j].1 as int] by {
                            if x != target {
                                assert(!old_stack.contains(x)) by {
                                    if old_stack.contains(x) {
                                        let q = choose|q: int| 0 <= q < old_stack.len() && old_stack[q] == x;
                                        assert(stack@[q] == x);
                                    }
                                }
                                assert(old_closure[x as int]);
                                assert(old_closure[rows[x as int][j].1 as int]);
                            } else {
                                assert(stack@[stack@.len() - 1] == x);
                            }
                        }
                        assert forall|j: int| 0 <= j < stack@.len() implies stack@[j] < n && closure@[stack@[j] as int] by {
                            if j < stack@.len() - 1 {
                                assert(stack@[j] == old_stack[j]);
                            }
                        }
                    }
                }
                k = k + 1;
            }
            proof {
                assert forall|x: usize, j: int| x < n && closure@[x as int] && !stack@.contains(x)
                    && 0 <= j < rows[x as int].len() && (#[trigger] rows[x as int][j]).0 is None
                    implies closure@[rows[x as int][j].1 as int] by {
                    if x == s {
                        assert(rows[s as int][j].0 is None);
                    }
                }
            }
        }
        proof {
            let c = crate::stateset::bits_set(closure@);
            assert forall|x: usize, k: int| c.contains(x) && 0 <= k < rows[x as int].len() && (#[trigger] rows[x as int][k]).0 is None
                implies c.contains(rows[x as int][k].1) by {
                assert(!stack@.contains(x));
                assert(self.transitions@[x as int]@[k] == rows[x as int][k]);
            }
            assert forall|t: usize| eps_closure(rows, start_set).contains(t) implies c.contains(t) by {
                let x = choose|x: usize| #[trigger] start_set.contains(x) && runs(rows, x as int, t as int, Seq::<char>::empty());
                let p = choose|p: Seq<Step>| #[trigger] is_path(rows, x as int, p) && path_end(x as int, p) == t as int
                    && path_label(p) == Seq::<char>::empty();
                assert(closure@[x as int]);
                lemma_closed_contains(rows, c, x as int, p);
            }
            assert(c =~= eps_closure(rows, start_set));
        }
        closure
    }

/// The flags of the states that a transition reading `c` leads to from the states
    /// that `cur` marks.
    pub(crate) fn move_bits(&self, cur: &Vec<bool>, c: char) -> (m: Vec<bool>)
        requires
            self.wf(),
            cur@.len() == self.state_count,
        ensures
            m@.len() == self.state_count,
            crate::stateset::bits_set(m@) == step_set(self.rows(), crate::stateset::bits_set(cur@), c),
    {
        let n = self.state_count;
        let ghost rows = self.rows();
        let ghost src = crate::stateset::bits_set(cur@);
        let mut m: Vec<bool> = Vec::new();
        let mut i: usize = 0;
        while i < n
            invariant
                i <= n,
                m@.len() == i,
                forall|j: int| 0 <= j < i ==> !m@[j],
            decreases n - i,
        {
            m.push(false);
            i = i + 1;
        }
        let mut s: usize = 0;
        while s < n
            invariant
                n == self.state_count,
                self.wf(),
                rows == self.rows(),
                s <= n,
                cur@.len() == n,
                src == crate::stateset::bits_set(cur@),
                m@.len() == n,
                forall|t: usize| t < n ==> (m@[t as int] <==> exists|x: usize| x < s && #[trigger] src.contains(x)
                    && has_step(rows, x as int, (Some(c), t))),
            decreases n - s,
        {
            if cur[s] {
                let row = &self.transitions[s];
                let mut k: usize = 0;
                while k < row.len()
                    invariant
                        n == self.state_count,
                        self.wf(),
                        rows == self.rows(),
                        s < n,
                        cur@.len() == n,
                        src == crate::stateset::bits_set(cur@),
                        cur@[s as int],
                        row@ == rows[s as int],
                        k <= row.len(),
                        m@.len() == n,
                        forall|t: usize| t < n ==> (m@[t as int] <==> (exists|x: usize| x < s && #[trigger] src.contains(x)
                            && has_step(rows, x as int, (Some(c), t))) || exists|j: int| 0 <= j < k && row@[j] == (Some(c), t)),
                    decreases row.len() - k,
                {
                    let (sym, target) = row[k];
                    proof {
                        assert(self.transitions@[s as int]@[k as int] == rows[s as int][k as int]);
                    }
                    if sym == Some(c) {
                        m.set(target, true);
                    }
                    k = k + 1;
                    proof {
                        assert forall|t: usize| t < n implies (m@[t as int] <==> (exists|x: usize| x < s && #[trigger] src.contains(x)
                            && has_step(rows, x as int, (Some(c), t))) || exists|j: int| 0 <= j < k && row@[j] == (Some(c), t)) by {
                            if row@[k - 1] == (Some(c), t) {
                                assert(m@[t as int]);
                            }
                        }
                    }
                }
                proof {
                    assert forall|t: usize| t < n implies (m@[t as int] <==> exists|x: usize| x < s + 1 && #[trigger] src.contains(x)
                        && has_step(rows, x as int, (Some(c), t))) by {
                        if exists|j: int| 0 <= j < row@.len() && row@[j] == (Some(c), t) {
                            let j = choose|j: int| 0 <= j < row@.len() && row@[j] == (Some(c), t);
                            assert(src.contains(s));
                            assert(has_step(rows, s as int, (Some(c), t)));
                        }
                        if exists|x: usize| x < s + 1 && #[trigger] src.contains(x) && has_step(rows, x as int, (Some(c), t)) {
                            let x = choose|x: usize| x < s + 1 && #[trigger] src.contains(x) && has_step(rows, x as int, (Some(c), t));
                            if x == s {
                                let j = choose|j: int| 0 <= j < rows[s as int].len() && rows[s as int][j] == (Some(c), t);
                            }
                        }
                    }
                }
            } else {
                proof {
                    assert forall|t: usize| t < n implies (m@[t as int] <==> exists|x: usize| x < s + 1 && #[trigger] src.contains(x)
                        && has_step(rows, x as int, (Some(c), t))) by {
                        if exists|x: usize| x < s + 1 && #[trigger] src.contains(x) && has_step(rows, x as int, (Some(c), t)) {
                            let x = choose|x: usize| x < s + 1 && #[trigger] src.contains(x) && has_step(rows, x as int, (Some(c), t));
                            assert(x != s);
                        }
                    }
                }
            }
            s = s + 1;
        }
        proof {
            let st = step_set(rows, src, c);
            assert forall|t: usize| crate::stateset::bits_set(m@).contains(t) <==> st.contains(t) by {
                if st.contains(t) {
                    let x = choose|x: usize| #[trigger] src.contains(x) && has_step(rows, x as int, (Some(c), t));
                    let j = choose|j: int| 0 <= j < rows[x as int].len() && rows[x as int][j] == (Some(c), t);
                    assert(self.transitions@[x as int]@[j] == rows[x as int][j]);
                    assert(x < n);
                }
            }
            assert(crate::stateset::bits_set(m@) =~= st);
        }
        m
    }

    /// Every transition leads to a state of the automaton, and there is one row per state.
    pub open spec fn wf(&self) -> bool {
        &&& self.transitions@.len() == self.state_count
        &&& forall|s: int, k: int| 0 <= s < self.state_count && 0 <= k < self.transitions@[s]@.len()
            ==> (#[trigger] self.transitions@[s]@[k]).1 < self.state_count
    }

    /// The automaton of Thompson's construction for `re`, its states named `q0`, `q1`, ...
    pub fn from_regex(re: &Regex) -> (nfa: NFA)
        requires
            state_total(*re) <= usize::MAX,
        ensures
            ({
                let (t, s, a) = thompson(*re, Seq::empty());
                &&& nfa.rows() == t
                &&& nfa.start == s
                &&& nfa.accept == a
            }),
            nfa.state_count == state_total(*re),
            nfa.wf(),
            nfa.start < nfa.state_count,
            nfa.accept < nfa.state_count,
            forall|w: Seq<char>| #[trigger] nfa.accepts(w) <==> crate::regex::in_lang(*re, w),
            nfa.state_names@.len() == nfa.state_count,
            forall|i: int| 0 <= i < nfa.state_count ==> (#[trigger] nfa.state_names@[i])@ == q_name(i as nat),
    {
        let mut builder = NFABuilder { transitions: Vec::new(), next_state: 0 };
        proof {
            assert(rows_of(builder.transitions@) =~= Seq::<Seq<Step>>::empty());
        }
        let frag = builder.build_fragment(re);
        let mut state_names: Vec<String> = Vec::new();
        let mut i: usize = 0;
        while i < builder.next_state
            invariant
                i <= builder.next_state,
                state_names@.len() == i,
                forall|j: int| 0 <= j < i ==> (#[trigger] state_names@[j])@ == q_name(j as nat),
            decreases builder.next_state - i,
        {
            let mut name = String::new();
            push_char(&mut name, 'q');
            push_decimal(&mut name, i);
            proof {
                assert(name@ =~= q_name(i as nat));
            }
            state_names.push(name);
            i = i + 1;
        }
        let nfa = NFA {
            start: frag.start,
            accept: frag.accept,
            transitions: builder.transitions,
            state_count: builder.next_state,
            state_names,
        };
        proof {
            lemma_thompson_shape(*re, Seq::empty());
            let (t, s, a) = thompson(*re, Seq::empty());
            assert forall|x: int, k: int| 0 <= x < nfa.state_count && 0 <= k < nfa.transitions@[x]@.len()
                implies (#[trigger] nfa.transitions@[x]@[k]).1 < nfa.state_count by {
                assert(nfa.rows()[x] == nfa.transitions@[x]@);
                assert(t[x][k] == nfa.transitions@[x]@[k]);
            }
            assert forall|w: Seq<char>| #[trigger] nfa.accepts(w) <==> crate::regex::in_lang(*re, w) by {
                crate::thompson::lemma_thompson_language(*re, w);
            }
        }
        nfa
    }
}

impl NFABuilder {
    fn new_state(&mut self) -> (state: usize)
        requires
            old(self).next_state == old(self).transitions.len(),
            old(self).next_state < usize::MAX,
        ensures
            state == old(self).next_state,
            final(self).next_state == old(self).next_state + 1,
            final(self).next_state == final(self).transitions.len(),
            rows_of(final(self).transitions@) == rows_of(old(self).transitions@).push(seq![]),
    {
        let state = self.next_state;
        self.next_state = self.next_state + 1;
        self.transitions.push(Vec::new());
        proof {
            assert(rows_of(self.transitions@) =~= rows_of(old(self).transitions@).push(seq![]));
        }
        state
    }

    fn add_transition(&mut self, from: usize, symbol: Option<char>, to: usize)
        requires
            from < old(self).transitions.len(),
        ensures
            final(self).next_state == old(self).next_state,
            final(self).transitions.len() == old(self).transitions.len(),
            rows_of(final(self).transitions@) == add_edge(rows_of(old(self).transitions@), from as int, (symbol, to)),
    {
        self.transitions[from].push((symbol, to));
        proof {
            assert(rows_of(self.transitions@) =~= add_edge(rows_of(old(self).transitions@), from as int, (symbol, to)));
        }
    }

    fn build_fragment(&mut self, re: &Regex) -> (f: Fragment)
        requires
            old(self).next_state == old(self).transitions.len(),
            old(self).next_state + state_total(*re) <= usize::MAX,
        ensures
            final(self).next_state == final(self).transitions.len(),
            final(self).next_state == old(self).next_state + state_total(*re),
            ({
                let (t, s, a) = thompson(*re, rows_of(old(self).transitions@));
                &&& rows_of(final(self).transitions@) == t
                &&& f.start == s
                &&& f.accept == a
            }),
        decreases re,
    {
        match re {
            Regex::EmptySet => {
                let start = self.new_state();
                let accept = self.new_state();
                proof {
                    
                    let t0 = rows_of(old(self).transitions@);
                    assert(rows_of(self.transitions@) =~= t0.push(seq![]).push(seq![]));
                }
                Fragment { start, accept }
            },
            Regex::EmptyStr => {
                let start = self.new_state();
                let accept = self.new_state();
                self.add_transition(start, None, accept);
                proof {
                    let t0 = rows_of(old(self).transitions@);
                    assert(rows_of(self.transitions@) =~= t0.push(seq![(None, accept)]).push(seq![]));
                }
                Fragment { start, accept }
            },
            Regex::Char(c) => {
                let start = self.new_state();
                let accept = self.new_state();
                self.add_transition(start, Some(*c), accept);
                proof {
                    let t0 = rows_of(old(self).transitions@);
                    assert(rows_of(self.transitions@) =~= t0.push(seq![(Some(*c), accept)]).push(seq![]));
                }
                Fragment { start, accept }
            },
            Regex::Union(l, r) => {
                let ghost t0 = rows_of(self.transitions@);
                let f1 = self.build_fragment(l);
                let ghost t1 = rows_of(self.transitions@);
                let f2 = self.build_fragment(r);
                proof {
                    lemma_thompson_shape(**l, t0);
                    lemma_thompson_shape(**r, t1);
                }
                let ghost t2 = rows_of(self.transitions@);
                let start = self.new_state();
                let accept = self.new_state();
                self.add_transition(start, None, f1.start);
                self.add_transition(start, None, f2.start);
                proof {
                    assert(add_edge(add_edge(t2.push(seq![]).push(seq![]), start as int, (None, f1.start)), start as int, (None, f2.start))
                        =~~= t2.push(seq![(None, f1.start), (None, f2.start)]).push(seq![]));
                }
                self.add_transition(f1.accept, None, accept);
                self.add_transition(f2.accept, None, accept);
                Fragment { start, accept }
            },
            Regex::Concat(l, r) => {
                let ghost t0 = rows_of(self.transitions@);
                let f1 = self.build_fragment(l);
                let ghost t1 = rows_of(self.transitions@);
                let f2 = self.build_fragment(r);
                proof {
                    lemma_thompson_shape(**l, t0);
                    lemma_thompson_shape(**r, t1);
                }
                self.add_transition(f1.accept, None, f2.start);
                Fragment { start: f1.start, accept: f2.accept }
            },
            Regex::Star(r) => {
                let ghost t0 = rows_of(self.transitions@);
                let f = self.build_fragment(r);
                proof {
                    lemma_thompson_shape(**r, t0);
                }
                let ghost t1 = rows_of(self.transitions@);
                let start = self.new_state();
                let accept = self.new_state();
                self.add_transition(start, None, f.start);
                self.add_transition(start, None, accept);
                proof {
                    assert(add_edge(add_edge(t1.push(seq![]).push(seq![]), start as int, (None, f.start)), start as int, (None, accept))
                        =~~= t1.push(seq![(None, f.start), (None, accept)]).push(seq![]));
                }
                self.add_transition(f.accept, None, f.start);
                self.add_transition(f.accept, None, accept);
                Fragment { start, accept }
            },
        }
    }
}


impl NFA {
    /// The name shown for state `id`: its name, or `?` where it has none.
    pub open spec fn name_of(&self, id: int) -> Seq<char> {
        if 0 <= id < self.state_names@.len() {
            self.state_names@[id]@
        } else {
            "?"@
        }
    }

    /// The line that shows the transition `e` out of state `from`.
    pub open spec fn edge_line(&self, from: int, e: Step) -> Seq<char> {
        "\n  "@ + self.name_of(from) + match e.0 {
            Some(c) => " --"@ + seq![c] + "--> "@,
            None => " --ε--> "@,
        } + self.name_of(e.1 as int)
    }

    /// The lines of the first `k` transitions out of state `s`.
    pub open spec fn row_lines(&self, s: int, k: int) -> Seq<char>
        decreases k,
    {
        if k <= 0 {
            Seq::empty()
        } else {
            self.row_lines(s, k - 1) + self.edge_line(s, self.transitions@[s]@[k - 1])
        }
    }

    /// The lines of the transitions out of the states below `n`, state by state.
    pub open spec fn edge_lines(&self, n: int) -> Seq<char>
        decreases n,
    {
        if n <= 0 {
            Seq::empty()
        } else {
            self.edge_lines(n - 1) + self.row_lines(n - 1, self.transitions@[n - 1]@.len() as int)
        }
    }

    /// The text that shows the automaton: its size, start and accepting state, then one
    /// line per transition.
    pub open spec fn text(&self) -> Seq<char> {
        "NFA: "@ + crate::text::decimal(self.state_count as nat) + " 个状态, 开始: "@ + self.name_of(self.start as int)
            + ", 接受: "@ + self.name_of(self.accept as int) + self.edge_lines(self.state_count as int)
    }

    /// The words the automaton accepts are made of the symbols of its transitions.
    pub proof fn lemma_accepted_symbols(&self, w: Seq<char>)
        requires
            self.accepts(w),
        ensures
            forall|i: int| 0 <= i < w.len() ==> self.has_symbol(#[trigger] w[i]),
    {
        let rows = self.rows();
        let p = choose|p: Seq<Step>| #[trigger] is_path(rows, self.start as int, p) && path_end(self.start as int, p) == self.accept as int && path_label(p) == w;
        lemma_path_symbols(rows, self.start as int, p);
        assert forall|i: int| 0 <= i < w.len() implies self.has_symbol(#[trigger] w[i]) by {
            assert(table_has_symbol(rows, path_label(p)[i]));
            let (x, k) = choose|x: int, k: int| #![trigger rows[x][k]] 0 <= x < rows.len() && 0 <= k < rows[x].len() && rows[x][k].0 == Some(w[i]);
            assert(rows[x][k] == self.transitions@[x]@[k]);
        }
    }

    /// Some transition is on `c`.
    pub open spec fn has_symbol(&self, c: char) -> bool {
        exists|s: int, k: int| #![trigger self.transitions@[s]@[k]]
            0 <= s < self.transitions@.len() && 0 <= k < self.transitions@[s]@.len()
            && self.transitions@[s]@[k].0 == Some(c)
    }

    fn state_name(&self, id: usize) -> (name: &str)
        ensures
            name@ == self.name_of(id as int),
    {
        if id < self.state_names.len() {
            self.state_names[id].as_str()
        } else {
            "?"
        }
    }

    /// The automaton as text.
    pub fn display_string(&self) -> (s: String)
        requires
            self.state_count <= self.transitions@.len(),
        ensures
            s@ == self.text(),
    {
        let mut s = String::from_str("NFA: ");
        push_decimal(&mut s, self.state_count);
        s.append(" 个状态, 开始: ");
        s.append(self.state_name(self.start));
        s.append(", 接受: ");
        s.append(self.state_name(self.accept));
        let ghost head = s@;
        let mut st: usize = 0;
        while st < self.state_count
            invariant
                self.state_count <= self.transitions@.len(),
                st <= self.state_count,
                s@ == head + self.edge_lines(st as int),
            decreases self.state_count - st,
        {
            let mut k: usize = 0;
            while k < self.transitions[st].len()
                invariant
                    self.state_count <= self.transitions@.len(),
                    st < self.state_count,
                    k <= self.transitions@[st as int]@.len(),
                    s@ == head + self.edge_lines(st as int) + self.row_lines(st as int, k as int),
                decreases self.transitions@[st as int]@.len() - k,
            {
                let (sym, to) = self.transitions[st][k];
                let ghost before = s@;
                s.append("\n  ");
                s.append(self.state_name(st));
                match sym {
                    Some(c) => {
                        s.append(" --");
                        push_char(&mut s, c);
                        s.append("--> ");
                    },
                    None => {
                        s.append(" --ε--> ");
                    },
                }
                s.append(self.state_name(to));
                proof {
                    assert(s@ =~= before + self.edge_line(st as int, (sym, to)));
                }
                k = k + 1;
            }
            st = st + 1;
        }
        s
    }

    /// The symbols of the transitions, each once, in increasing order.
    pub fn collect_alphabet(&self) -> (v: Vec<char>)
        ensures
            crate::dfa::strictly_sorted(v@),
            forall|c: char| #[trigger] v@.contains(c) <==> self.has_symbol(c),
    {
        let mut v: Vec<char> = Vec::new();
        let mut s: usize = 0;
        while s < self.transitions.len()
            invariant
                s <= self.transitions@.len(),
                crate::dfa::strictly_sorted(v@),
                forall|c: char| #[trigger] v@.contains(c) <==> exists|p: int, k: int| #![trigger self.transitions@[p]@[k]]
                    0 <= p < s && 0 <= k < self.transitions@[p]@.len() && self.transitions@[p]@[k].0 == Some(c),
            decreases self.transitions@.len() - s,
        {
            let mut k: usize = 0;
            while k < self.transitions[s].len()
                invariant
                    s < self.transitions@.len(),
                    k <= self.transitions@[s as int]@.len(),
                    crate::dfa::strictly_sorted(v@),
                    forall|c: char| #[trigger] v@.contains(c) <==> ((exists|p: int, j: int| #![trigger self.transitions@[p]@[j]]
                        0 <= p < s && 0 <= j < self.transitions@[p]@.len() && self.transitions@[p]@[j].0 == Some(c))
                        || exists|j: int| 0 <= j < k && #[trigger] self.transitions@[s as int]@[j].0 == Some(c)),
                decreases self.transitions@[s as int]@.len() - k,
            {
                let ghost v0 = v@;
                match self.transitions[s][k].0 {
                    Some(c) => {
                        insert_symbol(&mut v, c);
                    },
                    None => {},
                }
                k = k + 1;
                proof {
                    assert forall|c: char| #[trigger] v@.contains(c) <==> ((exists|p: int, j: int| #![trigger self.transitions@[p]@[j]]
                        0 <= p < s && 0 <= j < self.transitions@[p]@.len() && self.transitions@[p]@[j].0 == Some(c))
                        || exists|j: int| 0 <= j < k && #[trigger] self.transitions@[s as int]@[j].0 == Some(c)) by {
                        if exists|j: int| 0 <= j < k && #[trigger] self.transitions@[s as int]@[j].0 == Some(c) {
                            let j = choose|j: int| 0 <= j < k && #[trigger] self.transitions@[s as int]@[j].0 == Some(c);
                            if j < k - 1 {
                                assert(exists|j: int| 0 <= j < k - 1 && #[trigger] self.transitions@[s as int]@[j].0 == Some(c));
                            }
                        }
                        if self.transitions@[s as int]@[k - 1].0 == Some(c) {
                            assert(exists|j: int| 0 <= j < k && #[trigger] self.transitions@[s as int]@[j].0 == Some(c));
                        }
                        if v0.contains(c) && !((exists|p: int, j: int| #![trigger self.transitions@[p]@[j]]
                            0 <= p < s && 0 <= j < self.transitions@[p]@.len() && self.transitions@[p]@[j].0 == Some(c))) {
                            let j = choose|j: int| 0 <= j < k - 1 && #[trigger] self.transitions@[s as int]@[j].0 == Some(c);
                            assert(exists|j: int| 0 <= j < k && #[trigger] self.transitions@[s as int]@[j].0 == Some(c));
                        }
                    }
                }
            }
            s = s + 1;
            proof {
                assert forall|c: char| #[trigger] v@.contains(c) <==> exists|p: int, k: int| #![trigger self.transitions@[p]@[k]]
                    0 <= p < s && 0 <= k < self.transitions@[p]@.len() && self.transitions@[p]@[k].0 == Some(c) by {
                    if v@.contains(c) {
                        if exists|j: int| 0 <= j < k && #[trigger] self.transitions@[s - 1]@[j].0 == Some(c) {
                            let j = choose|j: int| 0 <= j < k && #[trigger] self.transitions@[s - 1]@[j].0 == Some(c);
                            assert(self.transitions@[s - 1]@[j].0 == Some(c));
                        } else {
                            let (p, j) = choose|p: int, j: int| #![trigger self.transitions@[p]@[j]]
                                0 <= p < s - 1 && 0 <= j < self.transitions@[p]@.len() && self.transitions@[p]@[j].0 == Some(c);
                            assert(self.transitions@[p]@[j].0 == Some(c));
                        }
                    }
                    if exists|p: int, k: int| #![trigger self.transitions@[p]@[k]]
                        0 <= p < s && 0 <= k < self.transitions@[p]@.len() && self.transitions@[p]@[k].0 == Some(c) {
                        let (p, j) = choose|p: int, j: int| #![trigger self.transitions@[p]@[j]]
                            0 <= p < s && 0 <= j < self.transitions@[p]@.len() && self.transitions@[p]@[j].0 == Some(c);
                        if p == s - 1 {
                            assert(0 <= j < k && self.transitions@[s - 1]@[j].0 == Some(c));
                        } else {
                            assert(self.transitions@[p]@[j].0 == Some(c));
                        }
                    }
                }
            }
        }
        v
    }
}

/// The name a text gives state `i` of an automaton whose states are named `names`: its
/// name where it has one, `?` otherwise.
pub open spec fn shown_name(names: Seq<String>, i: int) -> Seq<char> {
    if 0 <= i < names.len() { names[i]@ } else { "?"@ }
}

/// The line for a transition out of state `s` on symbol `c` (on nothing for `None`) into
/// state `t`, as the text of an automaton shows it.
pub open spec fn shown_step(names: Seq<String>, s: int, c: Option<char>, t: int) -> Seq<char> {
    "\n  "@ + shown_name(names, s) + match c {
        Some(c) => " --"@ + seq![c] + "--> "@,
        None => " --ε--> "@,
    } + shown_name(names, t)
}

proof fn lemma_row_shows(n: &NFA, q: int, m: int, k: int)
    requires
        0 <= q < n.transitions@.len(),
        0 <= k < m <= n.transitions@[q]@.len(),
    ensures
        crate::text::occurs(
            shown_step(n.state_names@, q, n.transitions@[q]@[k].0, n.transitions@[q]@[k].1 as int),
            n.row_lines(q, m),
        ),
    decreases m,
{
    let x = shown_step(n.state_names@, q, n.transitions@[q]@[k].0, n.transitions@[q]@[k].1 as int);
    let e = n.transitions@[q]@[m - 1];
    if k < m - 1 {
        lemma_row_shows(n, q, m - 1, k);
        crate::text::lemma_occurs_within(x, n.row_lines(q, m - 1), n.edge_line(q, e));
    } else {
        assert(n.edge_line(q, e) == x);
        crate::text::lemma_occurs_within(x, n.row_lines(q, m - 1), x);
    }
}

proof fn lemma_edges_show(n: &NFA, c: int, q: int, k: int)
    requires
        c <= n.transitions@.len(),
        0 <= q < c,
        0 <= k < n.transitions@[q]@.len(),
    ensures
        crate::text::occurs(
            shown_step(n.state_names@, q, n.transitions@[q]@[k].0, n.transitions@[q]@[k].1 as int),
            n.edge_lines(c),
        ),
    decreases c,
{
    let x = shown_step(n.state_names@, q, n.transitions@[q]@[k].0, n.transitions@[q]@[k].1 as int);
    let row = n.row_lines(c - 1, n.transitions@[c - 1]@.len() as int);
    if q < c - 1 {
        lemma_edges_show(n, c - 1, q, k);
    } else {
        lemma_row_shows(n, q, n.transitions@[q]@.len() as int, k);
    }
    crate::text::lemma_occurs_within(x, n.edge_lines(c - 1), row);
}

/// The transition lines of a text come state by state, in the order of the states, and
/// within a state in the order of its row.
pub proof fn law_nfa_lines_in_order(n: NFA, q: int, k: int, c: int)
    requires
        0 <= q < n.transitions@.len(),
        0 <= k < n.transitions@[q]@.len(),
        0 <= c < n.transitions@.len(),
    ensures
        n.row_lines(q, k + 1) == n.row_lines(q, k)
            + shown_step(n.state_names@, q, n.transitions@[q]@[k].0, n.transitions@[q]@[k].1 as int),
        n.row_lines(q, 0) == Seq::<char>::empty(),
        n.edge_lines(c + 1) == n.edge_lines(c) + n.row_lines(c, n.transitions@[c]@.len() as int),
        n.edge_lines(0) == Seq::<char>::empty(),
{
}

/// The states of an automaton built from an expression are named `q` and their number
/// in base ten.
pub proof fn law_state_names(i: nat)
    ensures
        q_name(i) == "q"@ + crate::text::decimal(i),
{
    reveal_strlit("q");
    assert(seq!['q'] =~= "q"@);
}

/// The text of an automaton names its number of states in base ten, its start state and
/// its accepting state (by their names, `?` for a state without one), and after that
/// shows every transition of every state on a line of its own.
pub proof fn law_nfa_text(n: NFA)
    requires
        n.state_count <= n.transitions@.len(),
    ensures
        ({
            let head = "NFA: "@ + crate::text::decimal(n.state_count as nat) + " 个状态, 开始: "@
                + shown_name(n.state_names@, n.start as int) + ", 接受: "@ + shown_name(n.state_names@, n.accept as int);
            let rest = n.text().subrange(head.len() as int, n.text().len() as int);
            &&& n.text() == head + rest
            &&& forall|q: int, k: int| 0 <= q < n.state_count && 0 <= k < n.transitions@[q]@.len()
                ==> crate::text::occurs(
                    #[trigger] shown_step(n.state_names@, q, n.transitions@[q]@[k].0, n.transitions@[q]@[k].1 as int),
                    rest,
                )
        }),
{
    let head = "NFA: "@ + crate::text::decimal(n.state_count as nat) + " 个状态, 开始: "@
        + shown_name(n.state_names@, n.start as int) + ", 接受: "@ + shown_name(n.state_names@, n.accept as int);
    let edges = n.edge_lines(n.state_count as int);
    assert(n.text() =~= head + edges);
    assert(n.text().subrange(head.len() as int, n.text().len() as int) =~= edges);
    assert forall|q: int, k: int| 0 <= q < n.state_count && 0 <= k < n.transitions@[q]@.len()
        implies crate::text::occurs(
            #[trigger] shown_step(n.state_names@, q, n.transitions@[q]@[k].0, n.transitions@[q]@[k].1 as int),
            edges,
        ) by {
        lemma_edges_show(&n, n.state_count as int, q, k);
    }
}

} // verus!
