use vstd::prelude::*;

use std::collections::BTreeSet;

use crate::nfa::NFA;
use crate::text::{push_char, push_decimal};

verus! {

broadcast use {vstd::std_specs::btree::group_btree_axioms, vstd::laws_cmp::group_laws_cmp};

/// The transitions out of one state: (symbol, target) pairs, by increasing symbol.
pub type Row = Vec<(char, usize)>;

/// The target of the transition on `c` in a row, if there is one.
pub open spec fn lookup(r: Seq<(char, usize)>, c: char) -> Option<usize>
    decreases r.len(),
{
    if r.len() == 0 {
        None
    } else if r[0].0 == c {
        Some(r[0].1)
    } else {
        lookup(r.drop_first(), c)
    }
}

/// The symbols of a row increase strictly, so that none occurs twice.
pub open spec fn sorted_row(r: Seq<(char, usize)>) -> bool {
    forall|i: int, j: int| 0 <= i < j < r.len() ==> r[i].0 < r[j].0
}

/// In a row whose symbols increase, the entry for `c` is the one pair that has `c`.
pub proof fn lemma_lookup(r: Seq<(char, usize)>, c: char)
    requires
        sorted_row(r),
    ensures
        forall|i: int| 0 <= i < r.len() && r[i].0 == c ==> lookup(r, c) == Some(r[i].1),
        (forall|i: int| 0 <= i < r.len() ==> r[i].0 != c) ==> lookup(r, c) is None,
        lookup(r, c) is Some ==> exists|i: int| 0 <= i < r.len() && r[i] == (c, lookup(r, c)->0),
    decreases r.len(),
{
    if r.len() > 0 {
        let q = r.drop_first();
        assert(sorted_row(q)) by {
            assert forall|i: int, j: int| 0 <= i < j < q.len() implies q[i].0 < q[j].0 by {
                assert(q[i] == r[i + 1] && q[j] == r[j + 1]);
            }
        }
        lemma_lookup(q, c);
        assert forall|i: int| 0 <= i < r.len() && r[i].0 == c implies lookup(r, c) == Some(r[i].1) by {
            if i > 0 {
                assert(r[0].0 < r[i].0);
                assert(q[i - 1] == r[i]);
            }
        }
        if lookup(r, c) is Some && r[0].0 != c {
            let i = choose|i: int| 0 <= i < q.len() && q[i] == (c, lookup(q, c)->0);
            assert(r[i + 1] == q[i]);
        }
        if forall|i: int| 0 <= i < r.len() ==> r[i].0 != c {
            assert forall|i: int| 0 <= i < q.len() implies q[i].0 != c by {
                assert(q[i] == r[i + 1]);
            }
        }
    }
}

/// The target of the transition on `c`.
pub fn row_get(r: &Row, c: char) -> (t: Option<usize>)
    ensures
        t == lookup(r@, c),
{
    let mut i: usize = 0;
    assert(r@.skip(0) =~= r@);
    while i < r.len()
        invariant
            i <= r.len(),
            lookup(r@, c) == lookup(r@.skip(i as int), c),
        decreases r.len() - i,
    {
        if r[i].0 == c {
            return Some(r[i].1);
        }
        proof {
            assert(r@.skip(i as int).drop_first() =~= r@.skip(i + 1));
        }
        i = i + 1;
    }
    None
}

/// Sets the transition on `c` to `v`, keeping the symbols in increasing order.
pub fn row_insert(r: &mut Row, c: char, v: usize)
    requires
        sorted_row(old(r)@),
    ensures
        sorted_row(final(r)@),
        forall|d: char| #[trigger] lookup(final(r)@, d) == if d == c { Some(v) } else { lookup(old(r)@, d) },
        final(r)@.len() == old(r)@.len() + if lookup(old(r)@, c) is Some { 0int } else { 1int },
        forall|i: int| 0 <= i < final(r)@.len() ==> (final(r)@[i].0 == c || exists|j: int| 0 <= j < old(r)@.len() && #[trigger] old(r)@[j] == final(r)@[i]),
{
    let ghost o = r@;
    let mut i: usize = 0;
    while i < r.len() && r[i].0 < c
        invariant
            r@ == o,
            i <= r.len(),
            forall|j: int| 0 <= j < i ==> r@[j].0 < c,
        decreases r.len() - i,
    {
        i = i + 1;
    }
    proof {
        lemma_lookup(o, c);
    }
    if i < r.len() && r[i].0 == c {
        r.set(i, (c, v));
        proof {
            assert(sorted_row(r@)) by {
                assert forall|a: int, b: int| 0 <= a < b < r@.len() implies r@[a].0 < r@[b].0 by {
                    assert(r@[a].0 == o[a].0 && r@[b].0 == o[b].0);
                }
            }
            lemma_lookup(r@, c);
            assert(r@[i as int] == (c, v));
            assert forall|d: char| #[trigger] lookup(r@, d) == if d == c { Some(v) } else { lookup(o, d) } by {
                lemma_lookup(r@, d);
                lemma_lookup(o, d);
                if d != c {
                    if lookup(o, d) is Some {
                        let j = choose|j: int| 0 <= j < o.len() && o[j] == (d, lookup(o, d)->0);
                        assert(r@[j] == o[j]);
                    }
                    if lookup(r@, d) is Some {
                        let j = choose|j: int| 0 <= j < r@.len() && r@[j] == (d, lookup(r@, d)->0);
                        assert(r@[j] == o[j]);
                    }
                }
            }
            assert forall|a: int| 0 <= a < r@.len() implies (r@[a].0 == c || exists|j: int| 0 <= j < o.len() && #[trigger] o[j] == r@[a]) by {
                if a != i {
                    assert(o[a] == r@[a]);
                }
            }
        }
    } else {
        r.insert(i, (c, v));
        proof {
            assert(sorted_row(r@)) by {
                assert forall|a: int, b: int| 0 <= a < b < r@.len() implies r@[a].0 < r@[b].0 by {
                    if b < i {
                        assert(r@[a] == o[a] && r@[b] == o[b]);
                    } else if b == i {
                        assert(r@[a] == o[a]);
                    } else if a < i {
                        assert(r@[a] == o[a] && r@[b] == o[b - 1]);
                        assert(o[i as int].0 > c);
                        if b - 1 > i {
                            assert(o[i as int].0 < o[b - 1].0);
                        }
                    } else if a == i {
                        assert(r@[b] == o[b - 1]);
                        assert(o[i as int].0 > c);
                        if b - 1 > i {
                            assert(o[i as int].0 < o[b - 1].0);
                        }
                    } else {
                        assert(r@[a] == o[a - 1] && r@[b] == o[b - 1]);
                    }
                }
            }
            assert forall|j: int| 0 <= j < o.len() implies o[j].0 != c by {
                if j >= i {
                    assert(o[i as int].0 > c);
                    if j > i {
                        assert(o[i as int].0 < o[j].0);
                    }
                }
            }
            lemma_lookup(r@, c);
            assert(r@[i as int] == (c, v));
            assert forall|d: char| #[trigger] lookup(r@, d) == if d == c { Some(v) } else { lookup(o, d) } by {
                lemma_lookup(r@, d);
                lemma_lookup(o, d);
                if d != c {
                    if lookup(o, d) is Some {
                        let j = choose|j: int| 0 <= j < o.len() && o[j] == (d, lookup(o, d)->0);
                        if j < i {
                            assert(r@[j] == o[j]);
                        } else {
                            assert(r@[j + 1] == o[j]);
                        }
                    }
                    if lookup(r@, d) is Some {
                        let j = choose|j: int| 0 <= j < r@.len() && r@[j] == (d, lookup(r@, d)->0);
                        if j < i {
                            assert(r@[j] == o[j]);
                        } else {
                            assert(r@[j] == o[j - 1]);
                        }
                    }
                }
            }
            assert forall|a: int| 0 <= a < r@.len() implies (r@[a].0 == c || exists|j: int| 0 <= j < o.len() && #[trigger] o[j] == r@[a]) by {
                if a < i {
                    assert(o[a] == r@[a]);
                } else if a > i {
                    assert(o[a - 1] == r@[a]);
                }
            }
        }
    }
}

/// A deterministic finite automaton over an alphabet; a missing transition rejects.
///
/// Each row lists the transitions out of one state by increasing symbol, each symbol
/// once, as pairs of a symbol and a target. The invariant of the type, `wf`, which every
/// constructor of the library establishes and the operations keep, is that there is one
/// row per state, that the start state, the accepting states and every target are among
/// the states, and that every symbol of a row is in the alphabet.
#[derive(Debug, Clone)]
pub struct DFA {
    pub start: usize,
    pub transitions: Vec<Row>,
    pub accept_states: BTreeSet<usize>,
    pub state_count: usize,
    pub alphabet: Vec<char>,
}

/// The rows of a transition table, as sequences.
pub open spec fn table_of(t: Seq<Row>) -> Seq<Seq<(char, usize)>> {
    Seq::new(t.len(), |i: int| t[i]@)
}

/// The state reached from `q` by reading `w`, if every transition on the way exists.
pub open spec fn run_from(table: Seq<Seq<(char, usize)>>, q: int, w: Seq<char>) -> Option<int>
    decreases w.len(),
{
    if w.len() == 0 {
        Some(q)
    } else if 0 <= q < table.len() {
        match lookup(table[q], w[0]) {
            Some(t) => run_from(table, t as int, w.drop_first()),
            None => None,
        }
    } else {
        None
    }
}

/// The sets of NFA states that the states of a subset automaton stand for.
pub open spec fn sets_of(sets: Seq<Vec<bool>>) -> Seq<Set<usize>> {
    Seq::new(sets.len(), |i: int| crate::stateset::bits_set(sets[i]@))
}

/// The tables of flags, as sequences.
pub open spec fn flags_of(sets: Seq<Vec<bool>>) -> Seq<Seq<bool>> {
    Seq::new(sets.len(), |i: int| sets[i]@)
}

/// State `q` of a subset automaton moves on each symbol of the alphabet to the state
/// that stands for the ε-closure of the move of its set, and has no other transition.
pub open spec fn subset_row(
    rows: Seq<Seq<crate::nfa::Step>>,
    table: Seq<Seq<(char, usize)>>,
    ss: Seq<Set<usize>>,
    alphabet: Seq<char>,
    q: int,
) -> bool {
    forall|c: char| {
        &&& alphabet.contains(c) ==> (#[trigger] lookup(table[q], c) matches Some(j) && j < ss.len()
            && ss[j as int] == crate::nfa::eps_closure(rows, crate::nfa::step_set(rows, ss[q], c)))
        &&& !alphabet.contains(c) ==> lookup(table[q], c) is None
    }
}

/// Reading a word of the alphabet, a subset automaton follows the subset simulation;
/// reading any other word, it finds a missing transition.
pub proof fn lemma_subset_run(
    rows: Seq<Seq<crate::nfa::Step>>,
    table: Seq<Seq<(char, usize)>>,
    ss: Seq<Set<usize>>,
    alphabet: Seq<char>,
    q: int,
    w: Seq<char>,
)
    requires
        ss.len() == table.len(),
        0 <= q < table.len(),
        forall|p: int| 0 <= p < table.len() ==> #[trigger] subset_row(rows, table, ss, alphabet, p),
    ensures
        (forall|i: int| 0 <= i < w.len() ==> alphabet.contains(#[trigger] w[i])) ==> (run_from(table, q, w) matches Some(j)
            && 0 <= j < table.len() && ss[j] == crate::nfa::sim(rows, ss[q], w)),
        !(forall|i: int| 0 <= i < w.len() ==> alphabet.contains(#[trigger] w[i])) ==> run_from(table, q, w) is None,
    decreases w.len(),
{
    if w.len() > 0 {
        let c = w[0];
        let v = w.drop_first();
        assert(subset_row(rows, table, ss, alphabet, q));
        if alphabet.contains(c) {
            let j = lookup(table[q], c)->0;
            lemma_subset_run(rows, table, ss, alphabet, j as int, v);
            assert forall|i: int| 0 <= i < v.len() implies v[i] == w[i + 1] by {}
            if forall|i: int| 0 <= i < w.len() ==> alphabet.contains(#[trigger] w[i]) {
                assert forall|i: int| 0 <= i < v.len() implies alphabet.contains(#[trigger] v[i]) by {
                    assert(alphabet.contains(w[i + 1]));
                }
            } else {
                let i = choose|i: int| 0 <= i < w.len() && !alphabet.contains(#[trigger] w[i]);
                assert(i != 0);
                assert(!alphabet.contains(v[i - 1]));
            }
        } else {
            assert(!alphabet.contains(w[0]));
        }
    } else {
        assert(run_from(table, q, w) == Some(q));
    }
}

fn bits_equal(a: &Vec<bool>, b: &Vec<bool>) -> (r: bool)
    ensures
        r == (a@ == b@),
{
    if a.len() != b.len() {
        return false;
    }
    let mut i: usize = 0;
    while i < a.len()
        invariant
            a@.len() == b@.len(),
            i <= a.len(),
            forall|j: int| 0 <= j < i ==> a@[j] == b@[j],
        decreases a.len() - i,
    {
        if a[i] != b[i] {
            return false;
        }
        i = i + 1;
    }
    assert(a@ =~= b@);
    true
}

/// The number of the state whose set of NFA states has the flags `b`, if one has. The
/// states found so far are searched one by one, so the subset construction takes time
/// quadratic in the number of its states; a map keyed by the sets would avoid that.
fn find_set(sets: &Vec<Vec<bool>>, b: &Vec<bool>) -> (r: Option<usize>)
    ensures
        match r {
            Some(i) => i < sets@.len() && sets@[i as int]@ == b@,
            None => forall|i: int| 0 <= i < sets@.len() ==> sets@[i]@ != b@,
        },
{
    let mut i: usize = 0;
    while i < sets.len()
        invariant
            i <= sets.len(),
            forall|j: int| 0 <= j < i ==> sets@[j]@ != b@,
        decreases sets.len() - i,
    {
        if bits_equal(&sets[i], b) {
            return Some(i);
        }
        i = i + 1;
    }
    None
}

fn any_marked(b: &Vec<bool>) -> (r: bool)
    ensures
        r == !crate::stateset::bits_set(b@).is_empty(),
{
    let mut i: usize = 0;
    while i < b.len()
        invariant
            i <= b.len(),
            forall|j: int| 0 <= j < i ==> !b@[j],
        decreases b.len() - i,
    {
        if b[i] {
            assert(crate::stateset::bits_set(b@).contains(i));
            return true;
        }
        i = i + 1;
    }
    assert(crate::stateset::bits_set(b@) =~= Set::<usize>::empty());
    false
}

fn single_flag(n: usize, x: usize) -> (b: Vec<bool>)
    requires
        x < n,
    ensures
        b@.len() == n,
        crate::stateset::bits_set(b@) == set![x],
{
    let mut b: Vec<bool> = Vec::new();
    let mut i: usize = 0;
    while i < n
        invariant
            i <= n,
            b@.len() == i,
            forall|j: int| 0 <= j < i ==> b@[j] == (j == x),
        decreases n - i,
    {
        b.push(i == x);
        i = i + 1;
    }
    assert(crate::stateset::bits_set(b@) =~= set![x]);
    b
}

fn flag_at(b: &Vec<bool>, x: usize) -> (r: bool)
    ensures
        r == crate::stateset::bits_set(b@).contains(x),
{
    x < b.len() && b[x]
}

/// During the subset construction: state `q` has, on each symbol of `alphabet` whose
/// move is not empty, the transition to the state of the closure of the move, and no
/// other transition.
pub open spec fn subset_row_partial(
    rows: Seq<Seq<crate::nfa::Step>>,
    table: Seq<Seq<(char, usize)>>,
    ss: Seq<Set<usize>>,
    alphabet: Seq<char>,
    q: int,
) -> bool {
    forall|c: char| {
        &&& alphabet.contains(c) ==> ({
            let t = crate::nfa::eps_closure(rows, crate::nfa::step_set(rows, ss[q], c));
            if t.is_empty() {
                #[trigger] lookup(table[q], c) is None
            } else {
                lookup(table[q], c) matches Some(j) && j < ss.len() && ss[j as int] == t
            }
        })
        &&& !alphabet.contains(c) ==> lookup(table[q], c) is None
    }
}

/// Position `(p, i)` comes before `(p2, i2)`: an earlier row, or the same row and an
/// earlier symbol.
pub open spec fn before(p: int, i: int, p2: int, i2: int) -> bool {
    p < p2 || (p == p2 && i < i2)
}

/// Row `p` of `table` leads on the `i`-th symbol of `a` to state `q`.
pub open spec fn leads_to(table: Seq<Seq<(char, usize)>>, a: Seq<char>, p: int, i: int, q: int) -> bool {
    0 <= p < table.len() && 0 <= i < a.len() && lookup(table[p], a[i]) == Some(q as usize)
}

/// `(p, i)` is the first position, reading the rows in order and each row in the order
/// of `a`, that leads to `q`.
pub open spec fn first_lead(table: Seq<Seq<(char, usize)>>, a: Seq<char>, q: int, p: int, i: int) -> bool {
    &&& leads_to(table, a, p, i, q)
    &&& forall|p2: int, i2: int| #[trigger] leads_to(table, a, p2, i2, q) ==> !before(p2, i2, p, i)
}

/// State `q` is first met in the row of an earlier state.
pub open spec fn met_earlier(table: Seq<Seq<(char, usize)>>, a: Seq<char>, q: int) -> bool {
    exists|p: int, i: int| p < q && #[trigger] first_lead(table, a, q, p, i)
}

/// The states `1..m` are numbered in the order in which reading the rows meets them, each
/// first met in the row of an earlier state.
pub open spec fn numbered_in_order(table: Seq<Seq<(char, usize)>>, a: Seq<char>, m: int) -> bool {
    &&& forall|q: int| 1 <= q < m ==> #[trigger] met_earlier(table, a, q)
    &&& forall|q1: int, q2: int, p1: int, i1: int, p2: int, i2: int|
        1 <= q1 < q2 < m && #[trigger] first_lead(table, a, q1, p1, i1) && #[trigger] first_lead(table, a, q2, p2, i2)
        ==> before(p1, i1, p2, i2)
}

/// Where each state `1..m` has a position `found[q]` in an earlier row that leads to it,
/// no earlier position leading to it, and the positions increase with the states, the
/// states are numbered in order.
proof fn lemma_numbered_in_order(table: Seq<Seq<(char, usize)>>, a: Seq<char>, found: Seq<(int, int)>, m: int)
    requires
        found.len() >= m,
        forall|q: int| 1 <= q < m ==> #[trigger] found[q].0 < q && leads_to(table, a, found[q].0, found[q].1, q),
        forall|q: int, p: int, i: int| 1 <= q < m && before(p, i, found[q].0, found[q].1) ==> !#[trigger] leads_to(table, a, p, i, q),
        forall|q1: int, q2: int| 1 <= q1 < q2 < m ==> before(#[trigger] found[q1].0, found[q1].1, #[trigger] found[q2].0, found[q2].1),
    ensures
        numbered_in_order(table, a, m),
{
    assert forall|q: int| 1 <= q < m implies #[trigger] met_earlier(table, a, q) by {
        assert(first_lead(table, a, q, found[q].0, found[q].1));
    }
    assert forall|q1: int, q2: int, p1: int, i1: int, p2: int, i2: int|
        1 <= q1 < q2 < m && #[trigger] first_lead(table, a, q1, p1, i1) && #[trigger] first_lead(table, a, q2, p2, i2)
        implies before(p1, i1, p2, i2) by {
        assert(found[q1].0 < q1 && leads_to(table, a, found[q1].0, found[q1].1, q1));
        assert(found[q2].0 < q2 && leads_to(table, a, found[q2].0, found[q2].1, q2));
        assert(!before(found[q1].0, found[q1].1, p1, i1));
        assert(!before(p1, i1, found[q1].0, found[q1].1));
        assert(!before(found[q2].0, found[q2].1, p2, i2));
        assert(!before(p2, i2, found[q2].0, found[q2].1));
        assert(before(found[q1].0, found[q1].1, found[q2].0, found[q2].1));
    }
}

/// Setting the transition on `c` of row `head` to `to`, where it was missing or already
/// `to`, adds leads to `to` at the positions of `c` in that row, and changes nothing else.
proof fn lemma_insert_leads(tb0: Seq<Seq<(char, usize)>>, tb: Seq<Seq<(char, usize)>>, a: Seq<char>, head: int, c: char, to: usize)
    requires
        tb.len() == tb0.len(),
        0 <= head < tb.len(),
        forall|q: int| 0 <= q < tb.len() && q != head ==> #[trigger] tb[q] == tb0[q],
        forall|d: char| #[trigger] lookup(tb[head], d) == if d == c { Some(to) } else { lookup(tb0[head], d) },
        lookup(tb0[head], c) is None || lookup(tb0[head], c) == Some(to),
    ensures
        forall|p: int, i: int, q: int| 0 <= q <= usize::MAX && q != to ==> (#[trigger] leads_to(tb, a, p, i, q) == leads_to(tb0, a, p, i, q)),
        forall|p: int, i: int| #[trigger] leads_to(tb, a, p, i, to as int) ==> leads_to(tb0, a, p, i, to as int) || (p == head && a[i] == c),
        forall|p: int, i: int| leads_to(tb0, a, p, i, to as int) ==> #[trigger] leads_to(tb, a, p, i, to as int),
{
    assert forall|p: int, i: int, q: int| 0 <= q <= usize::MAX && q != to implies (#[trigger] leads_to(tb, a, p, i, q) == leads_to(tb0, a, p, i, q)) by {
        if 0 <= p < tb.len() && p != head {
            assert(tb[p] == tb0[p]);
        }
    }
    assert forall|p: int, i: int| #[trigger] leads_to(tb, a, p, i, to as int) implies leads_to(tb0, a, p, i, to as int) || (p == head && a[i] == c) by {
        if p != head {
            assert(tb[p] == tb0[p]);
        }
    }
    assert forall|p: int, i: int| leads_to(tb0, a, p, i, to as int) implies #[trigger] leads_to(tb, a, p, i, to as int) by {
        if p != head {
            assert(tb[p] == tb0[p]);
        }
    }
}

/// A symbol whose move is not empty has its transition in a row under construction.
proof fn lemma_partial_hit(
    rows: Seq<Seq<crate::nfa::Step>>,
    table: Seq<Seq<(char, usize)>>,
    ss: Seq<Set<usize>>,
    alphabet: Seq<char>,
    q: int,
    c: char,
)
    requires
        subset_row_partial(rows, table, ss, alphabet, q),
        alphabet.contains(c),
        !crate::nfa::eps_closure(rows, crate::nfa::step_set(rows, ss[q], c)).is_empty(),
    ensures
        lookup(table[q], c) matches Some(j) && j < ss.len() && ss[j as int] == crate::nfa::eps_closure(rows, crate::nfa::step_set(rows, ss[q], c)),
{
    assert(lookup(table[q], c) == lookup(table[q], c));
}

/// An added row without transitions leads nowhere.
proof fn lemma_leads_push_empty(tb0: Seq<Seq<(char, usize)>>, a: Seq<char>)
    ensures
        forall|p: int, i: int, q: int| #[trigger] leads_to(tb0.push(Seq::empty()), a, p, i, q) == leads_to(tb0, a, p, i, q),
{
    let tb = tb0.push(Seq::<(char, usize)>::empty());
    assert forall|p: int, i: int, q: int| #[trigger] leads_to(tb, a, p, i, q) == leads_to(tb0, a, p, i, q) by {
        if 0 <= p < tb0.len() {
            assert(tb[p] == tb0[p]);
        } else if p == tb0.len() {
            assert(tb[p] == Seq::<(char, usize)>::empty());
        }
    }
}

/// The positions at which the states are first met, kept up to date when the transition
/// on the `ai`-th symbol of row `head` is set to `to`, a state met before or a fresh one.
proof fn lemma_found_step(
    tbm: Seq<Seq<(char, usize)>>,
    tb: Seq<Seq<(char, usize)>>,
    a: Seq<char>,
    found0: Seq<(int, int)>,
    found: Seq<(int, int)>,
    len: int,
    head: int,
    ai: int,
    c: char,
    to: int,
    fresh: bool,
)
    requires
        0 <= head,
        0 <= ai < a.len(),
        a[ai] == c,
        0 <= to < len,
        len <= usize::MAX,
        found.len() == len,
        found == if fresh { found0.push((head, ai)) } else { found0 },
        fresh ==> to == found0.len() && len == found0.len() + 1 && head < to,
        !fresh ==> len == found0.len(),
        forall|q: int| 1 <= q < found0.len() ==> #[trigger] found0[q].0 < q
            && before(found0[q].0, found0[q].1, head, ai) && leads_to(tbm, a, found0[q].0, found0[q].1, q),
        forall|q: int, p: int, i: int| 1 <= q < found0.len() && before(p, i, found0[q].0, found0[q].1)
            ==> !#[trigger] leads_to(tbm, a, p, i, q),
        forall|q1: int, q2: int| 1 <= q1 < q2 < found0.len()
            ==> before(#[trigger] found0[q1].0, found0[q1].1, #[trigger] found0[q2].0, found0[q2].1),
        forall|p: int, i: int, q: int| 0 <= q <= usize::MAX && q != to ==> (#[trigger] leads_to(tb, a, p, i, q) == leads_to(tbm, a, p, i, q)),
        forall|p: int, i: int| #[trigger] leads_to(tb, a, p, i, to) ==> leads_to(tbm, a, p, i, to) || (p == head && a[i] == c),
        forall|p: int, i: int| leads_to(tbm, a, p, i, to) ==> #[trigger] leads_to(tb, a, p, i, to),
        leads_to(tb, a, head, ai, to),
        fresh ==> forall|p: int, i: int| !#[trigger] leads_to(tbm, a, p, i, to),
        fresh ==> forall|i: int| 0 <= i < ai ==> #[trigger] a[i] != c,
        !fresh ==> forall|i: int| 0 <= i < ai && #[trigger] a[i] == c ==> leads_to(tbm, a, head, i, to),
    ensures
        forall|q: int| 1 <= q < len ==> #[trigger] found[q].0 < q
            && before(found[q].0, found[q].1, head, ai + 1) && leads_to(tb, a, found[q].0, found[q].1, q),
        forall|q: int, p: int, i: int| 1 <= q < len && before(p, i, found[q].0, found[q].1)
            ==> !#[trigger] leads_to(tb, a, p, i, q),
        forall|q1: int, q2: int| 1 <= q1 < q2 < len
            ==> before(#[trigger] found[q1].0, found[q1].1, #[trigger] found[q2].0, found[q2].1),
{
    assert forall|q: int| 1 <= q < len implies #[trigger] found[q].0 < q
        && before(found[q].0, found[q].1, head, ai + 1) && leads_to(tb, a, found[q].0, found[q].1, q) by {
        if q < found0.len() {
            assert(found[q] == found0[q]);
            assert(leads_to(tbm, a, found0[q].0, found0[q].1, q));
        }
    }
    assert forall|q: int, p: int, i: int| 1 <= q < len && before(p, i, found[q].0, found[q].1)
        implies !#[trigger] leads_to(tb, a, p, i, q) by {
        if q < found0.len() {
            assert(found[q] == found0[q]);
            assert(!leads_to(tbm, a, p, i, q));
            if q == to && leads_to(tb, a, p, i, q) {
                assert(p == head && a[i] == c);
                assert(before(found0[q].0, found0[q].1, head, ai));
                assert(i < ai);
                assert(leads_to(tbm, a, head, i, to));
            }
        } else {
            assert(fresh && q == to);
            assert(found[q] == (head, ai));
            if leads_to(tb, a, p, i, q) {
                assert(!leads_to(tbm, a, p, i, q));
                assert(p == head && a[i] == c);
                assert(i < ai);
            }
        }
    }
    assert forall|q1: int, q2: int| 1 <= q1 < q2 < len
        implies before(#[trigger] found[q1].0, found[q1].1, #[trigger] found[q2].0, found[q2].1) by {
        if q2 < found0.len() {
            assert(found[q1] == found0[q1] && found[q2] == found0[q2]);
        } else {
            assert(found[q1] == found0[q1]);
            assert(found[q2] == (head, ai));
        }
    }
}

/// Flag vectors of one length that mark the same states are equal.
proof fn lemma_flags_determined(a: Seq<bool>, b: Seq<bool>)
    requires
        a.len() == b.len(),
        a.len() <= usize::MAX,
        crate::stateset::bits_set(a) == crate::stateset::bits_set(b),
    ensures
        a == b,
{
    assert forall|i: int| 0 <= i < a.len() implies a[i] == b[i] by {
        assert(crate::stateset::bits_set(a).contains(i as usize) == a[i]);
        assert(crate::stateset::bits_set(b).contains(i as usize) == b[i]);
    }
    assert(a =~= b);
}

proof fn lemma_push_distinct(s: Seq<Seq<bool>>, x: Seq<bool>)
    requires
        s.no_duplicates(),
        forall|i: int| 0 <= i < s.len() ==> s[i] != x,
    ensures
        s.push(x).no_duplicates(),
{
    assert forall|i: int, j: int| 0 <= i < s.push(x).len() && 0 <= j < s.push(x).len() && i != j
        implies s.push(x)[i] != s.push(x)[j] by {
        if i < s.len() && j < s.len() {
            assert(s.push(x)[i] == s[i] && s.push(x)[j] == s[j]);
        } else if i < s.len() {
            assert(s.push(x)[i] == s[i]);
        } else {
            assert(s.push(x)[j] == s[j]);
        }
    }
}

/// The subset construction proper: the flags of the sets its states stand for, their
/// transitions and the accepting ones, every state processed.
fn subset_states(nfa: &NFA, alphabet: &[char], start_set: Vec<bool>) -> (res: (Vec<Vec<bool>>, Vec<Row>, BTreeSet<usize>))
    requires
        nfa.wf(),
        start_set@.len() == nfa.state_count,
        !crate::stateset::bits_set(start_set@).is_empty(),
    ensures
        ({
            let (sets, trans, acc) = res;
            let ss = sets_of(sets@);
            let table = table_of(trans@);
            &&& sets@.len() == trans@.len()
            &&& sets@.len() >= 1
            &&& sets@[0]@ == start_set@
            &&& forall|q: int| 0 <= q < sets@.len() ==> (#[trigger] sets@[q])@.len() == nfa.state_count
            &&& forall|q: int| 0 <= q < trans@.len() ==> sorted_row(#[trigger] trans@[q]@)
            &&& forall|q: int, k: int| 0 <= q < trans@.len() && 0 <= k < trans@[q]@.len()
                ==> (#[trigger] trans@[q]@[k]).1 < trans@.len() && alphabet@.contains(trans@[q]@[k].0)
            &&& forall|q: int| 0 <= q < table.len() ==> #[trigger] subset_row_partial(nfa.rows(), table, ss, alphabet@, q)
            &&& forall|x: usize| acc@.contains(x) <==> (x < sets@.len() && ss[x as int].contains(nfa.accept))
            &&& ss.no_duplicates()
            &&& forall|q: int| 0 <= q < ss.len() ==> !(#[trigger] ss[q]).is_empty()
            &&& numbered_in_order(table, alphabet@, sets@.len() as int)
        }),
{
    let n = nfa.state_count;
    let ghost rows = nfa.rows();
    let mut sets: Vec<Vec<bool>> = Vec::new();
    let mut trans: Vec<Row> = Vec::new();
    let mut acc: BTreeSet<usize> = BTreeSet::new();
    let first_accepts = flag_at(&start_set, nfa.accept);
    sets.push(start_set);
    trans.push(Vec::new());
    if first_accepts {
        acc.insert(0);
    }
    proof {
        assert(flags_of(sets@) =~= seq![sets@[0]@]);
        assert(acc@ =~= Set::new(|x: usize| x < sets@.len() && sets_of(sets@)[x as int].contains(nfa.accept)));
    }
    let mut head: usize = 0;
    let ghost mut found: Seq<(int, int)> = seq![(0int, 0int)];
    while head < sets.len()
        invariant
            found.len() == sets@.len(),
            forall|q: int| 1 <= q < sets@.len() ==> #[trigger] found[q].0 < q && found[q].0 < head
                && leads_to(table_of(trans@), alphabet@, found[q].0, found[q].1, q),
            forall|q: int, p: int, i: int| 1 <= q < sets@.len() && before(p, i, found[q].0, found[q].1)
                ==> !#[trigger] leads_to(table_of(trans@), alphabet@, p, i, q),
            forall|q1: int, q2: int| 1 <= q1 < q2 < sets@.len()
                ==> before(#[trigger] found[q1].0, found[q1].1, #[trigger] found[q2].0, found[q2].1),
            forall|q: int| 0 <= q < sets@.len() ==> !(#[trigger] sets_of(sets@)[q]).is_empty(),
            n == nfa.state_count,
            nfa.wf(),
            rows == nfa.rows(),
            sets@.len() == trans@.len(),
            1 <= sets@.len(),
            head <= sets@.len(),
            sets@[0]@ == start_set@,
            forall|q: int| 0 <= q < sets@.len() ==> (#[trigger] sets@[q])@.len() == n,
            flags_of(sets@).no_duplicates(),
            forall|q: int| 0 <= q < trans@.len() ==> sorted_row(#[trigger] trans@[q]@),
            forall|q: int, k: int| 0 <= q < trans@.len() && 0 <= k < trans@[q]@.len()
                ==> (#[trigger] trans@[q]@[k]).1 < trans@.len() && alphabet@.contains(trans@[q]@[k].0),
            forall|q: int| 0 <= q < head ==> #[trigger] subset_row_partial(rows, table_of(trans@), sets_of(sets@), alphabet@, q),
            forall|q: int| head <= q < trans@.len() ==> (#[trigger] trans@[q])@.len() == 0,
            forall|x: usize| acc@.contains(x) <==> (x < sets@.len() && sets_of(sets@)[x as int].contains(nfa.accept)),
        decreases crate::stateset::two_to(n as nat) - sets@.len(), sets@.len() - head,
    {
        proof {
            crate::stateset::lemma_distinct_flags(flags_of(sets@), n as nat);
        }
        let from_id = head;
        let ghost len0 = sets@.len();
        let ghost from_set = sets@[from_id as int]@;
        let mut ai: usize = 0;
        while ai < alphabet.len()
            invariant
                found.len() == sets@.len(),
                forall|q: int| 1 <= q < sets@.len() ==> #[trigger] found[q].0 < q && before(found[q].0, found[q].1, head as int, ai as int)
                    && leads_to(table_of(trans@), alphabet@, found[q].0, found[q].1, q),
                forall|q: int, p: int, i: int| 1 <= q < sets@.len() && before(p, i, found[q].0, found[q].1)
                    ==> !#[trigger] leads_to(table_of(trans@), alphabet@, p, i, q),
                forall|q1: int, q2: int| 1 <= q1 < q2 < sets@.len()
                    ==> before(#[trigger] found[q1].0, found[q1].1, #[trigger] found[q2].0, found[q2].1),
                forall|q: int| 0 <= q < sets@.len() ==> !(#[trigger] sets_of(sets@)[q]).is_empty(),
                n == nfa.state_count,
                nfa.wf(),
                rows == nfa.rows(),
                from_id == head,
                head < sets@.len(),
                sets@.len() >= len0,
                sets@[from_id as int]@ == from_set,
                sets@.len() == trans@.len(),
                sets@[0]@ == start_set@,
                ai <= alphabet.len(),
                forall|q: int| 0 <= q < sets@.len() ==> (#[trigger] sets@[q])@.len() == n,
                flags_of(sets@).no_duplicates(),
                forall|q: int| 0 <= q < trans@.len() ==> sorted_row(#[trigger] trans@[q]@),
                forall|q: int, k: int| 0 <= q < trans@.len() && 0 <= k < trans@[q]@.len()
                    ==> (#[trigger] trans@[q]@[k]).1 < trans@.len() && alphabet@.contains(trans@[q]@[k].0),
                forall|q: int| 0 <= q < head ==> #[trigger] subset_row_partial(rows, table_of(trans@), sets_of(sets@), alphabet@, q),
                subset_row_partial(rows, table_of(trans@), sets_of(sets@), alphabet@.take(ai as int), from_id as int),
                forall|q: int| head < q < trans@.len() ==> (#[trigger] trans@[q])@.len() == 0,
                forall|x: usize| acc@.contains(x) <==> (x < sets@.len() && sets_of(sets@)[x as int].contains(nfa.accept)),
            decreases alphabet.len() - ai,
        {
            let c = alphabet[ai];
            let mv = nfa.move_bits(&sets[from_id], c);
            let target = nfa.closure_bits(mv);
            let ghost t_set = crate::stateset::bits_set(target@);
            proof {
                assert(sets_of(sets@)[from_id as int] == crate::stateset::bits_set(from_set));
                assert(t_set == crate::nfa::eps_closure(rows, crate::nfa::step_set(rows, sets_of(sets@)[from_id as int], c)));
            }
            if any_marked(&target) {
                let ghost old_sets = sets@;
                let ghost old_trans = trans@;
                let ghost found0 = found;
                let ghost tb_old = table_of(trans@);
                proof {
                    // A symbol met before in this row already leads to the state of the target.
                    assert forall|j: int| 0 <= j < ai && #[trigger] alphabet@[j] == c implies
                        lookup(tb_old[from_id as int], c) matches Some(k) && k < old_sets.len() && old_sets[k as int]@ == target@ by {
                        assert(alphabet@.take(ai as int)[j] == c);
                        lemma_partial_hit(rows, tb_old, sets_of(old_sets), alphabet@.take(ai as int), from_id as int, c);
                        let k = lookup(tb_old[from_id as int], c)->0;
                        assert(sets_of(old_sets)[k as int] == t_set);
                        assert(old_sets[k as int]@.len() == n);
                        lemma_flags_determined(old_sets[k as int]@, target@);
                    }
                }
                let to_id = match find_set(&sets, &target) {
                    Some(id) => id,
                    None => {
                        let id = trans.len();
                        if flag_at(&target, nfa.accept) {
                            acc.insert(id);
                        }
                        proof {
                            lemma_push_distinct(flags_of(sets@), target@);
                            assert(flags_of(sets@.push(target)) =~= flags_of(sets@).push(target@));
                            crate::stateset::lemma_distinct_flags(flags_of(sets@.push(target)), n as nat);
                        }
                        sets.push(target);
                        trans.push(Vec::new());
                        id
                    },
                };
                let ghost mid_trans = trans@;
                let ghost mid_sets = sets@;
                proof {
                    assert forall|q: int| 0 <= q < old_sets.len() implies #[trigger] sets_of(mid_sets)[q] == sets_of(old_sets)[q] by {
                        assert(mid_sets[q] == old_sets[q]);
                    }
                    assert(sets_of(mid_sets)[to_id as int] == t_set);
                }
                row_insert(&mut trans[from_id], c, to_id);
                let count_now = sets.len();
                proof {
                    let ss0 = sets_of(old_sets);
                    let ss = sets_of(sets@);
                    let tb0 = table_of(old_trans);
                    let tb = table_of(trans@);
                    assert forall|q: int| 0 <= q < trans@.len() && q != from_id implies #[trigger] trans@[q] == mid_trans[q] by {}
                    assert forall|q: int| 0 <= q < old_trans.len() && q != from_id implies #[trigger] tb[q] == tb0[q] by {
                        assert(trans@[q] == mid_trans[q]);
                        assert(mid_trans[q] == old_trans[q]);
                    }
                    assert(tb[from_id as int] == trans@[from_id as int]@);
                    assert(mid_trans[from_id as int] == old_trans[from_id as int]);
                    assert forall|q: int| 0 <= q < head implies #[trigger] subset_row_partial(rows, tb, ss, alphabet@, q) by {
                        assert(subset_row_partial(rows, tb0, ss0, alphabet@, q));
                        assert(tb[q] == tb0[q]);
                        assert(ss[q] == ss0[q]);
                        assert forall|d: char| #[trigger] lookup(tb[q], d) == lookup(tb0[q], d) by {}
                    }
                    let tk = alphabet@.take(ai as int);
                    let tk1 = alphabet@.take(ai + 1);
                    assert(subset_row_partial(rows, tb0, ss0, tk, from_id as int));
                    assert(ss[from_id as int] == ss0[from_id as int]);
                    assert forall|d: char| tk1.contains(d) <==> (tk.contains(d) || d == c) by {
                        if tk1.contains(d) {
                            let i = choose|i: int| 0 <= i < tk1.len() && tk1[i] == d;
                            if i < ai {
                                assert(tk[i] == d);
                            }
                        }
                        if tk.contains(d) {
                            let i = choose|i: int| 0 <= i < tk.len() && tk[i] == d;
                            assert(tk1[i] == d);
                        }
                        if d == c {
                            assert(tk1[ai as int] == d);
                        }
                    }
                    assert forall|d: char| #[trigger] lookup(tb[from_id as int], d) == if d == c { Some(to_id) } else { lookup(tb0[from_id as int], d) } by {}
                    assert(subset_row_partial(rows, tb, ss, tk1, from_id as int)) by {
                        assert forall|d: char| {
                            &&& tk1.contains(d) ==> ({
                                let t = crate::nfa::eps_closure(rows, crate::nfa::step_set(rows, ss[from_id as int], d));
                                if t.is_empty() {
                                    #[trigger] lookup(tb[from_id as int], d) is None
                                } else {
                                    lookup(tb[from_id as int], d) matches Some(j) && j < ss.len() && ss[j as int] == t
                                }
                            })
                            &&& !tk1.contains(d) ==> lookup(tb[from_id as int], d) is None
                        } by {
                            if d != c {
                                assert(lookup(tb[from_id as int], d) == lookup(tb0[from_id as int], d));
                                if tk.contains(d) {
                                    let t = crate::nfa::eps_closure(rows, crate::nfa::step_set(rows, ss0[from_id as int], d));
                                    if !t.is_empty() {
                                        let j = lookup(tb0[from_id as int], d)->0;
                                        assert(ss[j as int] == ss0[j as int]);
                                    }
                                }
                            } else {
                                assert(!t_set.is_empty());
                            }
                        }
                    }
                    assert forall|q: int| head < q < trans@.len() implies (#[trigger] trans@[q])@.len() == 0 by {
                        if q < old_trans.len() {
                            assert(trans@[q] == old_trans[q]);
                        } else {
                            assert(trans@[q] == mid_trans[q]);
                        }
                    }
                    assert forall|q: int, k: int| 0 <= q < trans@.len() && 0 <= k < trans@[q]@.len()
                        implies (#[trigger] trans@[q]@[k]).1 < trans@.len() && alphabet@.contains(trans@[q]@[k].0) by {
                        if q == from_id {
                            if trans@[q]@[k].0 != c {
                                let j = choose|j: int| 0 <= j < mid_trans[q]@.len() && #[trigger] mid_trans[q]@[j] == trans@[q]@[k];
                                assert(mid_trans[q]@[j] == old_trans[q]@[j]);
                            } else {
                                lemma_lookup(trans@[q]@, c);
                                assert(alphabet@[ai as int] == c);
                            }
                        } else if q < old_trans.len() {
                            assert(trans@[q] == old_trans[q]);
                        } else {
                            assert(trans@[q] == mid_trans[q]);
                        }
                    }
                    assert forall|q: int| 0 <= q < trans@.len() implies sorted_row(#[trigger] trans@[q]@) by {
                        if q != from_id {
                            if q < old_trans.len() {
                                assert(trans@[q] == old_trans[q]);
                            } else {
                                assert(trans@[q] == mid_trans[q]);
                            }
                        }
                    }
                    assert forall|x: usize| acc@.contains(x) <==> (x < sets@.len() && ss[x as int].contains(nfa.accept)) by {
                        if x < old_sets.len() {
                            assert(ss[x as int] == ss0[x as int]);
                        }
                    }
                    // Where the states are first met.
                    let fresh = sets@.len() > old_sets.len();
                    let tbm = table_of(mid_trans);
                    if fresh {
                        assert(tbm =~= tb_old.push(Seq::<(char, usize)>::empty()));
                        lemma_leads_push_empty(tb_old, alphabet@);
                    } else {
                        assert(tbm =~= tb_old);
                    }
                    assert(tbm[from_id as int] == tb_old[from_id as int]);
                    assert(lookup(tbm[from_id as int], c) is None || lookup(tbm[from_id as int], c) == Some(to_id)) by {
                        if lookup(tb_old[from_id as int], c) is Some {
                            assert(alphabet@.take(ai as int).contains(c)) by {
                                if !alphabet@.take(ai as int).contains(c) {
                                    assert(subset_row_partial(rows, tb0, ss0, tk, from_id as int));
                                }
                            }
                            let j = choose|j: int| 0 <= j < ai && alphabet@.take(ai as int)[j] == c;
                            assert(alphabet@[j] == c);
                            let k = lookup(tb_old[from_id as int], c)->0;
                            if !fresh {
                                assert(flags_of(old_sets)[k as int] == flags_of(old_sets)[to_id as int]);
                            }
                        }
                    }
                    lemma_insert_leads(tbm, tb, alphabet@, from_id as int, c, to_id);
                    if fresh {
                        assert forall|p: int, i: int| !#[trigger] leads_to(tbm, alphabet@, p, i, to_id as int) by {
                            if leads_to(tbm, alphabet@, p, i, to_id as int) {
                                assert(leads_to(tb_old, alphabet@, p, i, to_id as int));
                                lemma_lookup(old_trans[p]@, alphabet@[i]);
                                let k = choose|k: int| 0 <= k < old_trans[p]@.len() && old_trans[p]@[k] == (alphabet@[i], to_id);
                                assert(old_trans[p]@[k].1 < old_trans.len());
                            }
                        }
                        assert forall|i: int| 0 <= i < ai implies #[trigger] alphabet@[i] != c by {
                            if alphabet@[i] == c {
                                let k = lookup(tb_old[from_id as int], c)->0;
                                assert(old_sets[k as int]@ == target@);
                            }
                        }
                    } else {
                        assert forall|i: int| 0 <= i < ai && #[trigger] alphabet@[i] == c implies leads_to(tbm, alphabet@, from_id as int, i, to_id as int) by {
                            let k = lookup(tb_old[from_id as int], c)->0;
                            assert(old_sets[k as int]@ == target@);
                            assert(flags_of(old_sets)[k as int] == flags_of(old_sets)[to_id as int]);
                        }
                    }
                    assert(alphabet@[ai as int] == c);
                    found = if fresh { found0.push((from_id as int, ai as int)) } else { found0 };
                    assert(count_now == sets@.len());
                    lemma_found_step(tbm, tb, alphabet@, found0, found, sets@.len() as int, from_id as int, ai as int, c, to_id as int, fresh);
                    assert forall|q: int| 0 <= q < sets@.len() implies !(#[trigger] sets_of(sets@)[q]).is_empty() by {
                        if q < old_sets.len() {
                            assert(sets_of(sets@)[q] == sets_of(old_sets)[q]);
                        }
                    }
                }
            } else {
                proof {
                    let tk = alphabet@.take(ai as int);
                    let tk1 = alphabet@.take(ai + 1);
                    let ss = sets_of(sets@);
                    let tb = table_of(trans@);
                    assert(t_set.is_empty());
                    assert forall|d: char| tk1.contains(d) <==> (tk.contains(d) || d == c) by {
                        if tk1.contains(d) {
                            let i = choose|i: int| 0 <= i < tk1.len() && tk1[i] == d;
                            if i < ai {
                                assert(tk[i] == d);
                            }
                        }
                        if tk.contains(d) {
                            let i = choose|i: int| 0 <= i < tk.len() && tk[i] == d;
                            assert(tk1[i] == d);
                        }
                        if d == c {
                            assert(tk1[ai as int] == d);
                        }
                    }
                    assert(subset_row_partial(rows, tb, ss, tk1, from_id as int)) by {
                        assert(subset_row_partial(rows, tb, ss, tk, from_id as int));
                    }
                }
            }
            ai = ai + 1;
        }
        proof {
            assert(alphabet@.take(alphabet.len() as int) =~= alphabet@);
            crate::stateset::lemma_distinct_flags(flags_of(sets@), n as nat);
        }
        head = head + 1;
    }
    proof {
        lemma_numbered_in_order(table_of(trans@), alphabet@, found, sets@.len() as int);
        let ss = sets_of(sets@);
        assert forall|i: int, j: int| 0 <= i < ss.len() && 0 <= j < ss.len() && i != j implies ss[i] != ss[j] by {
            if ss[i] == ss[j] {
                lemma_flags_determined(sets@[i]@, sets@[j]@);
                assert(flags_of(sets@)[i] == flags_of(sets@)[j]);
            }
        }
    }
    (sets, trans, acc)
}

/// Every character of `w` is a symbol of `a`.
pub open spec fn word_over(w: Seq<char>, a: Seq<char>) -> bool {
    forall|i: int| 0 <= i < w.len() ==> a.contains(#[trigger] w[i])
}

/// A row with strictly increasing symbols, all of them from `a`, and at least as many
/// entries as `a` has, has an entry for every symbol of `a`.
proof fn lemma_full_row(r: Seq<(char, usize)>, a: Seq<char>)
    requires
        sorted_row(r),
        forall|k: int| 0 <= k < r.len() ==> a.contains(#[trigger] r[k].0),
        r.len() >= a.len(),
    ensures
        forall|c: char| a.contains(c) ==> #[trigger] lookup(r, c) is Some,
{
    let keys = r.map_values(|p: (char, usize)| p.0);
    assert(keys.no_duplicates()) by {
        assert forall|i: int, j: int| 0 <= i < keys.len() && 0 <= j < keys.len() && i != j implies keys[i] != keys[j] by {
            if i < j {
                assert(r[i].0 < r[j].0);
            } else {
                assert(r[j].0 < r[i].0);
            }
        }
    }
    keys.unique_seq_to_set();
    a.lemma_cardinality_of_set();
    let ka = keys.to_set();
    let aa = a.to_set();
    assert(ka.subset_of(aa)) by {
        assert forall|c: char| ka.contains(c) implies aa.contains(c) by {
            let i = choose|i: int| 0 <= i < keys.len() && keys[i] == c;
            assert(a.contains(r[i].0));
        }
    }
    assert forall|c: char| a.contains(c) implies #[trigger] lookup(r, c) is Some by {
        lemma_lookup(r, c);
        if !ka.contains(c) {
            assert(aa.contains(c));
            assert(ka.subset_of(aa.remove(c)));
            vstd::set_lib::lemma_len_subset(ka, aa.remove(c));
            assert(false);
        }
        let i = choose|i: int| 0 <= i < keys.len() && keys[i] == c;
        assert(r[i].0 == c);
    }
}

fn has_short_row(trans: &Vec<Row>, len: usize) -> (b: bool)
    ensures
        b == exists|q: int| 0 <= q < trans@.len() && (#[trigger] trans@[q])@.len() < len,
{
    let mut q: usize = 0;
    while q < trans.len()
        invariant
            q <= trans.len(),
            forall|p: int| 0 <= p < q ==> (#[trigger] trans@[p])@.len() >= len,
        decreases trans.len() - q,
    {
        if trans[q].len() < len {
            return true;
        }
        q = q + 1;
    }
    false
}

/// Adds a state that every missing transition on a symbol of `alphabet` leads to, and
/// that leads to itself on every symbol.
fn add_sink(trans: &mut Vec<Row>, alphabet: &[char])
    requires
        forall|q: int| 0 <= q < old(trans)@.len() ==> sorted_row(#[trigger] old(trans)@[q]@),
    ensures
        final(trans)@.len() == old(trans)@.len() + 1,
        forall|q: int| 0 <= q < final(trans)@.len() ==> sorted_row(#[trigger] final(trans)@[q]@),
        forall|q: int, c: char| 0 <= q < old(trans)@.len() ==> #[trigger] lookup(final(trans)@[q]@, c) == if alphabet@.contains(c) {
            match lookup(old(trans)@[q]@, c) {
                Some(j) => Some(j),
                None => Some(old(trans)@.len() as usize),
            }
        } else {
            lookup(old(trans)@[q]@, c)
        },
        forall|c: char| #[trigger] lookup(final(trans)@[old(trans)@.len() as int]@, c) == if alphabet@.contains(c) {
            Some(old(trans)@.len() as usize)
        } else {
            None
        },
        forall|q: int, k: int| 0 <= q < final(trans)@.len() && 0 <= k < final(trans)@[q]@.len() ==> ({
            let e = #[trigger] final(trans)@[q]@[k];
            &&& (alphabet@.contains(e.0) || (q < old(trans)@.len() && exists|j: int| 0 <= j < old(trans)@[q]@.len() && old(trans)@[q]@[j] == e))
            &&& (e.1 == old(trans)@.len() || (q < old(trans)@.len() && exists|j: int| 0 <= j < old(trans)@[q]@.len() && old(trans)@[q]@[j] == e))
        }),
{
    let sink = trans.len();
    let ghost o = trans@;
    trans.push(Vec::new());
    let mut ai: usize = 0;
    while ai < alphabet.len()
        invariant
            sink == o.len(),
            trans@.len() == o.len() + 1,
            forall|q: int| 0 <= q < o.len() ==> #[trigger] trans@[q] == o[q],
            ai <= alphabet.len(),
            sorted_row(trans@[sink as int]@),
            forall|c: char| #[trigger] lookup(trans@[sink as int]@, c) == if alphabet@.take(ai as int).contains(c) {
                Some(sink)
            } else {
                None
            },
            forall|k: int| 0 <= k < trans@[sink as int]@.len() ==> (#[trigger] trans@[sink as int]@[k]).1 == sink
                && alphabet@.contains(trans@[sink as int]@[k].0),
        decreases alphabet.len() - ai,
    {
        let c = alphabet[ai];
        let ghost before = trans@[sink as int]@;
        row_insert(&mut trans[sink], c, sink);
        proof {
            let tk = alphabet@.take(ai as int);
            let tk1 = alphabet@.take(ai + 1);
            assert forall|d: char| tk1.contains(d) <==> (tk.contains(d) || d == c) by {
                if tk1.contains(d) {
                    let i = choose|i: int| 0 <= i < tk1.len() && tk1[i] == d;
                    if i < ai {
                        assert(tk[i] == d);
                    }
                }
                if tk.contains(d) {
                    let i = choose|i: int| 0 <= i < tk.len() && tk[i] == d;
                    assert(tk1[i] == d);
                }
                if d == c {
                    assert(tk1[ai as int] == d);
                }
            }
            assert forall|k: int| 0 <= k < trans@[sink as int]@.len() implies (#[trigger] trans@[sink as int]@[k]).1 == sink
                && alphabet@.contains(trans@[sink as int]@[k].0) by {
                let e = trans@[sink as int]@[k];
                if e.0 != c {
                    let j = choose|j: int| 0 <= j < before.len() && #[trigger] before[j] == e;
                } else {
                    lemma_lookup(trans@[sink as int]@, c);
                    assert(alphabet@[ai as int] == c);
                }
            }
        }
        ai = ai + 1;
    }
    proof {
        assert(alphabet@.take(alphabet.len() as int) =~= alphabet@);
    }
    let ghost mid = trans@;
    let mut q: usize = 0;
    while q < trans.len()
        invariant
            sink == o.len(),
            trans@.len() == o.len() + 1,
            q <= trans@.len(),
            forall|p: int| q <= p < trans@.len() ==> #[trigger] trans@[p] == mid[p],
            forall|p: int| 0 <= p < o.len() ==> #[trigger] mid[p] == o[p],
            forall|p: int| 0 <= p < trans@.len() ==> sorted_row(#[trigger] trans@[p]@),
            forall|c: char| #[trigger] lookup(mid[sink as int]@, c) == if alphabet@.contains(c) { Some(sink) } else { None },
            forall|k: int| 0 <= k < mid[sink as int]@.len() ==> (#[trigger] mid[sink as int]@[k]).1 == sink
                && alphabet@.contains(mid[sink as int]@[k].0),
            forall|p: int, c: char| 0 <= p < q ==> #[trigger] lookup(trans@[p]@, c) == if alphabet@.contains(c) {
                match lookup(mid[p]@, c) {
                    Some(j) => Some(j),
                    None => Some(sink),
                }
            } else {
                lookup(mid[p]@, c)
            },
            forall|p: int, k: int| 0 <= p < q && 0 <= k < trans@[p]@.len() ==> ({
                let e = #[trigger] trans@[p]@[k];
                &&& (alphabet@.contains(e.0) || exists|j: int| 0 <= j < mid[p]@.len() && mid[p]@[j] == e)
                &&& (e.1 == sink || exists|j: int| 0 <= j < mid[p]@.len() && mid[p]@[j] == e)
            }),
        decreases trans@.len() - q,
    {
        let mut ai: usize = 0;
        while ai < alphabet.len()
            invariant
                sink == o.len(),
                trans@.len() == o.len() + 1,
                q < trans@.len(),
                ai <= alphabet.len(),
                forall|p: int| q < p < trans@.len() ==> #[trigger] trans@[p] == mid[p],
                forall|p: int| 0 <= p < trans@.len() ==> sorted_row(#[trigger] trans@[p]@),
                forall|p: int, c: char| 0 <= p < q ==> #[trigger] lookup(trans@[p]@, c) == if alphabet@.contains(c) {
                    match lookup(mid[p]@, c) {
                        Some(j) => Some(j),
                        None => Some(sink),
                    }
                } else {
                    lookup(mid[p]@, c)
                },
                forall|p: int, k: int| 0 <= p < q && 0 <= k < trans@[p]@.len() ==> ({
                    let e = #[trigger] trans@[p]@[k];
                    &&& (alphabet@.contains(e.0) || exists|j: int| 0 <= j < mid[p]@.len() && mid[p]@[j] == e)
                    &&& (e.1 == sink || exists|j: int| 0 <= j < mid[p]@.len() && mid[p]@[j] == e)
                }),
                forall|c: char| #[trigger] lookup(trans@[q as int]@, c) == if alphabet@.take(ai as int).contains(c) {
                    match lookup(mid[q as int]@, c) {
                        Some(j) => Some(j),
                        None => Some(sink),
                    }
                } else {
                    lookup(mid[q as int]@, c)
                },
                forall|k: int| 0 <= k < trans@[q as int]@.len() ==> ({
                    let e = #[trigger] trans@[q as int]@[k];
                    &&& (alphabet@.contains(e.0) || exists|j: int| 0 <= j < mid[q as int]@.len() && mid[q as int]@[j] == e)
                    &&& (e.1 == sink || exists|j: int| 0 <= j < mid[q as int]@.len() && mid[q as int]@[j] == e)
                }),
            decreases alphabet.len() - ai,
        {
            let c = alphabet[ai];
            let ghost before = trans@[q as int]@;
            let ghost before_all = trans@;
            proof {
                let tk = alphabet@.take(ai as int);
                let tk1 = alphabet@.take(ai + 1);
                assert forall|d: char| tk1.contains(d) <==> (tk.contains(d) || d == c) by {
                    if tk1.contains(d) {
                        let i = choose|i: int| 0 <= i < tk1.len() && tk1[i] == d;
                        if i < ai {
                            assert(tk[i] == d);
                        }
                    }
                    if tk.contains(d) {
                        let i = choose|i: int| 0 <= i < tk.len() && tk[i] == d;
                        assert(tk1[i] == d);
                    }
                    if d == c {
                        assert(tk1[ai as int] == d);
                    }
                }
            }
            if row_get(&trans[q], c).is_none() {
                row_insert(&mut trans[q], c, sink);
                proof {
                    assert forall|p: int| 0 <= p < trans@.len() && p != q implies #[trigger] trans@[p] == before_all[p] by {}
                    assert forall|k: int| 0 <= k < trans@[q as int]@.len() implies ({
                        let e = #[trigger] trans@[q as int]@[k];
                        &&& (alphabet@.contains(e.0) || exists|j: int| 0 <= j < mid[q as int]@.len() && mid[q as int]@[j] == e)
                        &&& (e.1 == sink || exists|j: int| 0 <= j < mid[q as int]@.len() && mid[q as int]@[j] == e)
                    }) by {
                        let e = trans@[q as int]@[k];
                        if e.0 != c {
                            let j = choose|j: int| 0 <= j < before.len() && #[trigger] before[j] == e;
                        } else {
                            lemma_lookup(trans@[q as int]@, c);
                            assert(alphabet@[ai as int] == c);
                        }
                    }
                }
            } else {
                proof {
                    assert(lookup(before, c) is Some);
                }
            }
            ai = ai + 1;
        }
        proof {
            assert(alphabet@.take(alphabet.len() as int) =~= alphabet@);
        }
        q = q + 1;
    }
    proof {
        assert forall|q: int, c: char| 0 <= q < o.len() implies #[trigger] lookup(trans@[q]@, c) == if alphabet@.contains(c) {
            match lookup(o[q]@, c) {
                Some(j) => Some(j),
                None => Some(o.len() as usize),
            }
        } else {
            lookup(o[q]@, c)
        } by {
            assert(mid[q] == o[q]);
        }
        assert forall|c: char| #[trigger] lookup(trans@[o.len() as int]@, c) == if alphabet@.contains(c) {
            Some(o.len() as usize)
        } else {
            None
        } by {
            assert(lookup(trans@[sink as int]@, c) == if alphabet@.contains(c) {
                match lookup(mid[sink as int]@, c) {
                    Some(j) => Some(j),
                    None => Some(sink),
                }
            } else {
                lookup(mid[sink as int]@, c)
            });
        }
        assert forall|q: int, k: int| 0 <= q < trans@.len() && 0 <= k < trans@[q]@.len() implies ({
            let e = #[trigger] trans@[q]@[k];
            &&& (alphabet@.contains(e.0) || (q < o.len() && exists|j: int| 0 <= j < o[q]@.len() && o[q]@[j] == e))
            &&& (e.1 == o.len() || (q < o.len() && exists|j: int| 0 <= j < o[q]@.len() && o[q]@[j] == e))
        }) by {
            let e = trans@[q]@[k];
            if q < o.len() {
                assert(mid[q] == o[q]);
            } else {
                if !alphabet@.contains(e.0) || e.1 != o.len() {
                    let j = choose|j: int| 0 <= j < mid[q]@.len() && mid[q]@[j] == e;
                    assert(alphabet@.contains(mid[sink as int]@[j].0));
                }
            }
        }
    }
}

/// The states of block `x`.
pub open spec fn blockset(sb: Seq<usize>, x: usize) -> Set<usize> {
    Set::new(|s: usize| s < sb.len() && sb[s as int] == x)
}

/// The transition of state `s` on `c` leads into `set`.
pub open spec fn goes_into(table: Seq<Seq<(char, usize)>>, s: usize, c: char, set: Set<usize>) -> bool {
    lookup(table[s as int], c) matches Some(t) && set.contains(t)
}

/// The partition `sb` does not separate, on `c`, states of one block by whether they
/// lead into `set`.
pub open spec fn compat(table: Seq<Seq<(char, usize)>>, sb: Seq<usize>, set: Set<usize>, c: char) -> bool {
    forall|s: usize, t: usize| #![trigger sb[s as int], sb[t as int]]
        s < sb.len() && t < sb.len() && sb[s as int] == sb[t as int]
        ==> (goes_into(table, s, c, set) <==> goes_into(table, t, c, set))
}

/// The pair `(x, c)` is in the queue at or after position `from`.
pub open spec fn queued(q: Seq<(usize, char)>, from: int, x: usize, c: char) -> bool {
    exists|k: int| from <= k < q.len() && q[k] == (x, c)
}

/// Some of the first `b` entries of `v` is `z`.
pub open spec fn id_used(v: Seq<usize>, b: int, z: usize) -> bool {
    exists|x: int| 0 <= x < b && v[x] == z
}

/// The partition `a` is finer than `b`: states together in `a` are together in `b`.
pub open spec fn refines(a: Seq<usize>, b: Seq<usize>) -> bool {
    &&& a.len() == b.len()
    &&& forall|s: int, t: int| #![trigger a[s], a[t]] 0 <= s < a.len() && 0 <= t < a.len() && a[s] == a[t] ==> b[s] == b[t]
}

/// Some state is in block `b`.
pub open spec fn nonempty_block(sb: Seq<usize>, b: usize) -> bool {
    exists|s: int| 0 <= s < sb.len() && sb[s] == b
}

/// Every state is in one of the blocks `0..nb`, and no block is empty.
pub open spec fn blocks_ok(sb: Seq<usize>, nb: usize) -> bool {
    &&& forall|s: int| 0 <= s < sb.len() ==> #[trigger] sb[s] < nb
    &&& forall|b: usize| b < nb ==> #[trigger] nonempty_block(sb, b)
}

/// There are no more blocks than states.
proof fn lemma_blocks_bound(sb: Seq<usize>, nb: usize)
    requires
        blocks_ok(sb, nb),
    ensures
        nb <= sb.len(),
{
    let dom = vstd::set_lib::set_int_range(0, sb.len() as int);
    let f = |i: int| sb[i] as int;
    vstd::set_lib::lemma_int_range(0, sb.len() as int);
    vstd::set_lib::lemma_int_range(0, nb as int);
    let img = dom.map(f);
    vstd::set_lib::lemma_map_size_bound(dom, img, f);
    let r = vstd::set_lib::set_int_range(0, nb as int);
    assert(r.subset_of(img)) by {
        assert forall|b: int| r.contains(b) implies img.contains(b) by {
            assert(nonempty_block(sb, b as usize));
            let s = choose|s: int| 0 <= s < sb.len() && sb[s] == b as usize;
            assert(dom.contains(s));
            assert(f(s) == b);
        }
    }
    vstd::set_lib::lemma_len_subset(r, img);
}

/// The number of states below `s` of block `x` whose transition on `c` leads into `set`
/// (where `inside`) or does not (where not).
pub open spec fn part_count(table: Seq<Seq<(char, usize)>>, sb: Seq<usize>, x: usize, c: char, set: Set<usize>, inside: bool, s: int) -> nat
    decreases s,
{
    if s <= 0 {
        0
    } else {
        part_count(table, sb, x, c, set, inside, s - 1)
            + if sb[s - 1] == x && goes_into(table, (s - 1) as usize, c, set) == inside { 1nat } else { 0nat }
    }
}

/// Block `x` has states on both sides of the split by whether they lead on `c` into `set`.
pub open spec fn splits(table: Seq<Seq<(char, usize)>>, sb: Seq<usize>, x: usize, c: char, set: Set<usize>) -> bool {
    part_count(table, sb, x, c, set, true, sb.len() as int) > 0 && part_count(table, sb, x, c, set, false, sb.len() as int) > 0
}

/// Of a block that splits, the part that leaves for a new block: the states that lead
/// into `set` where they are no more than the others, the others otherwise.
pub open spec fn moves_inside(table: Seq<Seq<(char, usize)>>, sb: Seq<usize>, x: usize, c: char, set: Set<usize>) -> bool {
    part_count(table, sb, x, c, set, true, sb.len() as int) <= part_count(table, sb, x, c, set, false, sb.len() as int)
}

/// How many of the blocks below `x` split.
pub open spec fn splits_below(table: Seq<Seq<(char, usize)>>, sb: Seq<usize>, c: char, set: Set<usize>, x: int) -> nat
    decreases x,
{
    if x <= 0 {
        0
    } else {
        splits_below(table, sb, c, set, x - 1) + if splits(table, sb, (x - 1) as usize, c, set) { 1nat } else { 0nat }
    }
}

/// The partition after splitting every block of `sb` by whether its states lead on `c`
/// into `set`: the leaving part of the `k`-th block that splits becomes block `nb + k`.
pub open spec fn refined(table: Seq<Seq<(char, usize)>>, sb: Seq<usize>, nb: nat, c: char, set: Set<usize>) -> Seq<usize> {
    Seq::new(sb.len(), |p: int| {
        let x = sb[p];
        if splits(table, sb, x, c, set) && goes_into(table, p as usize, c, set) == moves_inside(table, sb, x, c, set) {
            (nb + splits_below(table, sb, c, set, x as int)) as usize
        } else {
            x
        }
    })
}

/// The pairs that splitting the blocks below `x` queues: each new block with every
/// symbol of `a`, in order.
pub open spec fn new_pairs(table: Seq<Seq<(char, usize)>>, sb: Seq<usize>, nb: nat, c: char, set: Set<usize>, a: Seq<char>, x: int) -> Seq<(usize, char)>
    decreases x,
{
    if x <= 0 {
        Seq::empty()
    } else {
        new_pairs(table, sb, nb, c, set, a, x - 1) + if splits(table, sb, (x - 1) as usize, c, set) {
            Seq::new(a.len(), |k: int| ((nb + splits_below(table, sb, c, set, x - 1)) as usize, a[k]))
        } else {
            Seq::empty()
        }
    }
}

/// Hopcroft's refinement on an automaton with `n` states, from the partition `sb` into
/// `nb` blocks, with the pairs of `queue` from position `head` on still to process: each
/// pair `(x, c)` in turn splits the blocks by whether they lead on `c` into block `x`.
pub open spec fn refinement(table: Seq<Seq<(char, usize)>>, a: Seq<char>, sb: Seq<usize>, nb: nat, queue: Seq<(usize, char)>, head: int, n: nat) -> (Seq<usize>, nat)
    decreases n - nb, queue.len() - head,
{
    if nb > n || head < 0 || head >= queue.len() {
        (sb, nb)
    } else {
        let (x0, c0) = queue[head];
        if x0 < nb {
            let set = blockset(sb, x0);
            let nb2 = nb + splits_below(table, sb, c0, set, nb as int);
            let sb2 = refined(table, sb, nb, c0, set);
            if nb2 == nb {
                refinement(table, a, sb2, nb, queue, head + 1, n)
            } else if nb2 <= n {
                refinement(table, a, sb2, nb2, queue + new_pairs(table, sb, nb, c0, set, a, nb as int), head + 1, n)
            } else {
                (sb, nb)
            }
        } else {
            refinement(table, a, sb, nb, queue, head + 1, n)
        }
    }
}

/// The first partition: the rejecting states in block 0, the accepting ones in the next
/// block (block 0 where all states accept); and the number of blocks.
pub open spec fn initial_partition(d: DFA) -> (Seq<usize>, nat) {
    let n = d.state_count as int;
    let has_non = exists|s: usize| s < n && !d.accept_states@.contains(s);
    let has_acc = exists|s: usize| s < n && d.accept_states@.contains(s);
    let acc_block: usize = if has_non { 1 } else { 0 };
    (Seq::new(d.state_count as nat, |s: int| if d.accept_states@.contains(s as usize) { acc_block } else { 0 }),
        if has_non && has_acc { 2nat } else { 1nat })
}

/// The first queue: every block below `b` with every symbol of `a`, block by block.
pub open spec fn initial_queue(a: Seq<char>, b: int) -> Seq<(usize, char)>
    decreases b,
{
    if b <= 0 {
        Seq::empty()
    } else {
        initial_queue(a, b - 1) + Seq::new(a.len(), |k: int| ((b - 1) as usize, a[k]))
    }
}

/// The blocks of states that Hopcroft's refinement ends with, and their number.
pub open spec fn hopcroft_partition(d: DFA) -> (Seq<usize>, nat) {
    let (sb, nb) = initial_partition(d);
    refinement(d.table(), d.alphabet@, sb, nb, initial_queue(d.alphabet@, nb as int), 0, d.state_count as nat)
}

/// One step of Hopcroft's refinement: every block is split by whether its states lead
/// on `c0` into block `x0`; where both parts are nonempty, the smaller one (the part that
/// leads in, on a tie) becomes a new block, and its pairs with every symbol are queued.
fn refine(
    table_rows: &Vec<Row>,
    alphabet: &Vec<char>,
    sb: &mut Vec<usize>,
    nb: usize,
    queue: &mut Vec<(usize, char)>,
    x0: usize,
    c0: char,
) -> (nb2: usize)
    requires
        blocks_ok(old(sb)@, nb),
        old(sb)@.len() == table_rows@.len(),
        forall|s: int| 0 <= s < table_rows@.len() ==> sorted_row(#[trigger] table_rows@[s]@),
        forall|s: int, k: int| 0 <= s < table_rows@.len() && 0 <= k < table_rows@[s]@.len()
            ==> (#[trigger] table_rows@[s]@[k]).1 < table_rows@.len(),
    ensures
        nb2 >= nb,
        blocks_ok(final(sb)@, nb2),
        refines(final(sb)@, old(sb)@),
        forall|s: int| 0 <= s < final(sb)@.len() && #[trigger] final(sb)@[s] != old(sb)@[s] ==> final(sb)@[s] >= nb,
        compat(table_of(table_rows@), final(sb)@, blockset(old(sb)@, x0), c0),
        forall|p: int, q: int| #![trigger final(sb)@[p], final(sb)@[q]]
            0 <= p < old(sb)@.len() && 0 <= q < old(sb)@.len() && old(sb)@[p] == old(sb)@[q]
            && (goes_into(table_of(table_rows@), p as usize, c0, blockset(old(sb)@, x0))
                <==> goes_into(table_of(table_rows@), q as usize, c0, blockset(old(sb)@, x0)))
            ==> final(sb)@[p] == final(sb)@[q],
        final(queue)@.len() >= old(queue)@.len(),
        forall|k: int| 0 <= k < old(queue)@.len() ==> #[trigger] final(queue)@[k] == old(queue)@[k],
        forall|x: usize, c: char| nb <= x < nb2 && alphabet@.contains(c) ==> #[trigger] queued(final(queue)@, old(queue)@.len() as int, x, c),
        nb2 == nb ==> final(queue)@ == old(queue)@,
        forall|k: int| old(queue)@.len() <= k < final(queue)@.len() ==> #[trigger] final(queue)@[k].0 < nb2,
        final(sb)@ == refined(table_of(table_rows@), old(sb)@, nb as nat, c0, blockset(old(sb)@, x0)),
        nb2 == nb + splits_below(table_of(table_rows@), old(sb)@, c0, blockset(old(sb)@, x0), nb as int),
        final(queue)@ == old(queue)@ + new_pairs(table_of(table_rows@), old(sb)@, nb as nat, c0, blockset(old(sb)@, x0), alphabet@, nb as int),
{
    let n = sb.len();
    let ghost sb0 = sb@;
    let ghost table = table_of(table_rows@);
    let ghost snap = blockset(sb0, x0);
    // Which states lead on c0 into the splitter block.
    let mut into: Vec<bool> = Vec::new();
    let mut s: usize = 0;
    while s < n
        invariant
            n == sb@.len(),
            sb@ == sb0,
            n == table_rows@.len(),
            table == table_of(table_rows@),
            snap == blockset(sb0, x0),
            s <= n,
            into@.len() == s,
            forall|p: int| 0 <= p < table_rows@.len() ==> sorted_row(#[trigger] table_rows@[p]@),
            forall|p: int, k: int| 0 <= p < table_rows@.len() && 0 <= k < table_rows@[p]@.len()
                ==> (#[trigger] table_rows@[p]@[k]).1 < table_rows@.len(),
            forall|p: int| 0 <= p < s ==> #[trigger] into@[p] == goes_into(table, p as usize, c0, snap),
        decreases n - s,
    {
        let b = match row_get(&table_rows[s], c0) {
            Some(t) => {
                proof {
                    lemma_lookup(table_rows@[s as int]@, c0);
                    let k = choose|k: int| 0 <= k < table_rows@[s as int]@.len() && table_rows@[s as int]@[k] == (c0, t);
                    assert(table_rows@[s as int]@[k].1 < n);
                    assert(table[s as int] == table_rows@[s as int]@);
                }
                sb[t] == x0
            },
            None => false,
        };
        into.push(b);
        s = s + 1;
    }
    // How many states of each block lead in, and how many do not.
    let mut cnt_in: Vec<usize> = Vec::new();
    let mut cnt_out: Vec<usize> = Vec::new();
    let mut b: usize = 0;
    while b < nb
        invariant
            b <= nb,
            cnt_in@.len() == b,
            cnt_out@.len() == b,
            forall|x: int| 0 <= x < b ==> cnt_in@[x] == 0 && cnt_out@[x] == 0,
        decreases nb - b,
    {
        cnt_in.push(0);
        cnt_out.push(0);
        b = b + 1;
    }
    let mut s: usize = 0;
    while s < n
        invariant
            n == sb@.len(),
            sb@ == sb0,
            blocks_ok(sb0, nb),
            into@.len() == n,
            s <= n,
            cnt_in@.len() == nb,
            cnt_out@.len() == nb,
            forall|x: int| 0 <= x < nb ==> #[trigger] cnt_in@[x] <= s,
            forall|x: int| 0 <= x < nb ==> #[trigger] cnt_out@[x] <= s,
            forall|x: int| 0 <= x < nb ==> (#[trigger] cnt_in@[x] > 0 <==> exists|p: int| 0 <= p < s && sb0[p] == x && into@[p]),
            forall|x: int| 0 <= x < nb ==> (#[trigger] cnt_out@[x] > 0 <==> exists|p: int| 0 <= p < s && sb0[p] == x && !into@[p]),
            table == table_of(table_rows@),
            snap == blockset(sb0, x0),
            forall|p: int| 0 <= p < n ==> #[trigger] into@[p] == goes_into(table, p as usize, c0, snap),
            forall|x: int| 0 <= x < nb ==> #[trigger] cnt_in@[x] == part_count(table, sb0, x as usize, c0, snap, true, s as int),
            forall|x: int| 0 <= x < nb ==> #[trigger] cnt_out@[x] == part_count(table, sb0, x as usize, c0, snap, false, s as int),
        decreases n - s,
    {
        let bk = sb[s];
        if into[s] {
            let v = cnt_in[bk];
            cnt_in.set(bk, v + 1);
        } else {
            let v = cnt_out[bk];
            cnt_out.set(bk, v + 1);
        }
        s = s + 1;
        proof {
            assert forall|x: int| 0 <= x < nb implies (#[trigger] cnt_in@[x] > 0 <==> exists|p: int| 0 <= p < s && sb0[p] == x && into@[p]) by {
                if cnt_in@[x] > 0 && x != bk {
                    let p = choose|p: int| 0 <= p < s - 1 && sb0[p] == x && into@[p];
                }
                if exists|p: int| 0 <= p < s && sb0[p] == x && into@[p] {
                    let p = choose|p: int| 0 <= p < s && sb0[p] == x && into@[p];
                    if p < s - 1 {
                        assert(exists|p: int| 0 <= p < s - 1 && sb0[p] == x && into@[p]);
                    }
                }
            }
            assert forall|x: int| 0 <= x < nb implies (#[trigger] cnt_out@[x] > 0 <==> exists|p: int| 0 <= p < s && sb0[p] == x && !into@[p]) by {
                if cnt_out@[x] > 0 && x != bk {
                    let p = choose|p: int| 0 <= p < s - 1 && sb0[p] == x && !into@[p];
                }
                if exists|p: int| 0 <= p < s && sb0[p] == x && !into@[p] {
                    let p = choose|p: int| 0 <= p < s && sb0[p] == x && !into@[p];
                    if p < s - 1 {
                        assert(exists|p: int| 0 <= p < s - 1 && sb0[p] == x && !into@[p]);
                    }
                }
            }
        }
    }
    // Which blocks split, which part moves, and the number of the new block.
    let mut moves_in: Vec<bool> = Vec::new();
    let mut new_id: Vec<usize> = Vec::new();
    let mut nb2: usize = nb;
    let mut b: usize = 0;
    proof {
        lemma_blocks_bound(sb0, nb);
    }
    while b < nb
        invariant
            n == sb@.len(),
            sb@ == sb0,
            blocks_ok(sb0, nb),
            nb <= n,
            into@.len() == n,
            cnt_in@.len() == nb,
            cnt_out@.len() == nb,
            forall|x: int| 0 <= x < nb ==> (#[trigger] cnt_in@[x] > 0 <==> exists|p: int| 0 <= p < n && sb0[p] == x && into@[p]),
            forall|x: int| 0 <= x < nb ==> (#[trigger] cnt_out@[x] > 0 <==> exists|p: int| 0 <= p < n && sb0[p] == x && !into@[p]),
            b <= nb,
            moves_in@.len() == b,
            new_id@.len() == b,
            nb <= nb2,
            nb2 <= n,
            forall|x: int| 0 <= x < b ==> (#[trigger] new_id@[x] >= nb <==> (cnt_in@[x] > 0 && cnt_out@[x] > 0)),
            forall|x: int| 0 <= x < b && #[trigger] new_id@[x] >= nb ==> new_id@[x] < nb2
                && (exists|p: int| 0 <= p < sb0.len() && sb0[p] == x && into@[p])
                && (exists|p: int| 0 <= p < sb0.len() && sb0[p] == x && !into@[p]),
            forall|x: int, y: int| 0 <= x < b && 0 <= y < b && x != y && new_id@[x] >= nb ==> #[trigger] new_id@[x] != #[trigger] new_id@[y],
            forall|z: usize| nb <= z < nb2 ==> #[trigger] id_used(new_id@, b as int, z),
            queue@.len() >= old(queue)@.len(),
            forall|k: int| 0 <= k < old(queue)@.len() ==> #[trigger] queue@[k] == old(queue)@[k],
            forall|x: usize, c: char| nb <= x < nb2 && alphabet@.contains(c) ==> #[trigger] queued(queue@, old(queue)@.len() as int, x, c),
            nb2 == nb ==> queue@ == old(queue)@,
            forall|k: int| old(queue)@.len() <= k < queue@.len() ==> #[trigger] queue@[k].0 < nb2,
            table == table_of(table_rows@),
            snap == blockset(sb0, x0),
            forall|x: int| 0 <= x < nb ==> #[trigger] cnt_in@[x] == part_count(table, sb0, x as usize, c0, snap, true, n as int),
            forall|x: int| 0 <= x < nb ==> #[trigger] cnt_out@[x] == part_count(table, sb0, x as usize, c0, snap, false, n as int),
            nb2 == nb + splits_below(table, sb0, c0, snap, b as int),
            forall|x: int| 0 <= x < b && splits(table, sb0, x as usize, c0, snap)
                ==> #[trigger] moves_in@[x] == moves_inside(table, sb0, x as usize, c0, snap),
            forall|x: int| 0 <= x < b && splits(table, sb0, x as usize, c0, snap)
                ==> #[trigger] new_id@[x] == nb + splits_below(table, sb0, c0, snap, x),
            queue@ == old(queue)@ + new_pairs(table, sb0, nb as nat, c0, snap, alphabet@, b as int),
        decreases nb - b,
    {
        let ghost nid0 = new_id@;
        let ghost mv0 = moves_in@;
        if cnt_in[b] > 0 && cnt_out[b] > 0 {
            proof {
                let p = choose|p: int| 0 <= p < n && sb0[p] == b && into@[p];
                let q = choose|q: int| 0 <= q < n && sb0[q] == b && !into@[q];
                // With the splits so far, this block still has two parts: there is room
                // for one more block.
                lemma_moved_ok(sb0, into@, moves_in@, new_id@, nb, nb2, b as int);
                let m = moved(sb0, into@, moves_in@, new_id@, nb, b as int);
                assert(m[p] == b && m[q] == b);
                lemma_split_bound(m, nb2, b, p, q);
            }
            moves_in.push(cnt_in[b] <= cnt_out[b]);
            new_id.push(nb2);
            let ghost q0 = queue@;
            let mut ai: usize = 0;
            while ai < alphabet.len()
                invariant
                    queue@.len() == q0.len() + ai,
                    forall|k: int| 0 <= k < q0.len() ==> #[trigger] queue@[k] == q0[k],
                    ai <= alphabet.len(),
                    forall|k: int| 0 <= k < ai ==> #[trigger] queue@[q0.len() + k] == (nb2, alphabet@[k]),
                    forall|k: int| old(queue)@.len() <= k < q0.len() ==> #[trigger] q0[k].0 < nb2,
                    q0.len() >= old(queue)@.len(),
                decreases alphabet.len() - ai,
            {
                queue.push((nb2, alphabet[ai]));
                ai = ai + 1;
            }
            proof {
                let added = Seq::new(alphabet@.len(), |k: int| (nb2, alphabet@[k]));
                assert forall|i: int| 0 <= i < queue@.len() implies queue@[i] == (q0 + added)[i] by {
                    if i >= q0.len() {
                        assert(queue@[q0.len() + (i - q0.len())] == (nb2, alphabet@[i - q0.len()]));
                    }
                }
                assert(queue@ =~= q0 + added);
                assert(new_pairs(table, sb0, nb as nat, c0, snap, alphabet@, b + 1) =~= new_pairs(table, sb0, nb as nat, c0, snap, alphabet@, b as int)
                    + Seq::new(alphabet@.len(), |k: int| ((nb + splits_below(table, sb0, c0, snap, b as int)) as usize, alphabet@[k])));
                assert(queue@ =~= old(queue)@ + new_pairs(table, sb0, nb as nat, c0, snap, alphabet@, b + 1));
                assert forall|x: int| 0 <= x < b + 1 && splits(table, sb0, x as usize, c0, snap)
                    implies #[trigger] moves_in@[x] == moves_inside(table, sb0, x as usize, c0, snap) by {
                    if x < b {
                        assert(moves_in@[x] == mv0[x]);
                    }
                }
                assert forall|x: int| 0 <= x < b + 1 && splits(table, sb0, x as usize, c0, snap)
                    implies #[trigger] new_id@[x] == nb + splits_below(table, sb0, c0, snap, x) by {
                    if x < b {
                        assert(new_id@[x] == nid0[x]);
                    }
                }
                assert forall|k: int| old(queue)@.len() <= k < queue@.len() implies #[trigger] queue@[k].0 < nb2 + 1 by {
                    if k < q0.len() {
                        assert(queue@[k] == q0[k]);
                    } else {
                        assert(queue@[q0.len() + (k - q0.len())] == (nb2, alphabet@[k - q0.len()]));
                    }
                }
                assert forall|x: usize, c: char| nb <= x < nb2 + 1 && alphabet@.contains(c) implies
                    #[trigger] queued(queue@, old(queue)@.len() as int, x, c) by {
                    if x == nb2 {
                        let k = choose|k: int| 0 <= k < alphabet@.len() && alphabet@[k] == c;
                        assert(queue@[q0.len() + k] == (x, c));
                    } else {
                        assert(queued(q0, old(queue)@.len() as int, x, c));
                        let k = choose|k: int| old(queue)@.len() <= k < q0.len() && q0[k] == (x, c);
                        assert(queue@[k] == q0[k]);
                    }
                }
                assert forall|z: usize| nb <= z < nb2 + 1 implies #[trigger] id_used(new_id@, b + 1, z) by {
                    if z == nb2 {
                        assert(new_id@[b as int] == z);
                    } else {
                        assert(id_used(nid0, b as int, z));
                        let x = choose|x: int| 0 <= x < b && nid0[x] == z;
                        assert(new_id@[x] == z);
                    }
                }
                assert forall|x: int, y: int| 0 <= x < b + 1 && 0 <= y < b + 1 && x != y && new_id@[x] >= nb
                    implies #[trigger] new_id@[x] != #[trigger] new_id@[y] by {
                    if x < b && y < b {
                        assert(new_id@[x] == nid0[x] && new_id@[y] == nid0[y]);
                    } else if x < b {
                        assert(new_id@[x] == nid0[x]);
                    } else {
                        assert(new_id@[y] == nid0[y]);
                        if nid0[y] >= nb {
                            assert(nid0[y] < nb2);
                        }
                    }
                }
            }
            nb2 = nb2 + 1;
        } else {
            moves_in.push(false);
            new_id.push(0);
            proof {
                assert(new_pairs(table, sb0, nb as nat, c0, snap, alphabet@, b + 1) =~= new_pairs(table, sb0, nb as nat, c0, snap, alphabet@, b as int));
                assert forall|x: int| 0 <= x < b + 1 && splits(table, sb0, x as usize, c0, snap)
                    implies #[trigger] moves_in@[x] == moves_inside(table, sb0, x as usize, c0, snap) by {
                    if x < b {
                        assert(moves_in@[x] == mv0[x]);
                    }
                }
                assert forall|x: int| 0 <= x < b + 1 && splits(table, sb0, x as usize, c0, snap)
                    implies #[trigger] new_id@[x] == nb + splits_below(table, sb0, c0, snap, x) by {
                    if x < b {
                        assert(new_id@[x] == nid0[x]);
                    }
                }
                assert forall|z: usize| nb <= z < nb2 implies #[trigger] id_used(new_id@, b + 1, z) by {
                    assert(id_used(nid0, b as int, z));
                    let x = choose|x: int| 0 <= x < b && nid0[x] == z;
                    assert(new_id@[x] == z);
                }
            }
        }
        b = b + 1;
    }
    // Move the chosen part of each splitting block to its new block.
    proof {
        assert forall|x: int| 0 <= x < nb implies (#[trigger] new_id@[x] >= nb <==> splits(table, sb0, x as usize, c0, snap)) by {
            assert(cnt_in@[x] == part_count(table, sb0, x as usize, c0, snap, true, n as int));
            assert(cnt_out@[x] == part_count(table, sb0, x as usize, c0, snap, false, n as int));
        }
    }
    let mut s: usize = 0;
    while s < n
        invariant
            n == sb@.len(),
            n == sb0.len(),
            blocks_ok(sb0, nb),
            into@.len() == n,
            moves_in@.len() == nb,
            new_id@.len() == nb,
            s <= n,
            forall|p: int| s <= p < n ==> #[trigger] sb@[p] == sb0[p],
            forall|p: int| 0 <= p < s ==> #[trigger] sb@[p] == if new_id@[sb0[p] as int] >= nb && into@[p] == moves_in@[sb0[p] as int] {
                new_id@[sb0[p] as int]
            } else {
                sb0[p]
            },
            table == table_of(table_rows@),
            snap == blockset(sb0, x0),
            forall|p: int| 0 <= p < n ==> #[trigger] into@[p] == goes_into(table, p as usize, c0, snap),
            forall|x: int| 0 <= x < nb ==> (#[trigger] new_id@[x] >= nb <==> splits(table, sb0, x as usize, c0, snap)),
            forall|x: int| 0 <= x < nb && splits(table, sb0, x as usize, c0, snap)
                ==> #[trigger] moves_in@[x] == moves_inside(table, sb0, x as usize, c0, snap),
            forall|x: int| 0 <= x < nb && splits(table, sb0, x as usize, c0, snap)
                ==> #[trigger] new_id@[x] == nb + splits_below(table, sb0, c0, snap, x),
        decreases n - s,
    {
        let bk = sb[s];
        if new_id[bk] >= nb && into[s] == moves_in[bk] {
            sb.set(s, new_id[bk]);
        }
        s = s + 1;
    }
    proof {
        let sb1 = sb@;
        assert(sb1 =~= refined(table, sb0, nb as nat, c0, snap));
        lemma_moved_ok(sb0, into@, moves_in@, new_id@, nb, nb2, nb as int);
        assert(sb1 =~= moved(sb0, into@, moves_in@, new_id@, nb, nb as int));
        assert forall|p: int, q: int| #![trigger sb1[p], sb1[q]] 0 <= p < sb1.len() && 0 <= q < sb1.len() && sb1[p] == sb1[q]
            implies sb0[p] == sb0[q] by {
            if sb1[p] >= nb {
                assert(new_id@[sb0[p] as int] == sb1[p]);
                assert(new_id@[sb0[q] as int] == sb1[q]);
            }
        }
        assert forall|p: usize, q: usize| #![trigger sb1[p as int], sb1[q as int]]
            p < sb1.len() && q < sb1.len() && sb1[p as int] == sb1[q as int]
            implies (goes_into(table, p, c0, snap) <==> goes_into(table, q, c0, snap)) by {
            assert(into@[p as int] == goes_into(table, p, c0, snap));
            assert(into@[q as int] == goes_into(table, q, c0, snap));
            assert(sb0[p as int] == sb0[q as int]);
            let x = sb0[p as int];
            if new_id@[x as int] < nb {
                if into@[p as int] {
                    assert(cnt_in@[x as int] > 0);
                } else {
                    assert(cnt_out@[x as int] > 0);
                }
            }
        }
        assert forall|p: int, q: int| #![trigger sb1[p], sb1[q]]
            0 <= p < sb0.len() && 0 <= q < sb0.len() && sb0[p] == sb0[q]
            && (goes_into(table, p as usize, c0, snap) <==> goes_into(table, q as usize, c0, snap))
            implies sb1[p] == sb1[q] by {
            assert(into@[p] == goes_into(table, p as usize, c0, snap));
            assert(into@[q] == goes_into(table, q as usize, c0, snap));
        }
    }
    nb2
}

/// A block with two distinct nonempty parts leaves room for one more block.
proof fn lemma_split_bound(sb: Seq<usize>, nb: usize, b: usize, p: int, q: int)
    requires
        blocks_ok(sb, nb),
        b < nb,
        0 <= p < sb.len(),
        0 <= q < sb.len(),
        p != q,
        sb[p] == b,
        sb[q] == b,
    ensures
        nb < sb.len(),
{
    let dom = vstd::set_lib::set_int_range(0, sb.len() as int).remove(q);
    let f = |i: int| sb[i] as int;
    vstd::set_lib::lemma_int_range(0, sb.len() as int);
    vstd::set_lib::lemma_int_range(0, nb as int);
    let img = dom.map(f);
    vstd::set_lib::lemma_map_size_bound(dom, img, f);
    let r = vstd::set_lib::set_int_range(0, nb as int);
    assert(r.subset_of(img)) by {
        assert forall|x: int| r.contains(x) implies img.contains(x) by {
            if x == b as int {
                assert(dom.contains(p));
                assert(f(p) == x);
            } else {
                assert(nonempty_block(sb, x as usize));
                let s = choose|s: int| 0 <= s < sb.len() && sb[s] == x as usize;
                assert(s != q);
                assert(dom.contains(s));
                assert(f(s) == x);
            }
        }
    }
    vstd::set_lib::lemma_len_subset(r, img);
}

/// The partition after moving, in each block `x < upto` that splits (`new_id[x] >= nb`),
/// the states whose flag in `into` equals `moves_in[x]` to block `new_id[x]`.
pub open spec fn moved(sb: Seq<usize>, into: Seq<bool>, moves_in: Seq<bool>, new_id: Seq<usize>, nb: usize, upto: int) -> Seq<usize> {
    Seq::new(sb.len(), |p: int|
        if sb[p] < upto && new_id[sb[p] as int] >= nb && into[p] == moves_in[sb[p] as int] {
            new_id[sb[p] as int]
        } else {
            sb[p]
        })
}

/// The blocks that split have states on both sides, the new blocks are numbered
/// `nb..nb2` one for each block that splits: moving leaves no block empty.
proof fn lemma_moved_ok(sb: Seq<usize>, into: Seq<bool>, moves_in: Seq<bool>, new_id: Seq<usize>, nb: usize, nb2: usize, upto: int)
    requires
        blocks_ok(sb, nb),
        into.len() == sb.len(),
        0 <= upto <= nb,
        moves_in.len() >= upto,
        new_id.len() >= upto,
        nb <= nb2,
        forall|x: int| 0 <= x < upto && #[trigger] new_id[x] >= nb ==> new_id[x] < nb2
            && (exists|p: int| 0 <= p < sb.len() && sb[p] == x && into[p])
            && (exists|p: int| 0 <= p < sb.len() && sb[p] == x && !into[p]),
        forall|z: usize| nb <= z < nb2 ==> #[trigger] id_used(new_id, upto, z),
    ensures
        blocks_ok(moved(sb, into, moves_in, new_id, nb, upto), nb2),
{
    let m = moved(sb, into, moves_in, new_id, nb, upto);
    assert forall|p: int| 0 <= p < m.len() implies #[trigger] m[p] < nb2 by {}
    assert forall|x: usize| x < nb2 implies #[trigger] nonempty_block(m, x) by {
        if x < nb {
            assert(nonempty_block(sb, x));
            let p = choose|p: int| 0 <= p < sb.len() && sb[p] == x;
            if m[p] != x {
                let mv = moves_in[x as int];
                if mv {
                    let q = choose|q: int| 0 <= q < sb.len() && sb[q] == x && !into[q];
                    assert(m[q] == x);
                } else {
                    let q = choose|q: int| 0 <= q < sb.len() && sb[q] == x && into[q];
                    assert(m[q] == x);
                }
            }
        } else {
            assert(id_used(new_id, upto, x));
            let bx = choose|bx: int| 0 <= bx < upto && new_id[bx] == x;
            let mv = moves_in[bx];
            if mv {
                let q = choose|q: int| 0 <= q < sb.len() && sb[q] == bx && into[q];
                assert(m[q] == x);
            } else {
                let q = choose|q: int| 0 <= q < sb.len() && sb[q] == bx && !into[q];
                assert(m[q] == x);
            }
        }
    }
}

/// The cover of a pair that is no longer queued: the partition does not separate by it,
/// it holds the block, and each of its other states lies in a block still queued with `c`.
pub open spec fn cover_ok(
    table: Seq<Seq<(char, usize)>>,
    sb: Seq<usize>,
    queue: Seq<(usize, char)>,
    head: int,
    set: Set<usize>,
    x: usize,
    c: char,
) -> bool {
    &&& compat(table, sb, set, c)
    &&& blockset(sb, x).subset_of(set)
    &&& forall|y: usize| #[trigger] set.contains(y) ==> blockset(sb, x).contains(y)
        || (y < sb.len() && queued(queue, head, sb[y as int], c))
}

/// A finer partition separates no more than a coarser one does.
proof fn lemma_compat_refines(table: Seq<Seq<(char, usize)>>, a: Seq<usize>, b: Seq<usize>, set: Set<usize>, c: char)
    requires
        refines(a, b),
        compat(table, b, set, c),
    ensures
        compat(table, a, set, c),
{
    assert forall|s: usize, t: usize| #![trigger a[s as int], a[t as int]]
        s < a.len() && t < a.len() && a[s as int] == a[t as int]
        implies (goes_into(table, s, c, set) <==> goes_into(table, t, c, set)) by {
        assert(b[s as int] == b[t as int]);
    }
}

/// Not separating by two sets, a partition does not separate by their difference.
proof fn lemma_compat_difference(table: Seq<Seq<(char, usize)>>, sb: Seq<usize>, s1: Set<usize>, s2: Set<usize>, c: char)
    requires
        compat(table, sb, s1, c),
        compat(table, sb, s2, c),
    ensures
        compat(table, sb, s1.difference(s2), c),
{
    assert forall|s: usize, t: usize| #![trigger sb[s as int], sb[t as int]]
        s < sb.len() && t < sb.len() && sb[s as int] == sb[t as int]
        implies (goes_into(table, s, c, s1.difference(s2)) <==> goes_into(table, t, c, s1.difference(s2))) by {
        assert(goes_into(table, s, c, s1) <==> goes_into(table, t, c, s1));
        assert(goes_into(table, s, c, s2) <==> goes_into(table, t, c, s2));
    }
}

/// Reading `c` first: the run goes on from the target of the transition on `c`.
proof fn lemma_accepts_step(d: &DFA, q: int, c: char, w: Seq<char>)
    requires
        0 <= q < d.table().len(),
    ensures
        d.accepts_from(q, seq![c] + w) == match lookup(d.table()[q], c) {
            Some(t) => d.accepts_from(t as int, w),
            None => false,
        },
{
    let cw = seq![c] + w;
    assert(cw[0] == c);
    assert(cw.drop_first() =~= w);
}

/// In a well-formed automaton a transition is on a symbol of the alphabet and leads to a
/// state; in a complete one every symbol of the alphabet has one.
proof fn lemma_transition(d: &DFA, q: int, c: char)
    requires
        d.wf(),
        0 <= q < d.state_count,
    ensures
        d.table()[q] == d.transitions@[q]@,
        lookup(d.table()[q], c) is Some ==> d.alphabet@.contains(c) && lookup(d.table()[q], c)->0 < d.state_count,
        d.complete_over(d.alphabet@) && d.alphabet@.contains(c) ==> lookup(d.table()[q], c) is Some,
{
    let r = d.transitions@[q]@;
    lemma_lookup(r, c);
    if lookup(r, c) is Some {
        let i = choose|i: int| 0 <= i < r.len() && r[i] == (c, lookup(r, c)->0);
        assert(d.transitions@[q]@[i] == r[i]);
    }
}

/// States with the same language go, on each symbol, to states with the same language.
proof fn lemma_same_language_step(d: &DFA, p: int, e: &DFA, q: int, c: char)
    requires
        d.same_language(p, e, q),
        0 <= p < d.table().len(),
        0 <= q < e.table().len(),
        lookup(d.table()[p], c) is Some,
        lookup(e.table()[q], c) is Some,
    ensures
        d.same_language(lookup(d.table()[p], c)->0 as int, e, lookup(e.table()[q], c)->0 as int),
{
    let tp = lookup(d.table()[p], c)->0 as int;
    let tq = lookup(e.table()[q], c)->0 as int;
    assert forall|w: Seq<char>| #[trigger] d.accepts_from(tp, w) == e.accepts_from(tq, w) by {
        lemma_accepts_step(d, p, c, w);
        lemma_accepts_step(e, q, c, w);
        assert(d.accepts_from(p, seq![c] + w) == e.accepts_from(q, seq![c] + w));
    }
}

impl DFA {
    /// Hopcroft's partition refinement, from the partition into non-accepting and
    /// accepting states: the blocks of states, numbered as the algorithm creates them.
    fn hopcroft(&self) -> (res: (Vec<usize>, usize))
        requires
            self.wf(),
            self.complete_over(self.alphabet@),
        ensures
            ({
                let (sb, nb) = res;
                &&& sb@.len() == self.state_count
                &&& blocks_ok(sb@, nb)
                &&& forall|s: int, t: int| #![trigger sb@[s], sb@[t]] 0 <= s < sb@.len() && 0 <= t < sb@.len() && sb@[s] == sb@[t]
                    ==> (self.accept_states@.contains(s as usize) <==> self.accept_states@.contains(t as usize))
                &&& forall|x: usize, c: char| x < nb && self.alphabet@.contains(c)
                    ==> #[trigger] compat(self.table(), sb@, blockset(sb@, x), c)
                &&& forall|s: int, t: int| #![trigger sb@[s], sb@[t]] 0 <= s < sb@.len() && 0 <= t < sb@.len()
                    && self.same_language(s, self, t) ==> sb@[s] == sb@[t]
                &&& sb@ == hopcroft_partition(*self).0
                &&& nb == hopcroft_partition(*self).1
            }),
    {
        let n = self.state_count;
        let ghost table = self.table();
        let ghost accs = self.accept_states@;
        let mut has_non = false;
        let mut has_acc = false;
        let mut s: usize = 0;
        while s < n
            invariant
                s <= n,
                has_non == exists|p: usize| p < s && !accs.contains(p),
                has_acc == exists|p: usize| p < s && accs.contains(p),
                accs == self.accept_states@,
            decreases n - s,
        {
            if self.accept_states.contains(&s) {
                has_acc = true;
            } else {
                has_non = true;
            }
            s = s + 1;
        }
        let acc_block: usize = if has_non { 1 } else { 0 };
        let nb: usize = if has_non && has_acc { 2 } else { 1 };
        let mut sb: Vec<usize> = Vec::new();
        let mut s: usize = 0;
        while s < n
            invariant
                s <= n,
                sb@.len() == s,
                accs == self.accept_states@,
                forall|p: int| 0 <= p < s ==> #[trigger] sb@[p] == if accs.contains(p as usize) { acc_block } else { 0 },
            decreases n - s,
        {
            if self.accept_states.contains(&s) {
                sb.push(acc_block);
            } else {
                sb.push(0);
            }
            s = s + 1;
        }
        let mut queue: Vec<(usize, char)> = Vec::new();
        let mut b: usize = 0;
        while b < nb
            invariant
                b <= nb,
                nb <= 2,
                queue@ == initial_queue(self.alphabet@, b as int),
                forall|k: int| 0 <= k < queue@.len() ==> #[trigger] queue@[k].0 < nb,
                forall|x: usize, c: char| x < b && self.alphabet@.contains(c) ==> #[trigger] queued(queue@, 0, x, c),
            decreases nb - b,
        {
            let ghost q0 = queue@;
            let mut ai: usize = 0;
            while ai < self.alphabet.len()
                invariant
                    b < nb,
                    nb <= 2,
                    queue@.len() == q0.len() + ai,
                    forall|k: int| 0 <= k < q0.len() ==> #[trigger] queue@[k] == q0[k],
                    ai <= self.alphabet.len(),
                    forall|k: int| 0 <= k < ai ==> #[trigger] queue@[q0.len() + k] == (b, self.alphabet@[k]),
                    forall|k: int| 0 <= k < q0.len() ==> #[trigger] q0[k].0 < nb,
                decreases self.alphabet.len() - ai,
            {
                queue.push((b, self.alphabet[ai]));
                ai = ai + 1;
            }
            proof {
                let added = Seq::new(self.alphabet@.len(), |k: int| (b, self.alphabet@[k]));
                assert forall|i: int| 0 <= i < queue@.len() implies queue@[i] == (q0 + added)[i] by {
                    if i >= q0.len() {
                        assert(queue@[q0.len() + (i - q0.len())] == (b, self.alphabet@[i - q0.len()]));
                    }
                }
                assert(queue@ =~= q0 + added);
                assert(initial_queue(self.alphabet@, b + 1) =~= initial_queue(self.alphabet@, b as int) + added);
                assert forall|k: int| 0 <= k < queue@.len() implies #[trigger] queue@[k].0 < nb by {
                    if k < q0.len() {
                        assert(queue@[k] == q0[k]);
                    } else {
                        assert(queue@[q0.len() + (k - q0.len())] == (b, self.alphabet@[k - q0.len()]));
                    }
                }
                assert forall|x: usize, c: char| x < b + 1 && self.alphabet@.contains(c) implies #[trigger] queued(queue@, 0, x, c) by {
                    if x == b {
                        let k = choose|k: int| 0 <= k < self.alphabet@.len() && self.alphabet@[k] == c;
                        assert(queue@[q0.len() + k] == (x, c));
                    } else {
                        assert(queued(q0, 0, x, c));
                        let k = choose|k: int| 0 <= k < q0.len() && q0[k] == (x, c);
                        assert(queue@[k] == q0[k]);
                    }
                }
            }
            b = b + 1;
        }
        proof {
            assert(blocks_ok(sb@, nb)) by {
                assert(n > 0 && self.start < n);
                assert(has_non || has_acc) by {
                    if self.accept_states@.contains(self.start) {
                        assert(self.start < n && accs.contains(self.start));
                    } else {
                        assert(self.start < n && !accs.contains(self.start));
                    }
                }
                assert forall|x: usize| x < nb implies #[trigger] nonempty_block(sb@, x) by {
                    if x == 0 && has_non {
                        let p = choose|p: usize| p < n && !accs.contains(p);
                        assert(sb@[p as int] == 0);
                    } else {
                        let p = choose|p: usize| p < n && accs.contains(p);
                        assert(sb@[p as int] == x);
                    }
                }
            }
        }
        proof {
            assert forall|s: int, t: int| #![trigger sb@[s], sb@[t]] 0 <= s < sb@.len() && 0 <= t < sb@.len()
                && self.same_language(s, self, t) implies sb@[s] == sb@[t] by {
                assert(self.accepts_from(s, Seq::empty()) == self.accepts_from(t, Seq::empty()));
            }
        }
        proof {
            let (sbi, nbi) = initial_partition(*self);
            assert(has_non == exists|p: usize| p < n && !accs.contains(p));
            assert(has_acc == exists|p: usize| p < n && accs.contains(p));
            assert(sb@ =~= sbi);
            assert(nb == nbi);
        }
        let ghost mut cover: spec_fn(usize, char) -> Set<usize> = |x: usize, c: char| Set::<usize>::empty();
        let mut nb = nb;
        let mut head: usize = 0;
        while head < queue.len()
            invariant
                n == self.state_count,
                self.wf(),
                table == self.table(),
                accs == self.accept_states@,
                sb@.len() == n,
                blocks_ok(sb@, nb),
                head <= queue@.len(),
                forall|k: int| 0 <= k < queue@.len() ==> #[trigger] queue@[k].0 < nb,
                forall|s: int, t: int| #![trigger sb@[s], sb@[t]] 0 <= s < sb@.len() && 0 <= t < sb@.len() && sb@[s] == sb@[t]
                    ==> (accs.contains(s as usize) <==> accs.contains(t as usize)),
                forall|x: usize, c: char| x < nb && self.alphabet@.contains(c) && !queued(queue@, head as int, x, c)
                    ==> #[trigger] cover_ok(table, sb@, queue@, head as int, cover(x, c), x, c),
                self.complete_over(self.alphabet@),
                forall|s: int, t: int| #![trigger sb@[s], sb@[t]] 0 <= s < sb@.len() && 0 <= t < sb@.len()
                    && self.same_language(s, self, t) ==> sb@[s] == sb@[t],
                refinement(table, self.alphabet@, sb@, nb as nat, queue@, head as int, n as nat) == hopcroft_partition(*self),
            decreases n - nb, queue@.len() - head,
        {
            proof {
                lemma_blocks_bound(sb@, nb);
            }
            let (x0, c0) = queue[head];
            let ghost q_before = queue@;
            let ghost sb_before = sb@;
            let ghost nb_before = nb;
            let ghost h0 = head as int;
            let ghost snap = blockset(sb@, x0);
            head = head + 1;
            if x0 < nb {
                let nb2 = refine(&self.transitions, &self.alphabet, &mut sb, nb, &mut queue, x0, c0);
                proof {
                    let old_cover = cover;
                    cover = |x: usize, c: char| if c == c0 {
                        if x == x0 { snap } else { old_cover(x, c).difference(snap) }
                    } else {
                        old_cover(x, c)
                    };
                    let sb2 = sb@;
                    let q2 = queue@;
                    assert forall|s: int, t: int| #![trigger sb2[s], sb2[t]] 0 <= s < sb2.len() && 0 <= t < sb2.len() && sb2[s] == sb2[t]
                        implies (accs.contains(s as usize) <==> accs.contains(t as usize)) by {
                        assert(sb_before[s] == sb_before[t]);
                    }
                    assert forall|s: int, t: int| #![trigger sb2[s], sb2[t]] 0 <= s < sb2.len() && 0 <= t < sb2.len()
                        && self.same_language(s, self, t) implies sb2[s] == sb2[t] by {
                        assert(sb_before[s] == sb_before[t]);
                        lemma_transition(self, s, c0);
                        lemma_transition(self, t, c0);
                        if lookup(table[s], c0) is Some || lookup(table[t], c0) is Some {
                            lemma_same_language_step(self, s, self, t, c0);
                            let ts = lookup(table[s], c0)->0 as int;
                            let tt = lookup(table[t], c0)->0 as int;
                            assert(sb_before[ts] == sb_before[tt]);
                        }
                    }
                    assert forall|k: int| 0 <= k < q2.len() implies #[trigger] q2[k].0 < nb2 by {
                        if k < q_before.len() {
                            assert(q2[k] == q_before[k]);
                        }
                    }
                    assert forall|x: usize, c: char| x < nb2 && self.alphabet@.contains(c) && !queued(q2, head as int, x, c)
                        implies #[trigger] cover_ok(table, sb2, q2, head as int, cover(x, c), x, c) by {
                        if x >= nb_before {
                            assert(queued(q2, q_before.len() as int, x, c));
                            let k = choose|k: int| q_before.len() <= k < q2.len() && q2[k] == (x, c);
                            assert(queued(q2, head as int, x, c));
                        } else {
                            // Blocks below nb keep a part of their states.
                            assert forall|y: usize| blockset(sb2, x).contains(y) implies blockset(sb_before, x).contains(y) by {
                                if sb2[y as int] != sb_before[y as int] {
                                    assert(sb2[y as int] >= nb_before);
                                }
                            }
                            if x == x0 && c == c0 {
                                assert(cover(x, c) == snap);
                                assert forall|y: usize| #[trigger] snap.contains(y) implies blockset(sb2, x).contains(y)
                                    || (y < sb2.len() && queued(q2, head as int, sb2[y as int], c)) by {
                                    if sb2[y as int] != x {
                                        assert(sb2[y as int] != sb_before[y as int]);
                                        assert(sb2[y as int] >= nb_before);
                                        assert(queued(q2, q_before.len() as int, sb2[y as int], c));
                                        let k = choose|k: int| q_before.len() <= k < q2.len() && q2[k] == (sb2[y as int], c);
                                    }
                                }
                            } else {
                                assert(!queued(q_before, h0, x, c)) by {
                                    if queued(q_before, h0, x, c) {
                                        let k = choose|k: int| h0 <= k < q_before.len() && q_before[k] == (x, c);
                                        if k > h0 {
                                            assert(q2[k] == q_before[k]);
                                        }
                                    }
                                }
                                let old_set = old_cover(x, c);
                                assert(cover_ok(table, sb_before, q_before, h0, old_set, x, c));
                                lemma_compat_refines(table, sb2, sb_before, old_set, c);
                                let new_set = cover(x, c);
                                if c == c0 {
                                    lemma_compat_difference(table, sb2, old_set, snap, c);
                                    assert(new_set == old_set.difference(snap));
                                } else {
                                    assert(new_set == old_set);
                                }
                                assert(blockset(sb2, x).subset_of(new_set));
                                assert forall|y: usize| #[trigger] new_set.contains(y) implies blockset(sb2, x).contains(y)
                                    || (y < sb2.len() && queued(q2, head as int, sb2[y as int], c)) by {
                                    assert(old_set.contains(y));
                                    if sb2[y as int] != sb_before[y as int] {
                                        assert(sb2[y as int] >= nb_before);
                                        assert(queued(q2, q_before.len() as int, sb2[y as int], c));
                                        let k = choose|k: int| q_before.len() <= k < q2.len() && q2[k] == (sb2[y as int], c);
                                    } else if !blockset(sb_before, x).contains(y) {
                                        assert(queued(q_before, h0, sb_before[y as int], c));
                                        let k = choose|k: int| h0 <= k < q_before.len() && q_before[k] == (sb_before[y as int], c);
                                        if k == h0 {
                                            assert(snap.contains(y));
                                        } else {
                                            assert(q2[k] == q_before[k]);
                                        }
                                    }
                                }
                            }
                        }
                    }
                    lemma_blocks_bound(sb2, nb2);
                }
                nb = nb2;
            } else {
                proof {
                    assert(false);
                }
            }
        }
        proof {
            assert forall|x: usize, c: char| x < nb && self.alphabet@.contains(c)
                implies #[trigger] compat(self.table(), sb@, blockset(sb@, x), c) by {
                assert(!queued(queue@, head as int, x, c));
                let set = cover(x, c);
                assert(cover_ok(table, sb@, queue@, head as int, set, x, c));
                assert(set =~= blockset(sb@, x));
            }
        }
        (sb, nb)
    }
}

impl DFA {
    /// Each state accepts the words that its block accepts in the quotient automaton `m`,
    /// whose state `x` is block `x` of `sb`, represented by state `rep[x]`.
    proof fn lemma_quotient_word(&self, m: &DFA, sb: Seq<usize>, rep: Seq<usize>, s: int, w: Seq<char>)
        requires
            self.wf(),
            self.complete_over(self.alphabet@),
            sb.len() == self.state_count,
            forall|p: int| 0 <= p < sb.len() ==> #[trigger] sb[p] < m.state_count,
            rep.len() == m.state_count,
            forall|x: int| 0 <= x < m.state_count ==> #[trigger] rep[x] < self.state_count && sb[rep[x] as int] == x,
            m.transitions@.len() == m.state_count,
            forall|x: int, c: char| 0 <= x < m.state_count ==> #[trigger] lookup(m.transitions@[x]@, c) == if self.alphabet@.contains(c) {
                Some(sb[lookup(self.table()[rep[x] as int], c)->0 as int])
            } else {
                None
            },
            forall|x: usize| #[trigger] m.accept_states@.contains(x) <==> (x < m.state_count && self.accept_states@.contains(rep[x as int])),
            forall|p: int, q: int| #![trigger sb[p], sb[q]] 0 <= p < sb.len() && 0 <= q < sb.len() && sb[p] == sb[q]
                ==> (self.accept_states@.contains(p as usize) <==> self.accept_states@.contains(q as usize)),
            forall|x: usize, c: char| x < m.state_count && self.alphabet@.contains(c)
                ==> #[trigger] compat(self.table(), sb, blockset(sb, x), c),
            0 <= s < self.state_count,
        ensures
            m.accepts_from(sb[s] as int, w) == self.accepts_from(s, w),
        decreases w.len(),
    {
        let x = sb[s] as int;
        let r = rep[x] as int;
        assert(sb[r] == sb[s]);
        if w.len() > 0 {
            let c = w[0];
            lemma_transition(self, s, c);
            lemma_transition(self, r, c);
            assert(m.table()[x] == m.transitions@[x]@);
            if self.alphabet@.contains(c) {
                let t = lookup(self.table()[s], c)->0 as int;
                let tr = lookup(self.table()[r], c)->0 as int;
                let bt = sb[t];
                assert(compat(self.table(), sb, blockset(sb, bt), c));
                assert(goes_into(self.table(), s as usize, c, blockset(sb, bt)));
                assert(goes_into(self.table(), r as usize, c, blockset(sb, bt)));
                assert(sb[tr] == bt);
                self.lemma_quotient_word(m, sb, rep, t, w.drop_first());
            }
        }
    }

    /// Each state has the language of its block in the quotient automaton `m`.
    proof fn lemma_quotient(&self, m: &DFA, sb: Seq<usize>, rep: Seq<usize>)
        requires
            self.wf(),
            self.complete_over(self.alphabet@),
            sb.len() == self.state_count,
            forall|p: int| 0 <= p < sb.len() ==> #[trigger] sb[p] < m.state_count,
            rep.len() == m.state_count,
            forall|x: int| 0 <= x < m.state_count ==> #[trigger] rep[x] < self.state_count && sb[rep[x] as int] == x,
            m.transitions@.len() == m.state_count,
            forall|x: int, c: char| 0 <= x < m.state_count ==> #[trigger] lookup(m.transitions@[x]@, c) == if self.alphabet@.contains(c) {
                Some(sb[lookup(self.table()[rep[x] as int], c)->0 as int])
            } else {
                None
            },
            forall|x: usize| #[trigger] m.accept_states@.contains(x) <==> (x < m.state_count && self.accept_states@.contains(rep[x as int])),
            forall|p: int, q: int| #![trigger sb[p], sb[q]] 0 <= p < sb.len() && 0 <= q < sb.len() && sb[p] == sb[q]
                ==> (self.accept_states@.contains(p as usize) <==> self.accept_states@.contains(q as usize)),
            forall|x: usize, c: char| x < m.state_count && self.alphabet@.contains(c)
                ==> #[trigger] compat(self.table(), sb, blockset(sb, x), c),
        ensures
            forall|s: int| 0 <= s < self.state_count ==> m.same_language(#[trigger] sb[s] as int, self, s),
    {
        assert forall|s: int| 0 <= s < self.state_count implies m.same_language(#[trigger] sb[s] as int, self, s) by {
            assert forall|w: Seq<char>| #[trigger] m.accepts_from(sb[s] as int, w) == self.accepts_from(s, w) by {
                self.lemma_quotient_word(m, sb, rep, s, w);
            }
        }
    }
}

/// `m` is the quotient of `d` by the blocks of Hopcroft's refinement: block `b` is state
/// `b`, which starts where `d` starts, accepts where the states of the block accept, and
/// leads on each symbol of the alphabet to the block of the state that the states of the
/// block lead to.
pub open spec fn hopcroft_quotient(d: DFA, m: DFA) -> bool {
    let (sb, nb) = hopcroft_partition(d);
    &&& blocks_ok(sb, nb as usize)
    &&& sb.len() == d.state_count
    &&& m.state_count == nb
    &&& m.start == sb[d.start as int]
    &&& forall|s: int| 0 <= s < d.state_count
        ==> (m.accept_states@.contains(#[trigger] sb[s]) <==> d.accept_states@.contains(s as usize))
    &&& forall|s: int, c: char| 0 <= s < d.state_count ==> #[trigger] lookup(m.table()[sb[s] as int], c)
        == if d.alphabet@.contains(c) { Some(sb[lookup(d.table()[s], c)->0 as int]) } else { None }
}

/// The row of a block of the minimal automaton: on each symbol of the alphabet, the block
/// of the state that the representative `r` leads to.
fn block_row(d: &DFA, sb: &Vec<usize>, nb: usize, r: usize) -> (row: Row)
    requires
        d.wf(),
        d.complete_over(d.alphabet@),
        r < d.state_count,
        sb@.len() == d.state_count,
        forall|s: int| 0 <= s < sb@.len() ==> #[trigger] sb@[s] < nb,
    ensures
        sorted_row(row@),
        forall|c: char| #[trigger] lookup(row@, c) == if d.alphabet@.contains(c) {
            Some(sb@[lookup(d.table()[r as int], c)->0 as int])
        } else {
            None
        },
        forall|k: int| 0 <= k < row@.len() ==> (#[trigger] row@[k]).1 < nb && d.alphabet@.contains(row@[k].0),
{
    let mut row: Row = Vec::new();
    let mut i: usize = 0;
    while i < d.alphabet.len()
        invariant
            d.wf(),
            d.complete_over(d.alphabet@),
            r < d.state_count,
            sb@.len() == d.state_count,
            forall|s: int| 0 <= s < sb@.len() ==> #[trigger] sb@[s] < nb,
            i <= d.alphabet.len(),
            sorted_row(row@),
            forall|c: char| #[trigger] lookup(row@, c) == if d.alphabet@.take(i as int).contains(c) {
                Some(sb@[lookup(d.table()[r as int], c)->0 as int])
            } else {
                None
            },
            forall|k: int| 0 <= k < row@.len() ==> (#[trigger] row@[k]).1 < nb && d.alphabet@.contains(row@[k].0),
        decreases d.alphabet.len() - i,
    {
        let c = d.alphabet[i];
        proof {
            lemma_transition(d, r as int, c);
            assert(d.alphabet@.contains(c));
        }
        let t = match row_get(&d.transitions[r], c) {
            Some(t) => t,
            None => {
                proof {
                    assert(false);
                }
                0
            },
        };
        let ghost row0 = row@;
        row_insert(&mut row, c, sb[t]);
        i = i + 1;
        proof {
            assert forall|e: char| #[trigger] lookup(row@, e) == if d.alphabet@.take(i as int).contains(e) {
                Some(sb@[lookup(d.table()[r as int], e)->0 as int])
            } else {
                None
            } by {
                if e != c {
                    let now = d.alphabet@.take(i as int);
                    let before = d.alphabet@.take(i - 1);
                    assert(now.contains(e) <==> before.contains(e)) by {
                        if now.contains(e) {
                            let j = choose|j: int| 0 <= j < now.len() && now[j] == e;
                            assert(before[j] == e);
                        }
                        if before.contains(e) {
                            let j = choose|j: int| 0 <= j < before.len() && before[j] == e;
                            assert(now[j] == e);
                        }
                    }
                } else {
                    assert(d.alphabet@.take(i as int)[i - 1] == c);
                }
            }
            assert forall|k: int| 0 <= k < row@.len() implies (#[trigger] row@[k]).1 < nb && d.alphabet@.contains(row@[k].0) by {
                if row@[k].0 != c {
                    let j = choose|j: int| 0 <= j < row0.len() && #[trigger] row0[j] == row@[k];
                } else {
                    lemma_lookup(row@, c);
                }
            }
        }
    }
    proof {
        assert(d.alphabet@.take(i as int) =~= d.alphabet@);
    }
    row
}

impl DFA {
    /// The minimal automaton for the same language: the states are the blocks of states
    /// that accept the same words (unreachable states included), each block led on every
    /// symbol to the block of the state its states lead to.
    pub fn minimize(&self) -> (m: DFA)
        requires
            self.wf(),
            self.complete_over(self.alphabet@),
        ensures
            m.wf(),
            m.complete_over(m.alphabet@),
            m.alphabet@ == self.alphabet@,
            forall|w: Seq<char>| #[trigger] m.accepts(w) == self.accepts(w),
            forall|s: int| 0 <= s < self.state_count ==> #[trigger] m.has_language_of(self, s),
            forall|b: int| 0 <= b < m.state_count ==> #[trigger] self.has_language_of(&m, b),
            forall|a: int, b: int| #![trigger m.same_language(a, &m, b)] 0 <= a < m.state_count && 0 <= b < m.state_count && a != b
                ==> !m.same_language(a, &m, b),
            hopcroft_quotient(*self, m),
    {
        let (sb, nb) = self.hopcroft();
        let n = self.state_count;
        let ghost table = self.table();
        // The first state of each block represents it.
        let mut rep: Vec<usize> = Vec::new();
        let mut b: usize = 0;
        while b < nb
            invariant
                b <= nb,
                rep@.len() == b,
                forall|x: int| 0 <= x < b ==> #[trigger] rep@[x] == n,
            decreases nb - b,
        {
            rep.push(n);
            b = b + 1;
        }
        let mut s: usize = 0;
        while s < n
            invariant
                n == sb@.len(),
                blocks_ok(sb@, nb),
                s <= n,
                rep@.len() == nb,
                forall|x: int| 0 <= x < nb ==> #[trigger] rep@[x] == n || (rep@[x] < n && sb@[rep@[x] as int] == x),
                forall|p: int| 0 <= p < s ==> #[trigger] rep@[sb@[p] as int] != n,
            decreases n - s,
        {
            let bk = sb[s];
            if rep[bk] == n {
                rep.set(bk, s);
            }
            s = s + 1;
        }
        proof {
            assert forall|x: int| 0 <= x < nb implies #[trigger] rep@[x] < n && sb@[rep@[x] as int] == x by {
                assert(nonempty_block(sb@, x as usize));
                let p = choose|p: int| 0 <= p < sb@.len() && sb@[p] == x as usize;
                assert(rep@[sb@[p] as int] != n);
            }
        }
        let mut transitions: Vec<Row> = Vec::new();
        let mut accept_states: BTreeSet<usize> = BTreeSet::new();
        let mut b: usize = 0;
        while b < nb
            invariant
                self.wf(),
                self.complete_over(self.alphabet@),
                n == self.state_count,
                n == sb@.len(),
                blocks_ok(sb@, nb),
                rep@.len() == nb,
                forall|x: int| 0 <= x < nb ==> #[trigger] rep@[x] < n && sb@[rep@[x] as int] == x,
                b <= nb,
                transitions@.len() == b,
                forall|x: int| 0 <= x < b ==> sorted_row(#[trigger] transitions@[x]@),
                forall|x: int, c: char| 0 <= x < b ==> #[trigger] lookup(transitions@[x]@, c) == if self.alphabet@.contains(c) {
                    Some(sb@[lookup(self.table()[rep@[x] as int], c)->0 as int])
                } else {
                    None
                },
                forall|x: int, k: int| 0 <= x < b && 0 <= k < transitions@[x]@.len()
                    ==> (#[trigger] transitions@[x]@[k]).1 < nb && self.alphabet@.contains(transitions@[x]@[k].0),
                forall|x: usize| #[trigger] accept_states@.contains(x) <==> (x < b && self.accept_states@.contains(rep@[x as int])),
            decreases nb - b,
        {
            let r = rep[b];
            let row = block_row(self, &sb, nb, r);
            if self.accept_states.contains(&r) {
                accept_states.insert(b);
            }
            transitions.push(row);
            b = b + 1;
            proof {
                assert(transitions@[b - 1]@ == row@);
            }
        }
        let mut alphabet: Vec<char> = Vec::new();
        let mut i: usize = 0;
        while i < self.alphabet.len()
            invariant
                i <= self.alphabet.len(),
                alphabet@ == self.alphabet@.take(i as int),
            decreases self.alphabet.len() - i,
        {
            alphabet.push(self.alphabet[i]);
            i = i + 1;
            proof {
                assert(alphabet@ =~= self.alphabet@.take(i as int));
            }
        }
        proof {
            assert(alphabet@ =~= self.alphabet@);
        }
        let m = DFA { start: sb[self.start], transitions, accept_states, state_count: nb, alphabet };
        proof {
            lemma_blocks_bound(sb@, nb);
            self.lemma_quotient(&m, sb@, rep@);
            assert forall|s: int| 0 <= s < self.state_count implies #[trigger] m.has_language_of(self, s) by {
                assert(m.same_language(sb@[s] as int, self, s));
            }
            assert forall|b: int| 0 <= b < m.state_count implies #[trigger] self.has_language_of(&m, b) by {
                let r = rep@[b] as int;
                assert(m.same_language(b, self, r));
                assert forall|w: Seq<char>| #[trigger] self.accepts_from(r, w) == m.accepts_from(b, w) by {
                    assert(m.accepts_from(b, w) == self.accepts_from(r, w));
                }
                assert(self.same_language(r, &m, b));
            }
            assert forall|a: int, b: int| #![trigger m.same_language(a, &m, b)] 0 <= a < m.state_count && 0 <= b < m.state_count && a != b
                implies !m.same_language(a, &m, b) by {
                let ra = rep@[a] as int;
                let rb = rep@[b] as int;
                if m.same_language(a, &m, b) {
                    assert(m.same_language(a, self, ra));
                    assert(m.same_language(b, self, rb));
                    assert forall|w: Seq<char>| #[trigger] self.accepts_from(ra, w) == self.accepts_from(rb, w) by {
                        assert(m.accepts_from(a, w) == self.accepts_from(ra, w));
                        assert(m.accepts_from(b, w) == self.accepts_from(rb, w));
                        assert(m.accepts_from(a, w) == m.accepts_from(b, w));
                    }
                    assert(self.same_language(ra, self, rb));
                    assert(sb@[ra] == sb@[rb]);
                }
            }
            assert forall|w: Seq<char>| #[trigger] m.accepts(w) == self.accepts(w) by {
                assert(m.same_language(sb@[self.start as int] as int, self, self.start as int));
                assert(m.accepts_from(m.start as int, w) == self.accepts_from(self.start as int, w));
            }
            // The automaton as the blocks determine it.
            assert forall|s: int| 0 <= s < self.state_count implies
                (m.accept_states@.contains(#[trigger] sb@[s]) <==> self.accept_states@.contains(s as usize)) by {
                let x = sb@[s] as int;
                assert(sb@[rep@[x] as int] == sb@[s]);
            }
            assert forall|s: int, c: char| 0 <= s < self.state_count implies #[trigger] lookup(m.table()[sb@[s] as int], c)
                == if self.alphabet@.contains(c) { Some(sb@[lookup(self.table()[s], c)->0 as int]) } else { None } by {
                let x = sb@[s] as int;
                let r = rep@[x] as int;
                assert(sb@[r] == sb@[s]);
                assert(m.table()[x] == m.transitions@[x]@);
                lemma_transition(self, s, c);
                lemma_transition(self, r, c);
                if self.alphabet@.contains(c) {
                    let t = lookup(self.table()[s], c)->0 as int;
                    let bt = sb@[t];
                    assert(compat(self.table(), sb@, blockset(sb@, bt), c));
                    assert(goes_into(self.table(), s as usize, c, blockset(sb@, bt)));
                    assert(goes_into(self.table(), r as usize, c, blockset(sb@, bt)));
                }
            }
        }
        m
    }
}

impl DFA {

    /// The subset construction: a complete deterministic automaton over `alphabet` that
    /// accepts the words over `alphabet` that `nfa` accepts. Its states are the ε-closed
    /// sets of NFA states in the order a breadth-first search from the closure of the start
    /// state meets them, followed, where a transition is missing, by a rejecting state
    /// that every missing transition leads to.
    pub fn from_nfa(nfa: &NFA, alphabet: &[char]) -> (dfa: DFA)
        requires
            nfa.wf(),
            nfa.start < nfa.state_count,
        ensures
            dfa.wf(),
            dfa.complete_over(alphabet@),
            dfa.alphabet@ == alphabet@,
            dfa.start == 0,
            forall|w: Seq<char>| #[trigger] dfa.accepts(w) <==> (word_over(w, alphabet@) && nfa.accepts(w)),
            exists|ss: Seq<Set<usize>>| #[trigger] subset_numbering(*nfa, alphabet@, dfa, ss),
            alphabet@.no_duplicates() ==> forall|q: int| 0 <= q < dfa.state_count ==> #[trigger] dfa.reachable(q),
    {
        let n = nfa.state_count;
        let ghost rows = nfa.rows();
        let init = single_flag(n, nfa.start);
        let start_set = nfa.closure_bits(init);
        let ghost cl0 = crate::nfa::eps_closure(rows, set![nfa.start]);
        proof {
            assert(crate::stateset::bits_set(start_set@) == cl0);
            let e = Seq::<crate::nfa::Step>::empty();
            assert(crate::nfa::is_path(rows, nfa.start as int, e));
            assert(crate::nfa::path_label(e) =~= Seq::<char>::empty());
            assert(crate::nfa::runs(rows, nfa.start as int, nfa.start as int, Seq::empty()));
            assert(set![nfa.start].contains(nfa.start));
            assert(cl0.contains(nfa.start));
        }
        if alphabet.len() == 0 {
            let start_accepts = flag_at(&start_set, nfa.accept);
            let mut accept_states: BTreeSet<usize> = BTreeSet::new();
            if start_accepts {
                accept_states.insert(0);
            }
            let mut transitions: Vec<Row> = Vec::new();
            transitions.push(Vec::new());
            let dfa = DFA { start: 0, transitions, accept_states, state_count: 1, alphabet: Vec::new() };
            proof {
                assert(alphabet@ =~= Seq::<char>::empty());
                assert(dfa.alphabet@ =~= alphabet@);
                assert forall|w: Seq<char>| #[trigger] dfa.accepts(w) <==> (word_over(w, alphabet@) && nfa.accepts(w)) by {
                    if w.len() == 0 {
                        crate::nfa::lemma_sim(rows, set![nfa.start], w, nfa.accept);
                        assert(set![nfa.start].contains(nfa.start));
                    } else {
                        assert(!alphabet@.contains(w[0]));
                        assert(dfa.table()[0] =~= Seq::<(char, usize)>::empty());
                    }
                }
                let ss = seq![cl0];
                assert(dfa.table()[0] =~= Seq::<(char, usize)>::empty());
                assert(subset_row(rows, dfa.table(), ss, alphabet@, 0));
                assert(!cl0.is_empty());
                assert(ss.no_duplicates());
                assert(subset_numbering(*nfa, alphabet@, dfa, ss));
                assert(run_from(dfa.table(), 0, Seq::<char>::empty()) == Some(0int));
                assert(dfa.reachable(0));
            }
            return dfa;
        }
        let (sets, mut trans, acc) = subset_states(nfa, alphabet, start_set);
        let ghost ss = sets_of(sets@);
        let ghost t0 = trans@;
        let sink = trans.len();
        let needs_sink = has_short_row(&trans, alphabet.len());
        let ghost ss2 = if needs_sink { ss.push(Set::<usize>::empty()) } else { ss };
        if needs_sink {
            add_sink(&mut trans, alphabet);
        }
        let state_count = trans.len();
        let mut alpha: Vec<char> = Vec::new();
        let mut i: usize = 0;
        while i < alphabet.len()
            invariant
                i <= alphabet.len(),
                alpha@ == alphabet@.take(i as int),
            decreases alphabet.len() - i,
        {
            alpha.push(alphabet[i]);
            i = i + 1;
            proof {
                assert(alpha@ =~= alphabet@.take(i as int));
            }
        }
        proof {
            assert(alpha@ =~= alphabet@);
        }
        let dfa = DFA { start: 0, transitions: trans, accept_states: acc, state_count, alphabet: alpha };
        proof {
            let tb = dfa.table();
            assert(ss2.len() == tb.len());
            assert forall|q: int| 0 <= q < tb.len() implies #[trigger] subset_row(rows, tb, ss2, alphabet@, q) by {
                if needs_sink {
                    if q < sink {
                        assert(subset_row_partial(rows, table_of(t0), ss, alphabet@, q));
                        assert(ss2[q] == ss[q]);
                        assert forall|c: char| {
                            &&& alphabet@.contains(c) ==> (#[trigger] lookup(tb[q], c) matches Some(j) && j < ss2.len()
                                && ss2[j as int] == crate::nfa::eps_closure(rows, crate::nfa::step_set(rows, ss2[q], c)))
                            &&& !alphabet@.contains(c) ==> lookup(tb[q], c) is None
                        } by {
                            assert(lookup(tb[q], c) == lookup(trans@[q]@, c));
                            if alphabet@.contains(c) {
                                let t = crate::nfa::eps_closure(rows, crate::nfa::step_set(rows, ss[q], c));
                                if t.is_empty() {
                                    assert(ss2[sink as int] =~= t);
                                } else {
                                    let j = lookup(table_of(t0)[q], c)->0;
                                    assert(ss2[j as int] == ss[j as int]);
                                }
                            }
                        }
                    } else {
                        assert(q == sink);
                        assert forall|c: char| {
                            &&& alphabet@.contains(c) ==> (#[trigger] lookup(tb[q], c) matches Some(j) && j < ss2.len()
                                && ss2[j as int] == crate::nfa::eps_closure(rows, crate::nfa::step_set(rows, ss2[q], c)))
                            &&& !alphabet@.contains(c) ==> lookup(tb[q], c) is None
                        } by {
                            assert(lookup(tb[q], c) == lookup(trans@[q]@, c));
                            assert(crate::nfa::step_set(rows, ss2[q], c) =~= Set::<usize>::empty());
                            assert(crate::nfa::eps_closure(rows, Set::<usize>::empty()) =~= Set::<usize>::empty());
                        }
                    }
                } else {
                    assert(subset_row_partial(rows, table_of(t0), ss, alphabet@, q));
                    assert(trans@[q]@.len() >= alphabet@.len());
                    lemma_full_row(trans@[q]@, alphabet@);
                    assert forall|c: char| {
                        &&& alphabet@.contains(c) ==> (#[trigger] lookup(tb[q], c) matches Some(j) && j < ss2.len()
                            && ss2[j as int] == crate::nfa::eps_closure(rows, crate::nfa::step_set(rows, ss2[q], c)))
                        &&& !alphabet@.contains(c) ==> lookup(tb[q], c) is None
                    } by {
                        assert(lookup(tb[q], c) == lookup(trans@[q]@, c));
                        if alphabet@.contains(c) {
                            assert(lookup(trans@[q]@, c) is Some);
                        }
                    }
                }
            }
            assert(ss2[0] == cl0);
            assert forall|w: Seq<char>| #[trigger] dfa.accepts(w) <==> (word_over(w, alphabet@) && nfa.accepts(w)) by {
                lemma_subset_run(rows, tb, ss2, alphabet@, 0, w);
                if word_over(w, alphabet@) {
                    let j = run_from(tb, 0, w)->0;
                    crate::nfa::lemma_sim(rows, set![nfa.start], w, nfa.accept);
                    assert(set![nfa.start].contains(nfa.start));
                    if j < sets@.len() {
                        assert(ss2[j] == ss[j]);
                    } else {
                        assert(!acc@.contains(j as usize));
                    }
                    if nfa.accepts(w) {
                        assert(crate::nfa::sim(rows, ss2[0], w).contains(nfa.accept));
                    }
                }
            }
            assert forall|q: int, k: int| 0 <= q < dfa.state_count && 0 <= k < dfa.transitions@[q]@.len()
                implies (#[trigger] dfa.transitions@[q]@[k]).1 < dfa.state_count
                    && dfa.alphabet@.contains(dfa.transitions@[q]@[k].0) by {
                if needs_sink && q < sink {
                    let e = dfa.transitions@[q]@[k];
                    if e.1 != sink || !alphabet@.contains(e.0) {
                        let j = choose|j: int| 0 <= j < t0[q]@.len() && t0[q]@[j] == e;
                    }
                } else if needs_sink {
                } else {
                }
            }
            assert forall|q: int, c: char| 0 <= q < dfa.state_count && alphabet@.contains(c)
                implies #[trigger] lookup(dfa.transitions@[q]@, c) is Some by {
                assert(subset_row(rows, tb, ss2, alphabet@, q));
                assert(tb[q] == dfa.transitions@[q]@);
            }
            if needs_sink {
                assert forall|q: int, c: char| 0 <= q < t0.len() implies #[trigger] lookup(tb[q], c) == if alphabet@.contains(c) {
                    match lookup(table_of(t0)[q], c) {
                        Some(j) => Some(j),
                        None => Some(t0.len() as usize),
                    }
                } else {
                    lookup(table_of(t0)[q], c)
                } by {
                    assert(tb[q] == dfa.transitions@[q]@);
                    assert(table_of(t0)[q] == t0[q]@);
                }
                assert forall|c: char| #[trigger] lookup(tb[t0.len() as int], c) == if alphabet@.contains(c) {
                    Some(t0.len() as usize)
                } else {
                    None
                } by {
                    assert(tb[t0.len() as int] == dfa.transitions@[t0.len() as int]@);
                }
            } else {
                assert(tb =~= table_of(t0));
            }
            lemma_from_nfa_numbering(*nfa, alphabet@, dfa, t0, ss, ss2, needs_sink, acc@);
        }
        dfa
    }
    /// The transition table as sequences.
    pub open spec fn table(&self) -> Seq<Seq<(char, usize)>> {
        table_of(self.transitions@)
    }

    /// Whether the automaton accepts `w`.
    pub open spec fn accepts(&self, w: Seq<char>) -> bool {
        self.accepts_from(self.start as int, w)
    }

    /// Whether the automaton, started in state `q`, accepts `w`.
    pub open spec fn accepts_from(&self, q: int, w: Seq<char>) -> bool {
        match run_from(self.table(), q, w) {
            Some(p) => self.accept_states@.contains(p as usize),
            None => false,
        }
    }

    /// State `p` of this automaton accepts the same words as state `q` of `other`.
    pub open spec fn same_language(&self, p: int, other: &DFA, q: int) -> bool {
        forall|w: Seq<char>| #[trigger] self.accepts_from(p, w) == other.accepts_from(q, w)
    }

    /// Some state of this automaton accepts the same words as state `q` of `other`.
    pub open spec fn has_language_of(&self, other: &DFA, q: int) -> bool {
        exists|p: int| 0 <= p < self.state_count && #[trigger] self.same_language(p, other, q)
    }

    /// One row per state, the start and accepting states among them, rows by increasing
    /// symbol, symbols from the alphabet, targets among the states.
    pub open spec fn wf(&self) -> bool {
        &&& self.transitions@.len() == self.state_count
        &&& self.start < self.state_count
        &&& forall|q: usize| self.accept_states@.contains(q) ==> q < self.state_count
        &&& forall|q: int| 0 <= q < self.state_count ==> sorted_row(#[trigger] self.transitions@[q]@)
        &&& forall|q: int, k: int| 0 <= q < self.state_count && 0 <= k < self.transitions@[q]@.len()
            ==> (#[trigger] self.transitions@[q]@[k]).1 < self.state_count
                && self.alphabet@.contains(self.transitions@[q]@[k].0)
    }

    /// Every state has a transition on every symbol of `a`.
    pub open spec fn complete_over(&self, a: Seq<char>) -> bool {
        forall|q: int, c: char| 0 <= q < self.state_count && a.contains(c)
            ==> #[trigger] lookup(self.transitions@[q]@, c) is Some
    }
}


/// The symbols increase strictly, so that none occurs twice.
pub open spec fn strictly_sorted(a: Seq<char>) -> bool {
    forall|i: int, j: int| 0 <= i < j < a.len() ==> a[i] < a[j]
}

/// Adds `c` to a strictly increasing sequence of symbols, unless it is there already.
pub(crate) fn insert_symbol(v: &mut Vec<char>, c: char)
    requires
        strictly_sorted(old(v)@),
    ensures
        strictly_sorted(final(v)@),
        forall|d: char| #[trigger] final(v)@.contains(d) <==> (old(v)@.contains(d) || d == c),
{
    let ghost o = v@;
    let mut i: usize = 0;
    while i < v.len() && v[i] < c
        invariant
            v@ == o,
            i <= v.len(),
            forall|j: int| 0 <= j < i ==> v@[j] < c,
        decreases v.len() - i,
    {
        i = i + 1;
    }
    if i < v.len() && v[i] == c {
        return;
    }
    v.insert(i, c);
    proof {
        assert(forall|j: int| i <= j < o.len() ==> o[j] > c) by {
            assert forall|j: int| i <= j < o.len() implies o[j] > c by {
                if j > i {
                    assert(o[i as int] < o[j]);
                }
            }
        }
        assert(strictly_sorted(v@)) by {
            assert forall|a: int, b: int| 0 <= a < b < v@.len() implies v@[a] < v@[b] by {
                if b < i {
                    assert(v@[a] == o[a] && v@[b] == o[b]);
                } else if b == i {
                    assert(v@[a] == o[a]);
                } else if a < i {
                    assert(v@[a] == o[a] && v@[b] == o[b - 1]);
                } else if a == i {
                    assert(v@[b] == o[b - 1]);
                } else {
                    assert(v@[a] == o[a - 1] && v@[b] == o[b - 1]);
                }
            }
        }
        assert forall|d: char| #[trigger] v@.contains(d) <==> (o.contains(d) || d == c) by {
            if v@.contains(d) {
                let k = choose|k: int| 0 <= k < v@.len() && v@[k] == d;
                if k < i {
                    assert(o[k] == d);
                } else if k > i {
                    assert(o[k - 1] == d);
                }
            }
            if o.contains(d) {
                let k = choose|k: int| 0 <= k < o.len() && o[k] == d;
                if k < i {
                    assert(v@[k] == d);
                } else {
                    assert(v@[k + 1] == d);
                }
            }
            if d == c {
                assert(v@[i as int] == c);
            }
        }
    }
}

/// The symbols of `a` and of `b`, each once, in increasing order.
pub fn merge_alphabets(a: &[char], b: &[char]) -> (m: Vec<char>)
    ensures
        strictly_sorted(m@),
        forall|c: char| #[trigger] m@.contains(c) <==> (a@.contains(c) || b@.contains(c)),
{
    let mut m: Vec<char> = Vec::new();
    let mut i: usize = 0;
    while i < a.len()
        invariant
            i <= a.len(),
            strictly_sorted(m@),
            forall|c: char| #[trigger] m@.contains(c) <==> a@.take(i as int).contains(c),
        decreases a.len() - i,
    {
        insert_symbol(&mut m, a[i]);
        proof {
            let now = a@.take(i + 1);
            let before = a@.take(i as int);
            assert forall|c: char| #[trigger] now.contains(c) <==> (before.contains(c) || c == a@[i as int]) by {
                if now.contains(c) {
                    let k = choose|k: int| 0 <= k < now.len() && now[k] == c;
                    if k < i {
                        assert(before[k] == c);
                    }
                }
                if before.contains(c) {
                    let k = choose|k: int| 0 <= k < before.len() && before[k] == c;
                    assert(now[k] == c);
                }
                assert(now[i as int] == a@[i as int]);
            }
        }
        i = i + 1;
    }
    let mut j: usize = 0;
    while j < b.len()
        invariant
            i == a.len(),
            j <= b.len(),
            strictly_sorted(m@),
            forall|c: char| #[trigger] m@.contains(c) <==> (a@.take(i as int).contains(c) || b@.take(j as int).contains(c)),
        decreases b.len() - j,
    {
        insert_symbol(&mut m, b[j]);
        proof {
            let now = b@.take(j + 1);
            let before = b@.take(j as int);
            assert forall|c: char| #[trigger] now.contains(c) <==> (before.contains(c) || c == b@[j as int]) by {
                if now.contains(c) {
                    let k = choose|k: int| 0 <= k < now.len() && now[k] == c;
                    if k < j {
                        assert(before[k] == c);
                    }
                }
                if before.contains(c) {
                    let k = choose|k: int| 0 <= k < before.len() && before[k] == c;
                    assert(now[k] == c);
                }
                assert(now[j as int] == b@[j as int]);
            }
        }
        j = j + 1;
    }
    proof {
        assert(a@.take(i as int) =~= a@);
        assert(b@.take(j as int) =~= b@);
    }
    m
}

/// A copy of a row.
fn copy_row(r: &Row) -> (c: Row)
    ensures
        c@ == r@,
{
    let mut c: Row = Vec::new();
    let mut i: usize = 0;
    while i < r.len()
        invariant
            i <= r.len(),
            c@ == r@.take(i as int),
        decreases r.len() - i,
    {
        c.push(r[i]);
        i = i + 1;
        proof {
            assert(c@ =~= r@.take(i as int));
        }
    }
    proof {
        assert(r@.take(i as int) =~= r@);
    }
    c
}

/// A copy of a transition table.
fn copy_rows(t: &Vec<Row>) -> (c: Vec<Row>)
    ensures
        c@.len() == t@.len(),
        forall|q: int| 0 <= q < t@.len() ==> #[trigger] c@[q]@ == t@[q]@,
{
    let mut c: Vec<Row> = Vec::new();
    let mut q: usize = 0;
    while q < t.len()
        invariant
            q <= t.len(),
            c@.len() == q,
            forall|p: int| 0 <= p < q ==> #[trigger] c@[p]@ == t@[p]@,
        decreases t.len() - q,
    {
        c.push(copy_row(&t[q]));
        q = q + 1;
    }
    c
}

/// A copy of a sequence of symbols.
fn copy_symbols(a: &[char]) -> (c: Vec<char>)
    ensures
        c@ == a@,
{
    let mut c: Vec<char> = Vec::new();
    let mut i: usize = 0;
    while i < a.len()
        invariant
            i <= a.len(),
            c@ == a@.take(i as int),
        decreases a.len() - i,
    {
        c.push(a[i]);
        i = i + 1;
        proof {
            assert(c@ =~= a@.take(i as int));
        }
    }
    proof {
        assert(a@.take(i as int) =~= a@);
    }
    c
}

/// Whether two sequences of symbols are equal.
fn same_symbols(a: &[char], b: &[char]) -> (r: bool)
    ensures
        r == (a@ == b@),
{
    if a.len() != b.len() {
        return false;
    }
    let mut i: usize = 0;
    while i < a.len()
        invariant
            a.len() == b.len(),
            i <= a.len(),
            forall|j: int| 0 <= j < i ==> a@[j] == b@[j],
        decreases a.len() - i,
    {
        if a[i] != b[i] {
            return false;
        }
        i = i + 1;
    }
    proof {
        assert(a@ =~= b@);
    }
    true
}

/// A rejecting state whose every transition leads back to it accepts nothing.
proof fn lemma_trap(d: &DFA, q: int, w: Seq<char>)
    requires
        0 <= q < d.table().len(),
        !d.accept_states@.contains(q as usize),
        forall|c: char| #[trigger] lookup(d.table()[q], c) is Some ==> lookup(d.table()[q], c)->0 == q,
    ensures
        !d.accepts_from(q, w),
    decreases w.len(),
{
    if w.len() > 0 {
        lemma_trap(d, q, w.drop_first());
    }
}

/// Adding a trap state for the missing transitions on the symbols of `a` keeps the
/// language of every old state.
proof fn lemma_completed(e: &DFA, d: &DFA, a: Seq<char>, q: int, w: Seq<char>)
    requires
        e.wf(),
        0 <= q < e.state_count,
        d.table().len() == e.state_count + 1,
        forall|p: int, c: char| 0 <= p < e.state_count ==> #[trigger] lookup(d.table()[p], c) == if a.contains(c) {
            match lookup(e.table()[p], c) {
                Some(j) => Some(j),
                None => Some(e.state_count),
            }
        } else {
            lookup(e.table()[p], c)
        },
        forall|c: char| #[trigger] lookup(d.table()[e.state_count as int], c) is Some
            ==> lookup(d.table()[e.state_count as int], c)->0 == e.state_count,
        forall|x: usize| #[trigger] d.accept_states@.contains(x) <==> e.accept_states@.contains(x),
    ensures
        d.accepts_from(q, w) == e.accepts_from(q, w),
    decreases w.len(),
{
    if w.len() > 0 {
        let c = w[0];
        lemma_transition(e, q, c);
        assert(e.table().len() == e.state_count);
        match lookup(e.table()[q], c) {
            Some(j) => {
                lemma_completed(e, d, a, j as int, w.drop_first());
            },
            None => {
                if a.contains(c) {
                    lemma_trap(d, e.state_count as int, w.drop_first());
                }
            },
        }
    }
}

/// The pairs of a state of an automaton with `n1` states and one with `n2` states.
pub open spec fn state_pairs(n1: usize, n2: usize) -> Set<(usize, usize)> {
    Set::new(|p: (usize, usize)| p.0 < n1 && p.1 < n2)
}

/// There are finitely many pairs of states.
proof fn lemma_state_pairs_finite(n1: usize, n2: usize)
    ensures
        state_pairs(n1, n2).finite(),
    decreases n1,
{
    if n1 == 0 {
        assert(state_pairs(n1, n2) =~= Set::<(usize, usize)>::empty());
    } else {
        let m = (n1 - 1) as usize;
        lemma_state_pairs_finite(m, n2);
        let range = vstd::set_lib::set_int_range(0, n2 as int);
        vstd::set_lib::lemma_int_range(0, n2 as int);
        let f = |i: int| (m, i as usize);
        let row = range.map(f);
        vstd::set_lib::lemma_map_size_bound(range, row, f);
        assert(state_pairs(n1, n2) =~= state_pairs(m, n2).union(row)) by {
            assert forall|p: (usize, usize)| state_pairs(n1, n2).contains(p) implies state_pairs(m, n2).union(row).contains(p) by {
                if p.0 == m {
                    assert(range.contains(p.1 as int));
                    assert(f(p.1 as int) == p);
                }
            }
        }
    }
}

/// The pair of the targets of the transitions on `c` out of the two states of `p`.
pub open spec fn step_pair(d1: &DFA, d2: &DFA, p: (usize, usize), c: char) -> (usize, usize) {
    (lookup(d1.table()[p.0 as int], c)->0, lookup(d2.table()[p.1 as int], c)->0)
}

/// Some word over `a` leads the two automata from their start states to the states of `p`.
pub open spec fn reached_pair(d1: &DFA, d2: &DFA, a: Seq<char>, p: (usize, usize)) -> bool {
    exists|w: Seq<char>| #[trigger] word_over(w, a)
        && run_from(d1.table(), d1.start as int, w) == Some(p.0 as int)
        && run_from(d2.table(), d2.start as int, w) == Some(p.1 as int)
}

/// The pair `p` is in `seen` or queued at or after `head`.
pub open spec fn known(seen: Set<(usize, usize)>, queue: Seq<(usize, usize)>, head: int, p: (usize, usize)) -> bool {
    seen.contains(p) || exists|k: int| head <= k < queue.len() && queue[k] == p
}

/// The run on `w` followed by `c`.
proof fn lemma_run_snoc(table: Seq<Seq<(char, usize)>>, q: int, w: Seq<char>, c: char)
    ensures
        run_from(table, q, w.push(c)) == match run_from(table, q, w) {
            Some(p) => if 0 <= p < table.len() {
                match lookup(table[p], c) {
                    Some(t) => Some(t as int),
                    None => None,
                }
            } else {
                None
            },
            None => None,
        },
    decreases w.len(),
{
    if w.len() == 0 {
        assert(w.push(c)[0] == c);
        assert(w.push(c).drop_first() =~= Seq::<char>::empty());
        if 0 <= q < table.len() {
            match lookup(table[q], c) {
                Some(t) => {
                    assert(run_from(table, t as int, Seq::<char>::empty()) == Some(t as int));
                },
                None => {},
            }
        }
    } else {
        assert(w.push(c)[0] == w[0]);
        assert(w.push(c).drop_first() =~= w.drop_first().push(c));
        if 0 <= q < table.len() {
            match lookup(table[q], w[0]) {
                Some(t) => {
                    lemma_run_snoc(table, t as int, w.drop_first(), c);
                },
                None => {},
            }
        }
    }
}

/// From a set of pairs closed under the transitions on the symbols of `a`, whose pairs
/// agree on acceptance, the two automata accept the same words.
proof fn lemma_closed_agree(d1: &DFA, d2: &DFA, a: Seq<char>, seen: Set<(usize, usize)>, p: (usize, usize), w: Seq<char>)
    requires
        d1.wf(),
        d2.wf(),
        d1.complete_over(a),
        d2.complete_over(a),
        d1.alphabet@ == a,
        d2.alphabet@ == a,
        forall|r: (usize, usize)| #[trigger] seen.contains(r) ==> r.0 < d1.state_count && r.1 < d2.state_count
            && (d1.accept_states@.contains(r.0) <==> d2.accept_states@.contains(r.1)),
        forall|r: (usize, usize), c: char| seen.contains(r) && a.contains(c) ==> #[trigger] seen.contains(step_pair(d1, d2, r, c)),
        seen.contains(p),
    ensures
        d1.accepts_from(p.0 as int, w) == d2.accepts_from(p.1 as int, w),
    decreases w.len(),
{
    if w.len() > 0 {
        let c = w[0];
        lemma_transition(d1, p.0 as int, c);
        lemma_transition(d2, p.1 as int, c);
        if a.contains(c) {
            assert(seen.contains(step_pair(d1, d2, p, c)));
            lemma_closed_agree(d1, d2, a, seen, step_pair(d1, d2, p, c), w.drop_first());
        }
    }
}

impl DFA {
    /// Whether completing over `a` adds a state: some row has fewer entries than `a` has
    /// symbols, or the automaton's alphabet is not `a`.
    pub open spec fn needs_sink(&self, a: Seq<char>) -> bool {
        ||| exists|q: int| 0 <= q < self.state_count && (#[trigger] self.transitions@[q]@).len() < a.len()
        ||| self.alphabet@ != a
    }

    /// This automaton made complete over `alphabet`, which holds the symbols of its
    /// transitions: a copy where every state has a transition on every symbol and the
    /// alphabets are equal; otherwise a rejecting state is added that every missing
    /// transition leads to, and that leads to itself.
    fn complete(&self, alphabet: &[char]) -> (d: DFA)
        requires
            self.wf(),
            forall|q: int, k: int| 0 <= q < self.state_count && 0 <= k < self.transitions@[q]@.len()
                ==> alphabet@.contains((#[trigger] self.transitions@[q]@[k]).0),
        ensures
            d.wf(),
            d.complete_over(alphabet@),
            d.alphabet@ == alphabet@,
            d.start == self.start,
            d.accept_states@ == self.accept_states@,
            d.state_count == if self.needs_sink(alphabet@) { self.state_count + 1 } else { self.state_count as int },
            forall|q: int, c: char| 0 <= q < self.state_count ==> #[trigger] lookup(d.transitions@[q]@, c) == match lookup(self.transitions@[q]@, c) {
                Some(j) => Some(j),
                None => if alphabet@.contains(c) { Some(self.state_count) } else { None },
            },
            d.state_count == self.state_count + 1 ==> forall|c: char| #[trigger] lookup(d.transitions@[self.state_count as int]@, c)
                == if alphabet@.contains(c) { Some(self.state_count) } else { None },
            forall|w: Seq<char>| #[trigger] d.accepts(w) == self.accepts(w),
    {
        let needs_sink = has_short_row(&self.transitions, alphabet.len());
        if !needs_sink && same_symbols(&self.alphabet, alphabet) {
            let d = DFA {
                start: self.start,
                transitions: copy_rows(&self.transitions),
                accept_states: self.accept_states.clone(),
                state_count: self.state_count,
                alphabet: copy_symbols(alphabet),
            };
            proof {
                assert(d.table() =~= self.table());
                assert forall|q: int, c: char| 0 <= q < d.state_count && alphabet@.contains(c)
                    implies #[trigger] lookup(d.transitions@[q]@, c) is Some by {
                    assert(d.transitions@[q]@ == self.transitions@[q]@);
                    assert(self.transitions@[q]@.len() >= alphabet@.len());
                    assert forall|k: int| 0 <= k < self.transitions@[q]@.len() implies alphabet@.contains(#[trigger] self.transitions@[q]@[k].0) by {
                        assert(alphabet@.contains(self.transitions@[q]@[k].0));
                    }
                    lemma_full_row(self.transitions@[q]@, alphabet@);
                }
                assert forall|q: int, c: char| 0 <= q < self.state_count implies #[trigger] lookup(d.transitions@[q]@, c) == match lookup(self.transitions@[q]@, c) {
                    Some(j) => Some(j),
                    None => if alphabet@.contains(c) { Some(self.state_count) } else { None },
                } by {
                    assert(d.transitions@[q]@ == self.transitions@[q]@);
                    if alphabet@.contains(c) {
                        assert(lookup(d.transitions@[q]@, c) is Some);
                    }
                }
                assert forall|w: Seq<char>| #[trigger] d.accepts(w) == self.accepts(w) by {
                    assert(d.accepts_from(d.start as int, w) == self.accepts_from(self.start as int, w));
                }
            }
            return d;
        }
        let mut trans = copy_rows(&self.transitions);
        let ghost t0 = trans@;
        add_sink(&mut trans, alphabet);
        let n = self.state_count;
        let count = trans.len();
        let d = DFA {
            start: self.start,
            transitions: trans,
            accept_states: self.accept_states.clone(),
            state_count: count,
            alphabet: copy_symbols(alphabet),
        };
        proof {
            assert(d.table().len() == n + 1);
            assert forall|p: int, c: char| 0 <= p < n implies #[trigger] lookup(d.table()[p], c) == if alphabet@.contains(c) {
                match lookup(self.table()[p], c) {
                    Some(j) => Some(j),
                    None => Some(n),
                }
            } else {
                lookup(self.table()[p], c)
            } by {
                assert(d.table()[p] == d.transitions@[p]@);
                assert(t0[p]@ == self.transitions@[p]@);
                assert(self.table()[p] == self.transitions@[p]@);
            }
            assert forall|c: char| #[trigger] lookup(d.table()[n as int], c) is Some implies lookup(d.table()[n as int], c)->0 == n by {
                assert(d.table()[n as int] == d.transitions@[n as int]@);
            }
            assert forall|q: int, c: char| 0 <= q < n implies #[trigger] lookup(d.transitions@[q]@, c) == match lookup(self.transitions@[q]@, c) {
                Some(j) => Some(j),
                None => if alphabet@.contains(c) { Some(n) } else { None },
            } by {
                assert(t0[q]@ == self.transitions@[q]@);
            }
            assert forall|q: int, k: int| 0 <= q < d.state_count && 0 <= k < d.transitions@[q]@.len()
                implies (#[trigger] d.transitions@[q]@[k]).1 < d.state_count && d.alphabet@.contains(d.transitions@[q]@[k].0) by {
                let e = d.transitions@[q]@[k];
                if !alphabet@.contains(e.0) || e.1 != n {
                    let j = choose|j: int| 0 <= j < t0[q]@.len() && t0[q]@[j] == e;
                    assert(self.transitions@[q]@[j] == e);
                }
            }
            assert forall|q: int, c: char| 0 <= q < d.state_count && alphabet@.contains(c)
                implies #[trigger] lookup(d.transitions@[q]@, c) is Some by {
                assert(d.table()[q] == d.transitions@[q]@);
            }
            assert forall|w: Seq<char>| #[trigger] d.accepts(w) == self.accepts(w) by {
                lemma_completed(self, &d, alphabet@, self.start as int, w);
            }
        }
        d
    }

    /// Whether the two automata accept the same words: both are completed over the union
    /// of their alphabets, and the pairs of states reachable together are searched for
    /// one that accepts in one automaton and not in the other.
    pub fn is_equivalent_to(&self, other: &DFA) -> (eq: bool)
        requires
            self.wf(),
            other.wf(),
        ensures
            eq == forall|w: Seq<char>| #[trigger] self.accepts(w) == other.accepts(w),
    {
        let alphabet = merge_alphabets(&self.alphabet, &other.alphabet);
        let d1 = self.complete(&alphabet);
        let d2 = other.complete(&alphabet);
        let ghost a = alphabet@;
        let ghost pairs = state_pairs(d1.state_count, d2.state_count);
        proof {
            lemma_state_pairs_finite(d1.state_count, d2.state_count);
            assert(reached_pair(&d1, &d2, a, (d1.start, d2.start))) by {
                let w = Seq::<char>::empty();
                assert(word_over(w, a));
            }
        }
        let mut visited: BTreeSet<(usize, usize)> = BTreeSet::new();
        let mut queue: Vec<(usize, usize)> = Vec::new();
        queue.push((d1.start, d2.start));
        let mut head: usize = 0;
        proof {
            assert(queue@[0] == (d1.start, d2.start));
        }
        while head < queue.len()
            invariant
                d1.wf(),
                d2.wf(),
                d1.complete_over(a),
                d2.complete_over(a),
                d1.alphabet@ == a,
                d2.alphabet@ == a,
                alphabet@ == a,
                pairs == state_pairs(d1.state_count, d2.state_count),
                pairs.finite(),
                visited@.finite(),
                visited@.subset_of(pairs),
                head <= queue@.len(),
                forall|k: int| 0 <= k < queue@.len() ==> (#[trigger] queue@[k]).0 < d1.state_count && queue@[k].1 < d2.state_count
                    && reached_pair(&d1, &d2, a, queue@[k]),
                forall|r: (usize, usize)| #[trigger] visited@.contains(r)
                    ==> (d1.accept_states@.contains(r.0) <==> d2.accept_states@.contains(r.1)),
                forall|r: (usize, usize), c: char| visited@.contains(r) && a.contains(c)
                    ==> #[trigger] known(visited@, queue@, head as int, step_pair(&d1, &d2, r, c)),
                known(visited@, queue@, head as int, (d1.start, d2.start)),
                forall|w: Seq<char>| #[trigger] d1.accepts(w) == self.accepts(w),
                forall|w: Seq<char>| #[trigger] d2.accepts(w) == other.accepts(w),
            decreases pairs.len() - visited@.len(), queue@.len() - head,
        {
            let (s1, s2) = queue[head];
            let ghost v0 = visited@;
            let ghost q0 = queue@;
            let ghost h0 = head as int;
            head = head + 1;
            proof {
                vstd::set_lib::lemma_len_subset(v0, pairs);
            }
            if !visited.insert((s1, s2)) {
                proof {
                    assert forall|r: (usize, usize), c: char| visited@.contains(r) && a.contains(c)
                        implies #[trigger] known(visited@, queue@, head as int, step_pair(&d1, &d2, r, c)) by {
                        assert(known(v0, q0, h0, step_pair(&d1, &d2, r, c)));
                    }
                }
                continue;
            }
            let acc1 = d1.accept_states.contains(&s1);
            let acc2 = d2.accept_states.contains(&s2);
            if acc1 != acc2 {
                proof {
                    assert(reached_pair(&d1, &d2, a, (s1, s2)));
                    let w = choose|w: Seq<char>| #[trigger] word_over(w, a)
                        && run_from(d1.table(), d1.start as int, w) == Some(s1 as int)
                        && run_from(d2.table(), d2.start as int, w) == Some(s2 as int);
                    assert(d1.accepts(w) != d2.accepts(w));
                    assert(d1.accepts(w) == self.accepts(w));
                    assert(d2.accepts(w) == other.accepts(w));
                }
                return false;
            }
            let ghost q1 = queue@;
            let mut i: usize = 0;
            while i < alphabet.len()
                invariant
                    d1.wf(),
                    d2.wf(),
                    d1.complete_over(a),
                    d2.complete_over(a),
                    d1.alphabet@ == a,
                    d2.alphabet@ == a,
                    alphabet@ == a,
                    s1 < d1.state_count,
                    s2 < d2.state_count,
                    reached_pair(&d1, &d2, a, (s1, s2)),
                    i <= alphabet.len(),
                    queue@.len() == q1.len() + i,
                    forall|k: int| 0 <= k < q1.len() ==> #[trigger] queue@[k] == q1[k],
                    forall|k: int| 0 <= k < i ==> #[trigger] queue@[q1.len() + k] == step_pair(&d1, &d2, (s1, s2), a[k]),
                    forall|k: int| 0 <= k < q1.len() ==> (#[trigger] q1[k]).0 < d1.state_count && q1[k].1 < d2.state_count
                        && reached_pair(&d1, &d2, a, q1[k]),
                    forall|k: int| 0 <= k < queue@.len() ==> (#[trigger] queue@[k]).0 < d1.state_count && queue@[k].1 < d2.state_count
                        && reached_pair(&d1, &d2, a, queue@[k]),
                decreases alphabet.len() - i,
            {
                let c = alphabet[i];
                proof {
                    lemma_transition(&d1, s1 as int, c);
                    lemma_transition(&d2, s2 as int, c);
                    assert(a.contains(c));
                }
                let t1 = match row_get(&d1.transitions[s1], c) {
                    Some(t) => t,
                    None => {
                        proof {
                            assert(false);
                        }
                        0
                    },
                };
                let t2 = match row_get(&d2.transitions[s2], c) {
                    Some(t) => t,
                    None => {
                        proof {
                            assert(false);
                        }
                        0
                    },
                };
                proof {
                    let w = choose|w: Seq<char>| #[trigger] word_over(w, a)
                        && run_from(d1.table(), d1.start as int, w) == Some(s1 as int)
                        && run_from(d2.table(), d2.start as int, w) == Some(s2 as int);
                    lemma_run_snoc(d1.table(), d1.start as int, w, c);
                    lemma_run_snoc(d2.table(), d2.start as int, w, c);
                    let wc = w.push(c);
                    assert(word_over(wc, a)) by {
                        assert forall|j: int| 0 <= j < wc.len() implies a.contains(#[trigger] wc[j]) by {
                            if j < w.len() {
                                assert(wc[j] == w[j]);
                            }
                        }
                    }
                    assert(reached_pair(&d1, &d2, a, (t1, t2)));
                }
                queue.push((t1, t2));
                i = i + 1;
                proof {
                    assert forall|k: int| 0 <= k < queue@.len() implies (#[trigger] queue@[k]).0 < d1.state_count && queue@[k].1 < d2.state_count
                        && reached_pair(&d1, &d2, a, queue@[k]) by {
                        if k < q1.len() {
                            assert(queue@[k] == q1[k]);
                        } else if k < queue@.len() - 1 {
                            assert(queue@[k] == queue@[q1.len() + (k - q1.len())]);
                        }
                    }
                }
            }
            proof {
                let r0 = (s1, s2);
                assert(visited@ == v0.insert(r0));
                assert forall|r: (usize, usize), c: char| visited@.contains(r) && a.contains(c)
                    implies #[trigger] known(visited@, queue@, head as int, step_pair(&d1, &d2, r, c)) by {
                    if r == r0 {
                        let k = choose|k: int| 0 <= k < a.len() && a[k] == c;
                        assert(queue@[q1.len() + k] == step_pair(&d1, &d2, r0, c));
                    } else {
                        assert(known(v0, q0, h0, step_pair(&d1, &d2, r, c)));
                        if !v0.contains(step_pair(&d1, &d2, r, c)) {
                            let k = choose|k: int| h0 <= k < q0.len() && q0[k] == step_pair(&d1, &d2, r, c);
                            if k > h0 {
                                assert(queue@[k] == q0[k]);
                            }
                        }
                    }
                }
                assert(known(visited@, queue@, head as int, (d1.start, d2.start))) by {
                    assert(known(v0, q0, h0, (d1.start, d2.start)));
                    if !v0.contains((d1.start, d2.start)) {
                        let k = choose|k: int| h0 <= k < q0.len() && q0[k] == (d1.start, d2.start);
                        if k > h0 {
                            assert(queue@[k] == q0[k]);
                        }
                    }
                }
                assert(pairs.contains(r0));
                vstd::set_lib::lemma_len_subset(visited@, pairs);
            }
        }
        proof {
            let seen = visited@;
            assert forall|r: (usize, usize)| #[trigger] seen.contains(r) implies r.0 < d1.state_count && r.1 < d2.state_count
                && (d1.accept_states@.contains(r.0) <==> d2.accept_states@.contains(r.1)) by {
                assert(pairs.contains(r));
            }
            assert forall|r: (usize, usize), c: char| seen.contains(r) && a.contains(c) implies #[trigger] seen.contains(step_pair(&d1, &d2, r, c)) by {
                assert(known(seen, queue@, head as int, step_pair(&d1, &d2, r, c)));
            }
            assert forall|w: Seq<char>| #[trigger] self.accepts(w) == other.accepts(w) by {
                lemma_closed_agree(&d1, &d2, a, seen, (d1.start, d2.start), w);
                assert(d1.accepts(w) == self.accepts(w));
                assert(d2.accepts(w) == other.accepts(w));
            }
        }
        true
    }
}


/// The line that shows the transition `e` out of state `from`.
pub open spec fn transition_line(from: int, e: (char, usize)) -> Seq<char> {
    "\n  "@ + crate::nfa::q_name(from as nat) + " --"@ + seq![e.0] + "--> "@ + crate::nfa::q_name(e.1 as nat)
}

impl DFA {
    /// The names of the states of `v`, in its order, separated by `, `.
    pub open spec fn name_list(v: Seq<usize>) -> Seq<char>
        decreases v.len(),
    {
        if v.len() == 0 {
            Seq::empty()
        } else if v.len() == 1 {
            crate::nfa::q_name(v[0] as nat)
        } else {
            Self::name_list(v.drop_last()) + ", "@ + crate::nfa::q_name(v.last() as nat)
        }
    }

    /// The lines of the first `k` transitions out of state `s`.
    pub open spec fn row_lines(&self, s: int, k: int) -> Seq<char>
        decreases k,
    {
        if k <= 0 {
            Seq::empty()
        } else {
            self.row_lines(s, k - 1) + transition_line(s, self.transitions@[s]@[k - 1])
        }
    }

    /// The lines of the transitions out of the states below `n`, state by state, each
    /// row by increasing symbol.
    pub open spec fn edge_lines(&self, n: int) -> Seq<char>
        decreases n,
    {
        if n <= 0 {
            Seq::empty()
        } else {
            self.edge_lines(n - 1) + self.row_lines(n - 1, self.transitions@[n - 1]@.len() as int)
        }
    }

    /// The text that shows the automaton: its size, start state and accepting states,
    /// then one line per transition.
    pub open spec fn text(&self) -> Seq<char> {
        "DFA: "@ + crate::text::decimal(self.state_count as nat) + " 个状态, 开始: q"@
            + crate::text::decimal(self.start as nat) + ", 接受: {"@
            + Self::name_list(crate::stateset::in_order(self.accept_states@)) + "}"@
            + self.edge_lines(self.state_count as int)
    }

    /// The automaton as text.
    pub fn display_string(&self) -> (s: String)
        requires
            self.transitions@.len() >= self.state_count,
        ensures
            s@ == self.text(),
    {
        let mut s = String::from_str("DFA: ");
        push_decimal(&mut s, self.state_count);
        s.append(" 个状态, 开始: q");
        push_decimal(&mut s, self.start);
        s.append(", 接受: {");
        let ghost head = s@;
        let acc = crate::stateset::sorted_states(&self.accept_states);
        let mut i: usize = 0;
        while i < acc.len()
            invariant
                i <= acc@.len(),
                s@ == head + Self::name_list(acc@.take(i as int)),
            decreases acc.len() - i,
        {
            if i > 0 {
                s.append(", ");
            }
            push_char(&mut s, 'q');
            push_decimal(&mut s, acc[i]);
            i = i + 1;
            proof {
                let t = acc@.take(i as int);
                assert(t.drop_last() =~= acc@.take(i - 1));
                assert(t.last() == acc@[i - 1]);
                if i == 1 {
                    assert(acc@.take(0) =~= Seq::<usize>::empty());
                }
                assert(s@ =~= head + Self::name_list(t));
            }
        }
        proof {
            assert(acc@.take(i as int) =~= acc@);
        }
        s.append("}");
        let ghost head2 = s@;
        let mut st: usize = 0;
        while st < self.state_count
            invariant
                self.transitions@.len() >= self.state_count,
                st <= self.state_count,
                s@ == head2 + self.edge_lines(st as int),
            decreases self.state_count - st,
        {
            let mut k: usize = 0;
            while k < self.transitions[st].len()
                invariant
                    self.transitions@.len() >= self.state_count,
                    st < self.state_count,
                    k <= self.transitions@[st as int]@.len(),
                    s@ == head2 + self.edge_lines(st as int) + self.row_lines(st as int, k as int),
                decreases self.transitions@[st as int]@.len() - k,
            {
                let (c, to) = self.transitions[st][k];
                let ghost before = s@;
                s.append("\n  q");
                push_decimal(&mut s, st);
                s.append(" --");
                push_char(&mut s, c);
                s.append("--> q");
                push_decimal(&mut s, to);
                proof {
                    reveal_strlit("\n  q");
                    reveal_strlit("\n  ");
                    reveal_strlit("--> q");
                    reveal_strlit("--> ");
                    assert(s@ =~= before + transition_line(st as int, (c, to)));
                }
                k = k + 1;
            }
            st = st + 1;
        }
        s
    }
}

/// The line for the transition out of state `q` on `c` into state `t`, as the text of an
/// automaton shows it.
pub open spec fn shown_transition(q: nat, c: char, t: nat) -> Seq<char> {
    "\n  q"@ + crate::text::decimal(q) + " --"@ + seq![c] + "--> q"@ + crate::text::decimal(t)
}

/// A list of states is written as their names `q` and number, in the list's order,
/// separated by `, `: nothing for no state, the name alone for one, and one more name
/// after a comma for each further state.
pub proof fn law_name_list(v: Seq<usize>, x: usize)
    ensures
        DFA::name_list(Seq::empty()) == Seq::<char>::empty(),
        DFA::name_list(seq![x]) == seq!['q'] + crate::text::decimal(x as nat),
        v.len() > 0 ==> DFA::name_list(v.push(x)) == DFA::name_list(v) + ", q"@ + crate::text::decimal(x as nat),
{
    reveal_strlit(", q");
    reveal_strlit(", ");
    let w = v.push(x);
    assert(w.drop_last() =~= v);
    if v.len() > 0 {
        assert(w.len() > 1);
        assert(DFA::name_list(w) == DFA::name_list(v) + ", "@ + crate::nfa::q_name(x as nat));
        assert(DFA::name_list(v) + ", "@ + (seq!['q'] + crate::text::decimal(x as nat))
            =~= DFA::name_list(v) + ", q"@ + crate::text::decimal(x as nat));
    }
}

proof fn lemma_row_shows(d: &DFA, q: int, m: int, k: int)
    requires
        0 <= q < d.transitions@.len(),
        0 <= k < m <= d.transitions@[q]@.len(),
    ensures
        crate::text::occurs(
            shown_transition(q as nat, d.transitions@[q]@[k].0, d.transitions@[q]@[k].1 as nat),
            d.row_lines(q, m),
        ),
    decreases m,
{
    let e = d.transitions@[q]@[m - 1];
    if k < m - 1 {
        lemma_row_shows(d, q, m - 1, k);
        crate::text::lemma_occurs_within(
            shown_transition(q as nat, d.transitions@[q]@[k].0, d.transitions@[q]@[k].1 as nat),
            d.row_lines(q, m - 1),
            transition_line(q, e),
        );
    } else {
        reveal_strlit("\n  q");
        reveal_strlit("\n  ");
        reveal_strlit("--> q");
        reveal_strlit("--> ");
        assert(transition_line(q, e) =~= shown_transition(q as nat, e.0, e.1 as nat));
        crate::text::lemma_occurs_within(transition_line(q, e), d.row_lines(q, m - 1), transition_line(q, e));
    }
}

proof fn lemma_edges_show(d: &DFA, n: int, q: int, k: int)
    requires
        n <= d.transitions@.len(),
        0 <= q < n,
        0 <= k < d.transitions@[q]@.len(),
    ensures
        crate::text::occurs(
            shown_transition(q as nat, d.transitions@[q]@[k].0, d.transitions@[q]@[k].1 as nat),
            d.edge_lines(n),
        ),
    decreases n,
{
    let x = shown_transition(q as nat, d.transitions@[q]@[k].0, d.transitions@[q]@[k].1 as nat);
    let row = d.row_lines(n - 1, d.transitions@[n - 1]@.len() as int);
    if q < n - 1 {
        lemma_edges_show(d, n - 1, q, k);
        crate::text::lemma_occurs_within(x, d.edge_lines(n - 1), row);
    } else {
        lemma_row_shows(d, q, d.transitions@[q]@.len() as int, k);
        crate::text::lemma_occurs_within(x, d.edge_lines(n - 1), row);
    }
}

/// The transition lines of a text come state by state, in the order of the states, and
/// within a state in the order of its row: the lines of the first `k + 1` transitions of a
/// state are those of the first `k` and then the line of transition `k`, and the lines of
/// the first `n + 1` states are those of the first `n` and then all lines of state `n`.
pub proof fn law_dfa_lines_in_order(d: DFA, q: int, k: int, n: int)
    requires
        0 <= q < d.transitions@.len(),
        0 <= k < d.transitions@[q]@.len(),
        0 <= n < d.transitions@.len(),
    ensures
        d.row_lines(q, k + 1) == d.row_lines(q, k)
            + shown_transition(q as nat, d.transitions@[q]@[k].0, d.transitions@[q]@[k].1 as nat),
        d.row_lines(q, 0) == Seq::<char>::empty(),
        d.edge_lines(n + 1) == d.edge_lines(n) + d.row_lines(n, d.transitions@[n]@.len() as int),
        d.edge_lines(0) == Seq::<char>::empty(),
{
    reveal_strlit("\n  q");
    reveal_strlit("\n  ");
    reveal_strlit("--> q");
    reveal_strlit("--> ");
    let e = d.transitions@[q]@[k];
    assert(transition_line(q, e) =~= shown_transition(q as nat, e.0, e.1 as nat));
}

/// The text of an automaton names its number of states and its start state in base ten,
/// then lists its accepting states, each once, in increasing order, between braces, and
/// after that shows every transition of every state on a line of its own.
pub proof fn law_dfa_text(d: DFA)
    requires
        d.transitions@.len() >= d.state_count,
    ensures
        ({
            let head = "DFA: "@ + crate::text::decimal(d.state_count as nat) + " 个状态, 开始: q"@
                + crate::text::decimal(d.start as nat) + ", 接受: {"@;
            let v = crate::stateset::in_order(d.accept_states@);
            let shown = head + DFA::name_list(v) + "}"@;
            let rest = d.text().subrange(shown.len() as int, d.text().len() as int);
            &&& crate::stateset::increasing(v)
            &&& v.to_set() == d.accept_states@
            &&& d.text() == shown + rest
            &&& forall|q: int, k: int| 0 <= q < d.state_count && 0 <= k < d.transitions@[q]@.len()
                ==> crate::text::occurs(
                    #[trigger] shown_transition(q as nat, d.transitions@[q]@[k].0, d.transitions@[q]@[k].1 as nat),
                    rest,
                )
        }),
{
    crate::stateset::lemma_in_order(&d.accept_states);
    let head = "DFA: "@ + crate::text::decimal(d.state_count as nat) + " 个状态, 开始: q"@
        + crate::text::decimal(d.start as nat) + ", 接受: {"@;
    let v = crate::stateset::in_order(d.accept_states@);
    let shown = head + DFA::name_list(v) + "}"@;
    let edges = d.edge_lines(d.state_count as int);
    assert(d.text() =~= shown + edges);
    assert(d.text().subrange(shown.len() as int, d.text().len() as int) =~= edges);
    assert forall|q: int, k: int| 0 <= q < d.state_count && 0 <= k < d.transitions@[q]@.len()
        implies crate::text::occurs(
            #[trigger] shown_transition(q as nat, d.transitions@[q]@[k].0, d.transitions@[q]@[k].1 as nat),
            edges,
        ) by {
        lemma_edges_show(&d, d.state_count as int, q, k);
    }
}


/// The number of symbols of `a` on which the move of `s` closes to a nonempty set: the
/// transitions the subset construction gives the state of `s` before completion.
pub open spec fn live_count(rows: Seq<Seq<crate::nfa::Step>>, s: Set<usize>, a: Seq<char>) -> nat {
    a.to_set().filter(|c: char| !crate::nfa::eps_closure(rows, crate::nfa::step_set(rows, s, c)).is_empty()).len()
}

/// `ss` are the sets of states of `nfa` that the states of `d` stand for, numbered as the
/// subset construction over `a` meets them: state 0 stands for the ε-closure of the start
/// state; each transition on a symbol of `a` leads to the state of the closure of the move;
/// the other states with nonempty sets are numbered in the order in which reading the rows
/// meets them; and after them comes, where some state has a transition on fewer symbols
/// than `a` has entries, a last state for the empty set.
pub open spec fn subset_numbering(nfa: NFA, a: Seq<char>, d: DFA, ss: Seq<Set<usize>>) -> bool {
    let rows = nfa.rows();
    let tb = d.table();
    let m = if ss.len() > 0 && ss.last().is_empty() { ss.len() - 1 } else { ss.len() as int };
    &&& ss.len() == d.state_count
    &&& ss.len() > 0
    &&& ss[0] == crate::nfa::eps_closure(rows, set![nfa.start])
    &&& ss.no_duplicates()
    &&& forall|q: int| 0 <= q < m ==> !(#[trigger] ss[q]).is_empty()
    &&& forall|q: int| 0 <= q < ss.len() ==> #[trigger] subset_row(rows, tb, ss, a, q)
    &&& forall|x: usize| d.accept_states@.contains(x) <==> (x < ss.len() && ss[x as int].contains(nfa.accept))
    &&& numbered_in_order(tb, a, m)
    &&& (m < ss.len() <==> exists|q: int| 0 <= q < m && #[trigger] live_count(rows, ss[q], a) < a.len())
}

/// Leads to the states below `m` being the same, so is their numbering.
proof fn lemma_numbering_kept(t0: Seq<Seq<(char, usize)>>, tb: Seq<Seq<(char, usize)>>, a: Seq<char>, m: int)
    requires
        numbered_in_order(t0, a, m),
        forall|p: int, i: int, q: int| 0 <= q < m ==> #[trigger] leads_to(tb, a, p, i, q) == leads_to(t0, a, p, i, q),
    ensures
        numbered_in_order(tb, a, m),
{
    assert forall|q: int, p: int, i: int| 0 <= q < m && #[trigger] first_lead(tb, a, q, p, i) implies first_lead(t0, a, q, p, i) by {
        assert(leads_to(tb, a, p, i, q) == leads_to(t0, a, p, i, q));
        assert forall|p2: int, i2: int| #[trigger] leads_to(t0, a, p2, i2, q) implies !before(p2, i2, p, i) by {
            assert(leads_to(tb, a, p2, i2, q) == leads_to(t0, a, p2, i2, q));
        }
    }
    assert forall|q: int, p: int, i: int| 0 <= q < m && #[trigger] first_lead(t0, a, q, p, i) implies first_lead(tb, a, q, p, i) by {
        assert(leads_to(tb, a, p, i, q) == leads_to(t0, a, p, i, q));
        assert forall|p2: int, i2: int| #[trigger] leads_to(tb, a, p2, i2, q) implies !before(p2, i2, p, i) by {
            assert(leads_to(tb, a, p2, i2, q) == leads_to(t0, a, p2, i2, q));
        }
    }
    assert forall|q: int| 1 <= q < m implies #[trigger] met_earlier(tb, a, q) by {
        assert(met_earlier(t0, a, q));
        let (p, i) = choose|p: int, i: int| p < q && #[trigger] first_lead(t0, a, q, p, i);
        assert(first_lead(tb, a, q, p, i));
    }
}

/// A row of the subset construction before completion has one transition for each
/// symbol on which the move closes to a nonempty set.
proof fn lemma_live_row(rows: Seq<Seq<crate::nfa::Step>>, table: Seq<Seq<(char, usize)>>, ss: Seq<Set<usize>>, a: Seq<char>, q: int)
    requires
        0 <= q < table.len(),
        q < ss.len(),
        sorted_row(table[q]),
        subset_row_partial(rows, table, ss, a, q),
    ensures
        table[q].len() == live_count(rows, ss[q], a),
{
    let r = table[q];
    let keys = r.map_values(|p: (char, usize)| p.0);
    assert(keys.no_duplicates()) by {
        assert forall|i: int, j: int| 0 <= i < keys.len() && 0 <= j < keys.len() && i != j implies keys[i] != keys[j] by {
            if i < j {
                assert(r[i].0 < r[j].0);
            } else {
                assert(r[j].0 < r[i].0);
            }
        }
    }
    keys.unique_seq_to_set();
    let live = a.to_set().filter(|c: char| !crate::nfa::eps_closure(rows, crate::nfa::step_set(rows, ss[q], c)).is_empty());
    assert(keys.to_set() =~= live) by {
        assert forall|c: char| keys.to_set().contains(c) implies live.contains(c) by {
            lemma_lookup(r, c);
            let k = choose|k: int| 0 <= k < keys.len() && keys[k] == c;
            assert(r[k].0 == c);
            assert(lookup(r, c) is Some);
            assert(lookup(table[q], c) is Some);
            assert(a.contains(c));
            assert(a.to_set().contains(c));
            assert(!crate::nfa::eps_closure(rows, crate::nfa::step_set(rows, ss[q], c)).is_empty());
        }
        assert forall|c: char| live.contains(c) implies keys.to_set().contains(c) by {
            lemma_lookup(r, c);
            assert(a.to_set().contains(c));
            assert(a.contains(c));
            assert(lookup(table[q], c) is Some);
            let j = lookup(r, c)->0;
            let k = choose|k: int| 0 <= k < r.len() && r[k] == (c, j);
            assert(keys[k] == c);
        }
    }
}

/// A rejecting state added for missing transitions changes no transition to another state.
proof fn lemma_sink_leads(t0: Seq<Seq<(char, usize)>>, tb: Seq<Seq<(char, usize)>>, a: Seq<char>)
    requires
        t0.len() < usize::MAX,
        tb.len() == t0.len() + 1,
        forall|q: int, c: char| 0 <= q < t0.len() ==> #[trigger] lookup(tb[q], c) == if a.contains(c) {
            match lookup(t0[q], c) {
                Some(j) => Some(j),
                None => Some(t0.len() as usize),
            }
        } else {
            lookup(t0[q], c)
        },
        forall|c: char| #[trigger] lookup(tb[t0.len() as int], c) == if a.contains(c) { Some(t0.len() as usize) } else { None },
    ensures
        forall|p: int, i: int, q: int| 0 <= q < t0.len() ==> #[trigger] leads_to(tb, a, p, i, q) == leads_to(t0, a, p, i, q),
{
    assert forall|p: int, i: int, q: int| 0 <= q < t0.len() implies #[trigger] leads_to(tb, a, p, i, q) == leads_to(t0, a, p, i, q) by {
        if 0 <= p < t0.len() && 0 <= i < a.len() {
            assert(a.contains(a[i]));
            assert(lookup(tb[p], a[i]) == match lookup(t0[p], a[i]) {
                Some(j) => Some(j),
                None => Some(t0.len() as usize),
            });
        } else if p == t0.len() && 0 <= i < a.len() {
            assert(a.contains(a[i]));
            assert(lookup(tb[p], a[i]) == Some(t0.len() as usize));
        }
    }
}

impl DFA {
    /// State `q` is reached from the start state by some word.
    pub open spec fn reachable(&self, q: int) -> bool {
        exists|w: Seq<char>| #[trigger] run_from(self.table(), self.start as int, w) == Some(q)
    }
}

/// The states numbered in order, each first met in the row of an earlier one, are
/// reached from state 0.
proof fn lemma_numbered_reachable(d: &DFA, m: int, q: int)
    requires
        d.start == 0,
        d.table().len() >= m,
        m <= usize::MAX,
        numbered_in_order(d.table(), d.alphabet@, m),
        0 <= q < m,
    ensures
        d.reachable(q),
    decreases q,
{
    if q == 0 {
        assert(run_from(d.table(), 0, Seq::<char>::empty()) == Some(0int));
    } else {
        assert(met_earlier(d.table(), d.alphabet@, q));
        let (p, i) = choose|p: int, i: int| p < q && #[trigger] first_lead(d.table(), d.alphabet@, q, p, i);
        lemma_numbered_reachable(d, m, p);
        let w = choose|w: Seq<char>| #[trigger] run_from(d.table(), d.start as int, w) == Some(p);
        lemma_run_snoc(d.table(), 0, w, d.alphabet@[i]);
        assert(run_from(d.table(), d.start as int, w.push(d.alphabet@[i])) == Some(q));
    }
}


/// A row with strictly increasing symbols and fewer entries than `a`, which repeats no
/// symbol, lacks some symbol of `a`.
proof fn lemma_short_row_misses(r: Seq<(char, usize)>, a: Seq<char>) -> (c: char)
    requires
        sorted_row(r),
        a.no_duplicates(),
        r.len() < a.len(),
    ensures
        a.contains(c),
        lookup(r, c) is None,
{
    let keys = r.map_values(|p: (char, usize)| p.0);
    assert(keys.no_duplicates()) by {
        assert forall|i: int, j: int| 0 <= i < keys.len() && 0 <= j < keys.len() && i != j implies keys[i] != keys[j] by {
            if i < j {
                assert(r[i].0 < r[j].0);
            } else {
                assert(r[j].0 < r[i].0);
            }
        }
    }
    keys.unique_seq_to_set();
    a.unique_seq_to_set();
    if forall|c: char| a.contains(c) ==> lookup(r, c) is Some {
        assert(a.to_set().subset_of(keys.to_set())) by {
            assert forall|c: char| a.to_set().contains(c) implies keys.to_set().contains(c) by {
                lemma_lookup(r, c);
                let k = choose|k: int| 0 <= k < r.len() && r[k] == (c, lookup(r, c)->0);
                assert(keys[k] == c);
            }
        }
        vstd::set_lib::lemma_len_subset(a.to_set(), keys.to_set());
        assert(false);
    }
    choose|c: char| a.contains(c) && lookup(r, c) is None
}

/// The subset construction numbers its states as `subset_numbering` says, and over an
/// alphabet without repetition reaches every state.
proof fn lemma_from_nfa_numbering(
    nfa: NFA,
    a: Seq<char>,
    d: DFA,
    t0: Seq<Row>,
    ss: Seq<Set<usize>>,
    ss2: Seq<Set<usize>>,
    needs_sink: bool,
    acc: Set<usize>,
)
    requires
        ss.len() == t0.len(),
        ss.len() > 0,
        ss.no_duplicates(),
        forall|q: int| 0 <= q < ss.len() ==> !(#[trigger] ss[q]).is_empty(),
        ss[0] == crate::nfa::eps_closure(nfa.rows(), set![nfa.start]),
        forall|q: int| 0 <= q < t0.len() ==> sorted_row(#[trigger] t0[q]@),
        forall|q: int| 0 <= q < t0.len() ==> #[trigger] subset_row_partial(nfa.rows(), table_of(t0), ss, a, q),
        numbered_in_order(table_of(t0), a, ss.len() as int),
        needs_sink == exists|q: int| 0 <= q < t0.len() && (#[trigger] t0[q])@.len() < a.len(),
        ss2 == if needs_sink { ss.push(Set::<usize>::empty()) } else { ss },
        d.state_count == ss2.len(),
        d.state_count <= usize::MAX,
        d.start == 0,
        d.alphabet@ == a,
        d.table().len() == ss2.len(),
        !needs_sink ==> d.table() == table_of(t0),
        needs_sink ==> forall|q: int, c: char| 0 <= q < t0.len() ==> #[trigger] lookup(d.table()[q], c) == if a.contains(c) {
            match lookup(table_of(t0)[q], c) {
                Some(j) => Some(j),
                None => Some(t0.len() as usize),
            }
        } else {
            lookup(table_of(t0)[q], c)
        },
        needs_sink ==> forall|c: char| #[trigger] lookup(d.table()[t0.len() as int], c) == if a.contains(c) {
            Some(t0.len() as usize)
        } else {
            None
        },
        forall|q: int| 0 <= q < ss2.len() ==> #[trigger] subset_row(nfa.rows(), d.table(), ss2, a, q),
        d.accept_states@ == acc,
        forall|x: usize| acc.contains(x) <==> (x < ss.len() && ss[x as int].contains(nfa.accept)),
    ensures
        subset_numbering(nfa, a, d, ss2),
        a.no_duplicates() ==> forall|q: int| 0 <= q < d.state_count ==> #[trigger] d.reachable(q),
{
    let rows = nfa.rows();
    let tb = d.table();
    let m = ss.len() as int;
    assert(m == if ss2.len() > 0 && ss2.last().is_empty() { ss2.len() - 1 } else { ss2.len() as int });
    assert(ss2.no_duplicates()) by {
        if needs_sink {
            assert forall|i: int, j: int| 0 <= i < ss2.len() && 0 <= j < ss2.len() && i != j implies ss2[i] != ss2[j] by {
                if i < ss.len() && j < ss.len() {
                    assert(ss2[i] == ss[i] && ss2[j] == ss[j]);
                } else if i < ss.len() {
                    assert(ss2[i] == ss[i] && !ss[i].is_empty());
                } else {
                    assert(ss2[j] == ss[j] && !ss[j].is_empty());
                }
            }
        }
    }
    assert forall|q: int| 0 <= q < m implies !(#[trigger] ss2[q]).is_empty() by {
        assert(ss2[q] == ss[q]);
    }
    assert forall|x: usize| d.accept_states@.contains(x) <==> (x < ss2.len() && ss2[x as int].contains(nfa.accept)) by {
        if x < ss.len() {
            assert(ss2[x as int] == ss[x as int]);
        }
    }
    if needs_sink {
        assert(t0.len() < usize::MAX);
        lemma_sink_leads(table_of(t0), tb, a);
        lemma_numbering_kept(table_of(t0), tb, a, m);
    } else {
        assert(tb == table_of(t0));
    }
    assert(needs_sink <==> exists|q: int| 0 <= q < m && #[trigger] live_count(rows, ss2[q], a) < a.len()) by {
        if needs_sink {
            let q = choose|q: int| 0 <= q < t0.len() && (#[trigger] t0[q])@.len() < a.len();
            lemma_live_row(rows, table_of(t0), ss, a, q);
            assert(ss2[q] == ss[q]);
        }
        if exists|q: int| 0 <= q < m && #[trigger] live_count(rows, ss2[q], a) < a.len() {
            let q = choose|q: int| 0 <= q < m && #[trigger] live_count(rows, ss2[q], a) < a.len();
            lemma_live_row(rows, table_of(t0), ss, a, q);
            assert(ss2[q] == ss[q]);
            assert(t0[q]@.len() < a.len());
        }
    }
    if a.no_duplicates() {
        assert forall|q: int| 0 <= q < d.state_count implies #[trigger] d.reachable(q) by {
            if q < m {
                lemma_numbered_reachable(&d, m, q);
            } else {
                let q0 = choose|q0: int| 0 <= q0 < t0.len() && (#[trigger] t0[q0])@.len() < a.len();
                let c = lemma_short_row_misses(t0[q0]@, a);
                assert(table_of(t0)[q0] == t0[q0]@);
                assert(lookup(tb[q0], c) == Some(t0.len() as usize));
                lemma_numbered_reachable(&d, m, q0);
                let w = choose|w: Seq<char>| #[trigger] run_from(tb, d.start as int, w) == Some(q0);
                lemma_run_snoc(tb, 0, w, c);
                assert(run_from(tb, d.start as int, w.push(c)) == Some(q));
            }
        }
    }
}


/// What a transition of a well-formed automaton is: on a symbol of the alphabet, to a
/// state; in a complete automaton, present for every symbol of the alphabet.
pub proof fn lemma_transition_facts(d: &DFA, q: int, c: char)
    requires
        d.wf(),
        0 <= q < d.state_count,
    ensures
        d.table()[q] == d.transitions@[q]@,
        lookup(d.table()[q], c) is Some ==> d.alphabet@.contains(c) && lookup(d.table()[q], c)->0 < d.state_count,
        d.complete_over(d.alphabet@) && d.alphabet@.contains(c) ==> lookup(d.table()[q], c) is Some,
{
    lemma_transition(d, q, c);
}

/// Reading `c` first: the run goes on from the target of the transition on `c`.
pub proof fn lemma_accepts_step_facts(d: &DFA, q: int, c: char, w: Seq<char>)
    requires
        0 <= q < d.table().len(),
    ensures
        d.accepts_from(q, seq![c] + w) == match lookup(d.table()[q], c) {
            Some(t) => d.accepts_from(t as int, w),
            None => false,
        },
{
    lemma_accepts_step(d, q, c, w);
}

} // verus!
