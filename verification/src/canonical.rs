use vstd::prelude::*;

use crate::dfa::DFA;

verus! {

/// `m` is the minimal automaton of `d`, as minimisation gives: a state for each block of
/// states of `d` that accept the same words, no two of its states alike.
pub open spec fn minimal_automaton(d: DFA, m: DFA) -> bool {
    &&& m.wf()
    &&& m.complete_over(m.alphabet@)
    &&& m.alphabet@ == d.alphabet@
    &&& forall|w: Seq<char>| #[trigger] m.accepts(w) == d.accepts(w)
    &&& forall|s: int| 0 <= s < d.state_count ==> #[trigger] m.has_language_of(&d, s)
    &&& forall|b: int| 0 <= b < m.state_count ==> #[trigger] d.has_language_of(&m, b)
    &&& forall|x: int, y: int| #![trigger m.same_language(x, &m, y)] 0 <= x < m.state_count && 0 <= y < m.state_count && x != y
        ==> !m.same_language(x, &m, y)
}

/// `f` maps the states of `m1` one to one onto those of `m2`: the start state to the start
/// state, accepting states to accepting states, and each transition to a transition on
/// the same symbol.
pub open spec fn isomorphic_by(m1: DFA, m2: DFA, f: spec_fn(int) -> int) -> bool {
    &&& m1.state_count == m2.state_count
    &&& f(m1.start as int) == m2.start
    &&& forall|q: int| 0 <= q < m1.state_count ==> 0 <= #[trigger] f(q) < m2.state_count
    &&& forall|q: int, r: int| 0 <= q < m1.state_count && 0 <= r < m1.state_count && #[trigger] f(q) == #[trigger] f(r) ==> q == r
    &&& forall|q: int| 0 <= q < m1.state_count
        ==> (m1.accept_states@.contains(q as usize) <==> m2.accept_states@.contains(#[trigger] f(q) as usize))
    &&& forall|q: int, c: char| 0 <= q < m1.state_count ==> #[trigger] crate::dfa::lookup(m2.table()[f(q)], c)
        == match crate::dfa::lookup(m1.table()[q], c) {
            Some(t) => Some(f(t as int) as usize),
            None => None,
        }
}


/// A run on `w + v` is the run on `w` followed by the run on `v`.
proof fn lemma_run_concat(table: Seq<Seq<(char, usize)>>, q: int, w: Seq<char>, v: Seq<char>)
    ensures
        crate::dfa::run_from(table, q, w + v) == match crate::dfa::run_from(table, q, w) {
            Some(p) => crate::dfa::run_from(table, p, v),
            None => None,
        },
    decreases w.len(),
{
    if w.len() == 0 {
        assert(w + v =~= v);
    } else {
        assert((w + v)[0] == w[0]);
        assert((w + v).drop_first() =~= w.drop_first() + v);
        if 0 <= q < table.len() {
            match crate::dfa::lookup(table[q], w[0]) {
                Some(t) => {
                    lemma_run_concat(table, t as int, w.drop_first(), v);
                },
                None => {},
            }
        }
    }
}

/// A run of a well-formed automaton stays among its states and reads symbols of its
/// alphabet.
proof fn lemma_run_in_range(d: &DFA, q: int, w: Seq<char>)
    requires
        d.wf(),
        0 <= q < d.state_count,
        crate::dfa::run_from(d.table(), q, w) is Some,
    ensures
        0 <= crate::dfa::run_from(d.table(), q, w)->0 < d.state_count,
        crate::dfa::word_over(w, d.alphabet@),
    decreases w.len(),
{
    if w.len() > 0 {
        crate::dfa::lemma_transition_facts(d, q, w[0]);
        let t = crate::dfa::lookup(d.table()[q], w[0])->0;
        lemma_run_in_range(d, t as int, w.drop_first());
        assert forall|i: int| 0 <= i < w.len() implies d.alphabet@.contains(#[trigger] w[i]) by {
            if i > 0 {
                assert(w[i] == w.drop_first()[i - 1]);
            }
        }
    }
}

/// A complete automaton has a run on every word over its alphabet.
proof fn lemma_run_total(d: &DFA, q: int, w: Seq<char>)
    requires
        d.wf(),
        d.complete_over(d.alphabet@),
        0 <= q < d.state_count,
        crate::dfa::word_over(w, d.alphabet@),
    ensures
        crate::dfa::run_from(d.table(), q, w) is Some,
    decreases w.len(),
{
    if w.len() > 0 {
        crate::dfa::lemma_transition_facts(d, q, w[0]);
        assert(d.alphabet@.contains(w[0]));
        let t = crate::dfa::lookup(d.table()[q], w[0])->0;
        assert forall|i: int| 0 <= i < w.drop_first().len() implies d.alphabet@.contains(#[trigger] w.drop_first()[i]) by {
            assert(w.drop_first()[i] == w[i + 1]);
        }
        lemma_run_total(d, t as int, w.drop_first());
    }
}

/// The state a word leads to accepts what, appended to the word, the automaton accepts.
proof fn lemma_residual(d: &DFA, w: Seq<char>, p: int, v: Seq<char>)
    requires
        crate::dfa::run_from(d.table(), d.start as int, w) == Some(p),
    ensures
        d.accepts_from(p, v) == d.accepts(w + v),
{
    lemma_run_concat(d.table(), d.start as int, w, v);
}

/// Every state of the minimal automaton of an automaton that reaches all its states is
/// reached.
proof fn lemma_minimal_reachable(d: &DFA, m: &DFA, b: int)
    requires
        d.wf(),
        forall|q: int| 0 <= q < d.state_count ==> #[trigger] d.reachable(q),
        minimal_automaton(*d, *m),
        0 <= b < m.state_count,
    ensures
        m.reachable(b),
{
    assert(d.has_language_of(m, b));
    let p = choose|p: int| 0 <= p < d.state_count && #[trigger] d.same_language(p, m, b);
    assert(d.reachable(p));
    let w = choose|w: Seq<char>| #[trigger] crate::dfa::run_from(d.table(), d.start as int, w) == Some(p);
    lemma_run_in_range(d, d.start as int, w);
    lemma_run_total(m, m.start as int, w);
    let b2 = crate::dfa::run_from(m.table(), m.start as int, w)->0;
    lemma_run_in_range(m, m.start as int, w);
    assert forall|v: Seq<char>| #[trigger] m.accepts_from(b2, v) == m.accepts_from(b, v) by {
        lemma_residual(m, w, b2, v);
        lemma_residual(d, w, p, v);
        assert(m.accepts(w + v) == d.accepts(w + v));
        assert(d.accepts_from(p, v) == m.accepts_from(b, v));
    }
    assert(m.same_language(b2, m, b));
    if b2 != b {
        assert(!m.same_language(b2, m, b));
    }
    assert(crate::dfa::run_from(m.table(), m.start as int, w) == Some(b));
}

/// A state of one of two automata that accept the same words, reached by a word over an
/// alphabet the other is complete over, has a state of the other with the same language.
proof fn lemma_counterpart(m1: &DFA, m2: &DFA, b: int)
    requires
        m1.wf(),
        m2.wf(),
        m2.complete_over(m2.alphabet@),
        m1.alphabet@ == m2.alphabet@,
        forall|w: Seq<char>| #[trigger] m1.accepts(w) == m2.accepts(w),
        0 <= b < m1.state_count,
        m1.reachable(b),
    ensures
        m2.has_language_of(m1, b),
{
    let w = choose|w: Seq<char>| #[trigger] crate::dfa::run_from(m1.table(), m1.start as int, w) == Some(b);
    lemma_run_in_range(m1, m1.start as int, w);
    lemma_run_total(m2, m2.start as int, w);
    let b2 = crate::dfa::run_from(m2.table(), m2.start as int, w)->0;
    lemma_run_in_range(m2, m2.start as int, w);
    assert forall|v: Seq<char>| #[trigger] m2.accepts_from(b2, v) == m1.accepts_from(b, v) by {
        lemma_residual(m2, w, b2, v);
        lemma_residual(m1, w, b, v);
        assert(m1.accepts(w + v) == m2.accepts(w + v));
    }
    assert(m2.same_language(b2, m1, b));
}

/// A one-to-one map from `0..n1` into `0..n2` needs `n1 <= n2`.
proof fn lemma_injection_bound(f: spec_fn(int) -> int, n1: int, n2: int)
    requires
        0 <= n1,
        0 <= n2,
        forall|q: int| 0 <= q < n1 ==> 0 <= #[trigger] f(q) < n2,
        forall|q: int, r: int| 0 <= q < n1 && 0 <= r < n1 && #[trigger] f(q) == #[trigger] f(r) ==> q == r,
    ensures
        n1 <= n2,
{
    let dom = vstd::set_lib::set_int_range(0, n1);
    let rng = vstd::set_lib::set_int_range(0, n2);
    vstd::set_lib::lemma_int_range(0, n1);
    vstd::set_lib::lemma_int_range(0, n2);
    let img = dom.map(f);
    assert(vstd::relations::injective_on(f, dom));
    vstd::set_lib::lemma_map_size(dom, img, f);
    assert(img.subset_of(rng)) by {
        assert forall|y: int| img.contains(y) implies rng.contains(y) by {
            let x = choose|x: int| dom.contains(x) && f(x) == y;
        }
    }
    vstd::set_lib::lemma_len_subset(img, rng);
}

/// Minimisation gives the canonical automaton of a language: two complete automata over
/// one alphabet that accept the same words and reach each of their states minimise to
/// automata that differ only in the numbering of their states.
pub proof fn law_minimal_automaton_unique(d1: DFA, d2: DFA, m1: DFA, m2: DFA)
    requires
        d1.wf(),
        d2.wf(),
        d1.alphabet@ == d2.alphabet@,
        forall|w: Seq<char>| #[trigger] d1.accepts(w) == d2.accepts(w),
        forall|q: int| 0 <= q < d1.state_count ==> #[trigger] d1.reachable(q),
        forall|q: int| 0 <= q < d2.state_count ==> #[trigger] d2.reachable(q),
        minimal_automaton(d1, m1),
        minimal_automaton(d2, m2),
    ensures
        exists|f: spec_fn(int) -> int| #[trigger] isomorphic_by(m1, m2, f),
{
    let n1 = m1.state_count as int;
    let n2 = m2.state_count as int;
    assert forall|w: Seq<char>| #[trigger] m1.accepts(w) == m2.accepts(w) by {
        assert(m1.accepts(w) == d1.accepts(w));
        assert(m2.accepts(w) == d2.accepts(w));
        assert(d1.accepts(w) == d2.accepts(w));
    }
    assert forall|w: Seq<char>| #[trigger] m2.accepts(w) == m1.accepts(w) by {
        assert(m1.accepts(w) == m2.accepts(w));
    }
    assert forall|b: int| 0 <= b < n1 implies #[trigger] m2.has_language_of(&m1, b) by {
        lemma_minimal_reachable(&d1, &m1, b);
        lemma_counterpart(&m1, &m2, b);
    }
    assert forall|b: int| 0 <= b < n2 implies #[trigger] m1.has_language_of(&m2, b) by {
        lemma_minimal_reachable(&d2, &m2, b);
        lemma_counterpart(&m2, &m1, b);
    }
    let f = |b: int| choose|b2: int| 0 <= b2 < n2 && #[trigger] m2.same_language(b2, &m1, b);
    let g = |b: int| choose|b1: int| 0 <= b1 < n1 && #[trigger] m1.same_language(b1, &m2, b);
    // Languages of the chosen states.
    assert forall|b: int| 0 <= b < n1 implies 0 <= #[trigger] f(b) < n2 && m2.same_language(f(b), &m1, b) by {
        assert(m2.has_language_of(&m1, b));
    }
    assert forall|b: int| 0 <= b < n2 implies 0 <= #[trigger] g(b) < n1 && m1.same_language(g(b), &m2, b) by {
        assert(m1.has_language_of(&m2, b));
    }
    // One to one, both ways.
    assert forall|q: int, r: int| 0 <= q < n1 && 0 <= r < n1 && #[trigger] f(q) == #[trigger] f(r) implies q == r by {
        assert(m2.same_language(f(q), &m1, q));
        assert(m2.same_language(f(r), &m1, r));
        assert forall|v: Seq<char>| #[trigger] m1.accepts_from(q, v) == m1.accepts_from(r, v) by {
            assert(m2.accepts_from(f(q), v) == m1.accepts_from(q, v));
            assert(m2.accepts_from(f(r), v) == m1.accepts_from(r, v));
        }
        assert(m1.same_language(q, &m1, r));
    }
    assert forall|q: int, r: int| 0 <= q < n2 && 0 <= r < n2 && #[trigger] g(q) == #[trigger] g(r) implies q == r by {
        assert(m1.same_language(g(q), &m2, q));
        assert(m1.same_language(g(r), &m2, r));
        assert forall|v: Seq<char>| #[trigger] m2.accepts_from(q, v) == m2.accepts_from(r, v) by {
            assert(m1.accepts_from(g(q), v) == m2.accepts_from(q, v));
            assert(m1.accepts_from(g(r), v) == m2.accepts_from(r, v));
        }
        assert(m2.same_language(q, &m2, r));
    }
    lemma_injection_bound(f, n1, n2);
    lemma_injection_bound(g, n2, n1);
    // A state of `m2` with a given language is the only one.
    assert forall|b: int, x: int| 0 <= b < n1 && 0 <= x < n2 && #[trigger] m2.same_language(x, &m1, b) implies f(b) == x by {
        assert(m2.same_language(f(b), &m1, b));
        assert forall|v: Seq<char>| #[trigger] m2.accepts_from(f(b), v) == m2.accepts_from(x, v) by {
            assert(m2.accepts_from(f(b), v) == m1.accepts_from(b, v));
            assert(m2.accepts_from(x, v) == m1.accepts_from(b, v));
        }
        assert(m2.same_language(f(b), &m2, x));
    }
    // The start states.
    assert(m2.same_language(m2.start as int, &m1, m1.start as int)) by {
        assert forall|v: Seq<char>| #[trigger] m2.accepts_from(m2.start as int, v) == m1.accepts_from(m1.start as int, v) by {
            assert(m1.accepts(v) == m2.accepts(v));
        }
    }
    assert(f(m1.start as int) == m2.start);
    // Accepting states.
    assert forall|q: int| 0 <= q < n1 implies (m1.accept_states@.contains(q as usize) <==> m2.accept_states@.contains(#[trigger] f(q) as usize)) by {
        assert(m2.same_language(f(q), &m1, q));
        assert(m2.accepts_from(f(q), Seq::empty()) == m1.accepts_from(q, Seq::empty()));
    }
    // Transitions.
    assert forall|q: int, c: char| 0 <= q < n1 implies #[trigger] crate::dfa::lookup(m2.table()[f(q)], c)
        == match crate::dfa::lookup(m1.table()[q], c) {
            Some(t) => Some(f(t as int) as usize),
            None => None,
        } by {
        let q2 = f(q);
        assert(m2.same_language(q2, &m1, q));
        crate::dfa::lemma_transition_facts(&m1, q, c);
        crate::dfa::lemma_transition_facts(&m2, q2, c);
        if m1.alphabet@.contains(c) {
            let t = crate::dfa::lookup(m1.table()[q], c)->0 as int;
            let t2 = crate::dfa::lookup(m2.table()[q2], c)->0 as int;
            assert forall|v: Seq<char>| #[trigger] m2.accepts_from(t2, v) == m1.accepts_from(t, v) by {
                crate::dfa::lemma_accepts_step_facts(&m1, q, c, v);
                crate::dfa::lemma_accepts_step_facts(&m2, q2, c, v);
                assert(m2.accepts_from(q2, seq![c] + v) == m1.accepts_from(q, seq![c] + v));
            }
            assert(m2.same_language(t2, &m1, t));
            assert(f(t) == t2);
        }
    }
    assert(isomorphic_by(m1, m2, f));
}

} // verus!
