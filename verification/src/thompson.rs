use vstd::prelude::*;

use crate::nfa::Step;
use crate::regex::Regex;

verus! {

/// The transitions of a path from `s` are exactly those out of its successive states.
pub proof fn lemma_path_steps(rows: Seq<Seq<Step>>, s: int, p: Seq<Step>)
    ensures
        crate::nfa::is_path(rows, s, p) <==> forall|i: int| 0 <= i < p.len() ==> crate::nfa::has_step(rows, #[trigger] crate::nfa::source(s, p, i), p[i]),
    decreases p.len(),
{
    if p.len() > 0 {
        let q = p.drop_first();
        lemma_path_steps(rows, p[0].1 as int, q);
        if crate::nfa::is_path(rows, s, p) {
            assert forall|i: int| 0 <= i < p.len() implies crate::nfa::has_step(rows, #[trigger] crate::nfa::source(s, p, i), p[i]) by {
                if i > 0 {
                    assert(crate::nfa::source(p[0].1 as int, q, i - 1) == crate::nfa::source(s, p, i));
                    assert(q[i - 1] == p[i]);
                }
            }
        }
        if forall|i: int| 0 <= i < p.len() ==> crate::nfa::has_step(rows, #[trigger] crate::nfa::source(s, p, i), p[i]) {
            assert(crate::nfa::has_step(rows, crate::nfa::source(s, p, 0), p[0]));
            assert forall|i: int| 0 <= i < q.len() implies crate::nfa::has_step(rows, #[trigger] crate::nfa::source(p[0].1 as int, q, i), q[i]) by {
                assert(crate::nfa::source(s, p, i + 1) == crate::nfa::source(p[0].1 as int, q, i));
                assert(crate::nfa::has_step(rows, crate::nfa::source(s, p, i + 1), p[i + 1]));
            }
        }
    }
}

/// What a concatenation of paths reads, where it leads and which states it leaves.
pub proof fn lemma_path_append(s: int, p1: Seq<Step>, p2: Seq<Step>)
    ensures
        crate::nfa::path_label(p1 + p2) == crate::nfa::path_label(p1) + crate::nfa::path_label(p2),
        crate::nfa::path_end(s, p1 + p2) == crate::nfa::path_end(crate::nfa::path_end(s, p1), p2),
        forall|i: int| 0 <= i <= p1.len() ==> #[trigger] crate::nfa::source(s, p1 + p2, i) == crate::nfa::source(s, p1, i),
        forall|i: int| p1.len() <= i <= p1.len() + p2.len() ==>
            #[trigger] crate::nfa::source(s, p1 + p2, i) == crate::nfa::source(crate::nfa::path_end(s, p1), p2, i - p1.len()),
        crate::nfa::source(s, p1, p1.len() as int) == crate::nfa::path_end(s, p1),
    decreases p1.len(),
{
    if p1.len() == 0 {
        assert(p1 + p2 =~= p2);
        assert(crate::nfa::path_label(p1) =~= Seq::<char>::empty());
        assert(crate::nfa::path_label(p1) + crate::nfa::path_label(p2) =~= crate::nfa::path_label(p2));
    } else {
        lemma_path_append(p1[0].1 as int, p1.drop_first(), p2);
        assert((p1 + p2).drop_first() =~= p1.drop_first() + p2);
        assert(crate::nfa::path_label(p1 + p2) =~= crate::nfa::path_label(p1) + crate::nfa::path_label(p2));
        if p2.len() > 0 {
            assert((p1 + p2).last() == p2.last());
        } else {
            assert(p1 + p2 =~= p1);
        }
        assert forall|i: int| p1.len() <= i <= p1.len() + p2.len() implies
            #[trigger] crate::nfa::source(s, p1 + p2, i) == crate::nfa::source(crate::nfa::path_end(s, p1), p2, i - p1.len()) by {
            if i > p1.len() {
                assert((p1 + p2)[i - 1] == p2[i - 1 - p1.len()]);
            } else {
                assert((p1 + p2)[i - 1] == p1[i - 1]);
            }
        }
        assert forall|i: int| 0 <= i <= p1.len() implies #[trigger] crate::nfa::source(s, p1 + p2, i) == crate::nfa::source(s, p1, i) by {
            if i > 0 {
                assert((p1 + p2)[i - 1] == p1[i - 1]);
            }
        }
    }
}

/// A path cut in two at transition `k`.
pub proof fn lemma_path_cut(rows: Seq<Seq<Step>>, s: int, p: Seq<Step>, k: int)
    requires
        crate::nfa::is_path(rows, s, p),
        0 <= k <= p.len(),
    ensures
        p == p.take(k) + p.skip(k),
        crate::nfa::is_path(rows, s, p.take(k)),
        crate::nfa::path_end(s, p.take(k)) == crate::nfa::source(s, p, k),
        crate::nfa::is_path(rows, crate::nfa::source(s, p, k), p.skip(k)),
        crate::nfa::path_end(crate::nfa::source(s, p, k), p.skip(k)) == crate::nfa::path_end(s, p),
        crate::nfa::path_label(p) == crate::nfa::path_label(p.take(k)) + crate::nfa::path_label(p.skip(k)),
        forall|i: int| 0 <= i <= k ==> #[trigger] crate::nfa::source(s, p.take(k), i) == crate::nfa::source(s, p, i),
        forall|i: int| 0 <= i <= p.len() - k ==> #[trigger] crate::nfa::source(crate::nfa::source(s, p, k), p.skip(k), i) == crate::nfa::source(s, p, i + k),
{
    assert(p =~= p.take(k) + p.skip(k));
    lemma_path_append(s, p.take(k), p.skip(k));
    lemma_path_steps(rows, s, p);
    lemma_path_steps(rows, s, p.take(k));
    lemma_path_steps(rows, crate::nfa::source(s, p, k), p.skip(k));
    assert forall|i: int| 0 <= i < k implies crate::nfa::has_step(rows, #[trigger] crate::nfa::source(s, p.take(k), i), p.take(k)[i]) by {
        assert(crate::nfa::source(s, p, i) == crate::nfa::source(s, p.take(k), i));
    }
    assert forall|i: int| 0 <= i < p.len() - k implies crate::nfa::has_step(rows, #[trigger] crate::nfa::source(crate::nfa::source(s, p, k), p.skip(k), i), p.skip(k)[i]) by {
        assert(crate::nfa::source(s, p, i + k) == crate::nfa::source(crate::nfa::source(s, p, k), p.skip(k), i));
    }
    assert forall|i: int| 0 <= i <= p.len() - k implies #[trigger] crate::nfa::source(crate::nfa::source(s, p, k), p.skip(k), i) == crate::nfa::source(s, p, i + k) by {
        assert(crate::nfa::source(s, p.take(k) + p.skip(k), i + k) == crate::nfa::source(crate::nfa::path_end(s, p.take(k)), p.skip(k), i));
    }
}

/// Joining two paths where the first ends and the second starts.
pub proof fn lemma_path_join(rows: Seq<Seq<Step>>, s: int, p1: Seq<Step>, p2: Seq<Step>)
    requires
        crate::nfa::is_path(rows, s, p1),
        crate::nfa::is_path(rows, crate::nfa::path_end(s, p1), p2),
    ensures
        crate::nfa::is_path(rows, s, p1 + p2),
{
    lemma_path_append(s, p1, p2);
    lemma_path_steps(rows, s, p1);
    lemma_path_steps(rows, crate::nfa::path_end(s, p1), p2);
    lemma_path_steps(rows, s, p1 + p2);
    assert forall|i: int| 0 <= i < (p1 + p2).len() implies crate::nfa::has_step(rows, #[trigger] crate::nfa::source(s, p1 + p2, i), (p1 + p2)[i]) by {
        if i < p1.len() {
            assert(crate::nfa::source(s, p1, i) == crate::nfa::source(s, p1 + p2, i));
        } else {
            assert(crate::nfa::source(crate::nfa::path_end(s, p1), p2, i - p1.len()) == crate::nfa::source(s, p1 + p2, i));
        }
    }
}

/// The states a path leaves lie in `[lo, hi)` and differ from `x`.
pub open spec fn inside(s: int, p: Seq<Step>, lo: int, hi: int, x: int) -> bool {
    forall|i: int| 0 <= i < p.len() ==> lo <= #[trigger] crate::nfa::source(s, p, i) < hi && crate::nfa::source(s, p, i) != x
}

/// From a region that its transitions leave only through `x`, a path that ends outside
/// the region, or at `x`, reaches `x` first.
pub proof fn lemma_first_hit(rows: Seq<Seq<Step>>, s: int, p: Seq<Step>, lo: int, hi: int, x: int)
    requires
        crate::nfa::is_path(rows, s, p),
        lo <= s < hi,
        lo <= x < hi,
        crate::nfa::path_end(s, p) == x || !(lo <= crate::nfa::path_end(s, p) < hi),
        forall|y: int, k: int| lo <= y < hi && y != x && 0 <= k < rows[y].len() ==> lo <= (#[trigger] rows[y][k]).1 < hi,
        rows.len() >= hi,
    ensures
        exists|k: int| 0 <= k <= p.len() && crate::nfa::source(s, p, k) == x && inside(s, p.take(k), lo, hi, x),
    decreases p.len(),
{
    if s == x {
        assert(crate::nfa::source(s, p, 0) == x);
        assert(inside(s, p.take(0), lo, hi, x));
    } else {
        assert(p.len() > 0);
        let q = p.drop_first();
        let t = p[0].1 as int;
        assert(crate::nfa::has_step(rows, s, p[0]));
        let j = choose|j: int| 0 <= j < rows[s].len() && rows[s][j] == p[0];
        assert(lo <= rows[s][j].1 < hi);
        if q.len() > 0 {
            assert(crate::nfa::path_end(t, q) == crate::nfa::path_end(s, p));
        }
        lemma_first_hit(rows, t, q, lo, hi, x);
        let k = choose|k: int| 0 <= k <= q.len() && crate::nfa::source(t, q, k) == x && inside(t, q.take(k), lo, hi, x);
        assert(crate::nfa::source(s, p, k + 1) == x);
        assert forall|i: int| 0 <= i < p.take(k + 1).len() implies lo <= #[trigger] crate::nfa::source(s, p.take(k + 1), i) < hi
            && crate::nfa::source(s, p.take(k + 1), i) != x by {
            if i > 0 {
                assert(crate::nfa::source(s, p.take(k + 1), i) == crate::nfa::source(t, q.take(k), i - 1));
            }
        }
    }
}


/// The table `u` has, on the states of a fragment other than its accepting one, the
/// rows that the fragment's own table `t2` has.
pub open spec fn agrees(u: Seq<Seq<Step>>, t2: Seq<Seq<Step>>, lo: int, hi: int, a: int) -> bool {
    u.len() >= hi && forall|y: int| lo <= y < hi && y != a ==> #[trigger] u[y] == t2[y]
}

/// A path of one transition.
pub proof fn lemma_one_step(u: Seq<Seq<Step>>, s: int, e: Step)
    requires
        crate::nfa::has_step(u, s, e),
    ensures
        crate::nfa::is_path(u, s, seq![e]),
        crate::nfa::path_end(s, seq![e]) == e.1 as int,
        crate::nfa::path_label(seq![e]) == crate::nfa::step_label(e),
        crate::nfa::source(s, seq![e], 0) == s,
{
    assert(seq![e].drop_first() =~= Seq::<Step>::empty());
    assert(crate::nfa::is_path(u, e.1 as int, seq![e].drop_first()));
    assert(seq![e][0] == e);
    assert(crate::nfa::path_label(seq![e]) =~= crate::nfa::step_label(e) + crate::nfa::path_label(Seq::<Step>::empty()));
}

/// The only path that leaves a state with a single transition, without coming back
/// to its end, is that transition.
proof fn lemma_single_exit(u: Seq<Seq<Step>>, s: int, p: Seq<Step>, e: Step, lo: int, hi: int)
    requires
        crate::nfa::is_path(u, s, p),
        p.len() > 0,
        0 <= s < u.len(),
        u[s] == seq![e],
        inside(s, p, lo, hi, e.1 as int),
        crate::nfa::path_end(s, p) == e.1 as int,
    ensures
        p == seq![e],
        crate::nfa::path_label(p) == crate::nfa::step_label(e),
{
    assert(crate::nfa::has_step(u, s, p[0]));
    assert(p[0] == e);
    if p.len() > 1 {
        assert(crate::nfa::source(s, p, 1) == e.1 as int);
        assert(false);
    }
    assert(p =~= seq![e]);
    lemma_one_step(u, s, e);
}

proof fn lemma_concat_agree(l: Regex, r: Regex, t: Seq<Seq<Step>>, u: Seq<Seq<Step>>)
    requires
        t.len() + crate::nfa::state_total(Regex::Concat(Box::new(l), Box::new(r))) <= usize::MAX,
        ({
            let (t4, s, a) = crate::nfa::thompson(Regex::Concat(Box::new(l), Box::new(r)), t);
            agrees(u, t4, t.len() as int, t4.len() as int, a)
        }),
    ensures
        ({
            let (t1, s1, a1) = crate::nfa::thompson(l, t);
            let (t2, s2, a2) = crate::nfa::thompson(r, t1);
            &&& agrees(u, t1, t.len() as int, t1.len() as int, a1)
            &&& agrees(u, t2, t1.len() as int, t2.len() as int, a2)
        }),
{
    let (t1, s1, a1) = crate::nfa::thompson(l, t);
    let (t2, s2, a2) = crate::nfa::thompson(r, t1);
    crate::nfa::lemma_thompson_shape(l, t);
    crate::nfa::lemma_thompson_shape(r, t1);
    let t4 = crate::nfa::add_edge(t2, a1, (None, s2 as usize));
    assert forall|y: int| t.len() <= y < t1.len() && y != a1 implies #[trigger] u[y] == t1[y] by {
        assert(u[y] == t4[y]);
        assert(t2[y] == t1[y]);
    }
    assert forall|y: int| t1.len() <= y < t2.len() && y != a2 implies #[trigger] u[y] == t2[y] by {
        assert(u[y] == t4[y]);
    }
}

proof fn lemma_union_agree(l: Regex, r: Regex, t: Seq<Seq<Step>>, u: Seq<Seq<Step>>)
    requires
        t.len() + crate::nfa::state_total(Regex::Union(Box::new(l), Box::new(r))) <= usize::MAX,
        ({
            let (t4, s, a) = crate::nfa::thompson(Regex::Union(Box::new(l), Box::new(r)), t);
            agrees(u, t4, t.len() as int, t4.len() as int, a)
        }),
    ensures
        ({
            let (t1, s1, a1) = crate::nfa::thompson(l, t);
            let (t2, s2, a2) = crate::nfa::thompson(r, t1);
            let n = t2.len() as int;
            &&& agrees(u, t1, t.len() as int, t1.len() as int, a1)
            &&& agrees(u, t2, t1.len() as int, t2.len() as int, a2)
            &&& u[n] == seq![(None::<char>, s1 as usize), (None, s2 as usize)]
            &&& u[a1] == seq![(None::<char>, (n + 1) as usize)]
            &&& u[a2] == seq![(None::<char>, (n + 1) as usize)]
        }),
{
    let (t1, s1, a1) = crate::nfa::thompson(l, t);
    let (t2, s2, a2) = crate::nfa::thompson(r, t1);
    crate::nfa::lemma_thompson_shape(l, t);
    crate::nfa::lemma_thompson_shape(r, t1);
    let n = t2.len() as int;
    let t3 = t2.push(seq![(None::<char>, s1 as usize), (None, s2 as usize)]).push(seq![]);
    let t5 = crate::nfa::add_edge(t3, a1, (None, (n + 1) as usize));
    let t4 = crate::nfa::add_edge(t5, a2, (None, (n + 1) as usize));
    assert forall|y: int| t.len() <= y < t1.len() && y != a1 implies #[trigger] u[y] == t1[y] by {
        assert(u[y] == t4[y]);
        assert(t4[y] == t5[y]);
        assert(t5[y] == t3[y]);
        assert(t2[y] == t1[y]);
    }
    assert forall|y: int| t1.len() <= y < t2.len() && y != a2 implies #[trigger] u[y] == t2[y] by {
        assert(u[y] == t4[y]);
        assert(t4[y] == t5[y]);
        assert(t5[y] == t3[y]);
    }
    assert(u[n] == t4[n]);
    assert(u[a1] == t4[a1]);
    assert(t2[a1] == t1[a1]);
    assert(t4[a1] =~= seq![(None::<char>, (n + 1) as usize)]);
    assert(u[a2] == t4[a2]);
    assert(t4[a2] =~= seq![(None::<char>, (n + 1) as usize)]);
}

proof fn lemma_star_agree(r: Regex, t: Seq<Seq<Step>>, u: Seq<Seq<Step>>)
    requires
        t.len() + crate::nfa::state_total(Regex::Star(Box::new(r))) <= usize::MAX,
        ({
            let (t4, s, a) = crate::nfa::thompson(Regex::Star(Box::new(r)), t);
            agrees(u, t4, t.len() as int, t4.len() as int, a)
        }),
    ensures
        ({
            let (t1, s1, a1) = crate::nfa::thompson(r, t);
            let n = t1.len() as int;
            &&& agrees(u, t1, t.len() as int, t1.len() as int, a1)
            &&& u[n] == seq![(None::<char>, s1 as usize), (None, (n + 1) as usize)]
            &&& u[a1] == seq![(None::<char>, s1 as usize), (None, (n + 1) as usize)]
        }),
{
    let (t1, s1, a1) = crate::nfa::thompson(r, t);
    crate::nfa::lemma_thompson_shape(r, t);
    let n = t1.len() as int;
    let t3 = t1.push(seq![(None::<char>, s1 as usize), (None, (n + 1) as usize)]).push(seq![]);
    let t5 = crate::nfa::add_edge(t3, a1, (None, s1 as usize));
    let t4 = crate::nfa::add_edge(t5, a1, (None, (n + 1) as usize));
    assert forall|y: int| t.len() <= y < t1.len() && y != a1 implies #[trigger] u[y] == t1[y] by {
        assert(u[y] == t4[y]);
        assert(t4[y] == t5[y]);
        assert(t5[y] == t3[y]);
    }
    assert(u[n] == t4[n]);
    assert(u[a1] == t4[a1]);
    assert(t4[a1] =~= seq![(None::<char>, s1 as usize), (None, (n + 1) as usize)]);
}

/// Every word of `r` is read by a path of the fragment of `r` from its start state to
/// its accepting state, within any table that agrees with the fragment.
pub proof fn fragment_path(r: Regex, t: Seq<Seq<Step>>, u: Seq<Seq<Step>>, w: Seq<char>) -> (p: Seq<Step>)
    requires
        t.len() + crate::nfa::state_total(r) <= usize::MAX,
        ({
            let (t2, s, a) = crate::nfa::thompson(r, t);
            agrees(u, t2, t.len() as int, t2.len() as int, a)
        }),
        crate::regex::in_lang(r, w),
    ensures
        ({
            let (t2, s, a) = crate::nfa::thompson(r, t);
            &&& crate::nfa::is_path(u, s, p)
            &&& crate::nfa::path_end(s, p) == a
            &&& crate::nfa::path_label(p) == w
            &&& inside(s, p, t.len() as int, t2.len() as int, a)
        }),
    decreases r, 0nat,
{
    crate::nfa::lemma_thompson_shape(r, t);
    let (t2, s, a) = crate::nfa::thompson(r, t);
    let lo = t.len() as int;
    let hi = t2.len() as int;
    match r {
        Regex::EmptySet => {
            assert(false);
            Seq::empty()
        },
        Regex::EmptyStr => {
            let e: Step = (None, a as usize);
            assert(u[s] == t2[s]);
            assert(t2[s] == seq![e]);
            assert(u[s][0] == e);
            lemma_one_step(u, s, e);
            assert(w =~= Seq::<char>::empty());
            seq![e]
        },
        Regex::Char(c) => {
            let e: Step = (Some(c), a as usize);
            assert(u[s] == t2[s]);
            assert(t2[s] == seq![e]);
            assert(u[s][0] == e);
            lemma_one_step(u, s, e);
            seq![e]
        },
        Regex::Concat(l, rr) => {
            lemma_concat_agree(*l, *rr, t, u);
            let (t1, s1, a1) = crate::nfa::thompson(*l, t);
            let (tb, s2, a2) = crate::nfa::thompson(*rr, t1);
            crate::nfa::lemma_thompson_shape(*l, t);
            crate::nfa::lemma_thompson_shape(*rr, t1);
            crate::regex::lemma_concat(*l, *rr, w);
            let k = choose|k: int| 0 <= k <= w.len() && #[trigger] crate::regex::in_lang(*l, w.take(k)) && crate::regex::in_lang(*rr, w.skip(k));
            let p1 = fragment_path(*l, t, u, w.take(k));
            let p2 = fragment_path(*rr, t1, u, w.skip(k));
            let e: Step = (None, s2 as usize);
            assert(u[a1] == t2[a1]);
            assert(t2[a1] == tb[a1].push(e));
            assert(u[a1][tb[a1].len() as int] == e);
            lemma_one_step(u, a1, e);
            lemma_path_join(u, s1, p1, seq![e]);
            lemma_path_append(s1, p1, seq![e]);
            let q = p1 + seq![e];
            lemma_path_join(u, s1, q, p2);
            lemma_path_append(s1, q, p2);
            assert(w.take(k) + Seq::<char>::empty() + w.skip(k) =~= w);
            assert forall|i: int| 0 <= i < (q + p2).len() implies lo <= #[trigger] crate::nfa::source(s1, q + p2, i) < hi
                && crate::nfa::source(s1, q + p2, i) != a by {
                if i < p1.len() {
                    assert(crate::nfa::source(s1, q + p2, i) == crate::nfa::source(s1, q, i));
                    assert(crate::nfa::source(s1, q, i) == crate::nfa::source(s1, p1, i));
                } else if i == p1.len() {
                    assert(crate::nfa::source(s1, q + p2, i) == crate::nfa::source(s1, q, i));
                    assert(crate::nfa::source(s1, q, i) == crate::nfa::source(s1, p1, i));
                } else {
                    assert(crate::nfa::source(s1, q + p2, i) == crate::nfa::source(s2, p2, i - q.len()));
                }
            }
            q + p2
        },
        Regex::Union(l, rr) => {
            lemma_union_agree(*l, *rr, t, u);
            let (t1, s1, a1) = crate::nfa::thompson(*l, t);
            let (tb, s2, a2) = crate::nfa::thompson(*rr, t1);
            crate::nfa::lemma_thompson_shape(*l, t);
            crate::nfa::lemma_thompson_shape(*rr, t1);
            let n = tb.len() as int;
            let fin: Step = (None, (n + 1) as usize);
            let (st, aa, pm) = if crate::regex::in_lang(*l, w) {
                (s1, a1, fragment_path(*l, t, u, w))
            } else {
                (s2, a2, fragment_path(*rr, t1, u, w))
            };
            let e0: Step = (None, st as usize);
            assert(u[n][if st == s1 { 0int } else { 1int }] == e0);
            lemma_one_step(u, n, e0);
            lemma_path_join(u, n, seq![e0], pm);
            lemma_path_append(n, seq![e0], pm);
            let q = seq![e0] + pm;
            assert(u[aa][0] == fin);
            lemma_one_step(u, aa, fin);
            lemma_path_join(u, n, q, seq![fin]);
            lemma_path_append(n, q, seq![fin]);
            assert(Seq::<char>::empty() + w + Seq::<char>::empty() =~= w);
            assert forall|i: int| 0 <= i < (q + seq![fin]).len() implies lo <= #[trigger] crate::nfa::source(n, q + seq![fin], i) < hi
                && crate::nfa::source(n, q + seq![fin], i) != a by {
                assert(crate::nfa::source(n, q + seq![fin], i) == crate::nfa::source(n, q, i));
                if i > 0 {
                    assert(crate::nfa::source(n, q, i) == crate::nfa::source(st, pm, i - 1));
                }
            }
            q + seq![fin]
        },
        Regex::Star(inner) => {
            star_path(*inner, t, u, w)
        },
    }
}

/// For a star: from the accepting state of the inner fragment, every word of the star
/// is read on the way to the accepting state of the star.
proof fn star_tail_path(r: Regex, t: Seq<Seq<Step>>, u: Seq<Seq<Step>>, w: Seq<char>) -> (p: Seq<Step>)
    requires
        t.len() + crate::nfa::state_total(Regex::Star(Box::new(r))) <= usize::MAX,
        ({
            let (t2, s, a) = crate::nfa::thompson(Regex::Star(Box::new(r)), t);
            agrees(u, t2, t.len() as int, t2.len() as int, a)
        }),
        crate::regex::in_lang(Regex::Star(Box::new(r)), w),
    ensures
        ({
            let (t2, s, a) = crate::nfa::thompson(Regex::Star(Box::new(r)), t);
            let (t1, s1, a1) = crate::nfa::thompson(r, t);
            &&& crate::nfa::is_path(u, a1, p)
            &&& crate::nfa::path_end(a1, p) == a
            &&& crate::nfa::path_label(p) == w
            &&& inside(a1, p, t.len() as int, t2.len() as int, a)
        }),
    decreases r, w.len(),
{
    let rs = Regex::Star(Box::new(r));
    crate::nfa::lemma_thompson_shape(rs, t);
    lemma_star_agree(r, t, u);
    let (t2, s, a) = crate::nfa::thompson(rs, t);
    let (t1, s1, a1) = crate::nfa::thompson(r, t);
    crate::nfa::lemma_thompson_shape(r, t);
    let lo = t.len() as int;
    let hi = t2.len() as int;
    let n = t1.len() as int;
    let fin: Step = (None, (n + 1) as usize);
    let back: Step = (None, s1 as usize);
    if w.len() == 0 {
        assert(u[a1][1] == fin);
        lemma_one_step(u, a1, fin);
        assert(w =~= Seq::<char>::empty());
        seq![fin]
    } else {
        crate::regex::lemma_star(r, w);
        let k = choose|k: int| 0 < k <= w.len() && #[trigger] crate::regex::in_lang(r, w.take(k)) && crate::regex::in_lang(rs, w.skip(k));
        let pu = fragment_path(r, t, u, w.take(k));
        let pv = star_tail_path(r, t, u, w.skip(k));
        assert(u[a1][0] == back);
        lemma_one_step(u, a1, back);
        lemma_path_join(u, a1, seq![back], pu);
        lemma_path_append(a1, seq![back], pu);
        let q = seq![back] + pu;
        lemma_path_join(u, a1, q, pv);
        lemma_path_append(a1, q, pv);
        assert(Seq::<char>::empty() + w.take(k) + w.skip(k) =~= w);
        assert forall|i: int| 0 <= i < (q + pv).len() implies lo <= #[trigger] crate::nfa::source(a1, q + pv, i) < hi
            && crate::nfa::source(a1, q + pv, i) != a by {
            if i <= q.len() {
                assert(crate::nfa::source(a1, q + pv, i) == crate::nfa::source(a1, q, i));
                if i > 0 {
                    assert(crate::nfa::source(a1, q, i) == crate::nfa::source(s1, pu, i - 1));
                }
            } else {
                assert(crate::nfa::source(a1, q + pv, i) == crate::nfa::source(a1, pv, i - q.len()));
            }
        }
        q + pv
    }
}

proof fn star_path(r: Regex, t: Seq<Seq<Step>>, u: Seq<Seq<Step>>, w: Seq<char>) -> (p: Seq<Step>)
    requires
        t.len() + crate::nfa::state_total(Regex::Star(Box::new(r))) <= usize::MAX,
        ({
            let (t2, s, a) = crate::nfa::thompson(Regex::Star(Box::new(r)), t);
            agrees(u, t2, t.len() as int, t2.len() as int, a)
        }),
        crate::regex::in_lang(Regex::Star(Box::new(r)), w),
    ensures
        ({
            let (t2, s, a) = crate::nfa::thompson(Regex::Star(Box::new(r)), t);
            &&& crate::nfa::is_path(u, s, p)
            &&& crate::nfa::path_end(s, p) == a
            &&& crate::nfa::path_label(p) == w
            &&& inside(s, p, t.len() as int, t2.len() as int, a)
        }),
    decreases r, w.len() + 1,
{
    let rs = Regex::Star(Box::new(r));
    crate::nfa::lemma_thompson_shape(rs, t);
    lemma_star_agree(r, t, u);
    let (t2, s, a) = crate::nfa::thompson(rs, t);
    let (t1, s1, a1) = crate::nfa::thompson(r, t);
    crate::nfa::lemma_thompson_shape(r, t);
    let lo = t.len() as int;
    let hi = t2.len() as int;
    let n = t1.len() as int;
    let fin: Step = (None, (n + 1) as usize);
    let enter: Step = (None, s1 as usize);
    if w.len() == 0 {
        assert(u[n][1] == fin);
        lemma_one_step(u, n, fin);
        assert(w =~= Seq::<char>::empty());
        seq![fin]
    } else {
        crate::regex::lemma_star(r, w);
        let k = choose|k: int| 0 < k <= w.len() && #[trigger] crate::regex::in_lang(r, w.take(k)) && crate::regex::in_lang(rs, w.skip(k));
        let pu = fragment_path(r, t, u, w.take(k));
        let pv = star_tail_path(r, t, u, w.skip(k));
        assert(u[n][0] == enter);
        lemma_one_step(u, n, enter);
        lemma_path_join(u, n, seq![enter], pu);
        lemma_path_append(n, seq![enter], pu);
        let q = seq![enter] + pu;
        lemma_path_join(u, n, q, pv);
        lemma_path_append(n, q, pv);
        assert(Seq::<char>::empty() + w.take(k) + w.skip(k) =~= w);
        assert forall|i: int| 0 <= i < (q + pv).len() implies lo <= #[trigger] crate::nfa::source(n, q + pv, i) < hi
            && crate::nfa::source(n, q + pv, i) != a by {
            if i <= q.len() {
                assert(crate::nfa::source(n, q + pv, i) == crate::nfa::source(n, q, i));
                if i > 0 {
                    assert(crate::nfa::source(n, q, i) == crate::nfa::source(s1, pu, i - 1));
                }
            } else {
                assert(crate::nfa::source(n, q + pv, i) == crate::nfa::source(a1, pv, i - q.len()));
            }
        }
        q + pv
    }
}


/// A word of `r` followed by a word of `(r*)` is a word of `(r*)`.
proof fn lemma_star_cons(r: Regex, x: Seq<char>, y: Seq<char>)
    requires
        crate::regex::in_lang(r, x),
        crate::regex::in_lang(Regex::Star(Box::new(r)), y),
    ensures
        crate::regex::in_lang(Regex::Star(Box::new(r)), x + y),
{
    if x.len() == 0 {
        assert(x + y =~= y);
    } else {
        let w = x + y;
        assert(w.take(x.len() as int) =~= x);
        assert(w.skip(x.len() as int) =~= y);
        crate::regex::lemma_star(r, w);
    }
}

/// The part of a path from transition `k` on stays within the bounds the whole path
/// stays within.
proof fn lemma_inside_skip(rows: Seq<Seq<Step>>, s: int, p: Seq<Step>, k: int, lo: int, hi: int, x: int)
    requires
        crate::nfa::is_path(rows, s, p),
        0 <= k <= p.len(),
        inside(s, p, lo, hi, x),
    ensures
        inside(crate::nfa::source(s, p, k), p.skip(k), lo, hi, x),
        inside(s, p.take(k), lo, hi, x),
{
    lemma_path_cut(rows, s, p, k);
    assert forall|i: int| 0 <= i < p.skip(k).len() implies lo <= #[trigger] crate::nfa::source(crate::nfa::source(s, p, k), p.skip(k), i) < hi
        && crate::nfa::source(crate::nfa::source(s, p, k), p.skip(k), i) != x by {
        assert(crate::nfa::source(crate::nfa::source(s, p, k), p.skip(k), i) == crate::nfa::source(s, p, i + k));
    }
    assert forall|i: int| 0 <= i < p.take(k).len() implies lo <= #[trigger] crate::nfa::source(s, p.take(k), i) < hi
        && crate::nfa::source(s, p.take(k), i) != x by {
        assert(crate::nfa::source(s, p.take(k), i) == crate::nfa::source(s, p, i));
    }
}

/// A path that stays clear of `x` but ends at `x`, started in a region that its
/// transitions leave only through `x`, stays in the region.
proof fn lemma_stays_in(rows: Seq<Seq<Step>>, s: int, p: Seq<Step>, lo: int, hi: int, x: int, big_lo: int, big_hi: int)
    requires
        crate::nfa::is_path(rows, s, p),
        lo <= s < hi,
        lo <= x < hi,
        crate::nfa::path_end(s, p) == x,
        inside(s, p, big_lo, big_hi, x),
        forall|y: int, k: int| lo <= y < hi && y != x && 0 <= k < rows[y].len() ==> lo <= (#[trigger] rows[y][k]).1 < hi,
        rows.len() >= hi,
    ensures
        inside(s, p, lo, hi, x),
{
    lemma_first_hit(rows, s, p, lo, hi, x);
    let k = choose|k: int| 0 <= k <= p.len() && crate::nfa::source(s, p, k) == x && inside(s, p.take(k), lo, hi, x);
    if k < p.len() {
        assert(crate::nfa::source(s, p, k) != x);
    }
    assert(p.take(k) =~= p);
}

/// Every path of the fragment of `r` from its start state to its accepting state,
/// within any table that agrees with the fragment, reads a word of `r`.
pub proof fn fragment_word(r: Regex, t: Seq<Seq<Step>>, u: Seq<Seq<Step>>, p: Seq<Step>)
    requires
        t.len() + crate::nfa::state_total(r) <= usize::MAX,
        ({
            let (t2, s, a) = crate::nfa::thompson(r, t);
            &&& agrees(u, t2, t.len() as int, t2.len() as int, a)
            &&& crate::nfa::is_path(u, s, p)
            &&& crate::nfa::path_end(s, p) == a
            &&& inside(s, p, t.len() as int, t2.len() as int, a)
        }),
    ensures
        crate::regex::in_lang(r, crate::nfa::path_label(p)),
    decreases r, 0nat,
{
    crate::nfa::lemma_thompson_shape(r, t);
    let (t2, s, a) = crate::nfa::thompson(r, t);
    let lo = t.len() as int;
    let hi = t2.len() as int;
    assert(p.len() > 0);
    match r {
        Regex::EmptySet => {
            assert(crate::nfa::has_step(u, s, p[0]));
            assert(u[s] == t2[s]);
            assert(false);
        },
        Regex::EmptyStr => {
            assert(u[s] == t2[s]);
            lemma_single_exit(u, s, p, (None, a as usize), lo, hi);
        },
        Regex::Char(c) => {
            assert(u[s] == t2[s]);
            lemma_single_exit(u, s, p, (Some(c), a as usize), lo, hi);
        },
        Regex::Concat(l, rr) => {
            lemma_concat_agree(*l, *rr, t, u);
            let (t1, s1, a1) = crate::nfa::thompson(*l, t);
            let (tb, s2, a2) = crate::nfa::thompson(*rr, t1);
            crate::nfa::lemma_thompson_shape(*l, t);
            crate::nfa::lemma_thompson_shape(*rr, t1);
            let m = t1.len() as int;
            assert forall|y: int, k: int| lo <= y < m && y != a1 && 0 <= k < u[y].len() implies lo <= (#[trigger] u[y][k]).1 < m by {
                assert(u[y] == t1[y]);
            }
            lemma_first_hit(u, s, p, lo, m, a1);
            let k = choose|k: int| 0 <= k <= p.len() && crate::nfa::source(s, p, k) == a1 && inside(s, p.take(k), lo, m, a1);
            lemma_path_cut(u, s, p, k);
            let p1 = p.take(k);
            fragment_word(*l, t, u, p1);
            if k == p.len() {
                assert(false);
            }
            let q = p.skip(k);
            lemma_inside_skip(u, s, p, k, lo, hi, a);
            let e: Step = (None, s2 as usize);
            assert(u[a1] == t2[a1]);
            assert(tb[a1] == t1[a1]);
            assert(u[a1] =~= seq![e]);
            assert(crate::nfa::has_step(u, a1, q[0]));
            assert(q[0] == e);
            lemma_path_cut(u, a1, q, 1);
            lemma_inside_skip(u, a1, q, 1, lo, hi, a);
            let q2 = q.skip(1);
            assert(q.take(1) =~= seq![e]);
            lemma_one_step(u, a1, e);
            assert forall|y: int, j: int| m <= y < hi && y != a2 && 0 <= j < u[y].len() implies m <= (#[trigger] u[y][j]).1 < hi by {
                assert(u[y] == tb[y]);
            }
            lemma_stays_in(u, s2, q2, m, hi, a2, lo, hi);
            fragment_word(*rr, t1, u, q2);
            let x = crate::nfa::path_label(p1);
            let y = crate::nfa::path_label(q2);
            assert(crate::nfa::path_label(q) == Seq::<char>::empty() + y);
            assert(crate::nfa::path_label(p) =~= x + y);
            let w = x + y;
            assert(w.take(x.len() as int) =~= x);
            assert(w.skip(x.len() as int) =~= y);
            crate::regex::lemma_concat(*l, *rr, w);
        },
        Regex::Union(l, rr) => {
            lemma_union_agree(*l, *rr, t, u);
            let (t1, s1, a1) = crate::nfa::thompson(*l, t);
            let (tb, s2, a2) = crate::nfa::thompson(*rr, t1);
            crate::nfa::lemma_thompson_shape(*l, t);
            crate::nfa::lemma_thompson_shape(*rr, t1);
            let m = t1.len() as int;
            let n = tb.len() as int;
            let fin: Step = (None, (n + 1) as usize);
            assert(crate::nfa::has_step(u, n, p[0]));
            lemma_path_cut(u, n, p, 1);
            lemma_inside_skip(u, n, p, 1, lo, hi, a);
            assert(p.take(1) =~= seq![p[0]]);
            lemma_one_step(u, n, p[0]);
            let q = p.skip(1);
            if p[0] == (None::<char>, s1 as usize) {
                assert forall|y: int, j: int| lo <= y < m && y != a1 && 0 <= j < u[y].len() implies lo <= (#[trigger] u[y][j]).1 < m by {
                    assert(u[y] == t1[y]);
                }
                lemma_first_hit(u, s1, q, lo, m, a1);
                let k = choose|k: int| 0 <= k <= q.len() && crate::nfa::source(s1, q, k) == a1 && inside(s1, q.take(k), lo, m, a1);
                lemma_path_cut(u, s1, q, k);
                fragment_word(*l, t, u, q.take(k));
                if k == q.len() {
                    assert(false);
                }
                lemma_inside_skip(u, s1, q, k, lo, hi, a);
                lemma_single_exit(u, a1, q.skip(k), fin, lo, hi);
                assert(crate::nfa::path_label(p) =~= crate::nfa::path_label(q.take(k)));
            } else {
                assert(p[0] == (None::<char>, s2 as usize));
                assert forall|y: int, j: int| m <= y < n && y != a2 && 0 <= j < u[y].len() implies m <= (#[trigger] u[y][j]).1 < n by {
                    assert(u[y] == tb[y]);
                }
                lemma_first_hit(u, s2, q, m, n, a2);
                let k = choose|k: int| 0 <= k <= q.len() && crate::nfa::source(s2, q, k) == a2 && inside(s2, q.take(k), m, n, a2);
                lemma_path_cut(u, s2, q, k);
                fragment_word(*rr, t1, u, q.take(k));
                if k == q.len() {
                    assert(false);
                }
                lemma_inside_skip(u, s2, q, k, lo, hi, a);
                lemma_single_exit(u, a2, q.skip(k), fin, lo, hi);
                assert(crate::nfa::path_label(p) =~= crate::nfa::path_label(q.take(k)));
            }
        },
        Regex::Star(inner) => {
            star_word(*inner, t, u, p);
        },
    }
}

proof fn star_word(r: Regex, t: Seq<Seq<Step>>, u: Seq<Seq<Step>>, p: Seq<Step>)
    requires
        t.len() + crate::nfa::state_total(Regex::Star(Box::new(r))) <= usize::MAX,
        ({
            let (t2, s, a) = crate::nfa::thompson(Regex::Star(Box::new(r)), t);
            &&& agrees(u, t2, t.len() as int, t2.len() as int, a)
            &&& crate::nfa::is_path(u, s, p)
            &&& crate::nfa::path_end(s, p) == a
            &&& inside(s, p, t.len() as int, t2.len() as int, a)
        }),
    ensures
        crate::regex::in_lang(Regex::Star(Box::new(r)), crate::nfa::path_label(p)),
    decreases r, p.len() + 1,
{
    let rs = Regex::Star(Box::new(r));
    crate::nfa::lemma_thompson_shape(rs, t);
    lemma_star_agree(r, t, u);
    let (t2, s, a) = crate::nfa::thompson(rs, t);
    let (t1, s1, a1) = crate::nfa::thompson(r, t);
    crate::nfa::lemma_thompson_shape(r, t);
    let lo = t.len() as int;
    let hi = t2.len() as int;
    let n = t1.len() as int;
    assert(p.len() > 0);
    assert(crate::nfa::has_step(u, n, p[0]));
    lemma_path_cut(u, n, p, 1);
    lemma_inside_skip(u, n, p, 1, lo, hi, a);
    assert(p.take(1) =~= seq![p[0]]);
    lemma_one_step(u, n, p[0]);
    let q = p.skip(1);
    if p[0] == (None::<char>, (n + 1) as usize) {
        if q.len() > 0 {
            assert(crate::nfa::source(n, p, 1) == n + 1);
            assert(false);
        }
        assert(crate::nfa::path_label(p) =~= Seq::<char>::empty());
    } else {
        assert(p[0] == (None::<char>, s1 as usize));
        star_tail_word(r, t, u, q);
        assert(crate::nfa::path_label(p) =~= crate::nfa::path_label(q));
    }
}

/// For a star: a path from the start state of the inner fragment to the accepting state
/// of the star reads a word of the star.
proof fn star_tail_word(r: Regex, t: Seq<Seq<Step>>, u: Seq<Seq<Step>>, q: Seq<Step>)
    requires
        t.len() + crate::nfa::state_total(Regex::Star(Box::new(r))) <= usize::MAX,
        ({
            let (t2, s, a) = crate::nfa::thompson(Regex::Star(Box::new(r)), t);
            let (t1, s1, a1) = crate::nfa::thompson(r, t);
            &&& agrees(u, t2, t.len() as int, t2.len() as int, a)
            &&& crate::nfa::is_path(u, s1, q)
            &&& crate::nfa::path_end(s1, q) == a
            &&& inside(s1, q, t.len() as int, t2.len() as int, a)
        }),
    ensures
        crate::regex::in_lang(Regex::Star(Box::new(r)), crate::nfa::path_label(q)),
    decreases r, q.len(),
{
    let rs = Regex::Star(Box::new(r));
    crate::nfa::lemma_thompson_shape(rs, t);
    lemma_star_agree(r, t, u);
    let (t2, s, a) = crate::nfa::thompson(rs, t);
    let (t1, s1, a1) = crate::nfa::thompson(r, t);
    crate::nfa::lemma_thompson_shape(r, t);
    let lo = t.len() as int;
    let hi = t2.len() as int;
    let m = t1.len() as int;
    assert forall|y: int, j: int| lo <= y < m && y != a1 && 0 <= j < u[y].len() implies lo <= (#[trigger] u[y][j]).1 < m by {
        assert(u[y] == t1[y]);
    }
    lemma_first_hit(u, s1, q, lo, m, a1);
    let k = choose|k: int| 0 <= k <= q.len() && crate::nfa::source(s1, q, k) == a1 && inside(s1, q.take(k), lo, m, a1);
    lemma_path_cut(u, s1, q, k);
    fragment_word(r, t, u, q.take(k));
    if k == q.len() {
        assert(false);
    }
    lemma_inside_skip(u, s1, q, k, lo, hi, a);
    let rest = q.skip(k);
    assert(crate::nfa::has_step(u, a1, rest[0]));
    lemma_path_cut(u, a1, rest, 1);
    lemma_inside_skip(u, a1, rest, 1, lo, hi, a);
    assert(rest.take(1) =~= seq![rest[0]]);
    lemma_one_step(u, a1, rest[0]);
    let x = crate::nfa::path_label(q.take(k));
    if rest[0] == (None::<char>, (m + 1) as usize) {
        if rest.len() > 1 {
            assert(crate::nfa::source(a1, rest, 1) == m + 1);
            assert(false);
        }
        assert(rest.skip(1) =~= Seq::<Step>::empty());
        assert(crate::nfa::path_label(q) =~= x);
        lemma_star_cons(r, x, Seq::<char>::empty());
        assert(x + Seq::<char>::empty() =~= x);
    } else {
        assert(rest[0] == (None::<char>, s1 as usize));
        let q2 = rest.skip(1);
        star_tail_word(r, t, u, q2);
        assert(crate::nfa::path_label(q) =~= x + crate::nfa::path_label(q2));
        lemma_star_cons(r, x, crate::nfa::path_label(q2));
    }
}

/// Thompson's construction is correct: the automaton for `r` accepts exactly the
/// words of `r`.
pub proof fn lemma_thompson_language(r: Regex, w: Seq<char>)
    requires
        crate::nfa::state_total(r) <= usize::MAX,
    ensures
        ({
            let (t2, s, a) = crate::nfa::thompson(r, Seq::empty());
            crate::nfa::runs(t2, s, a, w) <==> crate::regex::in_lang(r, w)
        }),
{
    let t = Seq::<Seq<Step>>::empty();
    crate::nfa::lemma_thompson_shape(r, t);
    let (t2, s, a) = crate::nfa::thompson(r, t);
    let hi = t2.len() as int;
    if crate::regex::in_lang(r, w) {
        let p = fragment_path(r, t, t2, w);
    }
    if crate::nfa::runs(t2, s, a, w) {
        let p = choose|p: Seq<Step>| #[trigger] crate::nfa::is_path(t2, s, p) && crate::nfa::path_end(s, p) == a && crate::nfa::path_label(p) == w;
        lemma_path_steps(t2, s, p);
        assert forall|i: int| 0 <= i < p.len() implies 0 <= #[trigger] crate::nfa::source(s, p, i) < hi
            && crate::nfa::source(s, p, i) != a by {
            assert(crate::nfa::has_step(t2, crate::nfa::source(s, p, i), p[i]));
        }
        fragment_word(r, t, t2, p);
    }
}

} // verus!
