use vstd::prelude::*;

use std::collections::BTreeSet;

verus! {

broadcast use {vstd::std_specs::btree::group_btree_axioms, vstd::laws_cmp::group_laws_cmp};

/// The states marked in a table of flags.
pub open spec fn bits_set(b: Seq<bool>) -> Set<usize> {
    Set::new(|x: usize| x < b.len() && b[x as int])
}

/// The number of marked flags.
pub open spec fn num_marked(b: Seq<bool>) -> nat
    decreases b.len(),
{
    if b.len() == 0 {
        0
    } else {
        num_marked(b.drop_last()) + if b.last() { 1nat } else { 0nat }
    }
}

pub proof fn lemma_num_marked_bound(b: Seq<bool>)
    ensures
        num_marked(b) <= b.len(),
    decreases b.len(),
{
    if b.len() > 0 {
        lemma_num_marked_bound(b.drop_last());
    }
}

pub proof fn lemma_num_marked_set(b: Seq<bool>, i: int)
    requires
        0 <= i < b.len(),
        !b[i],
    ensures
        num_marked(b.update(i, true)) == num_marked(b) + 1,
    decreases b.len(),
{
    let c = b.update(i, true);
    if i == b.len() - 1 {
        assert(c.drop_last() =~= b.drop_last());
    } else {
        assert(c.drop_last() =~= b.drop_last().update(i, true));
        lemma_num_marked_set(b.drop_last(), i);
    }
}

/// The flags, one per state below `n`, of the states of `s`.
pub fn to_bits(s: &BTreeSet<usize>, n: usize) -> (b: Vec<bool>)
    ensures
        b@.len() == n,
        forall|x: int| 0 <= x < n ==> b@[x] == s@.contains(x as usize),
{
    let mut b: Vec<bool> = Vec::new();
    let mut i: usize = 0;
    while i < n
        invariant
            i <= n,
            b@.len() == i,
            forall|x: int| 0 <= x < i ==> b@[x] == s@.contains(x as usize),
        decreases n - i,
    {
        b.push(s.contains(&i));
        i = i + 1;
    }
    b
}

/// The set of the states that the flags mark.
pub fn from_bits(b: &Vec<bool>) -> (s: BTreeSet<usize>)
    ensures
        s@ == bits_set(b@),
{
    let mut s: BTreeSet<usize> = BTreeSet::new();
    let mut i: usize = 0;
    while i < b.len()
        invariant
            i <= b.len(),
            s@ == Set::new(|x: usize| x < i && b@[x as int]),
        decreases b.len() - i,
    {
        if b[i] {
            s.insert(i);
        }
        i = i + 1;
        assert(s@ =~= Set::new(|x: usize| x < i && b@[x as int]));
    }
    assert(s@ =~= bits_set(b@));
    s
}


/// The states increase strictly, so that none occurs twice.
pub open spec fn increasing(v: Seq<usize>) -> bool {
    forall|i: int, j: int| 0 <= i < j < v.len() ==> v[i] < v[j]
}

/// A set's iterator yields its states in increasing order.
proof fn lemma_keys_increasing(s: &BTreeSet<usize>)
    ensures
        ({
            let r = vstd::std_specs::iter::IteratorSpec::remaining(&vstd::std_specs::btree::spec_btree_keys_iter(s));
            &&& forall|i: int, j: int| 0 <= i < j < r.len() ==> *r[i] < *r[j]
            &&& r.unref().to_set() == s@
        }),
{
    let r = vstd::std_specs::iter::IteratorSpec::remaining(&vstd::std_specs::btree::spec_btree_keys_iter(s));
    assert(vstd::std_specs::btree::increasing_seq(r));
    assert forall|i: int, j: int| 0 <= i < j < r.len() implies *r[i] < *r[j] by {
        assert(vstd::std_specs::cmp::OrdSpec::cmp_spec(&r[i], &r[j]) is Less);
    }
}

/// The states of `a` in increasing order.
pub open spec fn in_order(a: Set<usize>) -> Seq<usize> {
    choose|v: Seq<usize>| increasing(v) && v.to_set() == a
}

/// Two sequences of increasing states that hold the same states are equal.
pub proof fn lemma_increasing_unique(x: Seq<usize>, y: Seq<usize>)
    requires
        increasing(x),
        increasing(y),
        x.to_set() == y.to_set(),
    ensures
        x == y,
    decreases x.len() + y.len(),
{
    assert forall|c: usize| x.contains(c) <==> y.contains(c) by {
        assert(x.to_set().contains(c) <==> x.contains(c));
        assert(y.to_set().contains(c) <==> y.contains(c));
    }
    if x.len() == 0 || y.len() == 0 {
        if x.len() > 0 {
            assert(x.contains(x[0]));
        }
        if y.len() > 0 {
            assert(y.contains(y[0]));
        }
        assert(x =~= y);
    } else {
        assert(x.contains(x[0]));
        assert(y.contains(y[0]));
        let j = choose|j: int| 0 <= j < y.len() && y[j] == x[0];
        let i = choose|i: int| 0 <= i < x.len() && x[i] == y[0];
        if j > 0 {
            assert(y[0] < y[j]);
            if i > 0 {
                assert(x[0] < x[i]);
            }
        }
        assert(x[0] == y[0]);
        let x1 = x.drop_first();
        let y1 = y.drop_first();
        assert forall|c: usize| x1.to_set().contains(c) <==> y1.to_set().contains(c) by {
            if x1.contains(c) {
                let k = choose|k: int| 0 <= k < x1.len() && x1[k] == c;
                assert(x[k + 1] == c && x[0] < x[k + 1]);
                assert(y.contains(c));
                let m = choose|m: int| 0 <= m < y.len() && y[m] == c;
                assert(m != 0);
                assert(y1[m - 1] == c);
            }
            if y1.contains(c) {
                let k = choose|k: int| 0 <= k < y1.len() && y1[k] == c;
                assert(y[k + 1] == c && y[0] < y[k + 1]);
                assert(x.contains(c));
                let m = choose|m: int| 0 <= m < x.len() && x[m] == c;
                assert(m != 0);
                assert(x1[m - 1] == c);
            }
            assert(x1.to_set().contains(c) <==> x1.contains(c));
            assert(y1.to_set().contains(c) <==> y1.contains(c));
        }
        assert(x1.to_set() =~= y1.to_set());
        assert(increasing(x1)) by {
            assert forall|a: int, b: int| 0 <= a < b < x1.len() implies x1[a] < x1[b] by {
                assert(x1[a] == x[a + 1] && x1[b] == x[b + 1]);
            }
        }
        assert(increasing(y1)) by {
            assert forall|a: int, b: int| 0 <= a < b < y1.len() implies y1[a] < y1[b] by {
                assert(y1[a] == y[a + 1] && y1[b] == y[b + 1]);
            }
        }
        lemma_increasing_unique(x1, y1);
        assert(x =~= seq![x[0]] + x1);
        assert(y =~= seq![y[0]] + y1);
    }
}

/// The states of a set of states listed in increasing order: each once, and no other.
pub proof fn lemma_in_order(s: &BTreeSet<usize>)
    ensures
        increasing(in_order(s@)),
        in_order(s@).to_set() == s@,
{
    lemma_keys_increasing(s);
    let r = vstd::std_specs::iter::IteratorSpec::remaining(&vstd::std_specs::btree::spec_btree_keys_iter(s)).unref();
    assert(increasing(r));
}

/// The states of `s` in increasing order.
pub fn sorted_states(s: &BTreeSet<usize>) -> (v: Vec<usize>)
    ensures
        increasing(v@),
        v@.to_set() == s@,
        v@ == in_order(s@),
{
    let mut v: Vec<usize> = Vec::new();
    let ghost r = vstd::std_specs::iter::IteratorSpec::remaining(&vstd::std_specs::btree::spec_btree_keys_iter(s));
    proof {
        lemma_keys_increasing(s);
    }
    let ghost mut done: int = 0;
    for q in iter: s.iter()
        invariant
            r == vstd::std_specs::iter::IteratorSpec::remaining(&vstd::std_specs::btree::spec_btree_keys_iter(s)),
            iter.seq() == r,
            done == iter.index(),
            v@ == r.take(iter.index() as int).unref(),
    {
        v.push(*q);
        proof {
            assert(v@ =~= r.take(iter.index() + 1).unref());
            done = done + 1;
        }
    }
    proof {
        assert(done == r.len());
        assert(v@ =~= r.unref());
        let w = in_order(s@);
        assert(increasing(w) && w.to_set() == s@);
        lemma_increasing_unique(v@, w);
    }
    v
}

/// `2` to the power `n`.
pub open spec fn two_to(n: nat) -> nat
    decreases n,
{
    if n == 0 {
        1
    } else {
        2 * two_to((n - 1) as nat)
    }
}

/// All tables of `n` flags.
pub open spec fn all_flags(n: nat) -> Set<Seq<bool>> {
    Set::new(|b: Seq<bool>| b.len() == n)
}

/// There are `2^n` tables of `n` flags.
pub proof fn lemma_all_flags(n: nat)
    ensures
        all_flags(n).finite(),
        all_flags(n).len() == two_to(n),
    decreases n,
{
    if n == 0 {
        assert forall|b: Seq<bool>| all_flags(0).contains(b) <==> set![Seq::<bool>::empty()].contains(b) by {
            if b.len() == 0 {
                assert(b =~= Seq::<bool>::empty());
            }
        }
        assert(all_flags(0) =~= set![Seq::<bool>::empty()]);
        assert(set![Seq::<bool>::empty()].len() == 1) by {
            vstd::set_lib::lemma_set_empty_equivalency_len(Set::<Seq<bool>>::empty());
        }
    } else {
        let m = (n - 1) as nat;
        lemma_all_flags(m);
        let a = all_flags(m);
        let f0 = |b: Seq<bool>| b.push(false);
        let f1 = |b: Seq<bool>| b.push(true);
        let x0 = a.map(f0);
        let x1 = a.map(f1);
        assert(vstd::relations::injective_on(f0, a)) by {
            assert forall|b1: Seq<bool>, b2: Seq<bool>| a.contains(b1) && a.contains(b2) && #[trigger] f0(b1) == #[trigger] f0(b2)
                implies b1 == b2 by {
                assert(b1 =~= f0(b1).drop_last());
                assert(b2 =~= f0(b2).drop_last());
            }
        }
        assert(vstd::relations::injective_on(f1, a)) by {
            assert forall|b1: Seq<bool>, b2: Seq<bool>| a.contains(b1) && a.contains(b2) && #[trigger] f1(b1) == #[trigger] f1(b2)
                implies b1 == b2 by {
                assert(b1 =~= f1(b1).drop_last());
                assert(b2 =~= f1(b2).drop_last());
            }
        }
        vstd::set_lib::lemma_map_size(a, x0, f0);
        vstd::set_lib::lemma_map_size(a, x1, f1);
        assert(x0.disjoint(x1)) by {
            assert forall|b: Seq<bool>| !(x0.contains(b) && x1.contains(b)) by {
                if x0.contains(b) && x1.contains(b) {
                    let b0 = choose|b0: Seq<bool>| a.contains(b0) && f0(b0) == b;
                    let b1 = choose|b1: Seq<bool>| a.contains(b1) && f1(b1) == b;
                    assert(b[m as int] == false);
                    assert(b[m as int] == true);
                }
            }
        }
        assert(all_flags(n) =~= x0 + x1) by {
            assert forall|b: Seq<bool>| all_flags(n).contains(b) implies (x0 + x1).contains(b) by {
                let d = b.drop_last();
                assert(a.contains(d));
                if b.last() {
                    assert(f1(d) =~= b);
                } else {
                    assert(f0(d) =~= b);
                }
            }
        }
        vstd::set_lib::lemma_set_disjoint_lens(x0, x1);
    }
}

/// Distinct tables of `n` flags number at most `2^n`.
pub proof fn lemma_distinct_flags(s: Seq<Seq<bool>>, n: nat)
    requires
        s.no_duplicates(),
        forall|i: int| 0 <= i < s.len() ==> (#[trigger] s[i]).len() == n,
    ensures
        s.len() <= two_to(n),
{
    lemma_all_flags(n);
    s.unique_seq_to_set();
    assert(s.to_set().subset_of(all_flags(n))) by {
        assert forall|b: Seq<bool>| s.to_set().contains(b) implies all_flags(n).contains(b) by {
            let i = choose|i: int| 0 <= i < s.len() && s[i] == b;
        }
    }
    vstd::set_lib::lemma_len_subset(s.to_set(), all_flags(n));
}

} // verus!
