use vstd::prelude::*;

use crate::text::push_char;

verus! {

/// A regular expression over characters, in the sense of formal language theory.
#[derive(Debug, PartialEq, Eq)]
pub enum Regex {
    EmptySet,
    EmptyStr,
    Char(char),
    Union(Box<Regex>, Box<Regex>),
    Concat(Box<Regex>, Box<Regex>),
    Star(Box<Regex>),
}

/// The language of `r`: whether the word `w` belongs to it.
pub open spec fn in_lang(r: Regex, w: Seq<char>) -> bool
    decreases r, w.len(), w.len() + 2,
{
    match r {
        Regex::EmptySet => false,
        Regex::EmptyStr => w.len() == 0,
        Regex::Char(c) => w == seq![c],
        Regex::Union(a, b) => in_lang(*a, w) || in_lang(*b, w),
        Regex::Concat(_, _) => split_matches(r, w, 0),
        Regex::Star(_) => w.len() == 0 || split_matches(r, w, 1),
    }
}

/// For a concatenation `(ab)`: whether some cut `w = u v` at a position `k >= i` has
/// `u` in `a` and `v` in `b`. For a star `(a*)`: whether some cut at `k >= i` has
/// `u` in `a` and `v` in `(a*)`.
pub open spec fn split_matches(r: Regex, w: Seq<char>, i: int) -> bool
    decreases r, w.len(), w.len() + 1 - i,
{
    if i < 0 || i > w.len() {
        false
    } else {
        match r {
            Regex::Concat(a, b) => (in_lang(*a, w.take(i)) && in_lang(*b, w.skip(i)))
                || split_matches(r, w, i + 1),
            Regex::Star(a) => (i > 0 && in_lang(*a, w.take(i)) && in_lang(r, w.skip(i)))
                || split_matches(r, w, i + 1),
            _ => false,
        }
    }
}

/// The cut at position `k` of a concatenation or a star.
pub open spec fn cut_ok(r: Regex, w: Seq<char>, k: int) -> bool {
    match r {
        Regex::Concat(a, b) => in_lang(*a, w.take(k)) && in_lang(*b, w.skip(k)),
        Regex::Star(a) => 0 < k && in_lang(*a, w.take(k)) && in_lang(r, w.skip(k)),
        _ => false,
    }
}

proof fn lemma_split_matches(r: Regex, w: Seq<char>, i: int)
    requires
        0 <= i <= w.len(),
    ensures
        split_matches(r, w, i) <==> exists|k: int| i <= k <= w.len() && #[trigger] cut_ok(r, w, k),
    decreases w.len() + 1 - i,
{
    if i < w.len() {
        lemma_split_matches(r, w, i + 1);
    }
    assert(split_matches(r, w, i) == (cut_ok(r, w, i) || split_matches(r, w, i + 1)));
    if exists|k: int| i <= k <= w.len() && #[trigger] cut_ok(r, w, k) {
        let k = choose|k: int| i <= k <= w.len() && #[trigger] cut_ok(r, w, k);
        if k > i {
            assert(cut_ok(r, w, k));
        }
    }
}

/// A word is in the concatenation `(ab)` exactly when it splits into a word of `a`
/// followed by a word of `b`.
pub proof fn lemma_concat(a: Regex, b: Regex, w: Seq<char>)
    ensures
        in_lang(Regex::Concat(Box::new(a), Box::new(b)), w) <==> exists|k: int|
            0 <= k <= w.len() && #[trigger] in_lang(a, w.take(k)) && in_lang(b, w.skip(k)),
{
    let r = Regex::Concat(Box::new(a), Box::new(b));
    lemma_split_matches(r, w, 0);
    if in_lang(r, w) {
        let k = choose|k: int| 0 <= k <= w.len() && #[trigger] cut_ok(r, w, k);
        assert(in_lang(a, w.take(k)));
    }
    if exists|k: int| 0 <= k <= w.len() && #[trigger] in_lang(a, w.take(k)) && in_lang(b, w.skip(k)) {
        let k = choose|k: int| 0 <= k <= w.len() && #[trigger] in_lang(a, w.take(k)) && in_lang(b, w.skip(k));
        assert(cut_ok(r, w, k));
    }
}

/// A word is in the star `(a*)` exactly when it is empty or splits into a nonempty word
/// of `a` followed by a word of `(a*)`.
pub proof fn lemma_star(a: Regex, w: Seq<char>)
    ensures
        in_lang(Regex::Star(Box::new(a)), w) <==> (w.len() == 0 || exists|k: int|
            0 < k <= w.len() && #[trigger] in_lang(a, w.take(k)) && in_lang(Regex::Star(Box::new(a)), w.skip(k))),
{
    let r = Regex::Star(Box::new(a));
    if w.len() > 0 {
        lemma_split_matches(r, w, 1);
        if in_lang(r, w) {
            let k = choose|k: int| 1 <= k <= w.len() && #[trigger] cut_ok(r, w, k);
            assert(in_lang(a, w.take(k)));
        }
        if exists|k: int| 0 < k <= w.len() && #[trigger] in_lang(a, w.take(k)) && in_lang(r, w.skip(k)) {
            let k = choose|k: int| 0 < k <= w.len() && #[trigger] in_lang(a, w.take(k)) && in_lang(r, w.skip(k));
            assert(cut_ok(r, w, k));
        }
    }
}

/// The two expressions denote the same language.
pub open spec fn equivalent(r1: Regex, r2: Regex) -> bool {
    forall|w: Seq<char>| #[trigger] in_lang(r1, w) == in_lang(r2, w)
}

/// The characters that occur in `r`.
pub open spec fn symbols(r: Regex) -> Set<char>
    decreases r,
{
    match r {
        Regex::Char(c) => set![c],
        Regex::Union(a, b) => symbols(*a) + symbols(*b),
        Regex::Concat(a, b) => symbols(*a) + symbols(*b),
        Regex::Star(a) => symbols(*a),
        _ => Set::empty(),
    }
}

/// `s` extended by the characters of `r`, taken left to right, each one that is
/// not in it yet appended once.
pub open spec fn alphabet_after(r: Regex, s: Seq<char>) -> Seq<char>
    decreases r,
{
    match r {
        Regex::Char(c) => if s.contains(c) { s } else { s.push(c) },
        Regex::Union(a, b) => alphabet_after(*b, alphabet_after(*a, s)),
        Regex::Concat(a, b) => alphabet_after(*b, alphabet_after(*a, s)),
        Regex::Star(a) => alphabet_after(*a, s),
        _ => s,
    }
}

/// The fully parenthesised notation of `r`: `#`, `$`, the character itself,
/// `(a|b)`, `(ab)` and `(a*)`.
pub open spec fn show(r: Regex) -> Seq<char>
    decreases r,
{
    match r {
        Regex::EmptySet => seq!['#'],
        Regex::EmptyStr => seq!['$'],
        Regex::Char(c) => seq![c],
        Regex::Union(a, b) => seq!['('] + show(*a) + seq!['|'] + show(*b) + seq![')'],
        Regex::Concat(a, b) => seq!['('] + show(*a) + show(*b) + seq![')'],
        Regex::Star(a) => seq!['('] + show(*a) + seq!['*', ')'],
    }
}

/// Every word of the language of `r` is spelled with the characters of `r` alone.
pub proof fn lemma_words_use_symbols(r: Regex, w: Seq<char>)
    requires
        in_lang(r, w),
    ensures
        forall|i: int| 0 <= i < w.len() ==> symbols(r).contains(#[trigger] w[i]),
    decreases r, w.len(),
{
    match r {
        Regex::Union(a, b) => {
            if in_lang(*a, w) {
                lemma_words_use_symbols(*a, w);
            } else {
                lemma_words_use_symbols(*b, w);
            }
        },
        Regex::Concat(a, b) => {
            lemma_concat(*a, *b, w);
            let k = choose|k: int| 0 <= k <= w.len() && #[trigger] in_lang(*a, w.take(k)) && in_lang(*b, w.skip(k));
            lemma_words_use_symbols(*a, w.take(k));
            lemma_words_use_symbols(*b, w.skip(k));
            assert forall|i: int| 0 <= i < w.len() implies symbols(r).contains(#[trigger] w[i]) by {
                if i < k {
                    assert(w.take(k)[i] == w[i]);
                } else {
                    assert(w.skip(k)[i - k] == w[i]);
                }
            }
        },
        Regex::Star(a) => {
            if w.len() > 0 {
                lemma_star(*a, w);
                let k = choose|k: int| 0 < k <= w.len() && #[trigger] in_lang(*a, w.take(k)) && in_lang(Regex::Star(a), w.skip(k));
                lemma_words_use_symbols(*a, w.take(k));
                lemma_words_use_symbols(r, w.skip(k));
                assert forall|i: int| 0 <= i < w.len() implies symbols(r).contains(#[trigger] w[i]) by {
                    if i < k {
                        assert(w.take(k)[i] == w[i]);
                    } else {
                        assert(w.skip(k)[i - k] == w[i]);
                    }
                }
            }
        },
        Regex::Char(c) => {
            assert forall|i: int| 0 <= i < w.len() implies symbols(r).contains(#[trigger] w[i]) by {
                assert(w[i] == c);
            }
        },
        _ => {},
    }
}

/// The characters of `alphabet_after(r, s)` are those of `s` and those of `r`, each once
/// when `s` has no repetition.
pub proof fn lemma_alphabet_after(r: Regex, s: Seq<char>)
    ensures
        alphabet_after(r, s).to_set() == s.to_set() + symbols(r),
        s.no_duplicates() ==> alphabet_after(r, s).no_duplicates(),
        s.is_prefix_of(alphabet_after(r, s)),
    decreases r,
{
    match r {
        Regex::Char(c) => {
            if s.contains(c) {
                assert(s.to_set() + set![c] =~= s.to_set());
            } else {
                assert(s.push(c).to_set() =~= s.to_set() + set![c]) by {
                    assert forall|x: char| s.push(c).to_set().contains(x) <==> (s.to_set() + set![c]).contains(x) by {
                        if x == c {
                            assert(s.push(c)[s.len() as int] == c);
                        } else if s.push(c).contains(x) {
                            let j = choose|j: int| 0 <= j < s.push(c).len() && s.push(c)[j] == x;
                            assert(s[j] == x);
                        } else if s.contains(x) {
                            let j = choose|j: int| 0 <= j < s.len() && s[j] == x;
                            assert(s.push(c)[j] == x);
                        }
                    }
                }
                if s.no_duplicates() {
                    assert(s.push(c).no_duplicates()) by {
                        assert forall|i: int, j: int| 0 <= i < s.push(c).len() && 0 <= j < s.push(c).len() && i != j
                            implies s.push(c)[i] != s.push(c)[j] by {
                            if i == s.len() {
                                assert(s[j] == s.push(c)[j]);
                            } else if j == s.len() {
                                assert(s[i] == s.push(c)[i]);
                            }
                        }
                    }
                }
                assert(s.is_prefix_of(s.push(c))) by {
                    assert(s.push(c).subrange(0, s.len() as int) =~= s);
                }
            }
        },
        Regex::Union(a, b) => {
            lemma_alphabet_after(*a, s);
            lemma_alphabet_after(*b, alphabet_after(*a, s));
            assert(alphabet_after(r, s).to_set() =~= s.to_set() + symbols(r));
            lemma_prefix_trans(s, alphabet_after(*a, s), alphabet_after(r, s));
        },
        Regex::Concat(a, b) => {
            lemma_alphabet_after(*a, s);
            lemma_alphabet_after(*b, alphabet_after(*a, s));
            assert(alphabet_after(r, s).to_set() =~= s.to_set() + symbols(r));
            lemma_prefix_trans(s, alphabet_after(*a, s), alphabet_after(r, s));
        },
        Regex::Star(a) => {
            lemma_alphabet_after(*a, s);
        },
        _ => {
            assert(s.to_set() + symbols(r) =~= s.to_set());
            assert(s.subrange(0, s.len() as int) =~= s);
        },
    }
}

proof fn lemma_prefix_trans(a: Seq<char>, b: Seq<char>, c: Seq<char>)
    requires
        a.is_prefix_of(b),
        b.is_prefix_of(c),
    ensures
        a.is_prefix_of(c),
{
    assert(c.subrange(0, a.len() as int) =~= b.subrange(0, a.len() as int));
}

fn vec_contains_char(v: &Vec<char>, c: char) -> (r: bool)
    ensures
        r == v@.contains(c),
{
    let mut i: usize = 0;
    while i < v.len()
        invariant
            i <= v.len(),
            forall|j: int| 0 <= j < i ==> v@[j] != c,
        decreases v.len() - i,
    {
        if v[i] == c {
            return true;
        }
        i = i + 1;
    }
    false
}

impl Regex {
    /// Appends to `set`, left to right, each character of the expression that `set`
    /// does not hold yet.
    pub fn collect_alphabet(&self, set: &mut Vec<char>)
        ensures
            final(set)@ == alphabet_after(*self, old(set)@),
        decreases self,
    {
        match self {
            Regex::Char(c) => {
                if !vec_contains_char(set, *c) {
                    set.push(*c);
                }
            },
            Regex::Union(l, r) => {
                l.collect_alphabet(set);
                r.collect_alphabet(set);
            },
            Regex::Concat(l, r) => {
                l.collect_alphabet(set);
                r.collect_alphabet(set);
            },
            Regex::Star(r) => r.collect_alphabet(set),
            _ => {},
        }
    }

    fn write_to(&self, out: &mut String)
        ensures
            final(out)@ == old(out)@ + show(*self),
        decreases self,
    {
        match self {
            Regex::EmptySet => push_char(out, '#'),
            Regex::EmptyStr => push_char(out, '$'),
            Regex::Char(c) => push_char(out, *c),
            Regex::Union(l, r) => {
                push_char(out, '(');
                l.write_to(out);
                push_char(out, '|');
                r.write_to(out);
                push_char(out, ')');
            },
            Regex::Concat(l, r) => {
                push_char(out, '(');
                l.write_to(out);
                r.write_to(out);
                push_char(out, ')');
            },
            Regex::Star(r) => {
                push_char(out, '(');
                r.write_to(out);
                push_char(out, '*');
                push_char(out, ')');
            },
        }
        assert(final(out)@ =~= old(out)@ + show(*self));
    }

    /// The fully parenthesised notation of the expression.
    pub fn to_string(&self) -> (s: String)
        ensures
            s@ == show(*self),
    {
        let mut out = String::new();
        self.write_to(&mut out);
        assert(out@ =~= show(*self));
        out
    }
}

impl Clone for Regex {
    fn clone(&self) -> (res: Self)
        ensures
            res == *self,
        decreases self,
    {
        match self {
            Regex::EmptySet => Regex::EmptySet,
            Regex::EmptyStr => Regex::EmptyStr,
            Regex::Char(c) => Regex::Char(*c),
            Regex::Union(a, b) => Regex::Union(Box::new((**a).clone()), Box::new((**b).clone())),
            Regex::Concat(a, b) => Regex::Concat(Box::new((**a).clone()), Box::new((**b).clone())),
            Regex::Star(a) => Regex::Star(Box::new((**a).clone())),
        }
    }
}

} // verus!
