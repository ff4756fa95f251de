use vstd::prelude::*;

pub mod canonical;
pub mod dfa;
pub mod fsm;
pub mod nfa;
pub mod parser;
pub mod regex;
pub mod stateset;
pub mod text;
pub mod thompson;

use crate::dfa::{merge_alphabets, DFA};
use crate::fsm::parse_str;
use crate::nfa::NFA;
use crate::parser::Parser;
use crate::regex::Regex;
use crate::text::symbol_list;

verus! {

/// The symbols of the two expressions, each once, in increasing order.
fn joint_alphabet(re1: &Regex, re2: &Regex) -> (a: Vec<char>)
    ensures
        crate::dfa::strictly_sorted(a@),
        forall|c: char| #[trigger] a@.contains(c) <==> (crate::regex::symbols(*re1).contains(c) || crate::regex::symbols(*re2).contains(c)),
{
    let mut a1: Vec<char> = Vec::new();
    re1.collect_alphabet(&mut a1);
    let mut a2: Vec<char> = Vec::new();
    re2.collect_alphabet(&mut a2);
    proof {
        crate::regex::lemma_alphabet_after(*re1, Seq::empty());
        crate::regex::lemma_alphabet_after(*re2, Seq::empty());
        assert(Seq::<char>::empty().to_set() =~= Set::<char>::empty());
        assert forall|c: char| a1@.contains(c) <==> crate::regex::symbols(*re1).contains(c) by {
            assert(a1@.to_set().contains(c) <==> a1@.contains(c));
        }
        assert forall|c: char| a2@.contains(c) <==> crate::regex::symbols(*re2).contains(c) by {
            assert(a2@.to_set().contains(c) <==> a2@.contains(c));
        }
    }
    merge_alphabets(&a1, &a2)
}

/// Restricting two languages to the words over an alphabet that holds the symbols of
/// both expressions keeps them equal or unequal.
proof fn lemma_restricted_equivalence(r1: Regex, r2: Regex, a: Seq<char>)
    requires
        forall|c: char| crate::regex::symbols(r1).contains(c) ==> a.contains(c),
        forall|c: char| crate::regex::symbols(r2).contains(c) ==> a.contains(c),
    ensures
        crate::regex::equivalent(r1, r2) == forall|w: Seq<char>|
            (#[trigger] crate::dfa::word_over(w, a) && crate::regex::in_lang(r1, w)) == (crate::dfa::word_over(w, a) && crate::regex::in_lang(r2, w)),
{
    assert forall|w: Seq<char>| #[trigger] crate::regex::in_lang(r1, w) implies crate::dfa::word_over(w, a) by {
        crate::regex::lemma_words_use_symbols(r1, w);
    }
    assert forall|w: Seq<char>| #[trigger] crate::regex::in_lang(r2, w) implies crate::dfa::word_over(w, a) by {
        crate::regex::lemma_words_use_symbols(r2, w);
    }
    if forall|w: Seq<char>| (#[trigger] crate::dfa::word_over(w, a) && crate::regex::in_lang(r1, w))
        == (crate::dfa::word_over(w, a) && crate::regex::in_lang(r2, w)) {
        assert forall|w: Seq<char>| #[trigger] crate::regex::in_lang(r1, w) == crate::regex::in_lang(r2, w) by {
            assert((crate::dfa::word_over(w, a) && crate::regex::in_lang(r1, w))
                == (crate::dfa::word_over(w, a) && crate::regex::in_lang(r2, w)));
        }
    }
}

/// `n` is the automaton of Thompson's construction for `r`, its states named `q0`, `q1`, ...
pub open spec fn thompson_automaton(r: Regex, n: NFA) -> bool {
    let (t, s, a) = crate::nfa::thompson(r, Seq::empty());
    &&& n.rows() == t
    &&& n.start == s
    &&& n.accept == a
    &&& n.state_count == crate::nfa::state_total(r)
    &&& n.wf()
    &&& forall|w: Seq<char>| #[trigger] n.accepts(w) <==> crate::regex::in_lang(r, w)
    &&& n.state_names@.len() == n.state_count
    &&& forall|i: int| 0 <= i < n.state_count ==> (#[trigger] n.state_names@[i])@ == crate::nfa::q_name(i as nat)
}

/// `d` is the automaton the subset construction over `a` gives for `n`: complete over
/// `a`, starting in state 0, accepting the words over `a` that `n` accepts, its states
/// numbered as the construction meets them.
pub open spec fn subset_automaton(n: NFA, a: Seq<char>, d: DFA) -> bool {
    &&& d.wf()
    &&& d.complete_over(a)
    &&& d.alphabet@ == a
    &&& d.start == 0
    &&& forall|w: Seq<char>| #[trigger] d.accepts(w) <==> (crate::dfa::word_over(w, a) && n.accepts(w))
    &&& exists|ss: Seq<Set<usize>>| #[trigger] crate::dfa::subset_numbering(n, a, d, ss)
    &&& forall|q: int| 0 <= q < d.state_count ==> #[trigger] d.reachable(q)
}

/// The automata that comparing `r1` with `r2` goes through: Thompson automata, subset
/// automata over the joint alphabet `a` (the symbols of both, in increasing order) and
/// their minimal automata, as Hopcroft's refinement numbers their states.
pub open spec fn comparison_steps(r1: Regex, r2: Regex, a: Seq<char>, n1: NFA, n2: NFA, d1: DFA, d2: DFA, m1: DFA, m2: DFA) -> bool {
    &&& crate::dfa::strictly_sorted(a)
    &&& forall|c: char| #[trigger] a.contains(c) <==> (crate::regex::symbols(r1).contains(c) || crate::regex::symbols(r2).contains(c))
    &&& thompson_automaton(r1, n1)
    &&& thompson_automaton(r2, n2)
    &&& subset_automaton(n1, a, d1)
    &&& subset_automaton(n2, a, d2)
    &&& crate::canonical::minimal_automaton(d1, m1)
    &&& crate::canonical::minimal_automaton(d2, m2)
    &&& crate::dfa::hopcroft_quotient(d1, m1)
    &&& crate::dfa::hopcroft_quotient(d2, m2)
}

/// Expressions that denote the same language give, on the way of a comparison, minimal
/// automata that differ only in the numbering of their states.
pub proof fn law_equivalent_expressions_same_minimal_automaton(
    r1: Regex,
    r2: Regex,
    a: Seq<char>,
    n1: NFA,
    n2: NFA,
    d1: DFA,
    d2: DFA,
    m1: DFA,
    m2: DFA,
)
    requires
        comparison_steps(r1, r2, a, n1, n2, d1, d2, m1, m2),
        crate::regex::equivalent(r1, r2),
    ensures
        exists|f: spec_fn(int) -> int| #[trigger] crate::canonical::isomorphic_by(m1, m2, f),
{
    assert forall|w: Seq<char>| #[trigger] d1.accepts(w) == d2.accepts(w) by {
        assert(n1.accepts(w) == crate::regex::in_lang(r1, w));
        assert(n2.accepts(w) == crate::regex::in_lang(r2, w));
        assert(crate::regex::in_lang(r1, w) == crate::regex::in_lang(r2, w));
    }
    crate::canonical::law_minimal_automaton_unique(d1, d2, m1, m2);
}

/// Two sequences whose symbols increase strictly and that hold the same symbols are equal.
proof fn lemma_sorted_unique(x: Seq<char>, y: Seq<char>)
    requires
        crate::dfa::strictly_sorted(x),
        crate::dfa::strictly_sorted(y),
        forall|c: char| x.contains(c) <==> y.contains(c),
    ensures
        x == y,
    decreases x.len() + y.len(),
{
    if x.len() == 0 || y.len() == 0 {
        if x.len() > 0 {
            assert(x.contains(x[0]));
        }
        if y.len() > 0 {
            assert(y.contains(y[0]));
        }
        assert(x =~= y);
    } else {
        assert(x.contains(x[0]));
        assert(y.contains(y[0]));
        let j = choose|j: int| 0 <= j < y.len() && y[j] == x[0];
        let i = choose|i: int| 0 <= i < x.len() && x[i] == y[0];
        if j > 0 {
            assert(y[0] < y[j]);
            if i > 0 {
                assert(x[0] < x[i]);
            }
        }
        assert(x[0] == y[0]);
        let x1 = x.drop_first();
        let y1 = y.drop_first();
        assert forall|c: char| x1.contains(c) <==> y1.contains(c) by {
            if x1.contains(c) {
                let k = choose|k: int| 0 <= k < x1.len() && x1[k] == c;
                assert(x[k + 1] == c && x[0] < x[k + 1]);
                assert(y.contains(c));
                let m = choose|m: int| 0 <= m < y.len() && y[m] == c;
                assert(m != 0);
                assert(y1[m - 1] == c);
            }
            if y1.contains(c) {
                let k = choose|k: int| 0 <= k < y1.len() && y1[k] == c;
                assert(y[k + 1] == c && y[0] < y[k + 1]);
                assert(x.contains(c));
                let m = choose|m: int| 0 <= m < x.len() && x[m] == c;
                assert(m != 0);
                assert(x1[m - 1] == c);
            }
        }
        assert(crate::dfa::strictly_sorted(x1)) by {
            assert forall|a: int, b: int| 0 <= a < b < x1.len() implies x1[a] < x1[b] by {
                assert(x1[a] == x[a + 1] && x1[b] == x[b + 1]);
            }
        }
        assert(crate::dfa::strictly_sorted(y1)) by {
            assert forall|a: int, b: int| 0 <= a < b < y1.len() implies y1[a] < y1[b] by {
                assert(y1[a] == y[a + 1] && y1[b] == y[b + 1]);
            }
        }
        lemma_sorted_unique(x1, y1);
        assert(x =~= seq![x[0]] + x1);
        assert(y =~= seq![y[0]] + y1);
    }
}

/// The automaton of an expression reads exactly the symbols of the expression, so the
/// list of its symbols in increasing order (what `NFA::collect_alphabet` gives) is the
/// list of the expression's symbols (what `Regex::collect_alphabet` gathers), sorted.
pub proof fn law_automaton_symbols(r: Regex, n: NFA, from_automaton: Seq<char>, from_expression: Seq<char>)
    requires
        thompson_automaton(r, n),
        crate::dfa::strictly_sorted(from_automaton),
        forall|c: char| #[trigger] from_automaton.contains(c) <==> n.has_symbol(c),
        crate::dfa::strictly_sorted(from_expression),
        from_expression.to_set() == crate::regex::symbols(r),
    ensures
        forall|c: char| #[trigger] n.has_symbol(c) <==> crate::regex::symbols(r).contains(c),
        from_automaton == from_expression,
{
    assert forall|c: char| #[trigger] n.has_symbol(c) <==> crate::regex::symbols(r).contains(c) by {
        crate::nfa::lemma_thompson_symbols(r, Seq::empty(), c);
        let rows = n.rows();
        if n.has_symbol(c) {
            let (s, k) = choose|s: int, k: int| #![trigger n.transitions@[s]@[k]]
                0 <= s < n.transitions@.len() && 0 <= k < n.transitions@[s]@.len() && n.transitions@[s]@[k].0 == Some(c);
            assert(rows[s][k] == n.transitions@[s]@[k]);
        }
        if crate::nfa::table_has_symbol(rows, c) {
            let (s, k) = choose|s: int, k: int| #![trigger rows[s][k]] 0 <= s < rows.len() && 0 <= k < rows[s].len() && rows[s][k].0 == Some(c);
            assert(rows[s][k] == n.transitions@[s]@[k]);
        }
    }
    assert forall|c: char| from_automaton.contains(c) <==> from_expression.contains(c) by {
        assert(from_expression.to_set().contains(c) <==> from_expression.contains(c));
    }
    lemma_sorted_unique(from_automaton, from_expression);
}

/// Builds the automata that comparing `re1` with `re2` goes through, and tells whether the
/// expressions denote the same language.
fn comparison(re1: &Regex, re2: &Regex) -> (res: (Vec<char>, NFA, NFA, DFA, DFA, DFA, DFA, bool))
    requires
        crate::nfa::state_total(*re1) <= usize::MAX,
        crate::nfa::state_total(*re2) <= usize::MAX,
    ensures
        comparison_steps(*re1, *re2, res.0@, res.1, res.2, res.3, res.4, res.5, res.6),
        res.7 == crate::regex::equivalent(*re1, *re2),
{
    let nfa1 = NFA::from_regex(re1);
    let nfa2 = NFA::from_regex(re2);
    let alphabet = joint_alphabet(re1, re2);
    let dfa1 = DFA::from_nfa(&nfa1, &alphabet);
    let dfa2 = DFA::from_nfa(&nfa2, &alphabet);
    let min1 = dfa1.minimize();
    let min2 = dfa2.minimize();
    let eq = min1.is_equivalent_to(&min2);
    proof {
        let a = alphabet@;
        lemma_restricted_equivalence(*re1, *re2, a);
        assert forall|w: Seq<char>| #[trigger] min1.accepts(w) == (crate::dfa::word_over(w, a) && crate::regex::in_lang(*re1, w)) by {
            assert(min1.accepts(w) == dfa1.accepts(w));
            assert(nfa1.accepts(w) == crate::regex::in_lang(*re1, w));
        }
        assert forall|w: Seq<char>| #[trigger] min2.accepts(w) == (crate::dfa::word_over(w, a) && crate::regex::in_lang(*re2, w)) by {
            assert(min2.accepts(w) == dfa2.accepts(w));
            assert(nfa2.accepts(w) == crate::regex::in_lang(*re2, w));
        }
        if eq {
            assert forall|w: Seq<char>| (#[trigger] crate::dfa::word_over(w, a) && crate::regex::in_lang(*re1, w))
                == (crate::dfa::word_over(w, a) && crate::regex::in_lang(*re2, w)) by {
                assert(min1.accepts(w) == min2.accepts(w));
            }
        } else {
            let w = choose|w: Seq<char>| #[trigger] min1.accepts(w) != min2.accepts(w);
            assert(min1.accepts(w) != min2.accepts(w));
            assert((crate::dfa::word_over(w, a) && crate::regex::in_lang(*re1, w))
                != (crate::dfa::word_over(w, a) && crate::regex::in_lang(*re2, w)));
        }
    }
    (alphabet, nfa1, nfa2, dfa1, dfa2, min1, min2, eq)
}

/// Whether two parsed expressions denote the same language.
pub fn equivalent_regexes(re1: &Regex, re2: &Regex) -> (eq: bool)
    requires
        crate::nfa::state_total(*re1) <= usize::MAX,
        crate::nfa::state_total(*re2) <= usize::MAX,
    ensures
        eq == crate::regex::equivalent(*re1, *re2),
{
    let (_, _, _, _, _, _, _, eq) = comparison(re1, re2);
    eq
}

/// Whether the two expressions, given as text, denote the same language; the message of
/// the first one that does not parse otherwise.
pub fn compare(regex1: &str, regex2: &str) -> (res: Result<bool, String>)
    requires
        regex1@.len() <= usize::MAX / 2,
        regex2@.len() <= usize::MAX / 2,
    ensures
        match crate::parser::parse_result(regex1@) {
            Err(m) => res is Err && res->Err_0@ == m,
            Ok(r1) => match crate::parser::parse_result(regex2@) {
                Err(m) => res is Err && res->Err_0@ == m,
                Ok(r2) => res == Ok::<bool, String>(crate::regex::equivalent(r1, r2)),
            },
        },
{
    let re1 = match Parser::parse(regex1) {
        Ok(r) => r,
        Err(e) => return Err(e),
    };
    let re2 = match Parser::parse(regex2) {
        Ok(r) => r,
        Err(e) => return Err(e),
    };
    proof {
        crate::parser::lemma_parsed_size(regex1@);
        crate::parser::lemma_parsed_size(regex2@);
    }
    Ok(equivalent_regexes(&re1, &re2))
}

/// The report on a comparison: each expression as given and as read, the joint alphabet,
/// the automata of every step, and the verdict.
pub open spec fn report_text(
    in1: Seq<char>,
    in2: Seq<char>,
    r1: Regex,
    r2: Regex,
    a: Seq<char>,
    n1: NFA,
    n2: NFA,
    d1: DFA,
    d2: DFA,
    m1: DFA,
    m2: DFA,
    eq: bool,
) -> Seq<char> {
    "== 正则表达式1 ==\n输入: "@ + in1 + "\nAST : "@ + crate::regex::show(r1) + "\n\n"@
        + "== 正则表达式2 ==\n输入: "@ + in2 + "\nAST : "@ + crate::regex::show(r2) + "\n\n"@
        + "== 字母表 ==\n"@ + crate::text::list_text(a) + "\n\n"@
        + "== NFA1 ==\n"@ + n1.text() + "\n\n"@
        + "== NFA2 ==\n"@ + n2.text() + "\n\n"@
        + "== DFA1 ==\n"@ + d1.text() + "\n\n"@
        + "== DFA2 ==\n"@ + d2.text() + "\n\n"@
        + "== 最小化DFA1 ==\n"@ + m1.text() + "\n\n"@
        + "== 最小化DFA2 ==\n"@ + m2.text() + "\n\n"@
        + "== 结论 ==\n"@ + if eq { "等价\n"@ } else { "不等价\n"@ }
}

/// A comparison report closes with its conclusion: under the heading `== 结论 ==` it
/// says `等价` exactly when the two expressions denote the same language (when `compare`
/// answers `Ok(true)`), and it never opens like an error message.
pub proof fn law_verbose_verdict(in1: Seq<char>, in2: Seq<char>, r1: Regex, r2: Regex, out: Seq<char>)
    requires
        is_report(in1, in2, r1, r2, out),
    ensures
        ({
            let v = "== 结论 ==\n等价\n"@;
            let u = "== 结论 ==\n不等价\n"@;
            &&& out.len() >= u.len()
            &&& (out.subrange(out.len() - v.len(), out.len() as int) == v) == crate::regex::equivalent(r1, r2)
            &&& (out.subrange(out.len() - u.len(), out.len() as int) == u) == !crate::regex::equivalent(r1, r2)
            &&& !"错误:"@.is_prefix_of(out)
        }),
{
    reveal(is_report);
    let (a, n1, n2, d1, d2, m1, m2) = choose|a: Seq<char>, n1: NFA, n2: NFA, d1: DFA, d2: DFA, m1: DFA, m2: DFA|
        #[trigger] comparison_steps(r1, r2, a, n1, n2, d1, d2, m1, m2)
        && out == report_text(in1, in2, r1, r2, a, n1, n2, d1, d2, m1, m2, crate::regex::equivalent(r1, r2))
        && forall|i: int| 0 <= i < a.len() && crate::text::quoted_plainly(a[i])
            ==> #[trigger] crate::text::char_debug(a[i]) == seq!['\'', a[i], '\''];
    lemma_report_verdict(in1, in2, r1, r2, a, n1, n2, d1, d2, m1, m2, crate::regex::equivalent(r1, r2));
}

/// A comparison report shows, in order, each expression as given and as read, the symbols
/// of both in increasing order, and for each expression in turn its Thompson automaton,
/// its subset automaton over those symbols and its minimal automaton, each under its own
/// heading, and last the conclusion, `等价` exactly when the two expressions denote the same
/// language.
#[verifier::spinoff_prover]
pub proof fn law_report_sections(in1: Seq<char>, in2: Seq<char>, r1: Regex, r2: Regex, out: Seq<char>)
    requires
        is_report(in1, in2, r1, r2, out),
    ensures
        exists|a: Seq<char>, n1: NFA, n2: NFA, d1: DFA, d2: DFA, m1: DFA, m2: DFA| {
            &&& crate::dfa::strictly_sorted(a)
            &&& forall|c: char| #[trigger] a.contains(c) <==> (crate::regex::symbols(r1).contains(c) || crate::regex::symbols(r2).contains(c))
            &&& #[trigger] thompson_automaton(r1, n1)
            &&& #[trigger] thompson_automaton(r2, n2)
            &&& #[trigger] subset_automaton(n1, a, d1)
            &&& #[trigger] subset_automaton(n2, a, d2)
            &&& #[trigger] crate::canonical::minimal_automaton(d1, m1)
            &&& #[trigger] crate::canonical::minimal_automaton(d2, m2)
            &&& out == ("== 正则表达式1 ==\n输入: "@ + in1 + "\nAST : "@ + crate::regex::show(r1) + "\n\n"@)
                + ("== 正则表达式2 ==\n输入: "@ + in2 + "\nAST : "@ + crate::regex::show(r2) + "\n\n"@)
                + ("== 字母表 ==\n"@ + crate::text::list_text(a) + "\n\n"@)
                + ("== NFA1 ==\n"@ + n1.text() + "\n\n"@)
                + ("== NFA2 ==\n"@ + n2.text() + "\n\n"@)
                + ("== DFA1 ==\n"@ + d1.text() + "\n\n"@)
                + ("== DFA2 ==\n"@ + d2.text() + "\n\n"@)
                + ("== 最小化DFA1 ==\n"@ + m1.text() + "\n\n"@)
                + ("== 最小化DFA2 ==\n"@ + m2.text() + "\n\n"@)
                + ("== 结论 ==\n"@ + if crate::regex::equivalent(r1, r2) { "等价\n"@ } else { "不等价\n"@ })
        },
{
    reveal(is_report);
    let (a, n1, n2, d1, d2, m1, m2) = choose|a: Seq<char>, n1: NFA, n2: NFA, d1: DFA, d2: DFA, m1: DFA, m2: DFA|
        #[trigger] comparison_steps(r1, r2, a, n1, n2, d1, d2, m1, m2)
        && out == report_text(in1, in2, r1, r2, a, n1, n2, d1, d2, m1, m2, crate::regex::equivalent(r1, r2))
        && forall|i: int| 0 <= i < a.len() && crate::text::quoted_plainly(a[i])
            ==> #[trigger] crate::text::char_debug(a[i]) == seq!['\'', a[i], '\''];
    lemma_report_regroup(in1, in2, r1, r2, a, n1, n2, d1, d2, m1, m2, crate::regex::equivalent(r1, r2));
    assert(thompson_automaton(r1, n1) && thompson_automaton(r2, n2));
    assert(subset_automaton(n1, a, d1) && subset_automaton(n2, a, d2));
    assert(crate::canonical::minimal_automaton(d1, m1) && crate::canonical::minimal_automaton(d2, m2));
}

proof fn lemma_report_regroup(
    in1: Seq<char>,
    in2: Seq<char>,
    r1: Regex,
    r2: Regex,
    a: Seq<char>,
    n1: NFA,
    n2: NFA,
    d1: DFA,
    d2: DFA,
    m1: DFA,
    m2: DFA,
    eq: bool,
)
    ensures
        report_text(in1, in2, r1, r2, a, n1, n2, d1, d2, m1, m2, eq)
            == ("== 正则表达式1 ==\n输入: "@ + in1 + "\nAST : "@ + crate::regex::show(r1) + "\n\n"@)
            + ("== 正则表达式2 ==\n输入: "@ + in2 + "\nAST : "@ + crate::regex::show(r2) + "\n\n"@)
            + ("== 字母表 ==\n"@ + crate::text::list_text(a) + "\n\n"@)
            + ("== NFA1 ==\n"@ + n1.text() + "\n\n"@)
            + ("== NFA2 ==\n"@ + n2.text() + "\n\n"@)
            + ("== DFA1 ==\n"@ + d1.text() + "\n\n"@)
            + ("== DFA2 ==\n"@ + d2.text() + "\n\n"@)
            + ("== 最小化DFA1 ==\n"@ + m1.text() + "\n\n"@)
            + ("== 最小化DFA2 ==\n"@ + m2.text() + "\n\n"@)
            + ("== 结论 ==\n"@ + if eq { "等价\n"@ } else { "不等价\n"@ }),
{
    let s1 = "== 正则表达式1 ==\n输入: "@ + in1 + "\nAST : "@ + crate::regex::show(r1) + "\n\n"@;
    let s2 = "== 正则表达式2 ==\n输入: "@ + in2 + "\nAST : "@ + crate::regex::show(r2) + "\n\n"@;
    let s3 = "== 字母表 ==\n"@ + crate::text::list_text(a) + "\n\n"@;
    let s4 = "== NFA1 ==\n"@ + n1.text() + "\n\n"@;
    let s5 = "== NFA2 ==\n"@ + n2.text() + "\n\n"@;
    let s6 = "== DFA1 ==\n"@ + d1.text() + "\n\n"@;
    let s7 = "== DFA2 ==\n"@ + d2.text() + "\n\n"@;
    let s8 = "== 最小化DFA1 ==\n"@ + m1.text() + "\n\n"@;
    let s9 = "== 最小化DFA2 ==\n"@ + m2.text() + "\n\n"@;
    let s10 = "== 结论 ==\n"@ + if eq { "等价\n"@ } else { "不等价\n"@ };
    let p2 = s1 + "== 正则表达式2 ==\n输入: "@ + in2 + "\nAST : "@ + crate::regex::show(r2) + "\n\n"@;
    lemma_append5(s1, "== 正则表达式2 ==\n输入: "@, in2, "\nAST : "@, crate::regex::show(r2), "\n\n"@);
    let p3 = p2 + "== 字母表 ==\n"@ + crate::text::list_text(a) + "\n\n"@;
    lemma_append3(p2, "== 字母表 ==\n"@, crate::text::list_text(a), "\n\n"@);
    let p4 = p3 + "== NFA1 ==\n"@ + n1.text() + "\n\n"@;
    lemma_append3(p3, "== NFA1 ==\n"@, n1.text(), "\n\n"@);
    let p5 = p4 + "== NFA2 ==\n"@ + n2.text() + "\n\n"@;
    lemma_append3(p4, "== NFA2 ==\n"@, n2.text(), "\n\n"@);
    let p6 = p5 + "== DFA1 ==\n"@ + d1.text() + "\n\n"@;
    lemma_append3(p5, "== DFA1 ==\n"@, d1.text(), "\n\n"@);
    let p7 = p6 + "== DFA2 ==\n"@ + d2.text() + "\n\n"@;
    lemma_append3(p6, "== DFA2 ==\n"@, d2.text(), "\n\n"@);
    let p8 = p7 + "== 最小化DFA1 ==\n"@ + m1.text() + "\n\n"@;
    lemma_append3(p7, "== 最小化DFA1 ==\n"@, m1.text(), "\n\n"@);
    let p9 = p8 + "== 最小化DFA2 ==\n"@ + m2.text() + "\n\n"@;
    lemma_append3(p8, "== 最小化DFA2 ==\n"@, m2.text(), "\n\n"@);
    let v = if eq { "等价\n"@ } else { "不等价\n"@ };
    let p10 = p9 + "== 结论 ==\n"@ + v;
    lemma_append2(p9, "== 结论 ==\n"@, v);
    assert(report_text(in1, in2, r1, r2, a, n1, n2, d1, d2, m1, m2, eq) == p10);
}

proof fn lemma_append2(p: Seq<char>, a: Seq<char>, b: Seq<char>)
    ensures
        p + a + b == p + (a + b),
{
    assert(p + a + b =~= p + (a + b));
}

proof fn lemma_append3(p: Seq<char>, a: Seq<char>, b: Seq<char>, c: Seq<char>)
    ensures
        p + a + b + c == p + (a + b + c),
{
    assert(p + a + b + c =~= p + (a + b + c));
}

proof fn lemma_append5(p: Seq<char>, a: Seq<char>, b: Seq<char>, c: Seq<char>, d: Seq<char>, e: Seq<char>)
    ensures
        p + a + b + c + d + e == p + (a + b + c + d + e),
{
    assert(p + a + b + c + d + e =~= p + (a + b + c + d + e));
}

/// A report ends with its verdict and begins with the heading of the first expression.
proof fn lemma_report_verdict(
    in1: Seq<char>,
    in2: Seq<char>,
    r1: Regex,
    r2: Regex,
    a: Seq<char>,
    n1: NFA,
    n2: NFA,
    d1: DFA,
    d2: DFA,
    m1: DFA,
    m2: DFA,
    eq: bool,
)
    ensures
        ({
            let t = report_text(in1, in2, r1, r2, a, n1, n2, d1, d2, m1, m2, eq);
            let v = "== 结论 ==\n等价\n"@;
            let u = "== 结论 ==\n不等价\n"@;
            &&& t.len() >= u.len()
            &&& (t.subrange(t.len() - v.len(), t.len() as int) == v) == eq
            &&& (t.subrange(t.len() - u.len(), t.len() as int) == u) == !eq
            &&& !"错误:"@.is_prefix_of(t)
        }),
{
    let t = report_text(in1, in2, r1, r2, a, n1, n2, d1, d2, m1, m2, eq);
    reveal_strlit("== 正则表达式1 ==\n输入: ");
    reveal_strlit("== 结论 ==\n");
    reveal_strlit("等价\n");
    reveal_strlit("不等价\n");
    assert(t.len() >= 14);
    lemma_verdict_tail(t.subrange(0, t.len() - if eq { 12int } else { 13int }), eq);
    reveal_strlit("== 结论 ==\n");
    reveal_strlit("等价\n");
    reveal_strlit("不等价\n");
    let verdict = if eq { "等价\n"@ } else { "不等价\n"@ };
    assert(t =~= t.subrange(0, t.len() - if eq { 12int } else { 13int }) + "== 结论 ==\n"@ + verdict);
    reveal_strlit("错误:");
    reveal_strlit("== 正则表达式1 ==\n输入: ");
    assert(t[0] == '=');
    if "错误:"@.is_prefix_of(t) {
        assert("错误:"@[0] == t[0]);
    }
}

/// A text that ends with the verdict heading and a verdict ends with `等价` under the
/// heading exactly when the verdict is `等价`, and with `不等价` exactly when it is that.
proof fn lemma_verdict_tail(head: Seq<char>, eq: bool)
    requires
        head.len() >= 1,
    ensures
        ({
            let t = head + "== 结论 ==\n"@ + if eq { "等价\n"@ } else { "不等价\n"@ };
            let v = "== 结论 ==\n等价\n"@;
            let u = "== 结论 ==\n不等价\n"@;
            &&& t.len() >= u.len()
            &&& (t.subrange(t.len() - v.len(), t.len() as int) == v) == eq
            &&& (t.subrange(t.len() - u.len(), t.len() as int) == u) == !eq
        }),
{
    reveal_strlit("== 结论 ==\n不等价\n");
    reveal_strlit("== 结论 ==\n等价\n");
    reveal_strlit("== 结论 ==\n");
    reveal_strlit("等价\n");
    reveal_strlit("不等价\n");
    let t = head + "== 结论 ==\n"@ + if eq { "等价\n"@ } else { "不等价\n"@ };
    let v = "== 结论 ==\n等价\n"@;
    let u = t.subrange(t.len() - v.len(), t.len() as int);
    if eq {
        assert(u =~= v);
    } else {
        assert(u[8] == t[t.len() - 4]);
        assert(u[8] != v[8]);
    }
    let w = "== 结论 ==\n不等价\n"@;
    let x = t.subrange(t.len() - w.len(), t.len() as int);
    if eq {
        assert(x[9] == t[t.len() - 4]);
        assert(x[9] != w[9]);
    } else {
        assert(x =~= w);
    }
}

/// `out` is the report on comparing the expressions written `in1` and `in2`, read as `r1`
/// and `r2`: the text `report_text` gives for the automata of the comparison's steps and
/// its verdict. The joint alphabet in it is written in the notation `Debug` gives a
/// character, which for a printable ASCII character other than a quote or a backslash is
/// the character between single quotes.
#[verifier::opaque]
pub open spec fn is_report(in1: Seq<char>, in2: Seq<char>, r1: Regex, r2: Regex, out: Seq<char>) -> bool {
    exists|a: Seq<char>, n1: NFA, n2: NFA, d1: DFA, d2: DFA, m1: DFA, m2: DFA|
        #[trigger] comparison_steps(r1, r2, a, n1, n2, d1, d2, m1, m2)
        && out == report_text(in1, in2, r1, r2, a, n1, n2, d1, d2, m1, m2, crate::regex::equivalent(r1, r2))
        && forall|i: int| 0 <= i < a.len() && crate::text::quoted_plainly(a[i])
            ==> #[trigger] crate::text::char_debug(a[i]) == seq!['\'', a[i], '\'']
}

/// The comparison with every intermediate step written out, or the message of the first
/// expression that does not parse.
pub fn compare_verbose(regex1: &str, regex2: &str) -> (out: String)
    requires
        regex1@.len() <= usize::MAX / 2,
        regex2@.len() <= usize::MAX / 2,
    ensures
        match crate::parser::parse_result(regex1@) {
            Err(m) => out@ == "错误: 正则表达式1 解析失败: "@ + m,
            Ok(r1) => match crate::parser::parse_result(regex2@) {
                Err(m) => out@ == "错误: 正则表达式2 解析失败: "@ + m,
                Ok(r2) => is_report(regex1@, regex2@, r1, r2, out@),
            },
        },
{
    let re1 = match Parser::parse(regex1) {
        Ok(r) => r,
        Err(e) => {
            let mut m = String::from_str("错误: 正则表达式1 解析失败: ");
            m.append(e.as_str());
            return m;
        },
    };
    let re2 = match Parser::parse(regex2) {
        Ok(r) => r,
        Err(e) => {
            let mut m = String::from_str("错误: 正则表达式2 解析失败: ");
            m.append(e.as_str());
            return m;
        },
    };
    proof {
        crate::parser::lemma_parsed_size(regex1@);
        crate::parser::lemma_parsed_size(regex2@);
    }
    verbose_report(regex1, regex2, &re1, &re2)
}

/// The report on comparing two parsed expressions.
fn verbose_report(regex1: &str, regex2: &str, re1: &Regex, re2: &Regex) -> (out: String)
    requires
        crate::nfa::state_total(*re1) <= usize::MAX,
        crate::nfa::state_total(*re2) <= usize::MAX,
    ensures
        is_report(regex1@, regex2@, *re1, *re2, out@),
{
    let (alphabet, nfa1, nfa2, dfa1, dfa2, min1, min2, eq) = comparison(re1, re2);
    let out = report(regex1, regex2, re1, re2, &alphabet, &nfa1, &nfa2, &dfa1, &dfa2, &min1, &min2, eq);
    proof {
        reveal(is_report);
        assert(comparison_steps(*re1, *re2, alphabet@, nfa1, nfa2, dfa1, dfa2, min1, min2));
    }
    out
}

/// The report on a comparison, from its parts.
#[verifier::spinoff_prover]
#[verifier::rlimit(50)]
fn report(
    regex1: &str,
    regex2: &str,
    re1: &Regex,
    re2: &Regex,
    alphabet: &Vec<char>,
    nfa1: &NFA,
    nfa2: &NFA,
    dfa1: &DFA,
    dfa2: &DFA,
    min1: &DFA,
    min2: &DFA,
    eq: bool,
) -> (out: String)
    requires
        nfa1.state_count <= nfa1.transitions@.len(),
        nfa2.state_count <= nfa2.transitions@.len(),
        dfa1.wf(),
        dfa2.wf(),
        min1.wf(),
        min2.wf(),
    ensures
        out@ == report_text(regex1@, regex2@, *re1, *re2, alphabet@, *nfa1, *nfa2, *dfa1, *dfa2, *min1, *min2, eq),
        forall|i: int| 0 <= i < alphabet@.len() && crate::text::quoted_plainly(alphabet@[i])
            ==> #[trigger] crate::text::char_debug(alphabet@[i]) == seq!['\'', alphabet@[i], '\''],
{
    let names = symbol_list(alphabet);
    let mut out = String::from_str("== 正则表达式1 ==\n输入: ");
    out.append(regex1);
    out.append("\nAST : ");
    out.append(re1.to_string().as_str());
    out.append("\n\n");
    out.append("== 正则表达式2 ==\n输入: ");
    out.append(regex2);
    out.append("\nAST : ");
    out.append(re2.to_string().as_str());
    out.append("\n\n");
    out.append("== 字母表 ==\n");
    out.append(names.as_str());
    out.append("\n\n");
    out.append("== NFA1 ==\n");
    out.append(nfa1.display_string().as_str());
    out.append("\n\n");
    out.append("== NFA2 ==\n");
    out.append(nfa2.display_string().as_str());
    out.append("\n\n");
    out.append("== DFA1 ==\n");
    out.append(dfa1.display_string().as_str());
    out.append("\n\n");
    out.append("== DFA2 ==\n");
    out.append(dfa2.display_string().as_str());
    out.append("\n\n");
    out.append("== 最小化DFA1 ==\n");
    out.append(min1.display_string().as_str());
    out.append("\n\n");
    out.append("== 最小化DFA2 ==\n");
    out.append(min2.display_string().as_str());
    out.append("\n\n");
    out.append("== 结论 ==\n");
    if eq {
        out.append("等价\n");
    } else {
        out.append("不等价\n");
    }
    proof {
        assert(out@ =~= report_text(regex1@, regex2@, *re1, *re2, alphabet@, *nfa1, *nfa2, *dfa1, *dfa2, *min1, *min2, eq));
    }
    out
}


/// `n` itself when it has a state; otherwise an automaton of one state, without
/// transitions, that starts and accepts there. Either way it accepts what `n` accepts.
fn with_a_state(n: NFA) -> (m: NFA)
    requires
        n.wf(),
        n.state_count > 0 ==> n.start < n.state_count,
        n.state_count == 0 ==> n.start == 0 && n.accept == 0,
    ensures
        m.wf(),
        m.start < m.state_count,
        forall|w: Seq<char>| #[trigger] m.accepts(w) == n.accepts(w),
{
    if n.state_count > 0 {
        n
    } else {
        let mut rows: Vec<Vec<crate::nfa::Step>> = Vec::new();
        rows.push(Vec::new());
        let m = NFA { start: 0, accept: 0, transitions: rows, state_count: 1, state_names: Vec::new() };
        proof {
            assert forall|w: Seq<char>| #[trigger] m.accepts(w) == n.accepts(w) by {
                assert forall|x: int| 0 <= x < m.rows().len() implies (#[trigger] m.rows()[x]).len() == 0 by {
                    assert(m.rows()[x] == m.transitions@[x]@);
                }
                crate::nfa::lemma_no_transitions(m.rows(), 0, 0, w);
                crate::nfa::lemma_no_transitions(n.rows(), 0, 0, w);
            }
        }
        m
    }
}

/// Whether two automata accept the same words: both are determinised over the symbols
/// of either, minimised, and compared.
fn same_language_automata(n1: &NFA, n2: &NFA) -> (eq: bool)
    requires
        n1.wf(),
        n2.wf(),
        n1.start < n1.state_count,
        n2.start < n2.state_count,
    ensures
        eq == forall|w: Seq<char>| #[trigger] n1.accepts(w) == n2.accepts(w),
{
    let a1 = n1.collect_alphabet();
    let a2 = n2.collect_alphabet();
    let alphabet = merge_alphabets(&a1, &a2);
    let dfa1 = DFA::from_nfa(n1, &alphabet);
    let dfa2 = DFA::from_nfa(n2, &alphabet);
    let min1 = dfa1.minimize();
    let min2 = dfa2.minimize();
    let eq = min1.is_equivalent_to(&min2);
    proof {
        let a = alphabet@;
        assert forall|w: Seq<char>| #[trigger] n1.accepts(w) implies crate::dfa::word_over(w, a) by {
            n1.lemma_accepted_symbols(w);
            assert forall|i: int| 0 <= i < w.len() implies a.contains(#[trigger] w[i]) by {
                assert(a1@.contains(w[i]));
            }
        }
        assert forall|w: Seq<char>| #[trigger] n2.accepts(w) implies crate::dfa::word_over(w, a) by {
            n2.lemma_accepted_symbols(w);
            assert forall|i: int| 0 <= i < w.len() implies a.contains(#[trigger] w[i]) by {
                assert(a2@.contains(w[i]));
            }
        }
        assert forall|w: Seq<char>| #[trigger] min1.accepts(w) == n1.accepts(w) by {
            assert(min1.accepts(w) == dfa1.accepts(w));
        }
        assert forall|w: Seq<char>| #[trigger] min2.accepts(w) == n2.accepts(w) by {
            assert(min2.accepts(w) == dfa2.accepts(w));
        }
        if !eq {
            let w = choose|w: Seq<char>| #[trigger] min1.accepts(w) != min2.accepts(w);
            assert(min1.accepts(w) != min2.accepts(w));
            assert(n1.accepts(w) != n2.accepts(w));
        } else {
            assert forall|w: Seq<char>| #[trigger] n1.accepts(w) == n2.accepts(w) by {
                assert(min1.accepts(w) == min2.accepts(w));
            }
        }
    }
    eq
}

/// Whether the automata two descriptions give (see `fsm::parse_str`) accept the same
/// words; the message about the first description that is wrong otherwise.
pub fn compare_fsm(fsm1: &str, fsm2: &str) -> (res: Result<bool, String>)
    requires
        fsm1@.len() < usize::MAX,
        fsm2@.len() < usize::MAX,
    ensures
        match crate::fsm::read_lines(crate::fsm::text_lines(fsm1@)) {
            Err(m) => res is Err && res->Err_0@ == m,
            Ok(es1) => match crate::fsm::read_lines(crate::fsm::text_lines(fsm2@)) {
                Err(m) => res is Err && res->Err_0@ == m,
                Ok(es2) => res is Ok && exists|n1: NFA, n2: NFA|
                    #[trigger] crate::fsm::described(es1, n1) && #[trigger] crate::fsm::described(es2, n2)
                    && res->Ok_0 == forall|w: Seq<char>| #[trigger] n1.accepts(w) == n2.accepts(w),
            },
        },
{
    let n1 = match parse_str(fsm1) {
        Ok(n) => n,
        Err(e) => return Err(e),
    };
    let n2 = match parse_str(fsm2) {
        Ok(n) => n,
        Err(e) => return Err(e),
    };
    let ghost g1 = n1;
    let ghost g2 = n2;
    proof {
        let es1 = crate::fsm::read_lines(crate::fsm::text_lines(fsm1@))->Ok_0;
        let es2 = crate::fsm::read_lines(crate::fsm::text_lines(fsm2@))->Ok_0;
        crate::fsm::lemma_described_wf(es1, n1);
        crate::fsm::lemma_described_wf(es2, n2);
    }
    let m1 = with_a_state(n1);
    let m2 = with_a_state(n2);
    let eq = same_language_automata(&m1, &m2);
    proof {
        assert(eq == forall|w: Seq<char>| #[trigger] g1.accepts(w) == g2.accepts(w)) by {
            if !eq {
                let w = choose|w: Seq<char>| #[trigger] m1.accepts(w) != m2.accepts(w);
                assert(m1.accepts(w) != m2.accepts(w));
                assert(g1.accepts(w) != g2.accepts(w));
            } else {
                assert forall|w: Seq<char>| #[trigger] g1.accepts(w) == g2.accepts(w) by {
                    assert(m1.accepts(w) == m2.accepts(w));
                }
            }
        }
    }
    Ok(eq)
}

} // verus!
