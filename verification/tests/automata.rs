use regcmp::dfa::{merge_alphabets, DFA};
use regcmp::nfa::NFA;
use regcmp::parser::Parser;
use regcmp::regex::Regex;
use std::collections::BTreeSet;

fn nfa_of(text: &str) -> NFA {
    NFA::from_regex(&Parser::parse(text).unwrap())
}

fn dfa_of(text: &str) -> DFA {
    let nfa = nfa_of(text);
    let alphabet = nfa.collect_alphabet();
    DFA::from_nfa(&nfa, &alphabet)
}

#[test]
fn thompson_automaton_of_a_symbol() {
    let nfa = NFA::from_regex(&Regex::Char('a'));
    assert_eq!(nfa.state_count, 2);
    assert_eq!(nfa.start, 0);
    assert_eq!(nfa.accept, 1);
    assert_eq!(nfa.display_string(), "NFA: 2 个状态, 开始: q0, 接受: q1\n  q0 --a--> q1");
}

#[test]
fn thompson_automaton_of_a_star() {
    let nfa = nfa_of("a*");
    assert_eq!(nfa.state_count, 4);
    assert_eq!(nfa.start, 2);
    assert_eq!(nfa.accept, 3);
    assert_eq!(
        nfa.display_string(),
        "NFA: 4 个状态, 开始: q2, 接受: q3\n  q0 --a--> q1\n  q1 --ε--> q0\n  q1 --ε--> q3\n  q2 --ε--> q0\n  q2 --ε--> q3"
    );
}

#[test]
fn concatenation_adds_no_state() {
    let nfa = nfa_of("ab");
    assert_eq!(nfa.state_count, 4);
    assert_eq!(nfa.start, 0);
    assert_eq!(nfa.accept, 3);
}

#[test]
fn epsilon_closure_follows_epsilon_moves() {
    let nfa = nfa_of("a*");
    let from: BTreeSet<usize> = [2].into_iter().collect();
    let expected: BTreeSet<usize> = [0, 2, 3].into_iter().collect();
    assert_eq!(nfa.epsilon_closure(&from), expected);
    let from1: BTreeSet<usize> = [1].into_iter().collect();
    let expected1: BTreeSet<usize> = [0, 1, 3].into_iter().collect();
    assert_eq!(nfa.epsilon_closure(&from1), expected1);
}

#[test]
fn nfa_alphabet_is_sorted_without_repetition() {
    assert_eq!(nfa_of("b|a|b").collect_alphabet(), vec!['a', 'b']);
    assert_eq!(nfa_of("$").collect_alphabet(), Vec::<char>::new());
}

#[test]
fn subset_construction_adds_a_sink() {
    let dfa = dfa_of("a");
    assert_eq!(dfa.state_count, 3);
    assert_eq!(
        dfa.display_string(),
        "DFA: 3 个状态, 开始: q0, 接受: {q1}\n  q0 --a--> q1\n  q1 --a--> q2\n  q2 --a--> q2"
    );
}

#[test]
fn subset_construction_without_symbols() {
    let nfa = nfa_of("$");
    let dfa = DFA::from_nfa(&nfa, &[]);
    assert_eq!(dfa.display_string(), "DFA: 1 个状态, 开始: q0, 接受: {q0}");
    let nfa2 = nfa_of("#");
    assert_eq!(DFA::from_nfa(&nfa2, &[]).display_string(), "DFA: 1 个状态, 开始: q0, 接受: {}");
}

#[test]
fn minimization_merges_equivalent_states() {
    let dfa = dfa_of("a*");
    assert_eq!(dfa.state_count, 2);
    let min = dfa.minimize();
    assert_eq!(min.display_string(), "DFA: 1 个状态, 开始: q0, 接受: {q0}\n  q0 --a--> q0");
}

#[test]
fn minimization_keeps_distinct_states() {
    let min = dfa_of("a").minimize();
    assert_eq!(
        min.display_string(),
        "DFA: 3 个状态, 开始: q0, 接受: {q1}\n  q0 --a--> q1\n  q1 --a--> q2\n  q2 --a--> q2"
    );
}

#[test]
fn equivalence_of_automata() {
    let d1 = dfa_of("a(b|c)");
    let d2 = dfa_of("ab|ac");
    assert!(d1.is_equivalent_to(&d2));
    assert!(d1.minimize().is_equivalent_to(&d2));
    let d3 = dfa_of("ab");
    assert!(!d1.is_equivalent_to(&d3));
    assert!(!d3.is_equivalent_to(&d1));
}

#[test]
fn equivalence_across_alphabets() {
    let d1 = dfa_of("a|b#");
    let d2 = dfa_of("a");
    assert!(d1.is_equivalent_to(&d2));
    let d3 = dfa_of("a|b");
    assert!(!d3.is_equivalent_to(&d2));
}

#[test]
fn merged_alphabet_is_sorted_and_distinct() {
    assert_eq!(merge_alphabets(&['c', 'a'], &['b', 'a']), vec!['a', 'b', 'c']);
    assert_eq!(merge_alphabets(&[], &[]), Vec::<char>::new());
}

#[test]
fn subset_states_numbered_in_breadth_first_order() {
    let dfa = dfa_of("a|b");
    assert_eq!(
        dfa.display_string(),
        "DFA: 4 个状态, 开始: q0, 接受: {q1, q2}\n  q0 --a--> q1\n  q0 --b--> q2\n  q1 --a--> q3\n  q1 --b--> q3\n  q2 --a--> q3\n  q2 --b--> q3\n  q3 --a--> q3\n  q3 --b--> q3"
    );
}

#[test]
fn minimal_blocks_numbered_as_refinement_creates_them() {
    let min = dfa_of("a|b").minimize();
    assert_eq!(
        min.display_string(),
        "DFA: 3 个状态, 开始: q0, 接受: {q1}\n  q0 --a--> q1\n  q0 --b--> q1\n  q1 --a--> q2\n  q1 --b--> q2\n  q2 --a--> q2\n  q2 --b--> q2"
    );
}

#[test]
fn equivalent_expressions_minimise_to_the_same_size() {
    let alphabet = vec!['a', 'b', 'c'];
    let m1 = DFA::from_nfa(&nfa_of("a(b|c)"), &alphabet).minimize();
    let m2 = DFA::from_nfa(&nfa_of("ab|ac"), &alphabet).minimize();
    assert_eq!(m1.state_count, m2.state_count);
    assert!(m1.is_equivalent_to(&m2));
    let m3 = DFA::from_nfa(&nfa_of("(a|b)*"), &['a', 'b']).minimize();
    let m4 = DFA::from_nfa(&nfa_of("(a*b*)*"), &['a', 'b']).minimize();
    assert_eq!(m3.state_count, 1);
    assert_eq!(m4.state_count, 1);
    assert_eq!(m3.display_string(), m4.display_string());
}

#[test]
fn clone_keeps_the_automaton() {
    let dfa = dfa_of("ab");
    let copy = dfa.clone();
    assert_eq!(copy.display_string(), dfa.display_string());
    let nfa = nfa_of("ab");
    assert_eq!(nfa.clone().display_string(), nfa.display_string());
}

#[test]
fn automaton_symbols_are_expression_symbols_sorted() {
    for text in ["b(a|b)", "zyx*x", "#|$", "(c|a)*ba"] {
        let re = Parser::parse(text).unwrap();
        let mut v = Vec::new();
        re.collect_alphabet(&mut v);
        v.sort();
        assert_eq!(NFA::from_regex(&re).collect_alphabet(), v);
    }
}

#[test]
fn display_lists_every_accepting_state_in_order() {
    let mut accept_states = BTreeSet::new();
    accept_states.insert(7);
    accept_states.insert(0);
    accept_states.insert(3);
    let dfa = DFA {
        start: 0,
        transitions: vec![vec![('a', 0)]],
        accept_states,
        state_count: 1,
        alphabet: vec!['a'],
    };
    assert_eq!(dfa.display_string(), "DFA: 1 个状态, 开始: q0, 接受: {q0, q3, q7}\n  q0 --a--> q0");
}

#[test]
fn epsilon_closure_is_a_closure_operator() {
    let nfa = nfa_of("(a|$)*b|$");
    let all: Vec<usize> = (0..nfa.state_count).collect();
    let sets: Vec<BTreeSet<usize>> = vec![
        BTreeSet::new(),
        [nfa.start].into_iter().collect(),
        [0, 3].into_iter().filter(|&s| s < nfa.state_count).collect(),
        all.iter().copied().filter(|s| s % 2 == 1).collect(),
    ];
    assert!(nfa.epsilon_closure(&BTreeSet::new()).is_empty());
    for s in &sets {
        let cs = nfa.epsilon_closure(s);
        assert!(s.is_subset(&cs));
        assert_eq!(nfa.epsilon_closure(&cs), cs);
        for t in &sets {
            let ct = nfa.epsilon_closure(t);
            let u: BTreeSet<usize> = s.union(t).copied().collect();
            let cu: BTreeSet<usize> = cs.union(&ct).copied().collect();
            assert_eq!(nfa.epsilon_closure(&u), cu);
            if s.is_subset(t) {
                assert!(cs.is_subset(&ct));
            }
        }
    }
}
