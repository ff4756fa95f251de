use regcmp::{compare, compare_verbose};

#[test]
fn union_commutes() {
    assert_eq!(compare("a*|b*", "b*|a*"), Ok(true));
}

#[test]
fn concatenation_distributes_over_union() {
    assert_eq!(compare("a(b|c)", "ab|ac"), Ok(true));
}

#[test]
fn plus_is_union() {
    assert_eq!(compare("a+b", "a|b"), Ok(true));
}

#[test]
fn caret_star_is_star() {
    assert_eq!(compare("a^*b^*", "a*b*"), Ok(true));
}

#[test]
fn different_languages() {
    assert_eq!(compare("a", "b"), Ok(false));
    assert_eq!(compare("a*", "a"), Ok(false));
    assert_eq!(compare("(ab)*", "a*b*"), Ok(false));
    assert_eq!(compare("a|b", "a"), Ok(false));
}

#[test]
fn empty_language_and_empty_word() {
    assert_eq!(compare("#", "$"), Ok(false));
    assert_eq!(compare("#*", "$"), Ok(true));
    assert_eq!(compare("a#", "#"), Ok(true));
    assert_eq!(compare("a$", "a"), Ok(true));
}

#[test]
fn star_identities() {
    assert_eq!(compare("(a|b)*", "(a*b*)*"), Ok(true));
    assert_eq!(compare("a**", "a*"), Ok(true));
    assert_eq!(compare("(a*)(a*)", "a*"), Ok(true));
}

#[test]
fn whitespace_is_ignored() {
    assert_eq!(compare(" a |\tb\n", "b|a"), Ok(true));
}

#[test]
fn invalid_character_reports_byte_offset() {
    assert_eq!(compare("a^b", "a"), Err("无效字符位于位置 1".to_string()));
    assert_eq!(compare("é^x", "a"), Err("无效字符位于位置 2".to_string()));
    assert_eq!(compare("a", "^"), Err("无效字符位于位置 0".to_string()));
}

#[test]
fn parse_errors_of_each_kind() {
    assert_eq!(compare("(a", "a"), Err("缺少右括号 ')'".to_string()));
    assert_eq!(compare("", "a"), Err("意外的表达式结束".to_string()));
    assert_eq!(compare("a", "a)"), Err("表达式末尾有多余字符".to_string()));
    assert_eq!(compare("|a", "a"), Err("意外的token: Some(Pipe)".to_string()));
    assert_eq!(compare("*", "a"), Err("意外的token: Some(Star)".to_string()));
    assert_eq!(compare(")", "a"), Err("意外的token: Some(RParen)".to_string()));
}

#[test]
fn first_error_wins() {
    assert_eq!(compare("(", ")"), Err("意外的表达式结束".to_string()));
}

#[test]
fn verbose_report_of_one_symbol() {
    let nfa = "NFA: 2 个状态, 开始: q0, 接受: q1\n  q0 --a--> q1";
    let dfa = "DFA: 3 个状态, 开始: q0, 接受: {q1}\n  q0 --a--> q1\n  q1 --a--> q2\n  q2 --a--> q2";
    let expected = format!(
        "== 正则表达式1 ==\n输入: a\nAST : a\n\n== 正则表达式2 ==\n输入: a\nAST : a\n\n== 字母表 ==\n['a']\n\n\
         == NFA1 ==\n{nfa}\n\n== NFA2 ==\n{nfa}\n\n== DFA1 ==\n{dfa}\n\n== DFA2 ==\n{dfa}\n\n\
         == 最小化DFA1 ==\n{dfa}\n\n== 最小化DFA2 ==\n{dfa}\n\n== 结论 ==\n等价\n"
    );
    assert_eq!(compare_verbose("a", "a"), expected);
}

#[test]
fn verbose_report_ends_with_verdict() {
    assert!(compare_verbose("a", "b").ends_with("== 结论 ==\n不等价\n"));
    assert!(compare_verbose("a|b", "b+a").ends_with("== 结论 ==\n等价\n"));
    assert!(compare_verbose("a|b", "b").contains("== 字母表 ==\n['a', 'b']\n\n"));
}

#[test]
fn verbose_report_of_parse_errors() {
    assert_eq!(compare_verbose("(", "a"), "错误: 正则表达式1 解析失败: 意外的表达式结束");
    assert_eq!(compare_verbose("a", "a^"), "错误: 正则表达式2 解析失败: 无效字符位于位置 1");
}

#[test]
fn comparison_is_symmetric_and_reflexive() {
    for (x, y) in [("a*", "a"), ("(ab)*", "a*b*"), ("a|b", "b|a"), ("$", "#*")] {
        assert_eq!(compare(x, y), compare(y, x));
        assert_eq!(compare(x, x), Ok(true));
    }
}

#[test]
fn symbol_list_matches_debug_notation() {
    let cases: Vec<Vec<char>> = vec![
        vec![],
        vec!['a'],
        vec!['a', 'b', '0'],
        vec!['\'', '"', '\\', 'é', '\n'],
    ];
    for a in cases {
        assert_eq!(regcmp::text::symbol_list(&a), format!("{:?}", a));
    }
}

#[test]
fn verbose_verdict_matches_compare() {
    let verdict = "== 结论 ==\n等价\n";
    for (a, b) in [("a|b", "b|a"), ("a*", "a"), ("(ab)*", "$|ab(ab)*"), ("#", "$")] {
        let out = compare_verbose(a, b);
        assert!(!out.starts_with("错误:"));
        assert_eq!(out.ends_with(verdict), compare(a, b) == Ok(true));
        assert_eq!(out.ends_with("== 结论 ==\n不等价\n"), compare(a, b) == Ok(false));
    }
}
