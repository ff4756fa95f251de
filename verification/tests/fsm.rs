use regcmp::fsm::parse_str;

#[test]
fn description_with_start_accept_and_transitions() {
    let nfa = parse_str("start: q0\naccept: q1\nq0 a q1\n").unwrap();
    assert_eq!(nfa.start, 0);
    assert_eq!(nfa.accept, 2);
    assert_eq!(nfa.state_count, 3);
    assert_eq!(nfa.transitions, vec![vec![(Some('a'), 1)], vec![(None, 2)], vec![]]);
    assert_eq!(nfa.state_names, vec!["q0".to_string(), "q1".to_string()]);
    assert_eq!(nfa.display_string(), "NFA: 3 个状态, 开始: q0, 接受: ?\n  q0 --a--> q1\n  q1 --ε--> ?");
}

#[test]
fn states_numbered_by_first_mention() {
    let nfa = parse_str("# a comment\n\n  x $ y  \r\ny b x\nstart: y\naccept: x y\n").unwrap();
    assert_eq!(nfa.state_names, vec!["x".to_string(), "y".to_string()]);
    assert_eq!(nfa.start, 1);
    assert_eq!(nfa.accept, 2);
    assert_eq!(nfa.state_count, 3);
    assert_eq!(nfa.transitions, vec![vec![(None, 1), (None, 2)], vec![(Some('b'), 0), (None, 2)], vec![]]);
}

#[test]
fn without_accept_line() {
    let nfa = parse_str("p 0 q").unwrap();
    assert_eq!(nfa.start, 0);
    assert_eq!(nfa.accept, 2);
    assert_eq!(nfa.state_count, 2);
    assert_eq!(nfa.transitions, vec![vec![(Some('0'), 1)], vec![]]);
}

#[test]
fn missing_colons() {
    assert_eq!(parse_str("start q0").unwrap_err(), "第1行: start 后缺少冒号\n  --> 建议: start: q0");
    assert_eq!(parse_str("q0 a q1\naccept q1").unwrap_err(), "第2行: accept 后缺少冒号\n  --> 建议: accept: q1");
}

#[test]
fn missing_names() {
    assert_eq!(parse_str("start:").unwrap_err(), "第1行: start: 后缺少状态名");
    assert_eq!(parse_str("accept:   ").unwrap_err(), "第1行: accept: 后缺少状态名");
}

#[test]
fn arrows_are_refused() {
    assert_eq!(
        parse_str("q0 -> q1").unwrap_err(),
        "第1行: 不支持 '->' 箭头语法\n  --> 建议: 请用空格分隔: q0 q1"
    );
}

#[test]
fn wrong_number_of_fields() {
    assert_eq!(
        parse_str("q0 a").unwrap_err(),
        "第1行: 需要 3 个字段，当前 2 个\n  --> 建议: 每行格式: 源 符号 目标，例如: q0 a q1"
    );
    assert_eq!(
        parse_str("q0 a q1 q2 q3").unwrap_err(),
        "第1行: 存在多余字段 'q2 q3'\n  --> 建议: 转移行只能有 3 个字段，多余内容应写在单独行"
    );
}

#[test]
fn tabs_are_refused() {
    assert_eq!(parse_str("q0\ta q1").unwrap_err(), "第1行: 包含制表符\n  --> 建议: 请使用空格");
}

#[test]
fn bad_symbols_and_names() {
    assert_eq!(parse_str("# c\n\nq0 ab q1").unwrap_err(), "第3行: 符号 'ab' 无效，应为单个字符或 $");
    assert_eq!(parse_str("q0 # q1").unwrap_err(), "第1行: '#' 是保留字符，不能用作符号");
    assert_eq!(parse_str("q@ a q1").unwrap_err(), "第1行: 状态名 'q@' 包含非法字符 '@'");
    assert_eq!(parse_str("q0 é q1").unwrap_err(), "第1行: 符号 'é' 无效，应为单个字符或 $");
    assert_eq!(parse_str("accept: ok b!d").unwrap_err(), "第1行: 状态名 'b!d' 包含非法字符 '!'");
}

#[test]
fn compare_fsm_same_language() {
    let a_star = "start: s\naccept: s\ns a s\n";
    let a_star_again = "start: x\naccept: y\nx $ y\ny a z\nz $ y\n";
    assert_eq!(regcmp::compare_fsm(a_star, a_star_again), Ok(true));
    assert_eq!(regcmp::compare_fsm(a_star, a_star), Ok(true));
}

#[test]
fn compare_fsm_different_language() {
    let a_star = "start: s\naccept: s\ns a s\n";
    let a_plus = "start: s\naccept: t\ns a t\nt a t\n";
    let b_star = "start: s\naccept: s\ns b s\n";
    assert_eq!(regcmp::compare_fsm(a_star, a_plus), Ok(false));
    assert_eq!(regcmp::compare_fsm(a_star, b_star), Ok(false));
}

#[test]
fn compare_fsm_without_accept_line_accepts_nothing() {
    assert_eq!(regcmp::compare_fsm("p 0 q", "start: s\naccept: t\ns a s\n"), Ok(true));
    assert_eq!(regcmp::compare_fsm("p 0 q", "start: s\naccept: s\n"), Ok(false));
}

#[test]
fn compare_fsm_empty_description_accepts_the_empty_word() {
    assert_eq!(regcmp::compare_fsm("", "start: s\naccept: s\n"), Ok(true));
    assert_eq!(regcmp::compare_fsm("# nothing\n", "start: s\naccept: s\ns a s\n"), Ok(false));
}

#[test]
fn compare_fsm_reports_first_bad_description() {
    assert_eq!(regcmp::compare_fsm("start q0", "also bad"), Err("第1行: start 后缺少冒号\n  --> 建议: start: q0".to_string()));
    assert_eq!(
        regcmp::compare_fsm("start: s\naccept: s\n", "q0 a q1\naccept q1"),
        Err("第2行: accept 后缺少冒号\n  --> 建议: accept: q1".to_string())
    );
}
