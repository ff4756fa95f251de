use regcmp::parser::Parser;
use regcmp::regex::Regex;

fn ch(c: char) -> Box<Regex> {
    Box::new(Regex::Char(c))
}

#[test]
fn precedence_star_concat_union() {
    let re = Parser::parse("ab*|c").unwrap();
    let expected = Regex::Union(
        Box::new(Regex::Concat(ch('a'), Box::new(Regex::Star(ch('b'))))),
        ch('c'),
    );
    assert_eq!(re, expected);
    assert_eq!(re.to_string(), "((a(b*))|c)");
}

#[test]
fn union_and_concatenation_associate_left() {
    let re = Parser::parse("a|b+c").unwrap();
    assert_eq!(re, Regex::Union(Box::new(Regex::Union(ch('a'), ch('b'))), ch('c')));
    let re2 = Parser::parse("abc").unwrap();
    assert_eq!(re2, Regex::Concat(Box::new(Regex::Concat(ch('a'), ch('b'))), ch('c')));
}

#[test]
fn special_atoms() {
    assert_eq!(Parser::parse("#").unwrap(), Regex::EmptySet);
    assert_eq!(Parser::parse("$").unwrap(), Regex::EmptyStr);
    assert_eq!(Parser::parse("(a)^*").unwrap(), Regex::Star(ch('a')));
    assert_eq!(Parser::parse("#$").unwrap().to_string(), "(#$)");
}

#[test]
fn notation_reads_back() {
    for text in ["a", "ab*|c", "(a|b)*c", "#|$", "a**"] {
        let re = Parser::parse(text).unwrap();
        assert_eq!(Parser::parse(&re.to_string()).unwrap(), re);
    }
}

#[test]
fn parse_error_messages() {
    assert_eq!(Parser::parse("(a"), Err("缺少右括号 ')'".to_string()));
    assert_eq!(Parser::parse("a|"), Err("意外的表达式结束".to_string()));
    assert_eq!(Parser::parse("a^"), Err("无效字符位于位置 1".to_string()));
    assert_eq!(Parser::parse("ab)"), Err("表达式末尾有多余字符".to_string()));
}

#[test]
fn alphabet_in_order_of_first_occurrence() {
    let re = Parser::parse("b(a|b)*c").unwrap();
    let mut set = vec!['z'];
    re.collect_alphabet(&mut set);
    assert_eq!(set, vec!['z', 'b', 'a', 'c']);
}

#[test]
fn plus_reads_as_bar() {
    assert_eq!(Parser::parse("a+b*"), Parser::parse("a|b*"));
    assert_eq!(Parser::parse("+"), Parser::parse("|"));
    assert_eq!(Parser::parse("+"), Err("意外的token: Some(Pipe)".to_string()));
}

#[test]
fn caret_star_reads_as_star() {
    assert_eq!(Parser::parse("(ab)^*c"), Parser::parse("(ab)*c"));
    assert_eq!(Parser::parse("a^*^*"), Parser::parse("a**"));
}
