use vstd::prelude::*;

use crate::regex::Regex;
use crate::text::{chars_of, push_decimal};

verus! {

/// The tokens of the regular-expression notation.
#[derive(Debug, PartialEq, Eq, Structural, Clone, Copy)]
pub enum Token {
    LParen,
    RParen,
    Star,
    Pipe,
    EmptySet,
    EmptyStr,
    Char(char),
    Whitespace,
}

/// The whitespace characters that separate tokens.
pub open spec fn is_space(c: char) -> bool {
    c == ' ' || c == '\t' || c == '\n' || c == '\r'
}

/// The characters that cannot stand for themselves.
pub open spec fn is_special(c: char) -> bool {
    c == '(' || c == ')' || c == '|' || c == '+' || c == '*' || c == '#' || c == '$' || c == '^'
}

/// Tokenising `cs` from position `i`: the tokens, or the position of the first
/// character that starts no token (a `^` not followed by `*`).
pub open spec fn lex_from(cs: Seq<char>, i: int) -> Result<Seq<Token>, int>
    decreases cs.len() - i,
{
    if i < 0 || i >= cs.len() {
        Ok(Seq::empty())
    } else {
        let c = cs[i];
        if is_space(c) {
            lex_from(cs, i + 1)
        } else if c == '^' {
            if i + 1 < cs.len() && cs[i + 1] == '*' {
                match lex_from(cs, i + 2) {
                    Ok(ts) => Ok(seq![Token::Star] + ts),
                    Err(k) => Err(k),
                }
            } else {
                Err(i)
            }
        } else {
            match lex_from(cs, i + 1) {
                Ok(ts) => Ok(seq![token_of(c)] + ts),
                Err(k) => Err(k),
            }
        }
    }
}

/// The token that a character other than whitespace and `^` stands for.
pub open spec fn token_of(c: char) -> Token {
    if c == '(' {
        Token::LParen
    } else if c == ')' {
        Token::RParen
    } else if c == '*' {
        Token::Star
    } else if c == '|' || c == '+' {
        Token::Pipe
    } else if c == '#' {
        Token::EmptySet
    } else if c == '$' {
        Token::EmptyStr
    } else {
        Token::Char(c)
    }
}

/// The byte offset, in the UTF-8 encoding of `cs`, of the character at position `k`.
pub open spec fn byte_offset(cs: Seq<char>, k: int) -> nat {
    vstd::utf8::encode_utf8(cs.take(k)).len()
}

/// Why a token sequence is not an expression.
pub enum Failure {
    UnexpectedEnd,
    MissingRParen,
    Unexpected(Token),
    Trailing,
}

/// Whether a token can begin a factor.
pub open spec fn starts_factor(t: Token) -> bool {
    match t {
        Token::Char(_) | Token::EmptySet | Token::EmptyStr | Token::LParen => true,
        _ => false,
    }
}

/// expression := term ( '|' term )*   (left associative)
pub open spec fn p_expr(t: Seq<Token>, i: int) -> Result<(Regex, int), Failure>
    decreases t.len() - i, 4int,
{
    match p_term(t, i) {
        Ok((r, j)) => if i < j <= t.len() { p_expr_rest(t, j, r) } else { Err(Failure::UnexpectedEnd) },
        Err(f) => Err(f),
    }
}

pub open spec fn p_expr_rest(t: Seq<Token>, i: int, left: Regex) -> Result<(Regex, int), Failure>
    decreases t.len() - i, 5int,
{
    if 0 <= i < t.len() && t[i] == Token::Pipe {
        match p_term(t, i + 1) {
            Ok((r, j)) => if i < j <= t.len() {
                p_expr_rest(t, j, Regex::Union(Box::new(left), Box::new(r)))
            } else {
                Err(Failure::UnexpectedEnd)
            },
            Err(f) => Err(f),
        }
    } else {
        Ok((left, i))
    }
}

/// term := factor factor*   (left associative concatenation)
pub open spec fn p_term(t: Seq<Token>, i: int) -> Result<(Regex, int), Failure>
    decreases t.len() - i, 2int,
{
    match p_factor(t, i) {
        Ok((r, j)) => if i < j <= t.len() { p_term_rest(t, j, r) } else { Err(Failure::UnexpectedEnd) },
        Err(f) => Err(f),
    }
}

pub open spec fn p_term_rest(t: Seq<Token>, i: int, left: Regex) -> Result<(Regex, int), Failure>
    decreases t.len() - i, 3int,
{
    if 0 <= i < t.len() && starts_factor(t[i]) {
        match p_factor(t, i) {
            Ok((r, j)) => if i < j <= t.len() {
                p_term_rest(t, j, Regex::Concat(Box::new(left), Box::new(r)))
            } else {
                Err(Failure::UnexpectedEnd)
            },
            Err(f) => Err(f),
        }
    } else {
        Ok((left, i))
    }
}

/// factor := atom '*'*
pub open spec fn p_factor(t: Seq<Token>, i: int) -> Result<(Regex, int), Failure>
    decreases t.len() - i, 1int,
{
    match p_atom(t, i) {
        Ok((r, j)) => Ok((stars(t, j, r), star_end(t, j))),
        Err(f) => Err(f),
    }
}

/// The position after the run of `*` tokens that starts at `j`.
pub open spec fn star_end(t: Seq<Token>, j: int) -> int
    decreases t.len() - j,
{
    if 0 <= j < t.len() && t[j] == Token::Star {
        star_end(t, j + 1)
    } else {
        j
    }
}

/// `r` under as many stars as there are `*` tokens from `j` on.
pub open spec fn stars(t: Seq<Token>, j: int, r: Regex) -> Regex
    decreases t.len() - j,
{
    if 0 <= j < t.len() && t[j] == Token::Star {
        stars(t, j + 1, Regex::Star(Box::new(r)))
    } else {
        r
    }
}

/// atom := char | '#' | '$' | '(' expression ')'
pub open spec fn p_atom(t: Seq<Token>, i: int) -> Result<(Regex, int), Failure>
    decreases t.len() - i, 0int,
{
    if i < 0 || i >= t.len() {
        Err(Failure::UnexpectedEnd)
    } else {
        match t[i] {
            Token::Char(c) => Ok((Regex::Char(c), i + 1)),
            Token::EmptySet => Ok((Regex::EmptySet, i + 1)),
            Token::EmptyStr => Ok((Regex::EmptyStr, i + 1)),
            Token::LParen => match p_expr(t, i + 1) {
                Ok((r, j)) => if 0 <= j < t.len() && t[j] == Token::RParen {
                    Ok((r, j + 1))
                } else {
                    Err(Failure::MissingRParen)
                },
                Err(f) => Err(f),
            },
            other => Err(Failure::Unexpected(other)),
        }
    }
}

/// The name of a token in messages.
pub open spec fn token_name(t: Token) -> Seq<char> {
    match t {
        Token::LParen => "LParen"@,
        Token::RParen => "RParen"@,
        Token::Star => "Star"@,
        Token::Pipe => "Pipe"@,
        Token::EmptySet => "EmptySet"@,
        Token::EmptyStr => "EmptyStr"@,
        Token::Char(c) => "Char('"@ + seq![c] + "')"@,
        Token::Whitespace => "Whitespace"@,
    }
}

/// The message that reports a failure.
pub open spec fn failure_message(f: Failure) -> Seq<char> {
    match f {
        Failure::UnexpectedEnd => "意外的表达式结束"@,
        Failure::MissingRParen => "缺少右括号 ')'"@,
        Failure::Unexpected(t) => "意外的token: Some("@ + token_name(t) + ")"@,
        Failure::Trailing => "表达式末尾有多余字符"@,
    }
}

/// The message for a character that starts no token, at byte offset `pos`.
pub open spec fn invalid_char_message(pos: nat) -> Seq<char> {
    "无效字符位于位置 "@ + crate::text::decimal(pos)
}

/// What parsing the text `cs` gives: the expression, or the message of the error.
pub open spec fn parse_result(cs: Seq<char>) -> Result<Regex, Seq<char>> {
    match lex_from(cs, 0) {
        Err(k) => Err(invalid_char_message(byte_offset(cs, k))),
        Ok(t) => match p_expr(t, 0) {
            Err(f) => Err(failure_message(f)),
            Ok((r, j)) => if j == t.len() { Ok(r) } else { Err(failure_message(Failure::Trailing)) },
        },
    }
}

/// A recursive-descent parser over the tokens of one expression.
pub struct Parser {
    tokens: Vec<Token>,
    pos: usize,
}


proof fn lemma_encode_append(a: Seq<char>, b: Seq<char>)
    ensures
        vstd::utf8::encode_utf8(a + b) == vstd::utf8::encode_utf8(a) + vstd::utf8::encode_utf8(b),
    decreases a.len(),
{
    if a.len() == 0 {
        assert(a + b =~= b);
        assert(vstd::utf8::encode_utf8(a) =~= Seq::<u8>::empty());
        assert(vstd::utf8::encode_utf8(a + b) =~= vstd::utf8::encode_utf8(a) + vstd::utf8::encode_utf8(b));
    } else {
        lemma_encode_append(a.drop_first(), b);
        assert((a + b).drop_first() =~= a.drop_first() + b);
        assert(vstd::utf8::encode_utf8(a + b) =~= vstd::utf8::encode_utf8(a) + vstd::utf8::encode_utf8(b));
    }
}

proof fn lemma_encode_single(c: char)
    ensures
        vstd::utf8::encode_utf8(seq![c]) == vstd::utf8::encode_scalar(c as u32),
{
    assert(seq![c].drop_first() =~= Seq::<char>::empty());
    assert(vstd::utf8::encode_utf8(Seq::<char>::empty()) =~= Seq::<u8>::empty());
    assert(vstd::utf8::encode_utf8(seq![c]) =~= vstd::utf8::encode_scalar(c as u32));
}

/// The number of bytes of `c` in UTF-8.
fn utf8_width_of(c: char) -> (n: usize)
    ensures
        n == vstd::utf8::encode_scalar(c as u32).len(),
{
    let v = c as u32;
    if v < 0x80 {
        1
    } else if v < 0x800 {
        2
    } else if v < 0x10000 && !(0xD800 <= v && v <= 0xDFFF) {
        3
    } else {
        4
    }
}

/// Tokenises `cs`, where `total` is the length of its UTF-8 encoding: the tokens, or
/// the byte offset of the first character that starts no token.
fn tokenize(cs: &Vec<char>, total: usize) -> (res: Result<Vec<Token>, usize>)
    requires
        total == vstd::utf8::encode_utf8(cs@).len(),
    ensures
        match lex_from(cs@, 0) {
            Ok(t) => res is Ok && res->Ok_0@ == t,
            Err(k) => res is Err && res->Err_0 == byte_offset(cs@, k),
        },
{
    let mut tokens: Vec<Token> = Vec::new();
    let mut i: usize = 0;
    let mut bytes: usize = 0;
    proof {
        lemma_encode_append(cs@.take(0), cs@.skip(0));
        assert(cs@.take(0) + cs@.skip(0) =~= cs@);
    }
    while i < cs.len()
        invariant
            i <= cs.len(),
            total == vstd::utf8::encode_utf8(cs@).len(),
            bytes == byte_offset(cs@, i as int),
            bytes <= total,
            match lex_from(cs@, i as int) {
                Ok(ts) => lex_from(cs@, 0) == Ok::<Seq<Token>, int>(tokens@ + ts),
                Err(k) => lex_from(cs@, 0) == Err::<Seq<Token>, int>(k),
            },
        decreases cs.len() - i,
    {
        let c = cs[i];
        let ghost old_tokens = tokens@;
        let ghost i0 = i as int;
        let w = utf8_width_of(c);
        proof {
            assert(cs@.take(i0 + 1) =~= cs@.take(i0) + seq![c]);
            lemma_encode_append(cs@.take(i0), seq![c]);
            lemma_encode_single(c);
            assert(cs@ =~= cs@.take(i0 + 1) + cs@.skip(i0 + 1));
            lemma_encode_append(cs@.take(i0 + 1), cs@.skip(i0 + 1));
        }
        if c == ' ' || c == '\t' || c == '\n' || c == '\r' {
            bytes = bytes + w;
            i = i + 1;
        } else if c == '^' {
            if i + 1 < cs.len() && cs[i + 1] == '*' {
                tokens.push(Token::Star);
                proof {
                    match lex_from(cs@, i0 + 2) {
                        Ok(ts) => { lemma_push_concat(old_tokens, Token::Star, ts); },
                        Err(k) => {},
                    }
                    let c2 = cs@[i0 + 1];
                    assert(cs@.take(i0 + 2) =~= cs@.take(i0 + 1) + seq![c2]);
                    lemma_encode_append(cs@.take(i0 + 1), seq![c2]);
                    lemma_encode_single(c2);
                    assert(cs@ =~= cs@.take(i0 + 2) + cs@.skip(i0 + 2));
                    lemma_encode_append(cs@.take(i0 + 2), cs@.skip(i0 + 2));
                }
                bytes = bytes + w + 1;
                i = i + 2;
            } else {
                return Err(bytes);
            }
        } else {
            let t = if c == '(' {
                Token::LParen
            } else if c == ')' {
                Token::RParen
            } else if c == '*' {
                Token::Star
            } else if c == '|' || c == '+' {
                Token::Pipe
            } else if c == '#' {
                Token::EmptySet
            } else if c == '$' {
                Token::EmptyStr
            } else {
                Token::Char(c)
            };
            tokens.push(t);
            proof {
                assert(tokens@ == old_tokens.push(t));
                match lex_from(cs@, i0 + 1) {
                    Ok(ts) => { lemma_push_concat(old_tokens, t, ts); },
                    Err(k) => {},
                }
            }
            bytes = bytes + w;
            i = i + 1;
        }
    }
    assert(tokens@ + Seq::<Token>::empty() =~= tokens@);
    Ok(tokens)
}


proof fn lemma_expr_rest_mono(t: Seq<Token>, i: int, left: Regex)
    requires
        0 <= i <= t.len(),
    ensures
        p_expr_rest(t, i, left) matches Ok((_, j)) ==> i <= j <= t.len(),
    decreases t.len() - i,
{
    if 0 <= i < t.len() && t[i] == Token::Pipe {
        match p_term(t, i + 1) {
            Ok((r, j)) => if i < j <= t.len() {
                lemma_expr_rest_mono(t, j, Regex::Union(Box::new(left), Box::new(r)));
            },
            Err(_) => {},
        }
    }
}

proof fn lemma_term_rest_mono(t: Seq<Token>, i: int, left: Regex)
    requires
        0 <= i <= t.len(),
    ensures
        p_term_rest(t, i, left) matches Ok((_, j)) ==> i <= j <= t.len(),
    decreases t.len() - i,
{
    if 0 <= i < t.len() && starts_factor(t[i]) {
        match p_factor(t, i) {
            Ok((r, j)) => if i < j <= t.len() {
                lemma_term_rest_mono(t, j, Regex::Concat(Box::new(left), Box::new(r)));
            },
            Err(_) => {},
        }
    }
}

proof fn lemma_star_end(t: Seq<Token>, j: int)
    requires
        0 <= j <= t.len(),
    ensures
        j <= star_end(t, j) <= t.len(),
    decreases t.len() - j,
{
    if 0 <= j < t.len() && t[j] == Token::Star {
        lemma_star_end(t, j + 1);
    }
}

/// An expression parsed from position `i` ends after `i`.
pub proof fn lemma_expr_progress(t: Seq<Token>, i: int)
    requires
        0 <= i <= t.len(),
    ensures
        p_expr(t, i) matches Ok((_, j)) ==> i < j <= t.len(),
{
    match p_term(t, i) {
        Ok((r, j)) => if i < j <= t.len() {
            lemma_expr_rest_mono(t, j, r);
        },
        Err(_) => {},
    }
}

/// A term parsed from position `i` ends after `i`.
pub proof fn lemma_term_progress(t: Seq<Token>, i: int)
    requires
        0 <= i <= t.len(),
    ensures
        p_term(t, i) matches Ok((_, j)) ==> i < j <= t.len(),
{
    match p_factor(t, i) {
        Ok((r, j)) => if i < j <= t.len() {
            lemma_term_rest_mono(t, j, r);
        },
        Err(_) => {},
    }
}

/// An atom parsed from position `i` ends after `i`.
pub proof fn lemma_atom_progress(t: Seq<Token>, i: int)
    requires
        0 <= i <= t.len(),
    ensures
        p_atom(t, i) matches Ok((_, j)) ==> i < j <= t.len(),
{
    if 0 <= i < t.len() && t[i] == Token::LParen {
        lemma_expr_progress(t, i + 1);
    }
}

/// A factor parsed from position `i` ends after `i`.
pub proof fn lemma_factor_progress(t: Seq<Token>, i: int)
    requires
        0 <= i <= t.len(),
    ensures
        p_factor(t, i) matches Ok((_, j)) ==> i < j <= t.len(),
{
    lemma_atom_progress(t, i);
    match p_atom(t, i) {
        Ok((r, j)) => {
            lemma_star_end(t, j);
        },
        Err(_) => {},
    }
}

proof fn lemma_cons_len(t: Token, ts: Seq<Token>)
    ensures
        (seq![t] + ts).len() == ts.len() + 1,
{
}

/// Tokenising from position `i` gives no more tokens than there are characters left.
proof fn lemma_lex_len(cs: Seq<char>, i: int)
    requires
        0 <= i <= cs.len(),
    ensures
        lex_from(cs, i) matches Ok(ts) ==> ts.len() <= cs.len() - i,
    decreases cs.len() - i,
{
    if i < cs.len() {
        let c = cs[i];
        if is_space(c) {
            lemma_lex_len(cs, i + 1);
        } else if c == '^' {
            if i + 1 < cs.len() && cs[i + 1] == '*' {
                lemma_lex_len(cs, i + 2);
                match lex_from(cs, i + 2) {
                    Ok(ts) => {
                        assert((seq![Token::Star] + ts).len() == ts.len() + 1);
                    },
                    Err(_) => {},
                }
            }
        } else {
            lemma_lex_len(cs, i + 1);
            match lex_from(cs, i + 1) {
                Ok(ts) => {
                    lemma_cons_len(token_of(c), ts);
                },
                Err(_) => {},
            }
        }
    }
}

/// The stars of a factor add two automaton states each.
proof fn lemma_stars_size(t: Seq<Token>, j: int, r: Regex)
    requires
        0 <= j <= t.len(),
    ensures
        crate::nfa::state_total(stars(t, j, r)) <= crate::nfa::state_total(r) + 2 * (star_end(t, j) - j),
    decreases t.len() - j,
{
    if 0 <= j < t.len() && t[j] == Token::Star {
        lemma_stars_size(t, j + 1, Regex::Star(Box::new(r)));
    }
}

/// An expression read from tokens `i..j` has at most two automaton states per token.
proof fn lemma_expr_size(t: Seq<Token>, i: int)
    requires
        0 <= i <= t.len(),
    ensures
        p_expr(t, i) matches Ok((r, j)) ==> crate::nfa::state_total(r) <= 2 * (j - i),
    decreases t.len() - i, 4int,
{
    match p_term(t, i) {
        Ok((r, j)) => if i < j <= t.len() {
            lemma_term_size(t, i);
            lemma_expr_rest_size(t, j, r);
        },
        Err(_) => {},
    }
}

proof fn lemma_expr_rest_size(t: Seq<Token>, i: int, left: Regex)
    requires
        0 <= i <= t.len(),
    ensures
        p_expr_rest(t, i, left) matches Ok((r, j)) ==> crate::nfa::state_total(r) <= crate::nfa::state_total(left) + 2 * (j - i),
    decreases t.len() - i, 5int,
{
    if 0 <= i < t.len() && t[i] == Token::Pipe {
        match p_term(t, i + 1) {
            Ok((r, j)) => if i < j <= t.len() {
                lemma_term_size(t, i + 1);
                lemma_expr_rest_size(t, j, Regex::Union(Box::new(left), Box::new(r)));
            },
            Err(_) => {},
        }
    }
}

proof fn lemma_term_size(t: Seq<Token>, i: int)
    requires
        0 <= i <= t.len(),
    ensures
        p_term(t, i) matches Ok((r, j)) ==> crate::nfa::state_total(r) <= 2 * (j - i),
    decreases t.len() - i, 2int,
{
    match p_factor(t, i) {
        Ok((r, j)) => if i < j <= t.len() {
            lemma_factor_size(t, i);
            lemma_term_rest_size(t, j, r);
        },
        Err(_) => {},
    }
}

proof fn lemma_term_rest_size(t: Seq<Token>, i: int, left: Regex)
    requires
        0 <= i <= t.len(),
    ensures
        p_term_rest(t, i, left) matches Ok((r, j)) ==> crate::nfa::state_total(r) <= crate::nfa::state_total(left) + 2 * (j - i),
    decreases t.len() - i, 3int,
{
    if 0 <= i < t.len() && starts_factor(t[i]) {
        match p_factor(t, i) {
            Ok((r, j)) => if i < j <= t.len() {
                lemma_factor_size(t, i);
                lemma_term_rest_size(t, j, Regex::Concat(Box::new(left), Box::new(r)));
            },
            Err(_) => {},
        }
    }
}

proof fn lemma_factor_size(t: Seq<Token>, i: int)
    requires
        0 <= i <= t.len(),
    ensures
        p_factor(t, i) matches Ok((r, j)) ==> crate::nfa::state_total(r) <= 2 * (j - i),
    decreases t.len() - i, 1int,
{
    lemma_atom_size(t, i);
    lemma_atom_progress(t, i);
    match p_atom(t, i) {
        Ok((r, j)) => {
            lemma_stars_size(t, j, r);
        },
        Err(_) => {},
    }
}

proof fn lemma_atom_size(t: Seq<Token>, i: int)
    requires
        0 <= i <= t.len(),
    ensures
        p_atom(t, i) matches Ok((r, j)) ==> crate::nfa::state_total(r) <= 2 * (j - i),
    decreases t.len() - i, 0int,
{
    if 0 <= i < t.len() && t[i] == Token::LParen {
        lemma_expr_size(t, i + 1);
    }
}

/// A parsed expression has at most two automaton states per character of its text.
pub proof fn lemma_parsed_size(cs: Seq<char>)
    ensures
        parse_result(cs) matches Ok(r) ==> crate::nfa::state_total(r) <= 2 * cs.len(),
{
    lemma_lex_len(cs, 0);
    match lex_from(cs, 0) {
        Ok(t) => {
            lemma_expr_size(t, 0);
        },
        Err(_) => {},
    }
}

proof fn lemma_push_concat(a: Seq<Token>, t: Token, ts: Seq<Token>)
    ensures
        a + (seq![t] + ts) == a.push(t) + ts,
{
    assert(a + (seq![t] + ts) =~= a.push(t) + ts);
}

/// The text of the message for `f`.
fn failure_text(f: &Failure) -> (s: String)
    ensures
        s@ == failure_message(*f),
{
    match f {
        Failure::UnexpectedEnd => String::from_str("意外的表达式结束"),
        Failure::MissingRParen => String::from_str("缺少右括号 ')'"),
        Failure::Unexpected(t) => {
            let mut s = String::from_str("意外的token: Some(");
            match t {
                Token::LParen => s.append("LParen"),
                Token::RParen => s.append("RParen"),
                Token::Star => s.append("Star"),
                Token::Pipe => s.append("Pipe"),
                Token::EmptySet => s.append("EmptySet"),
                Token::EmptyStr => s.append("EmptyStr"),
                Token::Char(c) => {
                    s.append("Char('");
                    crate::text::push_char(&mut s, *c);
                    s.append("')");
                },
                Token::Whitespace => s.append("Whitespace"),
            }
            s.append(")");
            s
        },
        Failure::Trailing => String::from_str("表达式末尾有多余字符"),
    }
}

impl Parser {
    spec fn wf(&self) -> bool {
        self.pos <= self.tokens.len()
    }

    /// Parses the text `input` as one expression.
    pub fn parse(input: &str) -> (res: Result<Regex, String>)
        ensures
            match parse_result(input@) {
                Ok(r) => res is Ok && res->Ok_0 == r,
                Err(m) => res is Err && res->Err_0@ == m,
            },
    {
        let cs = chars_of(input);
        let total = input.as_bytes().len();
        proof {
            assert(cs@ == input@);
        }
        let tokens = match tokenize(&cs, total) {
            Ok(t) => t,
            Err(pos) => {
                let mut m = String::from_str("无效字符位于位置 ");
                push_decimal(&mut m, pos);
                return Err(m);
            },
        };
        let mut parser = Parser { tokens, pos: 0 };
        let re = match parser.parse_expression() {
            Ok(r) => r,
            Err(f) => return Err(failure_text(&f)),
        };
        if parser.pos != parser.tokens.len() {
            return Err(failure_text(&Failure::Trailing));
        }
        Ok(re)
    }

    fn peek(&self) -> (t: Option<&Token>)
        requires
            self.wf(),
        ensures
            self.pos < self.tokens.len() ==> t == Some(&self.tokens@[self.pos as int]),
            self.pos >= self.tokens.len() ==> t is None,
    {
        if self.pos < self.tokens.len() {
            Some(&self.tokens[self.pos])
        } else {
            None
        }
    }

    fn factor_ahead(&self) -> (b: bool)
        requires
            self.wf(),
        ensures
            b == (self.pos < self.tokens.len() && starts_factor(self.tokens@[self.pos as int])),
    {
        if self.pos < self.tokens.len() {
            match self.tokens[self.pos] {
                Token::Char(_) | Token::EmptySet | Token::EmptyStr | Token::LParen => true,
                _ => false,
            }
        } else {
            false
        }
    }

    fn advance(&mut self) -> (t: Token)
        requires
            old(self).pos < old(self).tokens.len(),
        ensures
            final(self).tokens@ == old(self).tokens@,
            final(self).pos == old(self).pos + 1,
            t == old(self).tokens@[old(self).pos as int],
    {
        let token = self.tokens[self.pos];
        self.pos = self.pos + 1;
        token
    }

    fn parse_expression(&mut self) -> (res: Result<Regex, Failure>)
        requires
            old(self).wf(),
        ensures
            final(self).tokens@ == old(self).tokens@,
            final(self).wf(),
            match p_expr(old(self).tokens@, old(self).pos as int) {
                Ok((r, j)) => res == Ok::<Regex, Failure>(r) && final(self).pos == j,
                Err(f) => res == Err::<Regex, Failure>(f),
            },
        decreases old(self).tokens.len() - old(self).pos, 4int,
    {
        let ghost t = self.tokens@;
        let ghost i = self.pos as int;
        let mut left = match self.parse_term() {
            Ok(r) => r,
            Err(f) => return Err(f),
        };
        proof {
            lemma_term_progress(t, i);
        }
        while self.pos < self.tokens.len() && self.tokens[self.pos] == Token::Pipe
            invariant
                self.tokens@ == t,
                t == old(self).tokens@,
                i == old(self).pos,
                self.wf(),
                i < self.pos,
                p_expr(t, i) == p_expr_rest(t, self.pos as int, left),
            decreases self.tokens.len() - self.pos,
        {
            let ghost k = self.pos as int;
            self.advance();
            let right = match self.parse_term() {
                Ok(r) => r,
                Err(f) => return Err(f),
            };
            proof {
                lemma_term_progress(t, k + 1);
            }
            left = Regex::Union(Box::new(left), Box::new(right));
        }
        Ok(left)
    }

    fn parse_term(&mut self) -> (res: Result<Regex, Failure>)
        requires
            old(self).wf(),
        ensures
            final(self).tokens@ == old(self).tokens@,
            final(self).wf(),
            match p_term(old(self).tokens@, old(self).pos as int) {
                Ok((r, j)) => res == Ok::<Regex, Failure>(r) && final(self).pos == j,
                Err(f) => res == Err::<Regex, Failure>(f),
            },
        decreases old(self).tokens.len() - old(self).pos, 2int,
    {
        let ghost t = self.tokens@;
        let ghost i = self.pos as int;
        let mut left = match self.parse_factor() {
            Ok(r) => r,
            Err(f) => return Err(f),
        };
        proof {
            lemma_factor_progress(t, i);
        }
        while self.factor_ahead()
            invariant
                self.tokens@ == t,
                t == old(self).tokens@,
                i == old(self).pos,
                self.wf(),
                i < self.pos,
                p_term(t, i) == p_term_rest(t, self.pos as int, left),
            decreases self.tokens.len() - self.pos,
        {
            let ghost k = self.pos as int;
            let right = match self.parse_factor() {
                Ok(r) => r,
                Err(f) => return Err(f),
            };
            proof {
                lemma_factor_progress(t, k);
            }
            left = Regex::Concat(Box::new(left), Box::new(right));
        }
        Ok(left)
    }

    fn parse_factor(&mut self) -> (res: Result<Regex, Failure>)
        requires
            old(self).wf(),
        ensures
            final(self).tokens@ == old(self).tokens@,
            final(self).wf(),
            match p_factor(old(self).tokens@, old(self).pos as int) {
                Ok((r, j)) => res == Ok::<Regex, Failure>(r) && final(self).pos == j,
                Err(f) => res == Err::<Regex, Failure>(f),
            },
        decreases old(self).tokens.len() - old(self).pos, 1int,
    {
        let ghost t = self.tokens@;
        let ghost i = self.pos as int;
        let mut expr = match self.parse_atom() {
            Ok(r) => r,
            Err(f) => return Err(f),
        };
        let ghost j = self.pos as int;
        let ghost a = expr;
        while self.pos < self.tokens.len() && self.tokens[self.pos] == Token::Star
            invariant
                self.tokens@ == t,
                self.wf(),
                stars(t, j, a) == stars(t, self.pos as int, expr),
                p_atom(t, i) == Ok::<(Regex, int), Failure>((a, j)),
                star_end(t, j) == star_end(t, self.pos as int),
            decreases self.tokens.len() - self.pos,
        {
            self.advance();
            expr = Regex::Star(Box::new(expr));
        }
        Ok(expr)
    }

    fn parse_atom(&mut self) -> (res: Result<Regex, Failure>)
        requires
            old(self).wf(),
        ensures
            final(self).tokens@ == old(self).tokens@,
            final(self).wf(),
            match p_atom(old(self).tokens@, old(self).pos as int) {
                Ok((r, j)) => res == Ok::<Regex, Failure>(r) && final(self).pos == j,
                Err(f) => res == Err::<Regex, Failure>(f),
            },
            res is Err && (old(self).pos >= old(self).tokens.len() || old(self).tokens@[old(self).pos as int] != Token::LParen)
                ==> final(self).pos == old(self).pos,
            res is Err && old(self).pos < old(self).tokens.len() && old(self).tokens@[old(self).pos as int] == Token::LParen
                ==> match p_expr(old(self).tokens@, old(self).pos + 1) {
                    Ok((r, j)) => final(self).pos == j,
                    Err(_) => true,
                },
        decreases old(self).tokens.len() - old(self).pos, 0int,
    {
        match self.peek() {
            None => Err(Failure::UnexpectedEnd),
            Some(Token::Char(c)) => {
                let c = *c;
                self.advance();
                Ok(Regex::Char(c))
            },
            Some(Token::EmptySet) => {
                self.advance();
                Ok(Regex::EmptySet)
            },
            Some(Token::EmptyStr) => {
                self.advance();
                Ok(Regex::EmptyStr)
            },
            Some(Token::LParen) => {
                self.advance();
                let expr = match self.parse_expression() {
                    Ok(r) => r,
                    Err(f) => return Err(f),
                };
                if self.pos >= self.tokens.len() || self.tokens[self.pos] != Token::RParen {
                    return Err(Failure::MissingRParen);
                }
                self.advance();
                Ok(expr)
            },
            Some(t) => Err(Failure::Unexpected(*t)),
        }
    }
}


/// A character that stands for itself: neither whitespace nor one of the operators.
pub open spec fn plain(c: char) -> bool {
    !is_space(c) && !is_special(c)
}

/// Every character that occurs in `r` stands for itself.
pub open spec fn plain_symbols(r: Regex) -> bool {
    forall|c: char| #[trigger] crate::regex::symbols(r).contains(c) ==> plain(c)
}

/// The tokens of the notation of `r`.
pub open spec fn notation_tokens(r: Regex) -> Seq<Token> {
    crate::regex::show(r).map_values(|c: char| token_of(c))
}

/// The characters of the notation of `r` are operators, parentheses and its own characters.
proof fn lemma_show_chars(r: Regex)
    ensures
        forall|k: int| 0 <= k < crate::regex::show(r).len() ==> {
            let c = #[trigger] crate::regex::show(r)[k];
            c == '(' || c == ')' || c == '|' || c == '*' || c == '#' || c == '$' || crate::regex::symbols(r).contains(c)
        },
    decreases r,
{
    let s = crate::regex::show(r);
    match r {
        Regex::Union(a, b) => {
            lemma_show_chars(*a);
            lemma_show_chars(*b);
            let sa = crate::regex::show(*a);
            let sb = crate::regex::show(*b);
            assert forall|k: int| 0 <= k < s.len() implies {
                let c = #[trigger] s[k];
                c == '(' || c == ')' || c == '|' || c == '*' || c == '#' || c == '$' || crate::regex::symbols(r).contains(c)
            } by {
                if 1 <= k < 1 + sa.len() {
                    assert(s[k] == sa[k - 1]);
                } else if 2 + sa.len() <= k < 2 + sa.len() + sb.len() {
                    assert(s[k] == sb[k - 2 - sa.len()]);
                }
            }
        },
        Regex::Concat(a, b) => {
            lemma_show_chars(*a);
            lemma_show_chars(*b);
            let sa = crate::regex::show(*a);
            let sb = crate::regex::show(*b);
            assert forall|k: int| 0 <= k < s.len() implies {
                let c = #[trigger] s[k];
                c == '(' || c == ')' || c == '|' || c == '*' || c == '#' || c == '$' || crate::regex::symbols(r).contains(c)
            } by {
                if 1 <= k < 1 + sa.len() {
                    assert(s[k] == sa[k - 1]);
                } else if 1 + sa.len() <= k < 1 + sa.len() + sb.len() {
                    assert(s[k] == sb[k - 1 - sa.len()]);
                }
            }
        },
        Regex::Star(a) => {
            lemma_show_chars(*a);
            let sa = crate::regex::show(*a);
            assert forall|k: int| 0 <= k < s.len() implies {
                let c = #[trigger] s[k];
                c == '(' || c == ')' || c == '|' || c == '*' || c == '#' || c == '$' || crate::regex::symbols(r).contains(c)
            } by {
                if 1 <= k < 1 + sa.len() {
                    assert(s[k] == sa[k - 1]);
                }
            }
        },
        Regex::Char(c) => {
            assert(s =~= seq![c]);
        },
        _ => {},
    }
}

/// Tokenising a stretch without whitespace and `^` gives one token per character.
proof fn lemma_lex_run(cs: Seq<char>, i: int, j: int)
    requires
        0 <= i <= j <= cs.len(),
        forall|k: int| i <= k < j ==> !is_space(#[trigger] cs[k]) && cs[k] != '^',
    ensures
        lex_from(cs, i) == match lex_from(cs, j) {
            Ok(ts) => Ok::<Seq<Token>, int>(cs.subrange(i, j).map_values(|c: char| token_of(c)) + ts),
            Err(k) => Err::<Seq<Token>, int>(k),
        },
    decreases j - i,
{
    if i < j {
        lemma_lex_run(cs, i + 1, j);
        assert(!is_space(cs[i]) && cs[i] != '^');
        match lex_from(cs, j) {
            Ok(ts) => {
                let m = cs.subrange(i, j).map_values(|c: char| token_of(c));
                let m1 = cs.subrange(i + 1, j).map_values(|c: char| token_of(c));
                assert(seq![token_of(cs[i])] + (m1 + ts) =~= m + ts);
            },
            Err(_) => {},
        }
    } else {
        match lex_from(cs, j) {
            Ok(ts) => {
                assert(cs.subrange(i, j).map_values(|c: char| token_of(c)) + ts =~= ts);
            },
            Err(_) => {},
        }
    }
}

/// The tokens of a compound notation: its parts between parentheses.
proof fn lemma_notation_shape(r: Regex)
    ensures
        match r {
            Regex::Union(a, b) => notation_tokens(r) == seq![Token::LParen] + notation_tokens(*a) + seq![Token::Pipe]
                + notation_tokens(*b) + seq![Token::RParen],
            Regex::Concat(a, b) => notation_tokens(r) == seq![Token::LParen] + notation_tokens(*a) + notation_tokens(*b)
                + seq![Token::RParen],
            Regex::Star(a) => notation_tokens(r) == seq![Token::LParen] + notation_tokens(*a) + seq![Token::Star, Token::RParen],
            Regex::Char(c) => notation_tokens(r) == seq![token_of(c)],
            Regex::EmptySet => notation_tokens(r) == seq![Token::EmptySet],
            Regex::EmptyStr => notation_tokens(r) == seq![Token::EmptyStr],
        },
{
    match r {
        Regex::Union(a, b) => {
            assert(notation_tokens(r) =~= seq![Token::LParen] + notation_tokens(*a) + seq![Token::Pipe]
                + notation_tokens(*b) + seq![Token::RParen]);
        },
        Regex::Concat(a, b) => {
            assert(notation_tokens(r) =~= seq![Token::LParen] + notation_tokens(*a) + notation_tokens(*b)
                + seq![Token::RParen]);
        },
        Regex::Star(a) => {
            assert(notation_tokens(r) =~= seq![Token::LParen] + notation_tokens(*a) + seq![Token::Star, Token::RParen]);
        },
        Regex::Char(c) => {
            assert(notation_tokens(r) =~= seq![token_of(c)]);
        },
        Regex::EmptySet => {
            assert(notation_tokens(r) =~= seq![Token::EmptySet]);
        },
        Regex::EmptyStr => {
            assert(notation_tokens(r) =~= seq![Token::EmptyStr]);
        },
    }
}

/// The notation of an expression begins with a token that begins a factor.
proof fn lemma_notation_first(r: Regex)
    requires
        plain_symbols(r),
    ensures
        notation_tokens(r).len() > 0,
        starts_factor(notation_tokens(r)[0]),
{
    lemma_notation_shape(r);
    match r {
        Regex::Char(c) => {
            assert(crate::regex::symbols(r).contains(c));
        },
        _ => {},
    }
}

/// The parts of an expression whose characters stand for themselves have the same property.
proof fn lemma_plain_parts(r: Regex)
    requires
        plain_symbols(r),
    ensures
        match r {
            Regex::Union(a, b) => plain_symbols(*a) && plain_symbols(*b),
            Regex::Concat(a, b) => plain_symbols(*a) && plain_symbols(*b),
            Regex::Star(a) => plain_symbols(*a),
            _ => true,
        },
{
    match r {
        Regex::Union(a, b) => {
            assert forall|c: char| #[trigger] crate::regex::symbols(*a).contains(c) implies plain(c) by {
                assert(crate::regex::symbols(r).contains(c));
            }
            assert forall|c: char| #[trigger] crate::regex::symbols(*b).contains(c) implies plain(c) by {
                assert(crate::regex::symbols(r).contains(c));
            }
        },
        Regex::Concat(a, b) => {
            assert forall|c: char| #[trigger] crate::regex::symbols(*a).contains(c) implies plain(c) by {
                assert(crate::regex::symbols(r).contains(c));
            }
            assert forall|c: char| #[trigger] crate::regex::symbols(*b).contains(c) implies plain(c) by {
                assert(crate::regex::symbols(r).contains(c));
            }
        },
        Regex::Star(a) => {
            assert forall|c: char| #[trigger] crate::regex::symbols(*a).contains(c) implies plain(c) by {
                assert(crate::regex::symbols(r).contains(c));
            }
        },
        _ => {},
    }
}

/// The token after position `j`, if any, is not a star.
pub open spec fn no_star_at(t: Seq<Token>, j: int) -> bool {
    !(0 <= j < t.len() && t[j] == Token::Star)
}

/// The token after position `j`, if any, neither extends a factor nor begins one.
pub open spec fn term_ends_at(t: Seq<Token>, j: int) -> bool {
    no_star_at(t, j) && !(0 <= j < t.len() && starts_factor(t[j]))
}

/// The token after position `j`, if any, neither extends a term nor begins one.
pub open spec fn expr_ends_at(t: Seq<Token>, j: int) -> bool {
    term_ends_at(t, j) && !(0 <= j < t.len() && t[j] == Token::Pipe)
}

/// Where the tokens from `i` on are the notation of `r`, an atom is read there as `r`.
proof fn lemma_atom_reads(r: Regex, t: Seq<Token>, i: int)
    requires
        plain_symbols(r),
        0 <= i,
        i + notation_tokens(r).len() <= t.len(),
        t.subrange(i, i + notation_tokens(r).len()) == notation_tokens(r),
    ensures
        p_atom(t, i) == Ok::<(Regex, int), Failure>((r, i + notation_tokens(r).len())),
    decreases r, 0int,
{
    let n = notation_tokens(r);
    let e = i + n.len();
    lemma_notation_shape(r);
    lemma_plain_parts(r);
    assert(t[i] == n[0]);
    match r {
        Regex::Union(a, b) => {
            let na = notation_tokens(*a);
            let nb = notation_tokens(*b);
            let ea = i + 1 + na.len();
            let eb = ea + 1 + nb.len();
            assert(t.subrange(i + 1, ea) =~= na) by {
                assert forall|k: int| 0 <= k < na.len() implies t.subrange(i + 1, ea)[k] == na[k] by {
                    assert(t[i + 1 + k] == n[1 + k]);
                }
            }
            assert(t.subrange(ea + 1, eb) =~= nb) by {
                assert forall|k: int| 0 <= k < nb.len() implies t.subrange(ea + 1, eb)[k] == nb[k] by {
                    assert(t[ea + 1 + k] == n[2 + na.len() + k]);
                }
            }
            assert(t[ea] == n[1 + na.len() as int]);
            assert(t[eb] == n[2 + na.len() as int + nb.len()]);
            assert(eb + 1 == e);
            lemma_term_reads(*a, t, i + 1);
            lemma_term_reads(*b, t, ea + 1);
            assert(p_expr_rest(t, eb, r) == Ok::<(Regex, int), Failure>((r, eb)));
        },
        Regex::Concat(a, b) => {
            let na = notation_tokens(*a);
            let nb = notation_tokens(*b);
            let ea = i + 1 + na.len();
            let eb = ea + nb.len();
            assert(t.subrange(i + 1, ea) =~= na) by {
                assert forall|k: int| 0 <= k < na.len() implies t.subrange(i + 1, ea)[k] == na[k] by {
                    assert(t[i + 1 + k] == n[1 + k]);
                }
            }
            assert(t.subrange(ea, eb) =~= nb) by {
                assert forall|k: int| 0 <= k < nb.len() implies t.subrange(ea, eb)[k] == nb[k] by {
                    assert(t[ea + k] == n[1 + na.len() + k]);
                }
            }
            lemma_notation_first(*b);
            assert(t[ea] == nb[0]);
            assert(t[eb] == n[1 + na.len() as int + nb.len()]);
            assert(eb + 1 == e);
            lemma_factor_reads(*a, t, i + 1);
            lemma_factor_reads(*b, t, ea);
            lemma_notation_first(*a);
            assert(p_term_rest(t, eb, r) == Ok::<(Regex, int), Failure>((r, eb)));
            assert(p_term_rest(t, ea, *a) == Ok::<(Regex, int), Failure>((r, eb)));
            assert(p_expr_rest(t, eb, r) == Ok::<(Regex, int), Failure>((r, eb)));
        },
        Regex::Star(a) => {
            let na = notation_tokens(*a);
            let ea = i + 1 + na.len();
            assert(t.subrange(i + 1, ea) =~= na) by {
                assert forall|k: int| 0 <= k < na.len() implies t.subrange(i + 1, ea)[k] == na[k] by {
                    assert(t[i + 1 + k] == n[1 + k]);
                }
            }
            assert(t[ea] == n[1 + na.len() as int]);
            assert(t[ea + 1] == n[2 + na.len() as int]);
            assert(ea + 2 == e);
            lemma_atom_reads(*a, t, i + 1);
            lemma_notation_first(*a);
            assert(stars(t, ea + 1, r) == r);
            assert(stars(t, ea, *a) == r);
            assert(star_end(t, ea + 1) == ea + 1);
            assert(p_factor(t, i + 1) == Ok::<(Regex, int), Failure>((r, ea + 1)));
            assert(p_term_rest(t, ea + 1, r) == Ok::<(Regex, int), Failure>((r, ea + 1)));
            assert(p_expr_rest(t, ea + 1, r) == Ok::<(Regex, int), Failure>((r, ea + 1)));
        },
        Regex::Char(c) => {
            assert(crate::regex::symbols(r).contains(c));
        },
        _ => {},
    }
}

/// Where the tokens from `i` on are the notation of `r` and no star follows, a factor is
/// read there as `r`.
proof fn lemma_factor_reads(r: Regex, t: Seq<Token>, i: int)
    requires
        plain_symbols(r),
        0 <= i,
        i + notation_tokens(r).len() <= t.len(),
        t.subrange(i, i + notation_tokens(r).len()) == notation_tokens(r),
        no_star_at(t, i + notation_tokens(r).len()),
    ensures
        p_factor(t, i) == Ok::<(Regex, int), Failure>((r, i + notation_tokens(r).len())),
    decreases r, 1int,
{
    lemma_atom_reads(r, t, i);
}

/// Where the tokens from `i` on are the notation of `r` and the term cannot go on, a term
/// is read there as `r`.
proof fn lemma_term_reads(r: Regex, t: Seq<Token>, i: int)
    requires
        plain_symbols(r),
        0 <= i,
        i + notation_tokens(r).len() <= t.len(),
        t.subrange(i, i + notation_tokens(r).len()) == notation_tokens(r),
        term_ends_at(t, i + notation_tokens(r).len()),
    ensures
        p_term(t, i) == Ok::<(Regex, int), Failure>((r, i + notation_tokens(r).len())),
    decreases r, 2int,
{
    lemma_factor_reads(r, t, i);
    lemma_notation_first(r);
}

/// Where the tokens from `i` on are the notation of `r` and the expression cannot go on,
/// an expression is read there as `r`.
proof fn lemma_expr_reads(r: Regex, t: Seq<Token>, i: int)
    requires
        plain_symbols(r),
        0 <= i,
        i + notation_tokens(r).len() <= t.len(),
        t.subrange(i, i + notation_tokens(r).len()) == notation_tokens(r),
        expr_ends_at(t, i + notation_tokens(r).len()),
    ensures
        p_expr(t, i) == Ok::<(Regex, int), Failure>((r, i + notation_tokens(r).len())),
    decreases r, 3int,
{
    lemma_term_reads(r, t, i);
    lemma_notation_first(r);
}

/// The fully parenthesised notation of an expression whose characters stand for
/// themselves reads back as the same expression.
pub proof fn law_notation_reads_back(r: Regex)
    requires
        plain_symbols(r),
    ensures
        parse_result(crate::regex::show(r)) == Ok::<Regex, Seq<char>>(r),
{
    let cs = crate::regex::show(r);
    lemma_show_chars(r);
    assert forall|k: int| 0 <= k < cs.len() implies !is_space(#[trigger] cs[k]) && cs[k] != '^' by {
        let c = cs[k];
        if !(c == '(' || c == ')' || c == '|' || c == '*' || c == '#' || c == '$') {
            assert(crate::regex::symbols(r).contains(c));
        }
    }
    lemma_lex_run(cs, 0, cs.len() as int);
    assert(cs.subrange(0, cs.len() as int) =~= cs);
    let t = notation_tokens(r);
    assert(lex_from(cs, 0) == Ok::<Seq<Token>, int>(t)) by {
        assert(cs.subrange(0, cs.len() as int).map_values(|c: char| token_of(c)) + Seq::<Token>::empty() =~= t);
    }
    assert(t.subrange(0, t.len() as int) =~= t);
    lemma_expr_reads(r, t, 0);
}


/// The text with `|` written for every `+`.
pub open spec fn plus_as_bar(cs: Seq<char>) -> Seq<char> {
    cs.map_values(|c: char| if c == '+' { '|' } else { c })
}

/// `+` and `|` are read as the same token.
proof fn lemma_plus_lex(cs: Seq<char>, i: int)
    requires
        0 <= i <= cs.len(),
    ensures
        lex_from(plus_as_bar(cs), i) == lex_from(cs, i),
    decreases cs.len() - i,
{
    let d = plus_as_bar(cs);
    if i < cs.len() {
        assert(d[i] == if cs[i] == '+' { '|' } else { cs[i] });
        if i + 1 < cs.len() {
            assert(d[i + 1] == if cs[i + 1] == '+' { '|' } else { cs[i + 1] });
        }
        if is_space(cs[i]) {
            lemma_plus_lex(cs, i + 1);
        } else if cs[i] == '^' {
            if i + 1 < cs.len() && cs[i + 1] == '*' {
                lemma_plus_lex(cs, i + 2);
            }
        } else {
            lemma_plus_lex(cs, i + 1);
            assert(token_of(d[i]) == token_of(cs[i]));
        }
    }
}

/// `+` and `|` take one byte each.
proof fn lemma_plus_bytes(a: Seq<char>, b: Seq<char>)
    requires
        a.len() == b.len(),
        forall|i: int| 0 <= i < a.len() ==> #[trigger] b[i] == if a[i] == '+' { '|' } else { a[i] },
    ensures
        vstd::utf8::encode_utf8(a).len() == vstd::utf8::encode_utf8(b).len(),
    decreases a.len(),
{
    if a.len() > 0 {
        assert forall|i: int| 0 <= i < a.len() - 1 implies #[trigger] b.drop_first()[i] == if a.drop_first()[i] == '+' { '|' } else { a.drop_first()[i] } by {
            assert(b[i + 1] == if a[i + 1] == '+' { '|' } else { a[i + 1] });
        }
        lemma_plus_bytes(a.drop_first(), b.drop_first());
        assert(b[0] == if a[0] == '+' { '|' } else { a[0] });
    }
}

/// `+` and `|` both denote union: writing `|` for every `+` leaves what a text reads as,
/// and every message about it, unchanged.
pub proof fn law_plus_is_union(cs: Seq<char>)
    ensures
        parse_result(plus_as_bar(cs)) == parse_result(cs),
{
    let d = plus_as_bar(cs);
    lemma_plus_lex(cs, 0);
    match lex_from(cs, 0) {
        Err(k) => {
            crate::parser::lemma_lex_err_range(cs, 0);
            assert forall|i: int| 0 <= i < cs.take(k).len() implies #[trigger] d.take(k)[i]
                == if cs.take(k)[i] == '+' { '|' } else { cs.take(k)[i] } by {
                assert(d[i] == if cs[i] == '+' { '|' } else { cs[i] });
            }
            lemma_plus_bytes(cs.take(k), d.take(k));
        },
        Ok(_) => {},
    }
}

/// A tokenising error lies at a position of the text.
proof fn lemma_lex_err_range(cs: Seq<char>, i: int)
    requires
        0 <= i <= cs.len(),
    ensures
        lex_from(cs, i) matches Err(k) ==> i <= k < cs.len(),
    decreases cs.len() - i,
{
    if i < cs.len() {
        let c = cs[i];
        if is_space(c) {
            lemma_lex_err_range(cs, i + 1);
        } else if c == '^' {
            if i + 1 < cs.len() && cs[i + 1] == '*' {
                lemma_lex_err_range(cs, i + 2);
            }
        } else {
            lemma_lex_err_range(cs, i + 1);
        }
    }
}

/// Tokenising the part of `a + b` that lies in `b`.
proof fn lemma_lex_shift(a: Seq<char>, b: Seq<char>, j: int)
    requires
        0 <= j <= b.len(),
    ensures
        lex_from(a + b, a.len() + j) == match lex_from(b, j) {
            Ok(t) => Ok::<Seq<Token>, int>(t),
            Err(k) => Err::<Seq<Token>, int>(a.len() + k),
        },
    decreases b.len() - j,
{
    let ab = a + b;
    if j < b.len() {
        assert(ab[a.len() + j] == b[j]);
        if j + 1 < b.len() {
            assert(ab[a.len() + j + 1] == b[j + 1]);
        }
        let c = b[j];
        if is_space(c) {
            lemma_lex_shift(a, b, j + 1);
        } else if c == '^' {
            if j + 1 < b.len() && b[j + 1] == '*' {
                lemma_lex_shift(a, b, j + 2);
            }
        } else {
            lemma_lex_shift(a, b, j + 1);
        }
    }
}

/// Tokenising `a + b` from a position in `a` from which `a` tokenises.
proof fn lemma_lex_concat(a: Seq<char>, b: Seq<char>, i: int)
    requires
        0 <= i <= a.len(),
        lex_from(a, i) is Ok,
    ensures
        lex_from(a + b, i) == match lex_from(b, 0) {
            Ok(t) => Ok::<Seq<Token>, int>(lex_from(a, i)->Ok_0 + t),
            Err(k) => Err::<Seq<Token>, int>(a.len() + k),
        },
    decreases a.len() - i,
{
    let ab = a + b;
    if i < a.len() {
        assert(ab[i] == a[i]);
        if i + 1 < a.len() {
            assert(ab[i + 1] == a[i + 1]);
        }
        let c = a[i];
        if is_space(c) {
            lemma_lex_concat(a, b, i + 1);
        } else if c == '^' {
            lemma_lex_concat(a, b, i + 2);
            match lex_from(b, 0) {
                Ok(t) => {
                    assert(seq![Token::Star] + (lex_from(a, i + 2)->Ok_0 + t) =~= lex_from(a, i)->Ok_0 + t);
                },
                Err(_) => {},
            }
        } else {
            lemma_lex_concat(a, b, i + 1);
            match lex_from(b, 0) {
                Ok(t) => {
                    assert(seq![token_of(c)] + (lex_from(a, i + 1)->Ok_0 + t) =~= lex_from(a, i)->Ok_0 + t);
                },
                Err(_) => {},
            }
        }
    } else {
        lemma_lex_shift(a, b, 0);
        assert(lex_from(a, i)->Ok_0 =~= Seq::<Token>::empty());
        match lex_from(b, 0) {
            Ok(t) => {
                assert(Seq::<Token>::empty() + t =~= t);
            },
            Err(_) => {},
        }
    }
}

/// Tokenising `a + b` from a position in `a` from which `a` fails before its last
/// character fails there too.
proof fn lemma_lex_concat_err(a: Seq<char>, b: Seq<char>, i: int)
    requires
        0 <= i <= a.len(),
        lex_from(a, i) matches Err(k) && k < a.len() - 1,
    ensures
        lex_from(a + b, i) == lex_from(a, i),
    decreases a.len() - i,
{
    let ab = a + b;
    if i < a.len() {
        assert(ab[i] == a[i]);
        if i + 1 < a.len() {
            assert(ab[i + 1] == a[i + 1]);
        }
        let c = a[i];
        if is_space(c) {
            lemma_lex_concat_err(a, b, i + 1);
        } else if c == '^' {
            if i + 1 < a.len() && a[i + 1] == '*' {
                lemma_lex_concat_err(a, b, i + 2);
            }
        } else {
            lemma_lex_concat_err(a, b, i + 1);
        }
    }
}

/// `R^*` and `R*` denote the same: `^*` and `*` give the same token, so that the two texts
/// read as the same expression or fail with the same message, or both hold a character
/// that starts no token. This holds unless the text before ends with a `^` that is read
/// as the start of a `^*`.
pub proof fn law_caret_star_is_star(pre: Seq<char>, post: Seq<char>)
    requires
        lex_from(pre, 0) != Err::<Seq<Token>, int>(pre.len() - 1),
    ensures
        parse_result(pre + "^*"@ + post) is Ok <==> parse_result(pre + "*"@ + post) is Ok,
        lex_from(post, 0) is Ok ==> parse_result(pre + "^*"@ + post) == parse_result(pre + "*"@ + post),
{
    reveal_strlit("^*");
    reveal_strlit("*");
    let x2 = "^*"@ + post;
    let y2 = "*"@ + post;
    assert(pre + "^*"@ + post =~= pre + x2);
    assert(pre + "*"@ + post =~= pre + y2);
    lemma_lex_err_range(pre, 0);
    if lex_from(pre, 0) is Err {
        let k = lex_from(pre, 0)->Err_0;
        lemma_lex_concat_err(pre, x2, 0);
        lemma_lex_concat_err(pre, y2, 0);
        assert((pre + x2).take(k) =~= pre.take(k));
        assert((pre + y2).take(k) =~= pre.take(k));
    } else {
        lemma_lex_shift("^*"@, post, 0);
        lemma_lex_shift("*"@, post, 0);
        assert(x2[0] == '^' && x2[1] == '*');
        assert(y2[0] == '*');
        lemma_lex_concat(pre, x2, 0);
        lemma_lex_concat(pre, y2, 0);
        match lex_from(post, 0) {
            Ok(t) => {
                assert(lex_from(x2, 0) == Ok::<Seq<Token>, int>(seq![Token::Star] + t));
                assert(lex_from(y2, 0) == Ok::<Seq<Token>, int>(seq![Token::Star] + t));
            },
            Err(k) => {
                assert(lex_from(x2, 0) is Err);
                assert(lex_from(y2, 0) is Err);
            },
        }
    }
}

} // verus!
