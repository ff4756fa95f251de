use vstd::prelude::*;

use crate::nfa::NFA;
use crate::text::{push_char, push_decimal};

verus! {

// ---------------------------------------------------------------------------------------
// Text: whitespace, trimming, words.
// ---------------------------------------------------------------------------------------

/// The Unicode `White_Space` characters.
pub open spec fn is_white(c: char) -> bool {
    ('\u{9}' <= c && c <= '\u{d}') || c == ' ' || c == '\u{85}' || c == '\u{a0}' || c == '\u{1680}'
        || ('\u{2000}' <= c && c <= '\u{200a}') || c == '\u{2028}' || c == '\u{2029}' || c == '\u{202f}'
        || c == '\u{205f}' || c == '\u{3000}'
}

fn white(c: char) -> (b: bool)
    ensures
        b == is_white(c),
{
    ('\u{9}' <= c && c <= '\u{d}') || c == ' ' || c == '\u{85}' || c == '\u{a0}' || c == '\u{1680}'
        || ('\u{2000}' <= c && c <= '\u{200a}') || c == '\u{2028}' || c == '\u{2029}' || c == '\u{202f}'
        || c == '\u{205f}' || c == '\u{3000}'
}

/// `l` without its leading whitespace.
pub open spec fn trim_start(l: Seq<char>) -> Seq<char>
    decreases l.len(),
{
    if l.len() > 0 && is_white(l[0]) {
        trim_start(l.drop_first())
    } else {
        l
    }
}

/// `l` without its trailing whitespace.
pub open spec fn trim_end(l: Seq<char>) -> Seq<char>
    decreases l.len(),
{
    if l.len() > 0 && is_white(l.last()) {
        trim_end(l.drop_last())
    } else {
        l
    }
}

/// `l` without its leading and trailing whitespace.
pub open spec fn trim(l: Seq<char>) -> Seq<char> {
    trim_end(trim_start(l))
}

/// The words of `l` so far, and the word being read, after reading `l` from the left.
pub open spec fn words_scan(l: Seq<char>) -> (Seq<Seq<char>>, Seq<char>)
    decreases l.len(),
{
    if l.len() == 0 {
        (Seq::empty(), Seq::empty())
    } else {
        let (ws, cur) = words_scan(l.drop_last());
        if is_white(l.last()) {
            (if cur.len() > 0 { ws.push(cur) } else { ws }, Seq::empty())
        } else {
            (ws, cur.push(l.last()))
        }
    }
}

/// The words of `l`: its longest stretches without whitespace, in order.
pub open spec fn words(l: Seq<char>) -> Seq<Seq<char>> {
    let (ws, cur) = words_scan(l);
    if cur.len() > 0 {
        ws.push(cur)
    } else {
        ws
    }
}

/// The parts of `l` before, between and after its arrows `->`, read from the left, and
/// the part being read.
pub open spec fn arrow_scan(l: Seq<char>) -> (Seq<Seq<char>>, Seq<char>)
    decreases l.len(),
{
    if l.len() == 0 {
        (Seq::empty(), Seq::empty())
    } else {
        let (ps, cur) = arrow_scan(l.drop_last());
        if l.last() == '>' && cur.len() > 0 && cur.last() == '-' {
            (ps.push(cur.drop_last()), Seq::empty())
        } else {
            (ps, cur.push(l.last()))
        }
    }
}

/// The parts of `l` around its arrows `->`.
pub open spec fn arrow_parts(l: Seq<char>) -> Seq<Seq<char>> {
    let (ps, cur) = arrow_scan(l);
    ps.push(cur)
}

/// `l` holds an arrow `->`.
pub open spec fn has_arrow(l: Seq<char>) -> bool {
    exists|i: int| 0 <= i && i + 1 < l.len() && #[trigger] l[i] == '-' && l[i + 1] == '>'
}

/// The parts joined with `sep` between each two.
pub open spec fn join(parts: Seq<Seq<char>>, sep: Seq<char>) -> Seq<char>
    decreases parts.len(),
{
    if parts.len() == 0 {
        Seq::empty()
    } else if parts.len() == 1 {
        parts[0]
    } else {
        join(parts.drop_last(), sep) + sep + parts.last()
    }
}

/// `l` begins with `p`.
pub open spec fn starts_with(l: Seq<char>, p: Seq<char>) -> bool {
    p.len() <= l.len() && l.take(p.len() as int) == p
}

/// The characters of `l` from position `i` on.
fn chars_from(l: &Vec<char>, i: usize) -> (r: Vec<char>)
    requires
        i <= l.len(),
    ensures
        r@ == l@.skip(i as int),
{
    let mut r: Vec<char> = Vec::new();
    let mut k: usize = i;
    while k < l.len()
        invariant
            i <= k <= l.len(),
            r@ == l@.subrange(i as int, k as int),
        decreases l.len() - k,
    {
        r.push(l[k]);
        k = k + 1;
        proof {
            assert(r@ =~= l@.subrange(i as int, k as int));
        }
    }
    r
}

/// `l` without its leading and trailing whitespace.
fn trimmed(l: &Vec<char>) -> (r: Vec<char>)
    ensures
        r@ == trim(l@),
{
    let mut i: usize = 0;
    proof {
        assert(l@.skip(0) =~= l@);
    }
    while i < l.len() && white(l[i])
        invariant
            i <= l.len(),
            trim_start(l@) == trim_start(l@.skip(i as int)),
        decreases l.len() - i,
    {
        proof {
            assert(l@.skip(i as int).drop_first() =~= l@.skip(i + 1));
        }
        i = i + 1;
    }
    let mut j: usize = l.len();
    proof {
        assert(l@.skip(i as int).subrange(0, (j - i) as int) =~= l@.skip(i as int));
    }
    while j > i && white(l[j - 1])
        invariant
            i <= j <= l.len(),
            trim_start(l@) == l@.skip(i as int),
            trim(l@) == trim_end(l@.subrange(i as int, j as int)),
        decreases j,
    {
        proof {
            assert(l@.subrange(i as int, j as int).drop_last() =~= l@.subrange(i as int, j - 1));
        }
        j = j - 1;
    }
    let mut r: Vec<char> = Vec::new();
    let mut k: usize = i;
    while k < j
        invariant
            i <= k <= j,
            j <= l.len(),
            r@ == l@.subrange(i as int, k as int),
        decreases j - k,
    {
        r.push(l[k]);
        k = k + 1;
        proof {
            assert(r@ =~= l@.subrange(i as int, k as int));
        }
    }
    r
}


/// The texts of a sequence of character vectors.
pub open spec fn views(v: Seq<Vec<char>>) -> Seq<Seq<char>> {
    Seq::new(v.len(), |k: int| v[k]@)
}

proof fn lemma_views_push(v: Seq<Vec<char>>, x: Vec<char>)
    ensures
        views(v.push(x)) == views(v).push(x@),
{
    assert(views(v.push(x)) =~= views(v).push(x@));
}

/// The words of `l`.
fn split_words(l: &Vec<char>) -> (ws: Vec<Vec<char>>)
    ensures
        views(ws@) == words(l@),
{
    let mut ws: Vec<Vec<char>> = Vec::new();
    let mut cur: Vec<char> = Vec::new();
    let mut i: usize = 0;
    proof {
        assert(l@.take(0) =~= Seq::<char>::empty());
        assert(views(ws@) =~= Seq::<Seq<char>>::empty());
    }
    while i < l.len()
        invariant
            i <= l.len(),
            (views(ws@), cur@) == words_scan(l@.take(i as int)),
        decreases l.len() - i,
    {
        let c = l[i];
        proof {
            assert(l@.take(i + 1).drop_last() =~= l@.take(i as int));
            assert(l@.take(i + 1).last() == c);
        }
        if white(c) {
            if cur.len() > 0 {
                proof {
                    lemma_views_push(ws@, cur);
                }
                ws.push(cur);
                cur = Vec::new();
            } else {
                cur = Vec::new();
            }
            proof {
                assert(cur@ =~= Seq::<char>::empty());
            }
        } else {
            cur.push(c);
        }
        i = i + 1;
    }
    proof {
        assert(l@.take(i as int) =~= l@);
    }
    if cur.len() > 0 {
        proof {
            lemma_views_push(ws@, cur);
        }
        ws.push(cur);
    }
    ws
}

/// The parts of `l` around its arrows.
fn split_arrows(l: &Vec<char>) -> (ps: Vec<Vec<char>>)
    ensures
        views(ps@) == arrow_parts(l@),
{
    let mut ps: Vec<Vec<char>> = Vec::new();
    let mut cur: Vec<char> = Vec::new();
    let mut i: usize = 0;
    proof {
        assert(l@.take(0) =~= Seq::<char>::empty());
        assert(views(ps@) =~= Seq::<Seq<char>>::empty());
    }
    while i < l.len()
        invariant
            i <= l.len(),
            (views(ps@), cur@) == arrow_scan(l@.take(i as int)),
        decreases l.len() - i,
    {
        let c = l[i];
        proof {
            assert(l@.take(i + 1).drop_last() =~= l@.take(i as int));
            assert(l@.take(i + 1).last() == c);
        }
        if c == '>' && cur.len() > 0 && cur[cur.len() - 1] == '-' {
            let ghost before = cur@;
            cur.pop();
            proof {
                assert(cur@ =~= before.drop_last());
                lemma_views_push(ps@, cur);
            }
            ps.push(cur);
            cur = Vec::new();
            proof {
                assert(cur@ =~= Seq::<char>::empty());
            }
        } else {
            cur.push(c);
        }
        i = i + 1;
    }
    proof {
        assert(l@.take(i as int) =~= l@);
        lemma_views_push(ps@, cur);
    }
    ps.push(cur);
    ps
}

/// Whether `l` holds an arrow `->`.
fn contains_arrow(l: &Vec<char>) -> (b: bool)
    ensures
        b == has_arrow(l@),
{
    let mut i: usize = 0;
    while i < l.len() && i + 1 < l.len()
        invariant
            i <= l.len(),
            forall|k: int| 0 <= k < i && k + 1 < l@.len() ==> !(#[trigger] l@[k] == '-' && l@[k + 1] == '>'),
        decreases l.len() - i,
    {
        if l[i] == '-' && l[i + 1] == '>' {
            return true;
        }
        i = i + 1;
    }
    false
}

/// Whether `l` holds `c`.
fn contains_char(l: &Vec<char>, c: char) -> (b: bool)
    ensures
        b == l@.contains(c),
{
    let mut i: usize = 0;
    while i < l.len()
        invariant
            i <= l.len(),
            forall|k: int| 0 <= k < i ==> l@[k] != c,
        decreases l.len() - i,
    {
        if l[i] == c {
            return true;
        }
        i = i + 1;
    }
    false
}

/// Whether `l` begins with the text `p`.
fn begins_with(l: &Vec<char>, p: &str) -> (b: bool)
    ensures
        b == starts_with(l@, p@),
{
    let pc = crate::text::chars_of(p);
    if pc.len() > l.len() {
        return false;
    }
    let mut i: usize = 0;
    while i < pc.len()
        invariant
            pc.len() <= l.len(),
            i <= pc.len(),
            pc@ == p@,
            forall|k: int| 0 <= k < i ==> l@[k] == pc@[k],
        decreases pc.len() - i,
    {
        if l[i] != pc[i] {
            proof {
                assert(l@.take(pc.len() as int)[i as int] != p@[i as int]);
            }
            return false;
        }
        i = i + 1;
    }
    proof {
        assert(l@.take(pc.len() as int) =~= p@);
    }
    true
}

/// Appends the parts from position `from` on, joined with `sep`.
fn push_joined(s: &mut String, parts: &Vec<Vec<char>>, from: usize, sep: &str)
    requires
        from <= parts@.len(),
    ensures
        final(s)@ == old(s)@ + join(views(parts@).skip(from as int), sep@),
{
    let ghost all = views(parts@).skip(from as int);
    let mut k: usize = from;
    proof {
        assert(all.take(0) =~= Seq::<Seq<char>>::empty());
    }
    while k < parts.len()
        invariant
            from <= k <= parts@.len(),
            all == views(parts@).skip(from as int),
            s@ == old(s)@ + join(all.take(k - from), sep@),
        decreases parts.len() - k,
    {
        let ghost before = s@;
        if k > from {
            s.append(sep);
        }
        crate::text::push_chars(s, &parts[k]);
        k = k + 1;
        proof {
            let t = all.take(k - from);
            assert(t.drop_last() =~= all.take(k - 1 - from));
            assert(t.last() == parts@[k - 1]@);
            if k - from == 1 {
                assert(all.take(0) =~= Seq::<Seq<char>>::empty());
            }
            assert(s@ =~= old(s)@ + join(t, sep@));
        }
    }
    proof {
        assert(all.take(k - from) =~= all);
    }
}


// ---------------------------------------------------------------------------------------
// Messages and the check of names and symbols.
// ---------------------------------------------------------------------------------------

/// The message `msg` about line `no`.
pub open spec fn error_text(no: nat, msg: Seq<char>) -> Seq<char> {
    "第"@ + crate::text::decimal(no) + "行: "@ + msg
}

/// The message `msg` about line `no`, with a suggestion.
pub open spec fn suggestion_text(no: nat, msg: Seq<char>, suggest: Seq<char>) -> Seq<char> {
    error_text(no, msg) + "\n  --> 建议: "@ + suggest
}

fn err_msg(no: usize, msg: &str) -> (s: String)
    ensures
        s@ == error_text(no as nat, msg@),
{
    let mut s = String::from_str("第");
    push_decimal(&mut s, no);
    s.append("行: ");
    s.append(msg);
    s
}

fn err_suggest(no: usize, msg: &str, suggest: &str) -> (s: String)
    ensures
        s@ == suggestion_text(no as nat, msg@, suggest@),
{
    let mut s = err_msg(no, msg);
    s.append("\n  --> 建议: ");
    s.append(suggest);
    s
}

/// A character allowed in a state name: a letter or digit of ASCII, `_`, `-` or `.`.
pub open spec fn name_char(c: char) -> bool {
    ('a' <= c && c <= 'z') || ('A' <= c && c <= 'Z') || ('0' <= c && c <= '9') || c == '_' || c == '-' || c == '.'
}

/// The position of the first character of `name` not allowed in a state name.
pub open spec fn first_bad(name: Seq<char>) -> int {
    choose|i: int| 0 <= i < name.len() && !name_char(name[i]) && forall|j: int| 0 <= j < i ==> name_char(#[trigger] name[j])
}

/// The message about `name` on line `no`, where it is not a valid state name.
pub open spec fn name_problem(name: Seq<char>, no: nat) -> Option<Seq<char>> {
    if name.len() == 0 {
        Some(error_text(no, "状态名为空"@))
    } else if exists|i: int| 0 <= i < name.len() && !name_char(#[trigger] name[i]) {
        Some(error_text(no, "状态名 '"@ + name + "' 包含非法字符 '"@ + seq![name[first_bad(name)]] + "'"@))
    } else {
        None
    }
}

/// The message about the first of `names` that is not a valid state name.
pub open spec fn names_problem(names: Seq<Seq<char>>, no: nat) -> Option<Seq<char>>
    decreases names.len(),
{
    if names.len() == 0 {
        None
    } else {
        match names_problem(names.drop_last(), no) {
            Some(m) => Some(m),
            None => name_problem(names.last(), no),
        }
    }
}

/// What the symbol field `sym` of line `no` stands for: `None` for `$` (an ε-move), the
/// character for one ASCII character other than `#` and `$`; else the message about it.
pub open spec fn symbol_meaning(sym: Seq<char>, no: nat) -> Result<Option<char>, Seq<char>> {
    if sym == "$"@ {
        Ok(None)
    } else if sym.len() == 1 && (sym[0] as u32) < 0x80 {
        if sym[0] == '#' || sym[0] == '$' {
            Err(error_text(no, "'"@ + seq![sym[0]] + "' 是保留字符，不能用作符号"@))
        } else {
            Ok(Some(sym[0]))
        }
    } else {
        Err(error_text(no, "符号 '"@ + sym + "' 无效，应为单个字符或 $"@))
    }
}

fn is_name_char(c: char) -> (b: bool)
    ensures
        b == name_char(c),
{
    ('a' <= c && c <= 'z') || ('A' <= c && c <= 'Z') || ('0' <= c && c <= '9') || c == '_' || c == '-' || c == '.'
}

fn validate_name(name: &Vec<char>, no: usize) -> (r: Result<(), String>)
    ensures
        match name_problem(name@, no as nat) {
            None => r is Ok,
            Some(m) => r is Err && r->Err_0@ == m,
        },
{
    if name.len() == 0 {
        return Err(err_msg(no, "状态名为空"));
    }
    let mut i: usize = 0;
    while i < name.len()
        invariant
            i <= name.len(),
            forall|j: int| 0 <= j < i ==> name_char(#[trigger] name@[j]),
        decreases name.len() - i,
    {
        let c = name[i];
        if !is_name_char(c) {
            let mut m = String::from_str("状态名 '");
            crate::text::push_chars(&mut m, name);
            m.append("' 包含非法字符 '");
            push_char(&mut m, c);
            m.append("'");
            proof {
                let k = first_bad(name@);
                assert(0 <= i < name@.len() && !name_char(name@[i as int])
                    && forall|j: int| 0 <= j < i ==> name_char(#[trigger] name@[j]));
                assert(0 <= k < name@.len() && !name_char(name@[k])
                    && forall|j: int| 0 <= j < k ==> name_char(#[trigger] name@[j]));
                if k < i {
                    assert(name_char(name@[k]));
                } else if k > i {
                    assert(name_char(name@[i as int]));
                }
            }
            return Err(err_msg(no, m.as_str()));
        }
        i = i + 1;
    }
    Ok(())
}

fn validate_sym(sym: &Vec<char>, no: usize) -> (r: Result<Option<char>, String>)
    ensures
        match symbol_meaning(sym@, no as nat) {
            Ok(v) => r == Ok::<Option<char>, String>(v),
            Err(m) => r is Err && r->Err_0@ == m,
        },
{
    proof {
        reveal_strlit("$");
    }
    if sym.len() == 1 && sym[0] == '$' {
        proof {
            assert(sym@ =~= "$"@);
        }
        return Ok(None);
    }
    proof {
        assert(sym@ != "$"@) by {
            if sym@ == "$"@ {
                assert(sym@.len() == 1 && sym@[0] == '$');
            }
        }
    }
    if sym.len() == 1 && (sym[0] as u32) < 0x80 {
        let c = sym[0];
        if c == '#' || c == '$' {
            let mut m = String::from_str("'");
            push_char(&mut m, c);
            m.append("' 是保留字符，不能用作符号");
            return Err(err_msg(no, m.as_str()));
        }
        return Ok(Some(c));
    }
    let mut m = String::from_str("符号 '");
    crate::text::push_chars(&mut m, sym);
    m.append("' 无效，应为单个字符或 $");
    Err(err_msg(no, m.as_str()))
}


// ---------------------------------------------------------------------------------------
// Lines.
// ---------------------------------------------------------------------------------------

/// A line of a description of an automaton that says something.
pub enum Line {
    /// `start: name`: the start state.
    Start(Seq<char>),
    /// `accept: name name ...`: the accepting states.
    Accept(Seq<Seq<char>>),
    /// `source symbol target`: a transition; the symbol `$` is an ε-move.
    Trans(Seq<char>, Seq<char>, Seq<char>),
}

/// What one line of a description gives: nothing (blank or a comment), a line that says
/// something, or the message about what is wrong with it.
pub enum Outcome {
    Skip,
    Entry(Line),
    Fail(Seq<char>),
}

/// What line number `no`, with the text `raw`, gives.
pub open spec fn classify(raw: Seq<char>, no: nat) -> Outcome {
    let l = trim(raw);
    if l.len() == 0 || l[0] == '#' {
        Outcome::Skip
    } else if l.contains('\t') {
        Outcome::Fail(suggestion_text(no, "包含制表符"@, "请使用空格"@))
    } else if starts_with(l, "start:"@) {
        let name = trim(l.skip(6));
        if name.len() == 0 {
            Outcome::Fail(error_text(no, "start: 后缺少状态名"@))
        } else {
            match name_problem(name, no) {
                Some(m) => Outcome::Fail(m),
                None => Outcome::Entry(Line::Start(name)),
            }
        }
    } else if starts_with(l, "start "@) {
        Outcome::Fail(suggestion_text(no, "start 后缺少冒号"@, "start: "@ + l.skip(6)))
    } else if starts_with(l, "accept:"@) {
        let names = words(l.skip(7));
        if names.len() == 0 {
            Outcome::Fail(error_text(no, "accept: 后缺少状态名"@))
        } else {
            match names_problem(names, no) {
                Some(m) => Outcome::Fail(m),
                None => Outcome::Entry(Line::Accept(names)),
            }
        }
    } else if starts_with(l, "accept "@) {
        Outcome::Fail(suggestion_text(no, "accept 后缺少冒号"@, "accept: "@ + l.skip(7)))
    } else if has_arrow(l) {
        Outcome::Fail(suggestion_text(no, "不支持 '->' 箭头语法"@,
            "请用空格分隔: "@ + join(arrow_parts(l).map_values(|p: Seq<char>| trim(p)), " "@)))
    } else {
        let parts = words(l);
        if parts.len() < 3 {
            Outcome::Fail(suggestion_text(no, "需要 3 个字段，当前 "@ + crate::text::decimal(parts.len()) + " 个"@,
                "每行格式: 源 符号 目标，例如: q0 a q1"@))
        } else if parts.len() > 3 {
            Outcome::Fail(suggestion_text(no, "存在多余字段 '"@ + join(parts.skip(3), " "@) + "'"@,
                "转移行只能有 3 个字段，多余内容应写在单独行"@))
        } else {
            match name_problem(parts[0], no) {
                Some(m) => Outcome::Fail(m),
                None => match name_problem(parts[2], no) {
                    Some(m) => Outcome::Fail(m),
                    None => match symbol_meaning(parts[1], no) {
                        Err(m) => Outcome::Fail(m),
                        Ok(_) => Outcome::Entry(Line::Trans(parts[0], parts[1], parts[2])),
                    },
                },
            }
        }
    }
}

/// One line, read.
enum Parsed {
    Skip,
    Start(Vec<char>),
    Accept(Vec<Vec<char>>),
    Trans(Vec<char>, Vec<char>, Vec<char>, Option<char>),
    Fail(String),
}

/// What a read line stands for.
spec fn outcome_of(p: &Parsed) -> Outcome {
    match p {
        Parsed::Skip => Outcome::Skip,
        Parsed::Start(n) => Outcome::Entry(Line::Start(n@)),
        Parsed::Accept(ns) => Outcome::Entry(Line::Accept(views(ns@))),
        Parsed::Trans(s, y, d, _) => Outcome::Entry(Line::Trans(s@, y@, d@)),
        Parsed::Fail(m) => Outcome::Fail(m@),
    }
}

/// Checks `names` in order: the message about the first that is not a valid state name.
fn validate_names(names: &Vec<Vec<char>>, no: usize) -> (r: Result<(), String>)
    ensures
        match names_problem(views(names@), no as nat) {
            None => r is Ok,
            Some(m) => r is Err && r->Err_0@ == m,
        },
{
    let mut i: usize = 0;
    while i < names.len()
        invariant
            i <= names@.len(),
            names_problem(views(names@).take(i as int), no as nat) is None,
        decreases names.len() - i,
    {
        let r = validate_name(&names[i], no);
        proof {
            let t = views(names@).take(i + 1);
            assert(t.drop_last() =~= views(names@).take(i as int));
            assert(t.last() == names@[i as int]@);
        }
        match r {
            Ok(()) => {},
            Err(m) => {
                proof {
                    lemma_names_problem_prefix(views(names@), i + 1, no as nat);
                }
                return Err(m);
            },
        }
        i = i + 1;
    }
    proof {
        assert(views(names@).take(i as int) =~= views(names@));
    }
    Ok(())
}

/// A problem with a name among the first `k` is the first problem of all the names.
proof fn lemma_names_problem_prefix(names: Seq<Seq<char>>, k: int, no: nat)
    requires
        0 <= k <= names.len(),
        names_problem(names.take(k), no) is Some,
    ensures
        names_problem(names, no) == names_problem(names.take(k), no),
    decreases names.len() - k,
{
    if k < names.len() {
        assert(names.take(k + 1).drop_last() =~= names.take(k));
        assert(names_problem(names.take(k + 1), no) == names_problem(names.take(k), no));
        lemma_names_problem_prefix(names, k + 1, no);
    } else {
        assert(names.take(k) =~= names);
    }
}


/// A copy of a character vector.
fn copy_chars(v: &Vec<char>) -> (c: Vec<char>)
    ensures
        c@ == v@,
{
    let mut c: Vec<char> = Vec::new();
    let mut i: usize = 0;
    while i < v.len()
        invariant
            i <= v.len(),
            c@ == v@.take(i as int),
        decreases v.len() - i,
    {
        c.push(v[i]);
        i = i + 1;
        proof {
            assert(c@ =~= v@.take(i as int));
        }
    }
    proof {
        assert(v@.take(i as int) =~= v@);
    }
    c
}

/// Reads line number `no`.
fn classify_line(raw: &Vec<char>, no: usize) -> (p: Parsed)
    ensures
        outcome_of(&p) == classify(raw@, no as nat),
        p matches Parsed::Trans(_, y, _, v) ==> v == symbol_of(y@),
        p matches Parsed::Accept(ns) ==> ns@.len() > 0,
{
    let l = trimmed(raw);
    if l.len() == 0 || l[0] == '#' {
        return Parsed::Skip;
    }
    if contains_char(&l, '\t') {
        return Parsed::Fail(err_suggest(no, "包含制表符", "请使用空格"));
    }
    proof {
        reveal_strlit("start:");
        reveal_strlit("start ");
        reveal_strlit("accept:");
        reveal_strlit("accept ");
    }
    if begins_with(&l, "start:") {
        let rest = chars_from(&l, 6);
        let name = trimmed(&rest);
        if name.len() == 0 {
            return Parsed::Fail(err_msg(no, "start: 后缺少状态名"));
        }
        match validate_name(&name, no) {
            Err(m) => return Parsed::Fail(m),
            Ok(()) => {},
        }
        return Parsed::Start(name);
    }
    if begins_with(&l, "start ") {
        let mut s = String::from_str("start: ");
        crate::text::push_chars(&mut s, &chars_from(&l, 6));
        return Parsed::Fail(err_suggest(no, "start 后缺少冒号", s.as_str()));
    }
    if begins_with(&l, "accept:") {
        let rest = chars_from(&l, 7);
        let names = split_words(&rest);
        if names.len() == 0 {
            return Parsed::Fail(err_msg(no, "accept: 后缺少状态名"));
        }
        match validate_names(&names, no) {
            Err(m) => return Parsed::Fail(m),
            Ok(()) => {},
        }
        return Parsed::Accept(names);
    }
    if begins_with(&l, "accept ") {
        let mut s = String::from_str("accept: ");
        crate::text::push_chars(&mut s, &chars_from(&l, 7));
        return Parsed::Fail(err_suggest(no, "accept 后缺少冒号", s.as_str()));
    }
    if contains_arrow(&l) {
        let parts = split_arrows(&l);
        let mut tp: Vec<Vec<char>> = Vec::new();
        let mut k: usize = 0;
        while k < parts.len()
            invariant
                k <= parts@.len(),
                tp@.len() == k,
                forall|j: int| 0 <= j < k ==> #[trigger] tp@[j]@ == trim(parts@[j]@),
            decreases parts.len() - k,
        {
            tp.push(trimmed(&parts[k]));
            k = k + 1;
        }
        proof {
            assert(views(tp@).skip(0) =~= arrow_parts(l@).map_values(|p: Seq<char>| trim(p)));
        }
        let mut s = String::from_str("请用空格分隔: ");
        push_joined(&mut s, &tp, 0, " ");
        return Parsed::Fail(err_suggest(no, "不支持 '->' 箭头语法", s.as_str()));
    }
    let parts = split_words(&l);
    if parts.len() < 3 {
        let mut m = String::from_str("需要 3 个字段，当前 ");
        push_decimal(&mut m, parts.len());
        m.append(" 个");
        return Parsed::Fail(err_suggest(no, m.as_str(), "每行格式: 源 符号 目标，例如: q0 a q1"));
    }
    if parts.len() > 3 {
        let mut m = String::from_str("存在多余字段 '");
        push_joined(&mut m, &parts, 3, " ");
        m.append("'");
        return Parsed::Fail(err_suggest(no, m.as_str(), "转移行只能有 3 个字段，多余内容应写在单独行"));
    }
    proof {
        assert(views(parts@)[0] == parts@[0]@);
        assert(views(parts@)[1] == parts@[1]@);
        assert(views(parts@)[2] == parts@[2]@);
    }
    match validate_name(&parts[0], no) {
        Err(m) => return Parsed::Fail(m),
        Ok(()) => {},
    }
    match validate_name(&parts[2], no) {
        Err(m) => return Parsed::Fail(m),
        Ok(()) => {},
    }
    let v = match validate_sym(&parts[1], no) {
        Err(m) => return Parsed::Fail(m),
        Ok(v) => v,
    };
    proof {
        reveal_strlit("$");
        if parts@[1]@ != "$"@ {
            assert(parts@[1]@.len() == 1);
        }
    }
    Parsed::Trans(copy_chars(&parts[0]), copy_chars(&parts[1]), copy_chars(&parts[2]), v)
}


// ---------------------------------------------------------------------------------------
// The whole description.
// ---------------------------------------------------------------------------------------

/// The lines of a text: the stretches before, between and after its line feeds.
pub open spec fn text_lines(cs: Seq<char>) -> Seq<Seq<char>>
    decreases cs.len(),
{
    if cs.len() == 0 {
        seq![Seq::empty()]
    } else {
        let ls = text_lines(cs.drop_last());
        if cs.last() == '\n' {
            ls.push(Seq::empty())
        } else {
            ls.update(ls.len() - 1, ls.last().push(cs.last()))
        }
    }
}

proof fn lemma_text_lines_len(cs: Seq<char>)
    ensures
        text_lines(cs).len() >= 1,
        text_lines(cs).len() <= cs.len() + 1,
    decreases cs.len(),
{
    if cs.len() > 0 {
        lemma_text_lines_len(cs.drop_last());
    }
}

/// The lines that say something, numbered from 1, or the message about the first line
/// that is wrong.
pub open spec fn read_lines(ls: Seq<Seq<char>>) -> Result<Seq<Line>, Seq<char>>
    decreases ls.len(),
{
    if ls.len() == 0 {
        Ok(Seq::empty())
    } else {
        match read_lines(ls.drop_last()) {
            Err(m) => Err(m),
            Ok(es) => match classify(ls.last(), ls.len()) {
                Outcome::Skip => Ok(es),
                Outcome::Entry(e) => Ok(es.push(e)),
                Outcome::Fail(m) => Err(m),
            },
        }
    }
}

/// A line that says something, read.
enum Entry {
    Start(Vec<char>),
    Accept(Vec<Vec<char>>),
    Trans(Vec<char>, Vec<char>, Vec<char>, Option<char>),
}

spec fn line_of(e: &Entry) -> Line {
    match e {
        Entry::Start(n) => Line::Start(n@),
        Entry::Accept(ns) => Line::Accept(views(ns@)),
        Entry::Trans(s, y, d, _) => Line::Trans(s@, y@, d@),
    }
}

/// The symbol of each transition entry is what its symbol field stands for, and each
/// accept entry names some state.
spec fn symbols_read(es: Seq<Entry>) -> bool {
    &&& forall|k: int| 0 <= k < es.len() ==> (#[trigger] es[k] matches Entry::Trans(_, y, _, v) ==> v == symbol_of(y@))
    &&& forall|k: int| 0 <= k < es.len() ==> (#[trigger] es[k] matches Entry::Accept(ns) ==> ns@.len() > 0)
}

spec fn lines_of(es: Seq<Entry>) -> Seq<Line> {
    Seq::new(es.len(), |k: int| line_of(&es[k]))
}

/// Reads the lines of `cs`: those that say something, or the message about the first
/// line that is wrong.
fn read_text(cs: &Vec<char>) -> (r: Result<Vec<Entry>, String>)
    requires
        cs@.len() < usize::MAX,
    ensures
        match read_lines(text_lines(cs@)) {
            Ok(ls) => r is Ok && lines_of(r->Ok_0@) == ls && symbols_read(r->Ok_0@),
            Err(m) => r is Err && r->Err_0@ == m,
        },
{
    let mut entries: Vec<Entry> = Vec::new();
    let mut cur: Vec<char> = Vec::new();
    let mut done: usize = 0;
    let ghost mut finished: Seq<Seq<char>> = Seq::empty();
    let mut i: usize = 0;
    proof {
        assert(cs@.take(0) =~= Seq::<char>::empty());
        assert(text_lines(Seq::<char>::empty()) =~= seq![Seq::<char>::empty()]);
        assert(lines_of(entries@) =~= Seq::<Line>::empty());
    }
    while i < cs.len()
        invariant
            i <= cs@.len(),
            cs@.len() < usize::MAX,
            done <= i,
            finished.len() == done,
            text_lines(cs@.take(i as int)) == finished.push(cur@),
            read_lines(finished) == Ok::<Seq<Line>, Seq<char>>(lines_of(entries@)),
            symbols_read(entries@),
        decreases cs.len() - i,
    {
        let c = cs[i];
        proof {
            assert(cs@.take(i + 1).drop_last() =~= cs@.take(i as int));
            assert(cs@.take(i + 1).last() == c);
        }
        if c == '\n' {
            let no = done + 1;
            let p = classify_line(&cur, no);
            let ghost line = cur@;
            proof {
                let f2 = finished.push(line);
                assert(f2.drop_last() =~= finished);
                assert(f2.last() == line);
                assert(f2.len() == no);
            }
            match p {
                Parsed::Skip => {},
                Parsed::Fail(m) => {
                    proof {
                        lemma_read_lines_fail(cs@, i as int + 1, finished.push(line));
                    }
                    return Err(m);
                },
                Parsed::Start(n) => {
                    proof {
                        assert(lines_of(entries@.push(Entry::Start(n))) =~= lines_of(entries@).push(Line::Start(n@)));
                    }
                    entries.push(Entry::Start(n));
                },
                Parsed::Accept(ns) => {
                    let ghost v = views(ns@);
                    proof {
                        assert(lines_of(entries@.push(Entry::Accept(ns))) =~= lines_of(entries@).push(Line::Accept(v)));
                    }
                    entries.push(Entry::Accept(ns));
                },
                Parsed::Trans(s, y, d, v) => {
                    proof {
                        assert(lines_of(entries@.push(Entry::Trans(s, y, d, v))) =~= lines_of(entries@).push(Line::Trans(s@, y@, d@)));
                    }
                    entries.push(Entry::Trans(s, y, d, v));
                },
            }
            proof {
                finished = finished.push(line);
            }
            done = done + 1;
            cur = Vec::new();
            proof {
                assert(cur@ =~= Seq::<char>::empty());
            }
        } else {
            proof {
                let ls = text_lines(cs@.take(i as int));
                assert(ls.update(ls.len() - 1, ls.last().push(c)) =~= finished.push(cur@.push(c)));
            }
            cur.push(c);
        }
        i = i + 1;
    }
    proof {
        assert(cs@.take(i as int) =~= cs@);
    }
    let no = done + 1;
    let p = classify_line(&cur, no);
    let ghost all = finished.push(cur@);
    proof {
        assert(all.drop_last() =~= finished);
        assert(all.last() == cur@);
    }
    match p {
        Parsed::Skip => {},
        Parsed::Fail(m) => {
            return Err(m);
        },
        Parsed::Start(n) => {
            proof {
                assert(lines_of(entries@.push(Entry::Start(n))) =~= lines_of(entries@).push(Line::Start(n@)));
            }
            entries.push(Entry::Start(n));
        },
        Parsed::Accept(ns) => {
            let ghost v = views(ns@);
            proof {
                assert(lines_of(entries@.push(Entry::Accept(ns))) =~= lines_of(entries@).push(Line::Accept(v)));
            }
            entries.push(Entry::Accept(ns));
        },
        Parsed::Trans(s, y, d, v) => {
            proof {
                assert(lines_of(entries@.push(Entry::Trans(s, y, d, v))) =~= lines_of(entries@).push(Line::Trans(s@, y@, d@)));
            }
            entries.push(Entry::Trans(s, y, d, v));
        },
    }
    Ok(entries)
}

/// Once a line is wrong, so is the whole text: later lines do not matter.
proof fn lemma_read_lines_fail(cs: Seq<char>, i: int, prefix: Seq<Seq<char>>)
    requires
        0 < i <= cs.len(),
        cs[i - 1] == '\n',
        text_lines(cs.take(i)) == prefix.push(Seq::<char>::empty()),
        read_lines(prefix) is Err,
    ensures
        read_lines(text_lines(cs)) == read_lines(prefix),
    decreases cs.len() - i,
{
    assert(prefix.push(Seq::<char>::empty()).drop_last() =~= prefix);
    lemma_read_lines_extend(cs, i, prefix);
}

/// The lines of a longer text begin with the finished lines of a shorter one, and a
/// failure among those stays the failure.
proof fn lemma_read_lines_extend(cs: Seq<char>, i: int, prefix: Seq<Seq<char>>)
    requires
        0 <= i <= cs.len(),
        text_lines(cs.take(i)).drop_last() == prefix,
        read_lines(prefix) is Err,
    ensures
        read_lines(text_lines(cs)) == read_lines(prefix),
    decreases cs.len() - i,
{
    if i < cs.len() {
        let t = cs.take(i + 1);
        assert(t.drop_last() =~= cs.take(i));
        lemma_text_lines_len(cs.take(i));
        let ls = text_lines(cs.take(i));
        if cs[i] == '\n' {
            assert(text_lines(t) == ls.push(Seq::<char>::empty()));
            let p2 = ls;
            assert(p2.drop_last() == prefix);
            assert(read_lines(p2) == read_lines(prefix));
            assert(text_lines(t).drop_last() =~= p2);
            lemma_read_lines_extend(cs, i + 1, p2);
        } else {
            assert(text_lines(t).drop_last() =~= prefix);
            lemma_read_lines_extend(cs, i + 1, prefix);
        }
    } else {
        assert(cs.take(i) =~= cs);
        let ls = text_lines(cs);
        lemma_text_lines_len(cs);
        assert(ls.drop_last() == prefix);
        assert(read_lines(ls) == read_lines(prefix));
    }
}


// ---------------------------------------------------------------------------------------
// The automaton a description gives.
// ---------------------------------------------------------------------------------------

/// `names` with `n` added at the end, unless it is there already.
pub open spec fn register(names: Seq<Seq<char>>, n: Seq<char>) -> Seq<Seq<char>> {
    if names.contains(n) {
        names
    } else {
        names.push(n)
    }
}

/// `names` with each of `ns`, in order, registered.
pub open spec fn register_all(names: Seq<Seq<char>>, ns: Seq<Seq<char>>) -> Seq<Seq<char>>
    decreases ns.len(),
{
    if ns.len() == 0 {
        names
    } else {
        register(register_all(names, ns.drop_last()), ns.last())
    }
}

/// `names` with the states that line `e` mentions registered.
pub open spec fn mention(names: Seq<Seq<char>>, e: Line) -> Seq<Seq<char>> {
    match e {
        Line::Start(n) => register(names, n),
        Line::Accept(ns) => register_all(names, ns),
        Line::Trans(s, _, d) => register(register(names, s), d),
    }
}

/// The names of the states, numbered in the order the lines first mention them.
pub open spec fn state_order(es: Seq<Line>) -> Seq<Seq<char>>
    decreases es.len(),
{
    if es.len() == 0 {
        Seq::empty()
    } else {
        mention(state_order(es.drop_last()), es.last())
    }
}

/// The number of the state named `n`.
pub open spec fn state_number(names: Seq<Seq<char>>, n: Seq<char>) -> int {
    choose|k: int| 0 <= k < names.len() && names[k] == n
}

/// The name in the last start line, if there is one.
pub open spec fn start_name(es: Seq<Line>) -> Option<Seq<char>>
    decreases es.len(),
{
    if es.len() == 0 {
        None
    } else {
        match es.last() {
            Line::Start(n) => Some(n),
            _ => start_name(es.drop_last()),
        }
    }
}

/// The names in the last accept line; none without one.
pub open spec fn accept_list(es: Seq<Line>) -> Seq<Seq<char>>
    decreases es.len(),
{
    if es.len() == 0 {
        Seq::empty()
    } else {
        match es.last() {
            Line::Accept(ns) => ns,
            _ => accept_list(es.drop_last()),
        }
    }
}

/// The symbol of a transition line: `None` for `$`, else its character.
pub open spec fn symbol_of(y: Seq<char>) -> Option<char> {
    if y == "$"@ {
        None
    } else {
        Some(y[0])
    }
}

/// The transitions of the transition lines, each in the row of its source, in the order
/// of the lines.
pub open spec fn rows_after(es: Seq<Line>, names: Seq<Seq<char>>) -> Seq<Seq<crate::nfa::Step>>
    decreases es.len(),
{
    if es.len() == 0 {
        Seq::new(names.len(), |i: int| Seq::<crate::nfa::Step>::empty())
    } else {
        let rows = rows_after(es.drop_last(), names);
        match es.last() {
            Line::Trans(s, y, d) => {
                let i = state_number(names, s);
                rows.update(i, rows[i].push((symbol_of(y), state_number(names, d) as usize)))
            },
            _ => rows,
        }
    }
}

/// `rows` with an ε-move from each state of `acc`, in order, to state `a`.
pub open spec fn link_accepts(rows: Seq<Seq<crate::nfa::Step>>, names: Seq<Seq<char>>, acc: Seq<Seq<char>>, a: usize) -> Seq<Seq<crate::nfa::Step>>
    decreases acc.len(),
{
    if acc.len() == 0 {
        rows
    } else {
        let r = link_accepts(rows, names, acc.drop_last(), a);
        let i = state_number(names, acc.last());
        r.update(i, r[i].push((None::<char>, a)))
    }
}

/// The automaton `nfa` is the one the lines `es` describe: a state for each name, in the
/// order of first mention, named so; the start state of the last start line (state 0
/// without one); the transitions of the transition lines; and, where there is an accept
/// line, one more state, accepting, that the states of the last accept line reach by
/// ε-moves. Without an accept line the accepting state is the number of states.
pub open spec fn described(es: Seq<Line>, nfa: NFA) -> bool {
    let names = state_order(es);
    let n = names.len();
    let rows = rows_after(es, names);
    let acc = accept_list(es);
    &&& nfa.start == match start_name(es) {
        Some(s) => state_number(names, s) as usize,
        None => 0,
    }
    &&& nfa.accept == n
    &&& if acc.len() == 0 {
        &&& nfa.state_count == n
        &&& nfa.rows() == rows
    } else {
        &&& nfa.state_count == n + 1
        &&& nfa.rows() == link_accepts(rows.push(Seq::empty()), names, acc, n as usize)
    }
    &&& nfa.state_names@.len() == n
    &&& forall|k: int| 0 <= k < n ==> (#[trigger] nfa.state_names@[k])@ == names[k]
}

proof fn lemma_register(names: Seq<Seq<char>>, n: Seq<char>)
    requires
        names.no_duplicates(),
    ensures
        register(names, n).no_duplicates(),
        forall|x: Seq<char>| #[trigger] register(names, n).contains(x) <==> (names.contains(x) || x == n),
        names.is_prefix_of(register(names, n)),
{
    if !names.contains(n) {
        let r = names.push(n);
        assert forall|i: int, j: int| 0 <= i < r.len() && 0 <= j < r.len() && i != j implies r[i] != r[j] by {
            if i == names.len() {
                assert(names[j] == r[j]);
            } else if j == names.len() {
                assert(names[i] == r[i]);
            }
        }
        assert forall|x: Seq<char>| #[trigger] r.contains(x) <==> (names.contains(x) || x == n) by {
            if r.contains(x) {
                let k = choose|k: int| 0 <= k < r.len() && r[k] == x;
                if k < names.len() {
                    assert(names[k] == x);
                }
            }
            if names.contains(x) {
                let k = choose|k: int| 0 <= k < names.len() && names[k] == x;
                assert(r[k] == x);
            }
            if x == n {
                assert(r[names.len() as int] == x);
            }
        }
    }
}

proof fn lemma_register_all(names: Seq<Seq<char>>, ns: Seq<Seq<char>>)
    requires
        names.no_duplicates(),
    ensures
        register_all(names, ns).no_duplicates(),
        forall|x: Seq<char>| #[trigger] register_all(names, ns).contains(x) <==> (names.contains(x) || ns.contains(x)),
        names.is_prefix_of(register_all(names, ns)),
    decreases ns.len(),
{
    if ns.len() > 0 {
        lemma_register_all(names, ns.drop_last());
        let r0 = register_all(names, ns.drop_last());
        lemma_register(r0, ns.last());
        assert forall|x: Seq<char>| #[trigger] register_all(names, ns).contains(x) <==> (names.contains(x) || ns.contains(x)) by {
            if ns.drop_last().contains(x) {
                let k = choose|k: int| 0 <= k < ns.drop_last().len() && ns.drop_last()[k] == x;
                assert(ns[k] == x);
            }
            if ns.contains(x) {
                let k = choose|k: int| 0 <= k < ns.len() && ns[k] == x;
                if k < ns.len() - 1 {
                    assert(ns.drop_last()[k] == x);
                }
            }
        }
    }
}

/// The names of the states hold every name the lines mention, each once.
proof fn lemma_state_order(es: Seq<Line>)
    ensures
        state_order(es).no_duplicates(),
        forall|k: int| 0 <= k < es.len() ==> match #[trigger] es[k] {
            Line::Start(n) => state_order(es).contains(n),
            Line::Accept(ns) => forall|x: Seq<char>| ns.contains(x) ==> state_order(es).contains(x),
            Line::Trans(s, _, d) => state_order(es).contains(s) && state_order(es).contains(d),
        },
    decreases es.len(),
{
    if es.len() > 0 {
        let p = es.drop_last();
        lemma_state_order(p);
        let o = state_order(p);
        match es.last() {
            Line::Start(n) => {
                lemma_register(o, n);
            },
            Line::Accept(ns) => {
                lemma_register_all(o, ns);
            },
            Line::Trans(s, _, d) => {
                lemma_register(o, s);
                lemma_register(register(o, s), d);
            },
        }
        let o2 = state_order(es);
        assert forall|x: Seq<char>| o.contains(x) implies o2.contains(x) by {}
        assert forall|k: int| 0 <= k < es.len() implies match #[trigger] es[k] {
            Line::Start(n) => state_order(es).contains(n),
            Line::Accept(ns) => forall|x: Seq<char>| ns.contains(x) ==> state_order(es).contains(x),
            Line::Trans(s, _, d) => state_order(es).contains(s) && state_order(es).contains(d),
        } by {
            if k < es.len() - 1 {
                assert(es[k] == p[k]);
            }
        }
    }
}

/// In a sequence without repetition, a name has one number: its position.
proof fn lemma_state_number(names: Seq<Seq<char>>, k: int)
    requires
        names.no_duplicates(),
        0 <= k < names.len(),
    ensures
        state_number(names, names[k]) == k,
{
    let j = state_number(names, names[k]);
    assert(0 <= j < names.len() && names[j] == names[k]);
}


proof fn lemma_rows_after_shape(es: Seq<Line>, names: Seq<Seq<char>>)
    requires
        forall|k: int| 0 <= k < es.len() ==> match #[trigger] es[k] {
            Line::Trans(s, _, d) => names.contains(s) && names.contains(d),
            _ => true,
        },
    ensures
        rows_after(es, names).len() == names.len(),
        forall|x: int, k: int| 0 <= x < names.len() && 0 <= k < rows_after(es, names)[x].len()
            ==> (#[trigger] rows_after(es, names)[x][k]).1 < names.len(),
    decreases es.len(),
{
    if es.len() > 0 {
        let p = es.drop_last();
        assert forall|k: int| 0 <= k < p.len() implies match #[trigger] p[k] {
            Line::Trans(s, _, d) => names.contains(s) && names.contains(d),
            _ => true,
        } by {
            assert(p[k] == es[k]);
        }
        lemma_rows_after_shape(p, names);
        let rows = rows_after(p, names);
        match es.last() {
            Line::Trans(s, y, d) => {
                assert(es[es.len() - 1] == es.last());
                let i = state_number(names, s);
                let j = state_number(names, d);
                assert(0 <= i < names.len());
                assert(0 <= j < names.len());
                let r2 = rows_after(es, names);
                assert forall|x: int, k: int| 0 <= x < names.len() && 0 <= k < r2[x].len()
                    implies (#[trigger] r2[x][k]).1 < names.len() by {
                    if x == i {
                        if k < rows[i].len() {
                            assert(r2[x][k] == rows[x][k]);
                        }
                    } else {
                        assert(r2[x] == rows[x]);
                    }
                }
            },
            _ => {},
        }
    }
}

proof fn lemma_link_shape(rows: Seq<Seq<crate::nfa::Step>>, names: Seq<Seq<char>>, acc: Seq<Seq<char>>, a: usize)
    requires
        names.len() < rows.len(),
        a < rows.len(),
        forall|x: Seq<char>| acc.contains(x) ==> names.contains(x),
        forall|x: int, k: int| 0 <= x < rows.len() && 0 <= k < rows[x].len() ==> (#[trigger] rows[x][k]).1 < rows.len(),
    ensures
        link_accepts(rows, names, acc, a).len() == rows.len(),
        forall|x: int, k: int| 0 <= x < rows.len() && 0 <= k < link_accepts(rows, names, acc, a)[x].len()
            ==> (#[trigger] link_accepts(rows, names, acc, a)[x][k]).1 < rows.len(),
    decreases acc.len(),
{
    if acc.len() > 0 {
        let p = acc.drop_last();
        assert forall|x: Seq<char>| p.contains(x) implies names.contains(x) by {
            let k = choose|k: int| 0 <= k < p.len() && p[k] == x;
            assert(acc[k] == x);
        }
        lemma_link_shape(rows, names, p, a);
        let r = link_accepts(rows, names, p, a);
        assert(acc.contains(acc.last())) by {
            assert(acc[acc.len() - 1] == acc.last());
        }
        let i = state_number(names, acc.last());
        assert(0 <= i < names.len());
        let r2 = link_accepts(rows, names, acc, a);
        assert forall|x: int, k: int| 0 <= x < rows.len() && 0 <= k < r2[x].len()
            implies (#[trigger] r2[x][k]).1 < rows.len() by {
            if x == i {
                if k < r[i].len() {
                    assert(r2[x][k] == r[x][k]);
                }
            } else {
                assert(r2[x] == r[x]);
            }
        }
    }
}

/// The automaton a description gives has a row for each state and transitions that lead
/// to its states; its start state is one of them unless it has none.
pub proof fn lemma_described_wf(es: Seq<Line>, nfa: NFA)
    requires
        described(es, nfa),
    ensures
        nfa.wf(),
        nfa.state_count > 0 ==> nfa.start < nfa.state_count,
        nfa.state_count == 0 ==> nfa.start == 0 && nfa.accept == 0,
{
    let names = state_order(es);
    let n = names.len();
    lemma_state_order(es);
    assert forall|k: int| 0 <= k < es.len() implies match #[trigger] es[k] {
        Line::Trans(s, _, d) => names.contains(s) && names.contains(d),
        _ => true,
    } by {}
    lemma_rows_after_shape(es, names);
    let rows = rows_after(es, names);
    let acc = accept_list(es);
    assert(nfa.rows().len() == nfa.transitions@.len());
    if acc.len() == 0 {
        assert forall|s: int, k: int| 0 <= s < nfa.state_count && 0 <= k < nfa.transitions@[s]@.len()
            implies (#[trigger] nfa.transitions@[s]@[k]).1 < nfa.state_count by {
            assert(nfa.rows()[s] == nfa.transitions@[s]@);
            assert(rows[s][k] == nfa.transitions@[s]@[k]);
        }
    } else {
        lemma_accept_names(es);
        let r0 = rows.push(Seq::empty());
        assert forall|x: int, k: int| 0 <= x < r0.len() && 0 <= k < r0[x].len() implies (#[trigger] r0[x][k]).1 < r0.len() by {
            assert(r0[x][k] == rows[x][k]);
        }
        lemma_link_shape(r0, names, acc, n as usize);
        let r1 = link_accepts(r0, names, acc, n as usize);
        assert forall|s: int, k: int| 0 <= s < nfa.state_count && 0 <= k < nfa.transitions@[s]@.len()
            implies (#[trigger] nfa.transitions@[s]@[k]).1 < nfa.state_count by {
            assert(nfa.rows()[s] == nfa.transitions@[s]@);
            assert(r1[s][k] == nfa.transitions@[s]@[k]);
        }
    }
    match start_name(es) {
        Some(sn) => {
            lemma_start_name(es);
            let i = state_number(names, sn);
            assert(0 <= i < n);
        },
        None => {},
    }
}

/// A line adds names to the names of the states before it.
proof fn lemma_state_order_grows(es: Seq<Line>)
    requires
        es.len() > 0,
    ensures
        forall|x: Seq<char>| state_order(es.drop_last()).contains(x) ==> state_order(es).contains(x),
{
    let p = es.drop_last();
    lemma_state_order(p);
    let o = state_order(p);
    match es.last() {
        Line::Start(n) => {
            lemma_register(o, n);
        },
        Line::Accept(ns) => {
            lemma_register_all(o, ns);
        },
        Line::Trans(s, _, d) => {
            lemma_register(o, s);
            lemma_register(register(o, s), d);
        },
    }
}

/// The names of the last accept line are among the names of the states.
proof fn lemma_accept_names(es: Seq<Line>)
    ensures
        forall|x: Seq<char>| accept_list(es).contains(x) ==> state_order(es).contains(x),
    decreases es.len(),
{
    lemma_state_order(es);
    if es.len() > 0 {
        let p = es.drop_last();
        lemma_accept_names(p);
        lemma_state_order(p);
        assert(es[es.len() - 1] == es.last());
        lemma_state_order_grows(es);
    }
}

/// The name of the last start line is among the names of the states.
proof fn lemma_start_name(es: Seq<Line>)
    ensures
        start_name(es) matches Some(n) ==> state_order(es).contains(n),
    decreases es.len(),
{
    lemma_state_order(es);
    if es.len() > 0 {
        let p = es.drop_last();
        lemma_start_name(p);
        lemma_state_order(p);
        assert(es[es.len() - 1] == es.last());
        lemma_state_order_grows(es);
    }
}

/// Whether two character vectors are equal.
fn same_chars(a: &Vec<char>, b: &Vec<char>) -> (r: bool)
    ensures
        r == (a@ == b@),
{
    if a.len() != b.len() {
        return false;
    }
    let mut i: usize = 0;
    while i < a.len()
        invariant
            a.len() == b.len(),
            i <= a.len(),
            forall|j: int| 0 <= j < i ==> a@[j] == b@[j],
        decreases a.len() - i,
    {
        if a[i] != b[i] {
            return false;
        }
        i = i + 1;
    }
    proof {
        assert(a@ =~= b@);
    }
    true
}

/// The position of `n` among `names`, if it is there.
fn find_name(names: &Vec<Vec<char>>, n: &Vec<char>) -> (r: Option<usize>)
    ensures
        match r {
            Some(k) => k < names@.len() && names@[k as int]@ == n@,
            None => !views(names@).contains(n@),
        },
{
    let mut k: usize = 0;
    while k < names.len()
        invariant
            k <= names@.len(),
            forall|j: int| 0 <= j < k ==> names@[j]@ != n@,
        decreases names.len() - k,
    {
        if same_chars(&names[k], n) {
            return Some(k);
        }
        k = k + 1;
    }
    proof {
        if views(names@).contains(n@) {
            let j = choose|j: int| 0 <= j < views(names@).len() && views(names@)[j] == n@;
            assert(names@[j]@ == n@);
        }
    }
    None
}

/// Adds `n` to the names, unless it is there already.
fn register_name(names: &mut Vec<Vec<char>>, n: &Vec<char>)
    ensures
        views(final(names)@) == register(views(old(names)@), n@),
{
    match find_name(names, n) {
        Some(k) => {
            proof {
                assert(views(old(names)@)[k as int] == n@);
            }
        },
        None => {
            let c = copy_chars(n);
            proof {
                lemma_views_push(names@, c);
            }
            names.push(c);
        },
    }
}

/// The number of the state named `n`, among names without repetition that hold it.
fn number_of(names: &Vec<Vec<char>>, n: &Vec<char>) -> (k: usize)
    requires
        views(names@).no_duplicates(),
        views(names@).contains(n@),
    ensures
        k < names@.len(),
        k == state_number(views(names@), n@),
{
    match find_name(names, n) {
        Some(k) => {
            proof {
                assert(views(names@)[k as int] == n@);
                lemma_state_number(views(names@), k as int);
            }
            k
        },
        None => {
            proof {
                assert(false);
            }
            0
        },
    }
}

/// Reads a description of an automaton: one statement per line, blank lines and lines
/// that begin with `#` skipped. `start: name` names the start state, `accept: name ...`
/// the accepting states, and `source symbol target` a transition, where the symbol `$`
/// stands for an ε-move. The result is the automaton the lines describe, or the message
/// about the first line that is wrong.
pub fn parse_str(content: &str) -> (r: Result<NFA, String>)
    requires
        content@.len() < usize::MAX,
    ensures
        match read_lines(text_lines(content@)) {
            Err(m) => r is Err && r->Err_0@ == m,
            Ok(es) => r is Ok && described(es, r->Ok_0),
        },
{
    let cs = crate::text::chars_of(content);
    let entries = match read_text(&cs) {
        Ok(e) => e,
        Err(m) => return Err(m),
    };
    let ghost es = lines_of(entries@);
    // The names of the states, in the order of first mention; the last start and accept lines.
    let mut names: Vec<Vec<char>> = Vec::new();
    let mut start_at: Option<usize> = None;
    let mut accept_at: Option<usize> = None;
    let mut k: usize = 0;
    proof {
        assert(es.take(0) =~= Seq::<Line>::empty());
        assert(views(names@) =~= Seq::<Seq<char>>::empty());
    }
    while k < entries.len()
        invariant
            es == lines_of(entries@),
            k <= entries@.len(),
            views(names@) == state_order(es.take(k as int)),
            match start_at {
                Some(j) => j < k && es[j as int] is Start && start_name(es.take(k as int)) == Some(es[j as int]->Start_0),
                None => start_name(es.take(k as int)) is None,
            },
            match accept_at {
                Some(j) => j < k && es[j as int] is Accept && accept_list(es.take(k as int)) == es[j as int]->Accept_0,
                None => accept_list(es.take(k as int)) == Seq::<Seq<char>>::empty(),
            },
        decreases entries.len() - k,
    {
        proof {
            let t = es.take(k + 1);
            assert(t.drop_last() =~= es.take(k as int));
            assert(t.last() == es[k as int]);
            assert(es[k as int] == line_of(&entries@[k as int]));
        }
        match &entries[k] {
            Entry::Start(n) => {
                register_name(&mut names, n);
                start_at = Some(k);
            },
            Entry::Accept(ns) => {
                let mut j: usize = 0;
                let ghost before = views(names@);
                proof {
                    assert(views(ns@).take(0) =~= Seq::<Seq<char>>::empty());
                }
                while j < ns.len()
                    invariant
                        j <= ns@.len(),
                        views(names@) == register_all(before, views(ns@).take(j as int)),
                    decreases ns.len() - j,
                {
                    register_name(&mut names, &ns[j]);
                    j = j + 1;
                    proof {
                        let t = views(ns@).take(j as int);
                        assert(t.drop_last() =~= views(ns@).take(j - 1));
                        assert(t.last() == ns@[j - 1]@);
                    }
                }
                proof {
                    assert(views(ns@).take(j as int) =~= views(ns@));
                }
                accept_at = Some(k);
            },
            Entry::Trans(s, _, d, _) => {
                register_name(&mut names, s);
                register_name(&mut names, d);
            },
        }
        k = k + 1;
    }
    proof {
        assert(es.take(k as int) =~= es);
        lemma_state_order(es);
    }
    let ghost order = views(names@);
    let count = names.len();
    // The transitions, in the order of the lines.
    let mut transitions: Vec<Vec<crate::nfa::Step>> = Vec::new();
    let mut q: usize = 0;
    while q < count
        invariant
            q <= count,
            transitions@.len() == q,
            forall|i: int| 0 <= i < q ==> (#[trigger] transitions@[i])@ == Seq::<crate::nfa::Step>::empty(),
        decreases count - q,
    {
        transitions.push(Vec::new());
        q = q + 1;
    }
    proof {
        assert(crate::nfa::rows_of(transitions@) =~= rows_after(es.take(0), order));
    }
    let mut k: usize = 0;
    while k < entries.len()
        invariant
            es == lines_of(entries@),
            symbols_read(entries@),
            k <= entries@.len(),
            order == views(names@),
            order == state_order(es),
            order.no_duplicates(),
            count == order.len(),
            forall|i: int| 0 <= i < es.len() ==> match #[trigger] es[i] {
                Line::Start(n) => order.contains(n),
                Line::Accept(ns) => forall|x: Seq<char>| ns.contains(x) ==> order.contains(x),
                Line::Trans(s, _, d) => order.contains(s) && order.contains(d),
            },
            crate::nfa::rows_of(transitions@) == rows_after(es.take(k as int), order),
            transitions@.len() == count,
        decreases entries.len() - k,
    {
        proof {
            let t = es.take(k + 1);
            assert(t.drop_last() =~= es.take(k as int));
            assert(t.last() == es[k as int]);
            assert(es[k as int] == line_of(&entries@[k as int]));
        }
        match &entries[k] {
            Entry::Trans(s, y, d, v) => {
                let si = number_of(&names, s);
                let di = number_of(&names, d);
                let sym = *v;
                let ghost rows0 = crate::nfa::rows_of(transitions@);
                transitions[si].push((sym, di));
                proof {
                    assert(crate::nfa::rows_of(transitions@) =~= rows0.update(si as int, rows0[si as int].push((sym, di))));
                }
            },
            _ => {},
        }
        k = k + 1;
    }
    proof {
        assert(es.take(k as int) =~= es);
    }
    let ghost rows_main = crate::nfa::rows_of(transitions@);
    proof {
        assert(rows_main == rows_after(es, order));
    }
    let start = match start_at {
        Some(j) => {
            proof {
                assert(es[j as int] == line_of(&entries@[j as int]));
            }
            match &entries[j] {
                Entry::Start(n) => number_of(&names, n),
                _ => {
                    proof {
                        assert(false);
                    }
                    0
                },
            }
        },
        None => 0,
    };
    let accept = count;
    match accept_at {
        Some(j) => {
            proof {
                assert(es[j as int] == line_of(&entries@[j as int]));
            }
            match &entries[j] {
                Entry::Accept(ns) => {
                    transitions.push(Vec::new());
                    let ghost base = crate::nfa::rows_of(transitions@);
                    proof {
                        assert(base =~= rows_main.push(Seq::<crate::nfa::Step>::empty()));
                        assert(accept_list(es) == views(ns@));
                        assert(symbols_read(entries@));
                        assert(entries@[j as int] matches Entry::Accept(ns2) && ns2@.len() > 0);
                    }
                    let mut i: usize = 0;
                    proof {
                        assert(views(ns@).take(0) =~= Seq::<Seq<char>>::empty());
                    }
                    while i < ns.len()
                        invariant
                            i <= ns@.len(),
                            transitions@.len() == count + 1,
                            order == views(names@),
                            order.no_duplicates(),
                            count == order.len(),
                            forall|x: Seq<char>| views(ns@).contains(x) ==> order.contains(x),
                            crate::nfa::rows_of(transitions@) == link_accepts(base, order, views(ns@).take(i as int), count),
                        decreases ns.len() - i,
                    {
                        proof {
                            assert(views(ns@)[i as int] == ns@[i as int]@);
                        }
                        let ti = number_of(&names, &ns[i]);
                        let ghost rows0 = crate::nfa::rows_of(transitions@);
                        transitions[ti].push((None, count));
                        i = i + 1;
                        proof {
                            let t = views(ns@).take(i as int);
                            assert(t.drop_last() =~= views(ns@).take(i - 1));
                            assert(t.last() == ns@[i - 1]@);
                            assert(crate::nfa::rows_of(transitions@) =~= rows0.update(ti as int, rows0[ti as int].push((None::<char>, count))));
                        }
                    }
                    proof {
                        assert(views(ns@).take(i as int) =~= views(ns@));
                    }
                },
                _ => {
                    proof {
                        assert(false);
                    }
                },
            }
        },
        None => {},
    }
    let state_count = transitions.len();
    let mut state_names: Vec<String> = Vec::new();
    let mut i: usize = 0;
    while i < names.len()
        invariant
            i <= names@.len(),
            state_names@.len() == i,
            forall|j: int| 0 <= j < i ==> (#[trigger] state_names@[j])@ == names@[j]@,
        decreases names.len() - i,
    {
        let mut s = String::new();
        crate::text::push_chars(&mut s, &names[i]);
        state_names.push(s);
        i = i + 1;
    }
    let nfa = NFA { start, accept, transitions, state_count, state_names };
    proof {
        assert forall|k: int| 0 <= k < order.len() implies (#[trigger] nfa.state_names@[k])@ == order[k] by {
            assert(order[k] == names@[k]@);
        }
    }
    Ok(nfa)
}

} // verus!
