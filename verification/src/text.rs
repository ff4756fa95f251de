use vstd::prelude::*;

verus! {

/// `String::push` from std: appends one character.
#[verifier::external_body]
pub(crate) fn push_char(s: &mut String, c: char)
    ensures
        final(s)@ == old(s)@.push(c),
{
    s.push(c)
}

/// The decimal digit for `d < 10`.
pub open spec fn digit_char(d: nat) -> char {
    if d == 0 { '0' } else if d == 1 { '1' } else if d == 2 { '2' } else if d == 3 { '3' }
    else if d == 4 { '4' } else if d == 5 { '5' } else if d == 6 { '6' } else if d == 7 { '7' }
    else if d == 8 { '8' } else { '9' }
}

/// The decimal notation of `n`, without leading zeros ("0" for zero).
pub open spec fn decimal(n: nat) -> Seq<char>
    decreases n,
{
    if n < 10 {
        seq![digit_char(n)]
    } else {
        decimal(n / 10).push(digit_char(n % 10))
    }
}

/// The number a string of decimal digits stands for, the most significant digit first.
pub open spec fn digits_value(s: Seq<char>) -> int
    decreases s.len(),
{
    if s.len() == 0 {
        0
    } else {
        digits_value(s.drop_last()) * 10 + (s.last() as int - '0' as int)
    }
}

proof fn lemma_digit_value(d: nat)
    requires
        d < 10,
    ensures
        digit_char(d) as int - '0' as int == d,
        '0' <= digit_char(d) <= '9',
        d > 0 ==> digit_char(d) != '0',
{
    assert('0' as int == 48);
    assert('9' as int == 57);
    if d == 0 { assert('0' as int == 48); }
    else if d == 1 { assert('1' as int == 49); }
    else if d == 2 { assert('2' as int == 50); }
    else if d == 3 { assert('3' as int == 51); }
    else if d == 4 { assert('4' as int == 52); }
    else if d == 5 { assert('5' as int == 53); }
    else if d == 6 { assert('6' as int == 54); }
    else if d == 7 { assert('7' as int == 55); }
    else if d == 8 { assert('8' as int == 56); }
}

/// `decimal(n)` is the usual base-ten notation of `n`: a nonempty string of the digits
/// `0` to `9`, with no leading zero unless it is `0` itself, whose digits, read from the
/// most significant one, stand for `n`. These properties determine the string.
pub proof fn law_decimal_notation(n: nat)
    ensures
        decimal(n).len() >= 1,
        forall|i: int| 0 <= i < decimal(n).len() ==> '0' <= #[trigger] decimal(n)[i] <= '9',
        n > 0 ==> decimal(n)[0] != '0',
        n == 0 ==> decimal(n) == seq!['0'],
        digits_value(decimal(n)) == n,
    decreases n,
{
    if n < 10 {
        lemma_digit_value(n);
        let d = decimal(n);
        assert(d.drop_last() =~= Seq::<char>::empty());
        assert(d.last() == digit_char(n));
        assert(digits_value(d.drop_last()) == 0);
        assert(digits_value(d) == digits_value(d.drop_last()) * 10 + (d.last() as int - '0' as int));
    } else {
        law_decimal_notation(n / 10);
        lemma_digit_value(n % 10);
        let d = decimal(n);
        let p = decimal(n / 10);
        assert(d.drop_last() =~= p);
        assert(d.last() == digit_char(n % 10));
        assert(d[0] == p[0]);
        assert forall|i: int| 0 <= i < d.len() implies '0' <= #[trigger] d[i] <= '9' by {
            if i < p.len() {
                assert(d[i] == p[i]);
            }
        }
        assert(digits_value(d) == digits_value(p) * 10 + (d.last() as int - '0' as int));
        assert(n == (n / 10) * 10 + n % 10);
    }
}

/// `x` occurs in `t` as a run of consecutive characters.
pub open spec fn occurs(x: Seq<char>, t: Seq<char>) -> bool {
    exists|i: int| 0 <= i && i + x.len() <= t.len() && #[trigger] t.subrange(i, i + x.len()) == x
}

/// What occurs in a text occurs in it with more text before or after it.
pub proof fn lemma_occurs_within(x: Seq<char>, a: Seq<char>, b: Seq<char>)
    ensures
        occurs(x, a) ==> occurs(x, a + b),
        occurs(x, b) ==> occurs(x, a + b),
        occurs(x, x),
{
    if occurs(x, a) {
        let i = choose|i: int| 0 <= i && i + x.len() <= a.len() && #[trigger] a.subrange(i, i + x.len()) == x;
        assert((a + b).subrange(i, i + x.len()) =~= a.subrange(i, i + x.len()));
    }
    if occurs(x, b) {
        let i = choose|i: int| 0 <= i && i + x.len() <= b.len() && #[trigger] b.subrange(i, i + x.len()) == x;
        assert((a + b).subrange(a.len() + i, a.len() + i + x.len()) =~= b.subrange(i, i + x.len()));
    }
    let z: int = 0;
    assert(x.subrange(z, z + x.len()) =~= x);
}

fn digit(d: usize) -> (c: char)
    requires
        d < 10,
    ensures
        c == digit_char(d as nat),
{
    if d == 0 { '0' } else if d == 1 { '1' } else if d == 2 { '2' } else if d == 3 { '3' }
    else if d == 4 { '4' } else if d == 5 { '5' } else if d == 6 { '6' } else if d == 7 { '7' }
    else if d == 8 { '8' } else { '9' }
}

/// Appends the decimal notation of `n` to `s`.
pub fn push_decimal(s: &mut String, n: usize)
    ensures
        final(s)@ == old(s)@ + decimal(n as nat),
    decreases n,
{
    if n < 10 {
        push_char(s, digit(n));
        assert(old(s)@.push(digit_char(n as nat)) =~= old(s)@ + decimal(n as nat));
    } else {
        push_decimal(s, n / 10);
        push_char(s, digit(n % 10));
        assert(old(s)@ + decimal((n / 10) as nat) + seq![digit_char((n % 10) as nat)]
            =~= old(s)@ + decimal(n as nat));
    }
}

/// Appends every character of `t` to `s`.
pub fn push_chars(s: &mut String, t: &Vec<char>)
    ensures
        final(s)@ == old(s)@ + t@,
{
    let mut i: usize = 0;
    while i < t.len()
        invariant
            i <= t.len(),
            s@ == old(s)@ + t@.take(i as int),
        decreases t.len() - i,
    {
        push_char(s, t[i]);
        i = i + 1;
        assert(old(s)@ + t@.take(i as int) =~= old(s)@ + t@.take(i - 1) + seq![t@[i - 1]]);
    }
    assert(t@.take(t.len() as int) =~= t@);
}

/// The characters of `s`, in order.
pub fn chars_of(s: &str) -> (v: Vec<char>)
    ensures
        v@ == s@,
{
    broadcast use vstd::string::group_string_axioms;

    let mut v: Vec<char> = Vec::new();
    let mut it = s.chars();
    loop
        invariant
            v@ + vstd::std_specs::iter::IteratorSpec::remaining(&it) == s@,
            vstd::std_specs::iter::IteratorSpec::decrease(&it) is Some,
        decreases vstd::std_specs::iter::IteratorSpec::decrease(&it)->0,
    {
        let ghost before = it;
        match it.next() {
            Some(c) => {
                assert(vstd::std_specs::iter::IteratorSpec::remaining(&before).len() > 0);
                v.push(c);
                assert(v@ + vstd::std_specs::iter::IteratorSpec::remaining(&it) =~= s@) by {
                    assert(vstd::std_specs::iter::IteratorSpec::remaining(&before) =~= seq![c] + vstd::std_specs::iter::IteratorSpec::remaining(&it));
                }
            },
            None => {
                assert(v@ =~= s@);
                return v;
            },
        }
    }
}


/// The `Debug` notation of a character, as std writes it.
pub uninterp spec fn char_debug(c: char) -> Seq<char>;

/// A printable ASCII character that `Debug` writes between single quotes unescaped.
pub open spec fn quoted_plainly(c: char) -> bool {
    ' ' <= c <= '~' && c != '\'' && c != '\\' && c != '"'
}

/// std's `Debug` for `char`: the character between single quotes, escaped where it is a
/// quote, a backslash or not printable. The contract states the notation of the printable
/// ASCII characters that need no escape; of the others it only names the result.
#[verifier::external_body]
fn debug_char(c: char) -> (s: String)
    ensures
        s@ == char_debug(c),
        quoted_plainly(c) ==> s@ == seq!['\'', c, '\''],
{
    format!("{:?}", c)
}

/// The notations of the characters of `a`, separated by `, `.
pub open spec fn list_items(a: Seq<char>) -> Seq<char>
    decreases a.len(),
{
    if a.len() == 0 {
        Seq::empty()
    } else if a.len() == 1 {
        char_debug(a[0])
    } else {
        list_items(a.drop_last()) + ", "@ + char_debug(a.last())
    }
}

/// The `Debug` notation of a list of characters: `['a', 'b']`.
pub open spec fn list_text(a: Seq<char>) -> Seq<char> {
    "["@ + list_items(a) + "]"@
}

/// A list of characters is written between square brackets as the `Debug` notations of
/// its characters, in order, separated by `, `: `[]` for none, the notation alone for
/// one, and one more notation after a comma for each further character.
pub proof fn law_list_text(a: Seq<char>, c: char)
    ensures
        list_text(Seq::empty()) == "[]"@,
        list_text(seq![c]) == "["@ + char_debug(c) + "]"@,
        a.len() > 0 ==> list_items(a.push(c)) == list_items(a) + ", "@ + char_debug(c),
        list_text(a) == "["@ + list_items(a) + "]"@,
{
    reveal_strlit("[]");
    reveal_strlit("[");
    reveal_strlit("]");
    assert(list_items(Seq::<char>::empty()) == Seq::<char>::empty());
    assert("["@ + Seq::<char>::empty() + "]"@ =~= "[]"@);
    let w = a.push(c);
    assert(w.drop_last() =~= a);
    if a.len() > 0 {
        assert(w.len() > 1);
    }
}

/// The list of `a` as text, in the notation of `list_text`.
pub fn symbol_list(a: &Vec<char>) -> (s: String)
    ensures
        s@ == list_text(a@),
        forall|i: int| 0 <= i < a@.len() && quoted_plainly(a@[i]) ==> #[trigger] char_debug(a@[i]) == seq!['\'', a@[i], '\''],
{
    let mut s = String::from_str("[");
    let mut i: usize = 0;
    while i < a.len()
        invariant
            i <= a.len(),
            s@ == "["@ + list_items(a@.take(i as int)),
            forall|j: int| 0 <= j < i && quoted_plainly(a@[j]) ==> #[trigger] char_debug(a@[j]) == seq!['\'', a@[j], '\''],
        decreases a.len() - i,
    {
        if i > 0 {
            s.append(", ");
        }
        let d = debug_char(a[i]);
        s.append(d.as_str());
        i = i + 1;
        proof {
            let t = a@.take(i as int);
            assert(t.drop_last() =~= a@.take(i - 1));
            assert(t.last() == a@[i - 1]);
            if i == 1 {
                assert(a@.take(0) =~= Seq::<char>::empty());
            }
            assert(s@ =~= "["@ + list_items(t));
        }
    }
    s.append("]");
    proof {
        assert(a@.take(i as int) =~= a@);
    }
    s
}

} // verus!
