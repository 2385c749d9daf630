//! Strings and delimited fields of compact JSON texts, and why such texts can
//! be told apart.

use crate::federation::sig::hex_digit;
use vstd::prelude::*;

verus! {

/// How one character stands in a JSON string.
pub open spec fn json_escape(c: char) -> Seq<char> {
    if c == '"' {
        seq!['\\', '"']
    } else if c == '\\' {
        seq!['\\', '\\']
    } else if c == '\u{8}' {
        seq!['\\', 'b']
    } else if c == '\t' {
        seq!['\\', 't']
    } else if c == '\n' {
        seq!['\\', 'n']
    } else if c == '\u{c}' {
        seq!['\\', 'f']
    } else if c == '\r' {
        seq!['\\', 'r']
    } else if ' ' > c {
        seq!['\\', 'u', '0', '0', hex_digit(c as int / 16), hex_digit(c as int % 16)]
    } else {
        seq![c]
    }
}

/// How a text stands between the quotes of a JSON string.
pub open spec fn json_escaped(s: Seq<char>) -> Seq<char>
    decreases s.len(),
{
    if s.len() == 0 {
        Seq::empty()
    } else {
        json_escape(s[0]) + json_escaped(s.skip(1))
    }
}

/// A text as a JSON string.
pub open spec fn json_quoted(s: Seq<char>) -> Seq<char> {
    seq!['"'] + json_escaped(s) + seq!['"']
}

/// `serde_json::to_string` of a string: the text in quotes, with quotes,
/// backslashes and control characters escaped and everything else as it is.
#[verifier::external_body]
pub(crate) fn json_string(s: &str) -> (text: String)
    ensures
        text@ == json_quoted(s@),
{
    serde_json::to_string(s).expect("a string always serializes")
}

/// No escape is the beginning of another one, nor of a closing quote.
proof fn lemma_escape_prefix(c: char, d: char, x: Seq<char>, y: Seq<char>)
    requires
        json_escape(c) + x == json_escape(d) + y,
    ensures
        c == d,
        x == y,
{
    let s = json_escape(c) + x;
    let t = json_escape(d) + y;
    assert(s[0] == t[0]);
    assert(s[0] == json_escape(c)[0]);
    assert(t[0] == json_escape(d)[0]);
    if json_escape(c).len() > 1 {
        assert(json_escape(c)[0] == '\\');
        assert(json_escape(d).len() > 1);
        assert(s[1] == json_escape(c)[1]);
        assert(t[1] == json_escape(d)[1]);
        if json_escape(c).len() == 6 {
            assert(s[4] == json_escape(c)[4] && s[5] == json_escape(c)[5]);
            assert(t[1] == 'u');
            assert(json_escape(d).len() == 6);
            assert(t[4] == json_escape(d)[4] && t[5] == json_escape(d)[5]);
            let m = c as int;
            let n = d as int;
            assert(hex_digit(m / 16) == hex_digit(n / 16));
            assert(hex_digit(m % 16) == hex_digit(n % 16));
            assert(0 <= m / 16 < 16 && 0 <= n / 16 < 16);
            assert(m / 16 == n / 16);
            assert(m % 16 == n % 16);
        }
    }
    assert(c == d);
    assert(x =~= s.skip(json_escape(c).len() as int));
    assert(y =~= t.skip(json_escape(d).len() as int));
}

/// Escaped texts that go on alike after their closing quotes are alike.
proof fn lemma_escaped_prefix(a: Seq<char>, b: Seq<char>, x: Seq<char>, y: Seq<char>)
    requires
        json_escaped(a) + seq!['"'] + x == json_escaped(b) + seq!['"'] + y,
    ensures
        a == b,
        x == y,
    decreases a.len() + b.len(),
{
    let s = json_escaped(a) + seq!['"'] + x;
    let t = json_escaped(b) + seq!['"'] + y;
    assert(s[0] == t[0]);
    if a.len() == 0 || b.len() == 0 {
        if a.len() > 0 {
            assert(s[0] == json_escape(a[0])[0]);
            assert(t[0] == '"');
            assert(false);
        }
        if b.len() > 0 {
            assert(t[0] == json_escape(b[0])[0]);
            assert(s[0] == '"');
            assert(false);
        }
        assert(a =~= b);
        assert(x =~= s.skip(1));
        assert(y =~= t.skip(1));
    } else {
        let rest_a = json_escaped(a.skip(1)) + seq!['"'] + x;
        let rest_b = json_escaped(b.skip(1)) + seq!['"'] + y;
        assert(s =~= json_escape(a[0]) + rest_a);
        assert(t =~= json_escape(b[0]) + rest_b);
        lemma_escape_prefix(a[0], b[0], rest_a, rest_b);
        lemma_escaped_prefix(a.skip(1), b.skip(1), x, y);
        assert(a =~= seq![a[0]] + a.skip(1));
        assert(b =~= seq![b[0]] + b.skip(1));
    }
}

/// JSON strings that go on alike are alike.
pub proof fn lemma_quoted_prefix(a: Seq<char>, b: Seq<char>, x: Seq<char>, y: Seq<char>)
    requires
        json_quoted(a) + x == json_quoted(b) + y,
    ensures
        a == b,
        x == y,
{
    let s = json_quoted(a) + x;
    let t = json_quoted(b) + y;
    assert(s.skip(1) =~= json_escaped(a) + seq!['"'] + x);
    assert(t.skip(1) =~= json_escaped(b) + seq!['"'] + y);
    lemma_escaped_prefix(a, b, x, y);
}

/// The character does not occur in the text.
pub open spec fn lacks(s: Seq<char>, d: char) -> bool {
    forall|i: int| 0 <= i < s.len() ==> #[trigger] s[i] != d
}

/// Fields that lack the first character of what ends them, and go on alike
/// after that, are alike.
pub proof fn lemma_field_prefix(
    a: Seq<char>,
    b: Seq<char>,
    end: Seq<char>,
    x: Seq<char>,
    y: Seq<char>,
)
    requires
        end.len() > 0,
        lacks(a, end[0]),
        lacks(b, end[0]),
        a + (end + x) == b + (end + y),
    ensures
        a == b,
        x == y,
{
    let s = a + (end + x);
    let t = b + (end + y);
    if a.len() < b.len() {
        assert(s[a.len() as int] == end[0]);
        assert(t[a.len() as int] == b[a.len() as int]);
    }
    if b.len() < a.len() {
        assert(t[b.len() as int] == end[0]);
        assert(s[b.len() as int] == a[b.len() as int]);
    }
    assert forall|i: int| 0 <= i < a.len() implies a[i] == b[i] by {
        assert(s[i] == a[i]);
        assert(t[i] == b[i]);
    }
    assert(a =~= b);
    assert(x =~= s.skip(a.len() + end.len() as int));
    assert(y =~= t.skip(b.len() + end.len() as int));
}

/// Texts joined in either order.
pub proof fn lemma_join(a: Seq<char>, b: Seq<char>, c: Seq<char>)
    ensures
        (a + b) + c == a + (b + c),
{
    assert((a + b) + c =~= a + (b + c));
}

/// Texts with the same beginning go on alike where they are alike.
pub proof fn lemma_same_prefix(p: Seq<char>, x: Seq<char>, y: Seq<char>)
    requires
        p + x == p + y,
    ensures
        x == y,
{
    assert(x =~= (p + x).skip(p.len() as int));
    assert(y =~= (p + y).skip(p.len() as int));
}

} // verus!
