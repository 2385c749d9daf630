//! Text at the level of characters: equality, lexicographic order and
//! decimal numerals.

use vstd::prelude::*;
use vstd::string::*;
use vstd::utf8::encode_utf8_decode_utf8;

verus! {

/// `String::push` appends the one given character at the end of the string.
pub assume_specification[ String::push ](s: &mut String, c: char)
    ensures
        final(s)@ == old(s)@.push(c),
;

/// Strings as values.
pub open spec fn texts(strings: Seq<String>) -> Seq<Seq<char>> {
    strings.map_values(|s: String| s@)
}

/// The characters of a string, in order.
pub fn chars_of(s: &str) -> (out: Vec<char>)
    ensures
        out@ == s@,
{
    let mut out: Vec<char> = Vec::new();
    for c in it: s.chars()
        invariant
            out@ == it.seq().take(it.index()),
            it.seq() == s@,
    {
        out.push(c);
    }
    out
}

/// Whether two strings hold the same characters.
pub fn same_text(a: &str, b: &str) -> (same: bool)
    ensures
        same == (a@ == b@),
{
    let x = a.as_bytes();
    let y = b.as_bytes();
    proof {
        encode_utf8_decode_utf8(a@);
        encode_utf8_decode_utf8(b@);
    }
    if x.len() != y.len() {
        return false;
    }
    let mut i: usize = 0;
    while i < x.len()
        invariant
            i <= x.len(),
            x.len() == y.len(),
            x@ == a.spec_bytes(),
            y@ == b.spec_bytes(),
            forall|k: int| 0 <= k < i ==> x[k] == y[k],
        decreases x.len() - i,
    {
        if x[i] != y[i] {
            assert(x@[i as int] != y@[i as int]);
            return false;
        }
        i += 1;
    }
    assert(x@ =~= y@);
    true
}

// ---------------------------------------------------------------------------
// Lexicographic order
// ---------------------------------------------------------------------------

/// `a` and `b` agree before position `k`, where `a` either ends or holds the
/// smaller character.
pub open spec fn lex_lt_at(a: Seq<char>, b: Seq<char>, k: int) -> bool {
    &&& 0 <= k <= a.len()
    &&& k < b.len()
    &&& forall|j: int| 0 <= j < k ==> a[j] == b[j]
    &&& k == a.len() || a[k] < b[k]
}

/// `a` comes strictly before `b` in lexicographic order.
pub open spec fn lex_lt(a: Seq<char>, b: Seq<char>) -> bool {
    exists|k: int| lex_lt_at(a, b, k)
}

/// Nothing comes before itself.
pub proof fn lemma_lex_irreflexive(a: Seq<char>)
    ensures
        !lex_lt(a, a),
{
}

/// The order is transitive.
pub proof fn lemma_lex_transitive(a: Seq<char>, b: Seq<char>, c: Seq<char>)
    requires
        lex_lt(a, b),
        lex_lt(b, c),
    ensures
        lex_lt(a, c),
{
    let i = choose|k: int| lex_lt_at(a, b, k);
    let j = choose|k: int| lex_lt_at(b, c, k);
    if i <= j {
        assert(lex_lt_at(a, c, i));
    } else {
        assert(lex_lt_at(a, c, j));
    }
}

/// The order is asymmetric.
pub proof fn lemma_lex_asymmetric(a: Seq<char>, b: Seq<char>)
    requires
        lex_lt(a, b),
    ensures
        !lex_lt(b, a),
        a != b,
{
    if lex_lt(b, a) {
        lemma_lex_transitive(a, b, a);
    }
    lemma_lex_irreflexive(a);
}

/// Of two texts one comes first, or they are the same.
pub proof fn lemma_lex_connected(a: Seq<char>, b: Seq<char>)
    ensures
        lex_lt(a, b) || lex_lt(b, a) || a == b,
    decreases a.len(),
{
    if a.len() == 0 {
        if b.len() > 0 {
            assert(lex_lt_at(a, b, 0));
        } else {
            assert(a =~= b);
        }
    } else {
        let p = a.drop_last();
        let n = p.len() as int;
        lemma_lex_connected(p, b);
        if lex_lt(p, b) {
            let k = choose|k: int| lex_lt_at(p, b, k);
            if k < n {
                assert(a[k] == p[k]);
                assert forall|j: int| 0 <= j < k implies a[j] == b[j] by {
                    assert(p[j] == b[j]);
                }
                assert(lex_lt_at(a, b, k));
            } else {
                assert forall|j: int| 0 <= j < n implies a[j] == b[j] by {
                    assert(p[j] == b[j]);
                }
                if a[n] < b[n] {
                    assert(lex_lt_at(a, b, n));
                } else if b[n] < a[n] {
                    assert(lex_lt_at(b, a, n));
                } else if b.len() == a.len() {
                    assert(a =~= b);
                } else {
                    assert(lex_lt_at(a, b, n + 1));
                }
            }
        } else if lex_lt(b, p) {
            let k = choose|k: int| lex_lt_at(b, p, k);
            assert forall|j: int| 0 <= j < k implies b[j] == a[j] by {
                assert(p[j] == b[j]);
            }
            assert(a[k] == p[k]);
            assert(lex_lt_at(b, a, k));
        } else {
            assert(lex_lt_at(b, a, n));
        }
    }
}

/// Putting the same text in front of both sides keeps the order.
pub proof fn lemma_lex_prefix(p: Seq<char>, a: Seq<char>, b: Seq<char>)
    requires
        lex_lt(a, b),
    ensures
        lex_lt(p + a, p + b),
{
    let k = choose|k: int| lex_lt_at(a, b, k);
    let m = k + p.len();
    assert forall|j: int| 0 <= j < m implies (p + a)[j] == (p + b)[j] by {
        if j >= p.len() {
            assert(a[j - p.len()] == b[j - p.len()]);
        }
    }
    assert(lex_lt_at(p + a, p + b, m));
}

/// Between texts of one length the order is decided before anything that
/// follows them.
pub proof fn lemma_lex_suffix(a: Seq<char>, b: Seq<char>, s: Seq<char>, t: Seq<char>)
    requires
        lex_lt(a, b),
        a.len() == b.len(),
    ensures
        lex_lt(a + s, b + t),
{
    let k = choose|k: int| lex_lt_at(a, b, k);
    assert(lex_lt_at(a + s, b + t, k));
}

/// How one text stands to another.
#[derive(Clone, Copy, PartialEq, Eq, Structural, Debug)]
pub enum Relation {
    Before,
    Same,
    After,
}

/// Compare two texts in lexicographic order of their characters.
pub fn relate(a: &str, b: &str) -> (r: Relation)
    ensures
        r == Relation::Before <==> lex_lt(a@, b@),
        r == Relation::Same <==> a@ == b@,
        r == Relation::After <==> lex_lt(b@, a@),
{
    let x = chars_of(a);
    let y = chars_of(b);
    let mut i: usize = 0;
    while i < x.len() && i < y.len()
        invariant
            i <= x.len(),
            i <= y.len(),
            x@ == a@,
            y@ == b@,
            forall|j: int| 0 <= j < i ==> x[j] == y[j],
        decreases x.len() - i,
    {
        let p: char = x[i];
        let q: char = y[i];
        if p < q {
            proof {
                assert(lex_lt_at(a@, b@, i as int));
                lemma_lex_asymmetric(a@, b@);
            }
            return Relation::Before;
        }
        if q < p {
            proof {
                assert(lex_lt_at(b@, a@, i as int));
                lemma_lex_asymmetric(b@, a@);
            }
            return Relation::After;
        }
        i += 1;
    }
    if i < y.len() {
        proof {
            assert(lex_lt_at(a@, b@, i as int));
            lemma_lex_asymmetric(a@, b@);
        }
        Relation::Before
    } else if i < x.len() {
        proof {
            assert(lex_lt_at(b@, a@, i as int));
            lemma_lex_asymmetric(b@, a@);
        }
        Relation::After
    } else {
        proof {
            assert(a@ =~= b@);
            lemma_lex_irreflexive(a@);
        }
        Relation::Same
    }
}

// ---------------------------------------------------------------------------
// Decimal numerals
// ---------------------------------------------------------------------------

/// The character of one decimal digit.
pub open spec fn digit_char(d: int) -> char {
    (48 + d) as char
}

/// Whether a character is one of `0` to `9`.
pub open spec fn is_digit_char(c: char) -> bool {
    '0' <= c && c <= '9'
}

/// Whether every character is a decimal digit.
pub open spec fn all_digits(s: Seq<char>) -> bool {
    forall|i: int| 0 <= i < s.len() ==> is_digit_char(#[trigger] s[i])
}

/// The decimal numeral of `n`, without leading zeros.
pub open spec fn decimal(n: nat) -> Seq<char>
    decreases n,
{
    if n < 10 {
        seq![digit_char(n as int)]
    } else {
        decimal(n / 10).push(digit_char((n % 10) as int))
    }
}

/// The number that a string of digits writes in base ten; leading zeros
/// count for nothing, and the empty string writes zero.
pub open spec fn decimal_value(s: Seq<char>) -> nat
    decreases s.len(),
{
    if s.len() == 0 {
        0
    } else {
        decimal_value(s.drop_last()) * 10 + (s.last() as u32 - 48) as nat
    }
}

/// `count` zeros.
pub open spec fn zeros(count: int) -> Seq<char> {
    Seq::new(
        if count > 0 {
            count as nat
        } else {
            0
        },
        |i: int| '0',
    )
}

/// The numeral of `n`, filled up with leading zeros to at least `width`
/// characters.
pub open spec fn padded_decimal(n: nat, width: int) -> Seq<char> {
    zeros(width - decimal(n).len()) + decimal(n)
}

/// A numeral is a non-empty string of digits and writes its number.
pub proof fn lemma_decimal(n: nat)
    ensures
        decimal(n).len() >= 1,
        all_digits(decimal(n)),
        decimal_value(decimal(n)) == n,
    decreases n,
{
    if n < 10 {
        assert(decimal(n).drop_last() =~= Seq::<char>::empty());
        assert(decimal_value(decimal(n).drop_last()) == 0);
    } else {
        lemma_decimal(n / 10);
        assert(decimal(n).drop_last() =~= decimal(n / 10));
    }
}

/// Leading zeros do not change the number written.
pub proof fn lemma_leading_zeros(count: int, s: Seq<char>)
    ensures
        decimal_value(zeros(count) + s) == decimal_value(s),
    decreases (if count > 0 { count } else { 0 }) + s.len(),
{
    let t = zeros(count) + s;
    if s.len() > 0 {
        assert(t.drop_last() =~= zeros(count) + s.drop_last());
        assert(t.last() == s.last());
        lemma_leading_zeros(count, s.drop_last());
    } else if count > 0 {
        assert(t.drop_last() =~= zeros(count - 1) + s);
        assert(t.last() == '0');
        lemma_leading_zeros(count - 1, s);
    } else {
        assert(t =~= s);
    }
}

/// A padded numeral is a non-empty string of digits, at least `width` long,
/// and writes its number.
pub proof fn lemma_padded_decimal(n: nat, width: int)
    ensures
        padded_decimal(n, width).len() >= 1,
        padded_decimal(n, width).len() >= width,
        all_digits(padded_decimal(n, width)),
        decimal_value(padded_decimal(n, width)) == n,
{
    lemma_decimal(n);
    lemma_leading_zeros(width - decimal(n).len(), decimal(n));
}

/// The numeral of `n`.
pub fn decimal_text(n: u64) -> (out: String)
    ensures
        out@ == decimal(n as nat),
{
    let mut digits: Vec<char> = Vec::new();
    let mut rest: u64 = n;
    while rest >= 10
        invariant
            decimal(n as nat) == decimal(rest as nat) + digits@.reverse(),
        decreases rest,
    {
        let d: u8 = (rest % 10) as u8;
        proof {
            let q = (rest as nat) / 10;
            assert(decimal(rest as nat) =~= decimal(q).push(digit_char((rest % 10) as int)));
            assert(decimal(q) + digits@.push((48 + d) as char).reverse() =~= decimal(rest as nat)
                + digits@.reverse());
        }
        digits.push((48 + d) as char);
        rest = rest / 10;
    }
    let d: u8 = rest as u8;
    assert(decimal(rest as nat) =~= seq![digit_char(rest as int)]);
    digits.push((48 + d) as char);
    assert(digits@.reverse() =~= decimal(n as nat));
    let mut out = String::new();
    let mut i: usize = digits.len();
    while i > 0
        invariant
            i <= digits.len(),
            out@ == digits@.reverse().take(digits.len() - i),
        decreases i,
    {
        i -= 1;
        out.push(digits[i]);
        assert(digits@.reverse().take(digits.len() - i) =~= digits@.reverse().take(
            digits.len() - i - 1,
        ).push(digits[i as int]));
    }
    assert(out@ =~= decimal(n as nat));
    out
}

/// The numeral of `n`, filled up with leading zeros to `width` characters.
pub fn padded_decimal_text(n: u64, width: usize) -> (out: String)
    ensures
        out@ == padded_decimal(n as nat, width as int),
{
    let numeral = decimal_text(n);
    let len = chars_of(&numeral).len();
    let mut out = String::new();
    let mut i: usize = len;
    while i < width
        invariant
            i <= width || i == len,
            i >= len,
            out@ == zeros(i - len),
        decreases width - i,
    {
        out.push('0');
        i += 1;
        assert(out@ =~= zeros(i - len));
    }
    assert(out@ =~= zeros(width - len));
    out.append(&numeral);
    out
}

/// The number that the digits `digits[from..to]` write, when it fits 64 bits.
pub fn parse_digits(digits: &Vec<char>, from: usize, to: usize) -> (n: Option<u64>)
    requires
        from <= to <= digits.len(),
        all_digits(digits@.subrange(from as int, to as int)),
    ensures
        ({
            let value = decimal_value(digits@.subrange(from as int, to as int));
            n == if value <= u64::MAX {
                Some(value as u64)
            } else {
                None
            }
        }),
{
    let mut acc: u64 = 0;
    let mut i: usize = from;
    let ghost whole = digits@.subrange(from as int, to as int);
    while i < to
        invariant
            from <= i <= to <= digits.len(),
            whole == digits@.subrange(from as int, to as int),
            all_digits(whole),
            acc == decimal_value(digits@.subrange(from as int, i as int)),
        decreases to - i,
    {
        assert(is_digit_char(whole[i - from]));
        let d: u64 = (digits[i] as u32 - 48) as u64;
        proof {
            let next = digits@.subrange(from as int, i + 1);
            assert(next.drop_last() =~= digits@.subrange(from as int, i as int));
            assert(decimal_value(next) == acc * 10 + d);
            lemma_prefix_value(whole, i + 1 - from);
            assert(whole.take(i + 1 - from) =~= next);
        }
        if acc > (u64::MAX - d) / 10 {
            return None;
        }
        acc = acc * 10 + d;
        i += 1;
    }
    Some(acc)
}

/// Reading on never makes the number smaller.
pub proof fn lemma_prefix_value(s: Seq<char>, k: int)
    requires
        0 <= k <= s.len(),
    ensures
        decimal_value(s.take(k)) <= decimal_value(s),
    decreases s.len() - k,
{
    if k < s.len() {
        lemma_prefix_value(s, k + 1);
        assert(s.take(k + 1).drop_last() =~= s.take(k));
    } else {
        assert(s.take(k) =~= s);
    }
}

/// Among strings of digits of one length, the smaller number comes first.
pub proof fn lemma_digit_order(a: Seq<char>, b: Seq<char>)
    requires
        a.len() == b.len(),
        all_digits(a),
        all_digits(b),
    ensures
        decimal_value(a) < decimal_value(b) ==> lex_lt(a, b),
        decimal_value(a) == decimal_value(b) ==> a == b,
    decreases a.len(),
{
    if a.len() > 0 {
        let p = a.drop_last();
        let q = b.drop_last();
        assert(is_digit_char(a.last()) && is_digit_char(b.last()));
        assert forall|i: int| 0 <= i < p.len() implies is_digit_char(#[trigger] p[i]) by {
            assert(p[i] == a[i]);
        }
        assert forall|i: int| 0 <= i < q.len() implies is_digit_char(#[trigger] q[i]) by {
            assert(q[i] == b[i]);
        }
        lemma_digit_order(p, q);
        lemma_digit_order(q, p);
        if decimal_value(a) == decimal_value(b) {
            assert(decimal_value(p) == decimal_value(q));
            assert(a =~= b) by {
                assert(a =~= p.push(a.last()));
                assert(b =~= q.push(b.last()));
            }
        }
        if decimal_value(a) < decimal_value(b) {
            if decimal_value(p) < decimal_value(q) {
                let k = choose|k: int| lex_lt_at(p, q, k);
                assert(k < p.len());
                assert forall|j: int| 0 <= j < k implies a[j] == b[j] by {
                    assert(p[j] == q[j]);
                }
                assert(a[k] == p[k] && b[k] == q[k]);
                assert(lex_lt_at(a, b, k));
            } else {
                assert(decimal_value(p) == decimal_value(q));
                assert forall|j: int| 0 <= j < a.len() - 1 implies a[j] == b[j] by {
                    assert(p[j] == q[j]);
                }
                assert(lex_lt_at(a, b, a.len() - 1));
            }
        }
    } else {
        assert(a =~= b);
    }
}

} // verus!
