//! Character-level helpers shared by the parser and the expander: blanks,
//! trimming, case folding of ASCII letters, and numeric literals.
use vstd::prelude::*;
use vstd::std_specs::iter::IteratorSpec;

verus! {

/// Whitespace inside a line.
pub open spec fn is_blank(c: char) -> bool {
    c == ' ' || c == '\t' || c == '\r'
}

/// Whitespace of any kind, line breaks included.
pub open spec fn is_space(c: char) -> bool {
    is_blank(c) || c == '\n'
}

/// ASCII letters folded to lower case; other characters unchanged.
pub open spec fn lower(c: char) -> char {
    if 'A' <= c && c <= 'Z' { ((c as u8) + 32) as char } else { c }
}

pub open spec fn lower_seq(s: Seq<char>) -> Seq<char> {
    s.map_values(|c: char| lower(c))
}

/// Characters that may stand in a name.
pub open spec fn is_name_char(c: char) -> bool {
    ('a' <= c && c <= 'z') || ('A' <= c && c <= 'Z') || ('0' <= c && c <= '9') || c == '_'
}

/// A name: a letter or `_`, then letters, digits and `_`.
pub open spec fn is_name(s: Seq<char>) -> bool {
    &&& s.len() > 0
    &&& !('0' <= s[0] && s[0] <= '9')
    &&& forall|i: int| 0 <= i < s.len() ==> is_name_char(#[trigger] s[i])
}

/// `s` with the whitespace at both ends removed.
pub open spec fn trimmed(s: Seq<char>) -> Seq<char>
    decreases s.len(),
{
    if s.len() > 0 && is_space(s[0]) {
        trimmed(s.drop_first())
    } else if s.len() > 0 && is_space(s.last()) {
        trimmed(s.drop_last())
    } else {
        s
    }
}

/// The concatenation of a sequence of pieces, in order.
pub open spec fn joined(pieces: Seq<Seq<char>>) -> Seq<char>
    decreases pieces.len(),
{
    if pieces.len() == 0 {
        Seq::empty()
    } else {
        joined(pieces.drop_last()) + pieces.last()
    }
}

pub fn is_blank_char(c: char) -> (r: bool)
    ensures
        r == is_blank(c),
{
    c == ' ' || c == '\t' || c == '\r'
}

pub fn is_space_char(c: char) -> (r: bool)
    ensures
        r == is_space(c),
{
    c == ' ' || c == '\t' || c == '\r' || c == '\n'
}

pub fn is_name_character(c: char) -> (r: bool)
    ensures
        r == is_name_char(c),
{
    ('a' <= c && c <= 'z') || ('A' <= c && c <= 'Z') || ('0' <= c && c <= '9') || c == '_'
}

/// Whether `s` is a name.
pub fn check_name(s: &[char]) -> (r: bool)
    ensures
        r == is_name(s@),
{
    if s.len() == 0 || ('0' <= s[0] && s[0] <= '9') {
        return false;
    }
    let mut i: usize = 0;
    while i < s.len()
        invariant
            i <= s@.len(),
            forall|j: int| 0 <= j < i ==> is_name_char(#[trigger] s@[j]),
        decreases s@.len() - i,
    {
        if !is_name_character(s[i]) {
            return false;
        }
        i = i + 1;
    }
    true
}

/// Folds ASCII letters to lower case.
pub fn to_lower(s: &[char]) -> (r: Vec<char>)
    ensures
        r@ == lower_seq(s@),
{
    let mut r: Vec<char> = Vec::new();
    let mut i: usize = 0;
    while i < s.len()
        invariant
            i <= s@.len(),
            r@ == lower_seq(s@.take(i as int)),
        decreases s@.len() - i,
    {
        let c = s[i];
        let l = if 'A' <= c && c <= 'Z' { ((c as u8) + 32) as char } else { c };
        r.push(l);
        assert(s@.take(i + 1) == s@.take(i as int).push(c));
        i = i + 1;
    }
    assert(s@.take(s@.len() as int) == s@);
    r
}

/// Whether two character sequences are equal.
pub fn same_chars(a: &[char], b: &[char]) -> (r: bool)
    ensures
        r == (a@ == b@),
{
    if a.len() != b.len() {
        return false;
    }
    let mut i: usize = 0;
    while i < a.len()
        invariant
            i <= a@.len(),
            a@.len() == b@.len(),
            forall|j: int| 0 <= j < i ==> a@[j] == b@[j],
        decreases a@.len() - i,
    {
        if a[i] != b[i] {
            return false;
        }
        i = i + 1;
    }
    assert(a@ =~= b@);
    true
}

/// Copies `s[start..end]`.
pub fn slice_of(s: &[char], start: usize, end: usize) -> (r: Vec<char>)
    requires
        start <= end <= s@.len(),
    ensures
        r@ == s@.subrange(start as int, end as int),
{
    let mut r: Vec<char> = Vec::new();
    let mut i: usize = start;
    while i < end
        invariant
            start <= i <= end <= s@.len(),
            r@ == s@.subrange(start as int, i as int),
        decreases end - i,
    {
        r.push(s[i]);
        assert(s@.subrange(start as int, i + 1) == s@.subrange(start as int, i as int).push(s@[i as int]));
        i = i + 1;
    }
    r
}

proof fn lemma_trimmed_inner(s: Seq<char>, a: int, b: int)
    requires
        0 <= a <= b <= s.len(),
        forall|i: int| 0 <= i < a ==> is_space(#[trigger] s[i]),
        forall|i: int| b <= i < s.len() ==> is_space(#[trigger] s[i]),
        a == b || (!is_space(s[a]) && !is_space(s[b - 1])),
    ensures
        trimmed(s) == s.subrange(a, b),
    decreases s.len(),
{
    if s.len() > 0 && is_space(s[0]) {
        if a == 0 {
            assert(a == b);
            lemma_trimmed_inner(s.drop_first(), 0, 0);
            assert(s.drop_first().subrange(0, 0) == s.subrange(a, b));
        } else {
            lemma_trimmed_inner(s.drop_first(), a - 1, b - 1);
            assert(s.drop_first().subrange(a - 1, b - 1) == s.subrange(a, b));
        }
    } else if s.len() > 0 && is_space(s.last()) {
        if b == s.len() {
            assert(a == b);
            lemma_trimmed_inner(s.drop_last(), s.len() - 1, s.len() - 1);
            assert(s.drop_last().subrange(s.len() - 1, s.len() - 1) == s.subrange(a, b));
        } else {
            lemma_trimmed_inner(s.drop_last(), a, b);
            assert(s.drop_last().subrange(a, b) == s.subrange(a, b));
        }
    } else {
        if a < b {
            assert(a == 0 && b == s.len());
        } else if s.len() > 0 {
            assert(is_space(s[0]) || a > 0);
        }
        assert(s.subrange(a, b) == s);
    }
}

/// `s` without whitespace at either end.
pub fn trim(s: &[char]) -> (r: Vec<char>)
    ensures
        r@ == trimmed(s@),
{
    let mut a: usize = 0;
    while a < s.len() && is_space_char(s[a])
        invariant
            a <= s@.len(),
            forall|i: int| 0 <= i < a ==> is_space(#[trigger] s@[i]),
        decreases s@.len() - a,
    {
        a = a + 1;
    }
    let mut b: usize = s.len();
    while b > a && is_space_char(s[b - 1])
        invariant
            a <= b <= s@.len(),
            forall|i: int| b <= i < s@.len() ==> is_space(#[trigger] s@[i]),
        decreases b,
    {
        b = b - 1;
    }
    proof {
        lemma_trimmed_inner(s@, a as int, b as int);
    }
    slice_of(s, a, b)
}

/// The value of a digit in bases up to sixteen; 16 for any other character.
pub open spec fn digit_value(c: char) -> nat {
    if '0' <= c && c <= '9' {
        (c as nat - '0' as nat) as nat
    } else if 'a' <= c && c <= 'f' {
        (c as nat - 'a' as nat + 10) as nat
    } else if 'A' <= c && c <= 'F' {
        (c as nat - 'A' as nat + 10) as nat
    } else {
        16
    }
}

/// The value of a string of digits, most significant first.
pub open spec fn digits_value(s: Seq<char>, base: nat) -> nat
    decreases s.len(),
{
    if s.len() == 0 {
        0
    } else {
        digits_value(s.drop_last(), base) * base + digit_value(s.last())
    }
}

/// The digits of a numeral and their base: `0b` binary, `0x` hexadecimal,
/// otherwise decimal.
pub open spec fn numeral_parts(s: Seq<char>) -> (Seq<char>, nat) {
    if s.len() >= 2 && s[0] == '0' && s[1] == 'b' {
        (s.subrange(2, s.len() as int), 2)
    } else if s.len() >= 2 && s[0] == '0' && s[1] == 'x' {
        (s.subrange(2, s.len() as int), 16)
    } else {
        (s, 10)
    }
}

/// The value of a numeral, if `s` is one.
pub open spec fn numeral(s: Seq<char>) -> Option<nat> {
    digits_numeral(numeral_parts(s).0, numeral_parts(s).1)
}

/// The value of `d` as digits in `base`, if every character is one.
pub open spec fn digits_numeral(d: Seq<char>, base: nat) -> Option<nat> {
    if d.len() > 0 && forall|i: int| 0 <= i < d.len() ==> digit_value(#[trigger] d[i]) < base {
        Some(digits_value(d, base))
    } else {
        None
    }
}

/// The value of a numeral that fits in a byte.
pub open spec fn byte_numeral(s: Seq<char>) -> Option<u8> {
    match numeral(s) {
        Some(v) => if v <= 255 { Some(v as u8) } else { None },
        None => None,
    }
}

fn digit_of(c: char) -> (r: u64)
    ensures
        r == digit_value(c),
{
    if '0' <= c && c <= '9' {
        (c as u32 - '0' as u32) as u64
    } else if 'a' <= c && c <= 'f' {
        (c as u32 - 'a' as u32 + 10) as u64
    } else if 'A' <= c && c <= 'F' {
        (c as u32 - 'A' as u32 + 10) as u64
    } else {
        16
    }
}

proof fn lemma_digits_grow(s: Seq<char>, base: nat, j: int)
    requires
        base >= 1,
        0 <= j <= s.len(),
    ensures
        digits_value(s.take(j), base) <= digits_value(s, base),
    decreases s.len(),
{
    if j < s.len() {
        lemma_digits_grow(s.drop_last(), base, j);
        assert(s.drop_last().take(j) == s.take(j));
        let p = digits_value(s.drop_last(), base);
        assert(p <= p * base) by (nonlinear_arith)
            requires base >= 1;
    } else {
        assert(s.take(j) == s);
    }
}

/// Reads a numeral whose value fits in a byte.
pub fn parse_byte(s: &[char]) -> (r: Option<u8>)
    ensures
        r == byte_numeral(s@),
{
    let (start, base): (usize, u64) = if s.len() >= 2 && s[0] == '0' && s[1] == 'b' {
        (2, 2)
    } else if s.len() >= 2 && s[0] == '0' && s[1] == 'x' {
        (2, 16)
    } else {
        (0, 10)
    };
    let ghost d = s@.subrange(start as int, s@.len() as int);
    assert(numeral_parts(s@) == (d, base as nat));
    assert(numeral(s@) == digits_numeral(d, base as nat));
    if start >= s.len() {
        return None;
    }
    let mut acc: u64 = 0;
    let mut i: usize = start;
    while i < s.len()
        invariant
            start <= i <= s@.len(),
            d == s@.subrange(start as int, s@.len() as int),
            numeral(s@) == digits_numeral(d, base as nat),
            base == 2 || base == 10 || base == 16,
            acc <= 255,
            acc == digits_value(d.take(i - start), base as nat),
            forall|k: int| 0 <= k < i - start ==> digit_value(#[trigger] d[k]) < base,
        decreases s@.len() - i,
    {
        let v = digit_of(s[i]);
        if v >= base {
            assert(d[i - start] == s@[i as int]);
            assert(digit_value(d[i - start]) >= base as nat);
            assert(numeral(s@) is None);
            return None;
        }
        assert(d.take(i - start + 1).drop_last() == d.take(i - start));
        assert(d.take(i - start + 1).last() == s@[i as int]);
        assert(acc * base + v <= 255 * 16 + 16) by (nonlinear_arith)
            requires acc <= 255, base <= 16, v < base;
        acc = acc * base + v;
        i = i + 1;
        if acc > 255 {
            proof {
                lemma_digits_grow(d, base as nat, i - start);
                assert(numeral(s@) is None || numeral(s@)->Some_0 > 255);
            }
            return None;
        }
    }
    assert(d.take(i - start) == d);
    Some(acc as u8)
}

/// Whether `w` is exactly the given characters.
pub fn is_word1(w: &[char], a: char) -> (r: bool)
    ensures
        r == (w@ == seq![a]),
{
    let r = w.len() == 1 && w[0] == a;
    assert(r ==> w@ =~= seq![a]);
    r
}

pub fn is_word2(w: &[char], a: char, b: char) -> (r: bool)
    ensures
        r == (w@ == seq![a, b]),
{
    let r = w.len() == 2 && w[0] == a && w[1] == b;
    assert(r ==> w@ =~= seq![a, b]);
    r
}

pub fn is_word3(w: &[char], a: char, b: char, c: char) -> (r: bool)
    ensures
        r == (w@ == seq![a, b, c]),
{
    let r = w.len() == 3 && w[0] == a && w[1] == b && w[2] == c;
    assert(r ==> w@ =~= seq![a, b, c]);
    r
}

pub fn is_word4(w: &[char], a: char, b: char, c: char, d: char) -> (r: bool)
    ensures
        r == (w@ == seq![a, b, c, d]),
{
    let r = w.len() == 4 && w[0] == a && w[1] == b && w[2] == c && w[3] == d;
    assert(r ==> w@ =~= seq![a, b, c, d]);
    r
}

pub fn is_word5(w: &[char], a: char, b: char, c: char, d: char, e: char) -> (r: bool)
    ensures
        r == (w@ == seq![a, b, c, d, e]),
{
    let r = w.len() == 5 && w[0] == a && w[1] == b && w[2] == c && w[3] == d && w[4] == e;
    assert(r ==> w@ =~= seq![a, b, c, d, e]);
    r
}

pub fn is_word6(w: &[char], a: char, b: char, c: char, d: char, e: char, f: char) -> (r: bool)
    ensures
        r == (w@ == seq![a, b, c, d, e, f]),
{
    let r = w.len() == 6 && w[0] == a && w[1] == b && w[2] == c && w[3] == d && w[4] == e && w[5] == f;
    assert(r ==> w@ =~= seq![a, b, c, d, e, f]);
    r
}

/// The characters of `s` in order.
pub fn chars_of(s: &str) -> (r: Vec<char>)
    ensures
        r@ == s@,
{
    broadcast use vstd::string::axiom_spec_iter, vstd::string::next_postcondition;

    let mut it = s.chars();
    let mut r: Vec<char> = Vec::new();
    assert(r@ + it.remaining() =~= s@);
    loop
        invariant
            r@ + it.remaining() == s@,
            it.obeys_prophetic_iter_laws(),
            it.decrease() is Some,
        decreases it.decrease()->0,
    {
        let ghost before = it.remaining();
        match it.next() {
            Some(c) => {
                let ghost prev = r@;
                r.push(c);
                assert(r@ + it.remaining() =~= prev + before);
            },
            None => {
                assert(r@ + it.remaining() =~= r@);
                return r;
            },
        }
    }
}

/// Relies on `String`'s `FromIterator<&char>`: the string of the characters
/// in order.
#[verifier::external_body]
pub fn string_of(c: &[char]) -> (r: String)
    ensures
        r@ == c@,
{
    c.iter().collect()
}

/// Copies a byte slice.
pub fn copy_bytes(s: &[u8]) -> (r: Vec<u8>)
    ensures
        r@ == s@,
{
    let mut r: Vec<u8> = Vec::new();
    let mut i: usize = 0;
    while i < s.len()
        invariant
            i <= s@.len(),
            r@ == s@.take(i as int),
        decreases s@.len() - i,
    {
        r.push(s[i]);
        assert(s@.take(i + 1) == s@.take(i as int).push(s@[i as int]));
        i = i + 1;
    }
    assert(s@.take(s@.len() as int) == s@);
    r
}

} // verus!
