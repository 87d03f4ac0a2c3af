//! The text of one instruction and the byte it encodes to.
use vstd::prelude::*;

use crate::isa::{make_instruction, Arithmetic, Conditional, FromStore, ToStore, ARITHMETIC_PREFIX, CONDITIONAL_PREFIX, LITERAL_PREFIX, MOVE_PREFIX};
use crate::text::{is_word1, is_word2, is_word3, is_word4, is_word5, is_word6, byte_numeral, is_blank, lower_seq, parse_byte, slice_of, to_lower, trim, trimmed, is_blank_char};

verus! {

/// The byte of an instruction keyword, given in lower case.
pub open spec fn keyword_byte(w: Seq<char>) -> Option<u8> {
    if w == seq!['n', 'o', 'p'] {
        Some((64 + Conditional::NOP) as u8)
    } else if w == seq!['j'] {
        Some((64 + Conditional::JMP) as u8)
    } else if w == seq!['j', 'e', 'z'] {
        Some((64 + Conditional::JEZ) as u8)
    } else if w == seq!['j', 'n', 'z'] {
        Some((64 + Conditional::JNZ) as u8)
    } else if w == seq!['j', 'g', 'e', 'z'] {
        Some((64 + Conditional::JGEZ) as u8)
    } else if w == seq!['j', 'g', 'z'] {
        Some((64 + Conditional::JGZ) as u8)
    } else if w == seq!['j', 'l', 'e', 'z'] {
        Some((64 + Conditional::JLEZ) as u8)
    } else if w == seq!['j', 'l', 'z'] {
        Some((64 + Conditional::JLZ) as u8)
    } else if w == seq!['a', 'd', 'd'] {
        Some((192 + Arithmetic::ADD) as u8)
    } else if w == seq!['s', 'u', 'b'] {
        Some((192 + Arithmetic::SUB) as u8)
    } else if w == seq!['o', 'r'] {
        Some((192 + Arithmetic::OR) as u8)
    } else if w == seq!['n', 'o', 'r'] {
        Some((192 + Arithmetic::NOR) as u8)
    } else if w == seq!['x', 'o', 'r'] {
        Some((192 + Arithmetic::XOR) as u8)
    } else if w == seq!['x', 'n', 'o', 'r'] {
        Some((192 + Arithmetic::XNOR) as u8)
    } else if w == seq!['a', 'n', 'd'] {
        Some((192 + Arithmetic::AND) as u8)
    } else if w == seq!['n', 'a', 'n', 'd'] {
        Some((192 + Arithmetic::NAND) as u8)
    } else {
        None
    }
}

fn keyword_code(w: &[char]) -> (r: Option<u8>)
    ensures
        r == keyword_byte(w@),
{
    let cond = CONDITIONAL_PREFIX * 64;
    let arith = ARITHMETIC_PREFIX * 64;
    if is_word3(w, 'n', 'o', 'p') {
        Some(cond + Conditional::NOP)
    } else if is_word1(w, 'j') {
        Some(cond + Conditional::JMP)
    } else if is_word3(w, 'j', 'e', 'z') {
        Some(cond + Conditional::JEZ)
    } else if is_word3(w, 'j', 'n', 'z') {
        Some(cond + Conditional::JNZ)
    } else if is_word4(w, 'j', 'g', 'e', 'z') {
        Some(cond + Conditional::JGEZ)
    } else if is_word3(w, 'j', 'g', 'z') {
        Some(cond + Conditional::JGZ)
    } else if is_word4(w, 'j', 'l', 'e', 'z') {
        Some(cond + Conditional::JLEZ)
    } else if is_word3(w, 'j', 'l', 'z') {
        Some(cond + Conditional::JLZ)
    } else if is_word3(w, 'a', 'd', 'd') {
        Some(arith + Arithmetic::ADD)
    } else if is_word3(w, 's', 'u', 'b') {
        Some(arith + Arithmetic::SUB)
    } else if is_word2(w, 'o', 'r') {
        Some(arith + Arithmetic::OR)
    } else if is_word3(w, 'n', 'o', 'r') {
        Some(arith + Arithmetic::NOR)
    } else if is_word3(w, 'x', 'o', 'r') {
        Some(arith + Arithmetic::XOR)
    } else if is_word4(w, 'x', 'n', 'o', 'r') {
        Some(arith + Arithmetic::XNOR)
    } else if is_word3(w, 'a', 'n', 'd') {
        Some(arith + Arithmetic::AND)
    } else if is_word4(w, 'n', 'a', 'n', 'd') {
        Some(arith + Arithmetic::NAND)
    } else {
        None
    }
}

/// Index of the first blank of `s`, or its length when it has none.
pub open spec fn first_blank(s: Seq<char>) -> nat
    decreases s.len(),
{
    if s.len() == 0 || is_blank(s[0]) {
        0
    } else {
        1 + first_blank(s.drop_first())
    }
}

/// A register operand `regN` or `N` (the prefix in any case), N from 0 to 5;
/// `w` is given in lower case.
pub open spec fn register_number(w: Seq<char>) -> Option<u8> {
    let n = if w.len() >= 3 && w.take(3) == seq!['r', 'e', 'g'] { w.skip(3) } else { w };
    match byte_numeral(n) {
        Some(v) => if v <= 5 { Some(v) } else { None },
        None => None,
    }
}

/// The source selector of a move operand.
pub open spec fn source_selector(w: Seq<char>) -> Option<u8> {
    let l = lower_seq(w);
    if l == seq!['i', 'n', 'p', 'u', 't'] || l == seq!['i', 'n'] || l == seq!['i'] {
        Some(FromStore::IN)
    } else {
        register_number(l)
    }
}

/// The destination selector of a move operand.
pub open spec fn destination_selector(w: Seq<char>) -> Option<u8> {
    let l = lower_seq(w);
    if l == seq!['o', 'u', 't', 'p', 'u', 't'] || l == seq!['o', 'u', 't'] || l == seq!['o'] {
        Some(ToStore::OUT)
    } else {
        register_number(l)
    }
}

/// The byte of `mov <from> <to>`, operands separated by blanks.
pub open spec fn move_byte(t: Seq<char>) -> Option<u8> {
    if t.len() > 3 && lower_seq(t.take(3)) == seq!['m', 'o', 'v'] && is_blank(t[3]) {
        let rest = trimmed(t.skip(3));
        let k = first_blank(rest) as int;
        match (source_selector(rest.take(k)), destination_selector(trimmed(rest.skip(k)))) {
            (Some(f), Some(d)) => Some((128 + f * 8 + d) as u8),
            _ => None,
        }
    } else {
        None
    }
}

/// The byte of one instruction, written without surrounding whitespace: a
/// keyword in any case, a literal from 0 to 63, or a move.
pub open spec fn instruction_of(t: Seq<char>) -> Option<u8> {
    if keyword_byte(lower_seq(t)) is Some {
        keyword_byte(lower_seq(t))
    } else if byte_numeral(t) is Some && byte_numeral(t)->Some_0 < 64 {
        byte_numeral(t)
    } else {
        move_byte(t)
    }
}

/// Finds the first blank of `s`.
pub fn find_blank(s: &[char]) -> (r: usize)
    ensures
        r == first_blank(s@),
        r <= s@.len(),
{
    let mut i: usize = 0;
    assert(s@.skip(0) == s@);
    while i < s.len() && !is_blank_char(s[i])
        invariant
            i <= s@.len(),
            first_blank(s@) == i + first_blank(s@.skip(i as int)),
        decreases s@.len() - i,
    {
        assert(s@.skip(i as int).drop_first() == s@.skip(i + 1));
        i = i + 1;
    }
    proof {
        lemma_first_blank_end(s@, i as int);
    }
    i
}

proof fn lemma_first_blank_end(s: Seq<char>, i: int)
    requires
        0 <= i <= s.len(),
        i == s.len() || is_blank(s[i]),
    ensures
        first_blank(s.skip(i)) == 0,
{
}

fn register_of(l: &[char]) -> (r: Option<u8>)
    ensures
        r == register_number(l@),
{
    let n = if l.len() >= 3 && is_word3(&slice_of(l, 0, 3), 'r', 'e', 'g') {
        slice_of(l, 3, l.len())
    } else {
        slice_of(l, 0, l.len())
    };
    assert(l@.subrange(0, 3) == l@.take(3));
    assert(l@.subrange(3, l@.len() as int) == l@.skip(3));
    assert(l@.subrange(0, l@.len() as int) == l@);
    match parse_byte(&n) {
        Some(v) => if v <= 5 { Some(v) } else { None },
        None => None,
    }
}

fn source_of(w: &[char]) -> (r: Option<u8>)
    ensures
        r == source_selector(w@),
{
    let l = to_lower(w);
    if is_word5(&l, 'i', 'n', 'p', 'u', 't') || is_word2(&l, 'i', 'n') || is_word1(&l, 'i') {
        Some(FromStore::IN)
    } else {
        register_of(&l)
    }
}

fn destination_of(w: &[char]) -> (r: Option<u8>)
    ensures
        r == destination_selector(w@),
{
    let l = to_lower(w);
    if is_word6(&l, 'o', 'u', 't', 'p', 'u', 't') || is_word3(&l, 'o', 'u', 't') || is_word1(&l, 'o') {
        Some(ToStore::OUT)
    } else {
        register_of(&l)
    }
}

fn move_of(t: &[char]) -> (r: Option<u8>)
    ensures
        r == move_byte(t@),
{
    if t.len() <= 3 {
        return None;
    }
    let head = slice_of(t, 0, 3);
    assert(t@.subrange(0, 3) == t@.take(3));
    if !is_word3(&to_lower(&head), 'm', 'o', 'v') || !is_blank_char(t[3]) {
        return None;
    }
    let rest = trim(&slice_of(t, 3, t.len()));
    assert(t@.subrange(3, t@.len() as int) == t@.skip(3));
    let k = find_blank(&rest);
    let from = slice_of(&rest, 0, k);
    let to = trim(&slice_of(&rest, k, rest.len()));
    assert(rest@.subrange(0, k as int) == rest@.take(k as int));
    assert(rest@.subrange(k as int, rest@.len() as int) == rest@.skip(k as int));
    match (source_of(&from), destination_of(&to)) {
        (Some(f), Some(d)) => Some(make_instruction(MOVE_PREFIX, f * 8 + d)),
        _ => None,
    }
}

/// Encodes one instruction, given without surrounding whitespace.
pub fn parse_instruction(t: &[char]) -> (r: Option<u8>)
    ensures
        r == instruction_of(t@),
{
    let l = to_lower(t);
    let k = keyword_code(&l);
    if k.is_some() {
        return k;
    }
    let n = parse_byte(t);
    match n {
        Some(v) => if v < 64 {
            return Some(make_instruction(LITERAL_PREFIX, v));
        },
        None => {},
    }
    move_of(t)
}

} // verus!
