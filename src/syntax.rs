//! The source grammar. A source is an input section, a `program:` line, and
//! the program: one action per line, except macro definitions, which run from
//! a `macro name(params)` line to an `end` line. Every item keeps the text it
//! was read from, so that the expander can copy it.
use vstd::prelude::*;

use crate::instruction::{first_blank, find_blank, instruction_of, parse_instruction};
use crate::text::{
    byte_numeral, chars_of, check_name, is_blank, is_blank_char, is_name, is_space, is_space_char, is_word3, is_word5, joined, lower_seq, parse_byte, slice_of, to_lower, trim, trimmed,
};

verus! {

/// What one program item means.
pub enum ActionModel {
    Blank,
    Label { name: Seq<char> },
    Instruction { byte: u8 },
    Reference { name: Seq<char> },
    MacroCall { name: Seq<char>, args: Seq<Seq<char>> },
    MacroDef { name: Seq<char>, params: Seq<Seq<char>>, body: Seq<char> },
    ConstDef { name: Seq<char>, value: Seq<char> },
}

/// One item of the program section.
pub enum Action {
    /// A line of whitespace.
    Blank,
    /// `label name:`
    Label { name: Vec<char> },
    /// An instruction, already encoded.
    Instruction { byte: u8 },
    /// A bare name: a constant or a label.
    Reference { name: Vec<char> },
    /// `name(arg, ...)`
    MacroCall { name: Vec<char>, args: Vec<Vec<char>> },
    /// `macro name(param, ...)`, body lines, `end`.
    MacroDef { name: Vec<char>, params: Vec<Vec<char>>, body: Vec<char> },
    /// `const name value`
    ConstDef { name: Vec<char>, value: Vec<char> },
}

/// The views of a sequence of character vectors.
pub open spec fn views(v: Seq<Vec<char>>) -> Seq<Seq<char>> {
    v.map_values(|w: Vec<char>| w@)
}

impl View for Action {
    type V = ActionModel;

    open spec fn view(&self) -> ActionModel {
        match self {
            Action::Blank => ActionModel::Blank,
            Action::Label { name } => ActionModel::Label { name: name@ },
            Action::Instruction { byte } => ActionModel::Instruction { byte: *byte },
            Action::Reference { name } => ActionModel::Reference { name: name@ },
            Action::MacroCall { name, args } => ActionModel::MacroCall { name: name@, args: views(args@) },
            Action::MacroDef { name, params, body } => ActionModel::MacroDef { name: name@, params: views(params@), body: body@ },
            Action::ConstDef { name, value } => ActionModel::ConstDef { name: name@, value: value@ },
        }
    }
}

/// Index of the first `c` in `s`, or its length.
pub open spec fn first_of(s: Seq<char>, c: char) -> nat
    decreases s.len(),
{
    if s.len() == 0 || s[0] == c {
        0
    } else {
        1 + first_of(s.drop_first(), c)
    }
}

/// The comma-separated fields of `s`; at least one.
pub open spec fn fields(s: Seq<char>) -> Seq<Seq<char>>
    decreases s.len(),
{
    let k = first_of(s, ',') as int;
    if k >= s.len() {
        seq![s]
    } else {
        seq![s.take(k)] + fields(s.skip(k + 1))
    }
}

pub open spec fn trim_all(ws: Seq<Seq<char>>) -> Seq<Seq<char>> {
    ws.map_values(|w: Seq<char>| trimmed(w))
}

/// `name(a, b, ...)`: the name and the trimmed arguments.
pub open spec fn call_of(t: Seq<char>) -> Option<(Seq<char>, Seq<Seq<char>>)> {
    let p = first_of(t, '(') as int;
    if p < t.len() && t.len() >= 2 && t.last() == ')' && is_name(trimmed(t.take(p))) {
        Some((trimmed(t.take(p)), trim_all(fields(t.subrange(p + 1, t.len() - 1)))))
    } else {
        None
    }
}

/// What follows a leading keyword (in any case) and a blank, trimmed.
pub open spec fn after_keyword(t: Seq<char>, kw: Seq<char>) -> Option<Seq<char>> {
    if t.len() > kw.len() && lower_seq(t.take(kw.len() as int)) == kw && is_blank(t[kw.len() as int]) {
        Some(trimmed(t.skip(kw.len() as int)))
    } else {
        None
    }
}

/// `label name:`
pub open spec fn label_of(t: Seq<char>) -> Option<Seq<char>> {
    match after_keyword(t, seq!['l', 'a', 'b', 'e', 'l']) {
        Some(rest) => if rest.len() > 0 && rest.last() == ':' && is_name(trimmed(rest.drop_last())) {
            Some(trimmed(rest.drop_last()))
        } else {
            None
        },
        None => None,
    }
}

/// `const name value`
pub open spec fn const_of(t: Seq<char>) -> Option<(Seq<char>, Seq<char>)> {
    match after_keyword(t, seq!['c', 'o', 'n', 's', 't']) {
        Some(rest) => {
            let k = first_blank(rest) as int;
            if is_name(rest.take(k)) && trimmed(rest.skip(k)).len() > 0 {
                Some((rest.take(k), trimmed(rest.skip(k))))
            } else {
                None
            }
        },
        None => None,
    }
}

/// `macro name(param, ...)`
pub open spec fn macro_header_of(t: Seq<char>) -> Option<(Seq<char>, Seq<Seq<char>>)> {
    match after_keyword(t, seq!['m', 'a', 'c', 'r', 'o']) {
        Some(rest) => call_of(rest),
        None => None,
    }
}

/// The action of a one-line item, given without surrounding whitespace.
pub open spec fn line_action(t: Seq<char>) -> Option<ActionModel> {
    if t.len() == 0 {
        Some(ActionModel::Blank)
    } else if instruction_of(t) is Some {
        Some(ActionModel::Instruction { byte: instruction_of(t)->Some_0 })
    } else if label_of(t) is Some {
        Some(ActionModel::Label { name: label_of(t)->Some_0 })
    } else if const_of(t) is Some {
        Some(ActionModel::ConstDef { name: const_of(t)->Some_0.0, value: const_of(t)->Some_0.1 })
    } else if call_of(t) is Some {
        Some(ActionModel::MacroCall { name: call_of(t)->Some_0.0, args: call_of(t)->Some_0.1 })
    } else if is_name(t) {
        Some(ActionModel::Reference { name: t })
    } else {
        None
    }
}

/// Finds the first `c` in `s`.
pub fn find_char(s: &[char], c: char) -> (r: usize)
    ensures
        r == first_of(s@, c),
        r <= s@.len(),
        r < s@.len() ==> s@[r as int] == c,
{
    let mut i: usize = 0;
    assert(s@.skip(0) == s@);
    while i < s.len() && s[i] != c
        invariant
            i <= s@.len(),
            first_of(s@, c) == i + first_of(s@.skip(i as int), c),
        decreases s@.len() - i,
    {
        assert(s@.skip(i as int).drop_first() == s@.skip(i + 1));
        i = i + 1;
    }
    i
}

/// Splits `s` at its commas and trims each field.
pub fn split_fields(s: &[char]) -> (r: Vec<Vec<char>>)
    ensures
        views(r@) == trim_all(fields(s@)),
{
    let mut r: Vec<Vec<char>> = Vec::new();
    let mut rest = slice_of(s, 0, s.len());
    assert(rest@ == s@.subrange(0, s@.len() as int));
    assert(s@.subrange(0, s@.len() as int) == s@);
    loop
        invariant
            views(r@) + trim_all(fields(rest@)) == trim_all(fields(s@)),
        decreases rest@.len(),
    {
        let k = find_char(&rest, ',');
        if k >= rest.len() {
            let last = trim(&rest);
            let ghost before = r@;
            r.push(last);
            assert(views(r@) == views(before).push(last@));
            assert(trim_all(fields(rest@)) == seq![trimmed(rest@)]);
            assert(views(r@) =~= views(before) + trim_all(fields(rest@)));
            return r;
        }
        let field = trim(&slice_of(&rest, 0, k));
        let next = slice_of(&rest, k + 1, rest.len());
        assert(rest@.subrange(0, k as int) == rest@.take(k as int));
        assert(rest@.subrange(k + 1, rest@.len() as int) == rest@.skip(k + 1));
        let ghost before = r@;
        assert(trim_all(fields(rest@)) =~= seq![field@] + trim_all(fields(next@)));
        r.push(field);
        assert(views(r@) =~= views(before).push(field@));
        assert(views(r@) + trim_all(fields(next@)) =~= views(before) + trim_all(fields(rest@)));
        rest = next;
    }
}

/// Parses `name(a, b, ...)`.
pub fn parse_call(t: &[char]) -> (r: Option<(Vec<char>, Vec<Vec<char>>)>)
    ensures
        match call_of(t@) {
            Some((name, args)) => r is Some && r->Some_0.0@ == name && views(r->Some_0.1@) == args,
            None => r is None,
        },
{
    let p = find_char(t, '(');
    if p >= t.len() || t.len() < 2 || t[t.len() - 1] != ')' {
        return None;
    }
    let name = trim(&slice_of(t, 0, p));
    assert(t@.subrange(0, p as int) == t@.take(p as int));
    if !check_name(&name) {
        return None;
    }
    let args = split_fields(&slice_of(t, p + 1, t.len() - 1));
    Some((name, args))
}

/// What follows a five-letter keyword (in any case) and a blank.
fn after_word5(t: &[char], a: char, b: char, c: char, d: char, e: char) -> (r: Option<Vec<char>>)
    ensures
        match after_keyword(t@, seq![a, b, c, d, e]) {
            Some(rest) => r is Some && r->Some_0@ == rest,
            None => r is None,
        },
{
    if t.len() <= 5 {
        return None;
    }
    let head = to_lower(&slice_of(t, 0, 5));
    assert(t@.subrange(0, 5) == t@.take(5));
    if !is_word5(&head, a, b, c, d, e) || !is_blank_char(t[5]) {
        return None;
    }
    assert(t@.subrange(5, t@.len() as int) == t@.skip(5));
    Some(trim(&slice_of(t, 5, t.len())))
}

/// Reads the header line of a macro definition.
pub fn parse_macro_header(t: &[char]) -> (r: Option<(Vec<char>, Vec<Vec<char>>)>)
    ensures
        match macro_header_of(t@) {
            Some((name, params)) => r is Some && r->Some_0.0@ == name && views(r->Some_0.1@) == params,
            None => r is None,
        },
{
    match after_word5(t, 'm', 'a', 'c', 'r', 'o') {
        Some(rest) => parse_call(&rest),
        None => None,
    }
}

fn parse_label(t: &[char]) -> (r: Option<Vec<char>>)
    ensures
        match label_of(t@) {
            Some(name) => r is Some && r->Some_0@ == name,
            None => r is None,
        },
{
    match after_word5(t, 'l', 'a', 'b', 'e', 'l') {
        Some(rest) => {
            if rest.len() == 0 || rest[rest.len() - 1] != ':' {
                return None;
            }
            let name = trim(&slice_of(&rest, 0, rest.len() - 1));
            assert(rest@.subrange(0, rest@.len() - 1) == rest@.drop_last());
            if check_name(&name) {
                Some(name)
            } else {
                None
            }
        },
        None => None,
    }
}

fn parse_const(t: &[char]) -> (r: Option<(Vec<char>, Vec<char>)>)
    ensures
        match const_of(t@) {
            Some((name, value)) => r is Some && r->Some_0.0@ == name && r->Some_0.1@ == value,
            None => r is None,
        },
{
    match after_word5(t, 'c', 'o', 'n', 's', 't') {
        Some(rest) => {
            let k = find_blank(&rest);
            let name = slice_of(&rest, 0, k);
            let value = trim(&slice_of(&rest, k, rest.len()));
            assert(rest@.subrange(0, k as int) == rest@.take(k as int));
            assert(rest@.subrange(k as int, rest@.len() as int) == rest@.skip(k as int));
            if check_name(&name) && value.len() > 0 {
                Some((name, value))
            } else {
                None
            }
        },
        None => None,
    }
}

/// Reads a one-line item, given without surrounding whitespace.
pub fn classify_line(t: &[char]) -> (r: Option<Action>)
    ensures
        match line_action(t@) {
            Some(a) => r is Some && r->Some_0@ == a,
            None => r is None,
        },
{
    if t.len() == 0 {
        return Some(Action::Blank);
    }
    match parse_instruction(t) {
        Some(byte) => return Some(Action::Instruction { byte }),
        None => {},
    }
    match parse_label(t) {
        Some(name) => return Some(Action::Label { name }),
        None => {},
    }
    match parse_const(t) {
        Some((name, value)) => return Some(Action::ConstDef { name, value }),
        None => {},
    }
    match parse_call(t) {
        Some((name, args)) => return Some(Action::MacroCall { name, args }),
        None => {},
    }
    assert(t@.subrange(0, t@.len() as int) == t@);
    if check_name(t) {
        Some(Action::Reference { name: slice_of(t, 0, t.len()) })
    } else {
        None
    }
}

/// Index of the first whitespace character of `s`, or its length.
pub open spec fn first_space(s: Seq<char>) -> nat
    decreases s.len(),
{
    if s.len() == 0 || is_space(s[0]) {
        0
    } else {
        1 + first_space(s.drop_first())
    }
}

proof fn lemma_first_space_bound(s: Seq<char>)
    ensures
        first_space(s) <= s.len(),
        s.len() > 0 && !is_space(s[0]) ==> first_space(s) >= 1,
    decreases s.len(),
{
    if s.len() > 0 && !is_space(s[0]) {
        lemma_first_space_bound(s.drop_first());
    }
}

/// The whitespace-separated words of `s`.
pub open spec fn words(s: Seq<char>) -> Seq<Seq<char>>
    decreases s.len(),
{
    if s.len() == 0 {
        seq![]
    } else if is_space(s[0]) {
        words(s.drop_first())
    } else {
        // `k` is at least 1 here, as `s[0]` is no space; the test lets the
        // recursion be seen to shrink.
        let k = first_space(s) as int;
        if 1 <= k <= s.len() {
            seq![s.take(k)] + words(s.skip(k))
        } else {
            seq![s]
        }
    }
}

/// One input byte: a quoted character (its code point taken modulo 256), or a
/// numeral up to 255.
pub open spec fn input_byte(w: Seq<char>) -> Option<u8> {
    if w.len() == 3 && w[0] == '\'' && w[2] == '\'' {
        Some(((w[1] as u32) % 256) as u8)
    } else {
        byte_numeral(w)
    }
}

/// The bytes of the input section's words from index `i` on; a word that
/// ends in `:` names the section and is skipped. The first word that is no
/// byte is an error.
pub open spec fn input_from(ws: Seq<Seq<char>>, i: int) -> Result<Seq<u8>, SyntaxError>
    decreases ws.len() - i,
{
    if i >= ws.len() || i < 0 {
        Ok(seq![])
    } else {
        let w = ws[i];
        if w.len() > 0 && w.last() == ':' {
            input_from(ws, i + 1)
        } else {
            match input_byte(w) {
                None => Err(SyntaxError::BadInput { word: i as usize }),
                Some(b) => match input_from(ws, i + 1) {
                    Ok(v) => Ok(seq![b] + v),
                    Err(e) => Err(e),
                },
            }
        }
    }
}

/// Whether a line is the `program:` marker.
pub open spec fn is_marker(line: Seq<char>) -> bool {
    lower_seq(trimmed(line)) == seq!['p', 'r', 'o', 'g', 'r', 'a', 'm', ':']
}

/// Whether a line closes a macro definition.
pub open spec fn is_end(line: Seq<char>) -> bool {
    lower_seq(trimmed(line)) == seq!['e', 'n', 'd']
}

/// Appends `src` to `dst`.
pub fn append_chars(dst: &mut Vec<char>, src: &[char])
    ensures
        final(dst)@ == old(dst)@ + src@,
{
    let mut i: usize = 0;
    while i < src.len()
        invariant
            i <= src@.len(),
            dst@ == old(dst)@ + src@.take(i as int),
        decreases src@.len() - i,
    {
        dst.push(src[i]);
        assert(src@.take(i + 1) == src@.take(i as int).push(src@[i as int]));
        i = i + 1;
    }
    assert(src@.take(src@.len() as int) == src@);
}

/// The lines of `s`, each with its line break but the last.
pub open spec fn lines_of(s: Seq<char>) -> Seq<Seq<char>>
    decreases s.len(),
{
    if s.len() == 0 {
        seq![]
    } else {
        let k = first_of(s, '\n') as int;
        if k >= s.len() {
            seq![s]
        } else {
            seq![s.take(k + 1)] + lines_of(s.skip(k + 1))
        }
    }
}

proof fn lemma_first_of(x: Seq<char>, c: char, k: int)
    requires
        0 <= k <= x.len(),
        forall|j: int| 0 <= j < k ==> x[j] != c,
        k == x.len() || x[k] == c,
    ensures
        first_of(x, c) == k,
    decreases k,
{
    if k > 0 {
        lemma_first_of(x.drop_first(), c, k - 1);
    }
}

/// Splits `s` into lines, each with its line break but the last.
pub fn split_lines(s: &[char]) -> (r: Vec<Vec<char>>)
    ensures
        views(r@) == lines_of(s@),
{
    let mut r: Vec<Vec<char>> = Vec::new();
    let mut start: usize = 0;
    let mut i: usize = 0;
    assert(s@.skip(0) == s@);
    while i < s.len()
        invariant
            start <= i <= s@.len(),
            views(r@) + lines_of(s@.skip(start as int)) == lines_of(s@),
            forall|j: int| start <= j < i ==> s@[j] != '\n',
        decreases s@.len() - i,
    {
        if s[i] == '\n' {
            let ghost rest = s@.skip(start as int);
            proof {
                lemma_first_of(rest, '\n', i - start);
            }
            let line = slice_of(s, start, i + 1);
            assert(line@ == rest.take(i - start + 1));
            assert(rest.skip(i - start + 1) == s@.skip(i + 1));
            let ghost before = r@;
            r.push(line);
            assert(views(r@) == views(before).push(line@));
            assert(views(r@) + lines_of(s@.skip(i + 1)) =~= views(before) + lines_of(rest));
            start = i + 1;
        }
        i = i + 1;
    }
    if start < s.len() {
        let ghost rest = s@.skip(start as int);
        proof {
            lemma_first_of(rest, '\n', rest.len() as int);
        }
        let line = slice_of(s, start, s.len());
        assert(line@ == rest);
        let ghost before = r@;
        r.push(line);
        assert(views(r@) == views(before).push(line@));
        assert(views(r@) =~= views(before) + lines_of(rest));
    } else {
        assert(s@.skip(start as int).len() == 0);
        assert(views(r@) + lines_of(s@.skip(start as int)) =~= views(r@));
    }
    r
}

/// Splits `s` at whitespace.
pub fn split_words(s: &[char]) -> (r: Vec<Vec<char>>)
    ensures
        views(r@) == words(s@),
{
    let mut r: Vec<Vec<char>> = Vec::new();
    let mut i: usize = 0;
    assert(s@.skip(0) == s@);
    while i < s.len()
        invariant
            i <= s@.len(),
            views(r@) + words(s@.skip(i as int)) == words(s@),
        decreases s@.len() - i,
    {
        let ghost rest = s@.skip(i as int);
        if is_space_char(s[i]) {
            assert(rest.drop_first() == s@.skip(i + 1));
            i = i + 1;
        } else {
            let mut k: usize = i;
            assert(first_space(rest) == 0 + first_space(s@.skip(i as int)));
            while k < s.len() && !is_space_char(s[k])
                invariant
                    i <= k <= s@.len(),
                    rest == s@.skip(i as int),
                    first_space(rest) == (k - i) + first_space(s@.skip(k as int)),
                decreases s@.len() - k,
            {
                assert(s@.skip(k as int).drop_first() == s@.skip(k + 1));
                k = k + 1;
            }
            assert(first_space(s@.skip(k as int)) == 0);
            proof {
                lemma_first_space_bound(rest);
            }
            let w = slice_of(s, i, k);
            assert(rest.take(k - i) == s@.subrange(i as int, k as int));
            assert(rest.skip(k - i) == s@.skip(k as int));
            let ghost before = r@;
            r.push(w);
            assert(views(r@) == views(before).push(w@));
            assert(words(rest) == seq![w@] + words(s@.skip(k as int)));
            assert(views(r@) + words(s@.skip(k as int)) =~= views(before) + words(rest));
            i = k;
        }
    }
    assert(s@.skip(i as int) == Seq::<char>::empty());
    assert(views(r@) + words(s@.skip(i as int)) == views(r@));
    r
}

fn parse_input_byte(w: &[char]) -> (r: Option<u8>)
    ensures
        r == input_byte(w@),
{
    if w.len() == 3 && w[0] == '\'' && w[2] == '\'' {
        Some(((w[1] as u32) % 256) as u8)
    } else {
        parse_byte(w)
    }
}

/// Why a source could not be read.
#[derive(Debug, Clone, Copy, PartialEq, Eq, Structural)]
pub enum SyntaxError {
    /// No `program:` line.
    MissingProgram,
    /// The input word at this index (counted over the input section's words)
    /// is not a byte.
    BadInput { word: usize },
    /// The line at this index (counted from 0) is no action.
    BadAction { line: usize },
    /// The macro definition that starts at this line has no `end` line.
    UnterminatedMacro { line: usize },
}

/// Reads the input section.
pub fn parse_inputs(s: &[char]) -> (r: Result<Vec<u8>, SyntaxError>)
    ensures
        match input_from(words(s@), 0) {
            Ok(v) => r is Ok && r->Ok_0@ == v,
            Err(e) => r == Err::<Vec<u8>, SyntaxError>(e),
        },
{
    let ws = split_words(s);
    let ghost wv = views(ws@);
    let mut out: Vec<u8> = Vec::new();
    let mut i: usize = 0;
    while i < ws.len()
        invariant
            i <= ws@.len(),
            wv == views(ws@),
            wv == words(s@),
            input_from(wv, 0) == match input_from(wv, i as int) {
                Ok(v) => Ok(out@ + v),
                Err(e) => Err::<Seq<u8>, SyntaxError>(e),
            },
        decreases ws@.len() - i,
    {
        let w = ws[i].as_slice();
        assert(wv[i as int] == w@);
        if w.len() > 0 && w[w.len() - 1] == ':' {
        } else {
            match parse_input_byte(w) {
                Some(b) => {
                    let ghost before = out@;
                    out.push(b);
                    proof {
                        match input_from(wv, i as int + 1) {
                            Ok(v) => assert(before + (seq![b] + v) =~= out@ + v),
                            Err(e) => {},
                        }
                    }
                },
                None => {
                    return Err(SyntaxError::BadInput { word: i });
                },
            }
        }
        i = i + 1;
    }
    assert(out@ + Seq::<u8>::empty() =~= out@);
    Ok(out)
}

/// One item of the program section and the text it was read from.
pub struct Item {
    pub action: Action,
    pub text: Vec<char>,
}

/// A source read into its parts.
pub struct SourceTree {
    /// The input section and the `program:` line, as written.
    pub header: Vec<char>,
    /// The bytes of the input section.
    pub inputs: Vec<u8>,
    pub items: Vec<Item>,
}

pub open spec fn item_texts(items: Seq<Item>) -> Seq<Seq<char>> {
    items.map_values(|it: Item| it.text@)
}

pub open spec fn item_actions(items: Seq<Item>) -> Seq<ActionModel> {
    items.map_values(|it: Item| it.action@)
}

/// An item as a pair of its action and its text.
pub open spec fn item_models(items: Seq<Item>) -> Seq<(ActionModel, Seq<char>)> {
    items.map_values(|it: Item| (it.action@, it.text@))
}

pub open spec fn actions_of(its: Seq<(ActionModel, Seq<char>)>) -> Seq<ActionModel> {
    its.map_values(|p: (ActionModel, Seq<char>)| p.0)
}

pub open spec fn texts_of(its: Seq<(ActionModel, Seq<char>)>) -> Seq<Seq<char>> {
    its.map_values(|p: (ActionModel, Seq<char>)| p.1)
}

/// The index of the first `program:` line at or after `i`, or the number of
/// lines.
pub open spec fn marker_line(ls: Seq<Seq<char>>, i: int) -> int
    decreases ls.len() - i,
{
    if i >= ls.len() || i < 0 {
        ls.len() as int
    } else if is_marker(ls[i]) {
        i
    } else {
        marker_line(ls, i + 1)
    }
}

/// The index of the first `end` line at or after `i`, or the number of lines.
pub open spec fn end_line(ls: Seq<Seq<char>>, i: int) -> int
    decreases ls.len() - i,
{
    if i >= ls.len() || i < 0 {
        ls.len() as int
    } else if is_end(ls[i]) {
        i
    } else {
        end_line(ls, i + 1)
    }
}

/// `done` followed by the items of `r`, or the error of `r`.
pub open spec fn after<T>(done: Seq<T>, r: Result<Seq<T>, SyntaxError>) -> Result<Seq<T>, SyntaxError> {
    match r {
        Ok(rest) => Ok(done + rest),
        Err(e) => Err(e),
    }
}

/// The items of the program lines from line `j` on. A `macro` header line
/// opens a definition that runs to the next `end` line; every other line is
/// one item.
pub open spec fn program_items(ls: Seq<Seq<char>>, j: int) -> Result<Seq<(ActionModel, Seq<char>)>, SyntaxError>
    decreases ls.len() - j,
{
    if j >= ls.len() || j < 0 {
        Ok(seq![])
    } else {
        match macro_header_of(trimmed(ls[j])) {
            Some((name, params)) => {
                let k = end_line(ls, j + 1);
                if k >= ls.len() || k <= j {
                    Err(SyntaxError::UnterminatedMacro { line: j as usize })
                } else {
                    let body = joined(ls.subrange(j + 1, k));
                    let item = (ActionModel::MacroDef { name, params, body }, ls[j] + body + ls[k]);
                    after(seq![item], program_items(ls, k + 1))
                }
            },
            None => match line_action(trimmed(ls[j])) {
                Some(a) => after(seq![(a, ls[j])], program_items(ls, j + 1)),
                None => Err(SyntaxError::BadAction { line: j as usize }),
            },
        }
    }
}

/// What a source text reads as: the header (input section and `program:`
/// line), the input bytes, and the program items with their texts.
pub open spec fn source_spec(text: Seq<char>) -> Result<(Seq<char>, Seq<u8>, Seq<(ActionModel, Seq<char>)>), SyntaxError> {
    let ls = lines_of(text);
    let m = marker_line(ls, 0);
    if m >= ls.len() {
        Err(SyntaxError::MissingProgram)
    } else {
        match input_from(words(joined(ls.take(m))), 0) {
            Err(e) => Err(e),
            Ok(inputs) => match program_items(ls, m + 1) {
                Err(e) => Err(e),
                Ok(its) => Ok((joined(ls.take(m + 1)), inputs, its)),
            },
        }
    }
}

/// The parts of a tree as values.
pub open spec fn tree_view(t: SourceTree) -> (Seq<char>, Seq<u8>, Seq<(ActionModel, Seq<char>)>) {
    (t.header@, t.inputs@, item_models(t.items@))
}

proof fn lemma_joined_concat(x: Seq<Seq<char>>, y: Seq<Seq<char>>)
    ensures
        joined(x + y) == joined(x) + joined(y),
    decreases y.len(),
{
    if y.len() == 0 {
        assert(x + y =~= x);
        assert(joined(x) + joined(y) =~= joined(x));
    } else {
        assert((x + y).drop_last() =~= x + y.drop_last());
        lemma_joined_concat(x, y.drop_last());
        assert(joined(x) + joined(y.drop_last()) + y.last() =~= joined(x) + (joined(y.drop_last()) + y.last()));
    }
}

proof fn lemma_joined_one(x: Seq<char>)
    ensures
        joined(seq![x]) == x,
{
    let one = seq![x];
    assert(one.len() == 1 && one.last() == x);
    assert(one.drop_last().len() == 0);
    assert(joined(one.drop_last()) == Seq::<char>::empty());
    assert(joined(one) == joined(one.drop_last()) + x);
    assert(joined(one) =~= x);
}

/// The lines of a text, put back together, are the text.
pub proof fn lemma_lines_joined(s: Seq<char>)
    ensures
        joined(lines_of(s)) == s,
    decreases s.len(),
{
    if s.len() > 0 {
        let k = first_of(s, '\n') as int;
        lemma_first_of_bound(s, '\n');
        if k >= s.len() {
            lemma_joined_one(s);
        } else {
            lemma_lines_joined(s.skip(k + 1));
            lemma_joined_concat(seq![s.take(k + 1)], lines_of(s.skip(k + 1)));
            lemma_joined_one(s.take(k + 1));
            assert(s.take(k + 1) + s.skip(k + 1) =~= s);
        }
    }
}

proof fn lemma_first_of_bound(s: Seq<char>, c: char)
    ensures
        first_of(s, c) <= s.len(),
    decreases s.len(),
{
    if s.len() > 0 && s[0] != c {
        lemma_first_of_bound(s.drop_first(), c);
    }
}

proof fn lemma_end_line_bound(ls: Seq<Seq<char>>, i: int)
    ensures
        i <= ls.len() ==> i <= end_line(ls, i) <= ls.len(),
        end_line(ls, i) < ls.len() ==> is_end(ls[end_line(ls, i) as int]),
    decreases ls.len() - i,
{
    if i < ls.len() && !is_end(ls[i]) {
        lemma_end_line_bound(ls, i + 1);
    }
}

proof fn lemma_marker_line_bound(ls: Seq<Seq<char>>, i: int)
    ensures
        i <= ls.len() ==> i <= marker_line(ls, i) <= ls.len(),
    decreases ls.len() - i,
{
    if i < ls.len() && !is_marker(ls[i]) {
        lemma_marker_line_bound(ls, i + 1);
    }
}

proof fn lemma_macro_item_joined(ls: Seq<Seq<char>>, j: int, k: int, rest: Seq<(ActionModel, Seq<char>)>, t0: Seq<char>, body: Seq<char>)
    requires
        0 <= j < k < ls.len(),
        body == joined(ls.subrange(j + 1, k)),
        t0 == ls[j] + body + ls[k],
        joined(texts_of(rest)) == joined(ls.skip(k + 1)),
    ensures
        joined(seq![t0] + texts_of(rest)) == joined(ls.skip(j)),
{
    lemma_joined_concat(seq![t0], texts_of(rest));
    lemma_joined_one(t0);
    let a = seq![ls[j]];
    let m = ls.subrange(j + 1, k);
    let c = seq![ls[k]];
    assert(ls.skip(j) =~= a + m + c + ls.skip(k + 1));
    lemma_joined_concat(a + m + c, ls.skip(k + 1));
    lemma_joined_concat(a + m, c);
    lemma_joined_concat(a, m);
    lemma_joined_one(ls[j]);
    lemma_joined_one(ls[k]);
    assert(ls[j] + body + ls[k] + joined(ls.skip(k + 1)) =~= joined(seq![t0]) + joined(texts_of(rest)));
}

proof fn lemma_line_item_joined(ls: Seq<Seq<char>>, j: int, rest: Seq<(ActionModel, Seq<char>)>)
    requires
        0 <= j < ls.len(),
        joined(texts_of(rest)) == joined(ls.skip(j + 1)),
    ensures
        joined(seq![ls[j]] + texts_of(rest)) == joined(ls.skip(j)),
{
    lemma_joined_concat(seq![ls[j]], texts_of(rest));
    assert(ls.skip(j) =~= seq![ls[j]] + ls.skip(j + 1));
    lemma_joined_concat(seq![ls[j]], ls.skip(j + 1));
}

/// The items of the program lines from line `j` on, put back together, are
/// those lines.
pub proof fn lemma_items_joined(ls: Seq<Seq<char>>, j: int)
    requires
        0 <= j <= ls.len(),
        program_items(ls, j) is Ok,
    ensures
        joined(texts_of(program_items(ls, j)->Ok_0)) == joined(ls.skip(j)),
    decreases ls.len() - j,
{
    if j < ls.len() {
        let its = program_items(ls, j)->Ok_0;
        if macro_header_of(trimmed(ls[j])) is Some {
            let (name, params) = macro_header_of(trimmed(ls[j]))->Some_0;
            let k = end_line(ls, j + 1);
            lemma_end_line_bound(ls, j + 1);
            assert(j < k < ls.len());
            let body = joined(ls.subrange(j + 1, k));
            let t0 = ls[j] + body + ls[k];
            let rest = program_items(ls, k + 1)->Ok_0;
            lemma_items_joined(ls, k + 1);
            assert(its == seq![(ActionModel::MacroDef { name, params, body }, t0)] + rest);
            assert(texts_of(its) =~= seq![t0] + texts_of(rest));
            lemma_macro_item_joined(ls, j, k, rest, t0, body);
        } else {
            let rest = program_items(ls, j + 1)->Ok_0;
            lemma_items_joined(ls, j + 1);
            assert(texts_of(its) =~= seq![ls[j]] + texts_of(rest));
            lemma_line_item_joined(ls, j, rest);
        }
    } else {
        assert(ls.skip(j) =~= Seq::<Seq<char>>::empty());
        assert(texts_of(program_items(ls, j)->Ok_0) =~= Seq::<Seq<char>>::empty());
    }
}

/// A source that reads is its header followed by its items' texts.
pub proof fn lemma_source_joined(text: Seq<char>)
    requires
        source_spec(text) is Ok,
    ensures
        source_spec(text)->Ok_0.0 + joined(texts_of(source_spec(text)->Ok_0.2)) == text,
{
    let ls = lines_of(text);
    let m = marker_line(ls, 0);
    lemma_marker_line_bound(ls, 0);
    lemma_items_joined(ls, m + 1);
    lemma_lines_joined(text);
    assert(ls =~= ls.take(m + 1) + ls.skip(m + 1));
    lemma_joined_concat(ls.take(m + 1), ls.skip(m + 1));
}

fn is_marker_line(line: &[char]) -> (r: bool)
    ensures
        r == is_marker(line@),
{
    let l = to_lower(&trim(line));
    l.len() == 8 && l[0] == 'p' && l[1] == 'r' && l[2] == 'o' && l[3] == 'g' && l[4] == 'r' && l[5] == 'a' && l[6] == 'm' && l[7] == ':' && {
        assert(l@ =~= seq!['p', 'r', 'o', 'g', 'r', 'a', 'm', ':']);
        true
    }
}

fn is_end_line(line: &[char]) -> (r: bool)
    ensures
        r == is_end(line@),
{
    is_word3(&to_lower(&trim(line)), 'e', 'n', 'd')
}

/// Reads a source text.
#[verifier::rlimit(80)]
pub fn parse_source(text: &[char]) -> (r: Result<SourceTree, SyntaxError>)
    ensures
        match source_spec(text@) {
            Ok(v) => r is Ok && tree_view(r->Ok_0) == v,
            Err(e) => r == Err::<SourceTree, SyntaxError>(e),
        },
{
    let lines = split_lines(text);
    let ghost ls = views(lines@);
    let n = lines.len();
    let mut pre: Vec<char> = Vec::new();
    let mut m: usize = 0;
    while m < n && !is_marker_line(lines[m].as_slice())
        invariant
            m <= n == lines@.len(),
            ls == views(lines@),
            pre@ == joined(ls.take(m as int)),
            marker_line(ls, 0) == marker_line(ls, m as int),
        decreases n - m,
    {
        assert(ls.take(m + 1).drop_last() == ls.take(m as int));
        append_chars(&mut pre, lines[m].as_slice());
        m = m + 1;
    }
    if m >= n {
        return Err(SyntaxError::MissingProgram);
    }
    assert(marker_line(ls, m as int) == m);
    let inputs = parse_inputs(&pre)?;
    let mut header = slice_of(&pre, 0, pre.len());
    assert(pre@.subrange(0, pre@.len() as int) == pre@);
    append_chars(&mut header, lines[m].as_slice());
    assert(ls.take(m + 1).drop_last() == ls.take(m as int));
    let mut items: Vec<Item> = Vec::new();
    let mut j: usize = m + 1;
    assert(item_models(items@) =~= Seq::<(ActionModel, Seq<char>)>::empty());
    assert(after(item_models(items@), program_items(ls, j as int)) == program_items(ls, j as int)) by {
        match program_items(ls, j as int) {
            Ok(rest) => assert(Seq::<(ActionModel, Seq<char>)>::empty() + rest =~= rest),
            Err(e) => {},
        }
    }
    while j < n
        invariant
            m < j <= n == lines@.len(),
            ls == views(lines@),
            ls == lines_of(text@),
            marker_line(ls, 0) == m,
            input_from(words(joined(ls.take(m as int))), 0) == Ok::<Seq<u8>, SyntaxError>(inputs@),
            header@ == joined(ls.take(m + 1)),
            program_items(ls, m + 1) == after(item_models(items@), program_items(ls, j as int)),
        decreases n - j,
    {
        let line = lines[j].as_slice();
        assert(line@ == ls[j as int]);
        let t = trim(line);
        let ghost before = item_models(items@);
        match parse_macro_header(&t) {
            Some((name, params)) => {
                let mut body: Vec<char> = Vec::new();
                let mut k: usize = j + 1;
                assert(ls.subrange(j + 1, k as int) =~= Seq::<Seq<char>>::empty());
                while k < n && !is_end_line(lines[k].as_slice())
                    invariant
                        j < k <= n == lines@.len(),
                        ls == views(lines@),
                        body@ == joined(ls.subrange(j + 1, k as int)),
                        end_line(ls, j as int + 1) == end_line(ls, k as int),
                    decreases n - k,
                {
                    assert(ls.subrange(j + 1, k + 1).drop_last() == ls.subrange(j + 1, k as int));
                    append_chars(&mut body, lines[k].as_slice());
                    k = k + 1;
                }
                if k >= n {
                    proof {
                        lemma_end_line_bound(ls, j as int + 1);
                    }
                    assert(program_items(ls, j as int) == Err::<Seq<(ActionModel, Seq<char>)>, SyntaxError>(SyntaxError::UnterminatedMacro { line: j }));
                    return Err(SyntaxError::UnterminatedMacro { line: j });
                }
                assert(end_line(ls, k as int) == k);
                assert(line@ == ls[j as int]);
                let mut item_text = slice_of(line, 0, line.len());
                assert(line@.subrange(0, line@.len() as int) == line@);
                append_chars(&mut item_text, &body);
                append_chars(&mut item_text, lines[k].as_slice());
                let it = Item { action: Action::MacroDef { name, params, body }, text: item_text };
                let ghost model = (it.action@, it.text@);
                items.push(it);
                proof {
                    assert(item_models(items@) =~= before.push(model));
                    match program_items(ls, k as int + 1) {
                        Ok(rest) => assert(before + (seq![model] + rest) =~= before.push(model) + rest),
                        Err(e) => {},
                    }
                }
                j = k + 1;
            },
            None => {
                match classify_line(&t) {
                    Some(action) => {
                        let it = Item { action, text: slice_of(line, 0, line.len()) };
                        assert(line@.subrange(0, line@.len() as int) == line@);
                        let ghost model = (it.action@, it.text@);
                        items.push(it);
                        proof {
                            assert(item_models(items@) =~= before.push(model));
                            match program_items(ls, j as int + 1) {
                                Ok(rest) => assert(before + (seq![model] + rest) =~= before.push(model) + rest),
                                Err(e) => {},
                            }
                        }
                        j = j + 1;
                    },
                    None => {
                        assert(program_items(ls, j as int) == Err::<Seq<(ActionModel, Seq<char>)>, SyntaxError>(SyntaxError::BadAction { line: j }));
                        return Err(SyntaxError::BadAction { line: j });
                    },
                }
            },
        }
    }
    assert(item_models(items@) + Seq::<(ActionModel, Seq<char>)>::empty() =~= item_models(items@));
    let tree = SourceTree { header, inputs, items };
    Ok(tree)
}

/// Reads a source text into its tree.
pub fn lex(program: &str) -> (r: Result<SourceTree, SyntaxError>)
    ensures
        match source_spec(program@) {
            Ok(v) => r is Ok && tree_view(r->Ok_0) == v,
            Err(e) => r == Err::<SourceTree, SyntaxError>(e),
        },
{
    let text = chars_of(program);
    parse_source(text.as_slice())
}

} // verus!
