//! Macro and constant expansion: rounds of textual substitution, each on a
//! fresh parse of the previous round's text, until a round substitutes
//! nothing.
use vstd::prelude::*;

use crate::syntax::{
    actions_of, append_chars, item_actions, item_models, item_texts, lemma_source_joined, parse_source, source_spec, texts_of, views,
    Action, ActionModel, Item, SourceTree, SyntaxError,
};
use crate::text::{chars_of, joined, same_chars, slice_of, string_of, trimmed};

verus! {

/// Rounds after which expansion gives up.
pub const MAX_DEPTH: usize = 100;

/// Why a source could not be expanded.
#[derive(Debug, Clone, Copy, PartialEq, Eq, Structural)]
pub enum ExpandError {
    /// A round's text could not be read.
    Syntax(SyntaxError),
    /// The call at this item names no macro of its round or an earlier one.
    UndefinedMacro { item: usize },
    /// The call at this item has a different number of (non-blank) arguments
    /// than its macro has parameters.
    ArgumentCount { item: usize, expected: usize, provided: usize },
    /// Expansion did not settle within this many rounds.
    DepthExceeded { limit: usize },
}

/// The index of the first pattern, from `i` on in list order, that `text`
/// starts with.
pub open spec fn first_match(text: Seq<char>, patterns: Seq<Seq<char>>, i: int) -> Option<int>
    decreases patterns.len() - i,
{
    if i < 0 || i >= patterns.len() {
        None
    } else if patterns[i].len() <= text.len() && text.take(patterns[i].len() as int) == patterns[i] {
        Some(i)
    } else {
        first_match(text, patterns, i + 1)
    }
}

/// Leftmost-first replacement in one pass: scanning from the left, where some
/// (non-empty) pattern starts, the first such pattern in list order is
/// replaced by the replacement of the same index and the scan goes on after
/// it; any other character is kept.
pub open spec fn replaced(text: Seq<char>, patterns: Seq<Seq<char>>, replacements: Seq<Seq<char>>) -> Seq<char>
    decreases text.len(),
{
    if text.len() == 0 {
        seq![]
    } else {
        match first_match(text, patterns, 0) {
            Some(k) => if 0 <= k < patterns.len() && 0 < patterns[k].len() <= text.len() && k < replacements.len() {
                replacements[k] + replaced(text.skip(patterns[k].len() as int), patterns, replacements)
            } else {
                seq![text[0]] + replaced(text.skip(1), patterns, replacements)
            },
            None => seq![text[0]] + replaced(text.skip(1), patterns, replacements),
        }
    }
}

/// Whether `p` occurs in `text` at index `i`.
pub open spec fn occurs_at(text: Seq<char>, p: Seq<char>, i: int) -> bool {
    0 <= i && i + p.len() <= text.len() && text.subrange(i, i + p.len()) == p
}

proof fn lemma_no_first_match(text: Seq<char>, patterns: Seq<Seq<char>>, j: int)
    requires
        forall|k: int| 0 <= k < patterns.len() ==> !(#[trigger] occurs_at(text, patterns[k], 0)),
    ensures
        first_match(text, patterns, j) is None,
    decreases patterns.len() - j,
{
    if 0 <= j < patterns.len() {
        assert(!occurs_at(text, patterns[j], 0));
        assert(patterns[j].len() <= text.len() ==> text.take(patterns[j].len() as int) == text.subrange(0, patterns[j].len() as int));
        lemma_no_first_match(text, patterns, j + 1);
    }
}

/// Replacement leaves a text in which no pattern occurs as it is: only
/// occurrences of patterns are ever replaced.
pub proof fn lemma_replace_keeps_plain_text(text: Seq<char>, patterns: Seq<Seq<char>>, replacements: Seq<Seq<char>>)
    requires
        forall|i: int, k: int| 0 <= k < patterns.len() ==> !(#[trigger] occurs_at(text, patterns[k], i)),
    ensures
        replaced(text, patterns, replacements) == text,
    decreases text.len(),
{
    if text.len() > 0 {
        lemma_no_first_match(text, patterns, 0);
        let rest = text.skip(1);
        assert forall|i: int, k: int| 0 <= k < patterns.len() implies !(#[trigger] occurs_at(rest, patterns[k], i)) by {
            if occurs_at(rest, patterns[k], i) {
                assert(text.subrange(i + 1, i + 1 + patterns[k].len()) == rest.subrange(i, i + patterns[k].len()));
                assert(occurs_at(text, patterns[k], i + 1));
            }
        }
        lemma_replace_keeps_plain_text(rest, patterns, replacements);
        assert(seq![text[0]] + rest =~= text);
    }
}

/// Relies on aho_corasick 0.7's `AhoCorasickBuilder` with
/// `MatchKind::LeftmostFirst` and `AhoCorasick::replace_all`: the
/// non-overlapping leftmost matches, each the earliest-listed pattern among
/// those that match at its start, are replaced by the replacement of the same
/// index, and other text is copied. A UTF-8 pattern can only match at
/// character boundaries, so this reads the same over characters. `replace_all` panics unless there is one replacement per pattern,
/// and an empty pattern would split a multi-byte character.
#[verifier::external_body]
fn replace_all(text: &[char], patterns: &Vec<Vec<char>>, replacements: &Vec<Vec<char>>) -> (r: Vec<char>)
    requires
        patterns@.len() == replacements@.len(),
        forall|i: int| 0 <= i < patterns@.len() ==> patterns@[i]@.len() > 0,
    ensures
        r@ == replaced(text@, views(patterns@), views(replacements@)),
{
    let pats: Vec<String> = patterns.iter().map(|p| p.iter().collect()).collect();
    let reps: Vec<String> = replacements.iter().map(|p| p.iter().collect()).collect();
    let ac = aho_corasick::AhoCorasickBuilder::new()
        .match_kind(aho_corasick::MatchKind::LeftmostFirst)
        .auto_configure(&pats)
        .build(&pats);
    ac.replace_all(&text.iter().collect::<String>(), &reps).chars().collect()
}

/// The words that are not blank.
pub open spec fn nonblank(ws: Seq<Seq<char>>) -> Seq<Seq<char>>
    decreases ws.len(),
{
    if ws.len() == 0 {
        seq![]
    } else if trimmed(ws.last()).len() > 0 {
        nonblank(ws.drop_last()).push(ws.last())
    } else {
        nonblank(ws.drop_last())
    }
}

/// The macro definitions of a round, in order: name, parameters, body.
pub open spec fn macro_defs(acts: Seq<ActionModel>) -> Seq<(Seq<char>, Seq<Seq<char>>, Seq<char>)>
    decreases acts.len(),
{
    if acts.len() == 0 {
        seq![]
    } else {
        match acts.last() {
            ActionModel::MacroDef { name, params, body } => macro_defs(acts.drop_last()).push((name, params, body)),
            _ => macro_defs(acts.drop_last()),
        }
    }
}

/// The constant definitions of a round, in order: name, value.
pub open spec fn const_defs(acts: Seq<ActionModel>) -> Seq<(Seq<char>, Seq<char>)>
    decreases acts.len(),
{
    if acts.len() == 0 {
        seq![]
    } else {
        match acts.last() {
            ActionModel::ConstDef { name, value } => const_defs(acts.drop_last()).push((name, value)),
            _ => const_defs(acts.drop_last()),
        }
    }
}

/// The last macro of that name.
pub open spec fn find_macro(defs: Seq<(Seq<char>, Seq<Seq<char>>, Seq<char>)>, name: Seq<char>) -> Option<(Seq<Seq<char>>, Seq<char>)>
    decreases defs.len(),
{
    if defs.len() == 0 {
        None
    } else if defs.last().0 == name {
        Some((defs.last().1, defs.last().2))
    } else {
        find_macro(defs.drop_last(), name)
    }
}

/// The last constant of that name.
pub open spec fn find_const(defs: Seq<(Seq<char>, Seq<char>)>, name: Seq<char>) -> Option<Seq<char>>
    decreases defs.len(),
{
    if defs.len() == 0 {
        None
    } else if defs.last().0 == name {
        Some(defs.last().1)
    } else {
        find_const(defs.drop_last(), name)
    }
}

/// What a call expands to: the body, with each non-blank parameter replaced
/// by the non-blank argument of the same index when there are any.
pub open spec fn call_text(params: Seq<Seq<char>>, args: Seq<Seq<char>>, body: Seq<char>) -> Seq<char> {
    if nonblank(params).len() == 0 {
        body
    } else {
        replaced(body, nonblank(params), nonblank(args))
    }
}

/// One round over the items `acts` (with their texts `texts`), given the
/// macros and constants in force (earlier rounds' and its own): the text it
/// writes, and how many calls and constant references it substituted.
pub open spec fn round_spec(
    acts: Seq<ActionModel>,
    texts: Seq<Seq<char>>,
    macros: Seq<(Seq<char>, Seq<Seq<char>>, Seq<char>)>,
    consts: Seq<(Seq<char>, Seq<char>)>,
) -> Result<(Seq<char>, nat), ExpandError>
    decreases acts.len(),
{
    if acts.len() == 0 || texts.len() != acts.len() {
        Ok((seq![], 0))
    } else {
        let item = (acts.len() - 1) as usize;
        match round_spec(acts.drop_last(), texts.drop_last(), macros, consts) {
            Err(e) => Err(e),
            Ok((out, n)) => match acts.last() {
                ActionModel::MacroCall { name, args } => match find_macro(macros, name) {
                    None => Err(ExpandError::UndefinedMacro { item }),
                    Some((params, body)) => if nonblank(params).len() != nonblank(args).len() {
                        Err(ExpandError::ArgumentCount {
                            item,
                            expected: nonblank(params).len() as usize,
                            provided: nonblank(args).len() as usize,
                        })
                    } else {
                        Ok((out + call_text(params, args, body), n + 1))
                    },
                },
                ActionModel::Reference { name } => match find_const(consts, name) {
                    Some(value) => Ok((out + value.push('\n'), n + 1)),
                    None => Ok((out + texts.last(), n)),
                },
                ActionModel::MacroDef { .. } => Ok((out, n)),
                ActionModel::ConstDef { .. } => Ok((out, n)),
                _ => Ok((out + texts.last(), n)),
            },
        }
    }
}

/// One round on a tree, given the definitions of earlier rounds: the header,
/// then the round's output. The round's own definitions come after the
/// earlier ones, so they win on a shared name.
pub open spec fn tree_round(
    tree: SourceTree,
    macros: Seq<(Seq<char>, Seq<Seq<char>>, Seq<char>)>,
    consts: Seq<(Seq<char>, Seq<char>)>,
) -> Result<(Seq<char>, nat), ExpandError> {
    let acts = item_actions(tree.items@);
    match round_spec(acts, item_texts(tree.items@), macros + macro_defs(acts), consts + const_defs(acts)) {
        Ok((out, n)) => Ok((tree.header@ + out, n)),
        Err(e) => Err(e),
    }
}

/// The words of `ws` that are not blank, in order.
pub fn nonblank_words(ws: &Vec<Vec<char>>) -> (r: Vec<Vec<char>>)
    ensures
        views(r@) == nonblank(views(ws@)),
        forall|i: int| 0 <= i < r@.len() ==> r@[i]@.len() > 0,
{
    let ghost v = views(ws@);
    let mut r: Vec<Vec<char>> = Vec::new();
    let mut i: usize = 0;
    while i < ws.len()
        invariant
            i <= ws@.len(),
            v == views(ws@),
            views(r@) == nonblank(v.take(i as int)),
            forall|k: int| 0 <= k < r@.len() ==> r@[k]@.len() > 0,
        decreases ws@.len() - i,
    {
        let w = ws[i].as_slice();
        assert(v.take(i + 1).drop_last() == v.take(i as int));
        assert(v.take(i + 1).last() == w@);
        let t = crate::text::trim(w);
        assert(w@.len() == 0 ==> trimmed(w@) == w@);
        assert(nonblank(v.take(i + 1)) == if trimmed(w@).len() > 0 {
            nonblank(v.take(i as int)).push(w@)
        } else {
            nonblank(v.take(i as int))
        });
        if t.len() > 0 {
            let ghost before = r@;
            r.push(slice_of(w, 0, w.len()));
            assert(w@.subrange(0, w@.len() as int) == w@);
            assert(views(r@) == views(before).push(w@));
        }
        i = i + 1;
    }
    assert(v.take(i as int) == v);
    r
}

/// The index of the item that defines the last macro called `name`.
fn find_macro_item(items: &[Item], name: &[char]) -> (r: Option<usize>)
    ensures
        match find_macro(macro_defs(item_actions(items@)), name@) {
            Some((params, body)) => r is Some && r->Some_0 < items@.len()
                && items@[r->Some_0 as int].action@ == (ActionModel::MacroDef { name: name@, params, body }),
            None => r is None,
        },
{
    let ghost acts = item_actions(items@);
    let mut i: usize = items.len();
    assert(acts.take(i as int) == acts);
    while i > 0
        invariant
            i <= items@.len(),
            acts == item_actions(items@),
            find_macro(macro_defs(acts), name@) == find_macro(macro_defs(acts.take(i as int)), name@),
        decreases i,
    {
        let ghost t = acts.take(i as int);
        assert(t.drop_last() == acts.take(i - 1));
        assert(t.last() == items@[i - 1].action@);
        match &items[i - 1].action {
            Action::MacroDef { name: n, .. } => {
                if same_chars(n.as_slice(), name) {
                    return Some(i - 1);
                }
                assert(macro_defs(t).drop_last() == macro_defs(acts.take(i - 1)));
                assert(macro_defs(t).last().0 != name@);
            },
            _ => {
                assert(macro_defs(t) == macro_defs(acts.take(i - 1)));
            },
        }
        i = i - 1;
    }
    None
}

/// The index of the item that defines the last constant called `name`.
fn find_const_item(items: &[Item], name: &[char]) -> (r: Option<usize>)
    ensures
        match find_const(const_defs(item_actions(items@)), name@) {
            Some(value) => r is Some && r->Some_0 < items@.len()
                && items@[r->Some_0 as int].action@ == (ActionModel::ConstDef { name: name@, value }),
            None => r is None,
        },
{
    let ghost acts = item_actions(items@);
    let mut i: usize = items.len();
    assert(acts.take(i as int) == acts);
    while i > 0
        invariant
            i <= items@.len(),
            acts == item_actions(items@),
            find_const(const_defs(acts), name@) == find_const(const_defs(acts.take(i as int)), name@),
        decreases i,
    {
        let ghost t = acts.take(i as int);
        assert(t.drop_last() == acts.take(i - 1));
        assert(t.last() == items@[i - 1].action@);
        match &items[i - 1].action {
            Action::ConstDef { name: n, .. } => {
                if same_chars(n.as_slice(), name) {
                    return Some(i - 1);
                }
                assert(const_defs(t).drop_last() == const_defs(acts.take(i - 1)));
                assert(const_defs(t).last().0 != name@);
            },
            _ => {
                assert(const_defs(t) == const_defs(acts.take(i - 1)));
            },
        }
        i = i - 1;
    }
    None
}

proof fn lemma_round_err(
    acts: Seq<ActionModel>,
    texts: Seq<Seq<char>>,
    macros: Seq<(Seq<char>, Seq<Seq<char>>, Seq<char>)>,
    consts: Seq<(Seq<char>, Seq<char>)>,
    j: int,
)
    requires
        0 <= j <= acts.len(),
        texts.len() == acts.len(),
        round_spec(acts.take(j), texts.take(j), macros, consts) is Err,
    ensures
        round_spec(acts, texts, macros, consts) == round_spec(acts.take(j), texts.take(j), macros, consts),
    decreases acts.len() - j,
{
    if j < acts.len() {
        assert(acts.take(j + 1).drop_last() == acts.take(j));
        assert(texts.take(j + 1).drop_last() == texts.take(j));
        lemma_round_err(acts, texts, macros, consts, j + 1);
    } else {
        assert(acts.take(j) == acts);
        assert(texts.take(j) == texts);
    }
}

/// A macro definition kept from an earlier round.
pub struct MacroEntry {
    pub name: Vec<char>,
    pub params: Vec<Vec<char>>,
    pub body: Vec<char>,
}

/// A constant definition kept from an earlier round.
pub struct ConstEntry {
    pub name: Vec<char>,
    pub value: Vec<char>,
}

pub open spec fn macro_table(t: Seq<MacroEntry>) -> Seq<(Seq<char>, Seq<Seq<char>>, Seq<char>)> {
    t.map_values(|e: MacroEntry| (e.name@, views(e.params@), e.body@))
}

pub open spec fn const_table(t: Seq<ConstEntry>) -> Seq<(Seq<char>, Seq<char>)> {
    t.map_values(|e: ConstEntry| (e.name@, e.value@))
}

proof fn lemma_find_macro_concat(a: Seq<(Seq<char>, Seq<Seq<char>>, Seq<char>)>, b: Seq<(Seq<char>, Seq<Seq<char>>, Seq<char>)>, name: Seq<char>)
    ensures
        find_macro(a + b, name) == if find_macro(b, name) is Some { find_macro(b, name) } else { find_macro(a, name) },
    decreases b.len(),
{
    if b.len() == 0 {
        assert(a + b =~= a);
    } else {
        assert((a + b).drop_last() =~= a + b.drop_last());
        assert((a + b).last() == b.last());
        lemma_find_macro_concat(a, b.drop_last(), name);
    }
}

proof fn lemma_find_const_concat(a: Seq<(Seq<char>, Seq<char>)>, b: Seq<(Seq<char>, Seq<char>)>, name: Seq<char>)
    ensures
        find_const(a + b, name) == if find_const(b, name) is Some { find_const(b, name) } else { find_const(a, name) },
    decreases b.len(),
{
    if b.len() == 0 {
        assert(a + b =~= a);
    } else {
        assert((a + b).drop_last() =~= a + b.drop_last());
        assert((a + b).last() == b.last());
        lemma_find_const_concat(a, b.drop_last(), name);
    }
}

/// The index of the last kept macro called `name`.
fn find_macro_entry(table: &[MacroEntry], name: &[char]) -> (r: Option<usize>)
    ensures
        match find_macro(macro_table(table@), name@) {
            Some((params, body)) => r is Some && r->Some_0 < table@.len()
                && macro_table(table@)[r->Some_0 as int] == (name@, params, body),
            None => r is None,
        },
{
    let ghost t = macro_table(table@);
    let mut i: usize = table.len();
    assert(t.take(i as int) == t);
    while i > 0
        invariant
            i <= table@.len(),
            t == macro_table(table@),
            find_macro(t, name@) == find_macro(t.take(i as int), name@),
        decreases i,
    {
        assert(t.take(i as int).drop_last() == t.take(i - 1));
        assert(t.take(i as int).last() == t[i - 1]);
        if same_chars(table[i - 1].name.as_slice(), name) {
            return Some(i - 1);
        }
        i = i - 1;
    }
    None
}

/// The index of the last kept constant called `name`.
fn find_const_entry(table: &[ConstEntry], name: &[char]) -> (r: Option<usize>)
    ensures
        match find_const(const_table(table@), name@) {
            Some(value) => r is Some && r->Some_0 < table@.len() && const_table(table@)[r->Some_0 as int] == (name@, value),
            None => r is None,
        },
{
    let ghost t = const_table(table@);
    let mut i: usize = table.len();
    assert(t.take(i as int) == t);
    while i > 0
        invariant
            i <= table@.len(),
            t == const_table(table@),
            find_const(t, name@) == find_const(t.take(i as int), name@),
        decreases i,
    {
        assert(t.take(i as int).drop_last() == t.take(i - 1));
        assert(t.take(i as int).last() == t[i - 1]);
        if same_chars(table[i - 1].name.as_slice(), name) {
            return Some(i - 1);
        }
        i = i - 1;
    }
    None
}

/// What a call expands to, or the non-blank parameter and argument counts
/// when they differ.
fn call_expansion(params: &Vec<Vec<char>>, args: &Vec<Vec<char>>, body: &[char]) -> (r: Result<Vec<char>, (usize, usize)>)
    ensures
        nonblank(views(params@)).len() != nonblank(views(args@)).len() ==> r == Err::<Vec<char>, (usize, usize)>(
            (nonblank(views(params@)).len() as usize, nonblank(views(args@)).len() as usize)),
        nonblank(views(params@)).len() == nonblank(views(args@)).len() ==> r is Ok
            && r->Ok_0@ == call_text(views(params@), views(args@), body@),
{
    let pats = nonblank_words(params);
    let reps = nonblank_words(args);
    if pats.len() != reps.len() {
        return Err((pats.len(), reps.len()));
    }
    if pats.len() == 0 {
        Ok(slice_of(body, 0, body.len()))
    } else {
        Ok(replace_all(body, &pats, &reps))
    }
}

fn copy_words(ws: &Vec<Vec<char>>) -> (r: Vec<Vec<char>>)
    ensures
        views(r@) == views(ws@),
{
    let mut r: Vec<Vec<char>> = Vec::new();
    let mut i: usize = 0;
    while i < ws.len()
        invariant
            i <= ws@.len(),
            views(r@) == views(ws@).take(i as int),
        decreases ws@.len() - i,
    {
        let w = ws[i].as_slice();
        let ghost before = r@;
        r.push(slice_of(w, 0, w.len()));
        assert(w@.subrange(0, w@.len() as int) == w@);
        assert(views(r@) == views(before).push(w@));
        assert(views(ws@).take(i + 1) == views(ws@).take(i as int).push(views(ws@)[i as int]));
        assert(views(r@) =~= views(ws@).take(i + 1));
        i = i + 1;
    }
    assert(views(ws@).take(i as int) == views(ws@));
    r
}

/// Adds a round's definitions to the kept ones, after them.
pub fn record_definitions(items: &[Item], macros: &mut Vec<MacroEntry>, consts: &mut Vec<ConstEntry>)
    ensures
        macro_table(final(macros)@) == macro_table(old(macros)@) + macro_defs(item_actions(items@)),
        const_table(final(consts)@) == const_table(old(consts)@) + const_defs(item_actions(items@)),
{
    let ghost acts = item_actions(items@);
    let ghost m0 = macro_table(macros@);
    let ghost c0 = const_table(consts@);
    let mut i: usize = 0;
    assert(m0 + macro_defs(acts.take(0)) =~= m0);
    assert(c0 + const_defs(acts.take(0)) =~= c0);
    while i < items.len()
        invariant
            i <= items@.len(),
            acts == item_actions(items@),
            macro_table(macros@) == m0 + macro_defs(acts.take(i as int)),
            const_table(consts@) == c0 + const_defs(acts.take(i as int)),
        decreases items@.len() - i,
    {
        assert(acts.take(i + 1).drop_last() == acts.take(i as int));
        assert(acts.take(i + 1).last() == items@[i as int].action@);
        match &items[i].action {
            Action::MacroDef { name, params, body } => {
                let e = MacroEntry {
                    name: slice_of(name.as_slice(), 0, name.len()),
                    params: copy_words(params),
                    body: slice_of(body.as_slice(), 0, body.len()),
                };
                assert(name@.subrange(0, name@.len() as int) == name@);
                assert(body@.subrange(0, body@.len() as int) == body@);
                let ghost before = macros@;
                macros.push(e);
                assert(macro_table(macros@) =~= macro_table(before).push((name@, views(params@), body@)));
                assert(const_table(consts@) == c0 + const_defs(acts.take(i + 1)));
                assert(macro_table(macros@) =~= m0 + macro_defs(acts.take(i + 1)));
            },
            Action::ConstDef { name, value } => {
                let e = ConstEntry { name: slice_of(name.as_slice(), 0, name.len()), value: slice_of(value.as_slice(), 0, value.len()) };
                assert(name@.subrange(0, name@.len() as int) == name@);
                assert(value@.subrange(0, value@.len() as int) == value@);
                let ghost before = consts@;
                consts.push(e);
                assert(const_table(consts@) =~= const_table(before).push((name@, value@)));
                assert(macro_table(macros@) == m0 + macro_defs(acts.take(i + 1)));
                assert(const_table(consts@) =~= c0 + const_defs(acts.take(i + 1)));
            },
            _ => {
                assert(macro_table(macros@) == m0 + macro_defs(acts.take(i + 1)));
                assert(const_table(consts@) == c0 + const_defs(acts.take(i + 1)));
            },
        }
        i = i + 1;
    }
    assert(acts.take(i as int) == acts);
}

/// One expansion round on a tree, given the definitions kept from earlier
/// rounds: the header, then each item's text with macro calls and constant
/// references substituted and definitions dropped; and the number of
/// substitutions.
#[verifier::rlimit(40)]
pub fn expand_round(tree: &SourceTree, macros: &[MacroEntry], consts: &[ConstEntry]) -> (r: Result<(Vec<char>, usize), ExpandError>)
    ensures
        match tree_round(*tree, macro_table(macros@), const_table(consts@)) {
            Ok((out, n)) => r is Ok && r->Ok_0.0@ == out && r->Ok_0.1 as nat == n,
            Err(e) => r == Err::<(Vec<char>, usize), ExpandError>(e),
        },
{
    let items = tree.items.as_slice();
    let ghost acts = item_actions(items@);
    let ghost texts = item_texts(items@);
    let ghost ms = macro_table(macros@) + macro_defs(acts);
    let ghost cs = const_table(consts@) + const_defs(acts);
    let mut out = slice_of(tree.header.as_slice(), 0, tree.header.len());
    assert(tree.header@.subrange(0, tree.header@.len() as int) == tree.header@);
    let mut n: usize = 0;
    let mut i: usize = 0;
    assert(acts.take(0).len() == 0);
    while i < items.len()
        invariant
            i <= items@.len(),
            n <= i,
            items@ == tree.items@,
            acts == item_actions(items@),
            texts == item_texts(items@),
            ms == macro_table(macros@) + macro_defs(acts),
            cs == const_table(consts@) + const_defs(acts),
            round_spec(acts.take(i as int), texts.take(i as int), ms, cs) matches Ok((o, c))
                && out@ == tree.header@ + o && c == n,
        decreases items@.len() - i,
    {
        proof {
            assert(acts.take(i + 1).drop_last() == acts.take(i as int));
            assert(texts.take(i + 1).drop_last() == texts.take(i as int));
            assert(acts.take(i + 1).last() == items@[i as int].action@);
            assert(texts.take(i + 1).last() == items@[i as int].text@);
        }
        let it = &items[i];
        match &it.action {
            Action::MacroCall { name, args } => {
                proof {
                    lemma_find_macro_concat(macro_table(macros@), macro_defs(acts), name@);
                }
                let expanded = match find_macro_item(items, name.as_slice()) {
                    Some(k) => match &items[k].action {
                        Action::MacroDef { params, body, .. } => call_expansion(params, args, body.as_slice()),
                        _ => return Err(ExpandError::UndefinedMacro { item: i }),
                    },
                    None => match find_macro_entry(macros, name.as_slice()) {
                        Some(k) => call_expansion(&macros[k].params, args, macros[k].body.as_slice()),
                        None => {
                            proof { lemma_round_err(acts, texts, ms, cs, i as int + 1); }
                            return Err(ExpandError::UndefinedMacro { item: i });
                        },
                    },
                };
                match expanded {
                    Ok(text) => {
                        append_chars(&mut out, text.as_slice());
                        n = n + 1;
                    },
                    Err((expected, provided)) => {
                        proof { lemma_round_err(acts, texts, ms, cs, i as int + 1); }
                        return Err(ExpandError::ArgumentCount { item: i, expected, provided });
                    },
                }
            },
            Action::Reference { name } => {
                proof {
                    lemma_find_const_concat(const_table(consts@), const_defs(acts), name@);
                }
                let value = match find_const_item(items, name.as_slice()) {
                    Some(k) => match &items[k].action {
                        Action::ConstDef { value, .. } => Some(value.as_slice()),
                        _ => return Err(ExpandError::UndefinedMacro { item: i }),
                    },
                    None => match find_const_entry(consts, name.as_slice()) {
                        Some(k) => Some(consts[k].value.as_slice()),
                        None => None,
                    },
                };
                match value {
                    Some(v) => {
                        append_chars(&mut out, v);
                        out.push('\n');
                        n = n + 1;
                    },
                    None => {
                        append_chars(&mut out, it.text.as_slice());
                    },
                }
            },
            Action::MacroDef { .. } => {},
            Action::ConstDef { .. } => {},
            _ => {
                append_chars(&mut out, it.text.as_slice());
            },
        }
        proof {
            assert(round_spec(acts.take(i + 1), texts.take(i + 1), ms, cs) matches Ok((o, c))
                && out@ =~= tree.header@ + o && c == n);
        }
        i = i + 1;
    }
    assert(acts.take(i as int) == acts);
    assert(texts.take(i as int) == texts);
    Ok((out, n))
}

/// No macro call, macro definition or constant definition among `acts`.
pub open spec fn macro_free(acts: Seq<ActionModel>) -> bool {
    forall|i: int| 0 <= i < acts.len() ==> !((#[trigger] acts[i]) is MacroCall || acts[i] is MacroDef || acts[i] is ConstDef)
}

/// Rounds from `text` until one substitutes nothing, for at most `rounds`
/// rounds. `macros` and `consts` are the definitions of earlier rounds: a
/// round drops its definitions from the text it writes, and they stay in
/// force for the rounds after it.
pub open spec fn expand_from(
    text: Seq<char>,
    macros: Seq<(Seq<char>, Seq<Seq<char>>, Seq<char>)>,
    consts: Seq<(Seq<char>, Seq<char>)>,
    rounds: nat,
) -> Result<Seq<char>, ExpandError>
    decreases rounds,
{
    if rounds == 0 {
        Err(ExpandError::DepthExceeded { limit: MAX_DEPTH })
    } else {
        match source_spec(text) {
            Err(e) => Err(ExpandError::Syntax(e)),
            Ok((header, _, its)) => {
                let acts = actions_of(its);
                let ms = macros + macro_defs(acts);
                let cs = consts + const_defs(acts);
                match round_spec(acts, texts_of(its), ms, cs) {
                    Err(e) => Err(e),
                    Ok((out, n)) => if n == 0 {
                        Ok(header + out)
                    } else {
                        expand_from(header + out, ms, cs, (rounds - 1) as nat)
                    },
                }
            },
        }
    }
}

/// The expansion of a source text.
pub open spec fn expansion(text: Seq<char>) -> Result<Seq<char>, ExpandError> {
    expand_from(text, seq![], seq![], MAX_DEPTH as nat)
}

/// A source that reads and holds no macro call, macro definition or constant
/// definition expands to itself; so expanding it twice gives what expanding
/// it once gives.
pub proof fn lemma_expand_idempotent(s: Seq<char>)
    requires
        source_spec(s) is Ok,
        macro_free(actions_of(source_spec(s)->Ok_0.2)),
    ensures
        expansion(s) == Ok::<Seq<char>, ExpandError>(s),
        expansion(expansion(s)->Ok_0) == expansion(s),
{
    let its = source_spec(s)->Ok_0.2;
    let acts = actions_of(its);
    let ms = Seq::<(Seq<char>, Seq<Seq<char>>, Seq<char>)>::empty() + macro_defs(acts);
    lemma_macro_free_round(acts, texts_of(its), ms);
    lemma_source_joined(s);
    assert(Seq::<(Seq<char>, Seq<char>)>::empty() + const_defs(acts) =~= const_defs(acts));
}

/// A round over items free of macros and constant definitions copies every
/// item's text and substitutes nothing.
pub proof fn lemma_macro_free_round(
    acts: Seq<ActionModel>,
    texts: Seq<Seq<char>>,
    macros: Seq<(Seq<char>, Seq<Seq<char>>, Seq<char>)>,
)
    requires
        texts.len() == acts.len(),
        macro_free(acts),
    ensures
        round_spec(acts, texts, macros, const_defs(acts)) == Ok::<(Seq<char>, nat), ExpandError>((joined(texts), 0nat)),
{
    lemma_no_consts(acts);
    lemma_copy_round(acts, texts, macros, const_defs(acts));
}

proof fn lemma_no_consts(acts: Seq<ActionModel>)
    requires
        macro_free(acts),
    ensures
        const_defs(acts).len() == 0,
    decreases acts.len(),
{
    if acts.len() > 0 {
        assert(!(acts[acts.len() - 1] is ConstDef));
        assert(macro_free(acts.drop_last())) by {
            assert forall|i: int| 0 <= i < acts.drop_last().len() implies !((#[trigger] acts.drop_last()[i]) is MacroCall || acts.drop_last()[i] is MacroDef || acts.drop_last()[i] is ConstDef) by {
                assert(acts.drop_last()[i] == acts[i]);
            }
        }
        lemma_no_consts(acts.drop_last());
    }
}

proof fn lemma_copy_round(
    acts: Seq<ActionModel>,
    texts: Seq<Seq<char>>,
    macros: Seq<(Seq<char>, Seq<Seq<char>>, Seq<char>)>,
    consts: Seq<(Seq<char>, Seq<char>)>,
)
    requires
        texts.len() == acts.len(),
        macro_free(acts),
        consts.len() == 0,
    ensures
        round_spec(acts, texts, macros, consts) == Ok::<(Seq<char>, nat), ExpandError>((joined(texts), 0nat)),
    decreases acts.len(),
{
    if acts.len() > 0 {
        assert(!(acts[acts.len() - 1] is MacroCall || acts[acts.len() - 1] is MacroDef || acts[acts.len() - 1] is ConstDef));
        assert(macro_free(acts.drop_last())) by {
            assert forall|i: int| 0 <= i < acts.drop_last().len() implies !((#[trigger] acts.drop_last()[i]) is MacroCall || acts.drop_last()[i] is MacroDef || acts.drop_last()[i] is ConstDef) by {
                assert(acts.drop_last()[i] == acts[i]);
            }
        }
        lemma_copy_round(acts.drop_last(), texts.drop_last(), macros, consts);
    } else {
        assert(joined(texts) == Seq::<char>::empty());
    }
}

proof fn lemma_wrong_count_fails(
    acts: Seq<ActionModel>,
    texts: Seq<Seq<char>>,
    macros: Seq<(Seq<char>, Seq<Seq<char>>, Seq<char>)>,
    consts: Seq<(Seq<char>, Seq<char>)>,
    i: int,
)
    requires
        texts.len() == acts.len(),
        0 <= i < acts.len(),
        acts[i] is MacroCall,
        find_macro(macros, acts[i]->MacroCall_name) is Some,
        nonblank(find_macro(macros, acts[i]->MacroCall_name)->Some_0.0).len() != nonblank(acts[i]->MacroCall_args).len(),
    ensures
        round_spec(acts, texts, macros, consts) is Err,
        round_spec(acts.take(i), texts.take(i), macros, consts) is Ok ==> round_spec(acts, texts, macros, consts)
            == Err::<(Seq<char>, nat), ExpandError>(ExpandError::ArgumentCount {
                item: i as usize,
                expected: nonblank(find_macro(macros, acts[i]->MacroCall_name)->Some_0.0).len() as usize,
                provided: nonblank(acts[i]->MacroCall_args).len() as usize,
            }),
{
    let a = acts.take(i + 1);
    let t = texts.take(i + 1);
    assert(a.drop_last() == acts.take(i));
    assert(t.drop_last() == texts.take(i));
    assert(a.last() == acts[i]);
    assert(round_spec(a, t, macros, consts) is Err);
    lemma_round_err(acts, texts, macros, consts, i + 1);
}

/// Calling a macro with a number of non-blank arguments other than its
/// number of non-blank parameters makes expansion fail; where no item before
/// the call fails, the error is the argument count error naming the item and
/// both counts.
pub proof fn lemma_wrong_count_expansion(s: Seq<char>, i: int)
    requires
        source_spec(s) is Ok,
        0 <= i < source_spec(s)->Ok_0.2.len(),
        source_spec(s)->Ok_0.2[i].0 is MacroCall,
        find_macro(macro_defs(actions_of(source_spec(s)->Ok_0.2)), source_spec(s)->Ok_0.2[i].0->MacroCall_name) is Some,
        nonblank(find_macro(macro_defs(actions_of(source_spec(s)->Ok_0.2)), source_spec(s)->Ok_0.2[i].0->MacroCall_name)->Some_0.0).len()
            != nonblank(source_spec(s)->Ok_0.2[i].0->MacroCall_args).len(),
    ensures
        expansion(s) is Err,
        round_spec(
            actions_of(source_spec(s)->Ok_0.2).take(i),
            texts_of(source_spec(s)->Ok_0.2).take(i),
            macro_defs(actions_of(source_spec(s)->Ok_0.2)),
            const_defs(actions_of(source_spec(s)->Ok_0.2)),
        ) is Ok ==> expansion(s) == Err::<Seq<char>, ExpandError>(ExpandError::ArgumentCount {
            item: i as usize,
            expected: nonblank(find_macro(macro_defs(actions_of(source_spec(s)->Ok_0.2)), source_spec(s)->Ok_0.2[i].0->MacroCall_name)->Some_0.0).len() as usize,
            provided: nonblank(source_spec(s)->Ok_0.2[i].0->MacroCall_args).len() as usize,
        }),
{
    let its = source_spec(s)->Ok_0.2;
    let acts = actions_of(its);
    assert(acts[i] == its[i].0);
    let ms = Seq::<(Seq<char>, Seq<Seq<char>>, Seq<char>)>::empty() + macro_defs(acts);
    let cs = Seq::<(Seq<char>, Seq<char>)>::empty() + const_defs(acts);
    assert(ms =~= macro_defs(acts));
    assert(cs =~= const_defs(acts));
    lemma_wrong_count_fails(acts, texts_of(its), ms, cs, i);
}

/// Expands macros and constants: rounds on fresh parses until one
/// substitutes nothing, for at most `MAX_DEPTH` rounds.
pub fn expand_chars(text: &[char]) -> (r: Result<Vec<char>, ExpandError>)
    ensures
        match r {
            Ok(v) => expansion(text@) == Ok::<Seq<char>, ExpandError>(v@),
            Err(e) => expansion(text@) == Err::<Seq<char>, ExpandError>(e),
        },
{
    let mut current = slice_of(text, 0, text.len());
    assert(text@.subrange(0, text@.len() as int) == text@);
    let mut depth: usize = 0;
    let mut macros: Vec<MacroEntry> = Vec::new();
    let mut consts: Vec<ConstEntry> = Vec::new();
    assert(macro_table(macros@) =~= Seq::<(Seq<char>, Seq<Seq<char>>, Seq<char>)>::empty());
    assert(const_table(consts@) =~= Seq::<(Seq<char>, Seq<char>)>::empty());
    while depth < MAX_DEPTH
        invariant
            depth <= MAX_DEPTH,
            expansion(text@) == expand_from(current@, macro_table(macros@), const_table(consts@), (MAX_DEPTH - depth) as nat),
        decreases MAX_DEPTH - depth,
    {
        let tree = match parse_source(current.as_slice()) {
            Ok(t) => t,
            Err(e) => return Err(ExpandError::Syntax(e)),
        };
        assert(item_actions(tree.items@) =~= actions_of(item_models(tree.items@)));
        assert(item_texts(tree.items@) =~= texts_of(item_models(tree.items@)));
        let (out, n) = expand_round(&tree, macros.as_slice(), consts.as_slice())?;
        if n == 0 {
            return Ok(out);
        }
        record_definitions(tree.items.as_slice(), &mut macros, &mut consts);
        current = out;
        depth = depth + 1;
    }
    Err(ExpandError::DepthExceeded { limit: MAX_DEPTH })
}

/// Expands macros and constants in a source text.
pub fn expand_macros(input: &str) -> (r: Result<String, ExpandError>)
    ensures
        match r {
            Ok(v) => expansion(input@) == Ok::<Seq<char>, ExpandError>(v@),
            Err(e) => expansion(input@) == Err::<Seq<char>, ExpandError>(e),
        },
{
    let text = chars_of(input);
    match expand_chars(text.as_slice()) {
        Ok(out) => Ok(string_of(out.as_slice())),
        Err(e) => Err(e),
    }
}

} // verus!
