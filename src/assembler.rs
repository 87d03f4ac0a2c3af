//! The assembler: label positions, then one byte per instruction.
use vstd::prelude::*;

use crate::syntax::{actions_of, item_actions, item_models, parse_source, source_spec, Action, ActionModel, Item, SourceTree, SyntaxError};
use crate::text::{chars_of, copy_bytes, same_chars, slice_of};

verus! {

/// Largest position that a label reference can load.
pub const MAX_LABEL: usize = 63;

/// The number of items in `acts` that occupy a position: instructions and
/// references.
pub open spec fn position_count(acts: Seq<ActionModel>) -> nat
    decreases acts.len(),
{
    if acts.len() == 0 {
        0
    } else {
        position_count(acts.drop_last()) + if acts.last() is Instruction || acts.last() is Reference { 1nat } else { 0nat }
    }
}

/// One entry per label item, in order: its name and the number of items
/// before it that occupy a position.
pub open spec fn label_table(acts: Seq<ActionModel>) -> Seq<(Seq<char>, nat)>
    decreases acts.len(),
{
    if acts.len() == 0 {
        seq![]
    } else {
        let t = label_table(acts.drop_last());
        match acts.last() {
            ActionModel::Label { name } => t.push((name, position_count(acts.drop_last()))),
            _ => t,
        }
    }
}

/// The position of a label; where a name is defined twice, the later one.
pub open spec fn lookup(table: Seq<(Seq<char>, nat)>, name: Seq<char>) -> Option<nat>
    decreases table.len(),
{
    if table.len() == 0 {
        None
    } else if table.last().0 == name {
        Some(table.last().1)
    } else {
        lookup(table.drop_last(), name)
    }
}

/// Why a program could not be assembled. Each names the index of the item.
#[derive(Debug, Clone, Copy, PartialEq, Eq, Structural)]
pub enum AsmError {
    /// A reference to a label whose position is above `MAX_LABEL`.
    LabelTooLarge { item: usize },
    /// A reference that names no label.
    UnresolvedIdentifier { item: usize },
    /// A macro call or definition, or a constant definition, that expansion
    /// should have removed.
    Unexpanded { item: usize },
}

/// The bytes of a program: an instruction gives its byte, a reference a
/// literal load of its label's position; labels and blank lines give nothing.
pub open spec fn assemble_spec(acts: Seq<ActionModel>, table: Seq<(Seq<char>, nat)>) -> Result<Seq<u8>, AsmError>
    decreases acts.len(),
{
    if acts.len() == 0 {
        Ok(seq![])
    } else {
        let item = (acts.len() - 1) as usize;
        match assemble_spec(acts.drop_last(), table) {
            Err(e) => Err(e),
            Ok(code) => match acts.last() {
                ActionModel::Instruction { byte } => Ok(code.push(byte)),
                ActionModel::Reference { name } => match lookup(table, name) {
                    None => Err(AsmError::UnresolvedIdentifier { item }),
                    Some(p) => if p > MAX_LABEL {
                        Err(AsmError::LabelTooLarge { item })
                    } else {
                        Ok(code.push(p as u8))
                    },
                },
                ActionModel::MacroCall { .. } => Err(AsmError::Unexpanded { item }),
                ActionModel::MacroDef { .. } => Err(AsmError::Unexpanded { item }),
                ActionModel::ConstDef { .. } => Err(AsmError::Unexpanded { item }),
                _ => Ok(code),
            },
        }
    }
}

/// A label and the position of the instruction that follows it.
pub struct LabelPosition {
    pub name: Vec<char>,
    pub position: usize,
}

pub open spec fn table_view(t: Seq<LabelPosition>) -> Seq<(Seq<char>, nat)> {
    t.map_values(|l: LabelPosition| (l.name@, l.position as nat))
}

proof fn lemma_position_count_bound(acts: Seq<ActionModel>)
    ensures
        position_count(acts) <= acts.len(),
    decreases acts.len(),
{
    if acts.len() > 0 {
        lemma_position_count_bound(acts.drop_last());
    }
}

/// The label table of a program, in one pass: each label gets the number of
/// instructions and references before it.
pub fn find_labels(items: &[Item]) -> (r: Vec<LabelPosition>)
    ensures
        table_view(r@) == label_table(item_actions(items@)),
{
    let ghost acts = item_actions(items@);
    let mut r: Vec<LabelPosition> = Vec::new();
    let mut count: usize = 0;
    let mut i: usize = 0;
    while i < items.len()
        invariant
            i <= items@.len(),
            acts == item_actions(items@),
            count == position_count(acts.take(i as int)),
            table_view(r@) == label_table(acts.take(i as int)),
        decreases items@.len() - i,
    {
        proof {
            assert(acts.take(i + 1).drop_last() == acts.take(i as int));
            assert(acts.take(i + 1).last() == items@[i as int].action@);
            lemma_position_count_bound(acts.take(i as int));
        }
        match &items[i].action {
            Action::Label { name } => {
                let ghost before = r@;
                let copy = slice_of(name.as_slice(), 0, name.len());
                assert(name@.subrange(0, name@.len() as int) == name@);
                r.push(LabelPosition { name: copy, position: count });
                assert(table_view(r@) == table_view(before).push((name@, count as nat)));
            },
            Action::Instruction { .. } => {
                count = count + 1;
            },
            Action::Reference { .. } => {
                count = count + 1;
            },
            _ => {},
        }
        i = i + 1;
    }
    assert(acts.take(i as int) == acts);
    r
}

proof fn lemma_table_sound(acts: Seq<ActionModel>)
    ensures
        forall|k: int| #![trigger label_table(acts)[k]] 0 <= k < label_table(acts).len() ==> exists|i: int|
            0 <= i < acts.len() && #[trigger] acts[i] == (ActionModel::Label { name: label_table(acts)[k].0 })
                && label_table(acts)[k].1 == position_count(acts.take(i)),
    decreases acts.len(),
{
    if acts.len() > 0 {
        let prev = acts.drop_last();
        lemma_table_sound(prev);
        let t = label_table(acts);
        let tp = label_table(prev);
        let n = acts.len() - 1;
        assert(acts.take(n) == prev);
        assert forall|k: int| #![trigger t[k]] 0 <= k < t.len() implies exists|i: int|
            0 <= i < acts.len() && #[trigger] acts[i] == (ActionModel::Label { name: t[k].0 })
                && t[k].1 == position_count(acts.take(i)) by {
            if k < tp.len() {
                assert(t[k] == tp[k]);
                let i = choose|i: int| 0 <= i < prev.len() && #[trigger] prev[i] == (ActionModel::Label { name: tp[k].0 })
                    && tp[k].1 == position_count(prev.take(i));
                assert(acts[i] == prev[i]);
                assert(acts.take(i) == prev.take(i));
            } else {
                assert(acts[n] == (ActionModel::Label { name: t[k].0 }));
            }
        }
    }
}

proof fn lemma_table_complete(acts: Seq<ActionModel>)
    ensures
        forall|i: int| 0 <= i < acts.len() && (#[trigger] acts[i]) is Label ==> exists|k: int|
            0 <= k < label_table(acts).len() && #[trigger] label_table(acts)[k] == (acts[i]->Label_name, position_count(acts.take(i))),
    decreases acts.len(),
{
    if acts.len() > 0 {
        let prev = acts.drop_last();
        lemma_table_complete(prev);
        let t = label_table(acts);
        let tp = label_table(prev);
        let n = acts.len() - 1;
        assert(acts.take(n) == prev);
        assert forall|i: int| 0 <= i < acts.len() && (#[trigger] acts[i]) is Label implies exists|k: int|
            0 <= k < t.len() && #[trigger] t[k] == (acts[i]->Label_name, position_count(acts.take(i))) by {
            if i < n {
                assert(acts[i] == prev[i]);
                assert(acts.take(i) == prev.take(i));
                let k = choose|k: int| 0 <= k < tp.len() && #[trigger] tp[k] == (prev[i]->Label_name, position_count(prev.take(i)));
                assert(t[k] == tp[k]);
            } else {
                assert(t[t.len() - 1] == (acts[i]->Label_name, position_count(acts.take(i))));
            }
        }
    }
}

/// Each entry of the label table belongs to a label item of the program, and
/// gives it the exact number of instructions and references before it (other
/// labels count for nothing); each label item has its entry.
pub proof fn lemma_label_positions(acts: Seq<ActionModel>)
    ensures
        forall|k: int| #![trigger label_table(acts)[k]] 0 <= k < label_table(acts).len() ==> exists|i: int|
            0 <= i < acts.len() && #[trigger] acts[i] == (ActionModel::Label { name: label_table(acts)[k].0 })
                && label_table(acts)[k].1 == position_count(acts.take(i)),
        forall|i: int| 0 <= i < acts.len() && (#[trigger] acts[i]) is Label ==> exists|k: int|
            0 <= k < label_table(acts).len() && #[trigger] label_table(acts)[k] == (acts[i]->Label_name, position_count(acts.take(i))),
{
    lemma_table_sound(acts);
    lemma_table_complete(acts);
}

proof fn lemma_position_count_grows(acts: Seq<ActionModel>, i: int)
    requires
        0 <= i <= acts.len(),
    ensures
        position_count(acts.take(i)) <= position_count(acts),
    decreases acts.len() - i,
{
    if i < acts.len() {
        lemma_position_count_grows(acts, i + 1);
        assert(acts.take(i + 1).drop_last() == acts.take(i));
    } else {
        assert(acts.take(i) == acts);
    }
}

/// No label is placed past the program's instructions and references; and
/// two labels with no instruction or reference between them share their
/// position.
pub proof fn lemma_label_bounds(acts: Seq<ActionModel>, i: int, j: int)
    requires
        0 <= i <= j < acts.len(),
        forall|k: int| i <= k < j ==> !((#[trigger] acts[k]) is Instruction || acts[k] is Reference),
    ensures
        forall|k: int| 0 <= k < label_table(acts).len() ==> #[trigger] label_table(acts)[k].1 <= position_count(acts),
        position_count(acts.take(i)) == position_count(acts.take(j)),
    decreases j - i,
{
    lemma_table_sound(acts);
    assert forall|k: int| 0 <= k < label_table(acts).len() implies #[trigger] label_table(acts)[k].1 <= position_count(acts) by {
        let x = choose|x: int| 0 <= x < acts.len() && #[trigger] acts[x] == (ActionModel::Label { name: label_table(acts)[k].0 })
            && label_table(acts)[k].1 == position_count(acts.take(x));
        lemma_position_count_grows(acts, x);
    }
    if i < j {
        lemma_label_bounds(acts, i, j - 1);
        assert(acts.take(j).drop_last() == acts.take(j - 1));
        assert(acts.take(j).last() == acts[j - 1]);
    }
}

/// The position of a label in the table: the last entry of that name.
pub fn lookup_label(table: &[LabelPosition], name: &[char]) -> (r: Option<usize>)
    ensures
        match lookup(table_view(table@), name@) {
            Some(p) => r is Some && r->Some_0 as nat == p,
            None => r is None,
        },
{
    let mut i: usize = table.len();
    assert(table_view(table@).take(i as int) == table_view(table@));
    while i > 0
        invariant
            i <= table@.len(),
            lookup(table_view(table@), name@) == lookup(table_view(table@).take(i as int), name@),
        decreases i,
    {
        let ghost t = table_view(table@).take(i as int);
        assert(t.drop_last() == table_view(table@).take(i - 1));
        assert(t.last() == (table@[i - 1].name@, table@[i - 1].position as nat));
        if same_chars(table[i - 1].name.as_slice(), name) {
            return Some(table[i - 1].position);
        }
        i = i - 1;
    }
    None
}

/// The encoded program and its input bytes.
pub struct SuccessfulParse {
    pub input: Vec<u8>,
    pub program: Vec<u8>,
}

impl SuccessfulParse {
    pub fn from(input: Vec<u8>, program: Vec<u8>) -> (r: Self)
        ensures
            r.input@ == input@,
            r.program@ == program@,
    {
        SuccessfulParse { input, program }
    }
}

/// The bytes of a program, with the labels of `table`.
pub fn encode(items: &[Item], table: &[LabelPosition]) -> (r: Result<Vec<u8>, AsmError>)
    ensures
        match assemble_spec(item_actions(items@), table_view(table@)) {
            Ok(code) => r is Ok && r->Ok_0@ == code,
            Err(e) => r == Err::<Vec<u8>, AsmError>(e),
        },
{
    let ghost acts = item_actions(items@);
    let ghost tv = table_view(table@);
    let mut code: Vec<u8> = Vec::new();
    let mut i: usize = 0;
    while i < items.len()
        invariant
            i <= items@.len(),
            acts == item_actions(items@),
            tv == table_view(table@),
            assemble_spec(acts.take(i as int), tv) == Ok::<Seq<u8>, AsmError>(code@),
        decreases items@.len() - i,
    {
        proof {
            assert(acts.take(i + 1).drop_last() == acts.take(i as int));
            assert(acts.take(i + 1).last() == items@[i as int].action@);
        }
        match &items[i].action {
            Action::Instruction { byte } => {
                code.push(*byte);
                assert(assemble_spec(acts.take(i + 1), tv) == Ok::<Seq<u8>, AsmError>(code@));
            },
            Action::Reference { name } => {
                match lookup_label(table, name.as_slice()) {
                    None => {
                        proof { lemma_assemble_err(acts, tv, i as int + 1); }
                        return Err(AsmError::UnresolvedIdentifier { item: i });
                    },
                    Some(p) => {
                        if p > MAX_LABEL {
                            proof { lemma_assemble_err(acts, tv, i as int + 1); }
                            return Err(AsmError::LabelTooLarge { item: i });
                        }
                        let ghost pn = lookup(tv, name@)->Some_0;
                        assert(lookup(tv, name@) is Some);
                        assert(p as int == pn as int);
                        code.push(p as u8);
                        assert(assemble_spec(acts.take(i + 1), tv) == Ok::<Seq<u8>, AsmError>(code@));
                    },
                }
            },
            Action::MacroCall { .. } => {
                proof { lemma_assemble_err(acts, tv, i as int + 1); }
                return Err(AsmError::Unexpanded { item: i });
            },
            Action::MacroDef { .. } => {
                proof { lemma_assemble_err(acts, tv, i as int + 1); }
                return Err(AsmError::Unexpanded { item: i });
            },
            Action::ConstDef { .. } => {
                proof { lemma_assemble_err(acts, tv, i as int + 1); }
                return Err(AsmError::Unexpanded { item: i });
            },
            _ => {
                assert(assemble_spec(acts.take(i + 1), tv) == Ok::<Seq<u8>, AsmError>(code@));
            },
        }
        i = i + 1;
    }
    assert(acts.take(i as int) == acts);
    Ok(code)
}

proof fn lemma_assemble_err(acts: Seq<ActionModel>, table: Seq<(Seq<char>, nat)>, j: int)
    requires
        0 <= j <= acts.len(),
        assemble_spec(acts.take(j), table) is Err,
    ensures
        assemble_spec(acts, table) == assemble_spec(acts.take(j), table),
    decreases acts.len() - j,
{
    if j < acts.len() {
        assert(acts.take(j + 1).drop_last() == acts.take(j));
        lemma_assemble_err(acts, table, j + 1);
    } else {
        assert(acts.take(j) == acts);
    }
}

/// The bytes of a whole program: its label table, then its encoding.
pub open spec fn assembled(acts: Seq<ActionModel>) -> Result<Seq<u8>, AsmError> {
    assemble_spec(acts, label_table(acts))
}

/// Assembles a source tree whose macros and constants are expanded.
pub fn assemble(tree: &SourceTree) -> (r: Result<SuccessfulParse, AsmError>)
    ensures
        match assembled(item_actions(tree.items@)) {
            Ok(code) => r is Ok && r->Ok_0.program@ == code && r->Ok_0.input@ == tree.inputs@,
            Err(e) => r is Err && r->Err_0 == e,
        },
{
    let table = find_labels(tree.items.as_slice());
    let program = encode(tree.items.as_slice(), table.as_slice())?;
    let input = copy_bytes(tree.inputs.as_slice());
    Ok(SuccessfulParse::from(input, program))
}

/// Why a source could not be turned into a program.
#[derive(Debug, Clone, Copy, PartialEq, Eq, Structural)]
pub enum ParseError {
    Syntax(SyntaxError),
    Assembly(AsmError),
}

/// What reading and assembling `text` gives: its input bytes and program.
pub open spec fn parse_spec(text: Seq<char>) -> Result<(Seq<u8>, Seq<u8>), ParseError> {
    match source_spec(text) {
        Err(e) => Err(ParseError::Syntax(e)),
        Ok((_, inputs, its)) => match assembled(actions_of(its)) {
            Ok(code) => Ok((inputs, code)),
            Err(e) => Err(ParseError::Assembly(e)),
        },
    }
}

/// Reads and assembles an expanded source.
pub fn parse_chars(text: &[char]) -> (r: Result<SuccessfulParse, ParseError>)
    ensures
        match r {
            Ok(p) => parse_spec(text@) == Ok::<(Seq<u8>, Seq<u8>), ParseError>((p.input@, p.program@)),
            Err(e) => parse_spec(text@) == Err::<(Seq<u8>, Seq<u8>), ParseError>(e),
        },
{
    let tree = match parse_source(text) {
        Ok(t) => t,
        Err(e) => return Err(ParseError::Syntax(e)),
    };
    assert(item_actions(tree.items@) =~= actions_of(item_models(tree.items@)));
    match assemble(&tree) {
        Ok(p) => Ok(p),
        Err(e) => Err(ParseError::Assembly(e)),
    }
}

/// Reads and assembles an expanded source.
pub fn parse(program: &str) -> (r: Result<SuccessfulParse, ParseError>)
    ensures
        match r {
            Ok(p) => parse_spec(program@) == Ok::<(Seq<u8>, Seq<u8>), ParseError>((p.input@, p.program@)),
            Err(e) => parse_spec(program@) == Err::<(Seq<u8>, Seq<u8>), ParseError>(e),
        },
{
    let text = chars_of(program);
    parse_chars(text.as_slice())
}

} // verus!
