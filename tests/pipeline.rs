use overture_asm::assembler::{parse, AsmError, ParseError};
use overture_asm::expander::{expand_macros, ExpandError, MAX_DEPTH};
use overture_asm::interface::{parse_wasm_edition, PipelineError, WasmSuccessfulParse};
use overture_asm::syntax::{lex, Action, SyntaxError};
use overture_asm::vm::{interpret, Machine, VmError};

fn run_source(src: &str, input: &[u8]) -> Result<Vec<u8>, VmError> {
    let expanded = expand_macros(src).expect("expands");
    let parsed = parse(&expanded).expect("parses");
    let mut all_input = parsed.input.clone();
    all_input.extend_from_slice(input);
    let exec = interpret(&parsed.program, &all_input, 10_000)?;
    assert!(exec.halted);
    Ok(exec.machine.output)
}

#[test]
fn dummy_test() {
    let s = r#"
            program:
            reset_to_zero
            j
            
            label loop:
            mov 3 output
            mov 3 1
            add
            10
            mov 0 output
            58
            mov 0 2
            sub
            reset_to_zero
            jez
            1
            mov 0 2
            loop
            j
            label reset_to_zero:
            48
            mov 0 1
            mov 0 3
            1
            mov 0 2
            loop
            j
            "#;
    let r = parse(s).expect("the program assembles");
    assert!(r.input.is_empty());
    assert_eq!(r.program.len(), 23);
    // `reset_to_zero` is at position 16, `loop` at position 2.
    assert_eq!(r.program[0], 16);
    assert_eq!(r.program[1], 0b01_000_100);
    assert_eq!(r.program[10], 16);
    assert_eq!(r.program[14], 2);
    assert_eq!(r.program[21], 2);
}

#[test]
fn round_trip_add_outputs_twelve() {
    let out = run_source("program:\n5\nmov 0 1\n7\nmov 0 2\nadd\nmov 3 output", &[]).unwrap();
    assert_eq!(out, vec![12]);
}

#[test]
fn encoding_bytes() {
    let p = parse("program:\n63\n0x3f\n0b111111\nnop\nj\njez\njnz\njgez\njgz\njlez\njlz\nadd\nsub\nand\nnand\nor\nnor\nxor\nxnor\nmov in out\nmov reg5 reg0\nMOV Input O\n")
        .unwrap();
    assert_eq!(
        p.program,
        vec![63, 63, 63, 64, 68, 65, 69, 67, 66, 70, 71, 192, 196, 193, 197, 194, 198, 195, 199, 0b10_110_110, 0b10_101_000, 0b10_110_110]
    );
}

#[test]
fn literal_out_of_range_is_rejected() {
    assert!(matches!(parse("program:\n64\n"), Err(ParseError::Syntax(SyntaxError::BadAction { line: 1 }))));
    assert!(matches!(parse("program:\nmov 6 1\n"), Err(ParseError::Syntax(SyntaxError::BadAction { line: 1 }))));
}

fn label_program(position: usize) -> String {
    let mut s = String::from("program:\ntarget\n");
    for _ in 1..position {
        s.push_str("nop\n");
    }
    s.push_str("label target:\nnop\n");
    s
}

#[test]
fn label_at_63_succeeds_and_64_fails() {
    let p = parse(&label_program(63)).unwrap();
    assert_eq!(p.program[0], 63);
    assert_eq!(p.program.len(), 64);
    match parse(&label_program(64)) {
        Err(ParseError::Assembly(AsmError::LabelTooLarge { item: 0 })) => {}
        _ => panic!("label at 64 must overflow"),
    }
}

#[test]
fn labels_count_instructions_and_references_only() {
    let p = parse("program:\nlabel a:\nend_label\nlabel b:\n\nlabel c:\nnop\nb\nc\na\nlabel end_label:\n").unwrap();
    assert_eq!(p.program, vec![5, 64, 1, 1, 0]);
}

#[test]
fn unresolved_identifier() {
    match parse("program:\nnowhere\n") {
        Err(ParseError::Assembly(AsmError::UnresolvedIdentifier { item: 0 })) => {}
        _ => panic!("expected an unresolved identifier"),
    }
}

#[test]
fn unexpanded_macro_is_refused_by_the_assembler() {
    match parse("program:\nm()\n") {
        Err(ParseError::Assembly(AsmError::Unexpanded { item: 0 })) => {}
        _ => panic!("expected an unexpanded call"),
    }
}

#[test]
fn input_section_bytes() {
    let p = parse("input: 'a' 10 0b11 0xff '\u{0101}'\nprogram:\nmov in out\n").unwrap();
    assert_eq!(p.input, vec![97, 10, 3, 255, 1]);
    assert!(matches!(parse("input: 256\nprogram:\n"), Err(ParseError::Syntax(SyntaxError::BadInput { word: 1 }))));
}

#[test]
fn syntax_errors() {
    assert!(matches!(parse("nop\n"), Err(ParseError::Syntax(SyntaxError::MissingProgram))));
    assert!(matches!(parse("program:\nnop\n%%\n"), Err(ParseError::Syntax(SyntaxError::BadAction { line: 2 }))));
    assert!(matches!(
        expand_macros("program:\nmacro m(a)\nmov a 1\n"),
        Err(ExpandError::Syntax(SyntaxError::UnterminatedMacro { line: 1 }))
    ));
}

#[test]
fn moves_from_input_exhaust_on_the_next_move() {
    let program = vec![0b10_110_110u8; 5];
    let input = [1u8, 2, 3];
    match interpret(&program, &input, 100) {
        Err(VmError::InputExhausted { pc: 3 }) => {}
        _ => panic!("expected input exhausted at the fourth move"),
    }
    let exec = interpret(&program[..3], &input, 100).unwrap();
    assert!(exec.halted);
    assert_eq!(exec.machine.output, vec![1, 2, 3]);
}

#[test]
fn empty_program_halts_at_once() {
    let exec = interpret(&[], &[7], 1).unwrap();
    assert!(exec.halted);
    assert_eq!(exec.machine.registers, [0u8; 6]);
    assert_eq!(exec.machine.pc, 0);
    assert!(exec.machine.output.is_empty());
    assert_eq!(run_source("program:\n", &[]).unwrap(), Vec::<u8>::new());
}

#[test]
fn jump_to_zero_loops_until_the_budget_ends() {
    let exec = interpret(&[0, 68], &[], 1001).unwrap();
    assert!(!exec.halted);
    assert_eq!(exec.machine.pc, 1);
    let exec = interpret(&[0, 68], &[], 1000).unwrap();
    assert!(!exec.halted);
    assert_eq!(exec.machine.pc, 0);
}

#[test]
fn arithmetic_wraps_and_negates() {
    // reg1 = 1, reg2 = 2, then each operation and its result to output.
    let src = "program:\n1\nmov 0 1\n2\nmov 0 2\nsub\nmov 3 o\nadd\nmov 3 o\nand\nmov 3 o\nnand\nmov 3 o\nor\nmov 3 o\nnor\nmov 3 o\nxor\nmov 3 o\nxnor\nmov 3 o\n";
    assert_eq!(run_source(src, &[]).unwrap(), vec![255, 3, 0, 255, 3, 252, 3, 252]);
    let src = "program:\nmov i 1\nmov i 2\nadd\nmov 3 o\n";
    assert_eq!(run_source(src, &[200, 100]).unwrap(), vec![44]);
}

#[test]
fn conditions_read_reg3_as_signed() {
    // Jumps to the end (position 6) when the condition holds, else writes 1.
    for (kw, r3, jumps) in [
        ("jez", 0u8, true), ("jez", 5, false), ("jnz", 5, true), ("jnz", 0, false),
        ("jgz", 5, true), ("jgz", 200, false), ("jgz", 0, false), ("jgez", 0, true), ("jgez", 128, false),
        ("jlz", 255, true), ("jlz", 127, false), ("jlez", 0, true), ("jlez", 1, false), ("nop", 0, false), ("j", 9, true),
    ] {
        let src = format!("program:\nmov i 3\n6\n{kw}\n1\nmov 0 o\nnop\n");
        let out = run_source(&src, &[r3]).unwrap();
        assert_eq!(out.is_empty(), jumps, "{kw} with reg3 = {r3}");
    }
}

#[test]
fn decode_errors_name_the_counter_and_byte() {
    assert_eq!(interpret(&[64, 0b11_001_000], &[], 10).err(), Some(VmError::BadArithmetic { pc: 1, instruction: 200 }));
    assert_eq!(interpret(&[0b01_001_000], &[], 10).err(), Some(VmError::BadConditional { pc: 0, instruction: 72 }));
    assert_eq!(interpret(&[0b10_111_000], &[], 10).err(), Some(VmError::BadSource { pc: 0 }));
    assert_eq!(interpret(&[0b10_000_111], &[], 10).err(), Some(VmError::BadDestination { pc: 0 }));
    assert_eq!(interpret(&[64; 256], &[], 10).err(), Some(VmError::ProgramTooLong { len: 256 }));
}

#[test]
fn counter_overflow_halts() {
    let program = [64u8; 256];
    let mut m = Machine::new();
    m.pc = 255;
    assert_eq!(m.step(&program, &[]), Ok(false));
    let exec = interpret(&[64u8; 255], &[], 1000).unwrap();
    assert!(exec.halted);
    assert_eq!(exec.machine.pc, 255);
}

#[test]
fn macro_free_expansion_is_unchanged_and_idempotent() {
    let src = "input: 1 2\nprogram:\n  5\nmov 0 out\n\nnop\n";
    let once = expand_macros(src).unwrap();
    assert_eq!(once, src);
    assert_eq!(expand_macros(&once).unwrap(), once);
}

#[test]
fn macro_parameters_are_substituted() {
    let src = "program:\nmacro put(value, dest)\nvalue\nmov 0 dest\nend\nput(7, out)\nput(0x2, reg1)\n";
    let out = expand_macros(src).unwrap();
    assert_eq!(out, "program:\n7\nmov 0 out\n0x2\nmov 0 reg1\n");
}

#[test]
fn zero_argument_macro_and_constants() {
    let src = "program:\nconst SEVEN 7\nmacro emit()\nmov 0 out\nend\nSEVEN\nemit()\n";
    let out = expand_macros(src).unwrap();
    assert_eq!(out, "program:\n7\nmov 0 out\n");
    assert_eq!(run_source(src, &[]).unwrap(), vec![7]);
}

#[test]
fn definitions_stay_in_force_in_later_rounds() {
    let src = "program:\nconst SEVEN 7\nmacro emit(dest)\nSEVEN\nmov 0 dest\nend\nmacro twice()\nemit(out)\nemit(reg1)\nend\ntwice()\n";
    assert_eq!(expand_macros(src).unwrap(), "program:\n7\nmov 0 out\n7\nmov 0 reg1\n");
    assert_eq!(run_source(src, &[]).unwrap(), vec![7]);
}

#[test]
fn parameters_are_replaced_in_one_pass() {
    let src = "program:\nmacro swap(1, 2)\nmov 1 2\nend\nswap(2, 1)\n";
    assert_eq!(expand_macros(src).unwrap(), "program:\nmov 2 1\n");
}

#[test]
fn wrong_argument_count_fails() {
    let src = "program:\nmacro put(value, dest)\nvalue\nmov 0 dest\nend\nput(7)\n";
    assert_eq!(expand_macros(src), Err(ExpandError::ArgumentCount { item: 1, expected: 2, provided: 1 }));
}

#[test]
fn undefined_macro_fails() {
    assert_eq!(expand_macros("program:\nmissing(1)\n"), Err(ExpandError::UndefinedMacro { item: 0 }));
}

#[test]
fn self_recursive_macro_hits_the_depth_bound() {
    let src = "program:\nmacro forever(x)\nforever(x)\nend\nforever(1)\n";
    assert_eq!(expand_macros(src), Err(ExpandError::DepthExceeded { limit: MAX_DEPTH }));
    assert_eq!(MAX_DEPTH, 100);
}

#[test]
fn pipeline_expands_then_assembles() {
    let w = parse_wasm_edition("input: 3\nprogram:\nmacro copy()\nmov in out\nend\ncopy()\n").unwrap();
    assert_eq!(w.get_program(), vec![0b10_110_110]);
    assert_eq!(w.get_input(), vec![3]);
    assert_eq!(w.get_expanded(), "input: 3\nprogram:\nmov in out\n");
    let again = WasmSuccessfulParse::from(w.get_input(), w.get_program(), w.get_expanded());
    assert_eq!(again.get_program(), w.get_program());
    assert!(matches!(parse_wasm_edition("program:\nnowhere\n"), Err(PipelineError::Parse(_))));
    assert!(matches!(parse_wasm_edition("program:\nm(1)\n"), Err(PipelineError::Expand(_))));
}

#[test]
fn lex_keeps_item_texts() {
    let tree = lex("input: 4\nprogram:\n  label top:\nmov i o\nmacro m(a)\na\nend\nm(1)\nconst K 3\nK\n").unwrap();
    assert_eq!(tree.inputs, vec![4]);
    assert_eq!(tree.header.iter().collect::<String>(), "input: 4\nprogram:\n");
    let texts: Vec<String> = tree.items.iter().map(|it| it.text.iter().collect()).collect();
    assert_eq!(texts, vec!["  label top:\n", "mov i o\n", "macro m(a)\na\nend\n", "m(1)\n", "const K 3\n", "K\n"]);
    assert!(matches!(tree.items[0].action, Action::Label { .. }));
    assert!(matches!(tree.items[1].action, Action::Instruction { byte: 0b10_110_110 }));
    assert!(matches!(tree.items[2].action, Action::MacroDef { .. }));
    assert!(matches!(tree.items[3].action, Action::MacroCall { .. }));
    assert!(matches!(tree.items[4].action, Action::ConstDef { .. }));
    assert!(matches!(tree.items[5].action, Action::Reference { .. }));
}
