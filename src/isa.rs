//! The binary contract of the machine: instruction classes and the codes that
//! fill the low bits of each instruction byte.
use vstd::prelude::*;

verus! {

/// Class of a literal load: the low six bits are written into `reg0`.
pub const LITERAL_PREFIX: u8 = 0;

/// Class of a conditional jump.
pub const CONDITIONAL_PREFIX: u8 = 1;

/// Class of a move between registers, input and output.
pub const MOVE_PREFIX: u8 = 2;

/// Class of an arithmetic operation on `reg1` and `reg2` into `reg3`.
pub const ARITHMETIC_PREFIX: u8 = 3;

/// The top two bits of an instruction, already shifted into place.
pub struct InstructionType;

impl InstructionType {
    pub const LOAD_LITERAL: u8 = 0;
    pub const CONDITIONAL: u8 = 64;
    pub const MOVE: u8 = 128;
    pub const ARITHMETIC: u8 = 192;
}

/// Source selectors of a move (bits 5-3).
pub struct FromStore;

impl FromStore {
    pub const REG0: u8 = 0;
    pub const REG1: u8 = 1;
    pub const REG2: u8 = 2;
    pub const REG3: u8 = 3;
    pub const REG4: u8 = 4;
    pub const REG5: u8 = 5;
    pub const IN: u8 = 6;
    pub const UNKNOWN: u8 = 7;
}

/// Destination selectors of a move (bits 2-0).
pub struct ToStore;

impl ToStore {
    pub const REG0: u8 = 0;
    pub const REG1: u8 = 1;
    pub const REG2: u8 = 2;
    pub const REG3: u8 = 3;
    pub const REG4: u8 = 4;
    pub const REG5: u8 = 5;
    pub const OUT: u8 = 6;
    pub const UNKNOWN: u8 = 7;
}

/// Operation codes of the arithmetic class. Bit 2 selects the negated or
/// subtracting variant of the operation in the low two bits.
pub struct Arithmetic;

impl Arithmetic {
    pub const ADD: u8 = 0b000;
    pub const SUB: u8 = 0b100;
    pub const AND: u8 = 0b001;
    pub const NAND: u8 = 0b101;
    pub const OR: u8 = 0b010;
    pub const NOR: u8 = 0b110;
    pub const XOR: u8 = 0b011;
    pub const XNOR: u8 = 0b111;
}

/// Condition codes of the conditional class, tested on `reg3` read as a
/// signed byte.
pub struct Conditional;

impl Conditional {
    pub const NOP: u8 = 0b000;
    pub const JMP: u8 = 0b100;
    pub const JEZ: u8 = 0b001;
    pub const JNZ: u8 = 0b101;
    pub const JGZ: u8 = 0b010;
    pub const JLEZ: u8 = 0b110;
    pub const JGEZ: u8 = 0b011;
    pub const JLZ: u8 = 0b111;
}

/// The instruction byte of a given class (0..=3) and six-bit body.
pub open spec fn instruction_byte(class: u8, body: u8) -> u8 {
    (class * 64 + body) as u8
}

/// Builds the instruction byte of a class and a body.
pub fn make_instruction(class: u8, body: u8) -> (r: u8)
    requires
        class < 4,
        body < 64,
    ensures
        r == instruction_byte(class, body),
        r as int == class * 64 + body,
{
    class * 64 + body
}

} // verus!
