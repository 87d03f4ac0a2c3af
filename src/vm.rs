//! The virtual machine: six 8-bit registers, an 8-bit program counter, and a
//! fetch-decode-execute loop over one-byte instructions.
use vstd::prelude::*;

use crate::isa::{Arithmetic, Conditional, InstructionType, FromStore, ToStore};

verus! {

/// Longest program the machine accepts, in bytes.
pub const MAX_PROGRAM_LEN: usize = 255;

/// Encoded `mov input output`: copies one input byte to the output.
pub const MOVE_INPUT_TO_OUTPUT: u8 = 182;

/// Encoded unconditional jump.
pub const JUMP: u8 = 68;

/// Why execution stopped with an error.
#[derive(Debug, Clone, Copy, PartialEq, Eq, Structural)]
pub enum VmError {
    /// The program is longer than `MAX_PROGRAM_LEN` bytes.
    ProgramTooLong { len: usize },
    /// An arithmetic instruction with a body outside the operation table.
    BadArithmetic { pc: u8, instruction: u8 },
    /// A conditional instruction with a body outside the condition table.
    BadConditional { pc: u8, instruction: u8 },
    /// A move whose source selector is 7.
    BadSource { pc: u8 },
    /// A move whose destination selector is 7.
    BadDestination { pc: u8 },
    /// A move from input with no input byte left.
    InputExhausted { pc: u8 },
}

/// The machine's state as a mathematical value.
pub struct MachineState {
    pub regs: Seq<u8>,
    pub pc: u8,
    /// How many input bytes have been read.
    pub consumed: nat,
    /// Every byte written to the output so far.
    pub output: Seq<u8>,
}

/// The state at load time: zero registers and counter, nothing read or written.
pub open spec fn initial_state() -> MachineState {
    MachineState { regs: seq![0u8, 0u8, 0u8, 0u8, 0u8, 0u8], pc: 0, consumed: 0, output: seq![] }
}

/// `reg3` read as a two's complement signed byte.
pub open spec fn signed(b: u8) -> int {
    if b < 128 { b as int } else { b as int - 256 }
}

/// The result of an arithmetic body on `reg1` and `reg2`, if the body is in the table.
pub open spec fn arithmetic_spec(body: u8, a: u8, b: u8) -> Option<u8> {
    if body == Arithmetic::ADD {
        Some(((a + b) % 256) as u8)
    } else if body == Arithmetic::SUB {
        Some(((a - b + 256) % 256) as u8)
    } else if body == Arithmetic::AND {
        Some(a & b)
    } else if body == Arithmetic::NAND {
        Some(!(a & b))
    } else if body == Arithmetic::OR {
        Some(a | b)
    } else if body == Arithmetic::NOR {
        Some(!(a | b))
    } else if body == Arithmetic::XOR {
        Some(a ^ b)
    } else if body == Arithmetic::XNOR {
        Some(!(a ^ b))
    } else {
        None
    }
}

/// Whether a condition body jumps for a given `reg3`, if the body is in the table.
pub open spec fn condition_spec(body: u8, r3: u8) -> Option<bool> {
    let v = signed(r3);
    if body == Conditional::NOP {
        Some(false)
    } else if body == Conditional::JMP {
        Some(true)
    } else if body == Conditional::JEZ {
        Some(v == 0)
    } else if body == Conditional::JNZ {
        Some(v != 0)
    } else if body == Conditional::JGZ {
        Some(v > 0)
    } else if body == Conditional::JLEZ {
        Some(v <= 0)
    } else if body == Conditional::JGEZ {
        Some(v >= 0)
    } else if body == Conditional::JLZ {
        Some(v < 0)
    } else {
        None
    }
}

/// Moves the counter one instruction on. The second component is false when
/// the counter would overflow, which ends the run successfully.
pub open spec fn advance(m: MachineState) -> (MachineState, bool) {
    if m.pc == 255 {
        (m, false)
    } else {
        (MachineState { pc: (m.pc + 1) as u8, ..m }, true)
    }
}

/// One fetch-decode-execute step. `Ok((s, running))`: the next state, and
/// whether the machine goes on; `running` is false on a normal halt.
pub open spec fn step_spec(program: Seq<u8>, input: Seq<u8>, m: MachineState) -> Result<(MachineState, bool), VmError> {
    if m.pc >= program.len() {
        Ok((m, false))
    } else {
        let ins = program[m.pc as int];
        let class = ins / 64;
        let body = ins % 64;
        if class == 3 {
            match arithmetic_spec(body, m.regs[1], m.regs[2]) {
                Some(v) => Ok(advance(MachineState { regs: m.regs.update(3, v), ..m })),
                None => Err(VmError::BadArithmetic { pc: m.pc, instruction: ins }),
            }
        } else if class == 1 {
            match condition_spec(body, m.regs[3]) {
                Some(true) => Ok((MachineState { pc: m.regs[0], ..m }, true)),
                Some(false) => Ok(advance(m)),
                None => Err(VmError::BadConditional { pc: m.pc, instruction: ins }),
            }
        } else if class == 2 {
            let from = body / 8;
            let to = body % 8;
            if from == 7 {
                Err(VmError::BadSource { pc: m.pc })
            } else if from == 6 && m.consumed >= input.len() {
                Err(VmError::InputExhausted { pc: m.pc })
            } else {
                let value = if from == 6 { input[m.consumed as int] } else { m.regs[from as int] };
                let consumed = if from == 6 { m.consumed + 1 } else { m.consumed };
                if to == 7 {
                    Err(VmError::BadDestination { pc: m.pc })
                } else if to == 6 {
                    Ok(advance(MachineState { consumed, output: m.output.push(value), ..m }))
                } else {
                    Ok(advance(MachineState { consumed, regs: m.regs.update(to as int, value), ..m }))
                }
            }
        } else {
            Ok(advance(MachineState { regs: m.regs.update(0, body), ..m }))
        }
    }
}

/// At most `fuel` steps from `m`. `Ok((s, true))` when the budget ran out
/// with the machine still running.
pub open spec fn run_spec(program: Seq<u8>, input: Seq<u8>, m: MachineState, fuel: nat) -> Result<(MachineState, bool), VmError>
    decreases fuel,
{
    if fuel == 0 {
        Ok((m, true))
    } else {
        match step_spec(program, input, m) {
            Err(e) => Err(e),
            Ok((next, running)) => if running {
                run_spec(program, input, next, (fuel - 1) as nat)
            } else {
                Ok((next, false))
            },
        }
    }
}

/// A running machine.
pub struct Machine {
    pub registers: [u8; 6],
    pub pc: u8,
    /// How many input bytes have been read.
    pub consumed: usize,
    /// Every byte written to the output so far.
    pub output: Vec<u8>,
}

impl View for Machine {
    type V = MachineState;

    open spec fn view(&self) -> MachineState {
        MachineState { regs: self.registers@, pc: self.pc, consumed: self.consumed as nat, output: self.output@ }
    }
}

impl Machine {
    /// A machine at load time.
    pub fn new() -> (r: Machine)
        ensures
            r@ == initial_state(),
    {
        let r = Machine { registers: [0u8; 6], pc: 0, consumed: 0, output: Vec::new() };
        assert(r@.regs =~= initial_state().regs);
        r
    }

    /// Whether the next step reads an input byte: the instruction at the
    /// counter is a move from input.
    pub fn wants_input(&self, program: &[u8]) -> (r: bool)
        ensures
            r == (self.pc < program@.len() && program@[self.pc as int] / 64 == 2 && (program@[self.pc as int] % 64) / 8 == 6),
    {
        if self.pc as usize >= program.len() {
            return false;
        }
        let ins = program[self.pc as usize];
        ins / 64 == 2 && (ins % 64) / 8 == 6
    }

    /// Moves the counter on; false when it would overflow.
    fn advance(&mut self) -> (running: bool)
        ensures
            (final(self)@, running) == advance(old(self)@),
    {
        if self.pc == 255 {
            false
        } else {
            self.pc = self.pc + 1;
            true
        }
    }

    /// Executes one instruction of `program`, reading from `input` past the
    /// bytes already consumed. `Ok(running)`: false on a normal halt.
    pub fn step(&mut self, program: &[u8], input: &[u8]) -> (r: Result<bool, VmError>)
        requires
            old(self).consumed <= input@.len(),
        ensures
            match step_spec(program@, input@, old(self)@) {
                Ok((s, running)) => r == Ok::<bool, VmError>(running) && final(self)@ == s,
                Err(e) => r == Err::<bool, VmError>(e),
            },
            final(self).consumed <= input@.len(),
    {
        let pc = self.pc;
        if pc as usize >= program.len() {
            return Ok(false);
        }
        let ins = program[pc as usize];
        let class = ins & 192;
        let body = ins & 63;
        assert(class == (ins / 64) * 64 && body == ins % 64) by (bit_vector)
            requires class == ins & 192, body == ins & 63;
        if class == InstructionType::ARITHMETIC {
            let a = self.registers[1];
            let b = self.registers[2];
            let v = if body == Arithmetic::ADD {
                a.wrapping_add(b)
            } else if body == Arithmetic::SUB {
                a.wrapping_sub(b)
            } else if body == Arithmetic::AND {
                a & b
            } else if body == Arithmetic::NAND {
                !(a & b)
            } else if body == Arithmetic::OR {
                a | b
            } else if body == Arithmetic::NOR {
                !(a | b)
            } else if body == Arithmetic::XOR {
                a ^ b
            } else if body == Arithmetic::XNOR {
                !(a ^ b)
            } else {
                return Err(VmError::BadArithmetic { pc, instruction: ins });
            };
            self.registers[3] = v;
            Ok(self.advance())
        } else if class == InstructionType::CONDITIONAL {
            let r3 = self.registers[3];
            let jump = if body == Conditional::NOP {
                false
            } else if body == Conditional::JMP {
                true
            } else if body == Conditional::JEZ {
                r3 == 0
            } else if body == Conditional::JNZ {
                r3 != 0
            } else if body == Conditional::JGZ {
                0 < r3 && r3 < 128
            } else if body == Conditional::JLEZ {
                r3 == 0 || r3 >= 128
            } else if body == Conditional::JGEZ {
                r3 < 128
            } else if body == Conditional::JLZ {
                r3 >= 128
            } else {
                return Err(VmError::BadConditional { pc, instruction: ins });
            };
            if jump {
                self.pc = self.registers[0];
                Ok(true)
            } else {
                Ok(self.advance())
            }
        } else if class == InstructionType::MOVE {
            let from = body >> 3;
            let to = body & 7;
            assert(from == body / 8 && to == body % 8) by (bit_vector)
                requires from == body >> 3, to == body & 7;
            let value = if from == FromStore::UNKNOWN {
                return Err(VmError::BadSource { pc });
            } else if from == FromStore::IN {
                if self.consumed >= input.len() {
                    return Err(VmError::InputExhausted { pc });
                }
                let v = input[self.consumed];
                self.consumed = self.consumed + 1;
                v
            } else {
                self.registers[from as usize]
            };
            if to == ToStore::UNKNOWN {
                return Err(VmError::BadDestination { pc });
            } else if to == ToStore::OUT {
                self.output.push(value);
            } else {
                self.registers[to as usize] = value;
            }
            Ok(self.advance())
        } else {
            self.registers[0] = body;
            Ok(self.advance())
        }
    }
}

/// Where a bounded run stopped.
pub struct Execution {
    pub machine: Machine,
    /// True when the program finished; false when the step budget ran out first.
    pub halted: bool,
}

/// Runs `program` on `input` from load time for at most `max_steps` steps.
/// A program longer than `MAX_PROGRAM_LEN` is refused before it starts.
pub fn interpret(program: &[u8], input: &[u8], max_steps: u64) -> (r: Result<Execution, VmError>)
    ensures
        program@.len() > MAX_PROGRAM_LEN ==> r == Err::<Execution, VmError>(VmError::ProgramTooLong { len: program.len() }),
        program@.len() <= MAX_PROGRAM_LEN ==> match run_spec(program@, input@, initial_state(), max_steps as nat) {
            Ok((s, running)) => r is Ok && r->Ok_0.machine@ == s && r->Ok_0.halted == !running,
            Err(e) => r == Err::<Execution, VmError>(e),
        },
{
    if program.len() > MAX_PROGRAM_LEN {
        return Err(VmError::ProgramTooLong { len: program.len() });
    }
    let mut machine = Machine::new();
    let mut left: u64 = max_steps;
    while left > 0
        invariant
            program@.len() <= MAX_PROGRAM_LEN,
            machine.consumed <= input@.len(),
            run_spec(program@, input@, initial_state(), max_steps as nat)
                == run_spec(program@, input@, machine@, left as nat),
        decreases left,
    {
        let running = machine.step(program, input)?;
        if !running {
            return Ok(Execution { machine, halted: true });
        }
        left = left - 1;
    }
    Ok(Execution { machine, halted: false })
}

/// A program with no instructions halts at once: nothing is written to a
/// register or to the output.
pub proof fn lemma_empty_program_halts(input: Seq<u8>, fuel: nat)
    requires
        fuel > 0,
    ensures
        run_spec(Seq::empty(), input, initial_state(), fuel) == Ok::<(MachineState, bool), VmError>((initial_state(), false)),
{
}

/// A program of `mov input output` repeated, run on an input shorter than the
/// program, fails with input exhausted at the move that follows the last input
/// byte, after copying every input byte to the output.
pub proof fn lemma_input_exhausted(k: nat, input: Seq<u8>, fuel: nat)
    requires
        input.len() < k <= MAX_PROGRAM_LEN,
        fuel > input.len(),
    ensures
        run_spec(Seq::new(k, |i: int| MOVE_INPUT_TO_OUTPUT), input, initial_state(), fuel)
            == Err::<(MachineState, bool), VmError>(VmError::InputExhausted { pc: input.len() as u8 }),
{
    let program = Seq::new(k, |i: int| MOVE_INPUT_TO_OUTPUT);
    let s0 = initial_state();
    assert(s0.output =~= input.take(0));
    lemma_copy_run(program, input, 0, s0, fuel);
}

proof fn lemma_copy_run(program: Seq<u8>, input: Seq<u8>, j: nat, m: MachineState, fuel: nat)
    requires
        input.len() < program.len() <= MAX_PROGRAM_LEN,
        forall|i: int| 0 <= i < program.len() ==> program[i] == MOVE_INPUT_TO_OUTPUT,
        j <= input.len(),
        m.pc == j,
        m.consumed == j,
        m.regs.len() == 6,
        fuel > input.len() - j,
    ensures
        run_spec(program, input, m, fuel)
            == Err::<(MachineState, bool), VmError>(VmError::InputExhausted { pc: input.len() as u8 }),
    decreases input.len() - j,
{
    assert(MOVE_INPUT_TO_OUTPUT / 64 == 2 && (MOVE_INPUT_TO_OUTPUT % 64) / 8 == 6 && (MOVE_INPUT_TO_OUTPUT % 64) % 8 == 6);
    if j < input.len() {
        let next = MachineState { pc: (m.pc + 1) as u8, consumed: m.consumed + 1, output: m.output.push(input[j as int]), ..m };
        assert(step_spec(program, input, m) == Ok::<(MachineState, bool), VmError>((next, true)));
        lemma_copy_run(program, input, j + 1, next, (fuel - 1) as nat);
    }
}

/// Loading `0` and then jumping unconditionally loops for ever: no step
/// budget is ever enough for the program to halt or fail.
pub proof fn lemma_jump_to_start_loops(input: Seq<u8>, fuel: nat)
    ensures
        run_spec(seq![0u8, JUMP], input, initial_state(), fuel) is Ok,
        run_spec(seq![0u8, JUMP], input, initial_state(), fuel)->Ok_0.1,
{
    lemma_loop_run(input, initial_state(), fuel);
}

proof fn lemma_loop_run(input: Seq<u8>, m: MachineState, fuel: nat)
    requires
        m.regs.len() == 6,
        m.pc == 0 || (m.pc == 1 && m.regs[0] == 0),
    ensures
        run_spec(seq![0u8, JUMP], input, m, fuel) is Ok,
        run_spec(seq![0u8, JUMP], input, m, fuel)->Ok_0.1,
    decreases fuel,
{
    let program = seq![0u8, JUMP];
    if fuel > 0 {
        assert(JUMP / 64 == 1 && JUMP % 64 == Conditional::JMP);
        if m.pc == 0 {
            let next = MachineState { regs: m.regs.update(0, 0u8), pc: 1, ..m };
            assert(step_spec(program, input, m) == Ok::<(MachineState, bool), VmError>((next, true)));
            lemma_loop_run(input, next, (fuel - 1) as nat);
        } else {
            let next = MachineState { pc: 0, ..m };
            assert(step_spec(program, input, m) == Ok::<(MachineState, bool), VmError>((next, true)));
            lemma_loop_run(input, next, (fuel - 1) as nat);
        }
    }
}

} // verus!
