//! The whole assembly pipeline in one call, as a host binding exposes it:
//! expansion, then parsing and assembly of the expanded text.
use vstd::prelude::*;

use crate::assembler::{parse_chars, parse_spec, ParseError};
use crate::expander::{expand_chars, expansion, ExpandError};
use crate::text::{chars_of, copy_bytes, string_of};

verus! {

/// The encoded program, its input bytes and the expanded source.
pub struct WasmSuccessfulParse {
    pub input: Vec<u8>,
    pub program: Vec<u8>,
    pub expanded: String,
}

impl WasmSuccessfulParse {
    pub fn from(input: Vec<u8>, program: Vec<u8>, expanded: String) -> (r: Self)
        ensures
            r.input@ == input@,
            r.program@ == program@,
            r.expanded@ == expanded@,
    {
        WasmSuccessfulParse { input, program, expanded }
    }

    pub fn get_program(&self) -> (r: Vec<u8>)
        ensures
            r@ == self.program@,
    {
        copy_bytes(self.program.as_slice())
    }

    pub fn get_input(&self) -> (r: Vec<u8>)
        ensures
            r@ == self.input@,
    {
        copy_bytes(self.input.as_slice())
    }

    pub fn get_expanded(&self) -> (r: String)
        ensures
            r@ == self.expanded@,
    {
        self.expanded.clone()
    }
}

/// Why the pipeline stopped.
#[derive(Debug, Clone, Copy, PartialEq, Eq, Structural)]
pub enum PipelineError {
    Expand(ExpandError),
    Parse(ParseError),
}

/// Expands `program`, then parses and assembles the expanded text.
pub fn parse_wasm_edition(program: &str) -> (r: Result<WasmSuccessfulParse, PipelineError>)
    ensures
        match r {
            Ok(w) => expansion(program@) == Ok::<Seq<char>, ExpandError>(w.expanded@)
                && parse_spec(w.expanded@) == Ok::<(Seq<u8>, Seq<u8>), ParseError>((w.input@, w.program@)),
            Err(PipelineError::Expand(e)) => expansion(program@) == Err::<Seq<char>, ExpandError>(e),
            Err(PipelineError::Parse(e)) => expansion(program@) is Ok
                && parse_spec(expansion(program@)->Ok_0) == Err::<(Seq<u8>, Seq<u8>), ParseError>(e),
        },
{
    let text = chars_of(program);
    let expanded = match expand_chars(text.as_slice()) {
        Ok(x) => x,
        Err(e) => return Err(PipelineError::Expand(e)),
    };
    match parse_chars(expanded.as_slice()) {
        Ok(p) => Ok(WasmSuccessfulParse::from(p.input, p.program, string_of(expanded.as_slice()))),
        Err(e) => Err(PipelineError::Parse(e)),
    }
}

} // verus!
