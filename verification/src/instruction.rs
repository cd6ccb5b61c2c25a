//! Instructions and instruction books.
//!
//! An [`Instruction`] is a waveform: a type ([`InstrType`]) with its arguments. A constant
//! (`CONST`) carries its `value`; a sine (`SINE`) carries `freq` and optionally `amplitude`,
//! `phase` and `offset` (defaults 1, 0 and 0 are applied by whoever evaluates it). Argument
//! values are the bit patterns of binary64 numbers.
//!
//! An [`InstrBook`] places an instruction on a channel's clock grid: it starts at
//! `start_pos` (inclusive) and either ends at a given `end_pos` (exclusive) or, with no
//! end, keeps running until the next instruction or the end of the sequence.
use vstd::prelude::*;

verus! {

/// The kinds of instruction: `CONST` for a constant value, `SINE` for a sinusoid.
#[derive(Clone, Copy, PartialEq, Eq, Structural, Debug)]
pub enum InstrType {
    CONST,
    SINE,
}

/// The arguments of an instruction, each the bit pattern of a binary64 number.
#[derive(Clone, Copy, PartialEq, Eq, Structural, Debug)]
pub struct InstrArgs {
    pub value: Option<u64>,
    pub freq: Option<u64>,
    pub amplitude: Option<u64>,
    pub phase: Option<u64>,
    pub offset: Option<u64>,
}

impl InstrArgs {
    /// No argument set.
    pub fn new() -> (a: Self)
        ensures
            a == InstrArgs::empty(),
    {
        InstrArgs { value: None, freq: None, amplitude: None, phase: None, offset: None }
    }

    pub open spec fn empty() -> Self {
        InstrArgs { value: None, freq: None, amplitude: None, phase: None, offset: None }
    }
}

/// A waveform: an instruction type and its arguments.
#[derive(Clone, Copy, PartialEq, Eq, Structural, Debug)]
pub struct Instruction {
    pub instr_type: InstrType,
    pub args: InstrArgs,
}

/// The constant instruction with value `v`.
pub open spec fn const_instr(v: u64) -> Instruction {
    Instruction { instr_type: InstrType::CONST, args: InstrArgs { value: Some(v), ..InstrArgs::empty() } }
}

impl Instruction {
    /// The arguments that an instruction of this type needs are present:
    /// `value` for `CONST`, `freq` for `SINE`.
    pub open spec fn has_required_args(instr_type: InstrType, args: InstrArgs) -> bool {
        match instr_type {
            InstrType::CONST => args.value is Some,
            InstrType::SINE => args.freq is Some,
        }
    }

    pub open spec fn wf(&self) -> bool {
        Self::has_required_args(self.instr_type, self.args)
    }

    /// Builds an instruction; the arguments that its type needs must be present.
    pub fn new(instr_type: InstrType, args: InstrArgs) -> (r: Self)
        requires
            Self::has_required_args(instr_type, args),
        ensures
            r == (Instruction { instr_type, args }),
            r.wf(),
    {
        Instruction { instr_type, args }
    }

    /// The constant instruction with value `value`.
    pub fn new_const(value: u64) -> (r: Self)
        ensures
            r == const_instr(value),
            r.wf(),
    {
        let mut args = InstrArgs::new();
        args.value = Some(value);
        Instruction::new(InstrType::CONST, args)
    }

    /// A sine instruction with frequency `freq`; the optional arguments are set only when
    /// given.
    pub fn new_sine(freq: u64, amplitude: Option<u64>, phase: Option<u64>, dc_offset: Option<u64>) -> (r: Self)
        ensures
            r == (Instruction {
                instr_type: InstrType::SINE,
                args: InstrArgs {
                    value: None,
                    freq: Some(freq),
                    amplitude: amplitude,
                    phase: phase,
                    offset: dc_offset,
                },
            }),
            r.wf(),
    {
        let args = InstrArgs { value: None, freq: Some(freq), amplitude, phase, offset: dc_offset };
        Instruction::new(InstrType::SINE, args)
    }

    /// The value of a constant instruction (`None` for other types).
    pub fn const_value(&self) -> (r: Option<u64>)
        ensures
            r == self.const_value_spec(),
    {
        match self.instr_type {
            InstrType::CONST => self.args.value,
            _ => None,
        }
    }

    pub open spec fn const_value_spec(&self) -> Option<u64> {
        match self.instr_type {
            InstrType::CONST => self.args.value,
            _ => None,
        }
    }
}

/// An instruction placed on the clock grid: it starts at `start_pos`; `end_spec` is
/// `Some((end_pos, keep_val))` for an instruction that ends at `end_pos` (exclusive) and
/// then either keeps its last value (`keep_val`) or returns to the channel's default, and
/// `None` for one that runs until the next instruction or the end of the sequence.
/// `end_val` is the value that `func` takes at `end_pos` (for a constant, its value); it is
/// what is held after the end when `keep_val` is set.
#[derive(Clone, Copy, Debug)]
pub struct InstrBook {
    pub start_pos: usize,
    pub end_spec: Option<(usize, bool)>,
    pub func: Instruction,
    pub end_val: u64,
}

impl InstrBook {
    /// The interval is well formed: a given end lies strictly after the start, and an
    /// open-ended instruction leaves room for its one-tick effective length.
    pub open spec fn wf(&self) -> bool {
        &&& self.func.wf()
        &&& match self.end_spec {
            Some((end_pos, _)) => end_pos > self.start_pos,
            None => self.start_pos < usize::MAX,
        }
    }

    /// The end of the interval that the instruction claims: its `end_pos`, or one tick after
    /// its start when it has no end.
    pub open spec fn eff_end(&self) -> int {
        match self.end_spec {
            Some((end_pos, _)) => end_pos as int,
            None => self.start_pos + 1,
        }
    }

    /// The value held after the end of a `keep_val` instruction.
    pub open spec fn held_value(&self) -> u64 {
        match self.func.const_value_spec() {
            Some(v) => v,
            None => self.end_val,
        }
    }

    /// Creates a book; a given end must lie strictly after the start.
    pub fn new(start_pos: usize, end_spec: Option<(usize, bool)>, func: Instruction, end_val: u64) -> (r: Self)
        requires
            func.wf(),
            match end_spec {
                Some((end_pos, _)) => end_pos > start_pos,
                None => start_pos < usize::MAX,
            },
        ensures
            r == (InstrBook { start_pos, end_spec, func, end_val }),
            r.wf(),
    {
        InstrBook { start_pos, end_spec, func, end_val }
    }

    /// The given end, if any.
    pub fn end_pos(&self) -> (r: Option<usize>)
        ensures
            r == match self.end_spec {
                Some((e, _)) => Some(e),
                None => None,
            },
    {
        match self.end_spec {
            Some((e, _)) => Some(e),
            None => None,
        }
    }

    /// The end of the claimed interval (see [`InstrBook::eff_end`]).
    pub fn eff_end_pos(&self) -> (r: usize)
        requires
            self.wf(),
        ensures
            r == self.eff_end(),
    {
        match self.end_spec {
            Some((e, _)) => e,
            None => self.start_pos + 1,
        }
    }

    /// The value held after the end (see [`InstrBook::held_value`]).
    pub fn held(&self) -> (r: u64)
        ensures
            r == self.held_value(),
    {
        match self.func.const_value() {
            Some(v) => v,
            None => self.end_val,
        }
    }
}

} // verus!
