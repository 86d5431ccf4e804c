//! The interpreter: a machine of 16-bit words with 32768 words of memory,
//! eight registers, an unbounded stack, and line-buffered character I/O.
//!
//! `VmState` is the mathematical model of a machine; `VmState::step` says what
//! one instruction does. The executable `SynacorVM` is proved to follow it.

use std::collections::HashMap;
use vstd::prelude::*;
use crate::text::{chars_of, string_of};

verus! {

broadcast use vstd::std_specs::hash::group_hash_axioms;

/// Largest literal value; also the last valid memory address.
pub const LITERAL_MAX: u16 = 32767;

/// Last operand value that names a register.
pub const REG_ADDR_MAX: u16 = 32775;

/// Number of registers.
pub const REG_N: usize = 8;

/// Arithmetic is carried out modulo this value.
pub const WORD_MOD: u32 = 32768;

/// Why a machine stopped with an error.
#[derive(Clone, Copy, Debug, PartialEq, Eq, Structural)]
pub enum VmError {
    /// An operand is neither a literal nor a register, or a register was required.
    OperandOutOfRange,
    /// A memory access beyond the last address.
    AddressOutOfRange,
    /// `pop` or `ret` on an empty stack.
    StackUnderflow,
    /// An opcode outside the instruction set.
    UndefinedOpcode,
    /// `mod` with a divisor of zero.
    DivideByZero,
}

/// How a machine halted.
#[derive(Clone, Copy, Debug, PartialEq, Eq, Structural)]
pub enum HaltReason {
    Clean,
    Error(VmError),
}

/// The run status of a machine.
#[derive(Clone, Copy, Debug, PartialEq, Eq, Structural)]
pub enum Status {
    Running,
    /// Paused on an input instruction whose buffer is exhausted.
    AwaitingInput,
    Halted(HaltReason),
}

/// Why an image could not be loaded.
#[derive(Clone, Copy, Debug, PartialEq, Eq, Structural)]
pub enum LoadError {
    /// The image has more words than memory has addresses.
    ImageTooLarge,
}

/// Whether an operand word names one of the eight registers.
pub open spec fn is_reg_word(w: u16) -> bool {
    LITERAL_MAX < w <= REG_ADDR_MAX
}

fn is_reg_addr(w: u16) -> (r: bool)
    ensures
        r == is_reg_word(w),
{
    w > LITERAL_MAX && w <= REG_ADDR_MAX
}

/// The register index that an operand word names.
pub open spec fn reg_of(w: u16) -> int {
    w - 32768
}

/// The result of the two-source instructions `eq`, `gt`, `add`, `mult`,
/// `mod`, `and` and `or` (opcodes 4, 5, 9 to 13); `None` for a zero divisor.
pub open spec fn alu(op: u16, x: u16, y: u16) -> Option<u16> {
    if op == 4 {
        Some(if x == y { 1u16 } else { 0u16 })
    } else if op == 5 {
        Some(if x > y { 1u16 } else { 0u16 })
    } else if op == 9 {
        Some(((x + y) % 32768) as u16)
    } else if op == 10 {
        Some(((x * y) % 32768) as u16)
    } else if op == 11 {
        if y == 0 { None } else { Some(((x % y) % 32768) as u16) }
    } else if op == 12 {
        Some(x & y)
    } else {
        Some(x | y)
    }
}

/// Whether an opcode is one of the two-source instructions.
pub open spec fn is_binary_op(op: u16) -> bool {
    op == 4 || op == 5 || (9 <= op <= 13)
}

/// The character that `out` emits for a value: its low byte.
pub open spec fn out_char(v: u16) -> char {
    (v as u8) as char
}

/// The word that `in` stores for a character: its code point, truncated.
pub open spec fn in_word(c: char) -> u16 {
    (c as u32) as u16
}

/// A line as the machine reads it: with a newline at its end.
pub open spec fn line_of(text: Seq<char>) -> Seq<char> {
    if text.len() > 0 && text.last() == '\n' {
        text
    } else {
        text.push('\n')
    }
}

/// The model of a machine.
pub struct VmState {
    /// Memory; an address absent from the map holds 0.
    pub mem: Map<u16, u16>,
    pub reg: Seq<u16>,
    pub stack: Seq<u16>,
    pub pc: u16,
    pub status: Status,
    pub interactive: bool,
    /// Characters written by `out` and not yet drained.
    pub output: Seq<char>,
    /// The current input line, and how much of it has been read.
    pub input: Seq<char>,
    pub input_pos: int,
}

impl VmState {
    /// The word at a memory address.
    pub open spec fn word(self, addr: int) -> u16 {
        if self.mem.contains_key(addr as u16) {
            self.mem[addr as u16]
        } else {
            0
        }
    }

    /// What an operand word stands for: itself, or a register's contents.
    pub open spec fn value(self, w: u16) -> Option<u16> {
        if w <= LITERAL_MAX {
            Some(w)
        } else if w <= REG_ADDR_MAX {
            Some(self.reg[reg_of(w)])
        } else {
            None
        }
    }

    /// Whether the `n` operand words of the current instruction lie in memory.
    pub open spec fn has_args(self, n: int) -> bool {
        self.pc + n <= LITERAL_MAX
    }

    /// The `k`-th operand word of the current instruction.
    pub open spec fn arg(self, k: int) -> u16 {
        self.word(self.pc + k)
    }

    pub open spec fn halt_with(self, e: VmError) -> VmState {
        VmState { status: Status::Halted(HaltReason::Error(e)), ..self }
    }

    pub open spec fn with_reg(self, w: u16, v: u16) -> VmState {
        VmState { reg: self.reg.update(reg_of(w), v), ..self }
    }

    pub open spec fn jump(self, target: int) -> VmState {
        VmState { pc: target as u16, ..self }
    }

    pub open spec fn advance(self, n: int) -> VmState {
        self.jump(self.pc + n)
    }

    /// Register `i` as `get_register` reads it: 0 past the last register.
    pub open spec fn reg_at(self, i: int) -> u16 {
        if 0 <= i < REG_N {
            self.reg[i]
        } else {
            0
        }
    }

    /// The machine after `set_register(i, v)`: unchanged past the last register.
    pub open spec fn set_reg_at(self, i: int, v: u16) -> VmState {
        if 0 <= i < REG_N {
            VmState { reg: self.reg.update(i, v), ..self }
        } else {
            self
        }
    }

    pub open spec fn is_running(self) -> bool {
        self.status == Status::Running
    }

    pub open spec fn is_halted(self) -> bool {
        self.status is Halted
    }

    /// `eq`, `gt`, `add`, `mult`, `mod`, `and`, `or`: register, source, source.
    pub open spec fn step_binary(self, op: u16) -> VmState {
        if !self.has_args(3) {
            self.halt_with(VmError::AddressOutOfRange)
        } else if !is_reg_word(self.arg(1)) {
            self.halt_with(VmError::OperandOutOfRange)
        } else {
            match (self.value(self.arg(2)), self.value(self.arg(3))) {
                (Some(x), Some(y)) => match alu(op, x, y) {
                    Some(r) => self.with_reg(self.arg(1), r).advance(4),
                    None => self.halt_with(VmError::DivideByZero),
                },
                _ => self.halt_with(VmError::OperandOutOfRange),
            }
        }
    }

    /// `not`: register, source; the 15-bit complement.
    pub open spec fn step_not(self) -> VmState {
        if !self.has_args(2) {
            self.halt_with(VmError::AddressOutOfRange)
        } else if !is_reg_word(self.arg(1)) {
            self.halt_with(VmError::OperandOutOfRange)
        } else {
            match self.value(self.arg(2)) {
                Some(x) => self.with_reg(self.arg(1), !x & LITERAL_MAX).advance(3),
                None => self.halt_with(VmError::OperandOutOfRange),
            }
        }
    }

    /// `set`: register, source.
    pub open spec fn step_set(self) -> VmState {
        if !self.has_args(2) {
            self.halt_with(VmError::AddressOutOfRange)
        } else if !is_reg_word(self.arg(1)) {
            self.halt_with(VmError::OperandOutOfRange)
        } else {
            match self.value(self.arg(2)) {
                Some(x) => self.with_reg(self.arg(1), x).advance(3),
                None => self.halt_with(VmError::OperandOutOfRange),
            }
        }
    }

    /// `rmem`: register, address.
    pub open spec fn step_rmem(self) -> VmState {
        if !self.has_args(2) {
            self.halt_with(VmError::AddressOutOfRange)
        } else if !is_reg_word(self.arg(1)) {
            self.halt_with(VmError::OperandOutOfRange)
        } else {
            match self.value(self.arg(2)) {
                Some(a) => if a > LITERAL_MAX {
                    self.halt_with(VmError::AddressOutOfRange)
                } else {
                    self.with_reg(self.arg(1), self.word(a as int)).advance(3)
                },
                None => self.halt_with(VmError::OperandOutOfRange),
            }
        }
    }

    /// `wmem`: address, source.
    pub open spec fn step_wmem(self) -> VmState {
        if !self.has_args(2) {
            self.halt_with(VmError::AddressOutOfRange)
        } else {
            match (self.value(self.arg(1)), self.value(self.arg(2))) {
                (Some(a), Some(v)) => if a > LITERAL_MAX {
                    self.halt_with(VmError::AddressOutOfRange)
                } else {
                    VmState { mem: self.mem.insert(a, v), ..self }.advance(3)
                },
                _ => self.halt_with(VmError::OperandOutOfRange),
            }
        }
    }

    /// `push`: source.
    pub open spec fn step_push(self) -> VmState {
        if !self.has_args(1) {
            self.halt_with(VmError::AddressOutOfRange)
        } else {
            match self.value(self.arg(1)) {
                Some(x) => VmState { stack: self.stack.push(x), ..self }.advance(2),
                None => self.halt_with(VmError::OperandOutOfRange),
            }
        }
    }

    /// `pop`: register.
    pub open spec fn step_pop(self) -> VmState {
        if !self.has_args(1) {
            self.halt_with(VmError::AddressOutOfRange)
        } else if !is_reg_word(self.arg(1)) {
            self.halt_with(VmError::OperandOutOfRange)
        } else if self.stack.len() == 0 {
            self.halt_with(VmError::StackUnderflow)
        } else {
            VmState { stack: self.stack.drop_last(), ..self }.with_reg(
                self.arg(1),
                self.stack.last(),
            ).advance(2)
        }
    }

    /// `jmp`: target.
    pub open spec fn step_jmp(self) -> VmState {
        if !self.has_args(1) {
            self.halt_with(VmError::AddressOutOfRange)
        } else {
            match self.value(self.arg(1)) {
                Some(t) => self.jump(t as int),
                None => self.halt_with(VmError::OperandOutOfRange),
            }
        }
    }

    /// `jt` (when `if_true`) and `jf`: condition, target.
    pub open spec fn step_branch(self, if_true: bool) -> VmState {
        if !self.has_args(2) {
            self.halt_with(VmError::AddressOutOfRange)
        } else {
            match (self.value(self.arg(1)), self.value(self.arg(2))) {
                (Some(c), Some(t)) => if (c != 0) == if_true {
                    self.jump(t as int)
                } else {
                    self.advance(3)
                },
                _ => self.halt_with(VmError::OperandOutOfRange),
            }
        }
    }

    /// `call`: target; the return address goes on the stack.
    pub open spec fn step_call(self) -> VmState {
        if !self.has_args(1) {
            self.halt_with(VmError::AddressOutOfRange)
        } else {
            match self.value(self.arg(1)) {
                Some(t) => VmState { stack: self.stack.push((self.pc + 2) as u16), ..self }.jump(
                    t as int,
                ),
                None => self.halt_with(VmError::OperandOutOfRange),
            }
        }
    }

    /// `ret`: jump to the address on top of the stack.
    pub open spec fn step_ret(self) -> VmState {
        if self.stack.len() == 0 {
            self.halt_with(VmError::StackUnderflow)
        } else {
            VmState { stack: self.stack.drop_last(), ..self }.jump(self.stack.last() as int)
        }
    }

    /// `out`: source.
    pub open spec fn step_out(self) -> VmState {
        if !self.has_args(1) {
            self.halt_with(VmError::AddressOutOfRange)
        } else {
            match self.value(self.arg(1)) {
                Some(x) => VmState { output: self.output.push(out_char(x)), ..self }.advance(2),
                None => self.halt_with(VmError::OperandOutOfRange),
            }
        }
    }

    /// `in`: register. With the line used up, the machine waits for input
    /// and the instruction stays current.
    pub open spec fn step_in(self) -> VmState {
        if !self.has_args(1) {
            self.halt_with(VmError::AddressOutOfRange)
        } else if !is_reg_word(self.arg(1)) {
            self.halt_with(VmError::OperandOutOfRange)
        } else if self.input_pos < self.input.len() {
            VmState { input_pos: self.input_pos + 1, ..self }.with_reg(
                self.arg(1),
                in_word(self.input[self.input_pos]),
            ).advance(2)
        } else {
            VmState { status: Status::AwaitingInput, ..self }
        }
    }

    /// One instruction, for a running machine.
    pub open spec fn step(self) -> VmState {
        if self.pc > LITERAL_MAX {
            self.halt_with(VmError::AddressOutOfRange)
        } else {
            let op = self.word(self.pc as int);
            if op == 0 {
                VmState { status: Status::Halted(HaltReason::Clean), ..self }.advance(1)
            } else if op == 1 {
                self.step_set()
            } else if op == 2 {
                self.step_push()
            } else if op == 3 {
                self.step_pop()
            } else if is_binary_op(op) {
                self.step_binary(op)
            } else if op == 6 {
                self.step_jmp()
            } else if op == 7 {
                self.step_branch(true)
            } else if op == 8 {
                self.step_branch(false)
            } else if op == 14 {
                self.step_not()
            } else if op == 15 {
                self.step_rmem()
            } else if op == 16 {
                self.step_wmem()
            } else if op == 17 {
                self.step_call()
            } else if op == 18 {
                self.step_ret()
            } else if op == 19 {
                self.step_out()
            } else if op == 20 {
                self.step_in()
            } else if op == 21 {
                self.advance(1)
            } else {
                self.halt_with(VmError::UndefinedOpcode)
            }
        }
    }

    /// Whether a machine waits for input but has an unread line ready.
    pub open spec fn input_ready(self) -> bool {
        self.status == Status::AwaitingInput && self.input_pos < self.input.len()
    }

    /// Whether the next step executes an instruction: the machine runs, or
    /// waits with a line ready.
    pub open spec fn can_run(self) -> bool {
        self.is_running() || self.input_ready()
    }

    /// A machine that waits with a line ready, running again; any other
    /// machine unchanged.
    pub open spec fn resumed(self) -> VmState {
        if self.input_ready() {
            VmState { status: Status::Running, ..self }
        } else {
            self
        }
    }

    /// Up to `n` instructions, stopping early once the machine halts or waits
    /// with no line ready.
    pub open spec fn run_for(self, n: nat) -> VmState
        decreases n,
    {
        if n == 0 || !self.can_run() {
            self
        } else {
            self.resumed().step().run_for((n - 1) as nat)
        }
    }

    /// Up to `n` instructions, stopping early at address `target` or once the
    /// machine halts or waits with no line ready.
    pub open spec fn run_until(self, target: u16, n: nat) -> VmState
        decreases n,
    {
        if n == 0 || self.pc == target || !self.can_run() {
            self
        } else {
            self.resumed().step().run_until(target, (n - 1) as nat)
        }
    }

    /// A fresh line handed to a machine that waits for one, which goes on
    /// waiting with the line ready; any other machine unchanged.
    pub open spec fn prime(self, text: Seq<char>) -> VmState {
        if self.status == Status::AwaitingInput {
            VmState { input: line_of(text), input_pos: 0, ..self }
        } else {
            self
        }
    }

    /// A line handed to a machine that waits for one, then a run; otherwise
    /// nothing.
    pub open spec fn feed(self, text: Seq<char>) -> VmState {
        if self.status == Status::AwaitingInput {
            self.prime(text).run_for(RUN_LIMIT as nat)
        } else {
            self
        }
    }
}

/// How many instructions `execute` runs at most before it gives control back.
pub const RUN_LIMIT: u64 = 0xffff_ffff_ffff_ffff;

/// An executable machine.
pub struct SynacorVM {
    mem: HashMap<u16, u16>,
    reg: Vec<u16>,
    stack: Vec<u16>,
    mem_ptr: u16,
    status: Status,
    interactive: bool,
    output_buff: Vec<char>,
    input_buff: Vec<char>,
    input_buff_index: usize,
}

impl View for SynacorVM {
    type V = VmState;

    closed spec fn view(&self) -> VmState {
        VmState {
            mem: self.mem@,
            reg: self.reg@,
            stack: self.stack@,
            pc: self.mem_ptr,
            status: self.status,
            interactive: self.interactive,
            output: self.output_buff@,
            input: self.input_buff@,
            input_pos: self.input_buff_index as int,
        }
    }
}

/// A model of a machine that an executable one can stand for.
pub open spec fn state_wf(s: VmState) -> bool {
    &&& s.reg.len() == REG_N
    &&& 0 <= s.input_pos <= s.input.len()
}

impl SynacorVM {
    pub open spec fn wf(&self) -> bool {
        state_wf(self@)
    }

    /// A machine with empty memory, zeroed registers and an empty stack.
    pub fn new(interactive: bool) -> (r: SynacorVM)
        ensures
            r.wf(),
            r@.mem == Map::<u16, u16>::empty(),
            r@.reg == Seq::new(8, |i: int| 0u16),
            r@.stack.len() == 0,
            r@.pc == 0,
            r@.status == Status::Running,
            r@.interactive == interactive,
            r@.output.len() == 0,
            r@.input.len() == 0,
            r@.input_pos == 0,
    {
        let mut reg: Vec<u16> = Vec::new();
        let mut i: usize = 0;
        while i < REG_N
            invariant
                i <= REG_N,
                reg@ == Seq::new(i as nat, |j: int| 0u16),
            decreases REG_N - i,
        {
            reg.push(0);
            i = i + 1;
        }
        SynacorVM {
            mem: HashMap::new(),
            reg,
            stack: Vec::new(),
            mem_ptr: 0,
            status: Status::Running,
            interactive,
            output_buff: Vec::new(),
            input_buff: Vec::new(),
            input_buff_index: 0,
        }
    }

}

impl Clone for SynacorVM {
    /// An independent copy, equal in every field.
    fn clone(&self) -> (r: SynacorVM)
        ensures
            r@ == self@,
    {
        SynacorVM {
            mem: self.mem.clone(),
            reg: self.reg.clone(),
            stack: self.stack.clone(),
            mem_ptr: self.mem_ptr,
            status: self.status,
            interactive: self.interactive,
            output_buff: self.output_buff.clone(),
            input_buff: self.input_buff.clone(),
            input_buff_index: self.input_buff_index,
        }
    }
}


/// The two-source instructions on values.
fn alu_exec(op: u16, x: u16, y: u16) -> (r: Option<u16>)
    requires
        is_binary_op(op),
    ensures
        r == alu(op, x, y),
{
    if op == 4 {
        Some(if x == y { 1u16 } else { 0u16 })
    } else if op == 5 {
        Some(if x > y { 1u16 } else { 0u16 })
    } else if op == 9 {
        Some(((x as u32 + y as u32) % WORD_MOD) as u16)
    } else if op == 10 {
        assert(x as u32 * y as u32 <= 0xffff * 0xffff) by (nonlinear_arith)
            requires
                x <= 0xffff,
                y <= 0xffff,
        ;
        Some(((x as u32 * y as u32) % WORD_MOD) as u16)
    } else if op == 11 {
        if y == 0 {
            None
        } else {
            Some((x % y) % (WORD_MOD as u16))
        }
    } else if op == 12 {
        Some(x & y)
    } else {
        Some(x | y)
    }
}

impl SynacorVM {
    /// The word at a memory address; `None` beyond the last address.
    fn mem_read(&self, addr: u16) -> (r: Option<u16>)
        ensures
            addr <= LITERAL_MAX ==> r == Some(self@.word(addr as int)),
            addr > LITERAL_MAX ==> r is None,
    {
        if addr > LITERAL_MAX {
            None
        } else {
            match self.mem.get(&addr) {
                Some(v) => Some(*v),
                None => Some(0),
            }
        }
    }

    /// The `k`-th operand word of the current instruction.
    fn arg(&self, k: u16) -> (r: u16)
        requires
            self@.pc + k <= LITERAL_MAX,
        ensures
            r == self@.arg(k as int),
    {
        let a = self.mem_ptr + k;
        match self.mem.get(&a) {
            Some(v) => *v,
            None => 0,
        }
    }

    /// What an operand word stands for.
    fn val(&self, w: u16) -> (r: Option<u16>)
        requires
            self.wf(),
        ensures
            r == self@.value(w),
    {
        if w <= LITERAL_MAX {
            Some(w)
        } else if w <= REG_ADDR_MAX {
            Some(self.reg[(w - 32768) as usize])
        } else {
            None
        }
    }

    fn reg_set(&mut self, w: u16, v: u16)
        requires
            old(self).wf(),
            is_reg_word(w),
        ensures
            final(self).wf(),
            final(self)@ == old(self)@.with_reg(w, v),
    {
        self.reg.set((w - 32768) as usize, v);
    }

    fn set_halt_with_error(&mut self, e: VmError)
        ensures
            final(self)@ == old(self)@.halt_with(e),
    {
        self.status = Status::Halted(HaltReason::Error(e));
    }

    fn op_halt(&mut self)
        requires
            old(self)@.pc <= LITERAL_MAX,
        ensures
            final(self)@ == (VmState { status: Status::Halted(HaltReason::Clean), ..old(self)@ }).advance(1),
    {
        self.status = Status::Halted(HaltReason::Clean);
        self.mem_ptr = self.mem_ptr + 1;
    }

    fn op_set(&mut self)
        requires
            old(self).wf(),
            old(self)@.pc <= LITERAL_MAX,
        ensures
            final(self).wf(),
            final(self)@ == old(self)@.step_set(),
    {
        if self.mem_ptr > LITERAL_MAX - 2 {
            self.set_halt_with_error(VmError::AddressOutOfRange);
            return;
        }
        let a = self.arg(1);
        let b = self.arg(2);
        if !is_reg_addr(a) {
            self.set_halt_with_error(VmError::OperandOutOfRange);
            return;
        }
        match self.val(b) {
            Some(x) => {
                self.reg_set(a, x);
                self.mem_ptr = self.mem_ptr + 3;
            },
            None => self.set_halt_with_error(VmError::OperandOutOfRange),
        }
    }

    fn op_push(&mut self)
        requires
            old(self).wf(),
            old(self)@.pc <= LITERAL_MAX,
        ensures
            final(self).wf(),
            final(self)@ == old(self)@.step_push(),
    {
        if self.mem_ptr > LITERAL_MAX - 1 {
            self.set_halt_with_error(VmError::AddressOutOfRange);
            return;
        }
        let a = self.arg(1);
        match self.val(a) {
            Some(x) => {
                self.stack.push(x);
                self.mem_ptr = self.mem_ptr + 2;
            },
            None => self.set_halt_with_error(VmError::OperandOutOfRange),
        }
    }

    fn op_pop(&mut self)
        requires
            old(self).wf(),
            old(self)@.pc <= LITERAL_MAX,
        ensures
            final(self).wf(),
            final(self)@ == old(self)@.step_pop(),
    {
        if self.mem_ptr > LITERAL_MAX - 1 {
            self.set_halt_with_error(VmError::AddressOutOfRange);
            return;
        }
        let a = self.arg(1);
        if !is_reg_addr(a) {
            self.set_halt_with_error(VmError::OperandOutOfRange);
            return;
        }
        match self.stack.pop() {
            Some(x) => {
                self.reg_set(a, x);
                self.mem_ptr = self.mem_ptr + 2;
            },
            None => self.set_halt_with_error(VmError::StackUnderflow),
        }
    }

    /// `eq`, `gt`, `add`, `mult`, `mod`, `and` and `or`.
    fn op_binary(&mut self, op: u16)
        requires
            old(self).wf(),
            old(self)@.pc <= LITERAL_MAX,
            is_binary_op(op),
        ensures
            final(self).wf(),
            final(self)@ == old(self)@.step_binary(op),
    {
        if self.mem_ptr > LITERAL_MAX - 3 {
            self.set_halt_with_error(VmError::AddressOutOfRange);
            return;
        }
        let a = self.arg(1);
        let b = self.arg(2);
        let c = self.arg(3);
        if !is_reg_addr(a) {
            self.set_halt_with_error(VmError::OperandOutOfRange);
            return;
        }
        let x = match self.val(b) {
            Some(x) => x,
            None => {
                self.set_halt_with_error(VmError::OperandOutOfRange);
                return;
            },
        };
        let y = match self.val(c) {
            Some(y) => y,
            None => {
                self.set_halt_with_error(VmError::OperandOutOfRange);
                return;
            },
        };
        match alu_exec(op, x, y) {
            Some(r) => {
                self.reg_set(a, r);
                self.mem_ptr = self.mem_ptr + 4;
            },
            None => self.set_halt_with_error(VmError::DivideByZero),
        }
    }

    fn op_not(&mut self)
        requires
            old(self).wf(),
            old(self)@.pc <= LITERAL_MAX,
        ensures
            final(self).wf(),
            final(self)@ == old(self)@.step_not(),
    {
        if self.mem_ptr > LITERAL_MAX - 2 {
            self.set_halt_with_error(VmError::AddressOutOfRange);
            return;
        }
        let a = self.arg(1);
        let b = self.arg(2);
        if !is_reg_addr(a) {
            self.set_halt_with_error(VmError::OperandOutOfRange);
            return;
        }
        match self.val(b) {
            Some(x) => {
                self.reg_set(a, !x & LITERAL_MAX);
                self.mem_ptr = self.mem_ptr + 3;
            },
            None => self.set_halt_with_error(VmError::OperandOutOfRange),
        }
    }

    fn op_jmp(&mut self)
        requires
            old(self).wf(),
            old(self)@.pc <= LITERAL_MAX,
        ensures
            final(self).wf(),
            final(self)@ == old(self)@.step_jmp(),
    {
        if self.mem_ptr > LITERAL_MAX - 1 {
            self.set_halt_with_error(VmError::AddressOutOfRange);
            return;
        }
        let a = self.arg(1);
        match self.val(a) {
            Some(t) => self.mem_ptr = t,
            None => self.set_halt_with_error(VmError::OperandOutOfRange),
        }
    }

    /// `jt` (when `if_true`) and `jf`.
    fn op_branch(&mut self, if_true: bool)
        requires
            old(self).wf(),
            old(self)@.pc <= LITERAL_MAX,
        ensures
            final(self).wf(),
            final(self)@ == old(self)@.step_branch(if_true),
    {
        if self.mem_ptr > LITERAL_MAX - 2 {
            self.set_halt_with_error(VmError::AddressOutOfRange);
            return;
        }
        let a = self.arg(1);
        let b = self.arg(2);
        match (self.val(a), self.val(b)) {
            (Some(c), Some(t)) => {
                if (c != 0) == if_true {
                    self.mem_ptr = t;
                } else {
                    self.mem_ptr = self.mem_ptr + 3;
                }
            },
            _ => self.set_halt_with_error(VmError::OperandOutOfRange),
        }
    }

    fn op_rmem(&mut self)
        requires
            old(self).wf(),
            old(self)@.pc <= LITERAL_MAX,
        ensures
            final(self).wf(),
            final(self)@ == old(self)@.step_rmem(),
    {
        if self.mem_ptr > LITERAL_MAX - 2 {
            self.set_halt_with_error(VmError::AddressOutOfRange);
            return;
        }
        let a = self.arg(1);
        let b = self.arg(2);
        if !is_reg_addr(a) {
            self.set_halt_with_error(VmError::OperandOutOfRange);
            return;
        }
        match self.val(b) {
            Some(addr) => match self.mem_read(addr) {
                Some(v) => {
                    self.reg_set(a, v);
                    self.mem_ptr = self.mem_ptr + 3;
                },
                None => self.set_halt_with_error(VmError::AddressOutOfRange),
            },
            None => self.set_halt_with_error(VmError::OperandOutOfRange),
        }
    }

    fn op_wmem(&mut self)
        requires
            old(self).wf(),
            old(self)@.pc <= LITERAL_MAX,
        ensures
            final(self).wf(),
            final(self)@ == old(self)@.step_wmem(),
    {
        if self.mem_ptr > LITERAL_MAX - 2 {
            self.set_halt_with_error(VmError::AddressOutOfRange);
            return;
        }
        let a = self.arg(1);
        let b = self.arg(2);
        match (self.val(a), self.val(b)) {
            (Some(addr), Some(v)) => {
                if addr > LITERAL_MAX {
                    self.set_halt_with_error(VmError::AddressOutOfRange);
                } else {
                    self.mem.insert(addr, v);
                    self.mem_ptr = self.mem_ptr + 3;
                }
            },
            _ => self.set_halt_with_error(VmError::OperandOutOfRange),
        }
    }

    fn op_call(&mut self)
        requires
            old(self).wf(),
            old(self)@.pc <= LITERAL_MAX,
        ensures
            final(self).wf(),
            final(self)@ == old(self)@.step_call(),
    {
        if self.mem_ptr > LITERAL_MAX - 1 {
            self.set_halt_with_error(VmError::AddressOutOfRange);
            return;
        }
        let a = self.arg(1);
        match self.val(a) {
            Some(t) => {
                self.stack.push(self.mem_ptr + 2);
                self.mem_ptr = t;
            },
            None => self.set_halt_with_error(VmError::OperandOutOfRange),
        }
    }

    fn op_ret(&mut self)
        requires
            old(self).wf(),
        ensures
            final(self).wf(),
            final(self)@ == old(self)@.step_ret(),
    {
        match self.stack.pop() {
            Some(t) => self.mem_ptr = t,
            None => self.set_halt_with_error(VmError::StackUnderflow),
        }
    }

    fn op_out(&mut self)
        requires
            old(self).wf(),
            old(self)@.pc <= LITERAL_MAX,
        ensures
            final(self).wf(),
            final(self)@ == old(self)@.step_out(),
    {
        if self.mem_ptr > LITERAL_MAX - 1 {
            self.set_halt_with_error(VmError::AddressOutOfRange);
            return;
        }
        let a = self.arg(1);
        match self.val(a) {
            Some(x) => {
                let c = (x as u8) as char;
                self.output_buff.push(c);
                self.mem_ptr = self.mem_ptr + 2;
            },
            None => self.set_halt_with_error(VmError::OperandOutOfRange),
        }
    }

    fn op_in(&mut self)
        requires
            old(self).wf(),
            old(self)@.pc <= LITERAL_MAX,
        ensures
            final(self).wf(),
            final(self)@ == old(self)@.step_in(),
    {
        if self.mem_ptr > LITERAL_MAX - 1 {
            self.set_halt_with_error(VmError::AddressOutOfRange);
            return;
        }
        let a = self.arg(1);
        if !is_reg_addr(a) {
            self.set_halt_with_error(VmError::OperandOutOfRange);
            return;
        }
        if self.input_buff_index < self.input_buff.len() {
            let c = self.input_buff[self.input_buff_index];
            self.input_buff_index = self.input_buff_index + 1;
            self.reg_set(a, (c as u32) as u16);
            self.mem_ptr = self.mem_ptr + 2;
        } else {
            self.status = Status::AwaitingInput;
        }
    }

    fn op_noop(&mut self)
        requires
            old(self)@.pc <= LITERAL_MAX,
        ensures
            final(self)@ == old(self)@.advance(1),
    {
        self.mem_ptr = self.mem_ptr + 1;
    }

    fn op_undefined(&mut self)
        ensures
            final(self)@ == old(self)@.halt_with(VmError::UndefinedOpcode),
    {
        self.set_halt_with_error(VmError::UndefinedOpcode);
    }

    /// Decodes and executes the instruction at the program counter.
    fn execute_one(&mut self)
        requires
            old(self).wf(),
        ensures
            final(self).wf(),
            final(self)@ == old(self)@.step(),
    {
        let op = match self.mem_read(self.mem_ptr) {
            Some(op) => op,
            None => {
                self.set_halt_with_error(VmError::AddressOutOfRange);
                return;
            },
        };
        if op == 0 {
            self.op_halt();
        } else if op == 1 {
            self.op_set();
        } else if op == 2 {
            self.op_push();
        } else if op == 3 {
            self.op_pop();
        } else if op == 4 || op == 5 || (9 <= op && op <= 13) {
            self.op_binary(op);
        } else if op == 6 {
            self.op_jmp();
        } else if op == 7 {
            self.op_branch(true);
        } else if op == 8 {
            self.op_branch(false);
        } else if op == 14 {
            self.op_not();
        } else if op == 15 {
            self.op_rmem();
        } else if op == 16 {
            self.op_wmem();
        } else if op == 17 {
            self.op_call();
        } else if op == 18 {
            self.op_ret();
        } else if op == 19 {
            self.op_out();
        } else if op == 20 {
            self.op_in();
        } else if op == 21 {
            self.op_noop();
        } else {
            self.op_undefined();
        }
    }
}

/// The memory that an image of words gives: word `i` at address `i`.
pub open spec fn image_mem(words: Seq<u16>) -> Map<u16, u16> {
    Map::new(|a: u16| (a as int) < words.len(), |a: u16| words[a as int])
}

impl SynacorVM {
    /// Runs at most `limit` instructions, stopping early once the machine
    /// halts or waits for input with no line ready.
    pub fn run_steps(&mut self, limit: u64)
        requires
            old(self).wf(),
        ensures
            final(self).wf(),
            final(self)@ == old(self)@.run_for(limit as nat),
    {
        let mut i: u64 = 0;
        while i < limit && self.can_run()
            invariant
                self.wf(),
                i <= limit,
                old(self)@.run_for(limit as nat) == self@.run_for((limit - i) as nat),
            decreases limit - i,
        {
            self.resume();
            self.execute_one();
            i = i + 1;
        }
    }

    /// Runs until the machine halts or waits for input with no line ready
    /// (or `RUN_LIMIT` instructions have run); a machine waiting with a line
    /// ready resumes first.
    pub fn execute(&mut self)
        requires
            old(self).wf(),
        ensures
            final(self).wf(),
            final(self)@ == old(self)@.run_for(RUN_LIMIT as nat),
    {
        self.run_steps(RUN_LIMIT);
    }

    /// Runs until the program counter reaches `target`, the machine halts or
    /// waits, or `limit` instructions have run; says whether `target` was
    /// reached.
    pub fn run_until(&mut self, target: u16, limit: u64) -> (r: bool)
        requires
            old(self).wf(),
        ensures
            final(self).wf(),
            final(self)@ == old(self)@.run_until(target, limit as nat),
            r == (final(self)@.pc == target),
    {
        let mut i: u64 = 0;
        while i < limit && self.mem_ptr != target && self.can_run()
            invariant
                self.wf(),
                i <= limit,
                old(self)@.run_until(target, limit as nat) == self@.run_until(
                    target,
                    (limit - i) as nat,
                ),
            decreases limit - i,
        {
            self.resume();
            self.execute_one();
            i = i + 1;
        }
        self.mem_ptr == target
    }

    /// Whether the next step executes an instruction.
    fn can_run(&self) -> (r: bool)
        ensures
            r == self@.can_run(),
    {
        match self.status {
            Status::Running => true,
            Status::AwaitingInput => self.input_buff_index < self.input_buff.len(),
            _ => false,
        }
    }

    /// Sets a machine that waits with a line ready running again.
    fn resume(&mut self)
        ensures
            final(self)@ == old(self)@.resumed(),
    {
        if self.status == Status::AwaitingInput && self.input_buff_index < self.input_buff.len() {
            self.status = Status::Running;
        }
    }

    /// Executes one instruction; does nothing to a machine that is halted or
    /// waits for input with no line ready.
    pub fn execute_once(&mut self)
        requires
            old(self).wf(),
        ensures
            final(self).wf(),
            final(self)@ == old(self)@.run_for(1),
    {
        if self.can_run() {
            self.resume();
            self.execute_one();
            assert(self@.run_for(0) == self@);
        }
    }

    /// Hands a line to a machine that waits for input, without running it.
    fn prime_chars(&mut self, text: Vec<char>)
        requires
            old(self).wf(),
        ensures
            final(self).wf(),
            final(self)@ == old(self)@.prime(text@),
    {
        if self.status == Status::AwaitingInput {
            let mut line = text;
            let n = line.len();
            if !(n > 0 && line[n - 1] == '\n') {
                line.push('\n');
            }
            self.input_buff = line;
            self.input_buff_index = 0;
        }
    }

    /// Hands a line to a machine that waits for input, then runs it.
    /// Does nothing unless the machine waits for input.
    pub fn input_line_string(&mut self, input: String)
        requires
            old(self).wf(),
        ensures
            final(self).wf(),
            final(self)@ == old(self)@.feed(input@),
    {
        if self.status == Status::AwaitingInput {
            self.prime_chars(chars_of(input.as_str()));
            self.execute();
        }
    }

    /// As `input_line_string`.
    pub fn input_line(&mut self, input: &str)
        requires
            old(self).wf(),
        ensures
            final(self).wf(),
            final(self)@ == old(self)@.feed(input@),
    {
        if self.status == Status::AwaitingInput {
            self.prime_chars(chars_of(input));
            self.execute();
        }
    }

    /// Hands a line to a machine that waits for input, without running it: the
    /// machine goes on waiting with the line ready, and the next step or run
    /// resumes the waiting instruction. Does nothing unless the machine waits
    /// for input.
    pub fn set_input_line(&mut self, input: &str)
        requires
            old(self).wf(),
        ensures
            final(self).wf(),
            final(self)@ == old(self)@.prime(input@),
    {
        self.prime_chars(chars_of(input));
    }

    /// The output written so far; with `reset`, the buffer is emptied.
    pub fn output_line(&mut self, reset: bool) -> (r: String)
        requires
            old(self).wf(),
        ensures
            final(self).wf(),
            r@ == old(self)@.output,
            reset ==> final(self)@ == (VmState { output: Seq::empty(), ..old(self)@ }),
            !reset ==> final(self)@ == old(self)@,
    {
        let s = string_of(&self.output_buff);
        if reset {
            self.output_buff = Vec::new();
        }
        s
    }

    /// Marks the machine as driven from a console: its host then echoes the
    /// output as it comes and answers each input instruction from the console.
    /// A machine in interactive mode does not wait for input: switching it on
    /// sets a waiting machine running again, so its next run re-executes the
    /// input instruction.
    pub fn set_interactive(&mut self, interactive: bool)
        ensures
            final(self)@ == (VmState {
                interactive,
                status: if interactive && old(self)@.status == Status::AwaitingInput {
                    Status::Running
                } else {
                    old(self)@.status
                },
                ..old(self)@
            }),
            interactive ==> final(self)@.status != Status::AwaitingInput,
    {
        self.interactive = interactive;
        if interactive && self.status == Status::AwaitingInput {
            self.status = Status::Running;
        }
    }

    pub fn is_interactive(&self) -> (r: bool)
        ensures
            r == self@.interactive,
    {
        self.interactive
    }

    /// Sets register `index`; an index past the last register is ignored.
    pub fn set_register(&mut self, index: usize, val: u16)
        requires
            old(self).wf(),
        ensures
            final(self).wf(),
            final(self)@ == old(self)@.set_reg_at(index as int, val),
    {
        if index < REG_N {
            self.reg.set(index, val);
        }
    }

    /// Register `index`; 0 for an index past the last register.
    pub fn get_register(&self, index: usize) -> (r: u16)
        requires
            self.wf(),
        ensures
            r == self@.reg_at(index as int),
    {
        if index < REG_N {
            self.reg[index]
        } else {
            0
        }
    }

    /// The program counter.
    pub fn get_mem_ptr(&self) -> (r: u16)
        ensures
            r == self@.pc,
    {
        self.mem_ptr
    }

    pub fn set_mem_ptr(&mut self, ptr: u16)
        ensures
            final(self)@ == old(self)@.jump(ptr as int),
    {
        self.mem_ptr = ptr;
    }

    /// Replaces memory with an image: word `i` at address `i`, 0 elsewhere.
    /// An image longer than memory is refused and nothing changes.
    pub fn load_mem(&mut self, input: Vec<u16>) -> (r: Result<(), LoadError>)
        requires
            old(self).wf(),
        ensures
            final(self).wf(),
            input.len() > LITERAL_MAX as int + 1 ==> r == Err::<(), LoadError>(
                LoadError::ImageTooLarge,
            ) && final(self)@ == old(self)@,
            input.len() <= LITERAL_MAX as int + 1 ==> (r is Ok) && final(self)@ == (VmState {
                mem: image_mem(input@),
                ..old(self)@
            }),
    {
        if input.len() > LITERAL_MAX as usize + 1 {
            return Err(LoadError::ImageTooLarge);
        }
        let mut mem: HashMap<u16, u16> = HashMap::new();
        let mut i: usize = 0;
        while i < input.len()
            invariant
                input.len() <= LITERAL_MAX as int + 1,
                i <= input.len(),
                mem@ == Map::new(|a: u16| (a as int) < i, |a: u16| input@[a as int]),
            decreases input.len() - i,
        {
            mem.insert(i as u16, input[i]);
            i = i + 1;
            assert(mem@ =~= Map::new(|a: u16| (a as int) < i, |a: u16| input@[a as int]));
        }
        self.mem = mem;
        assert(self@.mem =~= image_mem(input@));
        Ok(())
    }

    /// The word at a memory address; an address beyond memory fails.
    pub fn get_mem(&self, addr: u16) -> (r: Result<u16, VmError>)
        ensures
            addr <= LITERAL_MAX ==> r == Ok::<u16, VmError>(self@.word(addr as int)),
            addr > LITERAL_MAX ==> r == Err::<u16, VmError>(VmError::AddressOutOfRange),
    {
        match self.mem_read(addr) {
            Some(v) => Ok(v),
            None => Err(VmError::AddressOutOfRange),
        }
    }

    /// Writes a word to memory; an address beyond memory fails and nothing
    /// changes.
    pub fn set_mem(&mut self, addr: u16, val: u16) -> (r: Result<(), VmError>)
        ensures
            addr <= LITERAL_MAX ==> (r is Ok) && final(self)@ == (VmState {
                mem: old(self)@.mem.insert(addr, val),
                ..old(self)@
            }),
            addr > LITERAL_MAX ==> r == Err::<(), VmError>(VmError::AddressOutOfRange)
                && final(self)@ == old(self)@,
    {
        if addr > LITERAL_MAX {
            Err(VmError::AddressOutOfRange)
        } else {
            self.mem.insert(addr, val);
            Ok(())
        }
    }

    pub fn status(&self) -> (r: Status)
        ensures
            r == self@.status,
    {
        self.status
    }

    pub fn is_halted(&self) -> (r: bool)
        ensures
            r == self@.is_halted(),
    {
        match self.status {
            Status::Halted(_) => true,
            _ => false,
        }
    }

    pub fn is_awaiting_input(&self) -> (r: bool)
        ensures
            r == (self@.status == Status::AwaitingInput),
    {
        self.status == Status::AwaitingInput
    }
}

/// Setting a register and reading it back gives the value set, for each of
/// the eight registers; the other registers keep their values.
pub proof fn lemma_register_round_trip(s: VmState, i: int, j: int, v: u16)
    requires
        state_wf(s),
        0 <= i < REG_N,
    ensures
        s.set_reg_at(i, v).reg_at(i) == v,
        j != i ==> s.set_reg_at(i, v).reg_at(j) == s.reg_at(j),
        state_wf(s.set_reg_at(i, v)),
{
}

/// `add`, `mult` and `mod` always give a value below 32768.
pub proof fn lemma_arithmetic_closed(op: u16, x: u16, y: u16)
    requires
        op == 9 || op == 10 || op == 11,
    ensures
        alu(op, x, y) matches Some(r) ==> r <= LITERAL_MAX,
        op != 11 ==> alu(op, x, y) is Some,
        op == 11 ==> (alu(op, x, y) is Some <==> y != 0),
{
}

/// On a running machine, `add`, `mult` and `mod` with a register
/// destination and valid sources write the reduced result, always below
/// 32768, into that register and move past the instruction; nothing else
/// changes.
pub proof fn lemma_arithmetic_step(s: VmState)
    requires
        state_wf(s),
        s.is_running(),
        s.pc + 3 <= LITERAL_MAX,
        s.word(s.pc as int) == 9 || s.word(s.pc as int) == 10 || s.word(s.pc as int) == 11,
        is_reg_word(s.arg(1)),
        s.value(s.arg(2)) is Some,
        s.value(s.arg(3)) is Some,
        s.word(s.pc as int) == 11 ==> s.value(s.arg(3)) != Some(0u16),
    ensures
        ({
            let t = s.step();
            let op = s.word(s.pc as int);
            let x = s.value(s.arg(2))->0;
            let y = s.value(s.arg(3))->0;
            &&& op == 9 ==> t.reg[reg_of(s.arg(1))] == (x + y) % 32768
            &&& op == 10 ==> t.reg[reg_of(s.arg(1))] == (x * y) % 32768
            &&& op == 11 ==> t.reg[reg_of(s.arg(1))] == (x % y) % 32768
            &&& t.reg[reg_of(s.arg(1))] <= LITERAL_MAX
            &&& forall|i: int| 0 <= i < REG_N && i != reg_of(s.arg(1)) ==> t.reg[i] == s.reg[i]
            &&& t.reg.len() == REG_N
            &&& t.pc == s.pc + 4
            &&& t.status == Status::Running
            &&& t.mem == s.mem && t.stack == s.stack && t.output == s.output
        }),
{
    let op = s.word(s.pc as int);
    let x = s.value(s.arg(2))->0;
    let y = s.value(s.arg(3))->0;
    lemma_arithmetic_closed(op, x, y);
    assert(is_binary_op(op));
}

/// A line handed to a machine that does not wait for input changes nothing.
/// A machine that waits gets the line with a newline at its end, to be read
/// from the first character, and the next step runs it again.
pub proof fn lemma_feed_line(s: VmState, text: Seq<char>)
    ensures
        s.status != Status::AwaitingInput ==> s.prime(text) == s && s.feed(text) == s,
        s.status == Status::AwaitingInput ==> {
            let t = s.prime(text);
            &&& t.status == Status::AwaitingInput
            &&& t.input_ready()
            &&& t.resumed().status == Status::Running
            &&& t.input == line_of(text)
            &&& t.input_pos == 0
            &&& t.input.last() == '\n'
            &&& t.input.subrange(0, text.len() as int) == text
            &&& t.reg == s.reg && t.mem == s.mem && t.pc == s.pc && t.stack == s.stack
        },
{
    if s.status == Status::AwaitingInput {
        assert(line_of(text).subrange(0, text.len() as int) =~= text);
    }
}

/// An input instruction on a running machine stores the next unread character
/// of the line in its register and moves past it; with the line used up, it
/// waits instead and nothing else changes.
pub proof fn lemma_input_in_order(s: VmState)
    requires
        state_wf(s),
        s.is_running(),
        s.pc <= LITERAL_MAX,
        s.word(s.pc as int) == 20,
        s.has_args(1),
        is_reg_word(s.arg(1)),
    ensures
        s.input_pos < s.input.len() ==> {
            let t = s.step();
            &&& t.reg[reg_of(s.arg(1))] == in_word(s.input[s.input_pos])
            &&& t.input_pos == s.input_pos + 1
            &&& t.input == s.input
            &&& t.status == Status::Running
            &&& t.pc == s.pc + 2
        },
        s.input_pos >= s.input.len() ==> s.step() == (VmState {
            status: Status::AwaitingInput,
            ..s
        }),
{
}

/// Loading `add r0 5 6; halt` into a fresh machine and running it leaves 11
/// in register 0 and the machine halted cleanly.
pub proof fn lemma_add_then_halt(s: VmState)
    requires
        state_wf(s),
        s.status == Status::Running,
        s.pc == 0,
        s.mem == image_mem(seq![9u16, 32768, 5, 6, 0]),
    ensures
        s.run_for(RUN_LIMIT as nat).reg[0] == 11,
        s.run_for(RUN_LIMIT as nat).status == Status::Halted(HaltReason::Clean),
{
    let t = s.step();
    assert(s.word(0) == 9 && s.word(1) == 32768 && s.word(2) == 5 && s.word(3) == 6);
    assert(t.reg[0] == 11 && t.pc == 4 && t.status == Status::Running && t.mem == s.mem);
    let u = t.step();
    assert(t.word(4) == 0);
    assert(u.reg[0] == 11 && u.status == Status::Halted(HaltReason::Clean));
    assert(s.run_for(RUN_LIMIT as nat) == t.run_for((RUN_LIMIT - 1) as nat));
    assert(t.run_for((RUN_LIMIT - 1) as nat) == u.run_for((RUN_LIMIT - 2) as nat));
    assert(u.run_for((RUN_LIMIT - 2) as nat) == u);
}

/// Counts how many times each memory position has been recorded, for finding
/// where a program spends its time.
pub struct InstructionAccumulator {
    acc: HashMap<u16, usize>,
}

impl View for InstructionAccumulator {
    type V = Map<u16, usize>;

    closed spec fn view(&self) -> Map<u16, usize> {
        self.acc@
    }
}

impl InstructionAccumulator {
    /// The count of a position: 0 for one never recorded.
    pub open spec fn count(self, pos: u16) -> usize {
        if self@.contains_key(pos) {
            self@[pos]
        } else {
            0
        }
    }

    pub fn new() -> (r: InstructionAccumulator)
        ensures
            r@ == Map::<u16, usize>::empty(),
    {
        InstructionAccumulator { acc: HashMap::new() }
    }

    pub fn clear(&mut self)
        ensures
            final(self)@ == Map::<u16, usize>::empty(),
    {
        self.acc.clear();
    }

    /// Counts one more visit to `pos`; a count at `usize::MAX` stays there.
    pub fn record(&mut self, pos: u16)
        ensures
            final(self)@ == old(self)@.insert(
                pos,
                if old(self).count(pos) == usize::MAX {
                    usize::MAX
                } else {
                    (old(self).count(pos) + 1) as usize
                },
            ),
    {
        let c: usize = match self.acc.get(&pos) {
            Some(c) => *c,
            None => 0,
        };
        let next: usize = if c == usize::MAX {
            c
        } else {
            c + 1
        };
        self.acc.insert(pos, next);
    }

    /// The recorded positions with their counts, by increasing position.
    pub fn counts(&self) -> (r: Vec<(u16, usize)>)
        ensures
            forall|i: int, j: int| 0 <= i < j < r.len() ==> r[i].0 < r[j].0,
            forall|i: int| 0 <= i < r.len() ==> self@.contains_key(#[trigger] r[i].0) && self@[r[i].0] == r[i].1,
            forall|p: u16| #[trigger] self@.contains_key(p) ==> exists|i: int| 0 <= i < r.len() && r[i].0 == p,
    {
        let mut r: Vec<(u16, usize)> = Vec::new();
        let mut p: u32 = 0;
        while p <= 0xffff
            invariant
                p <= 0x10000,
                forall|i: int| 0 <= i < r.len() ==> r[i].0 < p,
                forall|i: int, j: int| 0 <= i < j < r.len() ==> r[i].0 < r[j].0,
                forall|i: int| 0 <= i < r.len() ==> self@.contains_key(#[trigger] r[i].0) && self@[r[i].0] == r[i].1,
                forall|q: u16| #[trigger] self@.contains_key(q) && q < p ==> exists|i: int| 0 <= i < r.len() && r[i].0 == q,
            decreases 0x10000 - p,
        {
            let pos = p as u16;
            let ghost before = r@;
            match self.acc.get(&pos) {
                Some(c) => {
                    r.push((pos, *c));
                },
                None => {},
            }
            assert forall|q: u16| #[trigger] self@.contains_key(q) && q < p + 1 implies exists|i: int|
                0 <= i < r.len() && r[i].0 == q by {
                if q == pos {
                    assert(r[r.len() - 1].0 == q);
                } else {
                    let i = choose|i: int| 0 <= i < before.len() && before[i].0 == q;
                    assert(r[i].0 == q);
                }
            }
            p = p + 1;
        }
        r
    }
}

/// Word `i` of an image: bytes `2i` and `2i + 1`, low byte first; a missing
/// last byte counts as 0.
pub open spec fn image_word(bytes: Seq<u8>, i: int) -> int {
    bytes[2 * i] + 256 * (if 2 * i + 1 < bytes.len() {
        bytes[2 * i + 1] as int
    } else {
        0
    })
}

/// The words of a binary image, little-endian byte pairs, an odd trailing
/// byte padded with zero.
pub fn words_from_bytes(bytes: &Vec<u8>) -> (r: Vec<u16>)
    ensures
        r.len() == (bytes.len() + 1) / 2,
        forall|i: int| 0 <= i < r.len() ==> r[i] == image_word(bytes@, i),
{
    let n = bytes.len();
    let mut r: Vec<u16> = Vec::new();
    let mut i: usize = 0;
    while i < n / 2 + n % 2
        invariant
            n == bytes.len(),
            i <= n / 2 + n % 2,
            r.len() == i,
            forall|k: int| 0 <= k < r.len() ==> r[k] == image_word(bytes@, k),
        decreases n / 2 + n % 2 - i,
    {
        let lo = bytes[2 * i] as u16;
        let hi: u16 = if 2 * i + 1 < n {
            bytes[2 * i + 1] as u16
        } else {
            0
        };
        r.push(lo + 256 * hi);
        i = i + 1;
    }
    r
}

} // verus!
