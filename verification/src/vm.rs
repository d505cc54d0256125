//! The executable machine.

use vstd::prelude::*;
use vstd::slice::slice_subrange;
use crate::compile::compiled;
use crate::ir::Ir;
use crate::jumps::{
    brackets_balanced, is_pair, kinds, linked, points_at_partner, well_bracketed,
};
use crate::machine::{lemma_count_mod_256, overwritten, Fault, Machine, Run, Status};
use crate::token::tokens_of;

verus! {

/// Number of cells of a machine built by `Vm::default`.
pub const DEFAULT_TAPE_SIZE: usize = 30_000;

/// A machine: a zero-initialised byte tape, a program, a program counter
/// and a data pointer.
pub struct Vm {
    tape: Vec<u8>,
    program: Vec<Ir>,
    pc: usize,
    dp: usize,
}

impl View for Vm {
    type V = Machine;

    closed spec fn view(&self) -> Machine {
        Machine { program: self.program@, tape: self.tape@, pc: self.pc as nat, dp: self.dp as nat }
    }
}

/// What a call of `Vm::run` reports: why it returned, the bytes written,
/// and how many bytes of the input were taken.
pub struct Outcome {
    pub status: Status,
    pub output: Vec<u8>,
    pub consumed: usize,
}

/// A tape of `n` cells, all zero.
pub open spec fn blank_tape(n: nat) -> Seq<u8> {
    Seq::new(n, |i: int| 0u8)
}

impl Vm {
    /// The machine holds a program whose loop brackets point at their
    /// partners.
    pub open spec fn wf(&self) -> bool {
        linked(self@.program)
    }

    /// A machine with a blank tape of `tape_size` cells, no program, and
    /// both registers at zero.
    pub fn new(tape_size: usize) -> (vm: Vm)
        ensures
            vm.wf(),
            vm@ == (Machine {
                program: Seq::empty(),
                tape: blank_tape(tape_size as nat),
                pc: 0,
                dp: 0,
            }),
    {
        let tape: Vec<u8> = vec![0u8; tape_size];
        let vm = Vm { tape, program: Vec::new(), pc: 0, dp: 0 };
        proof {
            assert(vm.tape@ =~= blank_tape(tape_size as nat));
            assert(kinds(vm.program@) =~= Seq::<crate::token::Token>::empty());
        }
        vm
    }

    /// Executes the instruction at the program counter of a machine that
    /// has not halted.
    ///
    /// `input` is the unread input; bytes written are appended to
    /// `output`. On success the number of input bytes taken is returned.
    /// On a fault nothing changes.
    pub fn exec_opt(&mut self, input: &[u8], output: &mut Vec<u8>) -> (r: Result<usize, Fault>)
        requires
            old(self).wf(),
            !old(self)@.halted(),
        ensures
            final(self).wf(),
            match old(self)@.step(input@) {
                Ok(e) => {
                    &&& r matches Ok(taken)
                    &&& taken == e.consumed
                    &&& taken <= input@.len()
                    &&& final(self)@ == e.next
                    &&& final(output)@ == old(output)@ + e.emitted
                },
                Err(f) => {
                    &&& r == Err::<usize, Fault>(f)
                    &&& final(self)@ == old(self)@
                    &&& final(output)@ == old(output)@
                },
            },
    {
        let ghost m = self@;
        let ghost out0 = output@;
        let len = self.tape.len();
        let mut consumed: usize = 0;
        proof {
            assert(points_at_partner(self.program@, self.pc as int));
            assert(self.pc < self.program.len());
        }
        match self.program[self.pc] {
            Ir::ShiftR(n) => {
                if self.dp < len && n < len - self.dp {
                    self.dp = self.dp + n;
                } else {
                    return Err(Fault::TapeOverrun);
                }
            },
            Ir::ShiftL(n) => {
                if n <= self.dp && self.dp - n < len {
                    self.dp = self.dp - n;
                } else {
                    return Err(Fault::TapeOverrun);
                }
            },
            Ir::Incr(n) => {
                if self.dp >= len {
                    return Err(Fault::TapeOverrun);
                }
                let by: u8 = (n % 256) as u8;
                let v = self.tape[self.dp].wrapping_add(by);
                proof {
                    lemma_count_mod_256(m.cell(), n as nat);
                }
                self.tape.set(self.dp, v);
            },
            Ir::Decr(n) => {
                if self.dp >= len {
                    return Err(Fault::TapeOverrun);
                }
                let by: u8 = (n % 256) as u8;
                let v = self.tape[self.dp].wrapping_sub(by);
                proof {
                    lemma_count_mod_256(m.cell(), n as nat);
                }
                self.tape.set(self.dp, v);
            },
            Ir::Write(n) => {
                if self.dp >= len {
                    return Err(Fault::TapeOverrun);
                }
                let byte = self.tape[self.dp];
                let mut k: usize = 0;
                while k < n
                    invariant
                        k <= n,
                        self.pc < usize::MAX,
                        output@ == out0 + Seq::new(k as nat, |i: int| byte),
                    decreases n - k,
                {
                    output.push(byte);
                    k += 1;
                    assert(output@ =~= out0 + Seq::new(k as nat, |i: int| byte));
                }
            },
            Ir::Read(n) => {
                if self.dp > len || n > len - self.dp {
                    return Err(Fault::TapeOverrun);
                }
                if input.len() < n {
                    return Err(Fault::InputUnderflow);
                }
                let mut k: usize = 0;
                while k < n
                    invariant
                        k <= n,
                        n <= input@.len(),
                        self.dp + n <= len,
                        len == self.tape@.len(),
                        len == m.tape.len(),
                        self.dp == m.dp,
                        self.pc == m.pc,
                        self.pc < usize::MAX,
                        self.program@ == m.program,
                        self.tape@ == overwritten(m.tape, m.dp, input@.subrange(0, k as int)),
                    decreases n - k,
                {
                    self.tape.set(self.dp + k, input[k]);
                    k += 1;
                    assert(self.tape@ =~= overwritten(m.tape, m.dp, input@.subrange(0, k as int)));
                }
                consumed = n;
            },
            Ir::Jez(target) => {
                if self.dp >= len {
                    return Err(Fault::TapeOverrun);
                }
                if self.tape[self.dp] == 0 {
                    assert(is_pair(kinds(m.program), m.pc as int, target as int));
                    self.pc = target;
                }
            },
            Ir::Jnez(target) => {
                if self.dp >= len {
                    return Err(Fault::TapeOverrun);
                }
                if self.tape[self.dp] != 0 {
                    assert(is_pair(kinds(m.program), target as int, m.pc as int));
                    self.pc = target;
                }
            },
        }
        self.pc = self.pc + 1;
        Ok(consumed)
    }

    /// Tokenizes and compiles `input` and installs the result as the
    /// program. Tape and registers are left as they are. The brackets of
    /// `input` must be well nested; `try_load` tests this first.
    pub fn load(&mut self, input: &str)
        requires
            well_bracketed(tokens_of(input@)),
        ensures
            final(self).wf(),
            final(self)@ == (Machine { program: compiled(tokens_of(input@)), ..old(self)@ }),
    {
        let tokens = Vm::parse(input);
        self.program = Vm::compile(&tokens);
    }

    /// Loads `input` if its brackets are well nested, and says whether it
    /// did. A source with an unmatched bracket is refused and the machine
    /// keeps the program it had.
    pub fn try_load(&mut self, input: &str) -> (loaded: bool)
        ensures
            loaded == well_bracketed(tokens_of(input@)),
            loaded ==> final(self)@ == (Machine {
                program: compiled(tokens_of(input@)),
                ..old(self)@
            }),
            loaded ==> final(self).wf(),
            !loaded ==> final(self)@ == old(self)@,
    {
        let tokens = Vm::parse(input);
        if brackets_balanced(&tokens) {
            self.program = Vm::compile(&tokens);
            true
        } else {
            false
        }
    }

    /// Runs the program from where the machine stands: fetch, execute,
    /// advance, until the program counter passes the end of the program,
    /// an instruction faults, or `max_steps` instructions have been
    /// executed. `input` is the unread input. A fault leaves the machine at
    /// the instruction that caused it.
    pub fn run(&mut self, input: &[u8], max_steps: usize) -> (out: Outcome)
        requires
            old(self).wf(),
        ensures
            final(self).wf(),
            old(self)@.run(input@, max_steps as nat) == (Run {
                machine: final(self)@,
                status: out.status,
                consumed: out.consumed as nat,
                output: out.output@,
            }),
    {
        let ghost start = self@;
        let mut output: Vec<u8> = Vec::new();
        let mut pos: usize = 0;
        let mut left: usize = max_steps;
        let mut status = Status::Halted;
        proof {
            let whole = start.run(input@, max_steps as nat);
            assert(input@.skip(0) =~= input@);
            assert(Seq::<u8>::empty() + whole.output =~= whole.output);
        }
        loop
            invariant
                self.wf(),
                pos <= input@.len(),
                start.run(input@, max_steps as nat) == self@.run(
                    input@.skip(pos as int),
                    left as nat,
                ).after(pos as nat, output@),
            ensures
                self.wf(),
                pos <= input@.len(),
                start.run(input@, max_steps as nat) == self@.stop(status).after(
                    pos as nat,
                    output@,
                ),
            decreases left,
        {
            if self.pc >= self.program.len() {
                status = Status::Halted;
                break ;
            }
            if left == 0 {
                status = Status::StepLimit;
                break ;
            }
            let ghost before = self@;
            let ghost written = output@;
            let unread = slice_subrange(input, pos, input.len());
            assert(unread@ =~= input@.skip(pos as int));
            match self.exec_opt(unread, &mut output) {
                Ok(taken) => {
                    proof {
                        let e = before.step(unread@)->Ok_0;
                        let rest = e.next.run(unread@.skip(taken as int), (left - 1) as nat);
                        assert(unread@.skip(taken as int) =~= input@.skip(pos + taken));
                        assert(rest.after(e.consumed, e.emitted).after(pos as nat, written)
                            =~= rest.after((pos + taken) as nat, output@)) by {
                            assert(written + (e.emitted + rest.output) =~= (written + e.emitted)
                                + rest.output);
                        }
                    }
                    pos = pos + taken;
                    left = left - 1;
                },
                Err(fault) => {
                    status =
                    match fault {
                        Fault::TapeOverrun => Status::TapeOverrun,
                        Fault::InputUnderflow => Status::InputUnderflow,
                    };
                    break ;
                },
            }
        }
        proof {
            assert(output@ + Seq::<u8>::empty() =~= output@);
        }
        Outcome { status, output, consumed: pos }
    }

    /// The index of the next instruction.
    pub fn pc(&self) -> (pc: usize)
        ensures
            pc == self@.pc,
    {
        self.pc
    }

    /// The index of the current cell.
    pub fn dp(&self) -> (dp: usize)
        ensures
            dp == self@.dp,
    {
        self.dp
    }

    /// The cells.
    pub fn tape(&self) -> (tape: &Vec<u8>)
        ensures
            tape@ == self@.tape,
    {
        &self.tape
    }

    /// The loaded program.
    pub fn program(&self) -> (program: &Vec<Ir>)
        ensures
            program@ == self@.program,
    {
        &self.program
    }
}

impl Default for Vm {
    fn default() -> (vm: Vm)
        ensures
            vm.wf(),
            vm@ == (Machine {
                program: Seq::empty(),
                tape: blank_tape(DEFAULT_TAPE_SIZE as nat),
                pc: 0,
                dp: 0,
            }),
    {
        Vm::new(DEFAULT_TAPE_SIZE)
    }
}

} // verus!
