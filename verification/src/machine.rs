//! The abstract machine: its state, what one instruction does to it, and
//! what a bounded run does.
//!
//! The data pointer is kept on the tape. A shift that would move it off
//! either end, and any use of a cell while it is off the tape (which, for
//! a machine that started at cell zero, can only happen on an empty tape),
//! is reported as a tape overrun and leaves the machine as it was. A read that finds too few bytes is reported as an
//! input underflow, likewise without effect.

use vstd::prelude::*;
use vstd::arithmetic::div_mod::{lemma_add_mod_noop_right, lemma_sub_mod_noop_right};
use crate::ir::Ir;
use crate::jumps::{linked, points_at_partner};

verus! {

/// Why an instruction could not be executed.
#[derive(PartialEq, Eq, Clone, Copy, Debug, Structural)]
pub enum Fault {
    /// The data pointer would leave the tape, or a cell off the tape was
    /// needed.
    TapeOverrun,
    /// A read asked for more bytes than the input holds.
    InputUnderflow,
}

/// How a run ended.
#[derive(PartialEq, Eq, Clone, Copy, Debug, Structural)]
pub enum Status {
    /// The program counter is at or past the end of the program.
    Halted,
    /// The step budget ran out before the program ended.
    StepLimit,
    /// The next instruction faulted with `Fault::TapeOverrun`.
    TapeOverrun,
    /// The next instruction faulted with `Fault::InputUnderflow`.
    InputUnderflow,
}

/// The status a run ends with when an instruction faults.
pub open spec fn status_of(f: Fault) -> Status {
    match f {
        Fault::TapeOverrun => Status::TapeOverrun,
        Fault::InputUnderflow => Status::InputUnderflow,
    }
}

/// The state of a machine: a program, a byte tape, and two registers.
pub struct Machine {
    /// The instructions; never changed by execution.
    pub program: Seq<Ir>,
    /// The cells.
    pub tape: Seq<u8>,
    /// The index of the next instruction; at or past the end of the
    /// program the machine has halted.
    pub pc: nat,
    /// The index of the current cell.
    pub dp: nat,
}

/// What executing one instruction does: the state it leads to, how many
/// input bytes it took, and the bytes it wrote.
pub struct Effect {
    pub next: Machine,
    pub consumed: nat,
    pub emitted: Seq<u8>,
}

/// What a run does: the state it ends in, why it ended, how many input
/// bytes it took, and the bytes it wrote.
pub struct Run {
    pub machine: Machine,
    pub status: Status,
    pub consumed: nat,
    pub output: Seq<u8>,
}

impl Run {
    /// This run, as the continuation of one that had already taken
    /// `consumed` bytes of input and written `output`.
    pub open spec fn after(self, consumed: nat, output: Seq<u8>) -> Run {
        Run { consumed: consumed + self.consumed, output: output + self.output, ..self }
    }
}

/// The cell value `v` after `n` increments, each modulo 256.
pub open spec fn bumped(v: u8, n: nat) -> u8 {
    ((v + n) % 256) as u8
}

/// The cell value `v` after `n` decrements, each modulo 256.
pub open spec fn dropped(v: u8, n: nat) -> u8 {
    ((v - n) % 256) as u8
}

/// The tape with the cells from `at` on overwritten by `bytes`.
pub open spec fn overwritten(tape: Seq<u8>, at: nat, bytes: Seq<u8>) -> Seq<u8> {
    tape.subrange(0, at as int) + bytes + tape.subrange(
        (at + bytes.len()) as int,
        tape.len() as int,
    )
}

/// Only the count modulo 256 matters to a cell: `n` increments wrap as
/// `n % 256` increments do, and likewise for decrements.
pub proof fn lemma_count_mod_256(v: u8, n: nat)
    ensures
        bumped(v, n) == bumped(v, n % 256),
        dropped(v, n) == dropped(v, n % 256),
        bumped(v, n) == if v + n % 256 < 256 {
            v + n % 256
        } else {
            v + n % 256 - 256
        },
        dropped(v, n) == if v >= n % 256 {
            v - n % 256
        } else {
            v - n % 256 + 256
        },
{
    lemma_add_mod_noop_right(v as int, n as int, 256);
    lemma_sub_mod_noop_right(v as int, n as int, 256);
}

/// A counted increment is that many single increments, and a counted
/// decrement that many single decrements: one more step of 1 after `n`
/// gives the same cell as one step of `n + 1`.
pub proof fn lemma_one_by_one(v: u8, n: nat)
    ensures
        bumped(v, 0) == v,
        dropped(v, 0) == v,
        bumped(bumped(v, n), 1) == bumped(v, n + 1),
        dropped(dropped(v, n), 1) == dropped(v, n + 1),
{
    lemma_count_mod_256(v, n);
    lemma_count_mod_256(v, n + 1);
}

/// Increments wrap around: 256 of them leave any cell as it was, and so do
/// 256 decrements.
pub proof fn lemma_full_turn(v: u8)
    ensures
        bumped(v, 256) == v,
        dropped(v, 256) == v,
{
    lemma_count_mod_256(v, 256);
}

impl Machine {
    /// Whether the program counter has run past the last instruction.
    pub open spec fn halted(self) -> bool {
        self.pc >= self.program.len()
    }

    /// Whether the data pointer is on the tape.
    pub open spec fn on_tape(self) -> bool {
        self.dp < self.tape.len()
    }

    /// The value of the current cell.
    pub open spec fn cell(self) -> u8 {
        self.tape[self.dp as int]
    }

    /// This machine with the program counter moved to `pc`.
    pub open spec fn at(self, pc: nat) -> Machine {
        Machine { pc, ..self }
    }

    /// This machine with the data pointer moved to `dp` and the program
    /// counter advanced.
    pub open spec fn shifted(self, dp: nat) -> Machine {
        Machine { dp, pc: self.pc + 1, ..self }
    }

    /// This machine with the current cell set to `v` and the program
    /// counter advanced.
    pub open spec fn stored(self, v: u8) -> Machine {
        Machine { tape: self.tape.update(self.dp as int, v), pc: self.pc + 1, ..self }
    }

    /// An effect that touches neither input nor output.
    pub open spec fn quiet(next: Machine) -> Result<Effect, Fault> {
        Ok(Effect { next, consumed: 0, emitted: Seq::empty() })
    }

    /// What the instruction at the program counter does, given the unread
    /// input. Meaningful while the machine has not halted.
    pub open spec fn step(self, input: Seq<u8>) -> Result<Effect, Fault>
        recommends
            !self.halted(),
    {
        match self.program[self.pc as int] {
            Ir::ShiftR(n) => if self.dp + n < self.tape.len() {
                Self::quiet(self.shifted(self.dp + n as nat))
            } else {
                Err(Fault::TapeOverrun)
            },
            Ir::ShiftL(n) => if n <= self.dp && self.dp - n < self.tape.len() {
                Self::quiet(self.shifted((self.dp - n) as nat))
            } else {
                Err(Fault::TapeOverrun)
            },
            Ir::Incr(n) => if self.on_tape() {
                Self::quiet(self.stored(bumped(self.cell(), n as nat)))
            } else {
                Err(Fault::TapeOverrun)
            },
            Ir::Decr(n) => if self.on_tape() {
                Self::quiet(self.stored(dropped(self.cell(), n as nat)))
            } else {
                Err(Fault::TapeOverrun)
            },
            Ir::Write(n) => if self.on_tape() {
                Ok(
                    Effect {
                        next: self.at(self.pc + 1),
                        consumed: 0,
                        emitted: Seq::new(n as nat, |i: int| self.cell()),
                    },
                )
            } else {
                Err(Fault::TapeOverrun)
            },
            Ir::Read(n) => if self.dp + n > self.tape.len() {
                Err(Fault::TapeOverrun)
            } else if input.len() < n {
                Err(Fault::InputUnderflow)
            } else {
                Ok(
                    Effect {
                        next: Machine {
                            tape: overwritten(self.tape, self.dp, input.subrange(0, n as int)),
                            pc: self.pc + 1,
                            ..self
                        },
                        consumed: n as nat,
                        emitted: Seq::empty(),
                    },
                )
            },
            Ir::Jez(target) => if self.on_tape() {
                Self::quiet(
                    self.at(
                        if self.cell() == 0 {
                            target as nat + 1
                        } else {
                            self.pc + 1
                        },
                    ),
                )
            } else {
                Err(Fault::TapeOverrun)
            },
            Ir::Jnez(target) => if self.on_tape() {
                Self::quiet(
                    self.at(
                        if self.cell() != 0 {
                            target as nat + 1
                        } else {
                            self.pc + 1
                        },
                    ),
                )
            } else {
                Err(Fault::TapeOverrun)
            },
        }
    }

    /// A run that ends here and now, with nothing read or written.
    pub open spec fn stop(self, status: Status) -> Run {
        Run { machine: self, status, consumed: 0, output: Seq::empty() }
    }

    /// What running the machine does, given the unread input and a budget
    /// of `fuel` instructions: fetch, execute, advance, until the program
    /// counter passes the end of the program, an instruction faults, or the
    /// budget is spent.
    pub open spec fn run(self, input: Seq<u8>, fuel: nat) -> Run
        decreases fuel,
    {
        if self.halted() {
            self.stop(Status::Halted)
        } else if fuel == 0 {
            self.stop(Status::StepLimit)
        } else {
            match self.step(input) {
                Err(f) => self.stop(status_of(f)),
                Ok(e) => e.next.run(input.skip(e.consumed as int), (fuel - 1) as nat).after(
                    e.consumed,
                    e.emitted,
                ),
            }
        }
    }
}

/// One instruction changes neither the program nor the length of the
/// tape. In a linked program it leaves the program counter at most one
/// past the last instruction, and a data pointer that was on the tape
/// stays on it. It takes no more input than there is.
pub proof fn lemma_step_keeps_bounds(m: Machine, input: Seq<u8>)
    requires
        !m.halted(),
        m.step(input) is Ok,
    ensures
        m.step(input)->Ok_0.next.program == m.program,
        m.step(input)->Ok_0.next.tape.len() == m.tape.len(),
        m.step(input)->Ok_0.consumed <= input.len(),
        linked(m.program) ==> m.step(input)->Ok_0.next.pc <= m.program.len(),
        m.on_tape() ==> m.step(input)->Ok_0.next.on_tape(),
{
    if linked(m.program) {
        assert(points_at_partner(m.program, m.pc as int));
    }
}

/// A run changes neither the program nor the length of the tape. In a
/// linked program a counter that was within `[0, program.len()]` ends
/// there, and a data pointer that was on the tape ends on it. A run takes
/// no more input than there is, and it ends as halted exactly when the
/// counter has reached the end of the program.
pub proof fn lemma_run_keeps_bounds(m: Machine, input: Seq<u8>, fuel: nat)
    ensures
        m.run(input, fuel).machine.program == m.program,
        m.run(input, fuel).machine.tape.len() == m.tape.len(),
        m.run(input, fuel).consumed <= input.len(),
        linked(m.program) && m.pc <= m.program.len() ==> m.run(input, fuel).machine.pc
            <= m.program.len(),
        m.on_tape() ==> m.run(input, fuel).machine.on_tape(),
        m.run(input, fuel).status == Status::Halted <==> m.run(input, fuel).machine.halted(),
    decreases fuel,
{
    if !m.halted() && fuel > 0 {
        match m.step(input) {
            Ok(e) => {
                lemma_step_keeps_bounds(m, input);
                lemma_run_keeps_bounds(e.next, input.skip(e.consumed as int), (fuel - 1) as nat);
            },
            Err(f) => {},
        }
    }
}

/// A machine with no program has halted before its first step: a run of
/// any budget, even none, ends at once as halted, with the machine
/// untouched, nothing read and nothing written.
pub proof fn lemma_empty_program_halts(m: Machine, input: Seq<u8>, fuel: nat)
    requires
        m.program.len() == 0,
    ensures
        m.run(input, fuel) == m.stop(Status::Halted),
{
}

/// A budget that was enough stays enough: a run that did not end for want
/// of steps ends the same way under any larger budget.
pub proof fn lemma_more_fuel(m: Machine, input: Seq<u8>, fuel: nat, more: nat)
    requires
        fuel <= more,
        m.run(input, fuel).status != Status::StepLimit,
    ensures
        m.run(input, more) == m.run(input, fuel),
    decreases fuel,
{
    if !m.halted() && fuel > 0 {
        match m.step(input) {
            Ok(e) => {
                lemma_more_fuel(
                    e.next,
                    input.skip(e.consumed as int),
                    (fuel - 1) as nat,
                    (more - 1) as nat,
                );
            },
            Err(f) => {},
        }
    }
}

/// An instruction that touches neither input nor output costs one unit of
/// budget and otherwise leaves the run to the state it leads to.
pub proof fn lemma_quiet_step(m: Machine, input: Seq<u8>, fuel: nat, next: Machine)
    requires
        !m.halted(),
        fuel > 0,
        m.step(input) == Machine::quiet(next),
    ensures
        m.run(input, fuel) == next.run(input, (fuel - 1) as nat),
{
    let rest = next.run(input, (fuel - 1) as nat);
    assert(input.skip(0) =~= input);
    assert(Seq::<u8>::empty() + rest.output =~= rest.output);
}

/// The program of the source text `[-]`: a loop that decrements the
/// current cell until it is zero.
pub open spec fn clear_loop() -> Seq<Ir> {
    seq![Ir::Jez(2), Ir::Decr(1), Ir::Jnez(0)]
}

/// The state the clearing loop ends in: the current cell zero, the counter
/// past the end, everything else as it was.
pub open spec fn cleared(m: Machine) -> Machine {
    Machine { tape: m.tape.update(m.dp as int, 0u8), pc: 3, ..m }
}

proof fn lemma_clear_loop_body(m: Machine, input: Seq<u8>, fuel: nat)
    requires
        m.program == clear_loop(),
        m.pc == 1,
        m.on_tape(),
        m.cell() >= 1,
        fuel >= 2 * m.cell(),
    ensures
        m.run(input, fuel) == cleared(m).stop(Status::Halted),
    decreases m.cell(),
{
    let v = m.cell();
    lemma_count_mod_256(v, 1);
    let m1 = m.stored(dropped(v, 1));
    lemma_quiet_step(m, input, fuel, m1);
    assert(m1.cell() == v - 1);
    let m2 = m1.at(
        if v != 1 {
            1
        } else {
            3
        },
    );
    lemma_quiet_step(m1, input, (fuel - 1) as nat, m2);
    if v != 1 {
        lemma_clear_loop_body(m2, input, (fuel - 2) as nat);
        assert(cleared(m2).tape =~= cleared(m).tape);
    } else {
        assert(m2.tape =~= cleared(m).tape);
    }
}

/// The clearing loop always ends, and ends with the current cell at zero:
/// started at its first instruction with the data pointer on the tape and
/// any value `v` in the current cell, it halts within `1 + 2 * v` steps,
/// having read and written nothing and changed no other cell.
pub proof fn lemma_clear_loop_clears(m: Machine, input: Seq<u8>, fuel: nat)
    requires
        m.program == clear_loop(),
        m.pc == 0,
        m.on_tape(),
        fuel >= 1 + 2 * m.cell(),
    ensures
        m.run(input, fuel) == cleared(m).stop(Status::Halted),
        m.run(input, fuel).machine.cell() == 0,
{
    if m.cell() == 0 {
        let m1 = m.at(3);
        lemma_quiet_step(m, input, fuel, m1);
        assert(m1.tape =~= cleared(m).tape);
    } else {
        let m1 = m.at(1);
        lemma_quiet_step(m, input, fuel, m1);
        lemma_clear_loop_body(m1, input, (fuel - 1) as nat);
    }
}

} // verus!
