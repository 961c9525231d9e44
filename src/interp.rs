use vstd::prelude::*;
use crate::ir::{BFProgram, Instruction};

verus! {

/// The initial tape length; any cell reads zero until written.
pub const INITIAL_TAPE_LEN: usize = 64;

/// What one step of the interpreter did, or asks of its caller.
#[derive(Clone, Copy, Debug, PartialEq, Eq, Structural)]
pub enum Action {
    /// An instruction without I/O ran.
    Ran,
    /// The byte is to be written to the output.
    Wrote(u8),
    /// An input instruction waits for a byte: hand it over with `feed`.
    NeedsByte,
    /// The program has ended.
    Halted,
    /// A `Left` would move the tape pointer below cell 0; nothing changed.
    Underflow,
    /// A `Right` would move the tape pointer past `usize::MAX`; nothing changed.
    Overflow,
}

/// The state of the interpreter as values.
pub struct MachineState {
    pub ip: int,
    pub mp: int,
    pub tape: Seq<u8>,
    /// Repetitions of the current input or output instruction already done.
    pub done: int,
}

/// Interpreter state: instruction pointer, tape pointer and a growable tape.
pub struct Interpreter {
    ip: usize,
    mp: usize,
    memory: Vec<u8>,
    done: usize,
}

pub open spec fn cell(st: MachineState) -> u8 {
    st.tape[st.mp]
}

/// `st` with the current cell set to `b`.
pub open spec fn with_cell(st: MachineState, b: u8) -> MachineState {
    MachineState { tape: st.tape.update(st.mp, b), ..st }
}

/// One more repetition of a counted I/O instruction of count `n`.
pub open spec fn repeat_once(st: MachineState, n: int) -> MachineState {
    if st.done + 1 >= n {
        MachineState { ip: st.ip + 1, done: 0, ..st }
    } else {
        MachineState { done: st.done + 1, ..st }
    }
}

/// `tape` grown with zero cells, if needed, so that cell `mp` exists.
pub open spec fn grow(tape: Seq<u8>, mp: int) -> Seq<u8> {
    if mp < tape.len() {
        tape
    } else {
        tape + Seq::new((mp + 1 - tape.len()) as nat, |i: int| 0u8)
    }
}

/// One step of the interpreter that needs no input.
pub open spec fn step_spec(p: Seq<Instruction>, st: MachineState) -> (MachineState, Action) {
    let next = MachineState { ip: st.ip + 1, ..st };
    if st.ip < 0 || st.ip >= p.len() {
        (st, Action::Halted)
    } else {
        match p[st.ip] {
            Instruction::Add(n) => (with_cell(next, ((cell(st) + n) % 256) as u8), Action::Ran),
            Instruction::Sub(n) => (with_cell(next, ((cell(st) - n) % 256) as u8), Action::Ran),
            Instruction::Right(n) => if st.mp + n > usize::MAX {
                (st, Action::Overflow)
            } else {
                (
                    MachineState { mp: st.mp + n, tape: grow(st.tape, st.mp + n), ..next },
                    Action::Ran,
                )
            },
            Instruction::Left(n) => if st.mp < n {
                (st, Action::Underflow)
            } else {
                (MachineState { mp: st.mp - n, ..next }, Action::Ran)
            },
            Instruction::Output(n) => (repeat_once(st, n as int), Action::Wrote(cell(st))),
            Instruction::Input(_) => (st, Action::NeedsByte),
            Instruction::JumpIfZero(t) => if cell(st) == 0 {
                (MachineState { ip: t as int, ..st }, Action::Ran)
            } else {
                (next, Action::Ran)
            },
            Instruction::JumpIfNotZero(t) => if cell(st) != 0 {
                (MachineState { ip: t as int, ..st }, Action::Ran)
            } else {
                (next, Action::Ran)
            },
        }
    }
}

/// The state after the byte `b` is read by the current input instruction.
pub open spec fn feed_spec(p: Seq<Instruction>, st: MachineState, b: u8) -> MachineState {
    repeat_once(with_cell(st, b), p[st.ip]->Input_0 as int)
}

/// The start state: both pointers at 0 and a zeroed tape.
pub open spec fn initial_state() -> MachineState {
    MachineState {
        ip: 0,
        mp: 0,
        tape: Seq::new(INITIAL_TAPE_LEN as nat, |i: int| 0u8),
        done: 0,
    }
}

impl View for Interpreter {
    type V = MachineState;

    closed spec fn view(&self) -> MachineState {
        MachineState {
            ip: self.ip as int,
            mp: self.mp as int,
            tape: self.memory@,
            done: self.done as int,
        }
    }
}

impl Interpreter {
    /// The tape pointer names a cell of the tape.
    pub closed spec fn wf(&self) -> bool {
        self.mp < self.memory@.len()
    }

    pub fn new() -> (r: Interpreter)
        ensures
            r@ == initial_state(),
            r.wf(),
    {
        let mut memory: Vec<u8> = Vec::new();
        while memory.len() < INITIAL_TAPE_LEN
            invariant
                memory.len() <= INITIAL_TAPE_LEN,
                forall|i: int| 0 <= i < memory@.len() ==> memory@[i] == 0,
            decreases INITIAL_TAPE_LEN - memory.len(),
        {
            memory.push(0);
        }
        let r = Interpreter { ip: 0, mp: 0, memory, done: 0 };
        assert(r@.tape =~= initial_state().tape);
        r
    }

    /// The tape as it stands.
    pub fn tape(&self) -> (r: &Vec<u8>)
        ensures
            r@ == self@.tape,
    {
        &self.memory
    }

    /// Performs the current instruction unless it reads input.
    pub fn step(&mut self, program: &BFProgram) -> (a: Action)
        requires
            old(self).wf(),
        ensures
            final(self).wf(),
            (final(self)@, a) == step_spec(program@, old(self)@),
    {
        let ins = program.instructions();
        if self.ip >= ins.len() {
            return Action::Halted;
        }
        let mp = self.mp;
        match ins[self.ip] {
            Instruction::Add(n) => {
                let v = ((self.memory[mp] as u16 + n as u16) % 256) as u8;
                self.memory.set(mp, v);
                self.ip = self.ip + 1;
                assert(self@.tape =~= step_spec(program@, old(self)@).0.tape);
                Action::Ran
            },
            Instruction::Sub(n) => {
                let v = ((self.memory[mp] as u16 + 256 - n as u16) % 256) as u8;
                self.memory.set(mp, v);
                self.ip = self.ip + 1;
                assert(self@.tape =~= step_spec(program@, old(self)@).0.tape);
                Action::Ran
            },
            Instruction::Right(n) => {
                if mp > usize::MAX - n {
                    return Action::Overflow;
                }
                let target = mp + n;
                let ghost start = self.memory@;
                let ghost before = *self;
                while self.memory.len() <= target
                    invariant
                        self.ip == before.ip,
                        self.mp == before.mp,
                        self.done == before.done,
                        before.ip < ins@.len(),
                        start.len() <= self.memory@.len(),
                        self.memory@.len() <= target + 1 || self.memory@ == start,
                        forall|i: int| 0 <= i < start.len() ==> self.memory@[i] == start[i],
                        forall|i: int| start.len() <= i < self.memory@.len() ==> self.memory@[i] == 0,
                    decreases target + 1 - self.memory.len(),
                {
                    self.memory.push(0);
                }
                self.mp = target;
                self.ip = self.ip + 1;
                assert(self@.tape =~= grow(start, target as int));
                Action::Ran
            },
            Instruction::Left(n) => {
                if mp < n {
                    return Action::Underflow;
                }
                self.mp = mp - n;
                self.ip = self.ip + 1;
                Action::Ran
            },
            Instruction::Output(n) => {
                let b = self.memory[mp];
                if self.done >= n || n - self.done <= 1 {
                    self.ip = self.ip + 1;
                    self.done = 0;
                } else {
                    self.done = self.done + 1;
                }
                Action::Wrote(b)
            },
            Instruction::Input(_) => Action::NeedsByte,
            Instruction::JumpIfZero(t) => {
                if self.memory[mp] == 0 {
                    self.ip = t;
                } else {
                    self.ip = self.ip + 1;
                }
                Action::Ran
            },
            Instruction::JumpIfNotZero(t) => {
                if self.memory[mp] != 0 {
                    self.ip = t;
                } else {
                    self.ip = self.ip + 1;
                }
                Action::Ran
            },
        }
    }

    /// Hands the byte that the current input instruction reads.
    pub fn feed(&mut self, program: &BFProgram, byte: u8)
        requires
            old(self).wf(),
            step_spec(program@, old(self)@).1 == Action::NeedsByte,
        ensures
            final(self).wf(),
            final(self)@ == feed_spec(program@, old(self)@, byte),
    {
        let ins = program.instructions();
        // a vector's length fits in a `usize`, so the next index does too
        ins.len();
        let mp = self.mp;
        self.memory.set(mp, byte);
        if let Instruction::Input(n) = ins[self.ip] {
            if self.done >= n || n - self.done <= 1 {
                self.ip = self.ip + 1;
                self.done = 0;
            } else {
                self.done = self.done + 1;
            }
        }
        assert(self@.tape =~= feed_spec(program@, old(self)@, byte).tape);
    }
}


/// How a run with a given input and step budget ended.
#[derive(Clone, Copy, Debug, PartialEq, Eq, Structural)]
pub enum Outcome {
    /// The program ended.
    Halted,
    /// A `Left` moved below cell 0.
    Underflow,
    /// A `Right` moved past `usize::MAX`.
    Overflow,
    /// An input instruction found no byte left.
    EndOfInput,
    /// The step budget ran out.
    OutOfFuel,
}

/// Runs for at most `fuel` steps from `st`, reading from `input`: the final
/// state, the bytes written, and how the run ended.
pub open spec fn run_spec(p: Seq<Instruction>, st: MachineState, input: Seq<u8>, fuel: nat) -> (
    MachineState,
    Seq<u8>,
    Outcome,
)
    decreases fuel,
{
    if fuel == 0 {
        (st, Seq::empty(), Outcome::OutOfFuel)
    } else {
        let (next, a) = step_spec(p, st);
        match a {
            Action::Halted => (st, Seq::empty(), Outcome::Halted),
            Action::Underflow => (st, Seq::empty(), Outcome::Underflow),
            Action::Overflow => (st, Seq::empty(), Outcome::Overflow),
            Action::Ran => run_spec(p, next, input, (fuel - 1) as nat),
            Action::Wrote(b) => {
                let r = run_spec(p, next, input, (fuel - 1) as nat);
                (r.0, seq![b] + r.1, r.2)
            },
            Action::NeedsByte => if input.len() == 0 {
                (st, Seq::empty(), Outcome::EndOfInput)
            } else {
                run_spec(p, feed_spec(p, st, input[0]), input.drop_first(), (fuel - 1) as nat)
            },
        }
    }
}

/// The result of `run`.
pub struct RunResult {
    pub output: Vec<u8>,
    pub tape: Vec<u8>,
    pub outcome: Outcome,
}

/// Interprets `program` from the start state for at most `fuel` steps, with
/// `input` as the whole of its input.
pub fn run(program: &BFProgram, input: &Vec<u8>, fuel: usize) -> (r: RunResult)
    ensures
        ({
            let (st, out, o) = run_spec(program@, initial_state(), input@, fuel as nat);
            r.output@ == out && r.tape@ == st.tape && r.outcome == o
        }),
{
    let mut m = Interpreter::new();
    let mut output: Vec<u8> = Vec::new();
    let mut pos: usize = 0;
    let mut left: usize = fuel;
    let ghost total = run_spec(program@, initial_state(), input@, fuel as nat);
    proof {
        assert(input@.subrange(0, input@.len() as int) == input@);
        let r = run_spec(program@, m@, input@, fuel as nat);
        assert(output@ + r.1 == r.1);
    }
    loop
        invariant
            total == run_spec(program@, initial_state(), input@, fuel as nat),
            m.wf(),
            pos <= input@.len(),
            ({
                let r = run_spec(program@, m@, input@.subrange(pos as int, input@.len() as int), left as nat);
                total == (r.0, output@ + r.1, r.2)
            }),
        decreases left,
    {
        let ghost rest = input@.subrange(pos as int, input@.len() as int);
        if left == 0 {
            assert(output@ + Seq::<u8>::empty() == output@);
            return RunResult { output, tape: m.memory, outcome: Outcome::OutOfFuel };
        }
        let ghost st = m@;
        let a = m.step(program);
        match a {
            Action::Halted => {
                assert(output@ + Seq::<u8>::empty() == output@);
                return RunResult { output, tape: m.memory, outcome: Outcome::Halted };
            },
            Action::Underflow => {
                assert(output@ + Seq::<u8>::empty() == output@);
                return RunResult { output, tape: m.memory, outcome: Outcome::Underflow };
            },
            Action::Overflow => {
                assert(output@ + Seq::<u8>::empty() == output@);
                return RunResult { output, tape: m.memory, outcome: Outcome::Overflow };
            },
            Action::Ran => {},
            Action::Wrote(b) => {
                let ghost out0 = output@;
                output.push(b);
                proof {
                    let r = run_spec(program@, m@, rest, (left - 1) as nat);
                    assert(out0 + (seq![b] + r.1) == output@ + r.1);
                }
            },
            Action::NeedsByte => {
                if pos == input.len() {
                    assert(output@ + Seq::<u8>::empty() == output@);
                    return RunResult { output, tape: m.memory, outcome: Outcome::EndOfInput };
                }
                m.feed(program, input[pos]);
                proof {
                    assert(rest[0] == input@[pos as int]);
                    assert(rest.drop_first() == input@.subrange(pos + 1, input@.len() as int));
                }
                pos = pos + 1;
            },
        }
        left = left - 1;
    }
}

} // verus!
