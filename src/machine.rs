use vstd::prelude::*;
use crate::instruction::{Instruction, distance, pairs, linked};
use crate::memory::{Memory, zero_tape, cell_of};

verus! {

/// The state of the machine in the model: program counter, cursor and tape,
/// how much of the input has been read, all bytes written so far, and whether
/// an input instruction found the input exhausted.
pub struct Config {
    pub pc: int,
    pub cursor: int,
    pub tape: Map<int, u8>,
    pub consumed: nat,
    pub output: Seq<u8>,
    pub starved: bool,
}

/// Where every run starts: first instruction, cursor at the origin, tape of
/// zeros, nothing read or written.
pub open spec fn start() -> Config {
    Config {
        pc: 0,
        cursor: 0,
        tape: zero_tape(),
        consumed: 0,
        output: Seq::empty(),
        starved: false,
    }
}

/// Whether the program counter has left the program, which ends a run.
pub open spec fn halted(p: Seq<Instruction>, c: Config) -> bool {
    c.pc < 0 || c.pc >= p.len()
}

/// Whether the machine can take no further step.
pub open spec fn stopped(p: Seq<Instruction>, c: Config) -> bool {
    c.starved || halted(p, c)
}

/// One step of program `p` reading from `input`. Running out of input stops
/// the machine (`starved`) with the tape as it was.
pub open spec fn step(p: Seq<Instruction>, input: Seq<u8>, c: Config) -> Config {
    if stopped(p, c) {
        c
    } else {
        let v = cell_of(c.tape, c.cursor);
        let next = Config { pc: c.pc + 1, ..c };
        match p[c.pc] {
            Instruction::PointerIncrement(n) => Config { cursor: c.cursor + n, ..next },
            Instruction::PointerDecrement(n) => Config { cursor: c.cursor - n, ..next },
            Instruction::DataIncrement(n) => Config {
                tape: c.tape.insert(c.cursor, ((v + n) % 256) as u8),
                ..next
            },
            Instruction::DataDecrement(n) => Config {
                tape: c.tape.insert(c.cursor, ((v - n + 256) % 256) as u8),
                ..next
            },
            Instruction::Input => if c.consumed < input.len() {
                Config {
                    tape: c.tape.insert(c.cursor, input[c.consumed as int]),
                    consumed: c.consumed + 1,
                    ..next
                }
            } else {
                Config { starved: true, ..c }
            },
            Instruction::Output => Config { output: c.output.push(v), ..next },
            Instruction::JumpForward(d) => if v == 0 {
                Config { pc: c.pc + d + 1, ..c }
            } else {
                next
            },
            Instruction::JumpBackward(d) => if v != 0 {
                Config { pc: c.pc - d + 1, ..c }
            } else {
                next
            },
        }
    }
}

/// The state after `fuel` steps from `c`.
pub open spec fn run(p: Seq<Instruction>, input: Seq<u8>, c: Config, fuel: nat) -> Config
    decreases fuel,
{
    if fuel == 0 {
        c
    } else {
        run(p, input, step(p, input, c), (fuel - 1) as nat)
    }
}

/// Whether every jump of `p` lands inside the program: a forward jump on a
/// later instruction, a backward jump on an earlier one or itself.
pub open spec fn jumps_in_range(p: Seq<Instruction>) -> bool {
    forall|i: int|
        0 <= i < p.len() ==> match #[trigger] p[i] {
            Instruction::JumpForward(d) => i + d < p.len(),
            Instruction::JumpBackward(d) => d <= i,
            _ => true,
        }
}

/// A linked program's jumps all land inside it.
pub proof fn lemma_linked_jumps_in_range(s: Seq<Instruction>, t: Seq<Instruction>)
    requires
        linked(s, t),
    ensures
        jumps_in_range(t),
{
    assert forall|i: int| 0 <= i < t.len() implies match #[trigger] t[i] {
        Instruction::JumpForward(d) => i + d < t.len(),
        Instruction::JumpBackward(d) => d <= i,
        _ => true,
    } by {
        match s[i] {
            Instruction::JumpForward(_) => assert(pairs(s, i, i + distance(t[i]))),
            Instruction::JumpBackward(_) => assert(pairs(s, i - distance(t[i]), i)),
            _ => {},
        }
    }
}

/// Whether a cursor position fits the machine's signed index type.
pub open spec fn fits_cursor(i: int) -> bool {
    isize::MIN <= i <= isize::MAX
}

/// `fuel + 1` steps are `fuel` steps and then one more.
pub proof fn lemma_run_last(p: Seq<Instruction>, input: Seq<u8>, c: Config, fuel: nat)
    ensures
        run(p, input, c, fuel + 1) == step(p, input, run(p, input, c, fuel)),
    decreases fuel,
{
    reveal_with_fuel(run, 2);
    if fuel > 0 {
        lemma_run_last(p, input, step(p, input, c), (fuel - 1) as nat);
    }
}

/// The input offered to a single step: the byte if there is one.
pub open spec fn offered(input: Option<u8>) -> Seq<u8> {
    match input {
        Some(b) => seq![b],
        None => Seq::empty(),
    }
}

/// What one step of the machine did.
#[derive(Clone, Copy, Debug, PartialEq, Eq, Structural)]
pub enum Event {
    /// An instruction ran and wrote nothing.
    Continued,
    /// An output instruction ran and wrote this byte.
    Emitted(u8),
    /// The program counter is past the end: the program has finished.
    Halted,
    /// An input instruction ran with no byte to read.
    EndOfInput,
    /// A move would take the cursor outside the signed index range.
    CursorOverflow,
}

/// How a bounded run ended.
#[derive(Clone, Copy, Debug, PartialEq, Eq, Structural)]
pub enum Status {
    /// The program finished.
    Halted,
    /// An input instruction found the input exhausted.
    EndOfInput,
    /// A move would take the cursor outside the signed index range.
    CursorOverflow,
    /// The allowed number of steps ran out first.
    OutOfFuel,
}

/// The result of a bounded run: the bytes written, how the run ended, and how
/// many instructions ran.
pub struct RunOutcome {
    pub output: Vec<u8>,
    pub status: Status,
    pub steps: usize,
}

/// An executing machine: program counter, cursor and tape.
pub struct Machine {
    pub pc: usize,
    pub cursor: isize,
    pub memory: Memory,
}

impl Machine {
    /// The model state of this machine, with nothing read or written yet.
    pub open spec fn config(&self) -> Config {
        Config {
            pc: self.pc as int,
            cursor: self.cursor as int,
            tape: self.memory@,
            consumed: 0,
            output: Seq::empty(),
            starved: false,
        }
    }

    /// A machine at the start of a run.
    pub fn new() -> (r: Machine)
        ensures
            r.config() == start(),
    {
        Machine { pc: 0, cursor: 0, memory: Memory::new() }
    }

    /// Whether the next instruction reads input.
    pub fn wants_input(&self, program: &Vec<Instruction>) -> (r: bool)
        ensures
            r == (self.pc < program@.len() && program@[self.pc as int] is Input),
    {
        self.pc < program.len() && matches!(program[self.pc], Instruction::Input)
    }

    /// Runs the instruction at the program counter, reading `input` if it is an
    /// input instruction. A halted machine, one that finds no input to read,
    /// and one whose cursor would overflow stay as they are.
    pub fn step(&mut self, program: &Vec<Instruction>, input: Option<u8>) -> (r: Event)
        requires
            jumps_in_range(program@),
        ensures
            ({
                let next = step(program@, offered(input), old(self).config());
                &&& r == Event::Halted <==> halted(program@, old(self).config())
                &&& r == Event::EndOfInput <==> next.starved
                &&& r == Event::CursorOverflow <==> !fits_cursor(next.cursor)
                &&& r is Emitted <==> next.output.len() == 1
                &&& r is Emitted ==> next.output == seq![r->Emitted_0]
                &&& (r is Continued || r is Emitted) ==> final(self).config() == Config {
                    consumed: 0,
                    output: Seq::empty(),
                    ..next
                }
                &&& !(r is Continued || r is Emitted) ==> final(self).config() == old(
                    self,
                ).config()
            }),
    {
        proof {
            self.memory.lemma_total();
        }
        if self.pc >= program.len() {
            return Event::Halted;
        }
        let pc = self.pc;
        let cursor = self.cursor;
        match program[pc] {
            Instruction::PointerIncrement(n) => {
                let target: i128 = cursor as i128 + n as i128;
                if target > isize::MAX as i128 {
                    return Event::CursorOverflow;
                }
                self.cursor = target as isize;
                self.pc = pc + 1;
                Event::Continued
            },
            Instruction::PointerDecrement(n) => {
                let target: i128 = cursor as i128 - n as i128;
                if target < isize::MIN as i128 {
                    return Event::CursorOverflow;
                }
                self.cursor = target as isize;
                self.pc = pc + 1;
                Event::Continued
            },
            Instruction::DataIncrement(n) => {
                self.memory.add(cursor, n);
                self.pc = pc + 1;
                Event::Continued
            },
            Instruction::DataDecrement(n) => {
                self.memory.sub(cursor, n);
                self.pc = pc + 1;
                Event::Continued
            },
            Instruction::Input => match input {
                Some(b) => {
                    self.memory.set(cursor, b);
                    self.pc = pc + 1;
                    Event::Continued
                },
                None => Event::EndOfInput,
            },
            Instruction::Output => {
                let v = self.memory.get(cursor);
                self.pc = pc + 1;
                Event::Emitted(v)
            },
            Instruction::JumpForward(d) => {
                let v = self.memory.get(cursor);
                if v == 0 {
                    self.pc = pc + d + 1;
                } else {
                    self.pc = pc + 1;
                }
                Event::Continued
            },
            Instruction::JumpBackward(d) => {
                let v = self.memory.get(cursor);
                if v != 0 {
                    self.pc = pc - d + 1;
                } else {
                    self.pc = pc + 1;
                }
                Event::Continued
            },
        }
    }
}

/// A step taken against the whole input is the step taken against just the
/// byte it reads, with the earlier reads and writes put back in front.
proof fn lemma_step_offered(p: Seq<Instruction>, input: Seq<u8>, c: Config, byte: Option<u8>)
    requires
        !stopped(p, c),
        byte == (if p[c.pc] is Input {
            Some(input[c.consumed as int])
        } else {
            None::<u8>
        }),
        p[c.pc] is Input ==> c.consumed < input.len(),
    ensures
        ({
            let l = step(p, offered(byte), Config { consumed: 0, output: Seq::empty(), ..c });
            step(p, input, c) == Config {
                consumed: c.consumed + l.consumed,
                output: c.output + l.output,
                ..l
            }
        }),
{
    let l = step(p, offered(byte), Config { consumed: 0, output: Seq::empty(), ..c });
    assert(c.output =~= c.output + Seq::<u8>::empty());
    match p[c.pc] {
        Instruction::Output => {
            assert(c.output.push(cell_of(c.tape, c.cursor)) =~= c.output + l.output);
        },
        _ => {},
    }
}

/// Runs `program` from the start for at most `fuel` instructions, reading
/// bytes from `input` in order and collecting what it writes.
pub fn run_program(program: &Vec<Instruction>, input: &Vec<u8>, fuel: usize) -> (r: RunOutcome)
    requires
        jumps_in_range(program@),
    ensures
        r.steps <= fuel,
        ({
            let c = run(program@, input@, start(), r.steps as nat);
            let next = step(program@, input@, c);
            &&& !c.starved
            &&& r.output@ == c.output
            &&& r.status == Status::Halted <==> halted(program@, c)
            &&& r.status == Status::EndOfInput <==> next.starved
            &&& r.status == Status::CursorOverflow <==> (!halted(program@, c) && !next.starved
                && !fits_cursor(next.cursor))
            &&& r.status == Status::OutOfFuel ==> r.steps == fuel
        }),
{
    let mut machine = Machine::new();
    let mut output: Vec<u8> = Vec::new();
    let mut consumed: usize = 0;
    let mut steps: usize = 0;
    loop
        invariant
            jumps_in_range(program@),
            steps <= fuel,
            consumed <= input@.len(),
            run(program@, input@, start(), steps as nat) == (Config {
                consumed: consumed as nat,
                output: output@,
                ..machine.config()
            }),
        decreases fuel - steps,
    {
        let ghost c = run(program@, input@, start(), steps as nat);
        if machine.pc >= program.len() {
            return RunOutcome { output, status: Status::Halted, steps };
        }
        let wants = machine.wants_input(program);
        if wants && consumed == input.len() {
            return RunOutcome { output, status: Status::EndOfInput, steps };
        }
        let byte = if wants {
            Some(input[consumed])
        } else {
            None
        };
        if steps == fuel {
            let probe = machine.step(program, byte);
            if probe == Event::CursorOverflow {
                return RunOutcome { output, status: Status::CursorOverflow, steps };
            }
            return RunOutcome { output, status: Status::OutOfFuel, steps };
        }
        let ghost local = machine.config();
        proof {
            lemma_step_offered(program@, input@, c, byte);
            assert(local == Config { consumed: 0, output: Seq::empty(), ..c });
        }
        let event = machine.step(program, byte);
        match event {
            Event::CursorOverflow => {
                return RunOutcome { output, status: Status::CursorOverflow, steps };
            },
            Event::Emitted(b) => {
                output.push(b);
            },
            _ => {},
        }
        if wants {
            consumed = consumed + 1;
        }
        proof {
            let l = step(program@, offered(byte), local);
            assert(output@ =~= c.output + l.output);
            assert(consumed == c.consumed + l.consumed);
            lemma_run_last(program@, input@, start(), steps as nat);
        }
        steps = steps + 1;
    }
}

} // verus!
