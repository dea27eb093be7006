use vstd::prelude::*;
use crate::machine::{jumps_in_range, lemma_linked_jumps_in_range};

verus! {

/// One instruction of a program. Moves and cell changes carry a repeat count;
/// a jump carries the distance to its partner bracket once linked.
#[derive(Clone, Copy, Debug, PartialEq, Eq, Structural)]
pub enum Instruction {
    /// Moves the cursor right by the count.
    PointerIncrement(usize),
    /// Moves the cursor left by the count.
    PointerDecrement(usize),
    /// Adds the count to the current cell, modulo 256.
    DataIncrement(u8),
    /// Subtracts the count from the current cell, modulo 256.
    DataDecrement(u8),
    /// Reads one byte into the current cell.
    Input,
    /// Writes the current cell as one byte.
    Output,
    /// Skips past the matching close bracket when the current cell is zero.
    JumpForward(usize),
    /// Returns to just after the matching open bracket when the current cell is not zero.
    JumpBackward(usize),
}

/// Why a program's brackets cannot be linked.
#[derive(Clone, Copy, Debug, PartialEq, Eq, Structural)]
pub enum StructuralError {
    /// A `[` has no `]` after it to close it.
    UnmatchedOpen,
    /// A `]` has no open `[` before it.
    UnmatchedClose,
}

/// The instruction that a source character stands for, if any.
pub open spec fn opcode(c: char) -> Option<Instruction> {
    if c == '>' {
        Some(Instruction::PointerIncrement(1))
    } else if c == '<' {
        Some(Instruction::PointerDecrement(1))
    } else if c == '+' {
        Some(Instruction::DataIncrement(1))
    } else if c == '-' {
        Some(Instruction::DataDecrement(1))
    } else if c == '.' {
        Some(Instruction::Output)
    } else if c == ',' {
        Some(Instruction::Input)
    } else if c == '[' {
        Some(Instruction::JumpForward(0))
    } else if c == ']' {
        Some(Instruction::JumpBackward(0))
    } else {
        None
    }
}

/// The instructions of a source text: one per recognized character, in order,
/// with every other character skipped.
pub open spec fn decoded(s: Seq<char>) -> Seq<Instruction>
    decreases s.len(),
{
    if s.len() == 0 {
        Seq::empty()
    } else {
        let front = decoded(s.drop_last());
        match opcode(s.last()) {
            Some(x) => front.push(x),
            None => front,
        }
    }
}

/// Whether every move and cell change has a count of one, as decoding gives them.
pub open spec fn is_unfused(s: Seq<Instruction>) -> bool {
    forall|i: int|
        0 <= i < s.len() ==> match #[trigger] s[i] {
            Instruction::PointerIncrement(n) => n == 1,
            Instruction::PointerDecrement(n) => n == 1,
            Instruction::DataIncrement(n) => n == 1,
            Instruction::DataDecrement(n) => n == 1,
            _ => true,
        }
}

/// Whether `next` continues a run that ends in `last`: both are moves in the
/// same direction, or both cell changes of the same sign.
pub open spec fn same_run(last: Instruction, next: Instruction) -> bool {
    ||| last is PointerIncrement && next is PointerIncrement
    ||| last is PointerDecrement && next is PointerDecrement
    ||| last is DataIncrement && next is DataIncrement
    ||| last is DataDecrement && next is DataDecrement
}

/// A fused instruction with its count raised by one: a move count grows
/// without bound, a cell change count wraps modulo 256.
pub open spec fn grown(x: Instruction) -> Instruction {
    match x {
        Instruction::PointerIncrement(n) => Instruction::PointerIncrement((n + 1) as usize),
        Instruction::PointerDecrement(n) => Instruction::PointerDecrement((n + 1) as usize),
        Instruction::DataIncrement(n) => Instruction::DataIncrement(((n + 1) % 256) as u8),
        Instruction::DataDecrement(n) => Instruction::DataDecrement(((n + 1) % 256) as u8),
        _ => x,
    }
}

/// A sequence with each maximal run of same-kind moves or cell changes
/// collapsed into one instruction that counts the run.
pub open spec fn fused(s: Seq<Instruction>) -> Seq<Instruction>
    decreases s.len(),
{
    if s.len() == 0 {
        Seq::empty()
    } else {
        let front = fused(s.drop_last());
        if front.len() > 0 && same_run(front.last(), s.last()) {
            front.update(front.len() - 1, grown(front.last()))
        } else {
            front.push(s.last())
        }
    }
}

/// How an instruction changes the bracket depth.
pub open spec fn delta(x: Instruction) -> int {
    match x {
        Instruction::JumpForward(_) => 1,
        Instruction::JumpBackward(_) => -1,
        _ => 0,
    }
}

/// The bracket depth after the first `n` instructions: opens minus closes.
pub open spec fn depth(s: Seq<Instruction>, n: int) -> int
    decreases n,
{
    if n <= 0 {
        0
    } else {
        depth(s, n - 1) + delta(s[n - 1])
    }
}

/// Whether some `]` comes with no open `[` before it.
pub open spec fn closes_unopened(s: Seq<Instruction>) -> bool {
    exists|n: int| 0 <= n <= s.len() && #[trigger] depth(s, n) < 0
}

/// Whether every bracket has a partner: no `]` without an open `[` and no `[`
/// left open at the end.
pub open spec fn balanced(s: Seq<Instruction>) -> bool {
    !closes_unopened(s) && depth(s, s.len() as int) == 0
}

/// Whether the `[` at `f` and the `]` at `b` are partners: `b` is the first
/// place after `f` where the depth falls back to what it was before `f`.
pub open spec fn pairs(s: Seq<Instruction>, f: int, b: int) -> bool {
    &&& 0 <= f < b < s.len()
    &&& s[f] is JumpForward
    &&& s[b] is JumpBackward
    &&& depth(s, b + 1) == depth(s, f)
    &&& forall|k: int| f < k <= b ==> #[trigger] depth(s, k) > depth(s, f)
}

/// The distance that a jump carries.
pub open spec fn distance(x: Instruction) -> int {
    match x {
        Instruction::JumpForward(d) => d as int,
        Instruction::JumpBackward(d) => d as int,
        _ => 0,
    }
}

/// Whether `t` is `s` with each bracket carrying the distance to its partner,
/// and every other instruction kept.
pub open spec fn linked(s: Seq<Instruction>, t: Seq<Instruction>) -> bool {
    &&& t.len() == s.len()
    &&& forall|i: int|
        0 <= i < s.len() ==> match #[trigger] s[i] {
            Instruction::JumpForward(_) => t[i] is JumpForward && pairs(s, i, i + distance(t[i])),
            Instruction::JumpBackward(_) => t[i] is JumpBackward && pairs(
                s,
                i - distance(t[i]),
                i,
            ),
            _ => t[i] == s[i],
        }
}

/// The stack of open brackets after the first `pc` instructions: one `[` per
/// unclosed level, in order, each with every depth after it higher.
spec fn stack_ok(s: Seq<Instruction>, open: Seq<usize>, pc: int) -> bool {
    &&& open.len() == depth(s, pc)
    &&& forall|q: int| 0 <= q <= pc ==> #[trigger] depth(s, q) >= 0
    &&& forall|k: int|
        0 <= k < open.len() ==> {
            &&& open[k] < pc
            &&& s[open[k] as int] is JumpForward
            &&& depth(s, open[k] as int) == k
            &&& forall|q: int| open[k] < q <= pc ==> #[trigger] depth(s, q) > k
        }
}

/// The first `pc` instructions linked so far: closed pairs carry their
/// distance, and a `[` not yet closed is on the stack.
spec fn partial_links(s: Seq<Instruction>, result: Seq<Instruction>, open: Seq<usize>, pc: int) -> bool {
    &&& result.len() == pc
    &&& forall|i: int|
        0 <= i < pc ==> match #[trigger] s[i] {
            Instruction::JumpForward(_) => result[i] is JumpForward && (pairs(
                s,
                i,
                i + distance(result[i]),
            ) || (0 <= depth(s, i) < open.len() && open[depth(s, i)] == i)),
            Instruction::JumpBackward(_) => result[i] is JumpBackward && pairs(
                s,
                i - distance(result[i]),
                i,
            ),
            _ => result[i] == s[i],
        }
}

proof fn lemma_link_open(s: Seq<Instruction>, open: Seq<usize>, result: Seq<Instruction>, pc: int)
    requires
        0 <= pc < s.len(),
        pc <= usize::MAX,
        s[pc] is JumpForward,
        stack_ok(s, open, pc),
        partial_links(s, result, open, pc),
    ensures
        stack_ok(s, open.push(pc as usize), pc + 1),
        partial_links(s, result.push(Instruction::JumpForward(0)), open.push(pc as usize), pc + 1),
{
    assert(depth(s, pc + 1) == depth(s, pc) + 1);
    let o = open.push(pc as usize);
    let r = result.push(Instruction::JumpForward(0));
    assert forall|i: int| 0 <= i < pc + 1 implies match #[trigger] s[i] {
        Instruction::JumpForward(_) => r[i] is JumpForward && (pairs(s, i, i + distance(r[i])) || (0
            <= depth(s, i) < o.len() && o[depth(s, i)] == i)),
        Instruction::JumpBackward(_) => r[i] is JumpBackward && pairs(s, i - distance(r[i]), i),
        _ => r[i] == s[i],
    } by {
        if i < pc {
            assert(r[i] == result[i]);
            if s[i] is JumpForward && !pairs(s, i, i + distance(r[i])) {
                assert(o[depth(s, i)] == open[depth(s, i)]);
            }
        }
    }
    assert forall|k: int| 0 <= k < o.len() implies {
        &&& o[k] < pc + 1
        &&& s[o[k] as int] is JumpForward
        &&& depth(s, o[k] as int) == k
        &&& forall|q: int| o[k] < q <= pc + 1 ==> #[trigger] depth(s, q) > k
    } by {
        if k < open.len() {
            assert(o[k] == open[k]);
        }
    }
}

proof fn lemma_link_close(s: Seq<Instruction>, open: Seq<usize>, result: Seq<Instruction>, pc: int)
    requires
        0 <= pc < s.len(),
        s[pc] is JumpBackward,
        pc <= usize::MAX,
        open.len() > 0,
        stack_ok(s, open, pc),
        partial_links(s, result, open, pc),
    ensures
        ({
            let f = open.last();
            let o = open.drop_last();
            let r = result.update(f as int, Instruction::JumpForward((pc - f) as usize)).push(
                Instruction::JumpBackward((pc - f) as usize),
            );
            &&& pairs(s, f as int, pc)
            &&& stack_ok(s, o, pc + 1)
            &&& partial_links(s, r, o, pc + 1)
        }),
{
    let f = open.last();
    let top = open.len() - 1;
    assert(f == open[top]);
    assert(depth(s, pc + 1) == depth(s, pc) - 1);
    assert(pairs(s, f as int, pc));
    let o = open.drop_last();
    let r = result.update(f as int, Instruction::JumpForward((pc - f) as usize)).push(
        Instruction::JumpBackward((pc - f) as usize),
    );
    assert forall|i: int| 0 <= i < pc + 1 implies match #[trigger] s[i] {
        Instruction::JumpForward(_) => r[i] is JumpForward && (pairs(s, i, i + distance(r[i])) || (0
            <= depth(s, i) < o.len() && o[depth(s, i)] == i)),
        Instruction::JumpBackward(_) => r[i] is JumpBackward && pairs(s, i - distance(r[i]), i),
        _ => r[i] == s[i],
    } by {
        if i == f {
            assert(r[i] == Instruction::JumpForward((pc - f) as usize));
            assert(distance(r[i]) == pc - f);
        } else if i == pc {
            assert(r[i] == Instruction::JumpBackward((pc - f) as usize));
            assert(distance(r[i]) == pc - f);
        } else {
            assert(r[i] == result[i]);
            if s[i] is JumpForward && !pairs(s, i, i + distance(r[i])) {
                assert(open[depth(s, i)] == i);
                assert(depth(s, i) != top);
                assert(o[depth(s, i)] == open[depth(s, i)]);
            }
        }
    }
    assert forall|k: int| 0 <= k < o.len() implies {
        &&& o[k] < pc + 1
        &&& s[o[k] as int] is JumpForward
        &&& depth(s, o[k] as int) == k
        &&& forall|q: int| o[k] < q <= pc + 1 ==> #[trigger] depth(s, q) > k
    } by {
        assert(o[k] == open[k]);
    }
}

proof fn lemma_link_other(s: Seq<Instruction>, open: Seq<usize>, result: Seq<Instruction>, pc: int)
    requires
        0 <= pc < s.len(),
        !(s[pc] is JumpForward),
        !(s[pc] is JumpBackward),
        stack_ok(s, open, pc),
        partial_links(s, result, open, pc),
    ensures
        stack_ok(s, open, pc + 1),
        partial_links(s, result.push(s[pc]), open, pc + 1),
{
    assert(depth(s, pc + 1) == depth(s, pc));
    let r = result.push(s[pc]);
    assert forall|i: int| 0 <= i < pc + 1 implies match #[trigger] s[i] {
        Instruction::JumpForward(_) => r[i] is JumpForward && (pairs(s, i, i + distance(r[i])) || (0
            <= depth(s, i) < open.len() && open[depth(s, i)] == i)),
        Instruction::JumpBackward(_) => r[i] is JumpBackward && pairs(s, i - distance(r[i]), i),
        _ => r[i] == s[i],
    } by {
        if i < pc {
            assert(r[i] == result[i]);
        }
    }
}

impl Instruction {
    /// The instruction that `c` stands for, or `None` for any other character.
    pub fn from_char(c: char) -> (r: Option<Instruction>)
        ensures
            r == opcode(c),
    {
        match c {
            '>' => Some(Instruction::PointerIncrement(1)),
            '<' => Some(Instruction::PointerDecrement(1)),
            '-' => Some(Instruction::DataDecrement(1)),
            '+' => Some(Instruction::DataIncrement(1)),
            '.' => Some(Instruction::Output),
            ',' => Some(Instruction::Input),
            '[' => Some(Instruction::JumpForward(0)),
            ']' => Some(Instruction::JumpBackward(0)),
            _ => None,
        }
    }

    /// Resolves every bracket pair, giving both brackets the distance between
    /// them. An unmatched bracket is an error, and leaves the sequence as it was;
    /// an unmatched `]` is reported before an unmatched `[`.
    pub fn link_jumps(instructions: &mut Vec<Instruction>) -> (r: Result<(), StructuralError>)
        ensures
            r is Ok <==> balanced(old(instructions)@),
            r == Err::<(), StructuralError>(StructuralError::UnmatchedClose) <==> closes_unopened(
                old(instructions)@,
            ),
            r is Ok ==> linked(old(instructions)@, final(instructions)@),
            r is Err ==> final(instructions)@ == old(instructions)@,
    {
        let ghost s = instructions@;
        let mut open: Vec<usize> = Vec::new();
        let mut result: Vec<Instruction> = Vec::new();
        let n = instructions.len();
        let mut pc: usize = 0;
        while pc < n
            invariant
                s == instructions@,
                n == s.len(),
                pc <= n,
                stack_ok(s, open@, pc as int),
                partial_links(s, result@, open@, pc as int),
            decreases n - pc,
        {
            let x = instructions[pc];
            let ghost open0 = open@;
            let ghost result0 = result@;
            match x {
                Instruction::JumpForward(_) => {
                    open.push(pc);
                    result.push(Instruction::JumpForward(0));
                    proof {
                        lemma_link_open(s, open0, result0, pc as int);
                        assert(open@ == open0.push(pc));
                        assert(result@ == result0.push(Instruction::JumpForward(0)));
                    }
                },
                Instruction::JumpBackward(_) => {
                    if open.len() == 0 {
                        assert(depth(s, pc + 1) == depth(s, pc as int) + delta(s[pc as int]));
                        assert(depth(s, pc + 1) < 0);
                        return Err(StructuralError::UnmatchedClose);
                    }
                    let f = open.pop().unwrap();
                    result.set(f, Instruction::JumpForward(pc - f));
                    result.push(Instruction::JumpBackward(pc - f));
                    proof {
                        lemma_link_close(s, open0, result0, pc as int);
                        assert(open@ == open0.drop_last());
                        assert(result@ == result0.update(f as int, Instruction::JumpForward((pc - f) as usize)).push(
                            Instruction::JumpBackward((pc - f) as usize),
                        ));
                    }
                },
                _ => {
                    result.push(x);
                    proof {
                        lemma_link_other(s, open0, result0, pc as int);
                    }
                },
            }
            pc = pc + 1;
        }
        proof {
            assert(depth(s, pc as int) >= 0);
            if open.len() > 0 {
                assert(!closes_unopened(s));
            }
        }
        if open.len() > 0 {
            return Err(StructuralError::UnmatchedOpen);
        }
        *instructions = result;
        Ok(())
    }

    /// Collapses each run of same-kind moves or cell changes into one
    /// instruction that counts the run. A move count grows without bound; a cell
    /// change count wraps modulo 256, so a run of exactly 256 `+` becomes
    /// `DataIncrement(0)`, which leaves the cell as it was, as the run would.
    pub fn compress_instructions(instructions: &Vec<Instruction>) -> (r: Vec<Instruction>)
        requires
            is_unfused(instructions@),
        ensures
            r@ == fused(instructions@),
    {
        let ghost s = instructions@;
        let mut out: Vec<Instruction> = Vec::new();
        let mut i: usize = 0;
        while i < instructions.len()
            invariant
                s == instructions@,
                is_unfused(s),
                i <= s.len(),
                out@ == fused(s.take(i as int)),
                forall|j: int|
                    0 <= j < out@.len() ==> match #[trigger] out@[j] {
                        Instruction::PointerIncrement(n) => n <= i,
                        Instruction::PointerDecrement(n) => n <= i,
                        _ => true,
                    },
            decreases s.len() - i,
        {
            let x = instructions[i];
            proof {
                assert(s.take(i + 1).drop_last() =~= s.take(i as int));
                assert(s.take(i + 1).last() == x);
            }
            let top = out.len();
            let merged = if top == 0 {
                None
            } else {
                match (out[top - 1], x) {
                    (Instruction::PointerIncrement(n), Instruction::PointerIncrement(_)) => Some(
                        Instruction::PointerIncrement(n + 1),
                    ),
                    (Instruction::PointerDecrement(n), Instruction::PointerDecrement(_)) => Some(
                        Instruction::PointerDecrement(n + 1),
                    ),
                    (Instruction::DataIncrement(n), Instruction::DataIncrement(_)) => Some(
                        Instruction::DataIncrement(n.wrapping_add(1)),
                    ),
                    (Instruction::DataDecrement(n), Instruction::DataDecrement(_)) => Some(
                        Instruction::DataDecrement(n.wrapping_add(1)),
                    ),
                    _ => None,
                }
            };
            match merged {
                Some(y) => out.set(top - 1, y),
                None => out.push(x),
            }
            i = i + 1;
        }
        proof {
            assert(s.take(s.len() as int) =~= s);
        }
        out
    }
}

/// Decodes a source text into instructions, one per recognized character, with
/// every other character skipped.
pub fn decode(source: &Vec<char>) -> (r: Vec<Instruction>)
    ensures
        r@ == decoded(source@),
{
    let ghost s = source@;
    let mut out: Vec<Instruction> = Vec::new();
    let mut i: usize = 0;
    while i < source.len()
        invariant
            s == source@,
            i <= s.len(),
            out@ == decoded(s.take(i as int)),
        decreases s.len() - i,
    {
        proof {
            assert(s.take(i + 1).drop_last() =~= s.take(i as int));
        }
        match Instruction::from_char(source[i]) {
            Some(x) => out.push(x),
            None => {},
        }
        i = i + 1;
    }
    proof {
        assert(s.take(s.len() as int) =~= s);
    }
    out
}

/// Decoding gives every move and cell change a count of one.
pub proof fn lemma_decoded_unfused(s: Seq<char>)
    ensures
        is_unfused(decoded(s)),
    decreases s.len(),
{
    if s.len() > 0 {
        lemma_decoded_unfused(s.drop_last());
        let front = decoded(s.drop_last());
        assert forall|i: int| 0 <= i < decoded(s).len() implies match #[trigger] decoded(s)[i] {
            Instruction::PointerIncrement(n) => n == 1,
            Instruction::PointerDecrement(n) => n == 1,
            Instruction::DataIncrement(n) => n == 1,
            Instruction::DataDecrement(n) => n == 1,
            _ => true,
        } by {
            if i < front.len() {
                assert(decoded(s)[i] == front[i]);
            }
        }
    }
}

/// The instructions that linking starts from: the decoded source, with runs
/// fused when `fuse` is set.
pub open spec fn prepared(source: Seq<char>, fuse: bool) -> Seq<Instruction> {
    if fuse {
        fused(decoded(source))
    } else {
        decoded(source)
    }
}

/// Turns a source text into a runnable program: decodes it, fuses runs when
/// `fuse` is set, and links its brackets. Fails when a bracket is unmatched.
pub fn instructions_from_source(source: &Vec<char>, fuse: bool) -> (r: Result<
    Vec<Instruction>,
    StructuralError,
>)
    ensures
        r is Ok <==> balanced(prepared(source@, fuse)),
        r == Err::<Vec<Instruction>, StructuralError>(StructuralError::UnmatchedClose)
            <==> closes_unopened(prepared(source@, fuse)),
        r is Ok ==> linked(prepared(source@, fuse), r->Ok_0@),
        r is Ok ==> jumps_in_range(r->Ok_0@),
{
    let decoded = decode(source);
    proof {
        lemma_decoded_unfused(source@);
    }
    let mut instructions = if fuse {
        Instruction::compress_instructions(&decoded)
    } else {
        decoded
    };
    match Instruction::link_jumps(&mut instructions) {
        Ok(()) => {
            proof {
                lemma_linked_jumps_in_range(prepared(source@, fuse), instructions@);
            }
            Ok(instructions)
        },
        Err(e) => Err(e),
    }
}

} // verus!
