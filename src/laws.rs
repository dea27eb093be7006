use vstd::prelude::*;
use crate::instruction::{Instruction, depth, pairs};
use crate::machine::{Config, step, stopped};
use crate::memory::cell_of;

verus! {

/// Every cell change wraps modulo 256: adding one to 255 gives 0, and taking
/// one from 0 gives 255.
pub proof fn lemma_cell_changes_wrap(p: Seq<Instruction>, input: Seq<u8>, c: Config)
    requires
        !stopped(p, c),
    ensures
        ({
            let v = cell_of(c.tape, c.cursor);
            let after = cell_of(step(p, input, c).tape, c.cursor);
            &&& p[c.pc] is DataIncrement ==> after == (v + p[c.pc]->DataIncrement_0) % 256
            &&& p[c.pc] is DataDecrement ==> after == (v + 256 - p[c.pc]->DataDecrement_0) % 256
            &&& p[c.pc] == Instruction::DataIncrement(1) && v == 255 ==> after == 0
            &&& p[c.pc] == Instruction::DataDecrement(1) && v == 0 ==> after == 255
        }),
{
}

/// A cell keeps what was last written to it, whatever is written at other
/// indices afterwards, on either side of the origin; a cell never written
/// reads as zero.
pub proof fn lemma_tape_cells_independent(
    tape: Map<int, u8>,
    i: int,
    v: u8,
    j: int,
    w: u8,
)
    requires
        i != j,
    ensures
        cell_of(tape.insert(i, v).insert(j, w), i) == v,
        cell_of(tape.insert(i, v).insert(j, w), j) == w,
        !tape.contains_key(i) ==> cell_of(tape, i) == 0,
{
}

/// Matching is unambiguous: a `[` has at most one partner `]`, and a `]` at
/// most one partner `[`, so nested brackets are never paired wrongly.
pub proof fn lemma_pairs_unique(s: Seq<Instruction>, f: int, b: int, f2: int, b2: int)
    ensures
        pairs(s, f, b) && pairs(s, f, b2) ==> b == b2,
        pairs(s, f, b) && pairs(s, f2, b) ==> f == f2,
{
    if pairs(s, f, b) && pairs(s, f, b2) && b != b2 {
        if b < b2 {
            assert(depth(s, b + 1) > depth(s, f));
        } else {
            assert(depth(s, b2 + 1) > depth(s, f));
        }
    }
    if pairs(s, f, b) && pairs(s, f2, b) && f != f2 {
        if f < f2 {
            assert(depth(s, f2) > depth(s, f));
            assert(depth(s, f2 + 1) > depth(s, f));
        } else {
            assert(depth(s, f) > depth(s, f2));
            assert(depth(s, f + 1) > depth(s, f2));
        }
    }
}

} // verus!
