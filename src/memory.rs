use vstd::prelude::*;

verus! {

/// The tape with every cell at zero.
pub open spec fn zero_tape() -> Map<int, u8> {
    Map::new(|i: int| true, |i: int| 0u8)
}

/// Whether a map covers every integer, as a tape does.
pub open spec fn is_total(t: Map<int, u8>) -> bool {
    forall|i: int| #[trigger] t.contains_key(i)
}

/// Reads cell `i` of a tape model, with cells outside the map at zero.
pub open spec fn cell_of(t: Map<int, u8>, i: int) -> u8 {
    if t.contains_key(i) { t[i] } else { 0 }
}

/// The slot in the negative half that holds cell `i < 0`.
pub open spec fn back_slot(i: int) -> int {
    -i - 1
}

/// A tape of byte cells indexed by any signed integer, all starting at zero.
/// Cells at non-negative indices live in `forward`; cell `-1` is the first
/// slot of `backward`, cell `-2` the second, and so on.
pub struct Memory {
    forward: Vec<u8>,
    backward: Vec<u8>,
}

impl View for Memory {
    type V = Map<int, u8>;

    /// The whole tape: every integer maps to the byte stored there.
    closed spec fn view(&self) -> Map<int, u8> {
        Map::new(|i: int| true, |i: int| self.stored(i))
    }
}

impl Memory {
    /// The byte held for cell `i`, or zero where that cell has not been grown yet.
    closed spec fn stored(&self, i: int) -> u8 {
        if i >= 0 {
            if i < self.forward@.len() { self.forward@[i] } else { 0 }
        } else {
            if back_slot(i) < self.backward@.len() { self.backward@[back_slot(i)] } else { 0 }
        }
    }

    /// Whether cell `i` already has a slot in one of the two halves.
    pub closed spec fn covers(&self, i: int) -> bool {
        if i >= 0 { i < self.forward@.len() } else { back_slot(i) < self.backward@.len() }
    }

    proof fn lemma_view(&self, i: int)
        ensures
            self@.contains_key(i),
            self@[i] == self.stored(i),
    {
    }

    /// The tape has a cell at every integer.
    pub proof fn lemma_total(&self)
        ensures
            is_total(self@),
    {
    }

    /// Every cell of the tape reads as zero.
    pub fn new() -> (r: Memory)
        ensures
            r@ == zero_tape(),
    {
        let r = Memory { forward: Vec::new(), backward: Vec::new() };
        assert(r@ =~= zero_tape());
        r
    }

    /// Grows the half that holds cell `index` so that it has a slot, filling
    /// new slots with zero. What the tape holds does not change.
    pub fn allocate(&mut self, index: isize)
        ensures
            final(self)@ == old(self)@,
            final(self).covers(index as int),
    {
        if index >= 0 {
            let slot = index as usize;
            while self.forward.len() <= slot
                invariant
                    self@ == old(self)@,
                    self.backward@ == old(self).backward@,
                decreases slot + 1 - self.forward.len(),
            {
                let ghost before = *self;
                self.forward.push(0);
                assert(self@ =~= before@) by {
                    assert forall|i: int| #[trigger] self@.contains_key(i) implies self@[i] == before@[i] by {
                        self.lemma_view(i);
                        before.lemma_view(i);
                    }
                }
            }
        } else {
            let slot = (-(index + 1)) as usize;
            while self.backward.len() <= slot
                invariant
                    self@ == old(self)@,
                    self.forward@ == old(self).forward@,
                decreases slot + 1 - self.backward.len(),
            {
                let ghost before = *self;
                self.backward.push(0);
                assert(self@ =~= before@) by {
                    assert forall|i: int| #[trigger] self@.contains_key(i) implies self@[i] == before@[i] by {
                        self.lemma_view(i);
                        before.lemma_view(i);
                    }
                }
            }
        }
    }

    /// Reads cell `index`, growing the tape to cover it.
    pub fn get(&mut self, index: isize) -> (r: u8)
        ensures
            final(self)@ == old(self)@,
            r == old(self)@[index as int],
    {
        self.allocate(index);
        proof { self.lemma_view(index as int); }
        if index >= 0 {
            self.forward[index as usize]
        } else {
            self.backward[(-(index + 1)) as usize]
        }
    }

    /// Writes `value` to cell `index`, growing the tape to cover it.
    pub fn set(&mut self, index: isize, value: u8)
        ensures
            final(self)@ == old(self)@.insert(index as int, value),
    {
        self.allocate(index);
        let ghost before = *self;
        if index >= 0 {
            self.forward.set(index as usize, value);
        } else {
            self.backward.set((-(index + 1)) as usize, value);
        }
        assert(self@ =~= before@.insert(index as int, value)) by {
            assert forall|i: int| #[trigger] self@.contains_key(i) implies self@[i] == before@.insert(
                index as int,
                value,
            )[i] by {
                self.lemma_view(i);
                before.lemma_view(i);
            }
        }
    }

    /// Adds `amount` to cell `index`, wrapping modulo 256.
    pub fn add(&mut self, index: isize, amount: u8)
        ensures
            final(self)@ == old(self)@.insert(
                index as int,
                ((old(self)@[index as int] + amount) % 256) as u8,
            ),
    {
        let current = self.get(index);
        self.set(index, current.wrapping_add(amount));
    }

    /// Subtracts `amount` from cell `index`, wrapping modulo 256.
    pub fn sub(&mut self, index: isize, amount: u8)
        ensures
            final(self)@ == old(self)@.insert(
                index as int,
                ((old(self)@[index as int] - amount + 256) % 256) as u8,
            ),
    {
        let current = self.get(index);
        self.set(index, current.wrapping_sub(amount));
    }
}

} // verus!
