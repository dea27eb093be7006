use vstd::prelude::*;
use crate::laws::lemma_pairs_unique;
use crate::machine::{Config, run, step, stopped, halted, start, lemma_run_last};
use crate::memory::{cell_of, is_total};
use crate::instruction::{
    Instruction,
    balanced,
    closes_unopened,
    distance,
    linked,
    decoded,
    delta,
    depth,
    fused,
    grown,
    is_unfused,
    pairs,
    same_run,
};

verus! {

/// Whether an instruction is a move or a cell change, the kinds that fuse.
pub open spec fn is_simple(x: Instruction) -> bool {
    ||| x is PointerIncrement
    ||| x is PointerDecrement
    ||| x is DataIncrement
    ||| x is DataDecrement
}

/// Whether instruction `x` of a fused sequence stands for `s[lo..hi]`: a run
/// of its own kind that it counts, or a single equal instruction.
pub open spec fn stands_for(s: Seq<Instruction>, x: Instruction, lo: int, hi: int) -> bool {
    if is_simple(x) {
        &&& forall|j: int| lo <= j < hi ==> same_run(x, #[trigger] s[j])
        &&& match x {
            Instruction::PointerIncrement(n) => n == hi - lo,
            Instruction::PointerDecrement(n) => n == hi - lo,
            Instruction::DataIncrement(n) => n == (hi - lo) % 256,
            Instruction::DataDecrement(n) => n == (hi - lo) % 256,
            _ => false,
        }
    } else {
        hi == lo + 1 && s[lo] == x
    }
}

/// Whether `f` is `s` cut into consecutive blocks, block `b` running from
/// `st[b]` to `st[b + 1]` and standing for instruction `f[b]`.
pub open spec fn blocks(s: Seq<Instruction>, f: Seq<Instruction>, st: Seq<int>) -> bool {
    &&& st.len() == f.len() + 1
    &&& st[0] == 0
    &&& st[f.len() as int] == s.len()
    &&& forall|i: int, j: int| 0 <= i < j <= f.len() ==> #[trigger] st[i] < #[trigger] st[j]
    &&& forall|b: int| 0 <= b < f.len() ==> stands_for(s, #[trigger] f[b], st[b], st[b + 1])
}

/// Fusing cuts an unfused sequence into blocks, each counted by one instruction.
pub proof fn lemma_fused_blocks(s: Seq<Instruction>) -> (st: Seq<int>)
    requires
        is_unfused(s),
        s.len() <= usize::MAX,
    ensures
        blocks(s, fused(s), st),
    decreases s.len(),
{
    if s.len() == 0 {
        seq![0]
    } else {
        let s0 = s.drop_last();
        assert forall|i: int| 0 <= i < s0.len() implies match #[trigger] s0[i] {
            Instruction::PointerIncrement(n) => n == 1,
            Instruction::PointerDecrement(n) => n == 1,
            Instruction::DataIncrement(n) => n == 1,
            Instruction::DataDecrement(n) => n == 1,
            _ => true,
        } by {
            assert(s0[i] == s[i]);
        }
        let st0 = lemma_fused_blocks(s0);
        let f0 = fused(s0);
        let f = fused(s);
        let x = s.last();
        let last = s.len() - 1;
        assert(x == s[last]);
        assert forall|j: int| 0 <= j < s0.len() implies #[trigger] s[j] == s0[j] by {}
        if f0.len() > 0 && same_run(f0.last(), x) {
            let k = f0.len() - 1;
            let st = st0.update(f0.len() as int, s.len() as int);
            assert(f == f0.update(k, grown(f0.last())));
            assert forall|b: int| 0 <= b < f.len() implies stands_for(
                s,
                #[trigger] f[b],
                st[b],
                st[b + 1],
            ) by {
                if b < k {
                    assert(f[b] == f0[b]);
                    assert(stands_for(s0, f0[b], st0[b], st0[b + 1]));
                    assert forall|j: int| st[b] <= j < st[b + 1] implies #[trigger] s[j] == s0[j] by {}
                } else {
                    assert(stands_for(s0, f0[k], st0[k], st0[k + 1]));
                    assert(s[last] == x);
                    assert(st0[k] < st0[k + 1]);
                    assert(is_simple(f0[k]));
                    assert forall|j: int| st[k] <= j < st[k + 1] implies same_run(
                        f[k],
                        #[trigger] s[j],
                    ) by {
                        if j < last {
                            assert(s[j] == s0[j]);
                            assert(same_run(f0[k], s0[j]));
                        }
                    }
                    let len = st[k + 1] - st[k];
                    assert(len == st0[k + 1] - st0[k] + 1);
                    assert(((len - 1) % 256 + 1) % 256 == len % 256);
                }
            }
            st
        } else {
            let st = st0.push(s.len() as int);
            assert(f == f0.push(x));
            assert forall|b: int| 0 <= b < f.len() implies stands_for(
                s,
                #[trigger] f[b],
                st[b],
                st[b + 1],
            ) by {
                if b < f0.len() {
                    assert(f[b] == f0[b]);
                    assert(stands_for(s0, f0[b], st0[b], st0[b + 1]));
                    assert forall|j: int| st[b] <= j < st[b + 1] implies #[trigger] s[j] == s0[j] by {}
                } else {
                    assert(f[b] == x);
                    assert(st[b] == last);
                    assert(st[b + 1] == s.len());
                }
            }
            st
        }
    }
}

/// Moves and cell changes leave the bracket depth where it was.
proof fn lemma_depth_flat(s: Seq<Instruction>, lo: int, hi: int)
    requires
        0 <= lo <= hi <= s.len(),
        forall|j: int| lo <= j < hi ==> delta(#[trigger] s[j]) == 0,
    ensures
        forall|k: int| lo <= k <= hi ==> #[trigger] depth(s, k) == depth(s, lo),
    decreases hi - lo,
{
    if hi > lo {
        lemma_depth_flat(s, lo, hi - 1);
        assert(depth(s, hi) == depth(s, hi - 1) + delta(s[hi - 1]));
    }
}

/// Within a block the depth of `s` is that of `f` before or after the block:
/// constant over a run, and stepping once over a single instruction.
proof fn lemma_block_depths(s: Seq<Instruction>, f: Seq<Instruction>, st: Seq<int>, b: int)
    requires
        blocks(s, f, st),
        0 <= b <= f.len(),
    ensures
        depth(f, b) == depth(s, st[b]),
        b < f.len() && is_simple(f[b]) ==> forall|k: int|
            st[b] <= k <= st[b + 1] ==> #[trigger] depth(s, k) == depth(f, b),
        b < f.len() ==> depth(f, b + 1) == depth(s, st[b + 1]),
    decreases b,
{
    if b > 0 {
        lemma_block_depths(s, f, st, b - 1);
    }
    if b < f.len() {
        assert(stands_for(s, f[b], st[b], st[b + 1]));
        assert(st[b] < st[b + 1]);
        assert(st[b + 1] <= st[f.len() as int]) by {
            if b + 1 < f.len() {
                assert(st[b + 1] < st[f.len() as int]);
            }
        }
        if is_simple(f[b]) {
            assert forall|j: int| st[b] <= j < st[b + 1] implies delta(#[trigger] s[j]) == 0 by {
                assert(same_run(f[b], s[j]));
            }
            lemma_depth_flat(s, st[b], st[b + 1]);
            assert(depth(s, st[b + 1]) == depth(s, st[b]));
        } else {
            assert(s[st[b]] == f[b]);
            assert(depth(s, st[b] + 1) == depth(s, st[b]) + delta(s[st[b]]));
        }
        assert(depth(f, b + 1) == depth(f, b) + delta(f[b]));
    }
}

/// The block that holds position `k`: the one with `st[c] < k <= st[c + 1]`.
proof fn lemma_locate(st: Seq<int>, n: int, k: int) -> (c: int)
    requires
        0 < n < st.len(),
        forall|i: int, j: int| 0 <= i < j < st.len() ==> #[trigger] st[i] < #[trigger] st[j],
        st[0] < k <= st[n],
    ensures
        0 <= c < n,
        st[c] < k <= st[c + 1],
    decreases n,
{
    if k > st[n - 1] {
        n - 1
    } else {
        lemma_locate(st, n - 1, k)
    }
}

/// Partner brackets of the fused sequence stand for partner brackets of the
/// unfused one.
proof fn lemma_pairs_carry(s: Seq<Instruction>, f: Seq<Instruction>, st: Seq<int>, b: int, e: int)
    requires
        blocks(s, f, st),
        pairs(f, b, e),
    ensures
        pairs(s, st[b], st[e]),
{
    assert(stands_for(s, f[b], st[b], st[b + 1]));
    assert(stands_for(s, f[e], st[e], st[e + 1]));
    lemma_block_depths(s, f, st, b);
    lemma_block_depths(s, f, st, e);
    assert(st[e] < st[f.len() as int]);
    assert forall|k: int| st[b] < k <= st[e] implies #[trigger] depth(s, k) > depth(s, st[b]) by {
        let c = lemma_locate(st, e, k);
        if c < b {
            assert(st[c + 1] <= st[b]) by {
                if c + 1 < b {
                    assert(st[c + 1] < st[b]);
                }
            }
        }
        assert(b <= c);
        lemma_block_depths(s, f, st, c);
        assert(stands_for(s, f[c], st[c], st[c + 1]));
        assert(depth(s, k) == depth(f, c + 1));
        assert(depth(f, c + 1) > depth(f, b));
    }
}

/// The jumps of the linked fused program land on the blocks whose starts the
/// jumps of the linked unfused program land on.
proof fn lemma_jumps_carry(
    s: Seq<Instruction>,
    f: Seq<Instruction>,
    st: Seq<int>,
    u: Seq<Instruction>,
    g: Seq<Instruction>,
    b: int,
)
    requires
        blocks(s, f, st),
        linked(s, u),
        linked(f, g),
        0 <= b < f.len(),
    ensures
        f[b] is JumpForward ==> u[st[b]] is JumpForward && g[b] is JumpForward && 0 <= b
            + distance(g[b]) < f.len() && st[b] + distance(u[st[b]]) == st[b + distance(g[b])],
        f[b] is JumpBackward ==> u[st[b]] is JumpBackward && g[b] is JumpBackward && 0 <= b
            - distance(g[b]) < f.len() && st[b] - distance(u[st[b]]) == st[b - distance(g[b])],
        !is_simple(f[b]) && !(f[b] is JumpForward) && !(f[b] is JumpBackward) ==> u[st[b]]
            == g[b] && g[b] == f[b],
{
    assert(stands_for(s, f[b], st[b], st[b + 1]));
    assert(st[b] < st[f.len() as int]);
    let i = st[b];
    if f[b] is JumpForward {
        let e = b + distance(g[b]);
        assert(pairs(f, b, e));
        lemma_pairs_carry(s, f, st, b, e);
        assert(s[i] is JumpForward);
        assert(pairs(s, i, i + distance(u[i])));
        lemma_pairs_unique(s, i, st[e], i, i + distance(u[i]));
    } else if f[b] is JumpBackward {
        let a = b - distance(g[b]);
        assert(pairs(f, a, b));
        lemma_pairs_carry(s, f, st, a, b);
        assert(s[i] is JumpBackward);
        assert(pairs(s, i - distance(u[i]), i));
        lemma_pairs_unique(s, st[a], i, i - distance(u[i]), i);
    } else if !is_simple(f[b]) {
        assert(s[i] == f[b]);
    }
}

/// Running `m` and then `n` steps is running `m + n` steps.
pub proof fn lemma_run_split(p: Seq<Instruction>, input: Seq<u8>, c: Config, m: nat, n: nat)
    ensures
        run(p, input, c, m + n) == run(p, input, run(p, input, c, m), n),
    decreases m,
{
    if m > 0 {
        lemma_run_split(p, input, step(p, input, c), (m - 1) as nat, n);
    }
}

/// The state after `j` steps into a run of `x`'s kind that starts at `c`.
pub open spec fn after_run(x: Instruction, c: Config, j: int) -> Config {
    let v = cell_of(c.tape, c.cursor);
    let moved = Config { pc: c.pc + j, ..c };
    match x {
        Instruction::PointerIncrement(_) => Config { cursor: c.cursor + j, ..moved },
        Instruction::PointerDecrement(_) => Config { cursor: c.cursor - j, ..moved },
        Instruction::DataIncrement(_) => Config {
            tape: c.tape.insert(c.cursor, ((v + j) % 256) as u8),
            ..moved
        },
        Instruction::DataDecrement(_) => Config {
            tape: c.tape.insert(c.cursor, ((v - j) % 256) as u8),
            ..moved
        },
        _ => c,
    }
}

/// The unfused program walks a run one instruction at a time.
proof fn lemma_walk_run(
    u: Seq<Instruction>,
    input: Seq<u8>,
    x: Instruction,
    c: Config,
    hi: int,
    j: nat,
)
    requires
        is_simple(x),
        is_total(c.tape),
        !c.starved,
        0 <= c.pc,
        c.pc + j <= hi <= u.len(),
        forall|i: int|
            c.pc <= i < hi ==> #[trigger] u[i] == match x {
                Instruction::PointerIncrement(_) => Instruction::PointerIncrement(1),
                Instruction::PointerDecrement(_) => Instruction::PointerDecrement(1),
                Instruction::DataIncrement(_) => Instruction::DataIncrement(1),
                _ => Instruction::DataDecrement(1),
            },
    ensures
        run(u, input, c, j) == after_run(x, c, j as int),
    decreases j,
{
    let v = cell_of(c.tape, c.cursor);
    if j == 0 {
        assert(c.tape.insert(c.cursor, ((v + 0) % 256) as u8) =~= c.tape);
        assert(c.tape.insert(c.cursor, ((v - 0) % 256) as u8) =~= c.tape);
    } else {
        let j0 = (j - 1) as nat;
        lemma_walk_run(u, input, x, c, hi, j0);
        lemma_run_last(u, input, c, j0);
        let prev = after_run(x, c, j0 as int);
        assert(u[c.pc + j0] == u[prev.pc]);
        assert(!stopped(u, prev));
        let pv = cell_of(prev.tape, prev.cursor);
        match x {
            Instruction::PointerIncrement(_) => {
                assert(u[prev.pc] == Instruction::PointerIncrement(1));
                assert(step(u, input, prev) == Config { pc: prev.pc + 1, cursor: prev.cursor + 1, ..prev });
            },
            Instruction::PointerDecrement(_) => {
                assert(u[prev.pc] == Instruction::PointerDecrement(1));
                assert(step(u, input, prev) == Config { pc: prev.pc + 1, cursor: prev.cursor - 1, ..prev });
            },
            Instruction::DataIncrement(_) => {
                assert(u[prev.pc] == Instruction::DataIncrement(1));
                assert(pv == ((v + j0) % 256) as u8);
                lemma_mod_step_up(v as int, j0 as int);
                assert(step(u, input, prev) == Config {
                    pc: prev.pc + 1,
                    tape: prev.tape.insert(prev.cursor, ((pv + 1) % 256) as u8),
                    ..prev
                });
                assert(prev.tape.insert(c.cursor, ((v + j) % 256) as u8) =~= c.tape.insert(
                    c.cursor,
                    ((v + j) % 256) as u8,
                ));
            },
            _ => {
                assert(u[prev.pc] == Instruction::DataDecrement(1));
                assert(pv == ((v - j0) % 256) as u8);
                lemma_mod_step_down(v as int, j0 as int);
                assert(step(u, input, prev) == Config {
                    pc: prev.pc + 1,
                    tape: prev.tape.insert(prev.cursor, ((pv - 1 + 256) % 256) as u8),
                    ..prev
                });
                assert(prev.tape.insert(c.cursor, ((v - j) % 256) as u8) =~= c.tape.insert(
                    c.cursor,
                    ((v - j) % 256) as u8,
                ));
            },
        }
    }
}

proof fn lemma_mod_step_up(v: int, j: int)
    ensures
        ((v + j) % 256 + 1) % 256 == (v + j + 1) % 256,
{
}

proof fn lemma_mod_step_down(v: int, j: int)
    ensures
        ((v - j) % 256 - 1 + 256) % 256 == (v - j - 1) % 256,
{
}

/// Whether unfused state `cu` is fused state `cf` seen through the block
/// starts: the same in all but the program counter, which is the start of the
/// block that `cf`'s counter points to.
pub open spec fn corresponds(st: Seq<int>, cf: Config, cu: Config) -> bool {
    &&& 0 <= cf.pc < st.len()
    &&& is_total(cf.tape)
    &&& cu == Config { pc: st[cf.pc], ..cf }
}

proof fn lemma_mod_sum(v: int, l: int)
    ensures
        (v + l % 256) % 256 == (v + l) % 256,
        (v - l % 256 + 256) % 256 == (v - l) % 256,
{
}

/// One step of the fused program over a run block is the whole run walked by
/// the unfused program.
proof fn lemma_sim_run_block(
    s: Seq<Instruction>,
    f: Seq<Instruction>,
    st: Seq<int>,
    u: Seq<Instruction>,
    g: Seq<Instruction>,
    input: Seq<u8>,
    cf: Config,
    cu: Config,
) -> (k: nat)
    requires
        is_unfused(s),
        blocks(s, f, st),
        linked(s, u),
        linked(f, g),
        corresponds(st, cf, cu),
        !stopped(g, cf),
        is_simple(f[cf.pc]),
    ensures
        k >= 1,
        corresponds(st, step(g, input, cf), run(u, input, cu, k)),
{
    let b = cf.pc;
    let x = f[b];
    assert(stands_for(s, x, st[b], st[b + 1]));
    assert(st[b] < st[b + 1]);
    assert(st[b + 1] <= st[f.len() as int]) by {
        if b + 1 < f.len() {
            assert(st[b + 1] < st[f.len() as int]);
        }
    }
    let v = cell_of(cf.tape, cf.cursor);
    let l = st[b + 1] - st[b];
    assert(g[b] == x);
    assert forall|j: int| cu.pc <= j < st[b + 1] implies #[trigger] u[j] == match x {
        Instruction::PointerIncrement(_) => Instruction::PointerIncrement(1),
        Instruction::PointerDecrement(_) => Instruction::PointerDecrement(1),
        Instruction::DataIncrement(_) => Instruction::DataIncrement(1),
        _ => Instruction::DataDecrement(1),
    } by {
        assert(same_run(x, s[j]));
        assert(u[j] == s[j]);
    }
    lemma_walk_run(u, input, x, cu, st[b + 1], l as nat);
    lemma_mod_sum(v as int, l);
    let nf = step(g, input, cf);
    match x {
        Instruction::DataIncrement(n) => {
            assert(nf.tape == cf.tape.insert(cf.cursor, ((v + n) % 256) as u8));
        },
        Instruction::DataDecrement(n) => {
            assert(nf.tape == cf.tape.insert(cf.cursor, ((v - n + 256) % 256) as u8));
        },
        _ => {},
    }
    assert(is_total(nf.tape));
    l as nat
}

/// One step of the fused program over a single-instruction block is one step
/// of the unfused program, jumps landing on corresponding blocks.
proof fn lemma_sim_single(
    s: Seq<Instruction>,
    f: Seq<Instruction>,
    st: Seq<int>,
    u: Seq<Instruction>,
    g: Seq<Instruction>,
    input: Seq<u8>,
    cf: Config,
    cu: Config,
)
    requires
        blocks(s, f, st),
        linked(s, u),
        linked(f, g),
        corresponds(st, cf, cu),
        !stopped(g, cf),
        !is_simple(f[cf.pc]),
    ensures
        corresponds(st, step(g, input, cf), step(u, input, cu)),
{
    let b = cf.pc;
    let i = st[b];
    let x = f[b];
    assert(stands_for(s, x, st[b], st[b + 1]));
    assert(st[b + 1] <= st[f.len() as int]) by {
        if b + 1 < f.len() {
            assert(st[b + 1] < st[f.len() as int]);
        }
    }
    lemma_jumps_carry(s, f, st, u, g, b);
    assert(st[b + 1] == i + 1);
    if x is JumpForward {
        let e = b + distance(g[b]);
        assert(stands_for(s, f[e], st[e], st[e + 1]));
        assert(pairs(f, b, e));
    } else if x is JumpBackward {
        let a = b - distance(g[b]);
        assert(stands_for(s, f[a], st[a], st[a + 1]));
        assert(pairs(f, a, b));
    }
}

/// One step of the fused program is one or more steps of the unfused one.
proof fn lemma_sim_step(
    s: Seq<Instruction>,
    f: Seq<Instruction>,
    st: Seq<int>,
    u: Seq<Instruction>,
    g: Seq<Instruction>,
    input: Seq<u8>,
    cf: Config,
    cu: Config,
) -> (k: nat)
    requires
        is_unfused(s),
        blocks(s, f, st),
        linked(s, u),
        linked(f, g),
        corresponds(st, cf, cu),
    ensures
        k >= 1,
        corresponds(st, step(g, input, cf), run(u, input, cu, k)),
{
    lemma_run_last(u, input, cu, 0);
    if stopped(g, cf) {
        assert(stopped(u, cu));
        1
    } else if is_simple(f[cf.pc]) {
        lemma_sim_run_block(s, f, st, u, g, input, cf, cu)
    } else {
        lemma_sim_single(s, f, st, u, g, input, cf, cu);
        1
    }
}

/// Fusion changes nothing that a run shows. Take the linked program of a
/// source text and the linked program of its fused form. Whatever the input,
/// the fused program after `n` steps has written the same bytes, read the same
/// input, holds the same tape and cursor, and has halted or run out of input
/// exactly when the unfused program has after some `m >= n` steps.
pub proof fn lemma_fusion_preserves_runs(
    source: Seq<char>,
    plain: Seq<Instruction>,
    fast: Seq<Instruction>,
    input: Seq<u8>,
    n: nat,
) -> (m: nat)
    requires
        decoded(source).len() <= usize::MAX,
        linked(decoded(source), plain),
        linked(fused(decoded(source)), fast),
    ensures
        m >= n,
        ({
            let cf = run(fast, input, start(), n);
            let cu = run(plain, input, start(), m);
            &&& cf.output == cu.output
            &&& cf.consumed == cu.consumed
            &&& cf.tape == cu.tape
            &&& cf.cursor == cu.cursor
            &&& cf.starved == cu.starved
            &&& halted(fast, cf) == halted(plain, cu)
        }),
{
    let s = decoded(source);
    let f = fused(s);
    crate::instruction::lemma_decoded_unfused(source);
    let st = lemma_fused_blocks(s);
    let m = lemma_simulate(s, f, st, plain, fast, input, n);
    let cf = run(fast, input, start(), n);
    let cu = run(plain, input, start(), m);
    assert(cf.pc < f.len() <==> st[cf.pc] < s.len()) by {
        if cf.pc < f.len() {
            assert(st[cf.pc] < st[f.len() as int]);
        }
    }
    m
}

proof fn lemma_simulate(
    s: Seq<Instruction>,
    f: Seq<Instruction>,
    st: Seq<int>,
    u: Seq<Instruction>,
    g: Seq<Instruction>,
    input: Seq<u8>,
    n: nat,
) -> (m: nat)
    requires
        is_unfused(s),
        blocks(s, f, st),
        linked(s, u),
        linked(f, g),
    ensures
        m >= n,
        corresponds(st, run(g, input, start(), n), run(u, input, start(), m)),
    decreases n,
{
    if n == 0 {
        assert(run(g, input, start(), 0) == start());
        assert(run(u, input, start(), 0) == start());
        0
    } else {
        let n0 = (n - 1) as nat;
        let m0 = lemma_simulate(s, f, st, u, g, input, n0);
        let cf = run(g, input, start(), n0);
        let cu = run(u, input, start(), m0);
        let k = lemma_sim_step(s, f, st, u, g, input, cf, cu);
        lemma_run_last(g, input, start(), n0);
        lemma_run_split(u, input, start(), m0, k);
        m0 + k
    }
}

/// A step only ever appends to what has been written.
proof fn lemma_output_grows(p: Seq<Instruction>, input: Seq<u8>, c: Config, k: nat)
    ensures
        c.output.len() <= run(p, input, c, k).output.len(),
        c.output == run(p, input, c, k).output.take(c.output.len() as int),
    decreases k,
{
    if k > 0 {
        let c1 = step(p, input, c);
        lemma_output_grows(p, input, c1, (k - 1) as nat);
        let r = run(p, input, c, k);
        assert(c.output == c1.output.take(c.output.len() as int));
        assert(c.output =~= r.output.take(c.output.len() as int));
    } else {
        assert(c.output =~= c.output.take(c.output.len() as int));
    }
}

/// Fusion loses no output: whatever the unfused program has written after
/// `m` steps, the fused program has written at least that, in the same order,
/// after `m` steps of its own.
pub proof fn lemma_fusion_keeps_output(
    source: Seq<char>,
    plain: Seq<Instruction>,
    fast: Seq<Instruction>,
    input: Seq<u8>,
    m: nat,
)
    requires
        decoded(source).len() <= usize::MAX,
        linked(decoded(source), plain),
        linked(fused(decoded(source)), fast),
    ensures
        ({
            let o = run(plain, input, start(), m).output;
            let q = run(fast, input, start(), m).output;
            o.len() <= q.len() && o == q.take(o.len() as int)
        }),
{
    let m2 = lemma_fusion_preserves_runs(source, plain, fast, input, m);
    lemma_run_split(plain, input, start(), m, (m2 - m) as nat);
    lemma_output_grows(plain, input, run(plain, input, start(), m), (m2 - m) as nat);
}

/// Fusion keeps the bracket structure: the fused form of a source text has an
/// unmatched `]`, or is balanced, exactly when the unfused form does.
pub proof fn lemma_fusion_keeps_brackets(source: Seq<char>)
    requires
        decoded(source).len() <= usize::MAX,
    ensures
        closes_unopened(fused(decoded(source))) == closes_unopened(decoded(source)),
        balanced(fused(decoded(source))) == balanced(decoded(source)),
{
    let s = decoded(source);
    let f = fused(s);
    crate::instruction::lemma_decoded_unfused(source);
    let st = lemma_fused_blocks(s);
    lemma_block_depths(s, f, st, f.len() as int);
    if closes_unopened(f) {
        let b = choose|b: int| 0 <= b <= f.len() && #[trigger] depth(f, b) < 0;
        lemma_block_depths(s, f, st, b);
        assert(st[b] <= s.len()) by {
            if b < f.len() {
                assert(st[b] < st[f.len() as int]);
            }
        }
        assert(depth(s, st[b]) < 0);
    }
    if closes_unopened(s) {
        let k = choose|k: int| 0 <= k <= s.len() && #[trigger] depth(s, k) < 0;
        assert(k > 0);
        let c = lemma_locate(st, f.len() as int, k);
        lemma_block_depths(s, f, st, c);
        assert(stands_for(s, f[c], st[c], st[c + 1]));
        assert(depth(f, c + 1) < 0);
    }
}

} // verus!
