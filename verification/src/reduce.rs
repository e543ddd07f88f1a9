use vstd::prelude::*;
use crate::ir::{BitSource, FullAdder, HalfAdder, Matrix, Reduction};

verus! {

/// The reduction state: the columns, and the cells allocated so far, in
/// allocation order.
#[verifier::ext_equal]
pub struct RedState {
    pub cols: Seq<Seq<BitSource>>,
    pub has: Seq<HalfAdder>,
    pub fas: Seq<FullAdder>,
}

/// The state the engine starts from: the built matrix and no cells.
pub open spec fn init_state(cols: Seq<Seq<BitSource>>) -> RedState {
    RedState { cols, has: Seq::empty(), fas: Seq::empty() }
}

/// The view of an executable reduction outcome as a reduction state.
pub open spec fn red_view(r: Reduction) -> RedState {
    RedState {
        cols: r.matrix.cols(),
        has: r.half_adders@,
        fas: r.full_adders@,
    }
}

/// One visit of column `i` under target height `t`: a column of height
/// exactly `t + 1` gives its two front elements to a new half adder, a taller
/// one gives its three front elements to a new full adder; the cell's sum
/// goes to the front of column `i`, its carry to the front of column `i + 1`.
/// A column at or below the target is left untouched.
pub open spec fn step(s: RedState, i: int, t: int) -> RedState {
    let col = s.cols[i];
    if col.len() == t + 1 {
        let idx = s.has.len() as usize;
        let cell = HalfAdder { a: col[0], b: col[1] };
        RedState {
            cols: s.cols.update(i, seq![BitSource::HalfSum { index: idx }] + col.skip(2)).update(
                i + 1,
                seq![BitSource::HalfCarry { index: idx }] + s.cols[i + 1],
            ),
            has: s.has.push(cell),
            fas: s.fas,
        }
    } else if col.len() > t + 1 {
        let idx = s.fas.len() as usize;
        let cell = FullAdder { a: col[0], b: col[1], c: col[2] };
        RedState {
            cols: s.cols.update(i, seq![BitSource::FullSum { index: idx }] + col.skip(3)).update(
                i + 1,
                seq![BitSource::FullCarry { index: idx }] + s.cols[i + 1],
            ),
            has: s.has,
            fas: s.fas.push(cell),
        }
    } else {
        s
    }
}

/// One left-to-right pass over columns `i .. w - 1` (the last column is never
/// reduced: its carry would have nowhere to go).
pub open spec fn pass_from(s: RedState, w: nat, i: nat, t: int) -> RedState
    decreases w - i,
{
    if i + 1 < w {
        pass_from(step(s, i as int, t), w, i + 1, t)
    } else {
        s
    }
}

/// One full pass over all reducible columns.
pub open spec fn pass(s: RedState, w: nat, t: int) -> RedState {
    pass_from(s, w, 0, t)
}

/// `n` passes in a row.
pub open spec fn passes(s: RedState, w: nat, t: int, n: nat) -> RedState
    decreases n,
{
    if n == 0 {
        s
    } else {
        passes(pass(s, w, t), w, t, (n - 1) as nat)
    }
}

/// One stage of the engine: passes repeat under target `t` until a pass
/// changes nothing.
pub open spec fn stage_rel(s: RedState, w: nat, t: int, r: RedState) -> bool {
    exists|n: nat| r == passes(s, w, t, n) && pass(r, w, t) == r
}

/// The whole engine over a target sequence, consumed from its largest (last)
/// element down to its first.
pub open spec fn stages_rel(s: RedState, w: nat, ts: Seq<int>, r: RedState) -> bool
    decreases ts.len(),
{
    if ts.len() == 0 {
        r == s
    } else {
        exists|mid: RedState|
            stage_rel(s, w, ts.last(), mid) && stages_rel(mid, w, ts.drop_last(), r)
    }
}

/// The ascending Dadda target sequence from `d` below the bound `h`:
/// `d, d + d/2, ...`, stopping before the first value that is not below `h`.
pub open spec fn targets_from(d: int, h: int) -> Seq<int>
    decreases h - d,
    when d >= 2
{
    if d + d / 2 < h {
        seq![d] + targets_from(d + d / 2, h)
    } else {
        seq![d]
    }
}

/// The maximum column height of a matrix.
pub open spec fn max_height(cols: Seq<Seq<BitSource>>) -> nat
    decreases cols.len(),
{
    if cols.len() == 0 {
        0
    } else {
        let rest = max_height(cols.drop_last());
        if cols.last().len() > rest {
            cols.last().len()
        } else {
            rest
        }
    }
}

/// What the reduction engine computes: the fixpoint stages under the Dadda
/// target sequence for the matrix's own maximum height, largest target first.
pub open spec fn dadda_rel(cols0: Seq<Seq<BitSource>>, r: RedState) -> bool {
    stages_rel(init_state(cols0), cols0.len(), targets_from(2, max_height(cols0) as int), r)
}

/// How far a column pokes above the target height.
pub open spec fn excess(col: Seq<BitSource>, t: int) -> nat {
    if col.len() > t {
        (col.len() - t) as nat
    } else {
        0
    }
}

/// The termination potential of the pass fixpoint: each column's excess,
/// weighted by how many columns lie to its right (a carry moves excess one
/// column rightward, to a strictly smaller weight).
pub open spec fn phi_from(cols: Seq<Seq<BitSource>>, j: int, t: int) -> nat
    decreases cols.len() - j,
{
    if 0 <= j < cols.len() {
        excess(cols[j], t) * ((cols.len() - j) as nat) + phi_from(cols, j + 1, t)
    } else {
        0
    }
}

/// The potential of the whole matrix.
pub open spec fn phi(cols: Seq<Seq<BitSource>>, t: int) -> nat {
    phi_from(cols, 0, t)
}

/// The potential only reads the columns from `j` on, so it is unchanged
/// between matrices that agree there.
proof fn lemma_phi_congruent(c1: Seq<Seq<BitSource>>, c2: Seq<Seq<BitSource>>, j: int, t: int)
    requires
        c1.len() == c2.len(),
        forall|m: int| j <= m < c1.len() ==> c1[m] == c2[m],
    ensures
        phi_from(c1, j, t) == phi_from(c2, j, t),
    decreases c1.len() - j,
{
    if 0 <= j < c1.len() {
        lemma_phi_congruent(c1, c2, j + 1, t);
    }
}

/// Replacing columns `i` and `i + 1` changes the potential by exactly the
/// weighted change of those two columns' excesses.
proof fn lemma_phi_double_update(
    cols: Seq<Seq<BitSource>>,
    i: int,
    ci: Seq<BitSource>,
    cj: Seq<BitSource>,
    j: int,
    t: int,
)
    requires
        0 <= j <= i,
        i + 1 < cols.len(),
    ensures
        phi_from(cols.update(i, ci).update(i + 1, cj), j, t) + excess(cols[i], t) * ((cols.len()
            - i) as nat) + excess(cols[i + 1], t) * ((cols.len() - i - 1) as nat) == phi_from(
            cols,
            j,
            t,
        ) + excess(ci, t) * ((cols.len() - i) as nat) + excess(cj, t) * ((cols.len() - i
            - 1) as nat),
    decreases i - j,
{
    let upd = cols.update(i, ci).update(i + 1, cj);
    if j < i {
        lemma_phi_double_update(cols, i, ci, cj, j + 1, t);
        assert(upd[j] == cols[j]);
    } else {
        lemma_phi_congruent(upd, cols, i + 2, t);
        assert(upd.len() == cols.len());
        assert(upd[i] == ci);
        assert(upd[i + 1] == cj);
        assert(phi_from(upd, i, t) == excess(ci, t) * ((cols.len() - i) as nat) + phi_from(
            upd,
            i + 1,
            t,
        ));
        assert(phi_from(upd, i + 1, t) == excess(cj, t) * ((cols.len() - i - 1) as nat)
            + phi_from(upd, i + 2, t));
        assert(phi_from(cols, i, t) == excess(cols[i], t) * ((cols.len() - i) as nat) + phi_from(
            cols,
            i + 1,
            t,
        ));
        assert(phi_from(cols, i + 1, t) == excess(cols[i + 1], t) * ((cols.len() - i
            - 1) as nat) + phi_from(cols, i + 2, t));
    }
}

/// Whether visiting column `i` under target `t` allocates a cell.
pub open spec fn allocates(s: RedState, i: int, t: int) -> bool {
    s.cols[i].len() > t
}

/// Visiting one column never raises the potential, and strictly lowers it
/// when a cell is allocated; a visit that allocates nothing leaves the state
/// untouched.
proof fn lemma_step_phi(s: RedState, i: int, t: int)
    requires
        0 <= i,
        i + 1 < s.cols.len(),
        t >= 1,
    ensures
        step(s, i, t).cols.len() == s.cols.len(),
        s.has.len() <= step(s, i, t).has.len(),
        s.fas.len() <= step(s, i, t).fas.len(),
        allocates(s, i, t) ==> step(s, i, t).has.len() + step(s, i, t).fas.len() == s.has.len()
            + s.fas.len() + 1,
        allocates(s, i, t) ==> phi(step(s, i, t).cols, t) < phi(s.cols, t),
        !allocates(s, i, t) ==> step(s, i, t) == s,
{
    let col = s.cols[i];
    let wa = (s.cols.len() - i) as nat;
    let wb = (s.cols.len() - i - 1) as nat;
    let e0 = excess(col, t);
    let e1 = excess(s.cols[i + 1], t);
    if col.len() == t + 1 {
        let idx = s.has.len() as usize;
        let ci = seq![BitSource::HalfSum { index: idx }] + col.skip(2);
        let cj = seq![BitSource::HalfCarry { index: idx }] + s.cols[i + 1];
        lemma_phi_double_update(s.cols, i, ci, cj, 0, t);
        assert(ci.len() == t);
        assert(excess(ci, t) == 0);
        assert(e0 == 1);
        assert(excess(cj, t) <= e1 + 1);
        assert(excess(cj, t) * wb <= (e1 + 1) * wb) by (nonlinear_arith)
            requires excess(cj, t) <= e1 + 1;
        assert((e1 + 1) * wb == e1 * wb + wb) by (nonlinear_arith);
        assert(phi(step(s, i, t).cols, t) + 1 * wa + e1 * wb == phi(s.cols, t) + 0 * wa + excess(
            cj,
            t,
        ) * wb);
    } else if col.len() > t + 1 {
        let idx = s.fas.len() as usize;
        let ci = seq![BitSource::FullSum { index: idx }] + col.skip(3);
        let cj = seq![BitSource::FullCarry { index: idx }] + s.cols[i + 1];
        lemma_phi_double_update(s.cols, i, ci, cj, 0, t);
        assert(ci.len() == col.len() - 2);
        assert(e0 >= 2);
        assert(excess(ci, t) == e0 - 2);
        assert(excess(cj, t) <= e1 + 1);
        assert(excess(cj, t) * wb <= (e1 + 1) * wb) by (nonlinear_arith)
            requires excess(cj, t) <= e1 + 1;
        assert((e1 + 1) * wb == e1 * wb + wb) by (nonlinear_arith);
        assert((e0 - 2) * wa == e0 * wa - 2 * wa) by (nonlinear_arith)
            requires e0 >= 2;
        assert(phi(step(s, i, t).cols, t) + e0 * wa + e1 * wb == phi(s.cols, t) + (e0 - 2) * wa
            + excess(cj, t) * wb);
        assert(wa == wb + 1);
    }
}

/// A pass from column `i` on: the width is kept, the cell lists only grow,
/// the potential never rises and strictly falls when any cell is allocated,
/// and a pass that allocates nothing is the identity.
pub proof fn lemma_pass_from(s: RedState, w: nat, i: nat, t: int)
    requires
        t >= 1,
        w == s.cols.len(),
    ensures
        pass_from(s, w, i, t).cols.len() == w,
        pass_from(s, w, i, t).has.len() >= s.has.len(),
        pass_from(s, w, i, t).fas.len() >= s.fas.len(),
        phi(pass_from(s, w, i, t).cols, t) <= phi(s.cols, t),
        pass_from(s, w, i, t).has.len() + pass_from(s, w, i, t).fas.len() > s.has.len()
            + s.fas.len() ==> phi(pass_from(s, w, i, t).cols, t) < phi(s.cols, t),
        pass_from(s, w, i, t).has.len() + pass_from(s, w, i, t).fas.len() == s.has.len()
            + s.fas.len() ==> pass_from(s, w, i, t) == s,
    decreases w - i,
{
    if i + 1 < w {
        lemma_step_phi(s, i as int, t);
        lemma_pass_from(step(s, i as int, t), w, i + 1, t);
    }
}

/// Appending one more pass to `n` passes.
proof fn lemma_passes_snoc(s: RedState, w: nat, t: int, n: nat)
    ensures
        passes(s, w, t, n + 1) == pass(passes(s, w, t, n), w, t),
    decreases n,
{
    assert(passes(s, w, t, n + 1) == passes(pass(s, w, t), w, t, n));
    if n > 0 {
        lemma_passes_snoc(pass(s, w, t), w, t, (n - 1) as nat);
        assert(passes(s, w, t, n) == passes(pass(s, w, t), w, t, (n - 1) as nat));
    }
}

/// Splitting a run of passes in two.
proof fn lemma_passes_add(s: RedState, w: nat, t: int, a: nat, b: nat)
    ensures
        passes(s, w, t, a + b) == passes(passes(s, w, t, a), w, t, b),
    decreases a,
{
    if a > 0 {
        lemma_passes_add(pass(s, w, t), w, t, (a - 1) as nat, b);
    }
}

/// A fixpoint of one pass is a fixpoint of any number of passes.
proof fn lemma_passes_stable(s: RedState, w: nat, t: int, n: nat)
    requires
        pass(s, w, t) == s,
    ensures
        passes(s, w, t, n) == s,
    decreases n,
{
    if n > 0 {
        lemma_passes_stable(s, w, t, (n - 1) as nat);
    }
}

/// One stage has at most one outcome.
proof fn lemma_stage_unique(s: RedState, w: nat, t: int, r1: RedState, r2: RedState)
    requires
        stage_rel(s, w, t, r1),
        stage_rel(s, w, t, r2),
    ensures
        r1 == r2,
{
    let n1 = choose|n: nat| r1 == passes(s, w, t, n) && pass(r1, w, t) == r1;
    let n2 = choose|n: nat| r2 == passes(s, w, t, n) && pass(r2, w, t) == r2;
    if n1 <= n2 {
        lemma_passes_add(s, w, t, n1, (n2 - n1) as nat);
        lemma_passes_stable(r1, w, t, (n2 - n1) as nat);
    } else {
        lemma_passes_add(s, w, t, n2, (n1 - n2) as nat);
        lemma_passes_stable(r2, w, t, (n1 - n2) as nat);
    }
}

/// The whole engine has at most one outcome from a given start.
proof fn lemma_stages_unique(s: RedState, w: nat, ts: Seq<int>, r1: RedState, r2: RedState)
    requires
        stages_rel(s, w, ts, r1),
        stages_rel(s, w, ts, r2),
    ensures
        r1 == r2,
    decreases ts.len(),
{
    if ts.len() > 0 {
        let mid1 = choose|mid: RedState|
            stage_rel(s, w, ts.last(), mid) && stages_rel(mid, w, ts.drop_last(), r1);
        let mid2 = choose|mid: RedState|
            stage_rel(s, w, ts.last(), mid) && stages_rel(mid, w, ts.drop_last(), r2);
        lemma_stage_unique(s, w, ts.last(), mid1, mid2);
        lemma_stages_unique(mid1, w, ts.drop_last(), r1, r2);
    }
}

/// After a pass that changed nothing, no column left of the last one pokes
/// above the target.
proof fn lemma_pass_fix_heights(s: RedState, w: nat, i: nat, t: int)
    requires
        t >= 1,
        w == s.cols.len(),
        pass_from(s, w, i, t) == s,
    ensures
        forall|k: int| i <= k && k + 1 < w ==> s.cols[k].len() <= t,
    decreases w - i,
{
    if i + 1 < w {
        lemma_step_phi(s, i as int, t);
        if allocates(s, i as int, t) {
            lemma_pass_from(step(s, i as int, t), w, i + 1, t);
            assert(false);
        }
        lemma_pass_fix_heights(s, w, i + 1, t);
    }
}

/// A stage keeps the width and leaves every reducible column at or below its
/// target height.
proof fn lemma_stage_heights(s: RedState, w: nat, t: int, r: RedState)
    requires
        t >= 1,
        w == s.cols.len(),
        stage_rel(s, w, t, r),
    ensures
        r.cols.len() == w,
        forall|k: int| 0 <= k && k + 1 < w ==> r.cols[k].len() <= t,
{
    let n = choose|n: nat| r == passes(s, w, t, n) && pass(r, w, t) == r;
    lemma_passes_len(s, w, t, n);
    lemma_pass_fix_heights(r, w, 0, t);
}

/// Passes keep the width and only grow the cell lists.
pub proof fn lemma_passes_len(s: RedState, w: nat, t: int, n: nat)
    requires
        t >= 1,
        w == s.cols.len(),
    ensures
        passes(s, w, t, n).cols.len() == w,
        passes(s, w, t, n).has.len() >= s.has.len(),
        passes(s, w, t, n).fas.len() >= s.fas.len(),
    decreases n,
{
    if n > 0 {
        lemma_pass_from(s, w, 0, t);
        lemma_passes_len(pass(s, w, t), w, t, (n - 1) as nat);
    }
}

/// Every target is at least 2, the first is `d`, and each is below `h` or is
/// the initial `d` itself.
pub proof fn lemma_targets_bounds(d: int, h: int)
    requires
        d >= 2,
    ensures
        targets_from(d, h).len() >= 1,
        targets_from(d, h)[0] == d,
        forall|j: int| 0 <= j < targets_from(d, h).len() ==> targets_from(d, h)[j] >= d,
        forall|j: int| 0 <= j < targets_from(d, h).len() ==> targets_from(d, h)[j] == d
            || targets_from(d, h)[j] < h,
    decreases
            (if d < h {
                h - d
            } else {
                0
            }),
{
    if d + d / 2 < h {
        lemma_targets_bounds(d + d / 2, h);
        assert forall|j: int| 0 <= j < targets_from(d, h).len() implies targets_from(d, h)[j]
            >= d && (targets_from(d, h)[j] == d || targets_from(d, h)[j] < h) by {
            if j > 0 {
                assert(targets_from(d, h)[j] == targets_from(d + d / 2, h)[j - 1]);
            }
        }
    }
}

/// From a run of stages one can peel off the final stage: its target is the
/// first element of the target sequence.
proof fn lemma_stages_first(s: RedState, w: nat, ts: Seq<int>, r: RedState)
    requires
        ts.len() >= 1,
        s.cols.len() == w,
        forall|j: int| 0 <= j < ts.len() ==> ts[j] >= 1,
        stages_rel(s, w, ts, r),
    ensures
        exists|mid: RedState| mid.cols.len() == w && stage_rel(mid, w, ts[0], r),
    decreases ts.len(),
{
    let mid = choose|mid: RedState|
        stage_rel(s, w, ts.last(), mid) && stages_rel(mid, w, ts.drop_last(), r);
    lemma_stage_heights(s, w, ts.last(), mid);
    if ts.len() == 1 {
        assert(r == mid);
        assert(s.cols.len() == w && stage_rel(s, w, ts[0], r));
    } else {
        assert(forall|j: int| 0 <= j < ts.drop_last().len() ==> ts.drop_last()[j] >= 1);
        lemma_stages_first(mid, w, ts.drop_last(), r);
        assert(ts.drop_last()[0] == ts[0]);
    }
}

/// Every column's height is bounded by the matrix's maximum height.
proof fn lemma_max_height_bound(cols: Seq<Seq<BitSource>>, k: int)
    requires
        0 <= k < cols.len(),
    ensures
        cols[k].len() <= max_height(cols),
    decreases cols.len(),
{
    if k + 1 < cols.len() {
        lemma_max_height_bound(cols.drop_last(), k);
    }
}

/// A pass over columns that are all at or below the target changes nothing.
proof fn lemma_pass_noop(s: RedState, w: nat, i: nat, t: int)
    requires
        w <= s.cols.len(),
        forall|k: int| 0 <= k < s.cols.len() ==> s.cols[k].len() <= t,
    ensures
        pass_from(s, w, i, t) == s,
    decreases w - i,
{
    if i + 1 < w {
        assert(step(s, i as int, t) == s);
        lemma_pass_noop(s, w, i + 1, t);
    }
}

/// After reduction every column but the last holds at most two bit sources,
/// and the width is unchanged.
pub proof fn lemma_reduced_heights(cols0: Seq<Seq<BitSource>>, r: RedState)
    requires
        cols0.len() >= 1,
        dadda_rel(cols0, r),
    ensures
        r.cols.len() == cols0.len(),
        forall|k: int| 0 <= k && k + 1 < cols0.len() ==> r.cols[k].len() <= 2,
{
    let w = cols0.len();
    let ts = targets_from(2, max_height(cols0) as int);
    lemma_targets_bounds(2, max_height(cols0) as int);
    lemma_stages_first(init_state(cols0), w, ts, r);
    let mid = choose|mid: RedState| mid.cols.len() == w && stage_rel(mid, w, ts[0], r);
    lemma_stage_heights(mid, w, 2, r);
}

/// Degenerate case: a matrix whose maximum height is already at most two
/// passes through the engine unchanged, with no cell allocated.
pub proof fn lemma_degenerate(cols0: Seq<Seq<BitSource>>, r: RedState)
    requires
        max_height(cols0) <= 2,
        dadda_rel(cols0, r),
    ensures
        r == init_state(cols0),
{
    let s0 = init_state(cols0);
    let w = cols0.len();
    let ts = targets_from(2, max_height(cols0) as int);
    assert(ts =~= seq![2int]);
    let mid = choose|mid: RedState|
        stage_rel(s0, w, ts.last(), mid) && stages_rel(mid, w, ts.drop_last(), r);
    let n = choose|n: nat| mid == passes(s0, w, 2, n) && pass(mid, w, 2) == mid;
    assert forall|k: int| 0 <= k < cols0.len() implies s0.cols[k].len() <= 2 by {
        lemma_max_height_bound(cols0, k);
    }
    lemma_pass_noop(s0, w, 0, 2);
    lemma_passes_stable(s0, w, 2, n);
    assert(r == mid);
}

/// One column visit never empties a column that held something.
proof fn lemma_step_nonempty(s: RedState, i: int, t: int)
    requires
        0 <= i,
        i + 1 < s.cols.len(),
        t >= 1,
    ensures
        forall|k: int|
            0 <= k < s.cols.len() && s.cols[k].len() >= 1 ==> #[trigger] step(
                s,
                i,
                t,
            ).cols[k].len() >= 1,
{
}

/// A pass never empties a column that held something.
proof fn lemma_pass_nonempty(s: RedState, w: nat, i: nat, t: int)
    requires
        t >= 1,
        w == s.cols.len(),
    ensures
        forall|k: int|
            0 <= k < w && s.cols[k].len() >= 1 ==> #[trigger] pass_from(
                s,
                w,
                i,
                t,
            ).cols[k].len() >= 1,
    decreases w - i,
{
    if i + 1 < w {
        lemma_step_nonempty(s, i as int, t);
        lemma_step_phi(s, i as int, t);
        lemma_pass_nonempty(step(s, i as int, t), w, i + 1, t);
        assert forall|k: int| 0 <= k < w && s.cols[k].len() >= 1 implies #[trigger] pass_from(
            s,
            w,
            i,
            t,
        ).cols[k].len() >= 1 by {
            assert(step(s, i as int, t).cols[k].len() >= 1);
            assert(pass_from(step(s, i as int, t), w, i + 1, t).cols[k].len() >= 1);
        }
    }
}

/// Any number of passes never empties a column that held something.
proof fn lemma_passes_nonempty(s: RedState, w: nat, t: int, n: nat)
    requires
        t >= 1,
        w == s.cols.len(),
    ensures
        forall|k: int|
            0 <= k < w && s.cols[k].len() >= 1 ==> #[trigger] passes(
                s,
                w,
                t,
                n,
            ).cols[k].len() >= 1,
    decreases n,
{
    if n > 0 {
        lemma_pass_nonempty(s, w, 0, t);
        lemma_pass_from(s, w, 0, t);
        lemma_passes_nonempty(pass(s, w, t), w, t, (n - 1) as nat);
        assert(passes(s, w, t, n) == passes(pass(s, w, t), w, t, (n - 1) as nat));
        assert forall|k: int| 0 <= k < w && s.cols[k].len() >= 1 implies #[trigger] passes(
            s,
            w,
            t,
            n,
        ).cols[k].len() >= 1 by {
            assert(pass_from(s, w, 0, t).cols[k].len() >= 1);
            assert(passes(pass(s, w, t), w, t, (n - 1) as nat).cols[k].len() >= 1);
        }
    }
}

/// A whole run of stages never empties a column that held something.
proof fn lemma_stages_nonempty(s: RedState, w: nat, ts: Seq<int>, r: RedState)
    requires
        w == s.cols.len(),
        forall|j: int| 0 <= j < ts.len() ==> ts[j] >= 1,
        stages_rel(s, w, ts, r),
    ensures
        r.cols.len() == w,
        forall|k: int|
            0 <= k < w && s.cols[k].len() >= 1 ==> #[trigger] r.cols[k].len() >= 1,
    decreases ts.len(),
{
    if ts.len() > 0 {
        let mid = choose|mid: RedState|
            stage_rel(s, w, ts.last(), mid) && stages_rel(mid, w, ts.drop_last(), r);
        let n = choose|n: nat| mid == passes(s, w, ts.last(), n) && pass(mid, w, ts.last()) == mid;
        lemma_passes_nonempty(s, w, ts.last(), n);
        lemma_passes_len(s, w, ts.last(), n);
        assert(forall|j: int| 0 <= j < ts.drop_last().len() ==> ts.drop_last()[j] >= 1);
        lemma_stages_nonempty(mid, w, ts.drop_last(), r);
    }
}

/// Reduction never empties a column that held something.
pub proof fn lemma_reduced_nonempty(cols0: Seq<Seq<BitSource>>, r: RedState)
    requires
        dadda_rel(cols0, r),
    ensures
        forall|k: int|
            0 <= k < cols0.len() && cols0[k].len() >= 1 ==> #[trigger] r.cols[k].len() >= 1,
{
    lemma_targets_bounds(2, max_height(cols0) as int);
    lemma_stages_nonempty(
        init_state(cols0),
        cols0.len(),
        targets_from(2, max_height(cols0) as int),
        r,
    );
}

/// Determinism: the engine relates a matrix to exactly one outcome.
pub proof fn lemma_reduction_deterministic(cols0: Seq<Seq<BitSource>>, r1: RedState, r2: RedState)
    requires
        dadda_rel(cols0, r1),
        dadda_rel(cols0, r2),
    ensures
        r1 == r2,
{
    lemma_stages_unique(
        init_state(cols0),
        cols0.len(),
        targets_from(2, max_height(cols0) as int),
        r1,
        r2,
    );
}

/// The mathematical view of a vector of columns.
pub open spec fn mat_view(v: Seq<Vec<BitSource>>) -> Seq<Seq<BitSource>> {
    Seq::new(v.len(), |i: int| v[i]@)
}

/// The reduction state held by the executable engine.
pub open spec fn state_of(
    cols: Seq<Vec<BitSource>>,
    has: Seq<HalfAdder>,
    fas: Seq<FullAdder>,
) -> RedState {
    RedState { cols: mat_view(cols), has, fas }
}

/// A sequence of machine integers, read mathematically.
pub open spec fn ints_of(v: Seq<usize>) -> Seq<int> {
    v.map_values(|x: usize| x as int)
}

/// Compresses the matrix with half- and full-adder cells under the Dadda
/// target sequence until every reducible column holds at most two bit
/// sources.  The outcome is the unique state the fixpoint stages relate the
/// input to, so two runs over the same matrix give identical cell lists.
pub fn dadda_reduce(m: Matrix) -> (r: Reduction)
    requires
        m.columns@.len() >= 1,
        max_height(m.cols()) <= usize::MAX / 2,
    ensures
        dadda_rel(m.cols(), red_view(r)),
        r.matrix.columns@.len() == m.columns@.len(),
        forall|k: int| 0 <= k && k + 1 < m.columns@.len() ==> r.matrix.cols()[k].len() <= 2,
{
    let ghost cols0 = m.cols();
    let Matrix { columns: mut cols } = m;
    let wo = cols.len();

    // Maximum column height of the matrix.
    let mut h: usize = 0;
    let mut idx: usize = 0;
    while idx < wo
        invariant
            idx <= wo,
            wo == cols@.len(),
            cols0 == mat_view(cols@),
            h == max_height(cols0.take(idx as int)),
        decreases wo - idx,
    {
        let l = cols[idx].len();
        proof {
            assert(cols0.take(idx + 1).drop_last() =~= cols0.take(idx as int));
            assert(cols0.take(idx + 1).last() == cols0[idx as int]);
            assert(l == cols0[idx as int].len());
        }
        if l > h {
            h = l;
        }
        idx = idx + 1;
    }
    proof {
        assert(cols0.take(wo as int) =~= cols0);
    }

    // The ascending target sequence 2, 3, 4, 6, ... below h.
    let mut targets: Vec<usize> = Vec::new();
    targets.push(2);
    let mut last: usize = 2;
    let mut nxt: usize = 3;
    while nxt < h
        invariant
            h <= usize::MAX / 2,
            targets@.len() >= 1,
            last == targets@.last(),
            2 <= last <= usize::MAX / 2,
            nxt == last + last / 2,
            forall|j: int| 0 <= j < targets@.len() ==> 2 <= #[trigger] targets@[j] <= usize::MAX
                / 2,
            targets_from(2, h as int) == ints_of(targets@.drop_last()) + targets_from(
                last as int,
                h as int,
            ),
        decreases
                (if nxt <= h {
                    h - nxt
                } else {
                    0int
                }),
    {
        let ghost tv0 = targets@;
        targets.push(nxt);
        proof {
            assert(targets_from(last as int, h as int) == seq![last as int] + targets_from(
                nxt as int,
                h as int,
            ));
            assert(targets@.drop_last() == tv0);
            assert(ints_of(tv0) =~= ints_of(tv0.drop_last()) + seq![last as int]);
            assert(targets_from(2, h as int) =~= ints_of(tv0) + targets_from(
                nxt as int,
                h as int,
            ));
        }
        last = nxt;
        nxt = last + last / 2;
    }
    let ghost full = targets_from(2, h as int);
    proof {
        assert(targets_from(last as int, h as int) == seq![last as int]);
        assert(ints_of(targets@) =~= ints_of(targets@.drop_last()) + seq![last as int]);
        assert(full == ints_of(targets@));
    }

    // The fixpoint stages, largest target first.
    let mut has: Vec<HalfAdder> = Vec::new();
    let mut fas: Vec<FullAdder> = Vec::new();
    let ghost s0 = init_state(cols0);
    proof {
        assert(state_of(cols@, has@, fas@) =~~= s0);
    }
    while targets.len() > 0
        invariant
            wo >= 1,
            wo == cols@.len(),
            s0.cols.len() == wo,
            forall|j: int| 0 <= j < targets@.len() ==> 2 <= #[trigger] targets@[j] <= usize::MAX
                / 2,
            forall|sf: RedState|
                stages_rel(
                    state_of(cols@, has@, fas@),
                    wo as nat,
                    ints_of(targets@),
                    sf,
                ) ==> stages_rel(s0, wo as nat, full, sf),
        decreases targets@.len(),
    {
        let ghost tv0 = targets@;
        let t = targets.pop().unwrap();
        let ghost stage_begin = state_of(cols@, has@, fas@);
        let mut changed = true;
        let ghost mut np: nat = 0;
        while changed
            invariant
                wo >= 1,
                wo == cols@.len(),
                2 <= t <= usize::MAX / 2,
                stage_begin.cols.len() == wo,
                state_of(cols@, has@, fas@) == passes(stage_begin, wo as nat, t as int, np),
                !changed ==> pass(state_of(cols@, has@, fas@), wo as nat, t as int) == state_of(
                    cols@,
                    has@,
                    fas@,
                ),
            decreases
                    phi(mat_view(cols@), t as int),
                    (if changed {
                        1int
                    } else {
                        0int
                    }),
    {
            changed = false;
            let ghost pass_begin = state_of(cols@, has@, fas@);
            let mut i: usize = 0;
            let limit = wo - 1;
            while i < limit
                invariant
                    wo == cols@.len(),
                    limit == wo - 1,
                    i <= limit,
                    2 <= t <= usize::MAX / 2,
                    pass_begin.cols.len() == wo,
                    pass(pass_begin, wo as nat, t as int) == pass_from(
                        state_of(cols@, has@, fas@),
                        wo as nat,
                        i as nat,
                        t as int,
                    ),
                    pass_begin.has.len() <= has@.len(),
                    pass_begin.fas.len() <= fas@.len(),
                    changed ==> has@.len() + fas@.len() > pass_begin.has.len()
                        + pass_begin.fas.len(),
                    !changed ==> state_of(cols@, has@, fas@) == pass_begin,
                decreases limit - i,
            {
                let ghost pre = state_of(cols@, has@, fas@);
                proof {
                    assert(pre.cols[i as int] == cols@[i as int]@);
                }
                let hi = cols[i].len();
                if hi == t + 1 {
                    let mut ci = cols.remove(i);
                    let a = ci.remove(0);
                    let b = ci.remove(0);
                    let idx = has.len();
                    ci.insert(0, BitSource::HalfSum { index: idx });
                    cols.insert(i, ci);
                    let mut cn = cols.remove(i + 1);
                    cn.insert(0, BitSource::HalfCarry { index: idx });
                    cols.insert(i + 1, cn);
                    has.push(HalfAdder { a, b });
                    changed = true;
                    proof {
                        let st = step(pre, i as int, t as int);
                        assert forall|j: int| 0 <= j < wo implies cols@[j]@ == st.cols[j] by {
                            if j == i as int {
                                assert(cols@[j]@ =~= st.cols[j]);
                            } else if j == i + 1 {
                                assert(cols@[j]@ =~= st.cols[j]);
                            }
                        }
                        assert(state_of(cols@, has@, fas@) =~~= st);
                    }
                } else if hi > t + 1 {
                    let mut ci = cols.remove(i);
                    let a = ci.remove(0);
                    let b = ci.remove(0);
                    let c = ci.remove(0);
                    let idx = fas.len();
                    ci.insert(0, BitSource::FullSum { index: idx });
                    cols.insert(i, ci);
                    let mut cn = cols.remove(i + 1);
                    cn.insert(0, BitSource::FullCarry { index: idx });
                    cols.insert(i + 1, cn);
                    fas.push(FullAdder { a, b, c });
                    changed = true;
                    proof {
                        let st = step(pre, i as int, t as int);
                        assert forall|j: int| 0 <= j < wo implies cols@[j]@ == st.cols[j] by {
                            if j == i as int {
                                assert(cols@[j]@ =~= st.cols[j]);
                            } else if j == i + 1 {
                                assert(cols@[j]@ =~= st.cols[j]);
                            }
                        }
                        assert(state_of(cols@, has@, fas@) =~~= st);
                    }
                } else {
                    proof {
                        assert(step(pre, i as int, t as int) == pre);
                    }
                }
                proof {
                    assert(pass_from(pre, wo as nat, i as nat, t as int) == pass_from(
                        step(pre, i as int, t as int),
                        wo as nat,
                        (i + 1) as nat,
                        t as int,
                    ));
                }
                i = i + 1;
            }
            proof {
                let cur = state_of(cols@, has@, fas@);
                assert(pass_from(cur, wo as nat, limit as nat, t as int) == cur);
                assert(pass(pass_begin, wo as nat, t as int) == cur);
                lemma_passes_snoc(stage_begin, wo as nat, t as int, np);
                np = np + 1;
                lemma_pass_from(pass_begin, wo as nat, 0, t as int);
            }
        }
        proof {
            let cur = state_of(cols@, has@, fas@);
            assert(stage_rel(stage_begin, wo as nat, t as int, cur));
            assert(ints_of(tv0).last() == t as int);
            assert(ints_of(tv0).drop_last() =~= ints_of(targets@));
            assert forall|sf: RedState|
                stages_rel(cur, wo as nat, ints_of(targets@), sf) implies stages_rel(
                s0,
                wo as nat,
                full,
                sf,
            ) by {
                assert(stage_rel(stage_begin, wo as nat, ints_of(tv0).last(), cur));
                assert(stages_rel(stage_begin, wo as nat, ints_of(tv0), sf));
            }
        }
    }
    let r = Reduction { matrix: Matrix { columns: cols }, half_adders: has, full_adders: fas };
    proof {
        let cur = state_of(cols@, has@, fas@);
        assert(ints_of(targets@) =~= Seq::<int>::empty());
        assert(stages_rel(cur, wo as nat, ints_of(targets@), cur));
        assert(red_view(r) =~~= cur);
        assert(dadda_rel(cols0, red_view(r)));
        lemma_reduced_heights(cols0, red_view(r));
    }
    r
}

} // verus!
