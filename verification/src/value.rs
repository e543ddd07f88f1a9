use vstd::prelude::*;
use vstd::multiset::Multiset;
use crate::ir::{BitSource, FullAdder, HalfAdder};
use crate::reduce::{
    dadda_rel, init_state, max_height, pass, pass_from, passes, stage_rel, stages_rel, step,
    targets_from, RedState,
};
use crate::reduce::{lemma_targets_bounds, lemma_pass_from, lemma_passes_len};

verus! {

broadcast use vstd::multiset::group_multiset_axioms;

/// An assignment of every input bit: the two operand bit vectors and the
/// run-time addend bits.
pub struct Env {
    pub a: Seq<bool>,
    pub b: Seq<bool>,
    pub off: Seq<bool>,
}

/// The sum and carry of a half adder.
pub open spec fn half_out(a: bool, b: bool) -> (bool, bool) {
    (a != b, a && b)
}

/// The sum and carry-out of a full adder.
pub open spec fn full_out(a: bool, b: bool, c: bool) -> (bool, bool) {
    ((a != b) != c, (a && b) || (a && c) || (b && c))
}

/// The value of one bit source, given the assignment and the output values
/// of every cell.
pub open spec fn val_of(
    src: BitSource,
    env: Env,
    hv: Seq<(bool, bool)>,
    fv: Seq<(bool, bool)>,
) -> bool {
    match src {
        BitSource::PartialProduct { a, b } => env.a[a as int] && env.b[b as int],
        BitSource::OffsetBit { index } => env.off[index as int],
        BitSource::Constant { value } => value,
        BitSource::HalfSum { index } => hv[index as int].0,
        BitSource::HalfCarry { index } => hv[index as int].1,
        BitSource::FullSum { index } => fv[index as int].0,
        BitSource::FullCarry { index } => fv[index as int].1,
    }
}

/// Cell values that agree with the cell lists: every half adder's recorded
/// outputs are the sum and carry of its inputs' values, and likewise for
/// every full adder.
pub open spec fn consistent(
    has: Seq<HalfAdder>,
    fas: Seq<FullAdder>,
    env: Env,
    hv: Seq<(bool, bool)>,
    fv: Seq<(bool, bool)>,
) -> bool {
    &&& hv.len() == has.len()
    &&& fv.len() == fas.len()
    &&& forall|i: int|
        #![trigger has[i]]
        0 <= i < has.len() ==> hv[i] == half_out(
            val_of(has[i].a, env, hv, fv),
            val_of(has[i].b, env, hv, fv),
        )
    &&& forall|i: int|
        #![trigger fas[i]]
        0 <= i < fas.len() ==> fv[i] == full_out(
            val_of(fas[i].a, env, hv, fv),
            val_of(fas[i].b, env, hv, fv),
            val_of(fas[i].c, env, hv, fv),
        )
}

/// A bit as a number.
pub open spec fn b2n(b: bool) -> nat {
    if b {
        1
    } else {
        0
    }
}

/// How many of a column's bit sources evaluate to one.
pub open spec fn col_val(col: Seq<BitSource>, env: Env, hv: Seq<(bool, bool)>, fv: Seq<(bool, bool)>) -> nat
    decreases col.len(),
{
    if col.len() == 0 {
        0
    } else {
        b2n(val_of(col[0], env, hv, fv)) + col_val(col.drop_first(), env, hv, fv)
    }
}

/// The weighted value of the matrix: each column counts at twice the weight
/// of the column before it.
pub open spec fn mat_val(
    cols: Seq<Seq<BitSource>>,
    env: Env,
    hv: Seq<(bool, bool)>,
    fv: Seq<(bool, bool)>,
) -> nat
    decreases cols.len(),
{
    if cols.len() == 0 {
        0
    } else {
        col_val(cols[0], env, hv, fv) + 2 * mat_val(cols.drop_first(), env, hv, fv)
    }
}

/// Moving `d` units of value from column `i` to column `i + 1` at half the
/// weight leaves the matrix value unchanged.
proof fn lemma_mat_val_transfer(
    cols: Seq<Seq<BitSource>>,
    i: int,
    ci: Seq<BitSource>,
    cj: Seq<BitSource>,
    d: nat,
    env: Env,
    hv: Seq<(bool, bool)>,
    fv: Seq<(bool, bool)>,
)
    requires
        0 <= i,
        i + 1 < cols.len(),
        col_val(ci, env, hv, fv) + 2 * d == col_val(cols[i], env, hv, fv),
        col_val(cj, env, hv, fv) == col_val(cols[i + 1], env, hv, fv) + d,
    ensures
        mat_val(cols.update(i, ci).update(i + 1, cj), env, hv, fv) == mat_val(cols, env, hv, fv),
    decreases i,
{
    let upd = cols.update(i, ci).update(i + 1, cj);
    if i == 0 {
        assert(upd[0] == ci);
        assert(upd.drop_first()[0] == cj);
        assert(upd.drop_first().drop_first() =~= cols.drop_first().drop_first());
        assert(cols.drop_first()[0] == cols[1]);
        assert(mat_val(upd.drop_first(), env, hv, fv) == col_val(cj, env, hv, fv) + 2 * mat_val(
            upd.drop_first().drop_first(),
            env,
            hv,
            fv,
        ));
        assert(mat_val(cols.drop_first(), env, hv, fv) == col_val(cols[1], env, hv, fv) + 2
            * mat_val(cols.drop_first().drop_first(), env, hv, fv));
    } else {
        assert(upd.drop_first() =~= cols.drop_first().update(i - 1, ci).update(i, cj));
        assert(cols.drop_first()[i - 1] == cols[i]);
        assert(cols.drop_first()[i] == cols[i + 1]);
        lemma_mat_val_transfer(cols.drop_first(), i - 1, ci, cj, d, env, hv, fv);
        assert(upd[0] == cols[0]);
    }
}

/// One prefix relation follows another.
proof fn lemma_prefix_trans<T>(a: Seq<T>, b: Seq<T>, c: Seq<T>)
    requires
        a.is_prefix_of(b),
        b.is_prefix_of(c),
    ensures
        a.is_prefix_of(c),
{
    assert(a =~= c.subrange(0, a.len() as int));
}

/// Unfolding one element off the front of a column's value.
proof fn lemma_col_val_cons(
    x: BitSource,
    rest: Seq<BitSource>,
    env: Env,
    hv: Seq<(bool, bool)>,
    fv: Seq<(bool, bool)>,
)
    ensures
        col_val(seq![x] + rest, env, hv, fv) == b2n(val_of(x, env, hv, fv)) + col_val(
            rest,
            env,
            hv,
            fv,
        ),
{
    let c = seq![x] + rest;
    assert(c[0] == x);
    assert(c.drop_first() =~= rest);
}

/// A column's value is its first two bits plus the value of the remainder.
proof fn lemma_col_val_two(
    col: Seq<BitSource>,
    env: Env,
    hv: Seq<(bool, bool)>,
    fv: Seq<(bool, bool)>,
)
    requires
        col.len() >= 2,
    ensures
        col_val(col, env, hv, fv) == b2n(val_of(col[0], env, hv, fv)) + b2n(
            val_of(col[1], env, hv, fv),
        ) + col_val(col.skip(2), env, hv, fv),
{
    assert(col.drop_first()[0] == col[1]);
    assert(col.drop_first().drop_first() =~= col.skip(2));
    assert(col_val(col, env, hv, fv) == b2n(val_of(col[0], env, hv, fv)) + col_val(
        col.drop_first(),
        env,
        hv,
        fv,
    ));
    assert(col_val(col.drop_first(), env, hv, fv) == b2n(val_of(col[1], env, hv, fv)) + col_val(
        col.drop_first().drop_first(),
        env,
        hv,
        fv,
    ));
}

/// A column's value is its first three bits plus the value of the remainder.
proof fn lemma_col_val_three(
    col: Seq<BitSource>,
    env: Env,
    hv: Seq<(bool, bool)>,
    fv: Seq<(bool, bool)>,
)
    requires
        col.len() >= 3,
    ensures
        col_val(col, env, hv, fv) == b2n(val_of(col[0], env, hv, fv)) + b2n(
            val_of(col[1], env, hv, fv),
        ) + b2n(val_of(col[2], env, hv, fv)) + col_val(col.skip(3), env, hv, fv),
{
    assert(col.drop_first()[0] == col[1]);
    assert(col.drop_first().drop_first()[0] == col[2]);
    assert(col.drop_first().drop_first().drop_first() =~= col.skip(3));
    assert(col_val(col, env, hv, fv) == b2n(val_of(col[0], env, hv, fv)) + col_val(
        col.drop_first(),
        env,
        hv,
        fv,
    ));
    assert(col_val(col.drop_first(), env, hv, fv) == b2n(val_of(col[1], env, hv, fv)) + col_val(
        col.drop_first().drop_first(),
        env,
        hv,
        fv,
    ));
    assert(col_val(col.drop_first().drop_first(), env, hv, fv) == b2n(
        val_of(col[2], env, hv, fv),
    ) + col_val(col.drop_first().drop_first().drop_first(), env, hv, fv));
}

/// Visiting one column preserves the matrix value, as long as the final cell
/// lists extend the current ones and the cell values are consistent with the
/// final lists.
proof fn lemma_step_val(
    s: RedState,
    i: int,
    t: int,
    has: Seq<HalfAdder>,
    fas: Seq<FullAdder>,
    env: Env,
    hv: Seq<(bool, bool)>,
    fv: Seq<(bool, bool)>,
)
    requires
        0 <= i,
        i + 1 < s.cols.len(),
        t >= 1,
        has.len() <= usize::MAX,
        fas.len() <= usize::MAX,
        step(s, i, t).has.is_prefix_of(has),
        step(s, i, t).fas.is_prefix_of(fas),
        consistent(has, fas, env, hv, fv),
    ensures
        mat_val(step(s, i, t).cols, env, hv, fv) == mat_val(s.cols, env, hv, fv),
{
    let col = s.cols[i];
    assert(s.has.len() <= has.len() && s.fas.len() <= fas.len());
    if col.len() == t + 1 {
        let idx = s.has.len() as int;
        let cell = HalfAdder { a: col[0], b: col[1] };
        let sum = BitSource::HalfSum { index: idx as usize };
        let carry = BitSource::HalfCarry { index: idx as usize };
        let ci = seq![sum] + col.skip(2);
        let cj = seq![carry] + s.cols[i + 1];
        assert(idx <= usize::MAX);
        assert((idx as usize) as int == idx);
        assert(step(s, i, t).has[idx] == cell);
        assert(has[idx] == cell);
        let v0 = val_of(col[0], env, hv, fv);
        let v1 = val_of(col[1], env, hv, fv);
        assert(hv[idx] == half_out(v0, v1));
        lemma_col_val_two(col, env, hv, fv);
        lemma_col_val_cons(sum, col.skip(2), env, hv, fv);
        lemma_col_val_cons(carry, s.cols[i + 1], env, hv, fv);
        assert(b2n(hv[idx].0) + 2 * b2n(hv[idx].1) == b2n(v0) + b2n(v1));
        assert(col_val(ci, env, hv, fv) + 2 * b2n(hv[idx].1) == col_val(col, env, hv, fv));
        lemma_mat_val_transfer(s.cols, i, ci, cj, b2n(hv[idx].1), env, hv, fv);
    } else if col.len() > t + 1 {
        let idx = s.fas.len() as int;
        let cell = FullAdder { a: col[0], b: col[1], c: col[2] };
        let sum = BitSource::FullSum { index: idx as usize };
        let carry = BitSource::FullCarry { index: idx as usize };
        let ci = seq![sum] + col.skip(3);
        let cj = seq![carry] + s.cols[i + 1];
        assert(idx <= usize::MAX);
        assert((idx as usize) as int == idx);
        assert(step(s, i, t).fas[idx] == cell);
        assert(fas[idx] == cell);
        let v0 = val_of(col[0], env, hv, fv);
        let v1 = val_of(col[1], env, hv, fv);
        let v2 = val_of(col[2], env, hv, fv);
        assert(fv[idx] == full_out(v0, v1, v2));
        lemma_col_val_three(col, env, hv, fv);
        lemma_col_val_cons(sum, col.skip(3), env, hv, fv);
        lemma_col_val_cons(carry, s.cols[i + 1], env, hv, fv);
        assert(b2n(fv[idx].0) + 2 * b2n(fv[idx].1) == b2n(v0) + b2n(v1) + b2n(v2));
        assert(col_val(ci, env, hv, fv) + 2 * b2n(fv[idx].1) == col_val(col, env, hv, fv));
        lemma_mat_val_transfer(s.cols, i, ci, cj, b2n(fv[idx].1), env, hv, fv);
    }
}

/// The cell lists only grow along one column visit.
proof fn lemma_step_prefix(s: RedState, i: int, t: int)
    ensures
        s.has.is_prefix_of(step(s, i, t).has),
        s.fas.is_prefix_of(step(s, i, t).fas),
{
    let st = step(s, i, t);
    assert(s.has =~= st.has.subrange(0, s.has.len() as int));
    assert(s.fas =~= st.fas.subrange(0, s.fas.len() as int));
}

/// The cell lists only grow along a pass.
proof fn lemma_pass_prefix(s: RedState, w: nat, i: nat, t: int)
    ensures
        s.has.is_prefix_of(pass_from(s, w, i, t).has),
        s.fas.is_prefix_of(pass_from(s, w, i, t).fas),
    decreases w - i,
{
    if i + 1 < w {
        lemma_step_prefix(s, i as int, t);
        lemma_pass_prefix(step(s, i as int, t), w, i + 1, t);
        lemma_prefix_trans(s.has, step(s, i as int, t).has, pass_from(s, w, i, t).has);
        lemma_prefix_trans(s.fas, step(s, i as int, t).fas, pass_from(s, w, i, t).fas);
    } else {
        assert(s.has =~= s.has.subrange(0, s.has.len() as int));
        assert(s.fas =~= s.fas.subrange(0, s.fas.len() as int));
    }
}

/// A pass preserves the matrix value under final, consistent cell values.
proof fn lemma_pass_val(
    s: RedState,
    w: nat,
    i: nat,
    t: int,
    has: Seq<HalfAdder>,
    fas: Seq<FullAdder>,
    env: Env,
    hv: Seq<(bool, bool)>,
    fv: Seq<(bool, bool)>,
)
    requires
        t >= 1,
        w == s.cols.len(),
        has.len() <= usize::MAX,
        fas.len() <= usize::MAX,
        pass_from(s, w, i, t).has.is_prefix_of(has),
        pass_from(s, w, i, t).fas.is_prefix_of(fas),
        consistent(has, fas, env, hv, fv),
    ensures
        mat_val(pass_from(s, w, i, t).cols, env, hv, fv) == mat_val(s.cols, env, hv, fv),
    decreases w - i,
{
    if i + 1 < w {
        let st = step(s, i as int, t);
        lemma_pass_prefix(st, w, i + 1, t);
        lemma_prefix_trans(st.has, pass_from(st, w, i + 1, t).has, has);
        lemma_prefix_trans(st.fas, pass_from(st, w, i + 1, t).fas, fas);
        lemma_step_val(s, i as int, t, has, fas, env, hv, fv);
        lemma_pass_val(st, w, i + 1, t, has, fas, env, hv, fv);
    }
}

/// The cell lists only grow along any number of passes.
proof fn lemma_passes_prefix(s: RedState, w: nat, t: int, n: nat)
    ensures
        s.has.is_prefix_of(passes(s, w, t, n).has),
        s.fas.is_prefix_of(passes(s, w, t, n).fas),
    decreases n,
{
    if n > 0 {
        lemma_pass_prefix(s, w, 0, t);
        lemma_passes_prefix(pass(s, w, t), w, t, (n - 1) as nat);
        lemma_prefix_trans(s.has, pass(s, w, t).has, passes(s, w, t, n).has);
        lemma_prefix_trans(s.fas, pass(s, w, t).fas, passes(s, w, t, n).fas);
    } else {
        assert(s.has =~= s.has.subrange(0, s.has.len() as int));
        assert(s.fas =~= s.fas.subrange(0, s.fas.len() as int));
    }
}

/// Any number of passes preserves width and the matrix value under final,
/// consistent cell values.
proof fn lemma_passes_val(
    s: RedState,
    w: nat,
    t: int,
    n: nat,
    has: Seq<HalfAdder>,
    fas: Seq<FullAdder>,
    env: Env,
    hv: Seq<(bool, bool)>,
    fv: Seq<(bool, bool)>,
)
    requires
        t >= 1,
        w == s.cols.len(),
        has.len() <= usize::MAX,
        fas.len() <= usize::MAX,
        passes(s, w, t, n).has.is_prefix_of(has),
        passes(s, w, t, n).fas.is_prefix_of(fas),
        consistent(has, fas, env, hv, fv),
    ensures
        mat_val(passes(s, w, t, n).cols, env, hv, fv) == mat_val(s.cols, env, hv, fv),
        passes(s, w, t, n).cols.len() == w,
    decreases n,
{
    if n > 0 {
        let p = pass(s, w, t);
        lemma_pass_from(s, w, 0, t);
        lemma_passes_prefix(p, w, t, (n - 1) as nat);
        lemma_prefix_trans(p.has, passes(p, w, t, (n - 1) as nat).has, has);
        lemma_prefix_trans(p.fas, passes(p, w, t, (n - 1) as nat).fas, fas);
        lemma_pass_val(s, w, 0, t, has, fas, env, hv, fv);
        lemma_passes_val(p, w, t, (n - 1) as nat, has, fas, env, hv, fv);
    }
}

/// A whole stage preserves width, only grows the cell lists, and preserves
/// the matrix value under final, consistent cell values.
proof fn lemma_stage_val(
    s: RedState,
    w: nat,
    t: int,
    r: RedState,
    has: Seq<HalfAdder>,
    fas: Seq<FullAdder>,
    env: Env,
    hv: Seq<(bool, bool)>,
    fv: Seq<(bool, bool)>,
)
    requires
        t >= 1,
        w == s.cols.len(),
        has.len() <= usize::MAX,
        fas.len() <= usize::MAX,
        stage_rel(s, w, t, r),
        r.has.is_prefix_of(has),
        r.fas.is_prefix_of(fas),
        consistent(has, fas, env, hv, fv),
    ensures
        mat_val(r.cols, env, hv, fv) == mat_val(s.cols, env, hv, fv),
        r.cols.len() == w,
        s.has.is_prefix_of(r.has),
        s.fas.is_prefix_of(r.fas),
{
    let n = choose|n: nat| r == passes(s, w, t, n) && pass(r, w, t) == r;
    lemma_passes_val(s, w, t, n, has, fas, env, hv, fv);
    lemma_passes_prefix(s, w, t, n);
}

/// A whole run of stages preserves the matrix value under its own final,
/// consistent cell values.
proof fn lemma_stages_val(
    s: RedState,
    w: nat,
    ts: Seq<int>,
    r: RedState,
    env: Env,
    hv: Seq<(bool, bool)>,
    fv: Seq<(bool, bool)>,
)
    requires
        w == s.cols.len(),
        r.has.len() <= usize::MAX,
        r.fas.len() <= usize::MAX,
        forall|j: int| 0 <= j < ts.len() ==> ts[j] >= 1,
        stages_rel(s, w, ts, r),
        consistent(r.has, r.fas, env, hv, fv),
    ensures
        mat_val(r.cols, env, hv, fv) == mat_val(s.cols, env, hv, fv),
        r.cols.len() == w,
    decreases ts.len(),
{
    if ts.len() == 0 {
        assert(r == s);
    } else {
        let mid = choose|mid: RedState|
            stage_rel(s, w, ts.last(), mid) && stages_rel(mid, w, ts.drop_last(), r);
        assert(r.has =~= r.has.subrange(0, r.has.len() as int));
        assert(r.fas =~= r.fas.subrange(0, r.fas.len() as int));
        lemma_stages_prefix(mid, w, ts.drop_last(), r);
        lemma_stage_val(s, w, ts.last(), mid, r.has, r.fas, env, hv, fv);
        assert(forall|j: int| 0 <= j < ts.drop_last().len() ==> ts.drop_last()[j] >= 1);
        lemma_stages_val(mid, w, ts.drop_last(), r, env, hv, fv);
    }
}

/// The cell lists only grow along a run of stages.
proof fn lemma_stages_prefix(s: RedState, w: nat, ts: Seq<int>, r: RedState)
    requires
        stages_rel(s, w, ts, r),
    ensures
        s.has.is_prefix_of(r.has),
        s.fas.is_prefix_of(r.fas),
    decreases ts.len(),
{
    if ts.len() == 0 {
        assert(s.has =~= s.has.subrange(0, s.has.len() as int));
        assert(s.fas =~= s.fas.subrange(0, s.fas.len() as int));
    } else {
        let mid = choose|mid: RedState|
            stage_rel(s, w, ts.last(), mid) && stages_rel(mid, w, ts.drop_last(), r);
        let n = choose|n: nat| mid == passes(s, w, ts.last(), n) && pass(mid, w, ts.last()) == mid;
        lemma_passes_prefix(s, w, ts.last(), n);
        lemma_stages_prefix(mid, w, ts.drop_last(), r);
        lemma_prefix_trans(s.has, mid.has, r.has);
        lemma_prefix_trans(s.fas, mid.fas, r.fas);
    }
}

/// Whether a bit source references only cells below the given counts.
pub open spec fn refs_ok(src: BitSource, nh: nat, nf: nat) -> bool {
    match src {
        BitSource::HalfSum { index } => index < nh,
        BitSource::HalfCarry { index } => index < nh,
        BitSource::FullSum { index } => index < nf,
        BitSource::FullCarry { index } => index < nf,
        _ => true,
    }
}

/// Every bit source in the matrix and every recorded cell input references
/// only cells that exist.
pub open spec fn state_wf(s: RedState) -> bool {
    &&& forall|k: int, j: int|
        0 <= k < s.cols.len() && 0 <= j < s.cols[k].len() ==> refs_ok(
            #[trigger] s.cols[k][j],
            s.has.len(),
            s.fas.len(),
        )
    &&& forall|i: int|
        #![trigger s.has[i]]
        0 <= i < s.has.len() ==> refs_ok(s.has[i].a, s.has.len(), s.fas.len()) && refs_ok(
            s.has[i].b,
            s.has.len(),
            s.fas.len(),
        )
    &&& forall|i: int|
        #![trigger s.fas[i]]
        0 <= i < s.fas.len() ==> refs_ok(s.fas[i].a, s.has.len(), s.fas.len()) && refs_ok(
            s.fas[i].b,
            s.has.len(),
            s.fas.len(),
        ) && refs_ok(s.fas[i].c, s.has.len(), s.fas.len())
}

/// A bit source that references only existing cells keeps its value when
/// either cell-value list is extended.
proof fn lemma_val_of_stable(
    src: BitSource,
    env: Env,
    hv: Seq<(bool, bool)>,
    fv: Seq<(bool, bool)>,
    hv2: Seq<(bool, bool)>,
    fv2: Seq<(bool, bool)>,
)
    requires
        refs_ok(src, hv.len(), fv.len()),
        hv.is_prefix_of(hv2),
        fv.is_prefix_of(fv2),
    ensures
        val_of(src, env, hv2, fv2) == val_of(src, env, hv, fv),
{
}

/// One column visit keeps the state well formed, and a consistent valuation
/// of its cells extends to the new cell.
proof fn lemma_step_exists(
    s: RedState,
    i: int,
    t: int,
    env: Env,
    hv: Seq<(bool, bool)>,
    fv: Seq<(bool, bool)>,
) -> (r: (Seq<(bool, bool)>, Seq<(bool, bool)>))
    requires
        0 <= i,
        i + 1 < s.cols.len(),
        t >= 1,
        state_wf(s),
        consistent(s.has, s.fas, env, hv, fv),
    ensures
        state_wf(step(s, i, t)),
        consistent(step(s, i, t).has, step(s, i, t).fas, env, r.0, r.1),
{
    let col = s.cols[i];
    let st = step(s, i, t);
    if col.len() == t + 1 {
        let v0 = val_of(col[0], env, hv, fv);
        let v1 = val_of(col[1], env, hv, fv);
        let hv2 = hv.push(half_out(v0, v1));
        assert(hv.is_prefix_of(hv2)) by {
            assert(hv =~= hv2.subrange(0, hv.len() as int));
        }
        assert(fv.is_prefix_of(fv)) by {
            assert(fv =~= fv.subrange(0, fv.len() as int));
        }
        assert(state_wf(st)) by {
            assert forall|k: int, j: int|
                0 <= k < st.cols.len() && 0 <= j < st.cols[k].len() implies refs_ok(
                #[trigger] st.cols[k][j],
                st.has.len(),
                st.fas.len(),
            ) by {
                if k == i {
                    if j > 0 {
                        assert(st.cols[k][j] == s.cols[k][j + 1]);
                    }
                } else if k == i + 1 {
                    if j > 0 {
                        assert(st.cols[k][j] == s.cols[k][j - 1]);
                    }
                } else {
                    assert(st.cols[k][j] == s.cols[k][j]);
                }
            }
        }
        assert(consistent(st.has, st.fas, env, hv2, fv)) by {
            assert forall|m: int| #![trigger st.has[m]] 0 <= m < st.has.len() implies hv2[m]
                == half_out(
                val_of(st.has[m].a, env, hv2, fv),
                val_of(st.has[m].b, env, hv2, fv),
            ) by {
                if m < s.has.len() {
                    assert(st.has[m] == s.has[m]);
                    lemma_val_of_stable(s.has[m].a, env, hv, fv, hv2, fv);
                    lemma_val_of_stable(s.has[m].b, env, hv, fv, hv2, fv);
                } else {
                    assert(st.has[m] == HalfAdder { a: col[0], b: col[1] });
                    lemma_val_of_stable(col[0], env, hv, fv, hv2, fv);
                    lemma_val_of_stable(col[1], env, hv, fv, hv2, fv);
                }
            }
            assert forall|m: int| #![trigger st.fas[m]] 0 <= m < st.fas.len() implies fv[m]
                == full_out(
                val_of(st.fas[m].a, env, hv2, fv),
                val_of(st.fas[m].b, env, hv2, fv),
                val_of(st.fas[m].c, env, hv2, fv),
            ) by {
                lemma_val_of_stable(s.fas[m].a, env, hv, fv, hv2, fv);
                lemma_val_of_stable(s.fas[m].b, env, hv, fv, hv2, fv);
                lemma_val_of_stable(s.fas[m].c, env, hv, fv, hv2, fv);
            }
        }
        (hv2, fv)
    } else if col.len() > t + 1 {
        let v0 = val_of(col[0], env, hv, fv);
        let v1 = val_of(col[1], env, hv, fv);
        let v2 = val_of(col[2], env, hv, fv);
        let fv2 = fv.push(full_out(v0, v1, v2));
        assert(fv.is_prefix_of(fv2)) by {
            assert(fv =~= fv2.subrange(0, fv.len() as int));
        }
        assert(hv.is_prefix_of(hv)) by {
            assert(hv =~= hv.subrange(0, hv.len() as int));
        }
        assert(state_wf(st)) by {
            assert forall|k: int, j: int|
                0 <= k < st.cols.len() && 0 <= j < st.cols[k].len() implies refs_ok(
                #[trigger] st.cols[k][j],
                st.has.len(),
                st.fas.len(),
            ) by {
                if k == i {
                    if j > 0 {
                        assert(st.cols[k][j] == s.cols[k][j + 2]);
                    }
                } else if k == i + 1 {
                    if j > 0 {
                        assert(st.cols[k][j] == s.cols[k][j - 1]);
                    }
                } else {
                    assert(st.cols[k][j] == s.cols[k][j]);
                }
            }
        }
        assert(consistent(st.has, st.fas, env, hv, fv2)) by {
            assert forall|m: int| #![trigger st.has[m]] 0 <= m < st.has.len() implies hv[m]
                == half_out(
                val_of(st.has[m].a, env, hv, fv2),
                val_of(st.has[m].b, env, hv, fv2),
            ) by {
                lemma_val_of_stable(s.has[m].a, env, hv, fv, hv, fv2);
                lemma_val_of_stable(s.has[m].b, env, hv, fv, hv, fv2);
            }
            assert forall|m: int| #![trigger st.fas[m]] 0 <= m < st.fas.len() implies fv2[m]
                == full_out(
                val_of(st.fas[m].a, env, hv, fv2),
                val_of(st.fas[m].b, env, hv, fv2),
                val_of(st.fas[m].c, env, hv, fv2),
            ) by {
                if m < s.fas.len() {
                    assert(st.fas[m] == s.fas[m]);
                    lemma_val_of_stable(s.fas[m].a, env, hv, fv, hv, fv2);
                    lemma_val_of_stable(s.fas[m].b, env, hv, fv, hv, fv2);
                    lemma_val_of_stable(s.fas[m].c, env, hv, fv, hv, fv2);
                } else {
                    assert(st.fas[m] == FullAdder { a: col[0], b: col[1], c: col[2] });
                    lemma_val_of_stable(col[0], env, hv, fv, hv, fv2);
                    lemma_val_of_stable(col[1], env, hv, fv, hv, fv2);
                    lemma_val_of_stable(col[2], env, hv, fv, hv, fv2);
                }
            }
        }
        (hv, fv2)
    } else {
        (hv, fv)
    }
}

/// A pass keeps the state well formed and extends any consistent valuation.
proof fn lemma_pass_exists(
    s: RedState,
    w: nat,
    i: nat,
    t: int,
    env: Env,
    hv: Seq<(bool, bool)>,
    fv: Seq<(bool, bool)>,
) -> (r: (Seq<(bool, bool)>, Seq<(bool, bool)>))
    requires
        w == s.cols.len(),
        t >= 1,
        state_wf(s),
        consistent(s.has, s.fas, env, hv, fv),
    ensures
        state_wf(pass_from(s, w, i, t)),
        consistent(pass_from(s, w, i, t).has, pass_from(s, w, i, t).fas, env, r.0, r.1),
    decreases w - i,
{
    if i + 1 < w {
        let r0 = lemma_step_exists(s, i as int, t, env, hv, fv);
        lemma_pass_exists(step(s, i as int, t), w, i + 1, t, env, r0.0, r0.1)
    } else {
        (hv, fv)
    }
}

/// Any number of passes keeps the state well formed and extends any
/// consistent valuation.
proof fn lemma_passes_exists(
    s: RedState,
    w: nat,
    t: int,
    n: nat,
    env: Env,
    hv: Seq<(bool, bool)>,
    fv: Seq<(bool, bool)>,
) -> (r: (Seq<(bool, bool)>, Seq<(bool, bool)>))
    requires
        w == s.cols.len(),
        t >= 1,
        state_wf(s),
        consistent(s.has, s.fas, env, hv, fv),
    ensures
        state_wf(passes(s, w, t, n)),
        consistent(passes(s, w, t, n).has, passes(s, w, t, n).fas, env, r.0, r.1),
    decreases n,
{
    if n > 0 {
        let r0 = lemma_pass_exists(s, w, 0, t, env, hv, fv);
        lemma_pass_from(s, w, 0, t);
        lemma_passes_exists(pass(s, w, t), w, t, (n - 1) as nat, env, r0.0, r0.1)
    } else {
        (hv, fv)
    }
}

/// A whole run of stages keeps the state well formed and extends any
/// consistent valuation.
proof fn lemma_stages_exists(
    s: RedState,
    w: nat,
    ts: Seq<int>,
    r: RedState,
    env: Env,
    hv: Seq<(bool, bool)>,
    fv: Seq<(bool, bool)>,
) -> (res: (Seq<(bool, bool)>, Seq<(bool, bool)>))
    requires
        w == s.cols.len(),
        forall|j: int| 0 <= j < ts.len() ==> ts[j] >= 1,
        stages_rel(s, w, ts, r),
        state_wf(s),
        consistent(s.has, s.fas, env, hv, fv),
    ensures
        state_wf(r),
        consistent(r.has, r.fas, env, res.0, res.1),
    decreases ts.len(),
{
    if ts.len() == 0 {
        assert(r == s);
        (hv, fv)
    } else {
        let mid = choose|mid: RedState|
            stage_rel(s, w, ts.last(), mid) && stages_rel(mid, w, ts.drop_last(), r);
        let n = choose|n: nat| mid == passes(s, w, ts.last(), n) && pass(mid, w, ts.last()) == mid;
        let r0 = lemma_passes_exists(s, w, ts.last(), n, env, hv, fv);
        lemma_passes_len(s, w, ts.last(), n);
        assert(forall|j: int| 0 <= j < ts.drop_last().len() ==> ts.drop_last()[j] >= 1);
        lemma_stages_exists(mid, w, ts.drop_last(), r, env, r0.0, r0.1)
    }
}

/// For a matrix holding only primary bit sources, consistent cell values
/// exist for the engine's outcome under every assignment: the conservation
/// law is never vacuous.
pub proof fn lemma_consistent_exists(cols0: Seq<Seq<BitSource>>, r: RedState, env: Env)
    requires
        dadda_rel(cols0, r),
        forall|k: int, j: int|
            0 <= k < cols0.len() && 0 <= j < cols0[k].len() ==> refs_ok(
                #[trigger] cols0[k][j],
                0,
                0,
            ),
    ensures
        exists|hv: Seq<(bool, bool)>, fv: Seq<(bool, bool)>|
            consistent(r.has, r.fas, env, hv, fv),
        state_wf(r),
{
    let ts = targets_from(2, max_height(cols0) as int);
    lemma_targets_bounds(2, max_height(cols0) as int);
    let s0 = init_state(cols0);
    assert(state_wf(s0));
    assert(consistent(s0.has, s0.fas, env, Seq::empty(), Seq::empty()));
    let res = lemma_stages_exists(s0, cols0.len(), ts, r, env, Seq::empty(), Seq::empty());
    assert(consistent(r.has, r.fas, env, res.0, res.1));
}

/// Value conservation: however the input bits are assigned, and for any cell
/// values consistent with the allocated cells, the reduced matrix represents
/// exactly the number the original matrix represented.
pub proof fn lemma_value_conservation(
    cols0: Seq<Seq<BitSource>>,
    r: RedState,
    env: Env,
    hv: Seq<(bool, bool)>,
    fv: Seq<(bool, bool)>,
)
    requires
        dadda_rel(cols0, r),
        r.has.len() <= usize::MAX,
        r.fas.len() <= usize::MAX,
        consistent(r.has, r.fas, env, hv, fv),
    ensures
        mat_val(r.cols, env, hv, fv) == mat_val(cols0, env, hv, fv),
        r.cols.len() == cols0.len(),
{
    let ts = targets_from(2, max_height(cols0) as int);
    lemma_targets_bounds(2, max_height(cols0) as int);
    lemma_stages_val(init_state(cols0), cols0.len(), ts, r, env, hv, fv);
}

/// The bit sources a column holds, as a multiset.
pub open spec fn col_ms(col: Seq<BitSource>) -> Multiset<BitSource>
    decreases col.len(),
{
    if col.len() == 0 {
        Multiset::empty()
    } else {
        col_ms(col.drop_first()).insert(col[0])
    }
}

/// The bit sources all columns hold.
pub open spec fn cols_ms(cols: Seq<Seq<BitSource>>) -> Multiset<BitSource>
    decreases cols.len(),
{
    if cols.len() == 0 {
        Multiset::empty()
    } else {
        col_ms(cols[0]).add(cols_ms(cols.drop_first()))
    }
}

/// The bit sources recorded as half-adder inputs.
pub open spec fn ha_in_ms(has: Seq<HalfAdder>) -> Multiset<BitSource>
    decreases has.len(),
{
    if has.len() == 0 {
        Multiset::empty()
    } else {
        ha_in_ms(has.drop_last()).insert(has.last().a).insert(has.last().b)
    }
}

/// The bit sources recorded as full-adder inputs.
pub open spec fn fa_in_ms(fas: Seq<FullAdder>) -> Multiset<BitSource>
    decreases fas.len(),
{
    if fas.len() == 0 {
        Multiset::empty()
    } else {
        fa_in_ms(fas.drop_last()).insert(fas.last().a).insert(fas.last().b).insert(fas.last().c)
    }
}

/// The sum and carry outputs of the first `nh` half adders.
pub open spec fn ha_out_ms(nh: nat) -> Multiset<BitSource>
    decreases nh,
{
    if nh == 0 {
        Multiset::empty()
    } else {
        ha_out_ms((nh - 1) as nat).insert(
            BitSource::HalfSum { index: (nh - 1) as usize },
        ).insert(BitSource::HalfCarry { index: (nh - 1) as usize })
    }
}

/// The sum and carry outputs of the first `nf` full adders.
pub open spec fn fa_out_ms(nf: nat) -> Multiset<BitSource>
    decreases nf,
{
    if nf == 0 {
        Multiset::empty()
    } else {
        fa_out_ms((nf - 1) as nat).insert(
            BitSource::FullSum { index: (nf - 1) as usize },
        ).insert(BitSource::FullCarry { index: (nf - 1) as usize })
    }
}

/// Everything a state references: the columns and the recorded cell inputs.
pub open spec fn state_refs(s: RedState) -> Multiset<BitSource> {
    cols_ms(s.cols).add(ha_in_ms(s.has)).add(fa_in_ms(s.fas))
}

/// Everything a state's cells produce.
pub open spec fn state_outs(s: RedState) -> Multiset<BitSource> {
    ha_out_ms(s.has.len()).add(fa_out_ms(s.fas.len()))
}

/// Reading one element off the front of a column's multiset.
proof fn lemma_col_ms_cons(x: BitSource, rest: Seq<BitSource>)
    ensures
        col_ms(seq![x] + rest) == col_ms(rest).insert(x),
{
    let c = seq![x] + rest;
    assert(c[0] == x);
    assert(c.drop_first() =~= rest);
}

/// Replacing two neighbouring columns changes the matrix multiset by exactly
/// those columns' multisets.
proof fn lemma_cols_ms_update2(
    cols: Seq<Seq<BitSource>>,
    i: int,
    ci: Seq<BitSource>,
    cj: Seq<BitSource>,
)
    requires
        0 <= i,
        i + 1 < cols.len(),
    ensures
        cols_ms(cols.update(i, ci).update(i + 1, cj)).add(col_ms(cols[i])).add(
            col_ms(cols[i + 1]),
        ) == cols_ms(cols).add(col_ms(ci)).add(col_ms(cj)),
    decreases i,
{
    let upd = cols.update(i, ci).update(i + 1, cj);
    if i == 0 {
        assert(upd[0] == ci);
        assert(upd.drop_first()[0] == cj);
        assert(upd.drop_first().drop_first() =~= cols.drop_first().drop_first());
        assert(cols.drop_first()[0] == cols[1]);
        assert(cols_ms(upd.drop_first()) == col_ms(cj).add(
            cols_ms(upd.drop_first().drop_first()),
        ));
        assert(cols_ms(cols.drop_first()) == col_ms(cols[1]).add(
            cols_ms(cols.drop_first().drop_first()),
        ));
        assert(cols_ms(upd).add(col_ms(cols[0])).add(col_ms(cols[1])) =~= cols_ms(cols).add(
            col_ms(ci),
        ).add(col_ms(cj)));
    } else {
        assert(upd.drop_first() =~= cols.drop_first().update(i - 1, ci).update(i, cj));
        assert(cols.drop_first()[i - 1] == cols[i]);
        assert(cols.drop_first()[i] == cols[i + 1]);
        lemma_cols_ms_update2(cols.drop_first(), i - 1, ci, cj);
        assert(upd[0] == cols[0]);
        assert(cols_ms(upd) == col_ms(cols[0]).add(cols_ms(upd.drop_first())));
        assert(cols_ms(cols) == col_ms(cols[0]).add(cols_ms(cols.drop_first())));
        let d = cols.drop_first();
        assert forall|e: BitSource|
            (cols_ms(upd).add(col_ms(cols[i])).add(col_ms(cols[i + 1]))).count(e) == (cols_ms(
                cols,
            ).add(col_ms(ci)).add(col_ms(cj))).count(e) by {
            assert((cols_ms(upd.drop_first()).add(col_ms(d[i - 1])).add(col_ms(d[i]))).count(e)
                == (cols_ms(d).add(col_ms(ci)).add(col_ms(cj))).count(e));
        }
        assert(cols_ms(upd).add(col_ms(cols[i])).add(col_ms(cols[i + 1])) =~= cols_ms(cols).add(
            col_ms(ci),
        ).add(col_ms(cj)));
    }
}

/// Exchanging through a middle state: if each hop only trades its own
/// outputs, so does the composition.
proof fn lemma_ms_exchange<T>(
    a: Multiset<T>,
    b: Multiset<T>,
    c: Multiset<T>,
    oa: Multiset<T>,
    ob: Multiset<T>,
    oc: Multiset<T>,
)
    requires
        b.add(oa) == a.add(ob),
        c.add(ob) == b.add(oc),
    ensures
        c.add(oa) == a.add(oc),
{
    assert forall|e: T| (c.add(oa)).count(e) == (a.add(oc)).count(e) by {
        assert((b.add(oa)).count(e) == b.count(e) + oa.count(e));
        assert((a.add(ob)).count(e) == a.count(e) + ob.count(e));
        assert((c.add(ob)).count(e) == c.count(e) + ob.count(e));
        assert((b.add(oc)).count(e) == b.count(e) + oc.count(e));
        assert((c.add(oa)).count(e) == c.count(e) + oa.count(e));
        assert((a.add(oc)).count(e) == a.count(e) + oc.count(e));
        assert((b.add(oa)).count(e) == (a.add(ob)).count(e));
        assert((c.add(ob)).count(e) == (b.add(oc)).count(e));
    }
    assert(c.add(oa) =~= a.add(oc));
}

/// One column visit moves the consumed sources into the new cell's recorded
/// inputs and adds exactly the new cell's outputs to the state.
proof fn lemma_step_refs(s: RedState, i: int, t: int)
    requires
        0 <= i,
        i + 1 < s.cols.len(),
        t >= 1,
        s.has.len() <= usize::MAX,
        s.fas.len() <= usize::MAX,
    ensures
        state_refs(step(s, i, t)).add(state_outs(s)) == state_refs(s).add(
            state_outs(step(s, i, t)),
        ),
{
    let col = s.cols[i];
    if col.len() == t + 1 {
        let idx = s.has.len() as usize;
        let cell = HalfAdder { a: col[0], b: col[1] };
        let sum = BitSource::HalfSum { index: idx };
        let carry = BitSource::HalfCarry { index: idx };
        let ci = seq![sum] + col.skip(2);
        let cj = seq![carry] + s.cols[i + 1];
        lemma_cols_ms_update2(s.cols, i, ci, cj);
        lemma_col_ms_cons(sum, col.skip(2));
        lemma_col_ms_cons(carry, s.cols[i + 1]);
        assert(col.drop_first()[0] == col[1]);
        assert(col.drop_first().drop_first() =~= col.skip(2));
        assert(col_ms(col) == col_ms(col.drop_first()).insert(col[0]));
        assert(col_ms(col.drop_first()) == col_ms(col.drop_first().drop_first()).insert(col[1]));
        assert(col_ms(col) == col_ms(col.skip(2)).insert(col[1]).insert(col[0]));
        assert(s.has.push(cell).drop_last() =~= s.has);
        assert(ha_in_ms(s.has.push(cell)) == ha_in_ms(s.has).insert(col[0]).insert(col[1]));
        assert(ha_out_ms(s.has.len() + 1) == ha_out_ms(s.has.len()).insert(sum).insert(carry));
        assert forall|e: BitSource|
            (state_refs(step(s, i, t)).add(state_outs(s))).count(e) == (state_refs(s).add(
                state_outs(step(s, i, t)),
            )).count(e) by {
            assert((cols_ms(step(s, i, t).cols).add(col_ms(col)).add(
                col_ms(s.cols[i + 1]),
            )).count(e) == (cols_ms(s.cols).add(col_ms(ci)).add(col_ms(cj))).count(e));
        }
        assert(state_refs(step(s, i, t)).add(state_outs(s)) =~= state_refs(s).add(
            state_outs(step(s, i, t)),
        ));
    } else if col.len() > t + 1 {
        let idx = s.fas.len() as usize;
        let cell = FullAdder { a: col[0], b: col[1], c: col[2] };
        let sum = BitSource::FullSum { index: idx };
        let carry = BitSource::FullCarry { index: idx };
        let ci = seq![sum] + col.skip(3);
        let cj = seq![carry] + s.cols[i + 1];
        lemma_cols_ms_update2(s.cols, i, ci, cj);
        lemma_col_ms_cons(sum, col.skip(3));
        lemma_col_ms_cons(carry, s.cols[i + 1]);
        assert(col.drop_first()[0] == col[1]);
        assert(col.drop_first().drop_first()[0] == col[2]);
        assert(col.drop_first().drop_first().drop_first() =~= col.skip(3));
        assert(col_ms(col) == col_ms(col.drop_first()).insert(col[0]));
        assert(col_ms(col.drop_first()) == col_ms(col.drop_first().drop_first()).insert(col[1]));
        assert(col_ms(col.drop_first().drop_first()) == col_ms(
            col.drop_first().drop_first().drop_first(),
        ).insert(col[2]));
        assert(col_ms(col) == col_ms(col.skip(3)).insert(col[2]).insert(col[1]).insert(col[0]));
        assert(s.fas.push(cell).drop_last() =~= s.fas);
        assert(fa_in_ms(s.fas.push(cell)) == fa_in_ms(s.fas).insert(col[0]).insert(
            col[1],
        ).insert(col[2]));
        assert(fa_out_ms(s.fas.len() + 1) == fa_out_ms(s.fas.len()).insert(sum).insert(carry));
        assert forall|e: BitSource|
            (state_refs(step(s, i, t)).add(state_outs(s))).count(e) == (state_refs(s).add(
                state_outs(step(s, i, t)),
            )).count(e) by {
            assert((cols_ms(step(s, i, t).cols).add(col_ms(col)).add(
                col_ms(s.cols[i + 1]),
            )).count(e) == (cols_ms(s.cols).add(col_ms(ci)).add(col_ms(cj))).count(e));
        }
        assert(state_refs(step(s, i, t)).add(state_outs(s)) =~= state_refs(s).add(
            state_outs(step(s, i, t)),
        ));
    }
}

/// A pass only moves sources into cell inputs and adds the new cells'
/// outputs.
proof fn lemma_pass_refs(s: RedState, w: nat, i: nat, t: int)
    requires
        t >= 1,
        w == s.cols.len(),
        pass_from(s, w, i, t).has.len() <= usize::MAX,
        pass_from(s, w, i, t).fas.len() <= usize::MAX,
    ensures
        state_refs(pass_from(s, w, i, t)).add(state_outs(s)) == state_refs(s).add(
            state_outs(pass_from(s, w, i, t)),
        ),
    decreases w - i,
{
    if i + 1 < w {
        let st = step(s, i as int, t);
        lemma_pass_prefix(st, w, i + 1, t);
        lemma_step_refs(s, i as int, t);
        lemma_pass_refs(st, w, i + 1, t);
        let r = pass_from(s, w, i, t);
        lemma_ms_exchange(
            state_refs(s),
            state_refs(st),
            state_refs(r),
            state_outs(s),
            state_outs(st),
            state_outs(r),
        );
    }
}

/// Any number of passes only moves sources into cell inputs and adds the new
/// cells' outputs.
proof fn lemma_passes_refs(s: RedState, w: nat, t: int, n: nat)
    requires
        t >= 1,
        w == s.cols.len(),
        passes(s, w, t, n).has.len() <= usize::MAX,
        passes(s, w, t, n).fas.len() <= usize::MAX,
    ensures
        state_refs(passes(s, w, t, n)).add(state_outs(s)) == state_refs(s).add(
            state_outs(passes(s, w, t, n)),
        ),
    decreases n,
{
    if n > 0 {
        let p = pass(s, w, t);
        lemma_pass_from(s, w, 0, t);
        lemma_passes_prefix(p, w, t, (n - 1) as nat);
        lemma_pass_refs(s, w, 0, t);
        lemma_passes_refs(p, w, t, (n - 1) as nat);
        let r = passes(s, w, t, n);
        assert(passes(s, w, t, n) == passes(p, w, t, (n - 1) as nat));
        lemma_ms_exchange(
            state_refs(s),
            state_refs(p),
            state_refs(r),
            state_outs(s),
            state_outs(p),
            state_outs(r),
        );
    }
}

/// A whole run of stages only moves sources into cell inputs and adds the
/// allocated cells' outputs.
proof fn lemma_stages_refs(s: RedState, w: nat, ts: Seq<int>, r: RedState)
    requires
        w == s.cols.len(),
        forall|j: int| 0 <= j < ts.len() ==> ts[j] >= 1,
        stages_rel(s, w, ts, r),
        r.has.len() <= usize::MAX,
        r.fas.len() <= usize::MAX,
    ensures
        state_refs(r).add(state_outs(s)) == state_refs(s).add(state_outs(r)),
    decreases ts.len(),
{
    if ts.len() > 0 {
        let mid = choose|mid: RedState|
            stage_rel(s, w, ts.last(), mid) && stages_rel(mid, w, ts.drop_last(), r);
        let n = choose|n: nat| mid == passes(s, w, ts.last(), n) && pass(mid, w, ts.last()) == mid;
        lemma_stages_prefix(mid, w, ts.drop_last(), r);
        lemma_passes_len(s, w, ts.last(), n);
        lemma_passes_refs(s, w, ts.last(), n);
        assert(forall|j: int| 0 <= j < ts.drop_last().len() ==> ts.drop_last()[j] >= 1);
        lemma_stages_refs(mid, w, ts.drop_last(), r);
        lemma_ms_exchange(
            state_refs(s),
            state_refs(mid),
            state_refs(r),
            state_outs(s),
            state_outs(mid),
            state_outs(r),
        );
    }
}

/// Linear use: in the engine's outcome, every bit source of the original
/// matrix and the sum and carry of every allocated cell is accounted for
/// exactly once, either in a final column or as one recorded cell input;
/// nothing is duplicated and nothing is lost.
pub proof fn lemma_linear_use(cols0: Seq<Seq<BitSource>>, r: RedState)
    requires
        dadda_rel(cols0, r),
        r.has.len() <= usize::MAX,
        r.fas.len() <= usize::MAX,
    ensures
        cols_ms(r.cols).add(ha_in_ms(r.has)).add(fa_in_ms(r.fas)) == cols_ms(cols0).add(
            ha_out_ms(r.has.len()),
        ).add(fa_out_ms(r.fas.len())),
{
    let ts = targets_from(2, max_height(cols0) as int);
    lemma_targets_bounds(2, max_height(cols0) as int);
    let s0 = init_state(cols0);
    lemma_stages_refs(s0, cols0.len(), ts, r);
    assert(ha_in_ms(s0.has) == Multiset::<BitSource>::empty());
    assert(fa_in_ms(s0.fas) == Multiset::<BitSource>::empty());
    assert(ha_out_ms(s0.has.len()) == Multiset::<BitSource>::empty());
    assert(fa_out_ms(s0.fas.len()) == Multiset::<BitSource>::empty());
    assert forall|e: BitSource|
        (cols_ms(r.cols).add(ha_in_ms(r.has)).add(fa_in_ms(r.fas))).count(e) == (cols_ms(
            cols0,
        ).add(ha_out_ms(r.has.len())).add(fa_out_ms(r.fas.len()))).count(e) by {
        assert((state_refs(r).add(state_outs(s0))).count(e) == (state_refs(s0).add(
            state_outs(r),
        )).count(e));
        assert(Multiset::<BitSource>::empty().count(e) == 0);
    }
    assert(cols_ms(r.cols).add(ha_in_ms(r.has)).add(fa_in_ms(r.fas)) =~= cols_ms(cols0).add(
        ha_out_ms(r.has.len()),
    ).add(fa_out_ms(r.fas.len())));
}

} // verus!
