use vstd::prelude::*;
use crate::ir::{bit_of, fits_width, widths_valid, BitSource, Mode, Request};
use crate::builder::{built_col, built_cols, extra_col, pp_col, pp_count, pp_lo};
use crate::value::{b2n, col_val, mat_val, val_of, Env};

verus! {

/// Two to the power `n`.
pub open spec fn pow2(n: nat) -> nat
    decreases n,
{
    if n == 0 {
        1
    } else {
        2 * pow2((n - 1) as nat)
    }
}

/// The number carried by bits `i .. n` of an assignment, the bit at `i`
/// counting at weight one.
pub open spec fn bits_val(s: Seq<bool>, i: nat, n: nat) -> nat
    decreases n - i,
{
    if i < n {
        b2n(s[i as int]) + 2 * bits_val(s, i + 1, n)
    } else {
        0
    }
}

/// The number carried by bits `i .. n` of a constant, the bit at `i`
/// counting at weight one.
pub open spec fn const_bits_val(v: nat, i: nat, n: nat) -> nat
    decreases n - i,
{
    if i < n {
        b2n(bit_of(v, i)) + 2 * const_bits_val(v, i + 1, n)
    } else {
        0
    }
}

/// The number a request's addend feeds into the matrix.
pub open spec fn addend_val(r: Request, env: Env) -> nat {
    match r.mode {
        Mode::Multiply => 0,
        Mode::ConstAccumulate { addend_width, addend } => {
            const_bits_val(addend as nat, 0, addend_width as nat)
        },
        Mode::Accumulate { offset_width } => bits_val(env.off, 0, offset_width as nat),
    }
}

/// The tail of the addend contribution from column `k` on, at weight one.
pub open spec fn extra_tail(r: Request, k: nat, env: Env) -> nat {
    match r.mode {
        Mode::Multiply => 0,
        Mode::ConstAccumulate { addend_width, addend } => {
            const_bits_val(addend as nat, k, addend_width as nat)
        },
        Mode::Accumulate { offset_width } => bits_val(env.off, k, offset_width as nat),
    }
}

/// The matrix holding only the partial products of a `w`-bit multiply, over
/// `n` columns.
pub open spec fn pp_mat(w: nat, n: nat) -> Seq<Seq<BitSource>> {
    Seq::new(n, |k: int| pp_col(w, k as nat))
}

/// Unfolding the weighted matrix value one column at a time.
proof fn lemma_mat_val_skip(
    cols: Seq<Seq<BitSource>>,
    k: int,
    env: Env,
    hv: Seq<(bool, bool)>,
    fv: Seq<(bool, bool)>,
)
    requires
        0 <= k < cols.len(),
    ensures
        mat_val(cols.skip(k), env, hv, fv) == col_val(cols[k], env, hv, fv) + 2 * mat_val(
            cols.skip(k + 1),
            env,
            hv,
            fv,
        ),
{
    assert(cols.skip(k)[0] == cols[k]);
    assert(cols.skip(k).drop_first() =~= cols.skip(k + 1));
}

/// A column's value distributes over concatenation.
proof fn lemma_col_val_add(
    c1: Seq<BitSource>,
    c2: Seq<BitSource>,
    env: Env,
    hv: Seq<(bool, bool)>,
    fv: Seq<(bool, bool)>,
)
    ensures
        col_val(c1 + c2, env, hv, fv) == col_val(c1, env, hv, fv) + col_val(c2, env, hv, fv),
    decreases c1.len(),
{
    if c1.len() == 0 {
        assert(c1 + c2 =~= c2);
    } else {
        assert((c1 + c2)[0] == c1[0]);
        assert((c1 + c2).drop_first() =~= c1.drop_first() + c2);
        lemma_col_val_add(c1.drop_first(), c2, env, hv, fv);
    }
}

/// The value of a one-element column.
proof fn lemma_col_val_one(x: BitSource, env: Env, hv: Seq<(bool, bool)>, fv: Seq<(bool, bool)>)
    ensures
        col_val(seq![x], env, hv, fv) == b2n(val_of(x, env, hv, fv)),
{
    assert(seq![x][0] == x);
    assert(seq![x].drop_first().len() == 0);
    assert(col_val(seq![x].drop_first(), env, hv, fv) == 0);
}

/// A tail of columns that are all empty carries no value.
proof fn lemma_empty_tail(
    cols: Seq<Seq<BitSource>>,
    k: int,
    env: Env,
    hv: Seq<(bool, bool)>,
    fv: Seq<(bool, bool)>,
)
    requires
        0 <= k <= cols.len(),
        forall|j: int| k <= j < cols.len() ==> #[trigger] cols[j].len() == 0,
    ensures
        mat_val(cols.skip(k), env, hv, fv) == 0,
    decreases cols.len() - k,
{
    if k < cols.len() {
        lemma_mat_val_skip(cols, k, env, hv, fv);
        lemma_empty_tail(cols, k + 1, env, hv, fv);
    } else {
        assert(cols.skip(k).len() == 0);
    }
}

/// Reading a constant's bits from `i + 1` on is reading its half's bits from
/// `i` on.
proof fn lemma_const_shift(v: nat, i: nat, n: nat)
    requires
        n >= 1,
    ensures
        const_bits_val(v, i + 1, n) == const_bits_val(v / 2, i, (n - 1) as nat),
    decreases n - i,
{
    if i + 1 < n {
        lemma_const_shift(v, i + 1, n);
        assert(bit_of(v, i + 1) == bit_of(v / 2, i));
    }
}

/// A constant that fits its width is exactly the number its bits carry.
pub proof fn lemma_const_bits_val(v: nat, n: nat)
    requires
        fits_width(v, n),
    ensures
        const_bits_val(v, 0, n) == v,
    decreases n,
{
    if n == 0 {
        assert(v == 0);
    } else {
        lemma_const_shift(v, 0, n);
        lemma_const_bits_val(v / 2, (n - 1) as nat);
        assert(bit_of(v, 0) == (v % 2 == 1));
        assert(v == 2 * (v / 2) + v % 2);
    }
}

/// The built matrix splits, column by column, into the partial products and
/// the addend tail.
proof fn lemma_built_split(
    r: Request,
    k: nat,
    env: Env,
    hv: Seq<(bool, bool)>,
    fv: Seq<(bool, bool)>,
)
    requires
        widths_valid(r),
        k <= 2 * r.operand_width,
    ensures
        mat_val(built_cols(r).skip(k as int), env, hv, fv) == mat_val(
            pp_mat(r.operand_width as nat, 2 * r.operand_width as nat).skip(k as int),
            env,
            hv,
            fv,
        ) + extra_tail(r, k, env),
    decreases 2 * r.operand_width - k,
{
    let w = r.operand_width as nat;
    let n = 2 * w;
    let bc = built_cols(r);
    let pm = pp_mat(w, n);
    if k < n {
        lemma_mat_val_skip(bc, k as int, env, hv, fv);
        lemma_mat_val_skip(pm, k as int, env, hv, fv);
        assert(bc[k as int] == built_col(r, k));
        assert(pm[k as int] == pp_col(w, k));
        lemma_col_val_add(pp_col(w, k), extra_col(r, k), env, hv, fv);
        match r.mode {
            Mode::Multiply => {
                assert(col_val(extra_col(r, k), env, hv, fv) == 0);
                assert(extra_tail(r, k, env) == 0 && extra_tail(r, k + 1, env) == 0);
            },
            Mode::ConstAccumulate { addend_width, addend } => {
                let aw = addend_width as nat;
                let v = addend as nat;
                if k < addend_width {
                    let x = BitSource::Constant { value: bit_of(v, k) };
                    assert(extra_col(r, k) == seq![x]);
                    lemma_col_val_one(x, env, hv, fv);
                    assert(val_of(x, env, hv, fv) == bit_of(v, k));
                    assert(const_bits_val(v, k, aw) == b2n(bit_of(v, k)) + 2 * const_bits_val(
                        v,
                        k + 1,
                        aw,
                    ));
                } else {
                    assert(col_val(extra_col(r, k), env, hv, fv) == 0);
                    assert(const_bits_val(v, k, aw) == 0 && const_bits_val(v, k + 1, aw) == 0);
                }
            },
            Mode::Accumulate { offset_width } => {
                let ow = offset_width as nat;
                if k < offset_width {
                    let x = BitSource::OffsetBit { index: k as usize };
                    assert(extra_col(r, k) == seq![x]);
                    lemma_col_val_one(x, env, hv, fv);
                    assert(val_of(x, env, hv, fv) == env.off[k as int]);
                    assert(bits_val(env.off, k, ow) == b2n(env.off[k as int]) + 2 * bits_val(
                        env.off,
                        k + 1,
                        ow,
                    ));
                } else {
                    assert(col_val(extra_col(r, k), env, hv, fv) == 0);
                    assert(bits_val(env.off, k, ow) == 0 && bits_val(env.off, k + 1, ow) == 0);
                }
            },
        }
        lemma_built_split(r, k + 1, env, hv, fv);
        assert(extra_tail(r, k, env) == col_val(extra_col(r, k), env, hv, fv) + 2 * extra_tail(
            r,
            k + 1,
            env,
        ));
        assert(mat_val(bc.skip(k as int + 1), env, hv, fv) == mat_val(
            pm.skip(k as int + 1),
            env,
            hv,
            fv,
        ) + extra_tail(r, k + 1, env));
        assert(mat_val(bc.skip(k as int), env, hv, fv) == col_val(pp_col(w, k), env, hv, fv)
            + col_val(extra_col(r, k), env, hv, fv) + 2 * mat_val(
            bc.skip(k as int + 1),
            env,
            hv,
            fv,
        ));
    } else {
        assert(bc.skip(k as int).len() == 0);
        assert(pm.skip(k as int).len() == 0);
        assert(extra_tail(r, k, env) == 0);
    }
}

/// A bit product is the product of the bits.
proof fn lemma_b2n_mul(x: bool, y: bool)
    ensures
        b2n(x && y) == b2n(x) * b2n(y),
{
    if x {
        if y {
        }
    }
}

/// Appending one element to a column adds its bit to the column's value.
proof fn lemma_col_val_push(
    s: Seq<BitSource>,
    x: BitSource,
    env: Env,
    hv: Seq<(bool, bool)>,
    fv: Seq<(bool, bool)>,
)
    ensures
        col_val(s.push(x), env, hv, fv) == col_val(s, env, hv, fv) + b2n(val_of(x, env, hv, fv)),
    decreases s.len(),
{
    if s.len() == 0 {
        assert(s.push(x) =~= seq![x]);
        lemma_col_val_one(x, env, hv, fv);
    } else {
        assert(s.push(x)[0] == s[0]);
        assert(s.push(x).drop_first() =~= s.drop_first().push(x));
        lemma_col_val_push(s.drop_first(), x, env, hv, fv);
    }
}

/// A column of the `w`-wide partial-product matrix in the upper range is its
/// `w - 1`-wide column with one extra term of row `w - 1` at the back and one
/// of operand column `w - 1` at the front.
proof fn lemma_pp_col_split(w: nat, k: nat)
    requires
        2 <= w,
        2 * w <= usize::MAX,
        w - 1 <= k <= 2 * w - 3,
    ensures
        pp_col(w, k) == seq![pp_col(w, k)[0]] + pp_col((w - 1) as nat, k) + seq![
            pp_col(w, k)[pp_col(w, k).len() - 1],
        ],
        pp_col(w, k)[0] == (BitSource::PartialProduct {
            a: (k - (w - 1)) as usize,
            b: (w - 1) as usize,
        }),
        pp_col(w, k)[pp_col(w, k).len() - 1] == (BitSource::PartialProduct {
            a: (w - 1) as usize,
            b: (k - (w - 1)) as usize,
        }),
{
    let w1 = (w - 1) as nat;
    let cnt = pp_count(w, k);
    let lo = pp_lo(w, k);
    assert(lo == k - (w - 1));
    assert(lo + cnt == w);
    let f = pp_col(w, k)[0];
    let b = pp_col(w, k)[cnt - 1];
    let rhs = seq![f] + pp_col(w1, k) + seq![b];
    assert(pp_count(w1, k) + 2 == cnt);
    assert(pp_lo(w1, k) == lo + 1);
    assert forall|t: int| 0 <= t < cnt implies pp_col(w, k)[t] == rhs[t] by {
        if t == 0 {
        } else if t == cnt - 1 {
            assert(rhs[t] == b);
        } else {
            assert(rhs[t] == pp_col(w1, k)[t - 1]);
        }
    }
    assert(pp_col(w, k) =~= rhs);
}

/// Peeling row `w - 1` and operand column `w - 1` off the matrix tail from
/// column `k` on: the difference is the two strips' tail values.
proof fn lemma_pp_strip(
    w: nat,
    n: nat,
    k: nat,
    env: Env,
    hv: Seq<(bool, bool)>,
    fv: Seq<(bool, bool)>,
)
    requires
        2 <= w,
        2 * w <= usize::MAX,
        n >= 2 * w - 1,
        w - 1 <= k <= n,
    ensures
        mat_val(pp_mat(w, n).skip(k as int), env, hv, fv) == mat_val(
            pp_mat((w - 1) as nat, n).skip(k as int),
            env,
            hv,
            fv,
        ) + b2n(env.a[w - 1]) * bits_val(env.b, (k - (w - 1)) as nat, w) + b2n(env.b[w - 1])
            * bits_val(env.a, (k - (w - 1)) as nat, (w - 1) as nat),
    decreases n - k,
{
    let w1 = (w - 1) as nat;
    let pmw = pp_mat(w, n);
    let pm1 = pp_mat(w1, n);
    let aa = b2n(env.a[w - 1]);
    let bb = b2n(env.b[w - 1]);
    let j = (k - (w - 1)) as nat;
    if k == n {
        assert(pmw.skip(k as int).len() == 0);
        assert(pm1.skip(k as int).len() == 0);
        assert(bits_val(env.b, j, w) == 0);
        assert(bits_val(env.a, j, w1) == 0);
    } else {
        lemma_mat_val_skip(pmw, k as int, env, hv, fv);
        lemma_mat_val_skip(pm1, k as int, env, hv, fv);
        lemma_pp_strip(w, n, k + 1, env, hv, fv);
        if k >= 2 * w - 1 {
            assert(pp_col(w, k).len() == 0);
            assert(pp_col(w1, k).len() == 0);
            assert(bits_val(env.b, j, w) == 0);
            assert(bits_val(env.a, j, w1) == 0);
            assert(bits_val(env.b, j + 1, w) == 0);
            assert(bits_val(env.a, j + 1, w1) == 0);
        } else if k == 2 * w - 2 {
            let x = pp_col(w, k)[0];
            assert(pp_col(w, k) =~= seq![x]);
            lemma_col_val_one(x, env, hv, fv);
            assert(x == (BitSource::PartialProduct {
                a: (w - 1) as usize,
                b: (w - 1) as usize,
            }));
            assert(val_of(x, env, hv, fv) == (env.a[w - 1] && env.b[w - 1]));
            lemma_b2n_mul(env.a[w - 1], env.b[w - 1]);
            assert(pp_col(w1, k).len() == 0);
            assert(bits_val(env.b, j, w) == b2n(env.b[w - 1]) + 2 * bits_val(env.b, j + 1, w));
            assert(bits_val(env.b, j + 1, w) == 0);
            assert(bits_val(env.a, j, w1) == 0);
            assert(bits_val(env.a, j + 1, w1) == 0);
            assert(aa * (bb + 2 * 0) == aa * bb) by (nonlinear_arith);
            assert(bb * 0 == 0) by (nonlinear_arith);
        } else {
            lemma_pp_col_split(w, k);
            let f = pp_col(w, k)[0];
            let b = pp_col(w, k)[pp_col(w, k).len() - 1];
            lemma_col_val_add(seq![f] + pp_col(w1, k), seq![b], env, hv, fv);
            lemma_col_val_add(seq![f], pp_col(w1, k), env, hv, fv);
            lemma_col_val_one(f, env, hv, fv);
            lemma_col_val_one(b, env, hv, fv);
            assert(val_of(f, env, hv, fv) == (env.a[j as int] && env.b[w - 1]));
            assert(val_of(b, env, hv, fv) == (env.a[w - 1] && env.b[j as int]));
            lemma_b2n_mul(env.a[j as int], env.b[w - 1]);
            lemma_b2n_mul(env.a[w - 1], env.b[j as int]);
            assert(col_val(pp_col(w, k), env, hv, fv) == b2n(val_of(f, env, hv, fv)) + col_val(
                pp_col(w1, k),
                env,
                hv,
                fv,
            ) + b2n(val_of(b, env, hv, fv)));
            assert(bits_val(env.b, j, w) == b2n(env.b[j as int]) + 2 * bits_val(env.b, j + 1, w));
            assert(bits_val(env.a, j, w1) == b2n(env.a[j as int]) + 2 * bits_val(
                env.a,
                j + 1,
                w1,
            ));
            let tb = bits_val(env.b, j + 1, w);
            let ta = bits_val(env.a, j + 1, w1);
            assert(aa * (b2n(env.b[j as int]) + 2 * tb) == aa * b2n(env.b[j as int]) + 2 * (aa
                * tb)) by (nonlinear_arith);
            assert(bb * (b2n(env.a[j as int]) + 2 * ta) == bb * b2n(env.a[j as int]) + 2 * (bb
                * ta)) by (nonlinear_arith);
        }
    }
}

/// Below the strips the two matrices agree column for column, so the strip
/// difference only doubles with each further column.
proof fn lemma_pp_low(
    w: nat,
    n: nat,
    k: nat,
    env: Env,
    hv: Seq<(bool, bool)>,
    fv: Seq<(bool, bool)>,
)
    requires
        2 <= w,
        2 * w <= usize::MAX,
        n >= 2 * w - 1,
        k <= w - 1,
    ensures
        mat_val(pp_mat(w, n).skip(k as int), env, hv, fv) == mat_val(
            pp_mat((w - 1) as nat, n).skip(k as int),
            env,
            hv,
            fv,
        ) + pow2((w - 1 - k) as nat) * (b2n(env.a[w - 1]) * bits_val(env.b, 0, w) + b2n(
            env.b[w - 1],
        ) * bits_val(env.a, 0, (w - 1) as nat)),
    decreases w - k,
{
    let w1 = (w - 1) as nat;
    let d0 = b2n(env.a[w - 1]) * bits_val(env.b, 0, w) + b2n(env.b[w - 1]) * bits_val(
        env.a,
        0,
        w1,
    );
    if k == w - 1 {
        lemma_pp_strip(w, n, k, env, hv, fv);
        assert(pow2((w - 1 - k) as nat) == 1);
        assert(1 * d0 == d0) by (nonlinear_arith);
        assert((k - (w - 1)) as nat == 0);
        assert(b2n(env.a[w - 1]) * bits_val(env.b, 0, w) + b2n(env.b[w - 1]) * bits_val(
            env.a,
            0,
            w1,
        ) == d0);
    } else {
        let pmw = pp_mat(w, n);
        let pm1 = pp_mat(w1, n);
        assert(pp_col(w, k) =~= pp_col(w1, k));
        lemma_mat_val_skip(pmw, k as int, env, hv, fv);
        lemma_mat_val_skip(pm1, k as int, env, hv, fv);
        lemma_pp_low(w, n, k + 1, env, hv, fv);
        let p = pow2((w - 1 - (k + 1)) as nat);
        assert(pow2((w - 1 - k) as nat) == 2 * p);
        let m1 = mat_val(pm1.skip(k as int + 1), env, hv, fv);
        assert(mat_val(pmw.skip(k as int + 1), env, hv, fv) == m1 + p * d0);
        assert(2 * (m1 + p * d0) == 2 * m1 + (2 * p) * d0) by (nonlinear_arith);
        assert(col_val(pp_col(w, k), env, hv, fv) == col_val(pp_col(w1, k), env, hv, fv));
        assert(mat_val(pmw.skip(k as int), env, hv, fv) == col_val(pp_col(w, k), env, hv, fv) + 2
            * mat_val(pmw.skip(k as int + 1), env, hv, fv));
        assert(mat_val(pm1.skip(k as int), env, hv, fv) == col_val(pp_col(w1, k), env, hv, fv)
            + 2 * mat_val(pm1.skip(k as int + 1), env, hv, fv));
    }
}

/// Reading one more high bit of an assignment.
proof fn lemma_bits_high(s: Seq<bool>, i: nat, n: nat)
    requires
        i <= n,
    ensures
        bits_val(s, i, n + 1) == bits_val(s, i, n) + pow2((n - i) as nat) * b2n(s[n as int]),
    decreases n - i,
{
    if i < n {
        lemma_bits_high(s, i + 1, n);
        let p = pow2((n - i - 1) as nat);
        assert(pow2((n - i) as nat) == 2 * p);
        let t = bits_val(s, i + 1, n);
        assert(2 * (t + p * b2n(s[n as int])) == 2 * t + (2 * p) * b2n(s[n as int]))
            by (nonlinear_arith);
    } else {
        assert(bits_val(s, i, n + 1) == b2n(s[i as int]) + 2 * bits_val(s, i + 1, n + 1));
        assert(bits_val(s, i + 1, n + 1) == 0);
        assert(pow2(0) == 1);
    }
}

/// The partial-product matrix of a `w`-bit multiply carries exactly the
/// product of the two operand values.
proof fn lemma_pp_product(
    w: nat,
    n: nat,
    env: Env,
    hv: Seq<(bool, bool)>,
    fv: Seq<(bool, bool)>,
)
    requires
        1 <= w,
        2 * w <= usize::MAX,
        n >= 2 * w - 1,
    ensures
        mat_val(pp_mat(w, n), env, hv, fv) == bits_val(env.a, 0, w) * bits_val(env.b, 0, w),
    decreases w,
{
    let pm = pp_mat(w, n);
    assert(pm.skip(0) =~= pm);
    if w == 1 {
        let x = pp_col(1, 0)[0];
        assert(pp_col(1, 0) =~= seq![x]);
        assert(x == (BitSource::PartialProduct { a: 0usize, b: 0usize }));
        lemma_col_val_one(x, env, hv, fv);
        assert(val_of(x, env, hv, fv) == (env.a[0] && env.b[0]));
        lemma_b2n_mul(env.a[0], env.b[0]);
        lemma_mat_val_skip(pm, 0, env, hv, fv);
        assert(forall|jj: int| 1 <= jj < pm.len() ==> #[trigger] pm[jj].len() == 0);
        lemma_empty_tail(pm, 1, env, hv, fv);
        assert(bits_val(env.a, 0, 1) == b2n(env.a[0]) + 2 * bits_val(env.a, 1, 1));
        assert(bits_val(env.b, 0, 1) == b2n(env.b[0]) + 2 * bits_val(env.b, 1, 1));
        assert(b2n(env.a[0]) * b2n(env.b[0]) == (b2n(env.a[0]) + 2 * 0) * (b2n(env.b[0]) + 2
            * 0)) by (nonlinear_arith);
    } else {
        let w1 = (w - 1) as nat;
        lemma_pp_low(w, n, 0, env, hv, fv);
        lemma_pp_product(w1, n, env, hv, fv);
        assert(pp_mat(w1, n).skip(0) =~= pp_mat(w1, n));
        lemma_bits_high(env.a, 0, w1);
        lemma_bits_high(env.b, 0, w1);
        let p = pow2((w - 1) as nat);
        let ap = bits_val(env.a, 0, w1);
        let bp = bits_val(env.b, 0, w1);
        let aa = b2n(env.a[w - 1]);
        let bb = b2n(env.b[w - 1]);
        assert(bits_val(env.a, 0, w) == ap + p * aa);
        assert(bits_val(env.b, 0, w) == bp + p * bb);
        assert(ap * bp + p * (aa * (bp + p * bb) + bb * ap) == (ap + p * aa) * (bp + p * bb))
            by (nonlinear_arith);
    }
}

/// The built matrix carries exactly the product of the two operand values
/// plus the request's addend: the library multiplies.
pub proof fn lemma_built_matrix_value(
    r: Request,
    env: Env,
    hv: Seq<(bool, bool)>,
    fv: Seq<(bool, bool)>,
)
    requires
        widths_valid(r),
        2 * r.operand_width <= usize::MAX,
    ensures
        mat_val(built_cols(r), env, hv, fv) == bits_val(env.a, 0, r.operand_width as nat)
            * bits_val(env.b, 0, r.operand_width as nat) + addend_val(r, env),
{
    let w = r.operand_width as nat;
    lemma_built_split(r, 0, env, hv, fv);
    assert(built_cols(r).skip(0) =~= built_cols(r));
    assert(pp_mat(w, 2 * w).skip(0) =~= pp_mat(w, 2 * w));
    lemma_pp_product(w, 2 * w, env, hv, fv);
}

/// For an accepted constant-addend request the addend value is the constant
/// itself.
pub proof fn lemma_const_addend_value(r: Request, env: Env)
    requires
        crate::ir::constant_valid(r),
    ensures
        match r.mode {
            Mode::ConstAccumulate { addend_width: _, addend } => addend_val(r, env)
                == addend as nat,
            _ => true,
        },
{
    match r.mode {
        Mode::ConstAccumulate { addend_width, addend } => {
            lemma_const_bits_val(addend as nat, addend_width as nat);
        },
        _ => {},
    }
}

} // verus!
