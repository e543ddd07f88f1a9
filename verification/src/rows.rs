use vstd::prelude::*;
use crate::ir::{
    constant_valid, request_valid, widths_valid, BitSource, Reduction, Request, StructuralIr,
    SynthesisError,
};
use crate::builder::{build_matrix, built_col, built_cols, extra_col, pp_col, pp_count};
use crate::reduce::{
    dadda_rel, lemma_reduced_heights, lemma_reduced_nonempty, lemma_reduction_deterministic,
    max_height, red_view, RedState,
};
use crate::value::{
    b2n, col_val, consistent, lemma_consistent_exists, lemma_value_conservation, mat_val,
    refs_ok, state_wf, val_of, Env,
};
use crate::numeric::{addend_val, bits_val, lemma_built_matrix_value};

verus! {

/// The top row: each column's front element, or constant zero where the
/// column is empty.
pub open spec fn top_row(cols: Seq<Seq<BitSource>>) -> Seq<BitSource> {
    Seq::new(
        cols.len(),
        |k: int|
            if cols[k].len() >= 1 {
                cols[k][0]
            } else {
                BitSource::Constant { value: false }
            },
    )
}

/// The bottom row: each column's second element, or constant zero where the
/// column holds fewer than two bit sources.
pub open spec fn bottom_row(cols: Seq<Seq<BitSource>>) -> Seq<BitSource> {
    Seq::new(
        cols.len(),
        |k: int|
            if cols[k].len() >= 2 {
                cols[k][1]
            } else {
                BitSource::Constant { value: false }
            },
    )
}

/// The number represented by the two final rows: one bit of each row per
/// column, each column at twice the weight of the one before it.
pub open spec fn rows_val(
    top: Seq<BitSource>,
    bot: Seq<BitSource>,
    env: Env,
    hv: Seq<(bool, bool)>,
    fv: Seq<(bool, bool)>,
) -> nat
    decreases top.len(),
{
    if top.len() == 0 {
        0
    } else {
        b2n(val_of(top[0], env, hv, fv)) + b2n(val_of(bot[0], env, hv, fv)) + 2 * rows_val(
            top.drop_first(),
            bot.drop_first(),
            env,
            hv,
            fv,
        )
    }
}

/// Extracts the two rows of a reduced matrix, padding short columns with
/// constant zeros.
pub fn split_rows(r: &Reduction) -> (rows: (Vec<BitSource>, Vec<BitSource>))
    ensures
        rows.0@ == top_row(r.matrix.cols()),
        rows.1@ == bottom_row(r.matrix.cols()),
{
    let w = r.matrix.columns.len();
    let mut top: Vec<BitSource> = Vec::new();
    let mut bottom: Vec<BitSource> = Vec::new();
    let mut k: usize = 0;
    while k < w
        invariant
            k <= w,
            w == r.matrix.columns@.len(),
            top@ == top_row(r.matrix.cols()).take(k as int),
            bottom@ == bottom_row(r.matrix.cols()).take(k as int),
        decreases w - k,
    {
        let cl = r.matrix.columns[k].len();
        if cl >= 1 {
            top.push(r.matrix.columns[k][0]);
        } else {
            top.push(BitSource::Constant { value: false });
        }
        if cl >= 2 {
            bottom.push(r.matrix.columns[k][1]);
        } else {
            bottom.push(BitSource::Constant { value: false });
        }
        proof {
            assert(top@ =~= top_row(r.matrix.cols()).take(k + 1));
            assert(bottom@ =~= bottom_row(r.matrix.cols()).take(k + 1));
        }
        k = k + 1;
    }
    proof {
        assert(top_row(r.matrix.cols()).take(w as int) =~= top_row(r.matrix.cols()));
        assert(bottom_row(r.matrix.cols()).take(w as int) =~= bottom_row(r.matrix.cols()));
    }
    (top, bottom)
}

/// The maximum height of a matrix whose every column is bounded.
proof fn lemma_max_height_le(cols: Seq<Seq<BitSource>>, b: nat)
    requires
        forall|k: int| 0 <= k < cols.len() ==> #[trigger] cols[k].len() <= b,
    ensures
        max_height(cols) <= b,
    decreases cols.len(),
{
    if cols.len() > 0 {
        assert(forall|k: int|
            0 <= k < cols.drop_last().len() ==> #[trigger] cols.drop_last()[k].len() <= b);
        lemma_max_height_le(cols.drop_last(), b);
    }
}

/// No column of a freshly built matrix is taller than the operand width plus
/// its one possible addend bit.
proof fn lemma_built_height(r: Request)
    requires
        r.operand_width >= 1,
    ensures
        max_height(built_cols(r)) <= r.operand_width + 1,
{
    let w = r.operand_width as nat;
    assert forall|k: int| 0 <= k < built_cols(r).len() implies #[trigger] built_cols(
        r,
    )[k].len() <= r.operand_width + 1 by {
        assert(built_cols(r)[k] == built_col(r, k as nat));
        assert(pp_col(w, k as nat).len() == pp_count(w, k as nat));
        assert(pp_count(w, k as nat) <= w);
        assert(extra_col(r, k as nat).len() <= 1);
    }
    lemma_max_height_le(built_cols(r), (r.operand_width + 1) as nat);
}

/// What one structural intermediate representation says of a request: its
/// cell lists and rows are those of the engine's unique outcome on the
/// request's matrix.
pub open spec fn ir_matches(r: Request, ir: StructuralIr) -> bool {
    exists|st: RedState|
        {
            &&& #[trigger] dadda_rel(built_cols(r), st)
            &&& ir.half_adders@ == st.has
            &&& ir.full_adders@ == st.fas
            &&& ir.top@ == top_row(st.cols)
            &&& ir.bottom@ == bottom_row(st.cols)
            &&& ir.output_width == 2 * r.operand_width
        }
}

/// Whether the engine's outcome for the request leaves its final column
/// with at most two bit sources, so that the two rows carry the whole value.
/// The outcome is unique, so this asks the same of every related state.
pub open spec fn reducible(r: Request) -> bool {
    exists|st: RedState|
        #[trigger] dadda_rel(built_cols(r), st) && st.cols[2 * r.operand_width - 1].len() <= 2
}

/// Runs one whole synthesis request: validates it, builds the matrix,
/// reduces it, and splits the final rows.
///
/// A request is rejected exactly as `build_matrix` rejects it, and also,
/// with `InvalidWidth`, when reduction leaves the final column with more
/// than two bit sources (an addend region filling the whole output width can
/// do this): a bit source is never silently dropped.  An accepted request
/// yields the engine's unique structural representation, and its two rows
/// carry exactly the value of the built matrix under every assignment and
/// every consistent cell valuation.
pub fn synthesize(req: Request) -> (res: Result<StructuralIr, SynthesisError>)
    requires
        2 * req.operand_width + 2 <= usize::MAX,
    ensures
        res is Ok <==> request_valid(req) && reducible(req),
        !widths_valid(req) ==> res == Err::<StructuralIr, SynthesisError>(
            SynthesisError::InvalidWidth,
        ),
        widths_valid(req) && !constant_valid(req) ==> res == Err::<StructuralIr, SynthesisError>(
            SynthesisError::InvalidConstant,
        ),
        request_valid(req) && !reducible(req) ==> res == Err::<StructuralIr, SynthesisError>(
            SynthesisError::InvalidWidth,
        ),
        res is Ok ==> ir_matches(req, res->Ok_0),
        res is Ok ==> forall|env: Env, hv: Seq<(bool, bool)>, fv: Seq<(bool, bool)>|
            consistent(res->Ok_0.half_adders@, res->Ok_0.full_adders@, env, hv, fv)
                ==> rows_val(res->Ok_0.top@, res->Ok_0.bottom@, env, hv, fv) == mat_val(
                built_cols(req),
                env,
                hv,
                fv,
            ),
        res is Ok ==> forall|env: Env, hv: Seq<(bool, bool)>, fv: Seq<(bool, bool)>|
            consistent(res->Ok_0.half_adders@, res->Ok_0.full_adders@, env, hv, fv)
                ==> rows_val(res->Ok_0.top@, res->Ok_0.bottom@, env, hv, fv) == bits_val(
                env.a,
                0,
                req.operand_width as nat,
            ) * bits_val(env.b, 0, req.operand_width as nat) + addend_val(req, env),
{
    let m = match build_matrix(req) {
        Ok(m) => m,
        Err(e) => {
            return Err(e);
        },
    };
    proof {
        assert(m.cols() == built_cols(req));
        assert(m.columns@.len() == built_cols(req).len());
        lemma_built_height(req);
    }
    let red = crate::reduce::dadda_reduce(m);
    let ghost st = red_view(red);
    let wo = 2 * req.operand_width;
    let last_len = red.matrix.columns[wo - 1].len();
    if last_len > 2 {
        proof {
            assert(st.cols[wo - 1].len() > 2);
            assert(!reducible(req)) by {
                if reducible(req) {
                    let st2 = choose|st2: RedState|
                        #[trigger] dadda_rel(built_cols(req), st2) && st2.cols[2
                            * req.operand_width - 1].len() <= 2;
                    lemma_reduction_deterministic(built_cols(req), st2, st);
                }
            }
        }
        return Err(SynthesisError::InvalidWidth);
    }
    let rows = split_rows(&red);
    let nh = red.half_adders.len();
    let nf = red.full_adders.len();
    proof {
        assert(st.has.len() == nh && st.fas.len() == nf);
    }
    let ir = StructuralIr {
        half_adders: red.half_adders,
        full_adders: red.full_adders,
        top: rows.0,
        bottom: rows.1,
        output_width: wo,
    };
    proof {
        assert(dadda_rel(built_cols(req), st));
        assert(st.cols[2 * req.operand_width - 1].len() <= 2);
        assert(reducible(req));
        assert(ir.half_adders@ == st.has);
        assert(ir.top@ == top_row(st.cols));
        assert(ir_matches(req, ir));
        assert forall|env: Env, hv: Seq<(bool, bool)>, fv: Seq<(bool, bool)>|
            consistent(ir.half_adders@, ir.full_adders@, env, hv, fv) implies rows_val(
            ir.top@,
            ir.bottom@,
            env,
            hv,
            fv,
        ) == mat_val(built_cols(req), env, hv, fv) by {
            lemma_rows_conservation(built_cols(req), st, env, hv, fv);
        }
        assert forall|env: Env, hv: Seq<(bool, bool)>, fv: Seq<(bool, bool)>|
            consistent(ir.half_adders@, ir.full_adders@, env, hv, fv) implies rows_val(
            ir.top@,
            ir.bottom@,
            env,
            hv,
            fv,
        ) == bits_val(env.a, 0, req.operand_width as nat) * bits_val(
            env.b,
            0,
            req.operand_width as nat,
        ) + addend_val(req, env) by {
            lemma_rows_conservation(built_cols(req), st, env, hv, fv);
            lemma_built_matrix_value(req, env, hv, fv);
        }
    }
    Ok(ir)
}

/// After reducing a built matrix, every column but the last holds exactly
/// one or two bit sources: never zero, never three or more.
pub proof fn lemma_built_reduced_heights(req: Request, st: RedState)
    requires
        request_valid(req),
        dadda_rel(built_cols(req), st),
    ensures
        st.cols.len() == 2 * req.operand_width,
        forall|k: int|
            0 <= k && k + 1 < 2 * req.operand_width ==> 1 <= #[trigger] st.cols[k].len() <= 2,
{
    let w = req.operand_width as nat;
    lemma_reduced_heights(built_cols(req), st);
    lemma_reduced_nonempty(built_cols(req), st);
    assert forall|k: int| 0 <= k && k + 1 < 2 * req.operand_width implies #[trigger] built_cols(
        req,
    )[k].len() >= 1 by {
        assert(built_cols(req)[k] == built_col(req, k as nat));
        assert(pp_col(w, k as nat).len() == pp_count(w, k as nat));
        assert(pp_count(w, k as nat) >= 1);
    }
}

/// For an accepted request every column of the engine's outcome, the last
/// one included, ends with at most two bit sources, and none of the columns
/// that started nonempty is ever empty.
pub proof fn lemma_accepted_heights(req: Request, st: RedState)
    requires
        request_valid(req),
        reducible(req),
        dadda_rel(built_cols(req), st),
    ensures
        st.cols.len() == 2 * req.operand_width,
        forall|k: int| 0 <= k < 2 * req.operand_width ==> #[trigger] st.cols[k].len() <= 2,
        forall|k: int|
            0 <= k && k + 1 < 2 * req.operand_width ==> 1 <= #[trigger] st.cols[k].len(),
{
    lemma_built_reduced_heights(req, st);
    let st2 = choose|st2: RedState|
        #[trigger] dadda_rel(built_cols(req), st2) && st2.cols[2 * req.operand_width
            - 1].len() <= 2;
    lemma_reduction_deterministic(built_cols(req), st2, st);
}

/// Round-trip determinism: two representations built for the same request
/// are identical, cell for cell and row for row.
pub proof fn lemma_synthesis_deterministic(req: Request, ir1: StructuralIr, ir2: StructuralIr)
    requires
        ir_matches(req, ir1),
        ir_matches(req, ir2),
    ensures
        ir1.half_adders@ == ir2.half_adders@,
        ir1.full_adders@ == ir2.full_adders@,
        ir1.top@ == ir2.top@,
        ir1.bottom@ == ir2.bottom@,
        ir1.output_width == ir2.output_width,
{
    let st1 = choose|st: RedState|
        {
            &&& #[trigger] dadda_rel(built_cols(req), st)
            &&& ir1.half_adders@ == st.has
            &&& ir1.full_adders@ == st.fas
            &&& ir1.top@ == top_row(st.cols)
            &&& ir1.bottom@ == bottom_row(st.cols)
            &&& ir1.output_width == 2 * req.operand_width
        };
    let st2 = choose|st: RedState|
        {
            &&& #[trigger] dadda_rel(built_cols(req), st)
            &&& ir2.half_adders@ == st.has
            &&& ir2.full_adders@ == st.fas
            &&& ir2.top@ == top_row(st.cols)
            &&& ir2.bottom@ == bottom_row(st.cols)
            &&& ir2.output_width == 2 * req.operand_width
        };
    lemma_reduction_deterministic(built_cols(req), st1, st2);
}

/// A freshly built matrix holds only primary bit sources, so consistent
/// cell values exist for every synthesized network under every assignment:
/// the conservation law below is never vacuous.
pub proof fn lemma_built_consistent_exists(req: Request, st: RedState, env: Env)
    requires
        dadda_rel(built_cols(req), st),
    ensures
        exists|hv: Seq<(bool, bool)>, fv: Seq<(bool, bool)>|
            consistent(st.has, st.fas, env, hv, fv),
{
    let w = req.operand_width as nat;
    assert forall|k: int, j: int|
        0 <= k < built_cols(req).len() && 0 <= j < built_cols(req)[k].len() implies refs_ok(
        #[trigger] built_cols(req)[k][j],
        0,
        0,
    ) by {
        assert(built_cols(req)[k] == built_col(req, k as nat));
        let cnt = pp_count(w, k as nat);
        if j < cnt {
            assert(built_col(req, k as nat)[j] == pp_col(w, k as nat)[j]);
        } else {
            assert(built_col(req, k as nat)[j] == extra_col(req, k as nat)[j - cnt]);
        }
    }
    lemma_consistent_exists(built_cols(req), st, env);
}

/// Every cell reference in a synthesized representation is in range: each
/// cell's recorded inputs and each row entry name only cells that exist in
/// the returned lists.
pub proof fn lemma_ir_refs_valid(req: Request, ir: StructuralIr)
    requires
        ir_matches(req, ir),
    ensures
        forall|i: int|
            #![trigger ir.half_adders@[i]]
            0 <= i < ir.half_adders@.len() ==> refs_ok(
                ir.half_adders@[i].a,
                ir.half_adders@.len(),
                ir.full_adders@.len(),
            ) && refs_ok(ir.half_adders@[i].b, ir.half_adders@.len(), ir.full_adders@.len()),
        forall|i: int|
            #![trigger ir.full_adders@[i]]
            0 <= i < ir.full_adders@.len() ==> refs_ok(
                ir.full_adders@[i].a,
                ir.half_adders@.len(),
                ir.full_adders@.len(),
            ) && refs_ok(ir.full_adders@[i].b, ir.half_adders@.len(), ir.full_adders@.len())
                && refs_ok(ir.full_adders@[i].c, ir.half_adders@.len(), ir.full_adders@.len()),
        forall|k: int|
            0 <= k < ir.top@.len() ==> refs_ok(
                #[trigger] ir.top@[k],
                ir.half_adders@.len(),
                ir.full_adders@.len(),
            ),
        forall|k: int|
            0 <= k < ir.bottom@.len() ==> refs_ok(
                #[trigger] ir.bottom@[k],
                ir.half_adders@.len(),
                ir.full_adders@.len(),
            ),
{
    let st = choose|st: RedState|
        {
            &&& #[trigger] dadda_rel(built_cols(req), st)
            &&& ir.half_adders@ == st.has
            &&& ir.full_adders@ == st.fas
            &&& ir.top@ == top_row(st.cols)
            &&& ir.bottom@ == bottom_row(st.cols)
            &&& ir.output_width == 2 * req.operand_width
        };
    let w = req.operand_width as nat;
    assert forall|k: int, j: int|
        0 <= k < built_cols(req).len() && 0 <= j < built_cols(req)[k].len() implies refs_ok(
        #[trigger] built_cols(req)[k][j],
        0,
        0,
    ) by {
        assert(built_cols(req)[k] == built_col(req, k as nat));
        let cnt = pp_count(w, k as nat);
        if j < cnt {
            assert(built_col(req, k as nat)[j] == pp_col(w, k as nat)[j]);
        } else {
            assert(built_col(req, k as nat)[j] == extra_col(req, k as nat)[j - cnt]);
        }
    }
    let env = Env { a: Seq::empty(), b: Seq::empty(), off: Seq::empty() };
    lemma_consistent_exists(built_cols(req), st, env);
    assert(state_wf(st));
    assert forall|k: int| 0 <= k < ir.top@.len() implies refs_ok(
        #[trigger] ir.top@[k],
        ir.half_adders@.len(),
        ir.full_adders@.len(),
    ) by {
        if st.cols[k].len() >= 1 {
            assert(ir.top@[k] == st.cols[k][0]);
        }
    }
    assert forall|k: int| 0 <= k < ir.bottom@.len() implies refs_ok(
        #[trigger] ir.bottom@[k],
        ir.half_adders@.len(),
        ir.full_adders@.len(),
    ) by {
        if st.cols[k].len() >= 2 {
            assert(ir.bottom@[k] == st.cols[k][1]);
        }
    }
}

/// A column holding at most two bit sources contributes exactly its row
/// entries' bits.
proof fn lemma_col_val_short(
    col: Seq<BitSource>,
    env: Env,
    hv: Seq<(bool, bool)>,
    fv: Seq<(bool, bool)>,
)
    requires
        col.len() <= 2,
    ensures
        col_val(col, env, hv, fv) == b2n(
            val_of(
                if col.len() >= 1 {
                    col[0]
                } else {
                    BitSource::Constant { value: false }
                },
                env,
                hv,
                fv,
            ),
        ) + b2n(
            val_of(
                if col.len() >= 2 {
                    col[1]
                } else {
                    BitSource::Constant { value: false }
                },
                env,
                hv,
                fv,
            ),
        ),
{
    if col.len() == 2 {
        assert(col.drop_first()[0] == col[1]);
        assert(col.drop_first().drop_first().len() == 0);
        assert(col_val(col, env, hv, fv) == b2n(val_of(col[0], env, hv, fv)) + col_val(
            col.drop_first(),
            env,
            hv,
            fv,
        ));
        assert(col_val(col.drop_first(), env, hv, fv) == b2n(val_of(col[1], env, hv, fv))
            + col_val(col.drop_first().drop_first(), env, hv, fv));
        assert(col_val(col.drop_first().drop_first(), env, hv, fv) == 0);
    } else if col.len() == 1 {
        assert(col.drop_first().len() == 0);
        assert(col_val(col, env, hv, fv) == b2n(val_of(col[0], env, hv, fv)) + col_val(
            col.drop_first(),
            env,
            hv,
            fv,
        ));
        assert(col_val(col.drop_first(), env, hv, fv) == 0);
    } else {
        assert(col_val(col, env, hv, fv) == 0);
    }
}

/// The two rows of a matrix whose columns all hold at most two bit sources
/// carry exactly the matrix's value.
pub proof fn lemma_rows_value(
    cols: Seq<Seq<BitSource>>,
    env: Env,
    hv: Seq<(bool, bool)>,
    fv: Seq<(bool, bool)>,
)
    requires
        forall|k: int| 0 <= k < cols.len() ==> #[trigger] cols[k].len() <= 2,
    ensures
        rows_val(top_row(cols), bottom_row(cols), env, hv, fv) == mat_val(cols, env, hv, fv),
    decreases cols.len(),
{
    if cols.len() > 0 {
        assert(top_row(cols)[0] == (if cols[0].len() >= 1 {
            cols[0][0]
        } else {
            BitSource::Constant { value: false }
        }));
        lemma_col_val_short(cols[0], env, hv, fv);
        assert(top_row(cols).drop_first() =~= top_row(cols.drop_first()));
        assert(bottom_row(cols).drop_first() =~= bottom_row(cols.drop_first()));
        assert(forall|k: int|
            0 <= k < cols.drop_first().len() ==> #[trigger] cols.drop_first()[k].len() <= 2);
        lemma_rows_value(cols.drop_first(), env, hv, fv);
    }
}

/// Value conservation, end to end: whenever every reduced column holds at
/// most two bit sources, the number carried by the final two rows equals the
/// number the original matrix represented, for every assignment of the input
/// bits and any cell values consistent with the allocated cells.
pub proof fn lemma_rows_conservation(
    cols0: Seq<Seq<BitSource>>,
    st: RedState,
    env: Env,
    hv: Seq<(bool, bool)>,
    fv: Seq<(bool, bool)>,
)
    requires
        cols0.len() >= 1,
        dadda_rel(cols0, st),
        st.has.len() <= usize::MAX,
        st.fas.len() <= usize::MAX,
        consistent(st.has, st.fas, env, hv, fv),
        st.cols[cols0.len() - 1].len() <= 2,
    ensures
        rows_val(top_row(st.cols), bottom_row(st.cols), env, hv, fv) == mat_val(
            cols0,
            env,
            hv,
            fv,
        ),
{
    lemma_reduced_heights(cols0, st);
    lemma_value_conservation(cols0, st, env, hv, fv);
    lemma_rows_value(st.cols, env, hv, fv);
}

} // verus!
