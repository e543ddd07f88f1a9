use vstd::prelude::*;
use crate::ir::{bit_of, fits_width, request_valid, widths_valid, constant_valid, BitSource,
    Matrix, Mode, Request, SynthesisError};

verus! {

/// How many partial products `a[i] & b[j]` with `i + j == k` exist for two
/// `w`-bit operands.
pub open spec fn pp_count(w: nat, k: nat) -> nat {
    if w == 0 {
        0
    } else if k < w {
        k + 1
    } else if k + 2 <= 2 * w {
        (2 * w - 1 - k) as nat
    } else {
        0
    }
}

/// The smallest multiplicand bit index contributing to column `k`.
pub open spec fn pp_lo(w: nat, k: nat) -> nat {
    if k >= w {
        (k + 1 - w) as nat
    } else {
        0
    }
}

/// The partial products of column `k`, ordered by ascending multiplicand bit.
pub open spec fn pp_col(w: nat, k: nat) -> Seq<BitSource> {
    Seq::new(
        pp_count(w, k),
        |i: int|
            BitSource::PartialProduct {
                a: (pp_lo(w, k) + i) as usize,
                b: (k - pp_lo(w, k) - i) as usize,
            },
    )
}

/// The addend contribution to column `k`: one constant or offset bit in the
/// low-order columns, nothing elsewhere.
pub open spec fn extra_col(r: Request, k: nat) -> Seq<BitSource> {
    match r.mode {
        Mode::Multiply => Seq::empty(),
        Mode::ConstAccumulate { addend_width, addend } => {
            if k < addend_width {
                seq![BitSource::Constant { value: bit_of(addend as nat, k) }]
            } else {
                Seq::empty()
            }
        },
        Mode::Accumulate { offset_width } => {
            if k < offset_width {
                seq![BitSource::OffsetBit { index: k as usize }]
            } else {
                Seq::empty()
            }
        },
    }
}

/// Column `k` of the freshly built matrix: the partial products, then the
/// addend bit if the column has one.
pub open spec fn built_col(r: Request, k: nat) -> Seq<BitSource> {
    pp_col(r.operand_width as nat, k) + extra_col(r, k)
}

/// The whole freshly built matrix, one column per output bit.
pub open spec fn built_cols(r: Request) -> Seq<Seq<BitSource>> {
    Seq::new(2 * r.operand_width as nat, |k: int| built_col(r, k as nat))
}

/// Whether `v` fits in `w` bits, decided by repeated halving.
fn u64_fits(v: u64, w: usize) -> (b: bool)
    ensures
        b == fits_width(v as nat, w as nat),
{
    let mut cur: u64 = v;
    let mut i: usize = 0;
    while i < w
        invariant
            i <= w,
            fits_width(v as nat, w as nat) == fits_width(cur as nat, (w - i) as nat),
        decreases w - i,
    {
        cur = cur / 2;
        i = i + 1;
    }
    cur == 0
}

/// Bit `k` of `v`, computed by repeated halving.
fn u64_bit(v: u64, k: usize) -> (b: bool)
    ensures
        b == bit_of(v as nat, k as nat),
{
    let mut cur: u64 = v;
    let mut i: usize = 0;
    while i < k
        invariant
            i <= k,
            bit_of(v as nat, k as nat) == bit_of(cur as nat, (k - i) as nat),
        decreases k - i,
    {
        cur = cur / 2;
        i = i + 1;
    }
    cur % 2 == 1
}

/// Builds the initial partial-product matrix for a request, or rejects it.
///
/// A request is rejected with `InvalidWidth` when the operand width is zero
/// or an addend region is empty or wider than the output, and with
/// `InvalidConstant` when the constant addend does not fit in its declared
/// width; otherwise every column `k` of the result is exactly `built_col(r, k)`.
pub fn build_matrix(r: Request) -> (res: Result<Matrix, SynthesisError>)
    requires
        2 * r.operand_width <= usize::MAX,
    ensures
        res is Ok <==> request_valid(r),
        !widths_valid(r) ==> res == Err::<Matrix, SynthesisError>(SynthesisError::InvalidWidth),
        widths_valid(r) && !constant_valid(r) ==> res == Err::<Matrix, SynthesisError>(
            SynthesisError::InvalidConstant,
        ),
        res is Ok ==> res->Ok_0.cols() == built_cols(r),
{
    let w = r.operand_width;
    if w < 1 {
        return Err(SynthesisError::InvalidWidth);
    }
    let wo = 2 * w;
    match r.mode {
        Mode::Multiply => {},
        Mode::ConstAccumulate { addend_width, addend } => {
            if addend_width < 1 || addend_width > wo {
                return Err(SynthesisError::InvalidWidth);
            }
            if !u64_fits(addend, addend_width) {
                return Err(SynthesisError::InvalidConstant);
            }
        },
        Mode::Accumulate { offset_width } => {
            if offset_width < 1 || offset_width > wo {
                return Err(SynthesisError::InvalidWidth);
            }
        },
    }
    let mut columns: Vec<Vec<BitSource>> = Vec::new();
    let mut k: usize = 0;
    while k < wo
        invariant
            wo == 2 * r.operand_width,
            w == r.operand_width,
            1 <= w,
            k <= wo,
            columns@.len() == k,
            forall|j: int| 0 <= j < k ==> columns@[j]@ == built_col(r, j as nat),
        decreases wo - k,
    {
        let lo: usize = if k >= w {
            k + 1 - w
        } else {
            0
        };
        let cnt: usize = if k < w {
            k + 1
        } else if k + 2 <= wo {
            wo - 1 - k
        } else {
            0
        };
        let mut col: Vec<BitSource> = Vec::new();
        let mut i: usize = 0;
        while i < cnt
            invariant
                cnt == pp_count(w as nat, k as nat),
                lo == pp_lo(w as nat, k as nat),
                lo + cnt <= k + 1,
                i <= cnt,
                col@ == pp_col(w as nat, k as nat).take(i as int),
            decreases cnt - i,
        {
            col.push(BitSource::PartialProduct { a: lo + i, b: k - lo - i });
            proof {
                assert(col@ =~= pp_col(w as nat, k as nat).take(i + 1));
            }
            i = i + 1;
        }
        proof {
            assert(col@ =~= pp_col(w as nat, k as nat));
        }
        match r.mode {
            Mode::Multiply => {},
            Mode::ConstAccumulate { addend_width, addend } => {
                if k < addend_width {
                    col.push(BitSource::Constant { value: u64_bit(addend, k) });
                }
            },
            Mode::Accumulate { offset_width } => {
                if k < offset_width {
                    col.push(BitSource::OffsetBit { index: k });
                }
            },
        }
        proof {
            assert(col@ =~= built_col(r, k as nat));
        }
        columns.push(col);
        k = k + 1;
    }
    let m = Matrix { columns };
    proof {
        assert(m.cols() =~= built_cols(r));
    }
    Ok(m)
}

} // verus!
