use vstd::prelude::*;

verus! {

/// One bit feeding the adder network: a partial product `a[i] & b[j]`, a bit
/// of the addend operand, a structural constant, or the output of an
/// already-allocated half- or full-adder cell, referenced by its position in
/// the corresponding cell list.
#[derive(Clone, Copy, Debug, PartialEq, Eq, Structural)]
pub enum BitSource {
    PartialProduct { a: usize, b: usize },
    OffsetBit { index: usize },
    Constant { value: bool },
    HalfSum { index: usize },
    HalfCarry { index: usize },
    FullSum { index: usize },
    FullCarry { index: usize },
}

/// A half-adder cell: sums two bit sources into a sum bit and a carry bit.
#[derive(Clone, Copy, Debug, PartialEq, Eq, Structural)]
pub struct HalfAdder {
    pub a: BitSource,
    pub b: BitSource,
}

/// A full-adder cell: sums three bit sources into a sum bit and a carry-out bit.
#[derive(Clone, Copy, Debug, PartialEq, Eq, Structural)]
pub struct FullAdder {
    pub a: BitSource,
    pub b: BitSource,
    pub c: BitSource,
}

/// The partial-product matrix: column `k` holds the bit sources of binary
/// weight `2^k`, ordered newest first once reduction has begun.
#[derive(Debug)]
pub struct Matrix {
    pub columns: Vec<Vec<BitSource>>,
}

impl Matrix {
    /// The mathematical view: a sequence of columns, each a sequence of bit sources.
    pub open spec fn cols(&self) -> Seq<Seq<BitSource>> {
        Seq::new(self.columns@.len(), |i: int| self.columns@[i]@)
    }
}

/// The outcome of reduction: the matrix compressed to at most two rows,
/// together with the cell lists in allocation order.
#[derive(Debug)]
pub struct Reduction {
    pub matrix: Matrix,
    pub half_adders: Vec<HalfAdder>,
    pub full_adders: Vec<FullAdder>,
}

/// The structural intermediate representation handed to a rendering backend:
/// the two cell lists in allocation order and the final two rows, one entry
/// per output column.
#[derive(Debug)]
pub struct StructuralIr {
    pub half_adders: Vec<HalfAdder>,
    pub full_adders: Vec<FullAdder>,
    pub top: Vec<BitSource>,
    pub bottom: Vec<BitSource>,
    pub output_width: usize,
}

/// The operating mode of one synthesis request.
#[derive(Clone, Copy, Debug, PartialEq, Eq, Structural)]
pub enum Mode {
    /// Plain multiply: partial products only.
    Multiply,
    /// Multiply, plus a compile-time constant addend: bit `k` of `addend`
    /// enters column `k`, for every `k < addend_width`.
    ConstAccumulate { addend_width: usize, addend: u64 },
    /// Multiply, plus a run-time addend operand: its bit `k` enters column
    /// `k`, for every `k < offset_width`.
    Accumulate { offset_width: usize },
}

/// One synthesis request: both operands are `operand_width` bits wide.
#[derive(Clone, Copy, Debug, PartialEq, Eq, Structural)]
pub struct Request {
    pub operand_width: usize,
    pub mode: Mode,
}

/// Why a request was rejected before any allocation.
#[derive(Clone, Copy, Debug, PartialEq, Eq, Structural)]
pub enum SynthesisError {
    /// An operand or addend width is zero, the addend region does not fit
    /// inside the output width, or the addend region fills the output so far
    /// that reduction cannot bring the final column down to two bit sources.
    InvalidWidth,
    /// The constant addend does not fit in its declared width; such a request
    /// is rejected, never truncated.
    InvalidConstant,
}

/// Whether `v < 2^w`, phrased by repeated halving.
pub open spec fn fits_width(v: nat, w: nat) -> bool
    decreases w,
{
    if w == 0 {
        v == 0
    } else {
        fits_width(v / 2, (w - 1) as nat)
    }
}

/// Bit `k` of `v`, phrased by repeated halving.
pub open spec fn bit_of(v: nat, k: nat) -> bool
    decreases k,
{
    if k == 0 {
        v % 2 == 1
    } else {
        bit_of(v / 2, (k - 1) as nat)
    }
}

/// The widths of a request are acceptable: the operand width is positive and
/// any addend region is non-empty and lies inside the output width.
pub open spec fn widths_valid(r: Request) -> bool {
    &&& r.operand_width >= 1
    &&& match r.mode {
        Mode::Multiply => true,
        Mode::ConstAccumulate { addend_width, addend: _ } => {
            1 <= addend_width <= 2 * r.operand_width
        },
        Mode::Accumulate { offset_width } => 1 <= offset_width <= 2 * r.operand_width,
    }
}

/// The constant addend, if any, fits in its declared width.
pub open spec fn constant_valid(r: Request) -> bool {
    match r.mode {
        Mode::ConstAccumulate { addend_width, addend } => {
            fits_width(addend as nat, addend_width as nat)
        },
        _ => true,
    }
}

/// A request is accepted exactly when its widths and its constant are valid.
pub open spec fn request_valid(r: Request) -> bool {
    widths_valid(r) && constant_valid(r)
}

} // verus!
