use dadda::ir::{BitSource, Mode, Request, StructuralIr, SynthesisError};
use dadda::rows::synthesize;

fn bit(v: u64, i: usize) -> bool {
    if i < 64 {
        (v >> i) & 1 == 1
    } else {
        false
    }
}

fn source_value(
    src: &BitSource,
    a: u64,
    b: u64,
    off: u64,
    hv: &[Option<(bool, bool)>],
    fv: &[Option<(bool, bool)>],
) -> Option<bool> {
    match *src {
        BitSource::PartialProduct { a: i, b: j } => Some(bit(a, i) && bit(b, j)),
        BitSource::OffsetBit { index } => Some(bit(off, index)),
        BitSource::Constant { value } => Some(value),
        BitSource::HalfSum { index } => hv[index].map(|p| p.0),
        BitSource::HalfCarry { index } => hv[index].map(|p| p.1),
        BitSource::FullSum { index } => fv[index].map(|p| p.0),
        BitSource::FullCarry { index } => fv[index].map(|p| p.1),
    }
}

/// Evaluates the synthesized network on concrete operand and offset values:
/// resolves every cell's outputs, then sums the two final rows by weight.
fn eval_ir(ir: &StructuralIr, a: u64, b: u64, off: u64) -> u64 {
    let mut hv: Vec<Option<(bool, bool)>> = vec![None; ir.half_adders.len()];
    let mut fv: Vec<Option<(bool, bool)>> = vec![None; ir.full_adders.len()];
    loop {
        let mut progressed = false;
        for i in 0..ir.half_adders.len() {
            if hv[i].is_none() {
                let cell = &ir.half_adders[i];
                let x = source_value(&cell.a, a, b, off, &hv, &fv);
                let y = source_value(&cell.b, a, b, off, &hv, &fv);
                if let (Some(x), Some(y)) = (x, y) {
                    hv[i] = Some((x != y, x && y));
                    progressed = true;
                }
            }
        }
        for i in 0..ir.full_adders.len() {
            if fv[i].is_none() {
                let cell = &ir.full_adders[i];
                let x = source_value(&cell.a, a, b, off, &hv, &fv);
                let y = source_value(&cell.b, a, b, off, &hv, &fv);
                let z = source_value(&cell.c, a, b, off, &hv, &fv);
                if let (Some(x), Some(y), Some(z)) = (x, y, z) {
                    fv[i] = Some(((x != y) != z, (x && y) || (x && z) || (y && z)));
                    progressed = true;
                }
            }
        }
        if !progressed {
            break;
        }
    }
    assert!(hv.iter().all(|v| v.is_some()));
    assert!(fv.iter().all(|v| v.is_some()));
    let mut total: u64 = 0;
    for k in 0..ir.output_width {
        let t = source_value(&ir.top[k], a, b, off, &hv, &fv).unwrap();
        let s = source_value(&ir.bottom[k], a, b, off, &hv, &fv).unwrap();
        if t {
            total += 1u64 << k;
        }
        if s {
            total += 1u64 << k;
        }
    }
    total
}

#[test]
fn multiply_2x2_no_cells_exact_products() {
    let req = Request { operand_width: 2, mode: Mode::Multiply };
    let ir = synthesize(req).unwrap();
    assert_eq!(ir.output_width, 4);
    assert_eq!(ir.half_adders.len(), 0);
    assert_eq!(ir.full_adders.len(), 0);
    for a in 0..4u64 {
        for b in 0..4u64 {
            assert_eq!(eval_ir(&ir, a, b, 0), a * b);
        }
    }
}

#[test]
fn multiply_4x4_cell_counts_and_products() {
    let req = Request { operand_width: 4, mode: Mode::Multiply };
    let ir = synthesize(req).unwrap();
    assert_eq!(ir.output_width, 8);
    assert_eq!(ir.half_adders.len(), 3);
    assert_eq!(ir.full_adders.len(), 3);
    for a in 0..16u64 {
        for b in 0..16u64 {
            assert_eq!(eval_ir(&ir, a, b, 0), a * b);
        }
    }
}

#[test]
fn fixed_point_multiply_by_half_constant() {
    // A 4-bit integer, 4-bit fraction operand; the second operand carries the
    // encoding of one half, 8, so the result before any addend is
    // floor(a * 0.5 * 2^8) for the fixed-point reading of a.
    let req = Request {
        operand_width: 8,
        mode: Mode::ConstAccumulate { addend_width: 8, addend: 0 },
    };
    let ir = synthesize(req).unwrap();
    let half = 8u64;
    for a in 0..256u64 {
        assert_eq!(eval_ir(&ir, a, half, 0), a * half);
    }
}

#[test]
fn constant_addend_enters_low_columns() {
    let req = Request {
        operand_width: 8,
        mode: Mode::ConstAccumulate { addend_width: 8, addend: 173 },
    };
    let ir = synthesize(req).unwrap();
    for a in [0u64, 1, 7, 63, 130, 255] {
        for b in [0u64, 1, 8, 100, 255] {
            assert_eq!(eval_ir(&ir, a, b, 0), a * b + 173);
        }
    }
}

#[test]
fn runtime_addend_enters_low_columns() {
    let req = Request { operand_width: 4, mode: Mode::Accumulate { offset_width: 8 } };
    let ir = synthesize(req).unwrap();
    for a in 0..16u64 {
        for b in 0..16u64 {
            for off in [0u64, 1, 77, 200, 255] {
                assert_eq!(eval_ir(&ir, a, b, off), a * b + off);
            }
        }
    }
}

#[test]
fn reduced_rows_cover_every_column() {
    for w in 1..9usize {
        let req = Request { operand_width: w, mode: Mode::Multiply };
        let ir = synthesize(req).unwrap();
        assert_eq!(ir.top.len(), 2 * w);
        assert_eq!(ir.bottom.len(), 2 * w);
    }
}

#[test]
fn degenerate_matrix_allocates_nothing() {
    // Width 1 and width 2 matrices never exceed height 2.
    for w in [1usize, 2] {
        let req = Request { operand_width: w, mode: Mode::Multiply };
        let ir = synthesize(req).unwrap();
        assert_eq!(ir.half_adders.len(), 0);
        assert_eq!(ir.full_adders.len(), 0);
        for a in 0..(1u64 << w) {
            for b in 0..(1u64 << w) {
                assert_eq!(eval_ir(&ir, a, b, 0), a * b);
            }
        }
    }
}

#[test]
fn rebuilding_gives_identical_cell_lists() {
    let req = Request {
        operand_width: 6,
        mode: Mode::ConstAccumulate { addend_width: 10, addend: 771 },
    };
    let ir1 = synthesize(req).unwrap();
    let ir2 = synthesize(req).unwrap();
    assert_eq!(ir1.half_adders, ir2.half_adders);
    assert_eq!(ir1.full_adders, ir2.full_adders);
    assert_eq!(ir1.top, ir2.top);
    assert_eq!(ir1.bottom, ir2.bottom);
    assert_eq!(ir1.output_width, ir2.output_width);
}

#[test]
fn zero_widths_are_rejected() {
    let r = synthesize(Request { operand_width: 0, mode: Mode::Multiply });
    assert_eq!(r.unwrap_err(), SynthesisError::InvalidWidth);
    let r = synthesize(Request {
        operand_width: 4,
        mode: Mode::ConstAccumulate { addend_width: 0, addend: 0 },
    });
    assert_eq!(r.unwrap_err(), SynthesisError::InvalidWidth);
    let r = synthesize(Request { operand_width: 4, mode: Mode::Accumulate { offset_width: 0 } });
    assert_eq!(r.unwrap_err(), SynthesisError::InvalidWidth);
}

#[test]
fn oversized_addend_regions_are_rejected() {
    let r = synthesize(Request {
        operand_width: 4,
        mode: Mode::ConstAccumulate { addend_width: 9, addend: 0 },
    });
    assert_eq!(r.unwrap_err(), SynthesisError::InvalidWidth);
    let r = synthesize(Request { operand_width: 4, mode: Mode::Accumulate { offset_width: 9 } });
    assert_eq!(r.unwrap_err(), SynthesisError::InvalidWidth);
}

#[test]
fn constant_wider_than_its_region_is_rejected() {
    let r = synthesize(Request {
        operand_width: 4,
        mode: Mode::ConstAccumulate { addend_width: 3, addend: 8 },
    });
    assert_eq!(r.unwrap_err(), SynthesisError::InvalidConstant);
    let ok = synthesize(Request {
        operand_width: 4,
        mode: Mode::ConstAccumulate { addend_width: 3, addend: 7 },
    });
    assert!(ok.is_ok());
}

#[test]
fn wide_multiply_stays_exact_on_samples() {
    let req = Request { operand_width: 16, mode: Mode::Multiply };
    let ir = synthesize(req).unwrap();
    for &a in &[0u64, 1, 2, 3, 255, 256, 4095, 30000, 65535] {
        for &b in &[0u64, 1, 7, 129, 1024, 40000, 65535] {
            assert_eq!(eval_ir(&ir, a, b, 0), a * b);
        }
    }
}

#[test]
fn overflowing_final_column_is_rejected_not_truncated() {
    // An addend region spanning the whole output width can leave a third
    // source in the final column after reduction; such a request is turned
    // away with InvalidWidth rather than losing the bit.
    let r = synthesize(Request { operand_width: 5, mode: Mode::Accumulate { offset_width: 10 } });
    assert_eq!(r.unwrap_err(), SynthesisError::InvalidWidth);
    let r = synthesize(Request { operand_width: 8, mode: Mode::Accumulate { offset_width: 16 } });
    assert_eq!(r.unwrap_err(), SynthesisError::InvalidWidth);
    let r = synthesize(Request {
        operand_width: 5,
        mode: Mode::ConstAccumulate { addend_width: 10, addend: 512 },
    });
    assert_eq!(r.unwrap_err(), SynthesisError::InvalidWidth);
}

#[test]
fn narrower_addend_region_stays_exact() {
    let ir = synthesize(Request { operand_width: 5, mode: Mode::Accumulate { offset_width: 9 } })
        .unwrap();
    for a in [0u64, 1, 19, 31] {
        for b in [0u64, 1, 22, 31] {
            for off in [0u64, 1, 200, 511] {
                assert_eq!(eval_ir(&ir, a, b, off), a * b + off);
            }
        }
    }
}
