//! Integer index arithmetic of the toroidal triangular lattice.
//!
//! A field samples its values on a `rows x cols` grid of lattice vertices,
//! addressed by unbounded signed `(col, row)` indices. The lattice is
//! periodic: column indices wrap modulo `cols`, and a full vertical period
//! of `rows` rows additionally shifts columns by half a period, because
//! successive triangular rows are offset by half a column. This module
//! resolves signed indices into storage indices and proves the wrap rules.

use vstd::prelude::*;

use crate::sim_time::{div_trunc, div_trunc_i64, rem_trunc, rem_trunc_i64};

verus! {

/// The storage cell `(row, col)` that holds the sample of lattice vertex
/// `(col, row)`: rows wrap over the full vertical period, and every full
/// wrap shifts the column by half a period.
pub open spec fn vertex_index_spec(col: int, row: int, rows: int, cols: int) -> (int, int) {
    (row % rows, (col + (row / rows) * (rows / 2)) % cols)
}

/// Euclidean division and remainder of `a` by a positive `b`: the remainder
/// is never negative.
fn ediv_emod_i64(a: i64, b: i64) -> (r: (i64, i64))
    requires
        b > 0,
    ensures
        r.0 == a as int / b as int,
        r.1 == a as int % b as int,
{
    proof {
        let ai = a as int;
        let bi = b as int;
        let mag: int = if ai >= 0 {
            ai
        } else {
            -ai
        };
        lemma_trunc_to_euclid(ai, bi);
        crate::sim_time::lemma_rem_trunc_range(ai, bi);
        crate::sim_time::lemma_div_trunc_abs(ai, bi, mag);
        if bi >= 2 {
            vstd::arithmetic::div_mod::lemma_div_is_ordered(mag, 0x8000000000000000, bi);
            vstd::arithmetic::div_mod::lemma_div_is_ordered_by_denominator(
                0x8000000000000000,
                2,
                bi,
            );
        }
    }
    let q: i64 = div_trunc_i64(a, b);
    let m: i64 = rem_trunc_i64(a, b);
    if m < 0 {
        (q - 1, m + b)
    } else {
        (q, m)
    }
}

/// Euclidean remainder of a wide value by a positive divisor that fits a
/// machine word.
fn emod_i128(a: i128, b: i128) -> (r: i128)
    requires
        0 < b <= u64::MAX,
        a > i128::MIN,
    ensures
        r == a as int % b as int,
        0 <= r < b,
{
    proof {
        vstd::arithmetic::div_mod::lemma_mod_division_less_than_divisor(a as int, b as int);
    }
    let neg: bool = a < 0;
    let a_mag: u128 = if neg {
        -(a as i128) as u128
    } else {
        a as u128
    };
    let m: u128 = a_mag % (b as u128);
    proof {
        vstd::arithmetic::div_mod::lemma_mod_division_less_than_divisor(
            a_mag as int,
            b as int,
        );
        if neg {
            lemma_mod_of_negation(a as int, b as int);
        }
    }
    if neg {
        if m == 0 {
            0
        } else {
            b - (m as i128)
        }
    } else {
        m as i128
    }
}

/// Truncated division relates to Euclidean division by at most a unit
/// correction on negative remainders.
proof fn lemma_trunc_to_euclid(a: int, b: int)
    requires
        b > 0,
    ensures
        a == b * div_trunc(a, b) + rem_trunc(a, b),
        rem_trunc(a, b) < 0 ==> a / b == div_trunc(a, b) - 1 && a % b == rem_trunc(a, b) + b,
        rem_trunc(a, b) >= 0 ==> a / b == div_trunc(a, b) && a % b == rem_trunc(a, b),
{
    crate::sim_time::lemma_rem_trunc_range(a, b);
    if a == 0 {
        vstd::arithmetic::div_mod::lemma_div_of0(b);
        vstd::arithmetic::div_mod::lemma_small_mod(0nat, b as nat);
    } else if a > 0 {
        vstd::arithmetic::div_mod::lemma_fundamental_div_mod(a, b);
        vstd::arithmetic::div_mod::lemma_mod_division_less_than_divisor(a, b);
    } else {
        vstd::arithmetic::div_mod::lemma_fundamental_div_mod(a * -1, b);
        vstd::arithmetic::div_mod::lemma_mod_division_less_than_divisor(a * -1, b);
        let qq = (a * -1) / b;
        let mm = (a * -1) % b;
        assert(b * (qq * -1) == (b * qq) * -1) by (nonlinear_arith);
        assert(a == b * (qq * -1) + (mm * -1));
        assert(div_trunc(a, b) == qq * -1);
        assert(rem_trunc(a, b) == mm * -1);
        if rem_trunc(a, b) < 0 {
            assert((div_trunc(a, b) - 1) * b + (rem_trunc(a, b) + b) == b * div_trunc(a, b)
                + rem_trunc(a, b)) by (nonlinear_arith);
            vstd::arithmetic::div_mod::lemma_fundamental_div_mod_converse(
                a,
                b,
                div_trunc(a, b) - 1,
                rem_trunc(a, b) + b,
            );
        } else {
            assert(div_trunc(a, b) * b == b * div_trunc(a, b)) by (nonlinear_arith);
            vstd::arithmetic::div_mod::lemma_fundamental_div_mod_converse(
                a,
                b,
                div_trunc(a, b),
                rem_trunc(a, b),
            );
        }
    }
}

/// The Euclidean remainder of `-x` complements the remainder of `x`.
proof fn lemma_mod_of_negation(a: int, b: int)
    requires
        b > 0,
        a < 0,
    ensures
        (-a) % b == 0 ==> a % b == 0,
        (-a) % b != 0 ==> a % b == b - ((-a) % b),
{
    vstd::arithmetic::div_mod::lemma_fundamental_div_mod(-a, b);
    vstd::arithmetic::div_mod::lemma_mod_division_less_than_divisor(-a, b);
    let q = (-a) / b;
    let m = (-a) % b;
    assert((-q) * b == (b * q) * -1) by (nonlinear_arith);
    if m == 0 {
        assert(a == (-q) * b + 0);
        vstd::arithmetic::div_mod::lemma_fundamental_div_mod_converse(a, b, -q, 0);
    } else {
        assert((-q - 1) * b == (b * q) * -1 - b) by (nonlinear_arith);
        assert(a == (-q - 1) * b + (b - m));
        vstd::arithmetic::div_mod::lemma_fundamental_div_mod_converse(a, b, -q - 1, b - m);
    }
}

/// Resolve a signed lattice vertex index into the storage cell that holds
/// its sample: `(storage_row, storage_col)`.
pub fn vertex_index(col: i64, row: i64, rows: usize, cols: usize) -> (r: (usize, usize))
    requires
        2 <= rows <= i64::MAX,
        rows % 2 == 0,
        1 <= cols <= i64::MAX,
    ensures
        (r.0 as int, r.1 as int) == vertex_index_spec(col as int, row as int, rows as int, cols as int),
        r.0 < rows,
        r.1 < cols,
    {
    let rows_i: i64 = rows as i64;
    let cols_i: i64 = cols as i64;
    let qm: (i64, i64) = ediv_emod_i64(row, rows_i);
    let q: i64 = qm.0;
    let d_row: i64 = qm.1;
    proof {
        vstd::arithmetic::div_mod::lemma_mod_division_less_than_divisor(
            row as int,
            rows as int,
        );
    }
    let half: i64 = (rows / 2) as i64;
    proof {
        assert((i64::MIN as int) * (i64::MAX as int) <= (q as int) * (half as int) <= (
        i64::MAX as int) * (i64::MAX as int)) by (nonlinear_arith)
            requires
                i64::MIN <= q <= i64::MAX,
                0 <= half <= i64::MAX,
        ;
    }
    let shifted: i128 = (col as i128) + (q as i128) * (half as i128);
    let d_col: i128 = emod_i128(shifted, cols_i as i128);
    proof {
        assert(shifted as int == col as int + (row as int / rows as int) * (rows as int / 2));
    }
    ((d_row as usize), (d_col as usize))
}

/// Column indices wrap modulo the number of columns: a full horizontal
/// period resolves to the same stored sample.
pub proof fn lemma_vertex_wrap_col_period(col: int, row: int, rows: int, cols: int)
    requires
        rows >= 2,
        rows % 2 == 0,
        cols >= 1,
    ensures
        vertex_index_spec(col + cols, row, rows, cols) == vertex_index_spec(col, row, rows, cols),
{
    let s = (row / rows) * (rows / 2);
    vstd::arithmetic::div_mod::lemma_mod_add_multiples_vanish(col + s, cols);
}

/// A full vertical period of `rows` rows resolves to the same stored
/// sample as a half-period column shift: the half-column row-shift rule
/// that keeps the triangulation seamless across the vertical tile boundary.
pub proof fn lemma_vertex_wrap_row_period(col: int, row: int, rows: int, cols: int)
    requires
        rows >= 2,
        rows % 2 == 0,
        cols >= 1,
    ensures
        vertex_index_spec(col, row + rows, rows, cols) == vertex_index_spec(
            col + rows / 2,
            row,
            rows,
            cols,
        ),
{
    vstd::arithmetic::div_mod::lemma_mod_add_multiples_vanish(row, rows);
    assert((row + rows) / rows == row / rows + 1) by {
        vstd::arithmetic::div_mod::lemma_div_plus_one(row, rows);
    }
    let half = rows / 2;
    assert((row / rows + 1) * half == (row / rows) * half + half) by (nonlinear_arith);
}

} // verus!
