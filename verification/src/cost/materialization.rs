//! Feasibility of a materialized input that is read before it is written.

use vstd::prelude::*;

verus! {

/// Bytes of so many rows, as far as they fit; no number of rows stands for
/// more than can be counted. A row takes at least one byte.
pub open spec fn row_bytes(rows: Option<u64>, width: u64) -> u64 {
    let width = if width == 0 {
        1
    } else {
        width
    };
    match rows {
        Some(rows) => if rows * width <= u64::MAX {
            (rows * width) as u64
        } else {
            u64::MAX
        },
        None => u64::MAX,
    }
}

pub fn bytes_for_rows(rows: Option<u64>, width: u64) -> (r: u64)
    ensures
        r == row_bytes(rows, width),
{
    let width: u64 = if width == 0 {
        1
    } else {
        width
    };
    let Some(rows) = rows else {
        return u64::MAX;
    };
    assert(rows * width <= u64::MAX * u64::MAX) by (nonlinear_arith)
        requires
            rows <= u64::MAX,
            width <= u64::MAX,
    ;
    let product: u128 = rows as u128 * width as u128;
    if product <= u64::MAX as u128 {
        product as u64
    } else {
        u64::MAX
    }
}

/// The memory that a materialized input takes; none where its upper bound does
/// not fit. Chunks stay in memory, so being allowed to spill does not help.
pub fn mutation_input(rows_upper: Option<u64>, row_width: u64, available_memory: u64) -> (r: Option<
    u64,
>)
    ensures
        r == if row_bytes(rows_upper, row_width) > available_memory {
            None
        } else {
            Some(row_bytes(rows_upper, row_width))
        },
{
    let bytes: u64 = bytes_for_rows(rows_upper, row_width);
    if bytes > available_memory {
        None
    } else {
        Some(bytes)
    }
}

/// Rows take their width in bytes each, one byte at least, and more rows or wider
/// ones never take less. Rows of unknown number take more than can be counted.
pub proof fn rows_take_their_width(rows: u64, more: u64, width: u64, wider: u64)
    requires
        rows <= more,
        width <= wider,
    ensures
        row_bytes(None, width) == u64::MAX,
        row_bytes(Some(rows), 0) == rows,
        row_bytes(Some(rows), width) >= rows,
        row_bytes(Some(0), width) == 0,
        row_bytes(Some(1), width) >= width,
        width > 0 && rows * width <= u64::MAX ==> row_bytes(Some(rows), width) == rows * width,
        width > 0 && rows * width > u64::MAX ==> row_bytes(Some(rows), width) == u64::MAX,
        row_bytes(Some(rows), width) <= row_bytes(Some(more), wider),
{
    let w: int = if width == 0 {
        1
    } else {
        width as int
    };
    let v: int = if wider == 0 {
        1
    } else {
        wider as int
    };
    assert(rows <= rows * w <= more * v) by (nonlinear_arith)
        requires
            0 <= rows <= more,
            1 <= w <= v,
    ;
}

} // verus!
