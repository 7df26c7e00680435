use vstd::prelude::*;

verus! {

/// Maps a disk-order (column-major) linear index to the row-major storage
/// index: disk index `i` lies in row `i % nrow` of column `i / nrow`, so the
/// value at disk position `i` belongs at storage position
/// `(i % nrow) * ncol + i / nrow`.
pub open spec fn cm_to_rm(i: int, ncol: int, nrow: int) -> int {
    (i % nrow) * ncol + i / nrow
}

/// The disk-order index mapping is its own inverse with the dimensions
/// swapped, and stays inside the grid.
pub proof fn lemma_cm_to_rm_inverse(i: int, ncol: int, nrow: int)
    requires
        1 <= ncol,
        1 <= nrow,
        0 <= i < ncol * nrow,
    ensures
        0 <= cm_to_rm(i, ncol, nrow) < ncol * nrow,
        cm_to_rm(cm_to_rm(i, ncol, nrow), nrow, ncol) == i,
{
    let a = i / nrow;
    let b = i % nrow;
    vstd::arithmetic::div_mod::lemma_fundamental_div_mod(i, nrow);
    vstd::arithmetic::div_mod::lemma_mod_bound(i, nrow);
    assert(0 <= a < ncol) by (nonlinear_arith)
        requires
            i == nrow * a + b,
            0 <= b < nrow,
            0 <= i < ncol * nrow,
            1 <= ncol,
            1 <= nrow,
    ;
    let s = b * ncol + a;
    assert(0 <= s < ncol * nrow) by (nonlinear_arith)
        requires
            s == b * ncol + a,
            0 <= a < ncol,
            0 <= b < nrow,
    ;
    vstd::arithmetic::div_mod::lemma_fundamental_div_mod_converse(s, ncol, b, a);
    assert(cm_to_rm(s, nrow, ncol) == a * nrow + b);
    assert(a * nrow + b == i) by (nonlinear_arith)
        requires
            i == nrow * a + b,
    ;
}

/// The disk-order index mapping hits every storage index exactly once: for
/// each storage index `s` there is exactly one disk index that lands on it,
/// namely `cm_to_rm(s, nrow, ncol)`.
pub proof fn lemma_cm_to_rm_bijective(s: int, ncol: int, nrow: int)
    requires
        1 <= ncol,
        1 <= nrow,
        0 <= s < ncol * nrow,
    ensures
        0 <= cm_to_rm(s, nrow, ncol) < ncol * nrow,
        cm_to_rm(cm_to_rm(s, nrow, ncol), ncol, nrow) == s,
        forall|j: int|
            0 <= j < ncol * nrow && #[trigger] cm_to_rm(j, ncol, nrow) == s ==> j == cm_to_rm(
                s,
                nrow,
                ncol,
            ),
{
    assert(nrow * ncol == ncol * nrow) by (nonlinear_arith);
    lemma_cm_to_rm_inverse(s, nrow, ncol);
    assert forall|j: int|
        0 <= j < ncol * nrow && #[trigger] cm_to_rm(j, ncol, nrow) == s implies j == cm_to_rm(
        s,
        nrow,
        ncol,
    ) by {
        lemma_cm_to_rm_inverse(j, ncol, nrow);
    }
}

/// Converts a disk-order (column-major) linear index into the row-major
/// storage index of the same cell: row `idx % nrow`, column `idx / nrow`.
pub fn column_major_to_row_major_index(idx: usize, ncol: usize, nrow: usize) -> (r: usize)
    requires
        1 <= ncol,
        1 <= nrow,
        idx < ncol * nrow,
        ncol * nrow <= usize::MAX,
    ensures
        r == cm_to_rm(idx as int, ncol as int, nrow as int),
        r < ncol * nrow,
{
    proof {
        lemma_cm_to_rm_inverse(idx as int, ncol as int, nrow as int);
        let a = idx as int / nrow as int;
        let b = idx as int % nrow as int;
        assert(b * ncol < ncol * nrow && b * ncol + a < ncol * nrow) by (nonlinear_arith)
            requires
                0 <= b < nrow,
                0 <= a,
                1 <= ncol,
                b * ncol + a < ncol * nrow,
    ;
    }
    (idx % nrow) * ncol + idx / nrow
}

} // verus!
