use vstd::prelude::*;

verus! {

/// Number of unique translation kernels of a sibling octet's halo.
pub const NUM_KERNELS: usize = 16;

/// Number of siblings in an octet.
pub const NUM_SIBLINGS: usize = 8;

/// Half-spectrum length of a real 3-D FFT over the padded `(2k-1)^3` grid of
/// expansion order `k`: `n = 2k - 1`, `p = q = r = n + 1`, `p * q * (r/2 + 1)`.
pub open spec fn half_spectrum_len(expansion_order: int) -> int {
    let n = 2 * expansion_order - 1;
    let p = n + 1;
    let q = n + 1;
    let r = n + 1;
    p * q * (r / 2 + 1)
}

/// The same length in closed form: `(2k) * (2k) * (k + 1)`.
pub open spec fn size_real_of(expansion_order: int) -> int {
    (2 * expansion_order) * (2 * expansion_order) * (expansion_order + 1)
}

/// An expansion order is usable when it is positive and the Hadamard result
/// buffer of an octet (`16 * 8 * size_real` coefficients) can be indexed.
pub open spec fn valid_order(expansion_order: int) -> bool {
    &&& expansion_order >= 1
    &&& 128 * size_real_of(expansion_order) <= usize::MAX
}

/// For every expansion order `k >= 1` the FFT half-spectrum length equals
/// `(2k) * (2k) * (k + 1)`; buffers, kernel table and engine all size by it.
pub proof fn lemma_size_real_closed_form(expansion_order: int)
    requires
        expansion_order >= 1,
    ensures
        half_spectrum_len(expansion_order) == size_real_of(expansion_order),
        size_real_of(expansion_order) > 0,
{
    let k = expansion_order;
    assert((2 * k) / 2 == k);
    assert((2 * k) * (2 * k) * (k + 1) > 0) by (nonlinear_arith)
        requires
            k >= 1,
    ;
}

/// Length of one frequency-domain buffer (multipole or local) for the
/// expansion order: the half-spectrum length, computed as the FFT grid gives it.
pub fn size_real(expansion_order: usize) -> (r: Result<usize, crate::error::M2lError>)
    ensures
        r is Ok <==> valid_order(expansion_order as int),
        r matches Ok(s) ==> s == half_spectrum_len(expansion_order as int) && s
            == size_real_of(expansion_order as int),
        r matches Err(e) ==> e == (crate::error::M2lError::InvalidExpansionOrder {
            expansion_order,
        }),
{
    let err = crate::error::M2lError::InvalidExpansionOrder { expansion_order };
    if expansion_order == 0 {
        return Err(err);
    }
    proof {
        lemma_size_real_closed_form(expansion_order as int);
    }
    let n = match expansion_order.checked_mul(2) {
        Some(v) => v - 1,
        None => {
            proof {
                lemma_too_large(expansion_order as int);
            }
            return Err(err);
        },
    };
    let p = n + 1;
    let q = n + 1;
    let r = n + 1;
    let pq = match p.checked_mul(q) {
        Some(v) => v,
        None => {
            proof {
                lemma_too_large(expansion_order as int);
            }
            return Err(err);
        },
    };
    let size = match pq.checked_mul(r / 2 + 1) {
        Some(v) => v,
        None => {
            proof {
                lemma_too_large(expansion_order as int);
            }
            return Err(err);
        },
    };
    if size > usize::MAX / 128 {
        return Err(err);
    }
    Ok(size)
}

/// Any product on the way to `size_real_of(k)` that overflows makes `k` invalid.
proof fn lemma_too_large(k: int)
    requires
        k >= 1,
    ensures
        (2 * k > usize::MAX || (2 * k) * (2 * k) > usize::MAX || size_real_of(k) > usize::MAX)
            ==> !valid_order(k),
{
    assert((2 * k) * (2 * k) >= 2 * k) by (nonlinear_arith)
        requires
            k >= 1,
    ;
    assert((2 * k) * (2 * k) * (k + 1) >= (2 * k) * (2 * k)) by (nonlinear_arith)
        requires
            k >= 1,
    ;
}

/// Length of the kernel table: sixteen kernels of `size_real` coefficients.
pub fn kernel_table_len(expansion_order: usize) -> (r: Result<usize, crate::error::M2lError>)
    ensures
        r is Ok <==> valid_order(expansion_order as int),
        r matches Ok(s) ==> s == 16 * size_real_of(expansion_order as int),
        r matches Err(e) ==> e == (crate::error::M2lError::InvalidExpansionOrder {
            expansion_order,
        }),
{
    let s = size_real(expansion_order)?;
    Ok(NUM_KERNELS * s)
}

/// Length of the Hadamard result buffer of one octet: one product of
/// `size_real` coefficients for each of the eight siblings and sixteen kernels.
pub fn result_len(expansion_order: usize) -> (r: Result<usize, crate::error::M2lError>)
    ensures
        r is Ok <==> valid_order(expansion_order as int),
        r matches Ok(s) ==> s == 128 * size_real_of(expansion_order as int),
        r matches Err(e) ==> e == (crate::error::M2lError::InvalidExpansionOrder {
            expansion_order,
        }),
{
    let s = size_real(expansion_order)?;
    Ok(NUM_SIBLINGS * NUM_KERNELS * s)
}

} // verus!
