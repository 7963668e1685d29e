use vstd::prelude::*;
use crate::config::{size_real, size_real_of, valid_order};
use crate::error::M2lError;

verus! {

/// A vector of `len` copies of `value`.
pub fn filled<T: Copy>(value: T, len: usize) -> (r: Vec<T>)
    ensures
        r@ == Seq::new(len as nat, |u: int| value),
{
    let mut r: Vec<T> = Vec::with_capacity(len);
    let mut u: usize = 0;
    while u < len
        invariant
            u <= len,
            r@ == Seq::new(u as nat, |m: int| value),
        decreases len - u,
    {
        r.push(value);
        u += 1;
        assert(r@ =~= Seq::new(u as nat, |m: int| value));
    }
    r
}

/// A frequency-domain buffer (multipole or local) for the expansion order:
/// `size_real` coefficients, each set to `value`.
pub fn frequency_buffer<T: Copy>(expansion_order: usize, value: T) -> (r: Result<Vec<T>, M2lError>)
    ensures
        r is Ok <==> valid_order(expansion_order as int),
        r matches Ok(v) ==> v@ == Seq::new(size_real_of(expansion_order as int) as nat, |u: int| value),
        r matches Err(e) ==> e == (M2lError::InvalidExpansionOrder { expansion_order }),
{
    let s = size_real(expansion_order)?;
    Ok(filled(value, s))
}

/// All rows hold at least as many entries as the first one.
pub open spec fn rows_cover_first<T>(data: Seq<Vec<T>>) -> bool {
    data.len() > 0 ==> forall|j: int| 0 <= j < data.len() ==> (#[trigger] data[j]).len() >= data[0].len()
}

/// Interleaves a set of buffers: entry `i` of buffer `j` goes to position
/// `i * data.len() + j`, for `i` below the first buffer's length.
pub fn transpose<T: Copy>(data: &Vec<Vec<T>>) -> (r: Vec<T>)
    requires
        rows_cover_first(data@),
        data.len() * (if data.len() == 0 { 0 } else { data@[0].len() }) <= usize::MAX,
    ensures
        data.len() == 0 ==> r@.len() == 0,
        data.len() > 0 ==> r@.len() == data.len() * data@[0].len(),
        forall|i: int, j: int|
            0 <= i && data.len() > 0 && i < data@[0].len() && 0 <= j < data.len() ==> r@[i * data.len() + j]
                == #[trigger] data@[j]@[i],
{
    let outer_len = data.len();
    if outer_len == 0 {
        return Vec::new();
    }
    let inner_len = data[0].len();
    let mut transposed: Vec<T> = Vec::with_capacity(inner_len * outer_len);
    let mut i: usize = 0;
    while i < inner_len
        invariant
            outer_len == data.len(),
            outer_len > 0,
            inner_len == data@[0].len(),
            rows_cover_first(data@),
            outer_len * inner_len <= usize::MAX,
            i <= inner_len,
            transposed@.len() == i * outer_len,
            forall|i2: int, j2: int|
                0 <= i2 < i && 0 <= j2 < outer_len ==> transposed@[i2 * outer_len + j2]
                    == #[trigger] data@[j2]@[i2],
        decreases inner_len - i,
    {
        let mut j: usize = 0;
        while j < outer_len
            invariant
                outer_len == data.len(),
                outer_len > 0,
                inner_len == data@[0].len(),
                rows_cover_first(data@),
                outer_len * inner_len <= usize::MAX,
                i < inner_len,
                j <= outer_len,
                transposed@.len() == i * outer_len + j,
                forall|i2: int, j2: int|
                    0 <= i2 < i && 0 <= j2 < outer_len ==> transposed@[i2 * outer_len + j2]
                        == #[trigger] data@[j2]@[i2],
                forall|j2: int| 0 <= j2 < j ==> transposed@[i * outer_len + j2] == #[trigger] data@[j2]@[i as int],
            decreases outer_len - j,
        {
            assert(data@[j as int].len() >= data@[0].len());
            transposed.push(data[j][i]);
            proof {
                assert forall|i2: int, j2: int|
                    0 <= i2 < i && 0 <= j2 < outer_len implies transposed@[i2 * outer_len + j2]
                        == #[trigger] data@[j2]@[i2] by {
                    lemma_row_before(i2, j2, i as int, outer_len as int);
                }
            }
            j += 1;
        }
        proof {
            assert forall|i2: int, j2: int|
                0 <= i2 < i + 1 && 0 <= j2 < outer_len implies transposed@[i2 * outer_len + j2]
                    == #[trigger] data@[j2]@[i2] by {
                if i2 == i {
                } else {
                }
            }
            assert((i + 1) * outer_len == i * outer_len + outer_len) by (nonlinear_arith);
            assert((i + 1) * outer_len <= inner_len * outer_len) by (nonlinear_arith)
                requires
                    i + 1 <= inner_len,
            ;
        }
        i += 1;
    }
    transposed
}

/// Rows before row `i` end before row `i` starts.
proof fn lemma_row_before(i2: int, j2: int, i: int, n: int)
    requires
        0 <= i2 < i,
        0 <= j2 < n,
    ensures
        i2 * n + j2 < i * n,
{
    assert(i2 * n + j2 < i * n) by (nonlinear_arith)
        requires
            0 <= i2 < i,
            0 <= j2 < n,
    ;
}

} // verus!
