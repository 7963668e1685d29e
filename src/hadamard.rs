use vstd::prelude::*;
use crate::config::{size_real, size_real_of, valid_order, NUM_KERNELS, NUM_SIBLINGS};
use crate::buffer::filled;
use crate::error::M2lError;

verus! {

/// Position of coefficient `j` of the product of sibling `k` with kernel `i`
/// in an octet's flat Hadamard result buffer.
pub open spec fn result_index(k: int, i: int, j: int, size_real: int) -> int {
    k * 16 * size_real + i * size_real + j
}

/// Position of coefficient `j` of kernel `i` in the flat kernel table.
pub open spec fn kernel_index(i: int, j: int, size_real: int) -> int {
    i * size_real + j
}

/// Eight sibling buffers of `size_real` coefficients and sixteen kernels of
/// `size_real` coefficients.
pub open spec fn octet_inputs_fit<T>(size_real: int, sibling_set: Seq<Vec<T>>, kernel_data: Seq<T>) -> bool {
    &&& sibling_set.len() == 8
    &&& forall|k: int| 0 <= k < 8 ==> (#[trigger] sibling_set[k]).len() == size_real
    &&& kernel_data.len() == 16 * size_real
}

/// `after` is what one multiply-accumulate of `mac` makes of `before` at every
/// position of the result layout: `after[k, i, j] = mac(before[k, i, j],
/// sibling k [j], kernel i [j])`.
pub open spec fn hadamard_step<T, F: Fn(T, T, T) -> T>(
    mac: F,
    size_real: int,
    sibling_set: Seq<Vec<T>>,
    kernel_data: Seq<T>,
    before: Seq<T>,
    after: Seq<T>,
) -> bool {
    &&& after.len() == before.len()
    &&& forall|k: int, i: int, j: int|
        #![trigger result_index(k, i, j, size_real)]
        0 <= k < 8 && 0 <= i < 16 && 0 <= j < size_real ==> call_ensures(
            mac,
            (
                before[result_index(k, i, j, size_real)],
                sibling_set[k]@[j],
                kernel_data[kernel_index(i, j, size_real)],
            ),
            after[result_index(k, i, j, size_real)],
        )
}

/// Every position of the layout before `offset` holds its multiply-accumulate.
spec fn done_below<T, F: Fn(T, T, T) -> T>(
    mac: F,
    s: int,
    sibling_set: Seq<Vec<T>>,
    kernel_data: Seq<T>,
    before: Seq<T>,
    result: Seq<T>,
    offset: int,
) -> bool {
    forall|k: int, i: int, j: int|
        #![trigger result_index(k, i, j, s)]
        0 <= k < 8 && 0 <= i < 16 && 0 <= j < s && result_index(k, i, j, s) < offset ==> call_ensures(
            mac,
            (before[result_index(k, i, j, s)], sibling_set[k]@[j], kernel_data[kernel_index(i, j, s)]),
            result[result_index(k, i, j, s)],
        )
}

/// A pair kernel computes, on two adjacent coefficients at once, what `mac`
/// computes on each of them.
pub open spec fn pairs_with<T, F: Fn(T, T, T) -> T, G: Fn((T, T), (T, T), (T, T)) -> (T, T)>(
    mac: F,
    mac_pair: G,
) -> bool {
    &&& forall|acc: (T, T), a: (T, T), b: (T, T)| call_requires(mac_pair, (acc, a, b))
    &&& forall|acc: (T, T), a: (T, T), b: (T, T), r: (T, T)|
        #[trigger] call_ensures(mac_pair, (acc, a, b), r) ==> call_ensures(mac, (acc.0, a.0, b.0), r.0)
            && call_ensures(mac, (acc.1, a.1, b.1), r.1)
}

/// `mac` gives one result for given operands.
pub open spec fn deterministic<T, F: Fn(T, T, T) -> T>(mac: F) -> bool {
    forall|acc: T, a: T, b: T, r1: T, r2: T|
        call_ensures(mac, (acc, a, b), r1) && call_ensures(mac, (acc, a, b), r2) ==> r1 == r2
}

/// Errors of the Hadamard engine's input validation, as `check_octet_inputs`
/// reports them, and of a result buffer of the wrong length.
pub open spec fn octet_input_error<T>(
    e: M2lError,
    expansion_order: usize,
    sibling_set: Seq<Vec<T>>,
    kernel_data: Seq<T>,
    result_len: int,
) -> bool {
    match e {
        M2lError::InvalidExpansionOrder { expansion_order: o } => o == expansion_order && !valid_order(
            expansion_order as int,
        ),
        M2lError::SiblingCount { found } => found == sibling_set.len() && found != 8,
        M2lError::SiblingLength { sibling, expected, found } => sibling < sibling_set.len() && expected
            == size_real_of(expansion_order as int) && found == sibling_set[sibling as int].len() && found
            != expected,
        M2lError::KernelLength { expected, found } => expected == 16 * size_real_of(
            expansion_order as int,
        ) && found == kernel_data.len() && found != expected,
        M2lError::BufferLength { expected, found } => expected == 128 * size_real_of(
            expansion_order as int,
        ) && found == result_len && found != expected,
        _ => false,
    }
}

/// Bounds of the flat layout: every position of sibling `k`, kernel `i`,
/// coefficient `j` lies inside the buffers, and positions follow one another.
pub(crate) proof fn lemma_layout_bounds(k: int, i: int, j: int, s: int)
    requires
        0 <= k < 8,
        0 <= i < 16,
        0 <= j < s,
    ensures
        0 <= kernel_index(i, j, s) < 16 * s,
        0 <= result_index(k, i, j, s) < 128 * s,
        result_index(k, i, j, s) + 1 == result_index(k, i, j + 1, s),
{
    assert(0 <= i * s + j < 16 * s) by (nonlinear_arith)
        requires
            0 <= i < 16,
            0 <= j < s,
    ;
    assert(0 <= k * 16 * s + i * s + j < 128 * s) by (nonlinear_arith)
        requires
            0 <= k < 8,
            0 <= i < 16,
            0 <= j < s,
    ;
}

/// How the positions of the flat layout step from one kernel, and one sibling,
/// to the next.
proof fn lemma_layout_steps(k: int, i: int, s: int)
    requires
        0 <= k <= 8,
        0 <= i <= 16,
        s >= 0,
        k < 8 || i == 0,
    ensures
        0 <= kernel_index(i, 0, s) <= 16 * s,
        0 <= result_index(k, i, 0, s) <= 128 * s,
        result_index(k, i, s, s) == result_index(k, i + 1, 0, s),
        result_index(k, 16, 0, s) == result_index(k + 1, 0, 0, s),
        result_index(8, 0, 0, s) == 128 * s,
        result_index(0, 0, 0, s) == 0,
{
    assert(0 <= i * s <= 16 * s) by (nonlinear_arith)
        requires
            0 <= i <= 16,
            s >= 0,
    ;
    assert(0 <= k * 16 * s + i * s <= 128 * s) by (nonlinear_arith)
        requires
            0 <= k <= 8,
            0 <= i <= 16,
            s >= 0,
            k < 8 || i == 0,
    ;
    assert(k * 16 * s + i * s + s == k * 16 * s + (i + 1) * s) by (nonlinear_arith);
    assert(k * 16 * s + 16 * s == (k + 1) * 16 * s) by (nonlinear_arith);
    assert(8 * 16 * s == 128 * s) by (nonlinear_arith);
}

/// Two positions of the layout coincide only for the same sibling, kernel and
/// coefficient.
proof fn lemma_same_position(k1: int, i1: int, j1: int, k2: int, i2: int, j2: int, s: int)
    requires
        0 <= k1 < 8,
        0 <= i1 < 16,
        0 <= j1 < s,
        0 <= k2 < 8,
        0 <= i2 < 16,
        0 <= j2 < s,
        result_index(k1, i1, j1, s) == result_index(k2, i2, j2, s),
    ensures
        k1 == k2,
        i1 == i2,
        j1 == j2,
{
    assert(k1 == k2 && i1 == i2 && j1 == j2) by (nonlinear_arith)
        requires
            0 <= k1 < 8,
            0 <= i1 < 16,
            0 <= j1 < s,
            0 <= k2 < 8,
            0 <= i2 < 16,
            0 <= j2 < s,
            k1 * 16 * s + i1 * s + j1 == k2 * 16 * s + i2 * s + j2,
    ;
}

/// Every position of an octet's result buffer belongs to one sibling, one
/// kernel and one coefficient.
proof fn lemma_position_of(t: int, s: int) -> (kij: (int, int, int))
    requires
        s > 0,
        0 <= t < 128 * s,
    ensures
        0 <= kij.0 < 8,
        0 <= kij.1 < 16,
        0 <= kij.2 < s,
        t == result_index(kij.0, kij.1, kij.2, s),
{
    let block = 16 * s;
    vstd::arithmetic::div_mod::lemma_fundamental_div_mod(t, block);
    let k = t / block;
    let rem = t % block;
    vstd::arithmetic::div_mod::lemma_fundamental_div_mod(rem, s);
    let i = rem / s;
    let j = rem % s;
    assert(0 <= rem < block);
    assert(0 <= k < 8) by (nonlinear_arith)
        requires
            t == block * k + rem,
            0 <= rem < block,
            0 <= t < 128 * s,
            block == 16 * s,
            s > 0,
    ;
    assert(0 <= i < 16) by (nonlinear_arith)
        requires
            rem == s * i + j,
            0 <= j < s,
            0 <= rem < 16 * s,
            s > 0,
    ;
    assert(t == k * 16 * s + i * s + j) by (nonlinear_arith)
        requires
            t == block * k + rem,
            rem == s * i + j,
            block == 16 * s,
    ;
    (k, i, j)
}

/// Validates an octet's inputs against the expansion order before any
/// coefficient is read, and returns `size_real`.
pub fn check_octet_inputs<T>(
    expansion_order: usize,
    sibling_set: &Vec<Vec<T>>,
    kernel_data: &Vec<T>,
) -> (r: Result<usize, M2lError>)
    ensures
        r is Ok <==> valid_order(expansion_order as int) && octet_inputs_fit(
            size_real_of(expansion_order as int),
            sibling_set@,
            kernel_data@,
        ),
        r matches Ok(s) ==> s == size_real_of(expansion_order as int),
        r matches Err(e) ==> match e {
            M2lError::InvalidExpansionOrder { expansion_order: o } => o == expansion_order
                && !valid_order(expansion_order as int),
            M2lError::SiblingCount { found } => found == sibling_set.len() && found != 8,
            M2lError::SiblingLength { sibling, expected, found } => sibling < sibling_set.len()
                && expected == size_real_of(expansion_order as int) && found
                == sibling_set@[sibling as int].len() && found != expected,
            M2lError::KernelLength { expected, found } => expected == 16 * size_real_of(
                expansion_order as int,
            ) && found == kernel_data.len() && found != expected,
            _ => false,
        },
{
    let s = size_real(expansion_order)?;
    if sibling_set.len() != NUM_SIBLINGS {
        return Err(M2lError::SiblingCount { found: sibling_set.len() });
    }
    let mut k: usize = 0;
    while k < NUM_SIBLINGS
        invariant
            k <= 8,
            s == size_real_of(expansion_order as int),
            sibling_set.len() == 8,
            forall|m: int| 0 <= m < k ==> (#[trigger] sibling_set@[m]).len() == s,
        decreases 8 - k,
    {
        if sibling_set[k].len() != s {
            assert(sibling_set@[k as int].len() != s);
            return Err(M2lError::SiblingLength { sibling: k, expected: s, found: sibling_set[k].len() });
        }
        k += 1;
    }
    if kernel_data.len() != NUM_KERNELS * s {
        return Err(M2lError::KernelLength { expected: NUM_KERNELS * s, found: kernel_data.len() });
    }
    Ok(s)
}

/// The engine proper: accumulates (`mac(acc, a, b)`, usually `acc + a * b`)
/// the product of every sibling buffer with every kernel into `result`, at
/// position `k * 16 * size_real + i * size_real + j`. Inputs are validated.
fn hadamard_accumulate_unchecked<T: Copy, F: Fn(T, T, T) -> T>(
    size_real: usize,
    sibling_set: &Vec<Vec<T>>,
    kernel_data: &Vec<T>,
    result: &mut Vec<T>,
    mac: &F,
)
    requires
        128 * size_real <= usize::MAX,
        octet_inputs_fit(size_real as int, sibling_set@, kernel_data@),
        old(result).len() == 128 * size_real,
        forall|acc: T, a: T, b: T| call_requires(*mac, (acc, a, b)),
    ensures
        hadamard_step(*mac, size_real as int, sibling_set@, kernel_data@, old(result)@, final(result)@),
{
    let ghost s = size_real as int;
    let ghost before = result@;
    proof {
        lemma_layout_steps(0, 0, s);
    }
    let mut k: usize = 0;
    let mut offset: usize = 0;
    while k < NUM_SIBLINGS
        invariant
            k <= 8,
            s == size_real,
            offset == result_index(k as int, 0, 0, s),
            result.len() == before.len(),
            128 * s <= usize::MAX,
            octet_inputs_fit(s, sibling_set@, kernel_data@),
            before.len() == 128 * s,
            forall|acc: T, a: T, b: T| call_requires(*mac, (acc, a, b)),
            forall|u: int| offset <= u < before.len() ==> result@[u] == before[u],
            done_below(*mac, s, sibling_set@, kernel_data@, before, result@, offset as int),
        decreases 8 - k,
    {
        let signal = &sibling_set[k];
        let mut i: usize = 0;
        while i < NUM_KERNELS
            invariant
                k < 8,
                i <= 16,
                s == size_real,
                offset == result_index(k as int, i as int, 0, s),
                signal@ == sibling_set@[k as int]@,
                result.len() == before.len(),
                128 * s <= usize::MAX,
                octet_inputs_fit(s, sibling_set@, kernel_data@),
                before.len() == 128 * s,
                forall|acc: T, a: T, b: T| call_requires(*mac, (acc, a, b)),
                forall|u: int| offset <= u < before.len() ==> result@[u] == before[u],
                done_below(*mac, s, sibling_set@, kernel_data@, before, result@, offset as int),
            decreases 16 - i,
        {
            proof {
                lemma_layout_steps(k as int, i as int, s);
            }
            let kernel_offset = i * size_real;
            let mut j: usize = 0;
            while j < size_real
                invariant
                    k < 8,
                    i < 16,
                    j <= s,
                    s == size_real,
                    kernel_offset == kernel_index(i as int, 0, s),
                    offset == result_index(k as int, i as int, j as int, s),
                    signal@ == sibling_set@[k as int]@,
                    result.len() == before.len(),
                    128 * s <= usize::MAX,
                    octet_inputs_fit(s, sibling_set@, kernel_data@),
                    before.len() == 128 * s,
                    forall|acc: T, a: T, b: T| call_requires(*mac, (acc, a, b)),
                    forall|u: int| offset <= u < before.len() ==> result@[u] == before[u],
                    done_below(*mac, s, sibling_set@, kernel_data@, before, result@, offset as int),
                decreases s - j,
            {
                proof {
                    lemma_layout_bounds(k as int, i as int, j as int, s);
                }
                let acc = result[offset];
                let value = mac(acc, signal[j], kernel_data[kernel_offset + j]);
                result.set(offset, value);
                proof {
                    assert forall|k2: int, i2: int, j2: int|
                        #![trigger result_index(k2, i2, j2, s)]
                        0 <= k2 < 8 && 0 <= i2 < 16 && 0 <= j2 < s && result_index(k2, i2, j2, s)
                            < offset + 1 implies call_ensures(
                        *mac,
                        (
                            before[result_index(k2, i2, j2, s)],
                            sibling_set@[k2]@[j2],
                            kernel_data@[kernel_index(i2, j2, s)],
                        ),
                        result@[result_index(k2, i2, j2, s)],
                    ) by {
                        if result_index(k2, i2, j2, s) == offset {
                            lemma_same_position(k2, i2, j2, k as int, i as int, j as int, s);
                        }
                    }
                }
                j += 1;
                offset += 1;
            }
            proof {
                lemma_layout_steps(k as int, i as int, s);
            }
            i += 1;
        }
        proof {
            lemma_layout_steps(k as int, 0, s);
        }
        k += 1;
    }
    proof {
        assert forall|k2: int, i2: int, j2: int|
            #![trigger result_index(k2, i2, j2, s)]
            0 <= k2 < 8 && 0 <= i2 < 16 && 0 <= j2 < s implies result_index(k2, i2, j2, s) < offset by {
            lemma_layout_bounds(k2, i2, j2, s);
        }
    }
}

/// The engine with the coefficients taken two at a time, as a vector
/// register holds them, through `mac_pair`; a last odd coefficient goes
/// through `mac` alone.
fn hadamard_accumulate_paired<T: Copy, F: Fn(T, T, T) -> T, G: Fn((T, T), (T, T), (T, T)) -> (T, T)>(
    size_real: usize,
    sibling_set: &Vec<Vec<T>>,
    kernel_data: &Vec<T>,
    result: &mut Vec<T>,
    mac: &F,
    mac_pair: &G,
)
    requires
        128 * size_real <= usize::MAX,
        octet_inputs_fit(size_real as int, sibling_set@, kernel_data@),
        old(result).len() == 128 * size_real,
        forall|acc: T, a: T, b: T| call_requires(*mac, (acc, a, b)),
        pairs_with(*mac, *mac_pair),
    ensures
        hadamard_step(*mac, size_real as int, sibling_set@, kernel_data@, old(result)@, final(result)@),
{
    let ghost s = size_real as int;
    let ghost before = result@;
    proof {
        lemma_layout_steps(0, 0, s);
    }
    let mut k: usize = 0;
    let mut offset: usize = 0;
    while k < NUM_SIBLINGS
        invariant
            k <= 8,
            s == size_real,
            offset == result_index(k as int, 0, 0, s),
            result.len() == before.len(),
            128 * s <= usize::MAX,
            octet_inputs_fit(s, sibling_set@, kernel_data@),
            before.len() == 128 * s,
            forall|acc: T, a: T, b: T| call_requires(*mac, (acc, a, b)),
            pairs_with(*mac, *mac_pair),
            forall|u: int| offset <= u < before.len() ==> result@[u] == before[u],
            done_below(*mac, s, sibling_set@, kernel_data@, before, result@, offset as int),
        decreases 8 - k,
    {
        let signal = &sibling_set[k];
        let mut i: usize = 0;
        while i < NUM_KERNELS
            invariant
                k < 8,
                i <= 16,
                s == size_real,
                offset == result_index(k as int, i as int, 0, s),
                signal@ == sibling_set@[k as int]@,
                result.len() == before.len(),
                128 * s <= usize::MAX,
                octet_inputs_fit(s, sibling_set@, kernel_data@),
                before.len() == 128 * s,
                forall|acc: T, a: T, b: T| call_requires(*mac, (acc, a, b)),
                pairs_with(*mac, *mac_pair),
                forall|u: int| offset <= u < before.len() ==> result@[u] == before[u],
                done_below(*mac, s, sibling_set@, kernel_data@, before, result@, offset as int),
            decreases 16 - i,
        {
            proof {
                lemma_layout_steps(k as int, i as int, s);
            }
            let kernel_offset = i * size_real;
            let mut j: usize = 0;
            while j < size_real
                invariant
                    k < 8,
                    i < 16,
                    j <= s,
                    s == size_real,
                    kernel_offset == kernel_index(i as int, 0, s),
                    offset == result_index(k as int, i as int, j as int, s),
                    signal@ == sibling_set@[k as int]@,
                    result.len() == before.len(),
                    128 * s <= usize::MAX,
                    octet_inputs_fit(s, sibling_set@, kernel_data@),
                    before.len() == 128 * s,
                    forall|acc: T, a: T, b: T| call_requires(*mac, (acc, a, b)),
                    pairs_with(*mac, *mac_pair),
                    forall|u: int| offset <= u < before.len() ==> result@[u] == before[u],
                    done_below(*mac, s, sibling_set@, kernel_data@, before, result@, offset as int),
                decreases s - j,
            {
                proof {
                    lemma_layout_bounds(k as int, i as int, j as int, s);
                }
                if j + 1 < size_real {
                    proof {
                        lemma_layout_bounds(k as int, i as int, j + 1, s);
                    }
                    let acc = (result[offset], result[offset + 1]);
                    let a = (signal[j], signal[j + 1]);
                    let b = (kernel_data[kernel_offset + j], kernel_data[kernel_offset + j + 1]);
                    let pair = mac_pair(acc, a, b);
                    result.set(offset, pair.0);
                    result.set(offset + 1, pair.1);
                    proof {
                        assert forall|k2: int, i2: int, j2: int|
                            #![trigger result_index(k2, i2, j2, s)]
                            0 <= k2 < 8 && 0 <= i2 < 16 && 0 <= j2 < s && result_index(k2, i2, j2, s)
                                < offset + 2 implies call_ensures(
                            *mac,
                            (
                                before[result_index(k2, i2, j2, s)],
                                sibling_set@[k2]@[j2],
                                kernel_data@[kernel_index(i2, j2, s)],
                            ),
                            result@[result_index(k2, i2, j2, s)],
                        ) by {
                            if result_index(k2, i2, j2, s) == offset {
                                lemma_same_position(k2, i2, j2, k as int, i as int, j as int, s);
                            } else if result_index(k2, i2, j2, s) == offset + 1 {
                                lemma_same_position(k2, i2, j2, k as int, i as int, j + 1, s);
                            }
                        }
                    }
                    j += 2;
                    offset += 2;
                } else {
                    let acc = result[offset];
                    let value = mac(acc, signal[j], kernel_data[kernel_offset + j]);
                    result.set(offset, value);
                    proof {
                        assert forall|k2: int, i2: int, j2: int|
                            #![trigger result_index(k2, i2, j2, s)]
                            0 <= k2 < 8 && 0 <= i2 < 16 && 0 <= j2 < s && result_index(k2, i2, j2, s)
                                < offset + 1 implies call_ensures(
                            *mac,
                            (
                                before[result_index(k2, i2, j2, s)],
                                sibling_set@[k2]@[j2],
                                kernel_data@[kernel_index(i2, j2, s)],
                            ),
                            result@[result_index(k2, i2, j2, s)],
                        ) by {
                            if result_index(k2, i2, j2, s) == offset {
                                lemma_same_position(k2, i2, j2, k as int, i as int, j as int, s);
                            }
                        }
                    }
                    j += 1;
                    offset += 1;
                }
            }
            proof {
                lemma_layout_steps(k as int, i as int, s);
            }
            i += 1;
        }
        proof {
            lemma_layout_steps(k as int, 0, s);
        }
        k += 1;
    }
    proof {
        assert forall|k2: int, i2: int, j2: int|
            #![trigger result_index(k2, i2, j2, s)]
            0 <= k2 < 8 && 0 <= i2 < 16 && 0 <= j2 < s implies result_index(k2, i2, j2, s) < offset by {
            lemma_layout_bounds(k2, i2, j2, s);
        }
    }
}

/// Accumulates (`+=`, through `mac(acc, a, b)`, usually `acc + a * b`) the
/// elementwise product of each of the eight sibling buffers with each of the
/// sixteen kernels into `result`, at `k * 16 * size_real + i * size_real + j`.
/// Lengths are checked first; on an error `result` is left as it was.
pub fn hadamard_product_accumulate<T: Copy, F: Fn(T, T, T) -> T>(
    expansion_order: usize,
    sibling_set: &Vec<Vec<T>>,
    kernel_data: &Vec<T>,
    result: &mut Vec<T>,
    mac: &F,
) -> (r: Result<(), M2lError>)
    requires
        forall|acc: T, a: T, b: T| call_requires(*mac, (acc, a, b)),
    ensures
        r is Ok <==> valid_order(expansion_order as int) && octet_inputs_fit(
            size_real_of(expansion_order as int),
            sibling_set@,
            kernel_data@,
        ) && old(result).len() == 128 * size_real_of(expansion_order as int),
        r is Ok ==> hadamard_step(
            *mac,
            size_real_of(expansion_order as int),
            sibling_set@,
            kernel_data@,
            old(result)@,
            final(result)@,
        ),
        r is Err ==> final(result)@ == old(result)@,
        r matches Err(e) ==> octet_input_error(
            e,
            expansion_order,
            sibling_set@,
            kernel_data@,
            old(result).len() as int,
        ),
{
    let s = check_octet_inputs(expansion_order, sibling_set, kernel_data)?;
    if result.len() != 128 * s {
        return Err(M2lError::BufferLength { expected: 128 * s, found: result.len() });
    }
    hadamard_accumulate_unchecked(s, sibling_set, kernel_data, result, mac);
    Ok(())
}

/// The Hadamard products of an octet in a fresh buffer: every position starts
/// at `zero` and receives one multiply-accumulate, so that with
/// `mac(acc, a, b) = acc + a * b` entry `k * 16 * size_real + i * size_real + j`
/// is sibling `k`'s coefficient `j` times kernel `i`'s coefficient `j`.
pub fn hadamard_product_naive<T: Copy, F: Fn(T, T, T) -> T>(
    expansion_order: usize,
    sibling_set: &Vec<Vec<T>>,
    kernel_data: &Vec<T>,
    zero: T,
    mac: &F,
) -> (r: Result<Vec<T>, M2lError>)
    requires
        forall|acc: T, a: T, b: T| call_requires(*mac, (acc, a, b)),
    ensures
        r is Ok <==> valid_order(expansion_order as int) && octet_inputs_fit(
            size_real_of(expansion_order as int),
            sibling_set@,
            kernel_data@,
        ),
        r matches Ok(v) ==> hadamard_step(
            *mac,
            size_real_of(expansion_order as int),
            sibling_set@,
            kernel_data@,
            Seq::new((128 * size_real_of(expansion_order as int)) as nat, |u: int| zero),
            v@,
        ),
        r matches Err(e) ==> octet_input_error(
            e,
            expansion_order,
            sibling_set@,
            kernel_data@,
            128 * size_real_of(expansion_order as int),
        ),
{
    let s = check_octet_inputs(expansion_order, sibling_set, kernel_data)?;
    let mut result = filled(zero, 128 * s);
    hadamard_accumulate_unchecked(s, sibling_set, kernel_data, &mut result, mac);
    Ok(result)
}

/// The vectorised Hadamard product of an octet: the same result layout and
/// the same value at every position as `hadamard_product_naive`, with the
/// coefficients taken in pairs through `mac_pair` (a vector kernel that
/// multiplies two complex numbers at once) and an odd last coefficient of
/// each kernel through `mac`.
pub fn hadamard_product_simd<T: Copy, F: Fn(T, T, T) -> T, G: Fn((T, T), (T, T), (T, T)) -> (T, T)>(
    expansion_order: usize,
    sibling_set: &Vec<Vec<T>>,
    kernel_data: &Vec<T>,
    zero: T,
    mac: &F,
    mac_pair: &G,
) -> (r: Result<Vec<T>, M2lError>)
    requires
        forall|acc: T, a: T, b: T| call_requires(*mac, (acc, a, b)),
        pairs_with(*mac, *mac_pair),
    ensures
        r is Ok <==> valid_order(expansion_order as int) && octet_inputs_fit(
            size_real_of(expansion_order as int),
            sibling_set@,
            kernel_data@,
        ),
        r matches Ok(v) ==> hadamard_step(
            *mac,
            size_real_of(expansion_order as int),
            sibling_set@,
            kernel_data@,
            Seq::new((128 * size_real_of(expansion_order as int)) as nat, |u: int| zero),
            v@,
        ),
        r matches Err(e) ==> octet_input_error(
            e,
            expansion_order,
            sibling_set@,
            kernel_data@,
            128 * size_real_of(expansion_order as int),
        ),
{
    let s = check_octet_inputs(expansion_order, sibling_set, kernel_data)?;
    let mut result = filled(zero, 128 * s);
    hadamard_accumulate_paired(s, sibling_set, kernel_data, &mut result, mac, mac_pair);
    Ok(result)
}

/// With a multiply-accumulate that gives one result for given operands, the
/// vectorised engine's buffer equals the naive engine's: both are the one
/// buffer that holds `mac(zero, sibling k [j], kernel i [j])` at each position.
pub proof fn lemma_simd_matches_naive<T, F: Fn(T, T, T) -> T>(
    mac: F,
    expansion_order: int,
    sibling_set: Seq<Vec<T>>,
    kernel_data: Seq<T>,
    zero: T,
    naive: Seq<T>,
    simd: Seq<T>,
)
    requires
        deterministic(mac),
        valid_order(expansion_order),
        hadamard_step(
            mac,
            size_real_of(expansion_order),
            sibling_set,
            kernel_data,
            Seq::new((128 * size_real_of(expansion_order)) as nat, |u: int| zero),
            naive,
        ),
        hadamard_step(
            mac,
            size_real_of(expansion_order),
            sibling_set,
            kernel_data,
            Seq::new((128 * size_real_of(expansion_order)) as nat, |u: int| zero),
            simd,
        ),
    ensures
        naive == simd,
{
    let s = size_real_of(expansion_order);
    crate::config::lemma_size_real_closed_form(expansion_order);
    assert forall|t: int| 0 <= t < naive.len() implies naive[t] == simd[t] by {
        let (k, i, j) = lemma_position_of(t, s);
        assert(result_index(k, i, j, s) == t);
    }
    assert(naive =~= simd);
}

/// Accumulation, not overwriting: with exact arithmetic (integer
/// coefficients and `mac(acc, a, b) = acc + a * b`), one pass on a zeroed
/// buffer gives each product, and a second pass on the same buffer doubles
/// every entry.
pub proof fn lemma_accumulate_twice_doubles<F: Fn(i64, i64, i64) -> i64>(
    mac: F,
    expansion_order: int,
    sibling_set: Seq<Vec<i64>>,
    kernel_data: Seq<i64>,
    once: Seq<i64>,
    twice: Seq<i64>,
)
    requires
        forall|acc: i64, a: i64, b: i64, r: i64| call_ensures(mac, (acc, a, b), r) ==> r == acc + a * b,
        valid_order(expansion_order),
        hadamard_step(
            mac,
            size_real_of(expansion_order),
            sibling_set,
            kernel_data,
            Seq::new((128 * size_real_of(expansion_order)) as nat, |u: int| 0i64),
            once,
        ),
        hadamard_step(mac, size_real_of(expansion_order), sibling_set, kernel_data, once, twice),
    ensures
        twice.len() == once.len(),
        forall|k: int, i: int, j: int|
            0 <= k < 8 && 0 <= i < 16 && 0 <= j < size_real_of(expansion_order) ==> once[#[trigger] result_index(
                k,
                i,
                j,
                size_real_of(expansion_order),
            )] == sibling_set[k]@[j] * kernel_data[kernel_index(i, j, size_real_of(expansion_order))],
        forall|t: int| 0 <= t < once.len() ==> #[trigger] twice[t] == 2 * once[t],
{
    let s = size_real_of(expansion_order);
    crate::config::lemma_size_real_closed_form(expansion_order);
    assert forall|k: int, i: int, j: int|
        0 <= k < 8 && 0 <= i < 16 && 0 <= j < s implies once[#[trigger] result_index(k, i, j, s)]
        == sibling_set[k]@[j] * kernel_data[kernel_index(i, j, s)] by {
        lemma_layout_bounds(k, i, j, s);
    }
    assert forall|t: int| 0 <= t < once.len() implies #[trigger] twice[t] == 2 * once[t] by {
        let (k, i, j) = lemma_position_of(t, s);
        assert(result_index(k, i, j, s) == t);
    }
}

} // verus!
