use vstd::prelude::*;
use crate::config::{size_real, size_real_of, valid_order, NUM_KERNELS, NUM_SIBLINGS};
use crate::error::M2lError;
use std::collections::HashMap;
use crate::hadamard::result_index;

verus! {

broadcast use vstd::std_specs::hash::group_hash_axioms;

/// Halo slot `u` of an octet: child `u % 8` of the parent's neighbour in slot
/// `u / 8`, or nothing where that neighbour does not exist.
pub open spec fn halo_slot(parent_neighbours: Seq<Option<[u64; 8]>>, u: int) -> Option<u64> {
    match parent_neighbours[u / 8] {
        Some(children) => Some(children@[u % 8]),
        None => None,
    }
}

/// Lays out an octet's halo: the children of each of the parent's neighbour
/// slots in turn, eight per slot, with an empty slot for each child of a
/// neighbour that does not exist (at the domain boundary).
pub fn halo_slots(parent_neighbours: &Vec<Option<[u64; 8]>>) -> (r: Vec<Option<u64>>)
    ensures
        r@.len() == 8 * parent_neighbours@.len(),
        forall|u: int| 0 <= u < r@.len() ==> #[trigger] r@[u] == halo_slot(parent_neighbours@, u),
{
    let mut r: Vec<Option<u64>> = Vec::new();
    let mut a: usize = 0;
    while a < parent_neighbours.len()
        invariant
            a <= parent_neighbours@.len(),
            r@.len() == 8 * a,
            forall|u: int| 0 <= u < r@.len() ==> #[trigger] r@[u] == halo_slot(parent_neighbours@, u),
        decreases parent_neighbours@.len() - a,
    {
        let mut b: usize = 0;
        while b < NUM_SIBLINGS
            invariant
                a < parent_neighbours@.len(),
                b <= 8,
                r@.len() == 8 * a + b,
                forall|u: int| 0 <= u < r@.len() ==> #[trigger] r@[u] == halo_slot(parent_neighbours@, u),
            decreases 8 - b,
        {
            let slot = match &parent_neighbours[a] {
                Some(children) => Some(children[b]),
                None => None,
            };
            proof {
                lemma_term_position(a as int, b as int);
                assert(8 * a + b == a * 8 + b);
            }
            r.push(slot);
            b += 1;
        }
        a += 1;
    }
    r
}

/// One halo buffer to scatter into: the halo slot, the buffer's position in
/// the store of local buffers, and the siblings whose products it receives.
#[derive(Debug, PartialEq, Eq)]
pub struct ScatterTarget {
    pub slot: usize,
    pub buffer: usize,
    pub sources: Vec<usize>,
}

/// What one sibling octet reads and writes: the store positions of its eight
/// multipole buffers, and its scatter targets in slot order.
#[derive(Debug, PartialEq, Eq)]
pub struct OctetPlan {
    pub siblings: Vec<usize>,
    pub targets: Vec<ScatterTarget>,
}

/// The halo slots below `n` that hold a node, in slot order.
pub open spec fn present_slots(halo: Seq<Option<u64>>, n: int) -> Seq<usize>
    decreases n,
{
    if n <= 0 {
        Seq::empty()
    } else if halo[n - 1] is Some {
        present_slots(halo, n - 1).push((n - 1) as usize)
    } else {
        present_slots(halo, n - 1)
    }
}

/// The octet can be planned: eight children with multipole buffers, a table
/// entry per halo slot, and for each slot that holds a node a local buffer and
/// sibling indices in `0..8`.
pub open spec fn octet_plannable(
    children: Seq<u64>,
    halo: Seq<Option<u64>>,
    table: Seq<Vec<usize>>,
    multipole_index: Map<u64, usize>,
    local_index: Map<u64, usize>,
) -> bool {
    &&& children.len() == 8
    &&& forall|k: int| 0 <= k < 8 ==> multipole_index.contains_key(#[trigger] children[k])
    &&& table.len() == halo.len()
    &&& forall|j: int|
        0 <= j < halo.len() && #[trigger] halo[j] is Some ==> local_index.contains_key(halo[j]->0)
            && sources_in_octet(table[j]@)
}

/// `plan` is the plan of the octet: its siblings' multipole positions, and a
/// target for each halo slot that holds a node, and for no other.
pub open spec fn is_octet_plan(
    plan: OctetPlan,
    children: Seq<u64>,
    halo: Seq<Option<u64>>,
    table: Seq<Vec<usize>>,
    multipole_index: Map<u64, usize>,
    local_index: Map<u64, usize>,
) -> bool {
    let slots = present_slots(halo, halo.len() as int);
    &&& plan.siblings@.len() == 8
    &&& forall|k: int| 0 <= k < 8 ==> #[trigger] plan.siblings@[k] == multipole_index[children[k]]
    &&& plan.targets@.len() == slots.len()
    &&& forall|t: int|
        0 <= t < slots.len() ==> {
            let target = #[trigger] plan.targets@[t];
            &&& target.slot == slots[t]
            &&& target.buffer == local_index[halo[slots[t] as int]->0]
            &&& target.sources@ == table[slots[t] as int]@
        }
}

/// Plans one sibling octet: finds the multipole buffers of its eight
/// `children` and, for each halo slot that holds a node, that node's local
/// buffer and the table's list of siblings to scatter from. Empty halo slots
/// are skipped without a lookup. A node without a buffer, a table of another
/// length than the halo, or a sibling index outside the octet is an error.
pub fn plan_octet(
    children: &Vec<u64>,
    halo: &Vec<Option<u64>>,
    table: &Vec<Vec<usize>>,
    multipole_index: &HashMap<u64, usize>,
    local_index: &HashMap<u64, usize>,
) -> (r: Result<OctetPlan, M2lError>)
    ensures
        r is Ok <==> octet_plannable(children@, halo@, table@, multipole_index@, local_index@),
        r matches Ok(plan) ==> is_octet_plan(
            plan,
            children@,
            halo@,
            table@,
            multipole_index@,
            local_index@,
        ),
        r matches Err(e) ==> match e {
            M2lError::SiblingCount { found } => found == children.len() && found != 8,
            M2lError::BufferMissing { key } => (children@.contains(key) && !multipole_index@.contains_key(
                key,
            )) || (halo@.contains(Some(key)) && !local_index@.contains_key(key)),
            M2lError::ScatterTableLength { expected, found } => expected == halo.len() && found
                == table.len() && found != expected,
            M2lError::ScatterSibling { slot, sibling } => slot < halo.len() && halo@[slot as int] is Some
                && table@[slot as int]@.contains(sibling) && sibling >= 8,
            _ => false,
        },
{
    if children.len() != NUM_SIBLINGS {
        return Err(M2lError::SiblingCount { found: children.len() });
    }
    let mut siblings: Vec<usize> = Vec::new();
    let mut k: usize = 0;
    while k < NUM_SIBLINGS
        invariant
            children.len() == 8,
            k <= 8,
            siblings@.len() == k,
            forall|k2: int| 0 <= k2 < k ==> multipole_index@.contains_key(#[trigger] children@[k2]),
            forall|k2: int| 0 <= k2 < k ==> #[trigger] siblings@[k2] == multipole_index@[children@[k2]],
        decreases 8 - k,
    {
        match multipole_index.get(&children[k]) {
            Some(position) => siblings.push(*position),
            None => {
                assert(children@[k as int] == children@[k as int]);
                return Err(M2lError::BufferMissing { key: children[k] });
            },
        }
        k += 1;
    }
    if table.len() != halo.len() {
        return Err(M2lError::ScatterTableLength { expected: halo.len(), found: table.len() });
    }
    let mut targets: Vec<ScatterTarget> = Vec::new();
    let mut j: usize = 0;
    while j < halo.len()
        invariant
            children.len() == 8,
            forall|k2: int| 0 <= k2 < 8 ==> multipole_index@.contains_key(#[trigger] children@[k2]),
            table@.len() == halo@.len(),
            j <= halo@.len(),
            forall|j2: int|
                0 <= j2 < j && #[trigger] halo@[j2] is Some ==> local_index@.contains_key(halo@[j2]->0)
                    && sources_in_octet(table@[j2]@),
            targets@.len() == present_slots(halo@, j as int).len(),
            forall|t: int|
                0 <= t < targets@.len() ==> {
                    let target = #[trigger] targets@[t];
                    let slots = present_slots(halo@, j as int);
                    &&& target.slot == slots[t]
                    &&& target.buffer == local_index@[halo@[slots[t] as int]->0]
                    &&& target.sources@ == table@[slots[t] as int]@
                },
        decreases halo@.len() - j,
    {
        match halo[j] {
            None => {},
            Some(key) => {
                let buffer = match local_index.get(&key) {
                    Some(position) => *position,
                    None => {
                        assert(halo@[j as int] == Some(key));
                        return Err(M2lError::BufferMissing { key });
                    },
                };
                let sources = &table[j];
                let mut a: usize = 0;
                let mut copied: Vec<usize> = Vec::new();
                while a < sources.len()
                    invariant
                        j < halo@.len(),
                        table@.len() == halo@.len(),
                        halo@[j as int] == Some(key),
                        sources@ == table@[j as int]@,
                        a <= sources@.len(),
                        copied@ == sources@.take(a as int),
                        forall|a2: int| 0 <= a2 < a ==> #[trigger] sources@[a2] < 8,
                    decreases sources@.len() - a,
                {
                    if sources[a] >= NUM_SIBLINGS {
                        assert(table@[j as int]@[a as int] == sources[a as int]);
                        return Err(M2lError::ScatterSibling { slot: j, sibling: sources[a] });
                    }
                    copied.push(sources[a]);
                    a += 1;
                    assert(copied@ =~= sources@.take(a as int));
                }
                assert(sources@.take(sources@.len() as int) =~= sources@);
                targets.push(ScatterTarget { slot: j, buffer, sources: copied });
            },
        }
        j += 1;
    }
    Ok(OctetPlan { siblings, targets })
}

/// `end` is what adding `terms` one after another, through `plus`, makes of
/// `start`.
pub open spec fn accumulated<T, A: Fn(T, T) -> T>(plus: A, start: T, terms: Seq<T>, end: T) -> bool
    decreases terms.len(),
{
    if terms.len() == 0 {
        end == start
    } else {
        exists|mid: T|
            accumulated(plus, start, terms.drop_last(), mid) && #[trigger] call_ensures(
                plus,
                (mid, terms.last()),
                end,
            )
    }
}

/// What is added at coefficient `j` of a halo buffer: for each listed sibling
/// in turn, its products with the sixteen kernels, in kernel order.
pub open spec fn contribution_terms<T>(products: Seq<T>, sources: Seq<usize>, size_real: int, j: int) -> Seq<T> {
    Seq::new(
        (sources.len() * 16) as nat,
        |u: int| products[result_index(sources[u / 16] as int, u % 16, j, size_real)],
    )
}

/// All listed siblings are in `0..8`.
pub open spec fn sources_in_octet(sources: Seq<usize>) -> bool {
    forall|a: int| 0 <= a < sources.len() ==> #[trigger] sources[a] < 8
}

proof fn lemma_term_position(a: int, i: int)
    requires
        0 <= a,
        0 <= i < 16,
    ensures
        (a * 16 + i) / 16 == a,
        (a * 16 + i) % 16 == i,
{
    vstd::arithmetic::div_mod::lemma_fundamental_div_mod_converse(a * 16 + i, 16, a, i);
}

/// Scatters an octet's Hadamard products into one halo buffer: for each
/// sibling listed for the slot, adds its products with all sixteen kernels,
/// coefficient by coefficient, into `local`. Lengths and sibling indices are
/// checked first; on an error `local` is left as it was.
pub fn scatter_contributions<T: Copy, A: Fn(T, T) -> T>(
    expansion_order: usize,
    local: &mut Vec<T>,
    products: &Vec<T>,
    sources: &Vec<usize>,
    plus: &A,
) -> (r: Result<(), M2lError>)
    requires
        forall|x: T, y: T| call_requires(*plus, (x, y)),
    ensures
        r is Ok <==> valid_order(expansion_order as int) && old(local).len() == size_real_of(
            expansion_order as int,
        ) && products.len() == 128 * size_real_of(expansion_order as int) && sources_in_octet(
            sources@,
        ),
        r is Ok ==> final(local).len() == old(local).len() && forall|j: int|
            0 <= j < old(local).len() ==> accumulated(
                *plus,
                old(local)@[j],
                contribution_terms(products@, sources@, size_real_of(expansion_order as int), j),
                #[trigger] final(local)@[j],
            ),
        r is Err ==> final(local)@ == old(local)@,
        r matches Err(e) ==> match e {
            M2lError::InvalidExpansionOrder { expansion_order: o } => o == expansion_order
                && !valid_order(expansion_order as int),
            M2lError::BufferLength { expected, found } => (expected == size_real_of(
                expansion_order as int,
            ) && found == old(local).len() || expected == 128 * size_real_of(expansion_order as int)
                && found == products.len()) && found != expected,
            M2lError::ScatterSibling { slot, sibling } => slot < sources.len() && sibling
                == sources@[slot as int] && sibling >= 8,
            _ => false,
        },
{
    let s = size_real(expansion_order)?;
    if local.len() != s {
        return Err(M2lError::BufferLength { expected: s, found: local.len() });
    }
    if products.len() != NUM_SIBLINGS * NUM_KERNELS * s {
        return Err(M2lError::BufferLength { expected: NUM_SIBLINGS * NUM_KERNELS * s, found: products.len() });
    }
    let mut a: usize = 0;
    while a < sources.len()
        invariant
            a <= sources.len(),
            forall|a2: int| 0 <= a2 < a ==> #[trigger] sources@[a2] < 8,
        decreases sources.len() - a,
    {
        if sources[a] >= NUM_SIBLINGS {
            return Err(M2lError::ScatterSibling { slot: a, sibling: sources[a] });
        }
        a += 1;
    }
    let ghost sr = s as int;
    let ghost before = local@;
    let mut j: usize = 0;
    while j < s
        invariant
            sr == s,
            j <= s,
            local.len() == s,
            before.len() == s,
            products.len() == 128 * sr,
            128 * sr <= usize::MAX,
            sources_in_octet(sources@),
            forall|x: T, y: T| call_requires(*plus, (x, y)),
            forall|j2: int| j <= j2 < s ==> local@[j2] == before[j2],
            forall|j2: int|
                0 <= j2 < j ==> accumulated(
                    *plus,
                    before[j2],
                    contribution_terms(products@, sources@, sr, j2),
                    #[trigger] local@[j2],
                ),
        decreases s - j,
    {
        let ghost terms = contribution_terms(products@, sources@, sr, j as int);
        let mut acc = local[j];
        let mut a: usize = 0;
        while a < sources.len()
            invariant
                sr == s,
                j < s,
                a <= sources.len(),
                products.len() == 128 * sr,
                128 * sr <= usize::MAX,
                sources_in_octet(sources@),
                forall|x: T, y: T| call_requires(*plus, (x, y)),
                terms == contribution_terms(products@, sources@, sr, j as int),
                accumulated(*plus, before[j as int], terms.take(a * 16), acc),
            decreases sources.len() - a,
        {
            let source = sources[a];
            let mut i: usize = 0;
            while i < NUM_KERNELS
                invariant
                    sr == s,
                    j < s,
                    a < sources.len(),
                    source == sources@[a as int],
                    source < 8,
                    i <= 16,
                    products.len() == 128 * sr,
                    128 * sr <= usize::MAX,
                    forall|x: T, y: T| call_requires(*plus, (x, y)),
                    terms == contribution_terms(products@, sources@, sr, j as int),
                    accumulated(*plus, before[j as int], terms.take(a * 16 + i), acc),
                decreases 16 - i,
            {
                proof {
                    crate::hadamard::lemma_layout_bounds(source as int, i as int, j as int, sr);
                    lemma_term_position(a as int, i as int);
                    assert(source * 16 * s + i * s + j == result_index(source as int, i as int, j as int, sr));
                }
                let term = products[source * NUM_KERNELS * s + i * s + j];
                let ghost prev = acc;
                acc = plus(acc, term);
                proof {
                    let n = a * 16 + i;
                    assert(terms.take(n + 1).drop_last() =~= terms.take(n));
                    assert(terms.take(n + 1).last() == term);
                    assert(accumulated(*plus, before[j as int], terms.take(n + 1).drop_last(), prev)
                        && call_ensures(*plus, (prev, terms.take(n + 1).last()), acc));
                }
                i += 1;
            }
            a += 1;
        }
        proof {
            assert(terms.take(sources.len() * 16) =~= terms);
        }
        local.set(j, acc);
        j += 1;
    }
    Ok(())
}

} // verus!
