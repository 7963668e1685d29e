use vstd::prelude::*;
use std::collections::HashMap;
use crate::error::M2lError;

verus! {

broadcast use vstd::std_specs::hash::group_hash_axioms;

/// The halo-child index map: each halo child's key to its slot, filled in
/// halo order, so that a key held twice keeps its later slot.
pub open spec fn halo_index_map(halo_children: Seq<u64>) -> Map<u64, usize>
    decreases halo_children.len(),
{
    if halo_children.len() == 0 {
        Map::empty()
    } else {
        halo_index_map(halo_children.drop_last()).insert(
            halo_children.last(),
            (halo_children.len() - 1) as usize,
        )
    }
}

/// Number of members of `list` whose slot under `slots` is `j`.
pub open spec fn slot_count(slots: Map<u64, usize>, list: Seq<u64>, j: int) -> nat
    decreases list.len(),
{
    if list.len() == 0 {
        0
    } else {
        slot_count(slots, list.drop_last(), j) + if slots.contains_key(list.last()) && slots[list.last()]
            == j {
            1nat
        } else {
            0nat
        }
    }
}

/// The entries of slot `j` contributed by the first `n` siblings: sibling `i`
/// once for each member of its interaction list that sits in slot `j`, in
/// sibling order.
pub open spec fn slot_entries(slots: Map<u64, usize>, lists: Seq<Vec<u64>>, j: int, n: int) -> Seq<usize>
    decreases n,
{
    if n <= 0 {
        Seq::empty()
    } else {
        slot_entries(slots, lists, j, n - 1) + Seq::new(
            slot_count(slots, lists[n - 1]@, j),
            |u: int| (n - 1) as usize,
        )
    }
}

/// Every member of every interaction list is a halo child.
pub open spec fn lists_within_halo(halo_children: Seq<u64>, lists: Seq<Vec<u64>>) -> bool {
    forall|i: int, u: int|
        0 <= i < lists.len() && 0 <= u < lists[i]@.len() ==> halo_index_map(halo_children).contains_key(
            #[trigger] lists[i]@[u],
        )
}

/// The scatter-displacement table: for each halo slot, which siblings scatter
/// into it.
pub open spec fn scatter_table_of(halo_children: Seq<u64>, lists: Seq<Vec<u64>>) -> Seq<Seq<usize>> {
    Seq::new(
        halo_children.len(),
        |j: int| slot_entries(halo_index_map(halo_children), lists, j, lists.len() as int),
    )
}

proof fn lemma_halo_index_map_bounds(halo_children: Seq<u64>)
    ensures
        forall|key: u64| #[trigger]
            halo_index_map(halo_children).contains_key(key) ==> halo_index_map(halo_children)[key]
                < halo_children.len(),
    decreases halo_children.len(),
{
    if halo_children.len() > 0 {
        let rest = halo_children.drop_last();
        lemma_halo_index_map_bounds(rest);
        assert forall|key: u64| #[trigger]
            halo_index_map(halo_children).contains_key(key) implies halo_index_map(halo_children)[key]
                < halo_children.len() by {
            if key != halo_children.last() {
                assert(halo_index_map(rest).contains_key(key));
            }
        }
    }
}

/// Builds the scatter-displacement table of a sibling octet. `halo_children`
/// lists the children of the parent's neighbours in slot order;
/// `interaction_lists[i]` is sibling `i`'s interaction list (the halo children
/// not adjacent to it). Slot `j` of the table lists, in sibling order, each
/// sibling whose interaction list holds halo child `j`. A member that is not a
/// halo child breaks the octree's topology assumptions and is reported.
pub fn scatter_displacements(halo_children: &Vec<u64>, interaction_lists: &Vec<Vec<u64>>) -> (r: Result<
    Vec<Vec<usize>>,
    M2lError,
>)
    ensures
        r is Ok <==> lists_within_halo(halo_children@, interaction_lists@),
        r matches Ok(table) ==> table@.len() == halo_children@.len() && forall|j: int|
            0 <= j < table@.len() ==> (#[trigger] table@[j])@ == scatter_table_of(
                halo_children@,
                interaction_lists@,
            )[j],
        r matches Err(e) ==> match e {
            M2lError::HaloSlotMissing { sibling, key } => sibling < interaction_lists.len()
                && interaction_lists@[sibling as int]@.contains(key)
                && !halo_index_map(halo_children@).contains_key(key),
            _ => false,
        },
{
    let ghost halo = halo_children@;
    let ghost lists = interaction_lists@;
    let mut slots: HashMap<u64, usize> = HashMap::new();
    let mut j: usize = 0;
    while j < halo_children.len()
        invariant
            j <= halo.len(),
            halo == halo_children@,
            slots@ == halo_index_map(halo.take(j as int)),
        decreases halo.len() - j,
    {
        slots.insert(halo_children[j], j);
        proof {
            assert(halo.take(j + 1).drop_last() =~= halo.take(j as int));
        }
        j += 1;
    }
    assert(halo.take(halo.len() as int) =~= halo);
    let ghost map = halo_index_map(halo);
    proof {
        lemma_halo_index_map_bounds(halo);
    }
    let mut table: Vec<Vec<usize>> = Vec::new();
    let mut j: usize = 0;
    while j < halo_children.len()
        invariant
            j <= halo.len(),
            halo == halo_children@,
            table@.len() == j,
            forall|j2: int| 0 <= j2 < j ==> (#[trigger] table@[j2])@ == Seq::<usize>::empty(),
        decreases halo.len() - j,
    {
        table.push(Vec::new());
        j += 1;
    }
    let mut i: usize = 0;
    while i < interaction_lists.len()
        invariant
            i <= lists.len(),
            lists == interaction_lists@,
            halo == halo_children@,
            map == halo_index_map(halo),
            slots@ == map,
            forall|key: u64| #[trigger] map.contains_key(key) ==> map[key] < halo.len(),
            table@.len() == halo.len(),
            forall|i2: int, u: int|
                0 <= i2 < i && 0 <= u < lists[i2]@.len() ==> map.contains_key(#[trigger] lists[i2]@[u]),
            forall|j2: int|
                0 <= j2 < halo.len() ==> (#[trigger] table@[j2])@ == slot_entries(map, lists, j2, i as int),
        decreases lists.len() - i,
    {
        let list = &interaction_lists[i];
        let mut u: usize = 0;
        while u < list.len()
            invariant
                i < lists.len(),
                u <= list@.len(),
                list@ == lists[i as int]@,
                lists == interaction_lists@,
                halo == halo_children@,
                map == halo_index_map(halo),
                slots@ == map,
                forall|key: u64| #[trigger] map.contains_key(key) ==> map[key] < halo.len(),
                table@.len() == halo.len(),
                forall|i2: int, u2: int|
                    0 <= i2 < i && 0 <= u2 < lists[i2]@.len() ==> map.contains_key(#[trigger] lists[i2]@[u2]),
                forall|u2: int| 0 <= u2 < u ==> map.contains_key(#[trigger] list@[u2]),
                forall|j2: int|
                    0 <= j2 < halo.len() ==> (#[trigger] table@[j2])@ == slot_entries(map, lists, j2, i as int)
                        + Seq::new(slot_count(map, list@.take(u as int), j2), |m: int| i),
            decreases list@.len() - u,
        {
            let key = list[u];
            let slot = match slots.get(&key) {
                Some(s) => *s,
                None => {
                    proof {
                        assert(lists[i as int]@[u as int] == key);
                    }
                    return Err(M2lError::HaloSlotMissing { sibling: i, key });
                },
            };
            let ghost old_table = table@;
            table[slot].push(i);
            proof {
                let taken = list@.take(u + 1);
                assert(taken.drop_last() =~= list@.take(u as int));
                assert forall|j2: int| 0 <= j2 < halo.len() implies (#[trigger] table@[j2])@ == slot_entries(
                    map,
                    lists,
                    j2,
                    i as int,
                ) + Seq::new(slot_count(map, taken, j2), |m: int| i) by {
                    let before = Seq::new(slot_count(map, list@.take(u as int), j2), |m: int| i);
                    if j2 == slot {
                        assert(Seq::new(slot_count(map, taken, j2), |m: int| i) =~= before.push(i));
                        assert(table@[j2]@ =~= old_table[j2]@.push(i));
                    } else {
                        assert(Seq::new(slot_count(map, taken, j2), |m: int| i) =~= before);
                    }
                }
            }
            u += 1;
        }
        proof {
            assert(list@.take(list@.len() as int) =~= list@);
            assert forall|j2: int| 0 <= j2 < halo.len() implies (#[trigger] table@[j2])@ == slot_entries(
                map,
                lists,
                j2,
                i + 1,
            ) by {
            }
        }
        i += 1;
    }
    Ok(table)
}

/// Number of entries over all slots of a table.
pub open spec fn total_entries(table: Seq<Seq<usize>>) -> nat
    decreases table.len(),
{
    if table.len() == 0 {
        0
    } else {
        total_entries(table.drop_last()) + table.last().len()
    }
}

/// Number of members over all interaction lists.
pub open spec fn total_members(lists: Seq<Vec<u64>>) -> nat
    decreases lists.len(),
{
    if lists.len() == 0 {
        0
    } else {
        total_members(lists.drop_last()) + lists.last()@.len()
    }
}

/// Entries of slot `j` summed over the slots below `bound`, for the first `n`
/// siblings.
spec fn entries_below(slots: Map<u64, usize>, lists: Seq<Vec<u64>>, n: int, bound: int) -> nat
    decreases bound,
{
    if bound <= 0 {
        0
    } else {
        entries_below(slots, lists, n, bound - 1) + slot_entries(slots, lists, bound - 1, n).len()
    }
}

/// Members of `list` counted slot by slot over the slots below `bound`.
spec fn count_below(slots: Map<u64, usize>, list: Seq<u64>, bound: int) -> nat
    decreases bound,
{
    if bound <= 0 {
        0
    } else {
        count_below(slots, list, bound - 1) + slot_count(slots, list, bound - 1)
    }
}

/// Number of slots below `bound` equal to `v`.
spec fn hits_below(v: int, bound: int) -> nat
    decreases bound,
{
    if bound <= 0 {
        0
    } else {
        hits_below(v, bound - 1) + if v == bound - 1 {
            1nat
        } else {
            0nat
        }
    }
}

proof fn lemma_hits_below(v: int, bound: int)
    ensures
        hits_below(v, bound) == if 0 <= v < bound {
            1nat
        } else {
            0nat
        },
    decreases bound,
{
    if bound > 0 {
        lemma_hits_below(v, bound - 1);
    }
}

proof fn lemma_count_below_step(slots: Map<u64, usize>, list: Seq<u64>, bound: int)
    requires
        list.len() > 0,
    ensures
        count_below(slots, list, bound) == count_below(slots, list.drop_last(), bound) + if slots.contains_key(
            list.last(),
        ) {
            hits_below(slots[list.last()] as int, bound)
        } else {
            0nat
        },
    decreases bound,
{
    if bound > 0 {
        lemma_count_below_step(slots, list, bound - 1);
    }
}

/// A list whose members all sit in slots below `bound` is counted whole.
proof fn lemma_count_below_whole(slots: Map<u64, usize>, list: Seq<u64>, bound: int)
    requires
        forall|u: int| 0 <= u < list.len() ==> slots.contains_key(#[trigger] list[u]) && slots[list[u]] < bound,
    ensures
        count_below(slots, list, bound) == list.len(),
    decreases list.len(),
{
    if list.len() == 0 {
        if bound > 0 {
            lemma_count_below_zero(slots, list, bound);
        }
    } else {
        let rest = list.drop_last();
        assert forall|u: int| 0 <= u < rest.len() implies slots.contains_key(#[trigger] rest[u])
            && slots[rest[u]] < bound by {
            assert(rest[u] == list[u]);
        }
        lemma_count_below_whole(slots, rest, bound);
        lemma_count_below_step(slots, list, bound);
        assert(list.last() == list[list.len() - 1]);
        lemma_hits_below(slots[list.last()] as int, bound);
    }
}

proof fn lemma_count_below_zero(slots: Map<u64, usize>, list: Seq<u64>, bound: int)
    requires
        list.len() == 0,
    ensures
        count_below(slots, list, bound) == 0,
    decreases bound,
{
    if bound > 0 {
        lemma_count_below_zero(slots, list, bound - 1);
    }
}

proof fn lemma_entries_below_step(slots: Map<u64, usize>, lists: Seq<Vec<u64>>, n: int, bound: int)
    requires
        n > 0,
    ensures
        entries_below(slots, lists, n, bound) == entries_below(slots, lists, n - 1, bound) + count_below(
            slots,
            lists[n - 1]@,
            bound,
        ),
    decreases bound,
{
    if bound > 0 {
        lemma_entries_below_step(slots, lists, n, bound - 1);
    }
}

proof fn lemma_entries_below_zero(slots: Map<u64, usize>, lists: Seq<Vec<u64>>, bound: int)
    ensures
        entries_below(slots, lists, 0, bound) == 0,
    decreases bound,
{
    if bound > 0 {
        lemma_entries_below_zero(slots, lists, bound - 1);
    }
}

proof fn lemma_entries_below_members(slots: Map<u64, usize>, lists: Seq<Vec<u64>>, n: int, bound: int)
    requires
        0 <= n <= lists.len(),
        forall|i: int, u: int|
            0 <= i < lists.len() && 0 <= u < lists[i]@.len() ==> slots.contains_key(#[trigger] lists[i]@[u])
                && slots[lists[i]@[u]] < bound,
    ensures
        entries_below(slots, lists, n, bound) == total_members(lists.take(n)),
    decreases n,
{
    if n == 0 {
        lemma_entries_below_zero(slots, lists, bound);
    } else {
        lemma_entries_below_members(slots, lists, n - 1, bound);
        lemma_entries_below_step(slots, lists, n, bound);
        let list = lists[n - 1]@;
        assert forall|u: int| 0 <= u < list.len() implies slots.contains_key(#[trigger] list[u])
            && slots[list[u]] < bound by {
            assert(list[u] == lists[n - 1]@[u]);
        }
        lemma_count_below_whole(slots, list, bound);
        assert(lists.take(n).drop_last() =~= lists.take(n - 1));
    }
}

proof fn lemma_total_entries_of_table(halo_children: Seq<u64>, lists: Seq<Vec<u64>>, bound: int)
    requires
        0 <= bound <= halo_children.len(),
    ensures
        total_entries(scatter_table_of(halo_children, lists).take(bound)) == entries_below(
            halo_index_map(halo_children),
            lists,
            lists.len() as int,
            bound,
        ),
    decreases bound,
{
    let table = scatter_table_of(halo_children, lists);
    if bound > 0 {
        lemma_total_entries_of_table(halo_children, lists, bound - 1);
        assert(table.take(bound).drop_last() =~= table.take(bound - 1));
    } else {
        assert(table.take(bound) =~= Seq::<Seq<usize>>::empty());
    }
}

/// What the halo-child index map holds: exactly the halo children, each at a
/// slot that holds it; with distinct children, each at its own position.
proof fn lemma_halo_index_map_facts(halo_children: Seq<u64>)
    requires
        halo_children.len() <= usize::MAX,
    ensures
        forall|key: u64| #[trigger]
            halo_index_map(halo_children).contains_key(key) <==> halo_children.contains(key),
        forall|key: u64| #[trigger]
            halo_index_map(halo_children).contains_key(key) ==> halo_children[halo_index_map(
                halo_children,
            )[key] as int] == key,
        halo_children.no_duplicates() ==> forall|j: int|
            0 <= j < halo_children.len() ==> halo_index_map(halo_children)[#[trigger] halo_children[j]]
                == j,
    decreases halo_children.len(),
{
    if halo_children.len() > 0 {
        let rest = halo_children.drop_last();
        let last = halo_children.last();
        lemma_halo_index_map_facts(rest);
        lemma_halo_index_map_bounds(rest);
        let rest_map = halo_index_map(rest);
        let map = halo_index_map(halo_children);
        assert(map == rest_map.insert(last, (halo_children.len() - 1) as usize));
        assert(halo_children[halo_children.len() - 1] == last);
        assert forall|key: u64| #[trigger] map.contains_key(key) <==> halo_children.contains(key) by {
            if key != last {
                if halo_children.contains(key) {
                    let u = choose|u: int| 0 <= u < halo_children.len() && halo_children[u] == key;
                    assert(u < halo_children.len() - 1);
                    assert(rest[u] == key);
                    assert(rest.contains(key));
                }
                if rest.contains(key) {
                    let u = choose|u: int| 0 <= u < rest.len() && rest[u] == key;
                    assert(halo_children[u] == key);
                }
            }
        }
        assert forall|key: u64| #[trigger] map.contains_key(key) implies halo_children[map[key] as int]
            == key by {
            if key != last {
                assert(rest_map.contains_key(key));
                assert(map[key] == rest_map[key]);
                assert(rest_map[key] < rest.len());
                assert(rest[rest_map[key] as int] == key);
            }
        }
        if halo_children.no_duplicates() {
            assert(rest.no_duplicates());
            assert forall|j: int| 0 <= j < halo_children.len() implies map[#[trigger] halo_children[j]] == j by {
                if j < halo_children.len() - 1 {
                    assert(halo_children[j] == rest[j]);
                    assert(halo_children[j] != last);
                }
            }
        }
    }
}

proof fn lemma_slot_count_positive(slots: Map<u64, usize>, list: Seq<u64>, j: int)
    ensures
        slot_count(slots, list, j) > 0 <==> exists|u: int|
            0 <= u < list.len() && slots.contains_key(#[trigger] list[u]) && slots[list[u]] == j,
    decreases list.len(),
{
    if list.len() > 0 {
        let rest = list.drop_last();
        lemma_slot_count_positive(slots, rest, j);
        if exists|u: int| 0 <= u < list.len() && slots.contains_key(#[trigger] list[u]) && slots[list[u]] == j {
            let u = choose|u: int| 0 <= u < list.len() && slots.contains_key(#[trigger] list[u]) && slots[list[u]] == j;
            if u < list.len() - 1 {
                assert(rest[u] == list[u]);
            }
        }
        if exists|u: int| 0 <= u < rest.len() && slots.contains_key(#[trigger] rest[u]) && slots[rest[u]] == j {
            let u = choose|u: int| 0 <= u < rest.len() && slots.contains_key(#[trigger] rest[u]) && slots[rest[u]] == j;
            assert(list[u] == rest[u]);
        }
    }
}

proof fn lemma_slot_entries_contains(slots: Map<u64, usize>, lists: Seq<Vec<u64>>, j: int, n: int, i: int)
    requires
        0 <= i < lists.len(),
        n <= lists.len() <= usize::MAX,
    ensures
        slot_entries(slots, lists, j, n).contains(i as usize) <==> i < n && slot_count(slots, lists[i]@, j) > 0,
    decreases n,
{
    if n > 0 {
        lemma_slot_entries_contains(slots, lists, j, n - 1, i);
        let front = slot_entries(slots, lists, j, n - 1);
        let back = Seq::new(slot_count(slots, lists[n - 1]@, j), |u: int| (n - 1) as usize);
        let all = slot_entries(slots, lists, j, n);
        assert(all == front + back);
        if all.contains(i as usize) {
            let u = choose|u: int| 0 <= u < all.len() && all[u] == i as usize;
            if u >= front.len() {
                assert(back[u - front.len()] == i as usize);
                assert(i == n - 1);
            } else {
                assert(front[u] == i as usize);
                assert(front.contains(i as usize));
            }
        }
        if i < n && slot_count(slots, lists[i]@, j) > 0 {
            if i == n - 1 {
                assert(all[front.len() as int] == i as usize);
            } else {
                assert(front.contains(i as usize));
                let u = choose|u: int| 0 <= u < front.len() && front[u] == i as usize;
                assert(all[u] == i as usize);
            }
        }
    } else {
        assert(slot_entries(slots, lists, j, n).len() == 0);
    }
}

/// With distinct halo children, slot `j` of the scatter-displacement table
/// lists sibling `i` exactly when halo child `j` is in sibling `i`'s
/// interaction list, that is, is a non-adjacent transfer target of it.
pub proof fn lemma_scatter_slot_membership(
    halo_children: Seq<u64>,
    interaction_lists: Seq<Vec<u64>>,
    i: int,
    j: int,
)
    requires
        halo_children.no_duplicates(),
        halo_children.len() <= usize::MAX,
        interaction_lists.len() <= usize::MAX,
        0 <= i < interaction_lists.len(),
        0 <= j < halo_children.len(),
    ensures
        scatter_table_of(halo_children, interaction_lists)[j].contains(i as usize)
            <==> interaction_lists[i]@.contains(halo_children[j]),
{
    let map = halo_index_map(halo_children);
    let list = interaction_lists[i]@;
    lemma_halo_index_map_facts(halo_children);
    lemma_slot_entries_contains(map, interaction_lists, j, interaction_lists.len() as int, i);
    lemma_slot_count_positive(map, list, j);
    if list.contains(halo_children[j]) {
        let u = choose|u: int| 0 <= u < list.len() && list[u] == halo_children[j];
        assert(halo_children.contains(halo_children[j]));
        assert(map.contains_key(list[u]) && map[list[u]] == j);
    }
    if exists|u: int| 0 <= u < list.len() && map.contains_key(#[trigger] list[u]) && map[list[u]] == j {
        let u = choose|u: int| 0 <= u < list.len() && map.contains_key(#[trigger] list[u]) && map[list[u]] == j;
        assert(halo_children[map[list[u]] as int] == list[u]);
    }
}

/// Every (sibling, halo slot) pair of the scatter-displacement table stands
/// for one member of one interaction list: over all slots the table holds as
/// many entries as the interaction lists hold members (eight siblings times
/// the interaction-list size on a uniform grid).
pub proof fn lemma_scatter_pair_count(halo_children: Seq<u64>, interaction_lists: Seq<Vec<u64>>)
    requires
        lists_within_halo(halo_children, interaction_lists),
    ensures
        total_entries(scatter_table_of(halo_children, interaction_lists)) == total_members(
            interaction_lists,
        ),
{
    let map = halo_index_map(halo_children);
    let table = scatter_table_of(halo_children, interaction_lists);
    lemma_halo_index_map_bounds(halo_children);
    lemma_total_entries_of_table(halo_children, interaction_lists, halo_children.len() as int);
    assert(table.take(halo_children.len() as int) =~= table);
    lemma_entries_below_members(map, interaction_lists, interaction_lists.len() as int, halo_children.len() as int);
    assert(interaction_lists.take(interaction_lists.len() as int) =~= interaction_lists);
}

} // verus!
