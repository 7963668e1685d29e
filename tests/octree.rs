use num::complex::Complex64;
use rust_simd::error::M2lError;
use rust_simd::m2l::{halo_slots, plan_octet, scatter_contributions, OctetPlan};
use rust_simd::hadamard::hadamard_product_naive;
use rust_simd::scatter::scatter_displacements;
use std::collections::HashMap;
use std::sync::Mutex;
use rayon::iter::{IntoParallelRefIterator, ParallelIterator};

// A uniform octree node: level and anchor coordinates, packed into a key.
#[derive(Clone, Copy, PartialEq, Eq, Debug)]
struct Node {
    level: u64,
    x: i64,
    y: i64,
    z: i64,
}

impl Node {
    fn key(&self) -> u64 {
        (self.level << 48) | ((self.x as u64) << 32) | ((self.y as u64) << 16) | self.z as u64
    }

    fn parent(&self) -> Node {
        Node { level: self.level - 1, x: self.x / 2, y: self.y / 2, z: self.z / 2 }
    }

    fn children(&self) -> Vec<Node> {
        let mut c = Vec::new();
        for dx in 0..2 {
            for dy in 0..2 {
                for dz in 0..2 {
                    c.push(Node { level: self.level + 1, x: 2 * self.x + dx, y: 2 * self.y + dy, z: 2 * self.z + dz });
                }
            }
        }
        c
    }

    fn all_neighbors(&self) -> Vec<Option<Node>> {
        let side = 1i64 << self.level;
        let mut r = Vec::new();
        for dx in -1..=1i64 {
            for dy in -1..=1i64 {
                for dz in -1..=1i64 {
                    if dx == 0 && dy == 0 && dz == 0 {
                        continue;
                    }
                    let n = Node { level: self.level, x: self.x + dx, y: self.y + dy, z: self.z + dz };
                    let inside = [n.x, n.y, n.z].iter().all(|&c| 0 <= c && c < side);
                    r.push(if inside { Some(n) } else { None });
                }
            }
        }
        r
    }

    fn is_adjacent_same_level(&self, other: &Node) -> bool {
        self.level == other.level
            && self != other
            && (self.x - other.x).abs() <= 1
            && (self.y - other.y).abs() <= 1
            && (self.z - other.z).abs() <= 1
    }

    fn interaction_list(&self) -> Vec<Node> {
        self.parent()
            .all_neighbors()
            .into_iter()
            .flatten()
            .flat_map(|p| p.children())
            .filter(|c| !self.is_adjacent_same_level(c))
            .collect()
    }
}

fn keys(nodes: &[Node]) -> Vec<u64> {
    nodes.iter().map(|n| n.key()).collect()
}

fn children_array(n: &Node) -> [u64; 8] {
    let c = keys(&n.children());
    [c[0], c[1], c[2], c[3], c[4], c[5], c[6], c[7]]
}

// The table of a node at the centre of a level-3 grid, whose parent has all
// 26 neighbours.
fn reference_table() -> (Vec<u64>, Vec<Vec<u64>>, Vec<Vec<usize>>) {
    let key = Node { level: 3, x: 3, y: 3, z: 3 };
    let parent = key.parent();
    let halo: Vec<Node> = parent.all_neighbors().into_iter().flatten().flat_map(|p| p.children()).collect();
    let lists: Vec<Vec<u64>> = parent.children().iter().map(|s| keys(&s.interaction_list())).collect();
    let halo_keys = keys(&halo);
    let table = scatter_displacements(&halo_keys, &lists).unwrap();
    (halo_keys, lists, table)
}

fn nodes_at(level: u64) -> Vec<Node> {
    let side = 1i64 << level;
    let mut r = Vec::new();
    for x in 0..side {
        for y in 0..side {
            for z in 0..side {
                r.push(Node { level, x, y, z });
            }
        }
    }
    r
}

#[test]
fn scatter_table_pairs_count() {
    let (halo, lists, table) = reference_table();
    assert_eq!(halo.len(), 208);
    assert_eq!(table.len(), 208);
    for l in lists.iter() {
        assert_eq!(l.len(), 189);
    }
    let pairs: usize = table.iter().map(|t| t.len()).sum();
    assert_eq!(pairs, 8 * 189);
}

#[test]
fn scatter_table_agrees_with_adjacency() {
    let key = Node { level: 3, x: 3, y: 3, z: 3 };
    let parent = key.parent();
    let halo: Vec<Node> = parent.all_neighbors().into_iter().flatten().flat_map(|p| p.children()).collect();
    let siblings = parent.children();
    let (_, _, table) = reference_table();
    for (j, h) in halo.iter().enumerate() {
        for (i, s) in siblings.iter().enumerate() {
            assert_eq!(table[j].contains(&i), !s.is_adjacent_same_level(h));
        }
        let mut sorted = table[j].clone();
        sorted.sort();
        assert_eq!(sorted, table[j]);
    }
}

#[test]
fn scatter_table_small_example() {
    let halo = vec![10u64, 20, 30];
    let lists = vec![vec![30u64, 10], vec![30u64], vec![]];
    let table = scatter_displacements(&halo, &lists).unwrap();
    assert_eq!(table, vec![vec![0], vec![], vec![0, 1]]);
}

#[test]
fn scatter_table_member_outside_halo() {
    let halo = vec![10u64, 20];
    let lists = vec![vec![10u64], vec![20u64, 99]];
    assert_eq!(
        scatter_displacements(&halo, &lists),
        Err(M2lError::HaloSlotMissing { sibling: 1, key: 99 })
    );
}

#[test]
fn halo_slots_fill_absent_neighbours() {
    let neighbours = vec![Some([1u64, 2, 3, 4, 5, 6, 7, 8]), None];
    let halo = halo_slots(&neighbours);
    assert_eq!(halo.len(), 16);
    assert_eq!(halo[0], Some(1));
    assert_eq!(halo[7], Some(8));
    assert!(halo[8..].iter().all(|s| s.is_none()));
}

fn halo_of(parent: &Node) -> Vec<Option<u64>> {
    let neighbours: Vec<Option<[u64; 8]>> = parent.all_neighbors().iter().map(|n| n.map(|n| children_array(&n))).collect();
    halo_slots(&neighbours)
}

#[test]
fn boundary_octet_skips_empty_slots() {
    // depth 1: the root has no neighbours, so every halo slot is empty
    let (_, _, table) = reference_table();
    let root = Node { level: 0, x: 0, y: 0, z: 0 };
    let children = keys(&root.children());
    let halo = halo_of(&root);
    assert_eq!(halo.len(), 208);
    assert!(halo.iter().all(|s| s.is_none()));
    let multipole_index: HashMap<u64, usize> = children.iter().enumerate().map(|(u, &k)| (k, u)).collect();
    let local_index: HashMap<u64, usize> = HashMap::new();
    let plan = plan_octet(&children, &halo, &table, &multipole_index, &local_index).unwrap();
    assert_eq!(plan.siblings, vec![0, 1, 2, 3, 4, 5, 6, 7]);
    assert!(plan.targets.is_empty());
}

#[test]
fn corner_octet_plans_present_slots_only() {
    let (_, _, table) = reference_table();
    let parent = Node { level: 1, x: 0, y: 0, z: 0 };
    let children = keys(&parent.children());
    let halo = halo_of(&parent);
    let leaves = keys(&nodes_at(2));
    let index: HashMap<u64, usize> = leaves.iter().enumerate().map(|(u, &k)| (k, u)).collect();
    let plan = plan_octet(&children, &halo, &table, &index, &index).unwrap();
    assert_eq!(plan.targets.len(), 7 * 8);
    for t in plan.targets.iter() {
        let key = halo[t.slot].unwrap();
        assert_eq!(t.buffer, index[&key]);
        assert_eq!(t.sources, table[t.slot]);
    }
}

#[test]
fn missing_buffer_is_reported() {
    let (_, _, table) = reference_table();
    let parent = Node { level: 1, x: 0, y: 0, z: 0 };
    let children = keys(&parent.children());
    let halo = halo_of(&parent);
    let multipole_index: HashMap<u64, usize> = children.iter().enumerate().map(|(u, &k)| (k, u)).collect();
    let local_index: HashMap<u64, usize> = HashMap::new();
    let first = halo.iter().flatten().next().copied().unwrap();
    assert_eq!(
        plan_octet(&children, &halo, &table, &multipole_index, &local_index),
        Err(M2lError::BufferMissing { key: first })
    );
    let empty: HashMap<u64, usize> = HashMap::new();
    assert_eq!(
        plan_octet(&children, &halo, &table, &empty, &multipole_index),
        Err(M2lError::BufferMissing { key: children[0] })
    );
}

#[test]
fn plan_rejects_malformed_tables() {
    let parent = Node { level: 1, x: 0, y: 0, z: 0 };
    let children = keys(&parent.children());
    let halo = halo_of(&parent);
    let leaves = keys(&nodes_at(2));
    let index: HashMap<u64, usize> = leaves.iter().enumerate().map(|(u, &k)| (k, u)).collect();
    let short = vec![Vec::new(); 10];
    assert_eq!(
        plan_octet(&children, &halo, &short, &index, &index),
        Err(M2lError::ScatterTableLength { expected: 208, found: 10 })
    );
    let mut table = vec![Vec::new(); 208];
    let slot = halo.iter().position(|s| s.is_some()).unwrap();
    table[slot] = vec![2, 9];
    assert_eq!(
        plan_octet(&children, &halo, &table, &index, &index),
        Err(M2lError::ScatterSibling { slot, sibling: 9 })
    );
    assert_eq!(
        plan_octet(&children[..7].to_vec(), &halo, &table, &index, &index),
        Err(M2lError::SiblingCount { found: 7 })
    );
}

fn run_level(level: u64, expansion_order: usize) -> (Vec<Node>, Vec<Vec<Complex64>>, Vec<Vec<usize>>) {
    let (_, _, table) = reference_table();
    let s = rust_simd::config::size_real(expansion_order).unwrap();
    let one = Complex64::new(1.0, 0.0);
    let zero = Complex64::new(0.0, 0.0);
    let leaves = nodes_at(level);
    let leaf_keys = keys(&leaves);
    let index: HashMap<u64, usize> = leaf_keys.iter().enumerate().map(|(u, &k)| (k, u)).collect();
    let multipoles = vec![vec![one; s]; leaves.len()];
    let mut locals = vec![vec![zero; s]; leaves.len()];
    let kernels = vec![one; 16 * s];
    let mac = |acc: Complex64, a: Complex64, b: Complex64| acc + a * b;
    let plus = |a: Complex64, b: Complex64| a + b;
    let parents = if level == 0 { Vec::new() } else { nodes_at(level - 1) };
    for parent in parents.iter() {
        let children = keys(&parent.children());
        let halo = halo_of(parent);
        let plan: OctetPlan = plan_octet(&children, &halo, &table, &index, &index).unwrap();
        let sibling_set: Vec<Vec<Complex64>> = plan.siblings.iter().map(|&p| multipoles[p].clone()).collect();
        let products = hadamard_product_naive(expansion_order, &sibling_set, &kernels, zero, &mac).unwrap();
        for target in plan.targets.iter() {
            scatter_contributions(expansion_order, &mut locals[target.buffer], &products, &target.sources, &plus)
                .unwrap();
        }
    }
    (leaves, locals, table)
}

#[test]
fn end_to_end_depth_two() {
    let (leaves, locals, _) = run_level(2, 3);
    for (u, leaf) in leaves.iter().enumerate() {
        let expected = leaf.interaction_list().len() as f64 * 16.0;
        assert_eq!(locals[u].len(), 144);
        assert!(locals[u].iter().all(|c| *c == Complex64::new(expected, 0.0)));
    }
    let corner = leaves.iter().position(|n| *n == Node { level: 2, x: 0, y: 0, z: 0 }).unwrap();
    assert!(locals[corner].iter().all(|c| *c == Complex64::new(896.0, 0.0)));
    let inner = leaves.iter().position(|n| *n == Node { level: 2, x: 1, y: 1, z: 1 }).unwrap();
    assert!(locals[inner].iter().all(|c| *c == Complex64::new(592.0, 0.0)));
}

#[test]
fn end_to_end_depth_one_leaves_locals_untouched() {
    let zero = Complex64::new(0.0, 0.0);
    let (_, _, table) = reference_table();
    let root = Node { level: 0, x: 0, y: 0, z: 0 };
    let children = keys(&root.children());
    let halo = halo_of(&root);
    let index: HashMap<u64, usize> = children.iter().enumerate().map(|(u, &k)| (k, u)).collect();
    let plan = plan_octet(&children, &halo, &table, &index, &index).unwrap();
    assert!(plan.targets.is_empty());
    let locals = vec![vec![zero; 144]; 8];
    assert!(locals.iter().all(|l| l.iter().all(|c| *c == zero)));
}

#[test]
fn scatter_sums_sixteen_kernels_per_sibling() {
    let s = 48;
    let mut products = vec![0i64; 128 * s];
    for k in 0..8 {
        for i in 0..16 {
            for j in 0..s {
                products[k * 16 * s + i * s + j] = (k * 1000 + i * 10) as i64 + j as i64;
            }
        }
    }
    let mut local = vec![5i64; s];
    let plus = |a: i64, b: i64| a + b;
    scatter_contributions(2, &mut local, &products, &vec![1, 6, 1], &plus).unwrap();
    for j in 0..s {
        let per = |k: i64| (0..16).map(|i| k * 1000 + i * 10 + j as i64).sum::<i64>();
        assert_eq!(local[j], 5 + per(1) + per(6) + per(1));
    }
}

#[test]
fn scatter_rejects_bad_inputs() {
    let s = 48;
    let products = vec![0i64; 128 * s];
    let plus = |a: i64, b: i64| a + b;
    let mut short = vec![0i64; s - 1];
    assert_eq!(
        scatter_contributions(2, &mut short, &products, &vec![0], &plus),
        Err(M2lError::BufferLength { expected: s, found: s - 1 })
    );
    let mut local = vec![3i64; s];
    assert_eq!(
        scatter_contributions(2, &mut local, &products[1..].to_vec(), &vec![0], &plus),
        Err(M2lError::BufferLength { expected: 128 * s, found: 128 * s - 1 })
    );
    assert_eq!(
        scatter_contributions(2, &mut local, &products, &vec![0, 8], &plus),
        Err(M2lError::ScatterSibling { slot: 1, sibling: 8 })
    );
    assert_eq!(local, vec![3i64; s]);
}

fn level_multipoles(count: usize, s: usize) -> Vec<Vec<Complex64>> {
    let mut state = 11u64;
    let mut next = || {
        state = state.wrapping_mul(6364136223846793005).wrapping_add(1442695040888963407);
        (state >> 11) as f64 / (1u64 << 53) as f64 - 0.5
    };
    (0..count).map(|_| (0..s).map(|_| Complex64::new(next(), next())).collect()).collect()
}

fn run_level_parallel(level: u64, expansion_order: usize, workers: usize) -> Vec<Vec<Complex64>> {
    let (_, _, table) = reference_table();
    let s = rust_simd::config::size_real(expansion_order).unwrap();
    let zero = Complex64::new(0.0, 0.0);
    let leaves = nodes_at(level);
    let leaf_keys = keys(&leaves);
    let index: HashMap<u64, usize> = leaf_keys.iter().enumerate().map(|(u, &k)| (k, u)).collect();
    let multipoles = level_multipoles(leaves.len(), s);
    let locals: Vec<Mutex<Vec<Complex64>>> = (0..leaves.len()).map(|_| Mutex::new(vec![zero; s])).collect();
    let kernels: Vec<Complex64> = (0..16 * s).map(|u| Complex64::new(1.0 + (u % 5) as f64, (u % 3) as f64)).collect();
    let mac = |acc: Complex64, a: Complex64, b: Complex64| acc + a * b;
    let plus = |a: Complex64, b: Complex64| a + b;
    let parents = nodes_at(level - 1);
    let pool = rayon::ThreadPoolBuilder::new().num_threads(workers).build().unwrap();
    pool.install(|| {
        parents.par_iter().for_each(|parent| {
            let children = keys(&parent.children());
            let halo = halo_of(parent);
            let plan = plan_octet(&children, &halo, &table, &index, &index).unwrap();
            let sibling_set: Vec<Vec<Complex64>> = plan.siblings.iter().map(|&p| multipoles[p].clone()).collect();
            let products = hadamard_product_naive(expansion_order, &sibling_set, &kernels, zero, &mac).unwrap();
            for target in plan.targets.iter() {
                let mut local = locals[target.buffer].lock().unwrap();
                scatter_contributions(expansion_order, &mut *local, &products, &target.sources, &plus).unwrap();
            }
        })
    });
    locals.into_iter().map(|l| l.into_inner().unwrap()).collect()
}

#[test]
fn one_worker_matches_many() {
    let one = run_level_parallel(3, 2, 1);
    let many = run_level_parallel(3, 2, 4);
    let mut touched = 0;
    for (x, y) in one.iter().zip(many.iter()) {
        for (u, v) in x.iter().zip(y.iter()) {
            let scale = u.norm().max(1.0);
            assert!((u - v).norm() <= 1e-9 * scale);
            if u.norm() > 0.0 {
                touched += 1;
            }
        }
    }
    assert!(touched > 0);
}
