use sc_simplify::{Face, SimplicialComplex};
use std::collections::{HashMap, HashSet};
use std::sync::atomic::AtomicBool;
use std::sync::Arc;

fn complex(list: &[&[u32]]) -> SimplicialComplex {
    SimplicialComplex::from_check_unique(list.iter().map(|f| Face::from_vec(f.to_vec())).collect())
}

fn tuples(sc: &SimplicialComplex) -> Vec<Vec<u32>> {
    sc.facets().iter().map(|f| f.tuple()).collect()
}

fn octahedron() -> SimplicialComplex {
    let mut list: Vec<Vec<u32>> = Vec::new();
    for a in [0u32, 1] {
        for b in [2u32, 3] {
            for c in [4u32, 5] {
                list.push(vec![a, b, c]);
            }
        }
    }
    SimplicialComplex::from_check_unique(list.into_iter().map(Face::from_vec).collect())
}

fn euler_characteristic(sc: &SimplicialComplex) -> i64 {
    let mut seen: HashSet<Vec<u32>> = HashSet::new();
    for f in sc.facets() {
        let t = f.tuple();
        for mask in 1u32..(1u32 << t.len()) {
            let sub: Vec<u32> = (0..t.len()).filter(|i| mask & (1 << i) != 0).map(|i| t[i]).collect();
            seen.insert(sub);
        }
    }
    seen.iter().map(|f| if f.len() % 2 == 1 { 1 } else { -1 }).sum()
}

fn find(parent: &mut HashMap<u32, u32>, v: u32) -> u32 {
    let p = parent[&v];
    if p == v {
        v
    } else {
        let r = find(parent, p);
        parent.insert(v, r);
        r
    }
}

fn components(sc: &SimplicialComplex) -> usize {
    let mut parent: HashMap<u32, u32> = HashMap::new();
    for v in sc.vertex_set().tuple() {
        parent.insert(v, v);
    }
    for f in sc.facets() {
        let t = f.tuple();
        for w in t.iter().skip(1) {
            let a = find(&mut parent, t[0]);
            let b = find(&mut parent, *w);
            parent.insert(a, b);
        }
    }
    let keys: Vec<u32> = parent.keys().copied().collect();
    keys.into_iter().map(|v| find(&mut parent, v)).collect::<HashSet<u32>>().len()
}

fn fixtures() -> Vec<SimplicialComplex> {
    vec![
        complex(&[&[0, 1, 2]]),
        complex(&[&[0, 1], &[1, 2], &[0, 2]]),
        complex(&[&[0, 1], &[2, 3]]),
        complex(&[&[0, 1, 2], &[0, 1, 3], &[0, 2, 3], &[1, 2, 3]]),
        complex(&[&[0, 1, 9], &[1, 2, 9], &[2, 0, 9]]),
        complex(&[&[0, 1], &[1, 2], &[2, 3], &[3, 4]]),
        complex(&[&[0, 1], &[1, 2], &[2, 3], &[3, 0], &[3, 4], &[6, 7, 8]]),
        complex(&[&[0, 1, 2], &[2, 3], &[3, 4], &[4, 2], &[7, 8]]),
        complex(&[&[3, 4, 5], &[0, 3, 4], &[0, 1, 4], &[1, 4, 5], &[1, 2, 5], &[2, 5, 3], &[2, 0, 3]]),
        complex(&[&[0, 1], &[1, 2], &[2, 0], &[2, 3], &[3, 4], &[4, 2]]),
        octahedron(),
        complex(&[&[0], &[1], &[2]]),
    ]
}

#[test]
fn pinch_sweep_contracts_a_path_to_a_point() {
    let mut sc = complex(&[&[0, 1], &[1, 2]]);
    assert_eq!(sc.pinch_sweep(None), (true, false));
    assert_eq!(tuples(&sc), vec![vec![0]]);
}

#[test]
fn pinch_sweep_without_budget_does_nothing() {
    let mut sc = complex(&[&[0, 1], &[1, 2]]);
    assert_eq!(sc.pinch_sweep(Some(0)), (false, true));
    assert_eq!(tuples(&sc), vec![vec![1, 2], vec![0, 1]]);
}

#[test]
fn pinch_sweep_with_a_budget_of_one_pinches_one_edge() {
    let mut sc = complex(&[&[0, 1], &[1, 2]]);
    assert_eq!(sc.pinch_sweep(Some(1)), (true, true));
    assert_eq!(tuples(&sc), vec![vec![0, 1]]);
}

#[test]
fn pinch_sweep_with_enough_budget_is_the_whole_sweep() {
    let mut a = complex(&[&[0, 1], &[1, 2], &[2, 3], &[3, 0], &[3, 4]]);
    let mut b = a.clone();
    let whole = a.pinch_sweep(None);
    let bounded = b.pinch_sweep(Some(1000));
    assert_eq!(whole, bounded);
    assert_eq!(tuples(&a), tuples(&b));
}

#[test]
fn pinch_leaves_spheres_alone() {
    let mut circle = complex(&[&[0, 1], &[1, 2], &[0, 2]]);
    assert_eq!(circle.pinch_sweep(None), (false, false));
    assert_eq!(tuples(&circle), vec![vec![1, 2], vec![0, 2], vec![0, 1]]);
    let mut sphere = complex(&[&[0, 1, 2], &[0, 1, 3], &[0, 2, 3], &[1, 2, 3]]);
    assert!(!sphere.pinch(&None));
    assert_eq!(
        tuples(&sphere),
        vec![vec![1, 2, 3], vec![0, 2, 3], vec![0, 1, 3], vec![0, 1, 2]]
    );
}

#[test]
fn pinch_shortens_a_circle_of_four_edges() {
    let mut sc = complex(&[&[0, 1], &[1, 2], &[2, 3], &[0, 3]]);
    assert!(sc.pinch(&None));
    assert_eq!(sc.len(), 3);
    assert_eq!(sc.vertex_set().len(), 3);
    assert_eq!(euler_characteristic(&sc), 0);
}

#[test]
fn pinch_renames_the_vertices_after_a_sweep() {
    let mut sc = complex(&[&[10, 20], &[20, 30], &[10, 30]]);
    assert!(!sc.pinch(&None));
    assert_eq!(tuples(&sc), vec![vec![1, 2], vec![0, 2], vec![0, 1]]);
}

#[test]
fn pinch_with_a_flag_that_is_set_does_nothing() {
    let flag = Some(Arc::new(AtomicBool::new(true)));
    let mut sc = complex(&[&[10, 20], &[20, 30]]);
    assert!(!sc.pinch(&flag));
    assert_eq!(tuples(&sc), vec![vec![20, 30], vec![10, 20]]);
}

#[test]
fn pinch_with_a_flag_that_is_not_set_is_the_whole_sweep() {
    let flag = Some(Arc::new(AtomicBool::new(false)));
    let mut a = complex(&[&[0, 1], &[1, 2], &[2, 3], &[3, 0], &[3, 4]]);
    let mut b = a.clone();
    assert_eq!(a.pinch(&flag), b.pinch(&None));
    assert_eq!(tuples(&a), tuples(&b));
}

#[test]
fn pinch_of_the_empty_complex_does_nothing() {
    let mut sc = SimplicialComplex::default();
    assert!(!sc.pinch(&None));
    assert!(sc.is_empty());
}

#[test]
fn pinch_keeps_components_and_euler_characteristic() {
    for whole in fixtures() {
        let chi = euler_characteristic(&whole);
        let parts = components(&whole);
        let mut sc = whole.clone();
        let mut sweeps = 0;
        while sweeps < 4 && sc.pinch(&None) {
            sweeps += 1;
        }
        assert_eq!(euler_characteristic(&sc), chi);
        assert_eq!(components(&sc), parts);
        assert!(sc.vertex_set().len() <= whole.vertex_set().len());
    }
}

#[test]
fn a_bounded_sweep_keeps_components_and_euler_characteristic() {
    for whole in fixtures() {
        for budget in 0..6u64 {
            let mut sc = whole.clone();
            sc.pinch_sweep(Some(budget));
            assert_eq!(euler_characteristic(&sc), euler_characteristic(&whole));
            assert_eq!(components(&sc), components(&whole));
        }
    }
}
