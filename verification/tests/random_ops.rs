use sc_simplify::pipeline::{simplify, Cli, Simplified};
use sc_simplify::{Face, SimplicialComplex};
use std::collections::{HashMap, HashSet};

struct Dice(u64);

impl Dice {
    fn roll(&mut self, sides: u64) -> u64 {
        self.0 = self.0.wrapping_mul(6364136223846793005).wrapping_add(1442695040888963407);
        (self.0 >> 33) % sides
    }
}

fn random_complex(dice: &mut Dice, vertices: u64, facets: u64, size: u64) -> SimplicialComplex {
    let count = 1 + dice.roll(facets);
    let mut list: Vec<Face> = Vec::new();
    for _ in 0..count {
        let n = 1 + dice.roll(size);
        let f: Vec<u32> = (0..n).map(|_| dice.roll(vertices) as u32).collect();
        list.push(Face::from_vec(f));
    }
    SimplicialComplex::from_check_unique(list)
}

fn euler_characteristic(sc: &SimplicialComplex) -> i64 {
    let mut seen: HashSet<Vec<u32>> = HashSet::new();
    for f in sc.facets() {
        let t = f.tuple();
        for mask in 1u32..(1u32 << t.len()) {
            let sub: Vec<u32> = (0..t.len()).filter(|i| mask & (1 << i) != 0).map(|i| t[i]).collect();
            seen.insert(sub);
        }
    }
    seen.iter().map(|f| if f.len() % 2 == 1 { 1 } else { -1 }).sum()
}

fn find(parent: &mut HashMap<u32, u32>, v: u32) -> u32 {
    let p = parent[&v];
    if p == v {
        v
    } else {
        let r = find(parent, p);
        parent.insert(v, r);
        r
    }
}

fn components(sc: &SimplicialComplex) -> usize {
    let mut parent: HashMap<u32, u32> = HashMap::new();
    for v in sc.vertex_set().tuple() {
        parent.insert(v, v);
    }
    for f in sc.facets() {
        let t = f.tuple();
        for w in t.iter().skip(1) {
            let a = find(&mut parent, t[0]);
            let b = find(&mut parent, *w);
            parent.insert(a, b);
        }
    }
    let keys: Vec<u32> = parent.keys().copied().collect();
    keys.into_iter().map(|v| find(&mut parent, v)).collect::<HashSet<u32>>().len()
}

fn holds_invariants(sc: &SimplicialComplex) -> bool {
    let list = sc.facets();
    if list.is_empty() {
        return false;
    }
    for i in 0..list.len() {
        for j in 0..list.len() {
            if i != j && list[i].leq(&list[j]) {
                return false;
            }
            if i < j && list[i].len() < list[j].len() {
                return false;
            }
        }
    }
    true
}

#[test]
fn random_complexes_keep_their_shape_under_nerves() {
    let mut dice = Dice(7);
    for _ in 0..300 {
        let whole = random_complex(&mut dice, 9, 8, 4);
        let mut sc = whole.clone();
        sc.nerve_reduce();
        assert!(holds_invariants(&sc));
        assert_eq!(euler_characteristic(&sc), euler_characteristic(&whole));
        assert_eq!(components(&sc), components(&whole));
    }
}

#[test]
fn random_complexes_keep_their_shape_under_pinching() {
    let mut dice = Dice(11);
    for _ in 0..300 {
        let whole = random_complex(&mut dice, 9, 8, 4);
        let mut sc = whole.clone();
        let mut sweeps = 0;
        while sweeps < 3 && sc.pinch(&None) {
            sweeps += 1;
        }
        assert!(holds_invariants(&sc));
        assert_eq!(euler_characteristic(&sc), euler_characteristic(&whole));
        assert_eq!(components(&sc), components(&whole));
    }
}

#[test]
fn random_complexes_keep_their_shape_under_bounded_sweeps() {
    let mut dice = Dice(13);
    for _ in 0..150 {
        let whole = random_complex(&mut dice, 8, 7, 4);
        let budget = dice.roll(6);
        let mut sc = whole.clone();
        sc.pinch_sweep(Some(budget));
        assert!(holds_invariants(&sc));
        assert_eq!(euler_characteristic(&sc), euler_characteristic(&whole));
        assert_eq!(components(&sc), components(&whole));
    }
}

#[test]
fn random_complexes_keep_their_shape_in_the_whole_run() {
    let mut dice = Dice(17);
    for _ in 0..300 {
        let whole = random_complex(&mut dice, 10, 9, 4);
        let out = simplify(whole.clone(), &Cli { no_pair: true, ..Cli::default() }, &None);
        match out {
            Simplified::Single(sc) => {
                assert!(holds_invariants(&sc));
                assert_eq!(euler_characteristic(&sc), euler_characteristic(&whole));
                assert_eq!(components(&sc), components(&whole));
                assert!(sc.vertex_set().len() <= whole.vertex_set().len());
            }
            _ => panic!("a single complex was asked for"),
        }
    }
}

#[test]
fn random_complexes_contractible_by_the_oracle_have_the_shape_of_a_point() {
    let mut dice = Dice(19);
    let mut seen = 0;
    for _ in 0..600 {
        let sc = random_complex(&mut dice, 8, 7, 4);
        if sc.is_contractible() {
            seen += 1;
            assert_eq!(euler_characteristic(&sc), 1);
            assert_eq!(components(&sc), 1);
        }
    }
    assert!(seen > 20);
}

#[test]
fn random_complexes_have_contractible_subcomplexes() {
    let mut dice = Dice(23);
    for _ in 0..300 {
        let whole = random_complex(&mut dice, 9, 8, 4);
        if whole.is_empty() {
            continue;
        }
        let facets: Vec<Vec<u32>> = whole.facets().iter().map(|f| f.tuple()).collect();
        let sub = whole.contractible_subcomplex();
        assert_eq!(whole.facets().iter().map(|f| f.tuple()).collect::<Vec<Vec<u32>>>(), facets);
        assert!(holds_invariants(&sub));
        assert!(sub.is_contractible());
        assert_eq!(euler_characteristic(&sub), 1);
        assert_eq!(components(&sub), 1);
        for f in sub.facets() {
            assert!(whole.facets().contains(f));
        }
        // the pair made small has the shape of the whole with the subcomplex made a point
        let (rest, bnd) = whole.minimize_pair(sub);
        assert!(holds_invariants(&rest));
        assert!(holds_invariants(&bnd));
        let chi_rest = if rest.is_empty() { 0 } else { euler_characteristic(&rest) };
        let chi_bnd = if bnd.is_empty() { 0 } else { euler_characteristic(&bnd) };
        assert_eq!(chi_rest - chi_bnd, euler_characteristic(&whole) - 1);
    }
}

#[test]
fn random_complexes_relabel_to_a_copy() {
    let mut dice = Dice(29);
    for _ in 0..200 {
        let whole = random_complex(&mut dice, 40, 8, 5);
        let mut sc = whole.clone();
        sc.relabel_vertices();
        assert!(holds_invariants(&sc));
        assert_eq!(sc.len(), whole.len());
        assert_eq!(euler_characteristic(&sc), euler_characteristic(&whole));
        let n = whole.vertex_set().len() as u32;
        assert_eq!(sc.vertex_set().tuple(), (0..n).collect::<Vec<u32>>());
        let once: Vec<Vec<u32>> = sc.facets().iter().map(|f| f.tuple()).collect();
        sc.relabel_vertices();
        assert_eq!(sc.facets().iter().map(|f| f.tuple()).collect::<Vec<Vec<u32>>>(), once);
        sc.relabel_vertices_reverse();
        assert_eq!(sc.len(), whole.len());
        assert_eq!(euler_characteristic(&sc), euler_characteristic(&whole));
    }
}
