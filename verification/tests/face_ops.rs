use rustc_hash::FxHashMap;
use sc_simplify::Face;
use std::cmp::Ordering;
use std::collections::hash_map::DefaultHasher;
use std::hash::{Hash, Hasher};

fn hash_of(f: &Face) -> u64 {
    let mut h = DefaultHasher::new();
    f.hash(&mut h);
    h.finish()
}

#[test]
fn face_from_vec_sorts_and_dedups() {
    let f = Face::from_vec(vec![3, 1, 2, 3, 1]);
    assert_eq!(f.tuple(), vec![1, 2, 3]);
    assert_eq!(f.to_vec(), vec![1, 2, 3]);
    assert_eq!(f.iter().copied().collect::<Vec<u32>>(), vec![1, 2, 3]);
    assert_eq!(f.len(), 3);
    assert!(!f.is_empty());
}

#[test]
fn face_new_and_default_are_empty() {
    assert!(Face::new().is_empty());
    assert_eq!(Face::default().len(), 0);
    assert_eq!(Face::new(), Face::default());
    assert_eq!(Face::new().tuple(), Vec::<u32>::new());
}

#[test]
fn face_label_zero_and_greatest_label_are_valid() {
    let f = Face::from_vec(vec![u32::MAX, 0]);
    assert!(f.contains(0));
    assert!(f.contains(u32::MAX));
    assert_eq!(f.tuple(), vec![0, u32::MAX]);
}

#[test]
fn face_contains_insert_remove() {
    let mut f = Face::from_vec(vec![5, 9]);
    assert!(f.contains(5));
    assert!(!f.contains(7));
    assert!(f.insert(7));
    assert!(!f.insert(7));
    assert_eq!(f.tuple(), vec![5, 7, 9]);
    assert!(f.remove(5));
    assert!(!f.remove(5));
    assert_eq!(f.tuple(), vec![7, 9]);
    assert_eq!(f.get(1), 9);
}

#[test]
fn face_singleton_and_from_sorted() {
    assert_eq!(Face::singleton(4).tuple(), vec![4]);
    assert_eq!(Face::from_sorted(vec![1, 4, 6]), Face::from_vec(vec![6, 4, 1]));
}

#[test]
fn face_set_operations() {
    let a = Face::from_vec(vec![1, 2, 3, 4]);
    let b = Face::from_vec(vec![3, 4, 5]);
    let c = Face::from_vec(vec![8, 9]);
    assert_eq!(a.intersection(&b).tuple(), vec![3, 4]);
    assert_eq!(a.union(&b).tuple(), vec![1, 2, 3, 4, 5]);
    assert_eq!(a.difference(&b).tuple(), vec![1, 2]);
    assert_eq!(b.difference(&a).tuple(), vec![5]);
    assert!(a.intersection(&c).is_empty());
    assert!(a.is_disjoint(&c));
    assert!(!a.is_disjoint(&b));
}

#[test]
fn face_maybe_intersection_is_none_exactly_for_disjoint_faces() {
    let a = Face::from_vec(vec![1, 2]);
    let b = Face::from_vec(vec![2, 3]);
    let c = Face::from_vec(vec![4]);
    assert_eq!(a.maybe_intersection(&b), Some(Face::singleton(2)));
    assert_eq!(a.maybe_intersection(&c), None);
    assert_eq!(Face::new().maybe_intersection(&a), None);
}

#[test]
fn face_leq_is_inclusion() {
    let small = Face::from_vec(vec![2, 4]);
    let big = Face::from_vec(vec![1, 2, 4]);
    let other = Face::from_vec(vec![2, 5, 6]);
    assert!(small.leq(&big));
    assert!(!big.leq(&small));
    assert!(small.leq(&small));
    assert!(!small.leq(&other));
    assert!(Face::new().leq(&small));
    assert!(small.within(&big));
    assert!(!other.within(&big));
}

#[test]
fn face_partial_order_is_inclusion() {
    let small = Face::from_vec(vec![2, 4]);
    let big = Face::from_vec(vec![1, 2, 4]);
    let other = Face::from_vec(vec![2, 5]);
    assert_eq!(small.partial_cmp(&big), Some(Ordering::Less));
    assert_eq!(big.partial_cmp(&small), Some(Ordering::Greater));
    assert_eq!(small.partial_cmp(&small.clone()), Some(Ordering::Equal));
    assert_eq!(small.partial_cmp(&other), None);
    assert!(small < big);
    assert!(!(small < other));
    assert!(!(other < small));
}

#[test]
fn face_vertex_removed_and_inserted_leave_the_face_alone() {
    let f = Face::from_vec(vec![1, 3]);
    assert_eq!(f.vertex_removed(3).tuple(), vec![1]);
    assert_eq!(f.vertex_removed(7).tuple(), vec![1, 3]);
    assert_eq!(f.vertex_inserted(2).tuple(), vec![1, 2, 3]);
    assert_eq!(f.vertex_inserted(1).tuple(), vec![1, 3]);
    assert_eq!(f.tuple(), vec![1, 3]);
}

#[test]
fn face_replace_verts_from_map() {
    let mut dict: FxHashMap<u32, u32> = FxHashMap::default();
    dict.insert(10u32, 2u32);
    dict.insert(20u32, 0u32);
    dict.insert(30u32, 2u32);
    let mut f = Face::from_vec(vec![10, 20]);
    f.replace_verts_from_map(&dict);
    assert_eq!(f.tuple(), vec![0, 2]);
    let mut g = Face::from_vec(vec![10, 30]);
    g.replace_verts_from_map(&dict);
    assert_eq!(g.tuple(), vec![2]);
}

#[test]
fn face_shrink_to_fit_keeps_the_vertices() {
    let mut f = Face::from_vec(vec![4, 1, 9]);
    f.remove(4);
    f.shrink_to_fit();
    assert_eq!(f.tuple(), vec![1, 9]);
}

#[test]
fn face_equality_and_hash_ignore_insertion_order() {
    let f = Face::from_vec(vec![7, 3, 11, 5]);
    let tuple = f.tuple();
    let orders: Vec<Vec<usize>> = vec![
        vec![0, 1, 2, 3],
        vec![3, 2, 1, 0],
        vec![1, 3, 0, 2],
        vec![2, 0, 3, 1],
        vec![1, 0, 3, 2],
    ];
    for order in orders {
        let shuffled: Vec<u32> = order.iter().map(|&i| tuple[i]).collect();
        let g = Face::from_vec(shuffled);
        assert_eq!(g, f);
        assert_eq!(hash_of(&g), hash_of(&f));
    }
    let mut h = Face::new();
    for v in [11, 3, 7, 5] {
        h.insert(v);
    }
    assert_eq!(h, f);
    assert_eq!(hash_of(&h), hash_of(&f));
    assert_ne!(Face::from_vec(vec![3, 5, 7]), f);
}

#[test]
fn face_precedes_orders_by_size_then_by_tuple() {
    let big = Face::from_vec(vec![0, 1, 2]);
    let hi = Face::from_vec(vec![1, 2]);
    let lo = Face::from_vec(vec![0, 2]);
    assert!(big.precedes(&hi));
    assert!(!hi.precedes(&big));
    assert!(hi.precedes(&lo));
    assert!(!lo.precedes(&hi));
    assert!(!lo.precedes(&lo));
}

#[test]
fn face_set_operations_in_place() {
    let b = Face::from_vec(vec![3, 4, 5]);
    let mut a = Face::from_vec(vec![1, 2, 3, 4]);
    a.intersect_with(&b);
    assert_eq!(a.tuple(), vec![3, 4]);
    let mut a = Face::from_vec(vec![1, 2, 3, 4]);
    a.subtract(&b);
    assert_eq!(a.tuple(), vec![1, 2]);
    let mut a = Face::from_vec(vec![1, 2, 3, 4]);
    a.unite_with(&b);
    assert_eq!(a.tuple(), vec![1, 2, 3, 4, 5]);
    let mut a = Face::from_vec(vec![1, 2]);
    a.intersect_with(&Face::from_vec(vec![7, 8]));
    assert!(a.is_empty());
    let mut a = Face::from_vec(vec![1, 2]);
    a.subtract(&Face::new());
    assert_eq!(a.tuple(), vec![1, 2]);
    a.subtract(&Face::from_vec(vec![2, 1, 0]));
    assert!(a.is_empty());
    a.unite_with(&Face::from_vec(vec![9]));
    assert_eq!(a.tuple(), vec![9]);
}

#[test]
fn face_set_operations_in_place_agree_with_those_that_make_new_faces() {
    let lists: Vec<Vec<u32>> = vec![vec![], vec![0], vec![0, 2, 4, 6], vec![1, 2, 3], vec![6, 5, 4, 3, 2, 1, 0]];
    for x in &lists {
        for y in &lists {
            let a = Face::from_vec(x.clone());
            let b = Face::from_vec(y.clone());
            let mut c = a.clone();
            c.intersect_with(&b);
            assert_eq!(c, a.intersection(&b));
            let mut c = a.clone();
            c.subtract(&b);
            assert_eq!(c, a.difference(&b));
            let mut c = a.clone();
            c.unite_with(&b);
            assert_eq!(c, a.union(&b));
        }
    }
}
