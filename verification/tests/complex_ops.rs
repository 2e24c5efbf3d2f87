use sc_simplify::{Face, SimplicialComplex};

fn faces(list: &[&[u32]]) -> Vec<Face> {
    list.iter().map(|f| Face::from_vec(f.to_vec())).collect()
}

fn tuples(sc: &SimplicialComplex) -> Vec<Vec<u32>> {
    sc.facets().iter().map(|f| f.tuple()).collect()
}

fn holds_invariants(sc: &SimplicialComplex) -> bool {
    let list = sc.facets();
    if list.is_empty() {
        return false;
    }
    for i in 0..list.len() {
        for j in 0..list.len() {
            if i != j && list[i].leq(&list[j]) {
                return false;
            }
            if i < j && list[i].len() < list[j].len() {
                return false;
            }
            if i != j && list[i] == list[j] {
                return false;
            }
        }
    }
    true
}

#[test]
fn default_complex_is_the_empty_complex() {
    let sc = SimplicialComplex::default();
    assert_eq!(sc.len(), 1);
    assert_eq!(sc.height(), 0);
    assert!(sc.is_empty());
    assert!(holds_invariants(&sc));
}

#[test]
fn from_check_unique_of_nothing_is_the_empty_complex() {
    let sc = SimplicialComplex::from_check_unique(Vec::new());
    assert_eq!(tuples(&sc), vec![Vec::<u32>::new()]);
    assert!(sc.is_empty());
}

#[test]
fn from_check_unique_of_many_faces() {
    // one triangle for every step around a band, each given twice, and its edges
    let mut list: Vec<Face> = Vec::new();
    for round in 0..2u32 {
        for i in 0..500u32 {
            let j = (i * 7 + round * 13) % 500;
            list.push(Face::from_vec(vec![j, j + 1, j + 2]));
            list.push(Face::from_vec(vec![j + 1, j]));
            list.push(Face::from_vec(vec![j + 2]));
        }
    }
    let sc = SimplicialComplex::from_check_unique(list);
    assert_eq!(sc.len(), 500);
    assert!(holds_invariants(&sc));
    assert_eq!(sc.facets()[0].tuple(), vec![499, 500, 501]);
    assert_eq!(sc.facets()[499].tuple(), vec![0, 1, 2]);
    assert_eq!(sc.vertex_set().tuple(), (0..502).collect::<Vec<u32>>());
}

#[test]
fn from_check_unique_drops_duplicates_and_faces_of_faces() {
    let sc = SimplicialComplex::from_check_unique(faces(&[
        &[1, 2],
        &[0, 1, 2],
        &[2, 1],
        &[3],
        &[2, 3],
        &[0, 1, 2],
        &[],
    ]));
    assert_eq!(tuples(&sc), vec![vec![0, 1, 2], vec![2, 3]]);
    assert!(holds_invariants(&sc));
    assert_eq!(sc.height(), 3);
    assert_eq!(sc.len(), 2);
    assert!(!sc.is_empty());
}

#[test]
fn single_vertex_repeated_gives_one_facet() {
    let sc = SimplicialComplex::from_check_unique(faces(&[&[4], &[4], &[4]]));
    assert_eq!(tuples(&sc), vec![vec![4]]);
    assert!(sc.is_contractible());
}

#[test]
fn facets_are_listed_by_size_and_then_by_descending_tuple() {
    let sc = SimplicialComplex::from_check_unique(faces(&[&[0, 1], &[5, 6, 7], &[2, 3], &[0, 9], &[1, 2, 4]]));
    assert_eq!(
        tuples(&sc),
        vec![vec![5, 6, 7], vec![1, 2, 4], vec![2, 3], vec![0, 9], vec![0, 1]]
    );
    assert!(holds_invariants(&sc));
}

#[test]
fn from_check_maximal_makes_a_list_without_duplicates_maximal() {
    let sc = SimplicialComplex::from_check_maximal(faces(&[&[1], &[1, 2], &[3, 4], &[4]]));
    assert_eq!(tuples(&sc), vec![vec![3, 4], vec![1, 2]]);
    assert!(holds_invariants(&sc));
}

#[test]
fn from_check_sorted_puts_an_antichain_in_order() {
    let sc = SimplicialComplex::from_check_sorted(faces(&[&[0, 1], &[1, 2, 3], &[0, 2]]));
    assert_eq!(tuples(&sc), vec![vec![1, 2, 3], vec![0, 2], vec![0, 1]]);
    assert!(holds_invariants(&sc));
    let none = SimplicialComplex::from_check_sorted(Vec::new());
    assert!(none.is_empty());
}

#[test]
fn the_three_constructors_agree_on_an_antichain() {
    let list: &[&[u32]] = &[&[7, 8], &[1, 2, 3], &[3, 4], &[0, 9, 10]];
    let a = tuples(&SimplicialComplex::from_check_unique(faces(list)));
    let b = tuples(&SimplicialComplex::from_check_maximal(faces(list)));
    let c = tuples(&SimplicialComplex::from_check_sorted(faces(list)));
    assert_eq!(a, b);
    assert_eq!(b, c);
}

#[test]
fn sortify_orders_and_maximalify_restores_the_invariants() {
    let mut sc = SimplicialComplex::from_facets(faces(&[&[1], &[1, 2, 3], &[2, 3], &[5, 6], &[1]]));
    assert_eq!(sc.len(), 5);
    sc.sortify();
    assert_eq!(tuples(&sc), vec![vec![1, 2, 3], vec![5, 6], vec![2, 3], vec![1]]);
    sc.maximalify();
    assert_eq!(tuples(&sc), vec![vec![1, 2, 3], vec![5, 6]]);
    assert!(holds_invariants(&sc));
    let mut none = SimplicialComplex::from_facets(Vec::new());
    none.maximalify();
    assert!(none.is_empty());
    assert_eq!(none.len(), 1);
}

#[test]
fn maximalify_of_faces_of_one_size_keeps_them_all() {
    let mut sc = SimplicialComplex::from_facets(faces(&[&[0, 1], &[2, 3], &[1, 2], &[2, 3]]));
    sc.maximalify();
    assert_eq!(tuples(&sc), vec![vec![2, 3], vec![1, 2], vec![0, 1]]);
}

#[test]
fn from_face_and_into_facets() {
    let f = Face::from_vec(vec![2, 5]);
    let sc = SimplicialComplex::from_face(&f);
    assert_eq!(tuples(&sc), vec![vec![2, 5]]);
    let list = sc.clone().into_facets();
    assert_eq!(list, vec![f]);
}

#[test]
fn iter_walks_the_facets_in_their_order() {
    let sc = SimplicialComplex::from_check_unique(faces(&[&[0, 1], &[2, 3, 4]]));
    let sizes: Vec<usize> = sc.iter().map(|f| f.len()).collect();
    assert_eq!(sizes, vec![3, 2]);
    assert_eq!(sc.iter().count(), sc.len());
}

#[test]
fn has_face_looks_for_a_facet_around_the_face() {
    let sc = SimplicialComplex::from_check_unique(faces(&[&[0, 1, 2], &[2, 3], &[4]]));
    assert!(sc.has_face(&Face::from_vec(vec![0, 2])));
    assert!(sc.has_face(&Face::from_vec(vec![0, 1, 2])));
    assert!(sc.has_face(&Face::from_vec(vec![3])));
    assert!(sc.has_face(&Face::from_vec(vec![4])));
    assert!(sc.has_face(&Face::new()));
    assert!(!sc.has_face(&Face::from_vec(vec![1, 3])));
    assert!(!sc.has_face(&Face::from_vec(vec![0, 1, 2, 3])));
    assert!(!sc.has_face(&Face::from_vec(vec![5])));
}

#[test]
fn vertex_set_is_the_union_of_the_facets() {
    let sc = SimplicialComplex::from_check_unique(faces(&[&[7, 1], &[3, 1], &[9]]));
    assert_eq!(sc.vertex_set().tuple(), vec![1, 3, 7, 9]);
    assert!(SimplicialComplex::default().vertex_set().is_empty());
}

#[test]
fn shrink_to_fit_keeps_the_complex() {
    let mut sc = SimplicialComplex::from_check_unique(faces(&[&[0, 1], &[1, 2]]));
    sc.shrink_to_fit();
    assert_eq!(tuples(&sc), vec![vec![1, 2], vec![0, 1]]);
}

#[test]
fn from_input_makes_any_input_a_complex() {
    let a = SimplicialComplex::from_input(faces(&[&[0], &[0, 1], &[0, 1]])).unwrap();
    assert_eq!(tuples(&a), vec![vec![0, 1]]);
    let c = SimplicialComplex::from_input(faces(&[&[2, 3], &[0, 1, 4]])).unwrap();
    assert_eq!(tuples(&c), vec![vec![0, 1, 4], vec![2, 3]]);
    let d = SimplicialComplex::from_input(Vec::new()).unwrap();
    assert!(d.is_empty());
}

#[test]
fn complexes_are_equal_exactly_if_their_facets_are() {
    let a = SimplicialComplex::from_check_unique(faces(&[&[0, 1], &[1, 2, 3], &[0, 2]]));
    let b = SimplicialComplex::from_check_unique(faces(&[&[2, 0], &[0, 1], &[3, 2, 1], &[1]]));
    let c = SimplicialComplex::from_check_unique(faces(&[&[0, 1], &[1, 2, 3]]));
    let d = SimplicialComplex::from_check_unique(faces(&[&[0, 1], &[1, 2, 3], &[0, 3]]));
    assert!(a == b);
    assert!(a != c);
    assert!(a != d);
    assert!(a.clone() == a);
    assert!(SimplicialComplex::default() == SimplicialComplex::from_check_unique(Vec::new()));
}
