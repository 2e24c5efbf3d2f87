use sc_simplify::{Face, SimplicialComplex};

fn complex(list: &[&[u32]]) -> SimplicialComplex {
    SimplicialComplex::from_check_unique(list.iter().map(|f| Face::from_vec(f.to_vec())).collect())
}

fn tuples(sc: &SimplicialComplex) -> Vec<Vec<u32>> {
    sc.facets().iter().map(|f| f.tuple()).collect()
}

const TRAPPED: &[&[u32]] = &[&[0, 10], &[0, 1, 11], &[1, 2, 3], &[0, 1, 2], &[2, 3, 12], &[3, 13]];

#[test]
fn nerve_of_a_simplex_is_a_point() {
    assert_eq!(tuples(&complex(&[&[0, 1, 2]]).nerve()), vec![vec![0]]);
}

#[test]
fn nerve_of_the_empty_complex_is_empty() {
    let n = SimplicialComplex::default().nerve();
    assert!(n.is_empty());
    assert_eq!(n.len(), 1);
}

#[test]
fn nerve_of_a_path_of_two_edges_is_an_edge() {
    assert_eq!(tuples(&complex(&[&[0, 1], &[1, 2]]).nerve()), vec![vec![0, 1]]);
}

#[test]
fn nerve_of_two_disjoint_edges_is_two_points() {
    assert_eq!(tuples(&complex(&[&[0, 1], &[2, 3]]).nerve()), vec![vec![1], vec![0]]);
}

#[test]
fn nerve_of_a_triangle_boundary_is_a_triangle_boundary() {
    // facets in order: {1,2} {0,2} {0,1}; vertex 0 lies in the facets 1 and 2
    assert_eq!(
        tuples(&complex(&[&[0, 1], &[1, 2], &[0, 2]]).nerve()),
        vec![vec![1, 2], vec![0, 2], vec![0, 1]]
    );
}

#[test]
fn nerve_uses_facet_places_as_labels() {
    // facets in order: {5,6,7} at 0, {7,8} at 1; only vertex 7 lies in both
    assert_eq!(tuples(&complex(&[&[7, 8], &[5, 6, 7]]).nerve()), vec![vec![0, 1]]);
}

#[test]
fn nerve_reduce_of_a_simplex_takes_one_nerve() {
    let mut sc = complex(&[&[0, 1, 2]]);
    assert_eq!(sc.nerve_reduce(), 1);
    assert_eq!(tuples(&sc), vec![vec![0]]);
}

#[test]
fn nerve_reduce_leaves_a_sphere_alone() {
    let mut sc = complex(&[&[0, 1, 2], &[0, 1, 3], &[0, 2, 3], &[1, 2, 3]]);
    assert_eq!(sc.nerve_reduce(), 0);
    assert_eq!(
        tuples(&sc),
        vec![vec![1, 2, 3], vec![0, 2, 3], vec![0, 1, 3], vec![0, 1, 2]]
    );
}

#[test]
fn nerve_reduce_of_the_empty_complex_takes_no_nerve() {
    let mut sc = SimplicialComplex::default();
    assert_eq!(sc.nerve_reduce(), 0);
    assert!(sc.is_empty());
}

#[test]
fn nerve_reduce_of_a_cone_gives_a_point() {
    let mut sc = complex(&[&[0, 1, 9], &[1, 2, 9], &[2, 0, 9]]);
    let n = sc.nerve_reduce();
    assert!(n > 0);
    assert_eq!(tuples(&sc), vec![vec![0]]);
}

#[test]
fn nerve_reduce_a_second_time_takes_no_nerve() {
    let inputs: Vec<&[&[u32]]> = vec![
        &[&[0, 1, 2]],
        &[&[0, 1], &[1, 2], &[0, 2]],
        &[&[0, 1], &[2, 3]],
        &[&[0, 1, 2], &[0, 1, 3], &[0, 2, 3], &[1, 2, 3]],
        &[&[0, 1, 9], &[1, 2, 9], &[2, 0, 9]],
        &[&[0, 1], &[1, 2]],
        &[&[0, 1, 2], &[2, 3, 4], &[4, 5, 0]],
        &[&[5]],
    ];
    for list in inputs {
        let mut sc = complex(list);
        sc.nerve_reduce();
        let after = tuples(&sc);
        assert_eq!(sc.nerve_reduce(), 0);
        assert_eq!(tuples(&sc), after);
    }
}

#[test]
fn nerve_reduce_may_stop_on_a_complex_that_it_would_reduce_further() {
    // after an odd number of nerves the reduction keeps the nerve taken last,
    // and that one may still have a vertex that all facets around it share
    let mut sc = complex(TRAPPED);
    assert_eq!(sc.nerve_reduce(), 1);
    assert_eq!(
        tuples(&sc),
        vec![vec![2, 3, 5], vec![1, 2, 3], vec![0, 1, 4], vec![0, 1, 3]]
    );
    assert_eq!(sc.nerve_reduce(), 3);
}

#[test]
fn nerve_reduce_of_a_path_of_four_edges_stops_at_a_path_of_three() {
    let mut sc = complex(&[&[0, 1], &[1, 2], &[2, 3], &[3, 4]]);
    assert_eq!(sc.nerve_reduce(), 1);
    assert_eq!(tuples(&sc), vec![vec![2, 3], vec![1, 2], vec![0, 1]]);
    assert!(sc.nerve_reduce() > 0);
}

#[test]
fn nerve_reduce_keeps_what_the_oracle_says() {
    let inputs: Vec<&[&[u32]]> = vec![
        &[&[0, 1, 2]],
        &[&[0, 1], &[1, 2], &[0, 2]],
        &[&[0, 1], &[2, 3]],
        &[&[0, 1, 2], &[0, 1, 3], &[0, 2, 3], &[1, 2, 3]],
        &[&[0, 1, 9], &[1, 2, 9], &[2, 0, 9]],
        &[&[0, 1], &[1, 2], &[2, 3]],
        &[&[3], &[4]],
        TRAPPED,
    ];
    for list in inputs {
        let mut sc = complex(list);
        let before = sc.is_contractible();
        sc.nerve_reduce();
        assert_eq!(sc.is_contractible(), before);
    }
}
