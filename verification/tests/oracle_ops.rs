use sc_simplify::{Face, SimplicialComplex};

fn complex(list: &[&[u32]]) -> SimplicialComplex {
    SimplicialComplex::from_check_unique(list.iter().map(|f| Face::from_vec(f.to_vec())).collect())
}

fn tuples(sc: &SimplicialComplex) -> Vec<Vec<u32>> {
    sc.facets().iter().map(|f| f.tuple()).collect()
}

fn octahedron() -> SimplicialComplex {
    let mut list: Vec<Vec<u32>> = Vec::new();
    for a in [0u32, 1] {
        for b in [2u32, 3] {
            for c in [4u32, 5] {
                list.push(vec![a, b, c]);
            }
        }
    }
    SimplicialComplex::from_check_unique(list.into_iter().map(Face::from_vec).collect())
}

// a disk: a triangle inside a triangle, the ring between them cut into six
const DISK: &[&[u32]] = &[
    &[3, 4, 5],
    &[0, 3, 4],
    &[0, 1, 4],
    &[1, 4, 5],
    &[1, 2, 5],
    &[2, 5, 3],
    &[2, 0, 3],
];

#[test]
fn the_empty_complex_is_not_contractible() {
    assert!(!SimplicialComplex::default().is_contractible());
}

#[test]
fn a_single_facet_is_contractible() {
    assert!(complex(&[&[7]]).is_contractible());
    assert!(complex(&[&[0, 1, 2, 3]]).is_contractible());
}

#[test]
fn several_points_are_not_contractible() {
    assert!(!complex(&[&[0], &[1]]).is_contractible());
    assert!(!complex(&[&[0], &[1], &[2]]).is_contractible());
}

#[test]
fn two_facets_are_contractible_exactly_if_they_meet() {
    assert!(complex(&[&[0, 1], &[1, 2]]).is_contractible());
    assert!(complex(&[&[0, 1, 2], &[2, 3]]).is_contractible());
    assert!(!complex(&[&[0, 1], &[2, 3]]).is_contractible());
    assert!(!complex(&[&[0, 1, 2], &[3]]).is_contractible());
}

#[test]
fn spheres_are_not_contractible() {
    assert!(!complex(&[&[0, 1], &[1, 2], &[0, 2]]).is_contractible());
    assert!(!complex(&[&[0, 1, 2], &[0, 1, 3], &[0, 2, 3], &[1, 2, 3]]).is_contractible());
    assert!(!octahedron().is_contractible());
}

#[test]
fn paths_and_cones_are_contractible() {
    assert!(complex(&[&[0, 1], &[1, 2], &[2, 3]]).is_contractible());
    assert!(complex(&[&[0, 1, 9], &[1, 2, 9], &[2, 0, 9]]).is_contractible());
    assert!(complex(&[&[0, 1, 2, 9], &[0, 1, 3, 9], &[0, 2, 3, 9], &[1, 2, 3, 9]]).is_contractible());
}

#[test]
fn a_complex_that_its_nerve_does_not_make_smaller_is_tested_by_accretion() {
    // six vertices, and the nerve has six facets: no progress by the nerve
    let disk = complex(DISK);
    assert_eq!(disk.vertex_set().len(), disk.nerve().len());
    assert!(disk.is_contractible());
    let sphere = octahedron();
    assert_eq!(sphere.vertex_set().len(), sphere.nerve().len());
    assert!(!sphere.is_contractible());
}

#[test]
fn a_small_complex_that_its_nerve_does_not_make_smaller_counts_as_not_contractible() {
    let circle = complex(&[&[0, 1], &[1, 2], &[2, 3], &[0, 3]]);
    assert_eq!(circle.vertex_set().len(), circle.nerve().len());
    assert!(!circle.is_contractible());
}

#[test]
fn deformation_retract_by_accretion() {
    let edge = complex(&[&[0, 1]]);
    assert!(edge.is_deformation_retract(&complex(&[&[0, 1], &[1, 2]])));
    assert!(edge.is_deformation_retract(&complex(&[&[0, 1], &[1, 2], &[2, 3]])));
    assert!(!edge.is_deformation_retract(&complex(&[&[2, 3]])));
    assert!(!edge.is_deformation_retract(&complex(&[&[0, 1], &[1, 2], &[0, 2]])));
    let none = SimplicialComplex::default();
    assert!(none.is_deformation_retract(&SimplicialComplex::default()));
    assert!(!none.is_deformation_retract(&edge));
    assert!(!edge.is_deformation_retract(&none));
}

#[test]
fn enlarge_from_complex_takes_what_it_can() {
    let mut grown = complex(&[&[0, 1]]);
    let mut other = complex(&[&[1, 2], &[0, 2], &[5, 6]]);
    let all = grown.enlarge_from_complex(&mut other, false);
    assert!(!all);
    // the second edge is attached along one point; the third would close the circle
    assert_eq!(tuples(&grown), vec![vec![1, 2], vec![0, 1]]);
    assert_eq!(tuples(&other), vec![vec![5, 6], vec![0, 2]]);
}

#[test]
fn enlarge_from_complex_with_care_makes_the_result_maximal() {
    let mut grown = complex(&[&[0, 1]]);
    let mut other = complex(&[&[0, 1, 2]]);
    assert!(grown.enlarge_from_complex(&mut other, true));
    assert_eq!(tuples(&grown), vec![vec![0, 1, 2]]);
    assert!(other.is_empty());
}

#[test]
fn enlarge_from_the_empty_complex_does_nothing() {
    let mut none = SimplicialComplex::default();
    let mut other = complex(&[&[0, 1]]);
    assert!(!none.enlarge_from_complex(&mut other, false));
    assert!(none.is_empty());
    assert_eq!(tuples(&other), vec![vec![0, 1]]);
    let mut again = SimplicialComplex::default();
    assert!(none.enlarge_from_complex(&mut again, true));
}

#[test]
fn contractible_subcomplex_of_a_sphere_leaves_one_facet_out() {
    let sc = complex(&[&[0, 1, 2], &[0, 1, 3], &[0, 2, 3], &[1, 2, 3]]);
    let before = tuples(&sc);
    let sub = sc.contractible_subcomplex();
    assert_eq!(tuples(&sub), vec![vec![1, 2, 3], vec![0, 2, 3], vec![0, 1, 3]]);
    assert_eq!(tuples(&sc), before);
    assert!(sub.is_contractible());
    let (rest, bnd) = sc.minimize_pair(sub);
    assert_eq!(tuples(&rest), vec![vec![0, 1, 2]]);
    assert_eq!(tuples(&bnd), vec![vec![1, 2], vec![0, 2], vec![0, 1]]);
    assert_eq!(tuples(&sc), before);
}

#[test]
fn contractible_subcomplex_is_contractible_and_inside() {
    let inputs: Vec<SimplicialComplex> = vec![
        complex(&[&[0, 1], &[1, 2], &[0, 2]]),
        complex(&[&[0, 1], &[2, 3]]),
        complex(DISK),
        octahedron(),
        complex(&[&[4]]),
        complex(&[&[0, 1, 2], &[2, 3], &[3, 4], &[4, 2], &[7, 8]]),
    ];
    for whole in inputs {
        let before = tuples(&whole);
        let sub = whole.contractible_subcomplex();
        assert_eq!(tuples(&whole), before);
        assert!(sub.is_contractible());
        assert!(sub.facets().contains(&whole.facets()[0]));
        for f in sub.facets() {
            assert!(whole.facets().contains(f));
        }
        let rest = whole.facets_outside(&sub);
        if !rest.is_empty() {
            for f in rest.facets() {
                assert!(whole.facets().contains(f));
                assert!(!sub.facets().contains(f));
            }
            assert_eq!(sub.len() + rest.len(), whole.len());
        } else {
            assert_eq!(sub.len(), whole.len());
        }
    }
}

#[test]
fn contractible_subcomplex_of_a_contractible_complex_takes_all() {
    let sc = complex(DISK);
    let sub = sc.contractible_subcomplex();
    assert_eq!(sub.len(), 7);
    assert_eq!(tuples(&sub), tuples(&sc));
    let (rest, bnd) = sc.minimize_pair(sub);
    assert!(rest.is_empty());
    assert!(bnd.is_empty());
}

#[test]
fn facets_outside_takes_the_shared_facets_away() {
    let a = complex(&[&[0, 1, 2], &[3, 4], &[2, 3], &[7]]);
    let b = complex(&[&[3, 4], &[0, 1, 2], &[9, 10]]);
    assert_eq!(tuples(&a.facets_outside(&b)), vec![vec![2, 3], vec![7]]);
    assert_eq!(tuples(&b.facets_outside(&a)), vec![vec![9, 10]]);
    assert!(a.facets_outside(&a).is_empty());
    assert_eq!(tuples(&a.facets_outside(&SimplicialComplex::default())), tuples(&a));
}

#[test]
fn intersection_with_complex_meets_facet_by_facet() {
    let a = complex(&[&[0, 1, 2], &[3, 4]]);
    let b = complex(&[&[1, 2, 3], &[4, 5], &[0, 9]]);
    assert_eq!(
        tuples(&a.intersection_with_complex(&b)),
        vec![vec![1, 2], vec![4], vec![3], vec![0]]
    );
    let c = complex(&[&[0, 1]]);
    assert!(c.intersection_with_complex(&complex(&[&[2, 3]])).is_empty());
}

#[test]
fn minimize_pair_gives_what_is_outside_and_where_it_meets_the_subcomplex() {
    let whole = complex(&[&[0, 1, 2], &[2, 3], &[3, 4], &[4, 5, 6]]);
    let sub = complex(&[&[0, 1, 2], &[2, 3]]);
    let (rest, bnd) = whole.minimize_pair(sub);
    assert_eq!(tuples(&rest), vec![vec![4, 5, 6], vec![3, 4]]);
    assert_eq!(tuples(&bnd), vec![vec![3]]);
}
