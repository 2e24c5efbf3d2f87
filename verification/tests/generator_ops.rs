use sc_simplify::pipeline::{simplify, Cli, Simplified};
use sc_simplify::{partial_bijection_complex, SimplicialComplex};
use std::collections::HashSet;

fn tuples(sc: &SimplicialComplex) -> Vec<Vec<u32>> {
    sc.facets().iter().map(|f| f.tuple()).collect()
}

fn euler_characteristic(sc: &SimplicialComplex) -> i64 {
    let mut seen: HashSet<Vec<u32>> = HashSet::new();
    for f in sc.facets() {
        let t = f.tuple();
        for mask in 1u32..(1u32 << t.len()) {
            let sub: Vec<u32> = (0..t.len()).filter(|i| mask & (1 << i) != 0).map(|i| t[i]).collect();
            seen.insert(sub);
        }
    }
    seen.iter().map(|f| if f.len() % 2 == 1 { 1 } else { -1 }).sum()
}

#[test]
fn partial_bijections_of_one_and_one() {
    assert_eq!(tuples(&partial_bijection_complex(1, 1).unwrap()), vec![vec![0]]);
}

#[test]
fn partial_bijections_with_an_empty_side() {
    assert!(partial_bijection_complex(0, 3).unwrap().is_empty());
    assert!(partial_bijection_complex(2, 0).unwrap().is_empty());
}

#[test]
fn partial_bijections_of_one_and_three_are_three_points() {
    assert_eq!(tuples(&partial_bijection_complex(1, 3).unwrap()), vec![vec![2], vec![1], vec![0]]);
}

#[test]
fn partial_bijections_of_two_and_three_are_a_circle_of_twelve_edges() {
    let sc = partial_bijection_complex(2, 3).unwrap();
    assert_eq!(sc.len(), 12);
    assert_eq!(sc.height(), 2);
    assert_eq!(sc.vertex_set().tuple(), (0..12).collect::<Vec<u32>>());
    assert_eq!(euler_characteristic(&sc), 0);
    for v in 0..12u32 {
        assert_eq!(sc.facets().iter().filter(|f| f.contains(v)).count(), 2);
    }
}

#[test]
fn partial_bijections_do_not_depend_on_the_order_of_the_sides() {
    assert_eq!(tuples(&partial_bijection_complex(2, 3).unwrap()), tuples(&partial_bijection_complex(3, 2).unwrap()));
}

#[test]
fn partial_bijections_of_three_and_three() {
    let sc = partial_bijection_complex(3, 3).unwrap();
    // six bijections and nine single pairs; a bijection is joined to its three pairs
    assert_eq!(sc.len(), 18);
    assert_eq!(sc.height(), 2);
    assert_eq!(sc.vertex_set().tuple(), (0..15).collect::<Vec<u32>>());
    assert_eq!(euler_characteristic(&sc), -3);
    assert_eq!(tuples(&sc), tuples(&partial_bijection_complex(3, 3).unwrap()));
    // the codes in their order: the pairs 1 2 3 9 18 27 81 162 243 and the
    // bijections 102 110 174 190 254 262; 102 is 3 + 18 + 81, the seventh code
    assert_eq!(
        tuples(&sc),
        vec![
            vec![12, 14],
            vec![12, 13],
            vec![9, 11],
            vec![9, 10],
            vec![6, 8],
            vec![6, 7],
            vec![5, 11],
            vec![5, 8],
            vec![4, 14],
            vec![4, 7],
            vec![3, 13],
            vec![3, 10],
            vec![2, 10],
            vec![2, 7],
            vec![1, 13],
            vec![1, 8],
            vec![0, 14],
            vec![0, 11],
        ]
    );
}

#[test]
fn simplifying_the_partial_bijections_keeps_the_euler_characteristic() {
    for (a, b) in [(2u8, 2u8), (2, 3), (3, 3), (2, 4)] {
        let sc = partial_bijection_complex(a, b).unwrap();
        let chi = euler_characteristic(&sc);
        match simplify(sc, &Cli { no_pair: true, ..Cli::default() }, &None) {
            Simplified::Single(out) => assert_eq!(euler_characteristic(&out), chi),
            _ => panic!("a single complex was asked for"),
        }
    }
}

#[test]
fn partial_bijections_of_three_and_four_have_chains_of_three() {
    let sc = partial_bijection_complex(3, 4).unwrap();
    // 24 injections, each with 6 orders in which to leave out pairs
    assert_eq!(sc.len(), 144);
    assert_eq!(sc.height(), 3);
    // 24 injections, 36 partial maps of two pairs, 12 single pairs
    assert_eq!(sc.vertex_set().len(), 72);
}

#[test]
fn partial_bijections_of_two_and_nine_are_144_edges() {
    let sc = partial_bijection_complex(2, 9).unwrap();
    // 72 ways to map two elements, two orders; 72 maps and 18 single pairs
    assert_eq!(sc.len(), 144);
    assert_eq!(sc.height(), 2);
    assert_eq!(sc.vertex_set().tuple(), (0..90).collect::<Vec<u32>>());
    assert_eq!(tuples(&sc), tuples(&partial_bijection_complex(9, 2).unwrap()));
}

#[test]
fn partial_bijections_of_one_and_a_large_set_are_points() {
    let sc = partial_bijection_complex(1, 255).unwrap();
    assert_eq!(sc.len(), 255);
    assert_eq!(sc.height(), 1);
}

#[test]
fn partial_bijections_with_too_many_chains_are_not_built() {
    // 9! * 9! chains are more than 2^32
    assert!(partial_bijection_complex(9, 9).is_none());
    assert!(partial_bijection_complex(5, 100).is_none());
    assert!(partial_bijection_complex(255, 255).is_none());
    assert!(partial_bijection_complex(200, 12).is_none());
}
