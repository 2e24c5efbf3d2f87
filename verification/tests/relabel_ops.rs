use sc_simplify::{Face, SimplicialComplex};

fn complex(list: &[&[u32]]) -> SimplicialComplex {
    SimplicialComplex::from_check_unique(list.iter().map(|f| Face::from_vec(f.to_vec())).collect())
}

fn tuples(sc: &SimplicialComplex) -> Vec<Vec<u32>> {
    sc.facets().iter().map(|f| f.tuple()).collect()
}

#[test]
fn relabel_names_the_vertices_in_the_order_of_their_labels() {
    let mut sc = complex(&[&[10, 20, 70], &[20, 30], &[5]]);
    sc.relabel_vertices();
    // 5 -> 0, 10 -> 1, 20 -> 2, 30 -> 3, 70 -> 4
    assert_eq!(tuples(&sc), vec![vec![1, 2, 4], vec![2, 3], vec![0]]);
}

#[test]
fn relabel_reverse_gives_the_greatest_label_the_name_zero() {
    let mut sc = complex(&[&[10, 20, 70], &[20, 30], &[5]]);
    sc.relabel_vertices_reverse();
    // 70 -> 0, 30 -> 1, 20 -> 2, 10 -> 3, 5 -> 4
    assert_eq!(tuples(&sc), vec![vec![0, 2, 3], vec![1, 2], vec![4]]);
}

#[test]
fn relabel_twice_is_relabel_once() {
    let inputs: Vec<&[&[u32]]> = vec![
        &[&[10, 20, 70], &[20, 30], &[5]],
        &[&[0, 1], &[1, 2]],
        &[&[100]],
        &[&[3, 9, 27], &[9, 81], &[2, 3], &[1000, 2000, 3000, 4000]],
    ];
    for list in inputs {
        let mut sc = complex(list);
        sc.relabel_vertices();
        let once = tuples(&sc);
        sc.relabel_vertices();
        assert_eq!(tuples(&sc), once);
    }
}

#[test]
fn relabel_keeps_the_shape() {
    let mut sc = complex(&[&[3, 9, 27], &[9, 81], &[2, 3], &[1000, 2000, 3000, 4000]]);
    let sizes: Vec<usize> = sc.facets().iter().map(|f| f.len()).collect();
    let vertices = sc.vertex_set().len();
    sc.relabel_vertices();
    assert_eq!(sc.facets().iter().map(|f| f.len()).collect::<Vec<usize>>(), sizes);
    assert_eq!(sc.vertex_set().tuple(), (0..vertices as u32).collect::<Vec<u32>>());
    sc.relabel_vertices_reverse();
    assert_eq!(sc.facets().iter().map(|f| f.len()).collect::<Vec<usize>>(), sizes);
    assert_eq!(sc.vertex_set().tuple(), (0..vertices as u32).collect::<Vec<u32>>());
}

#[test]
fn relabel_of_the_empty_complex_is_the_empty_complex() {
    let mut sc = SimplicialComplex::default();
    sc.relabel_vertices();
    assert!(sc.is_empty());
    sc.relabel_vertices_reverse();
    assert!(sc.is_empty());
    assert_eq!(sc.len(), 1);
}
