use sc_simplify::pipeline::{simplify, simplify_with, Cli, Event, Simplified};
use sc_simplify::io::{read_input, write_pair, write_sc};
use sc_simplify::SimplicialComplex;
use std::sync::atomic::AtomicBool;
use std::sync::Arc;

fn complex(text: &str) -> SimplicialComplex {
    let faces = read_input(text.as_bytes()).unwrap();
    SimplicialComplex::from_input(faces).unwrap()
}

fn show(out: &Simplified) -> String {
    match out {
        Simplified::Single(a) => String::from_utf8(write_sc(a)).unwrap(),
        Simplified::Pair(a, b) => String::from_utf8(write_pair(a, b)).unwrap(),
        Simplified::Nothing => String::new(),
    }
}

fn run(text: &str, cli: Cli) -> String {
    show(&simplify(complex(text), &cli, &None))
}

fn untouched() -> Cli {
    Cli { skip_nerve: true, max_pinch_loops: 0, ..Cli::default() }
}

#[test]
fn default_options() {
    let cli = Cli::default();
    assert!(!cli.check_input);
    assert!(!cli.skip_nerve);
    assert_eq!(cli.max_pinch_loops, 2);
    assert!(!cli.no_pair);
    assert!(!cli.skip_minimize_pair);
    assert!(!cli.xml);
    assert!(!cli.quiet);
}

#[test]
fn empty_input_gives_empty_output() {
    assert_eq!(run("", Cli::default()), "");
    assert_eq!(run("\n\n", Cli::default()), "");
    assert_eq!(run("", Cli { no_pair: true, ..Cli::default() }), "\n");
}

#[test]
fn single_facet_without_reduction_stays_as_it_is() {
    let cli = Cli { no_pair: true, ..untouched() };
    assert_eq!(run("0 1 2", cli), "0 1 2\n");
    assert_eq!(run("7 3 5", cli), "3 5 7\n");
    let pair = Cli { skip_minimize_pair: true, ..untouched() };
    assert_eq!(run("0 1 2", pair), "0 1 2\n\n0 1 2\n");
}

#[test]
fn single_facet_is_reduced_to_a_point() {
    assert_eq!(run("0 1 2", Cli { no_pair: true, ..Cli::default() }), "0\n");
    assert_eq!(run("0 1 2", Cli { skip_minimize_pair: true, ..Cli::default() }), "0\n\n0\n");
    // the contractible subcomplex is all there is: both members of the small pair are empty
    assert_eq!(run("0 1 2", Cli::default()), "\n\n\n");
}

#[test]
fn triangle_boundary_stays_a_circle() {
    assert_eq!(run("0 1\n1 2\n2 0", Cli { no_pair: true, ..Cli::default() }), "1 2\n0 2\n0 1\n");
    assert_eq!(
        run("0 1\n1 2\n2 0", Cli { skip_minimize_pair: true, ..Cli::default() }),
        "1 2\n0 2\n0 1\n\n1 2\n0 2\n"
    );
    assert_eq!(run("0 1\n1 2\n2 0", Cli::default()), "0 1\n\n1\n0\n");
}

#[test]
fn two_disjoint_edges_keep_two_components() {
    let raw = Cli { skip_minimize_pair: true, ..untouched() };
    assert_eq!(run("0 1\n2 3", raw), "2 3\n0 1\n\n2 3\n");
    assert_eq!(run("0 1\n2 3", Cli { no_pair: true, ..Cli::default() }), "1\n0\n");
    assert_eq!(run("0 1\n2 3", Cli { skip_minimize_pair: true, ..Cli::default() }), "1\n0\n\n1\n");
}

#[test]
fn sphere_is_not_reduced() {
    let text = "0 1 2\n0 1 3\n0 2 3\n1 2 3";
    let sc = complex(text);
    assert!(!sc.is_contractible());
    let mut pinched = sc.clone();
    assert!(!pinched.pinch(&None));
    assert_eq!(run(text, Cli { no_pair: true, ..Cli::default() }), "1 2 3\n0 2 3\n0 1 3\n0 1 2\n");
    assert_eq!(run(text, Cli::default()), "0 1 2\n\n1 2\n0 2\n0 1\n");
    assert_eq!(
        run(text, Cli { skip_minimize_pair: true, ..Cli::default() }),
        "1 2 3\n0 2 3\n0 1 3\n0 1 2\n\n1 2 3\n0 2 3\n0 1 3\n"
    );
}

#[test]
fn cone_is_reduced_to_a_point() {
    for base in ["0 1\n1 2\n2 0", "0 1\n2 3", "0 1 2\n0 1 3\n0 2 3\n1 2 3", "0\n1\n2"] {
        let cone: String = base.lines().map(|l| format!("{} 99\n", l)).collect();
        let out = simplify(complex(&cone), &Cli { no_pair: true, ..Cli::default() }, &None);
        match out {
            Simplified::Single(sc) => {
                assert!(sc.is_contractible());
                assert_eq!(sc.len(), 1);
            }
            _ => panic!("a single complex was asked for"),
        }
    }
}

#[test]
fn cone_has_itself_as_contractible_subcomplex() {
    let cone = "0 1 9\n1 2 9\n2 0 9";
    let sc = complex(cone);
    let sub = sc.contractible_subcomplex();
    assert_eq!(sub.len(), 3);
    assert_eq!(sc.len(), 3);
    assert!(sc.facets_outside(&sub).is_empty());
}

#[test]
fn pinch_loops_are_bounded() {
    let text = "0 1\n1 2\n2 3\n3 4\n4 5\n5 0";
    let none = run(text, Cli { no_pair: true, skip_nerve: true, max_pinch_loops: 0, ..Cli::default() });
    assert_eq!(none, "4 5\n3 4\n2 3\n1 2\n0 5\n0 1\n");
    let some = run(text, Cli { no_pair: true, skip_nerve: true, max_pinch_loops: 5, ..Cli::default() });
    assert_eq!(some, "1 2\n0 2\n0 1\n");
}

#[test]
fn a_set_flag_gives_the_complex_as_it_stands() {
    let flag = Some(Arc::new(AtomicBool::new(true)));
    let out = simplify(complex("0 1 2\n2 3"), &Cli::default(), &flag);
    assert_eq!(show(&out), "0 1 2\n2 3\n");
}

#[test]
fn a_flag_that_is_not_set_changes_nothing() {
    let flag = Some(Arc::new(AtomicBool::new(false)));
    for text in ["0 1 2", "0 1\n1 2\n2 0", "0 1 2\n0 1 3\n0 2 3\n1 2 3", "0 1\n2 3"] {
        let with = simplify(complex(text), &Cli::default(), &flag);
        assert_eq!(show(&with), run(text, Cli::default()));
    }
}

#[test]
fn check_input_makes_the_input_maximal() {
    let text = "0 1\n0 1 2\n1\n0 1 2";
    assert_eq!(run(text, Cli { check_input: true, no_pair: true, ..untouched() }), "0 1 2\n");
    assert_eq!(run(text, Cli { no_pair: true, ..untouched() }), "0 1 2\n");
}

fn euler_characteristic(sc: &SimplicialComplex) -> i64 {
    let mut seen: std::collections::HashSet<Vec<u32>> = std::collections::HashSet::new();
    for f in sc.facets() {
        let t = f.tuple();
        for mask in 1u32..(1u32 << t.len()) {
            let sub: Vec<u32> = (0..t.len()).filter(|i| mask & (1 << i) != 0).map(|i| t[i]).collect();
            seen.insert(sub);
        }
    }
    seen.iter().map(|f| if f.len() % 2 == 1 { 1 } else { -1 }).sum()
}

#[test]
fn a_grid_of_triangles_is_reduced_to_a_point() {
    let mut text = String::new();
    let side = 9u32;
    for r in 0..side - 1 {
        for c in 0..side - 1 {
            let a = r * side + c;
            text.push_str(&format!("{} {} {}\n", a, a + 1, a + side));
            text.push_str(&format!("{} {} {}\n", a + 1, a + side, a + side + 1));
        }
    }
    let sc = complex(&text);
    assert_eq!(sc.len(), 128);
    assert_eq!(euler_characteristic(&sc), 1);
    assert_eq!(run(&text, Cli { no_pair: true, ..Cli::default() }), "0\n");
}

#[test]
fn a_torus_keeps_its_euler_characteristic() {
    let mut text = String::new();
    for i in 0..7u32 {
        text.push_str(&format!("{} {} {}\n", i, (i + 1) % 7, (i + 3) % 7));
        text.push_str(&format!("{} {} {}\n", i, (i + 2) % 7, (i + 3) % 7));
    }
    let sc = complex(&text);
    assert_eq!(sc.len(), 14);
    assert_eq!(euler_characteristic(&sc), 0);
    assert!(!sc.is_contractible());
    match simplify(sc, &Cli { no_pair: true, ..Cli::default() }, &None) {
        Simplified::Single(out) => {
            assert_eq!(euler_characteristic(&out), 0);
            assert!(!out.is_contractible());
        }
        _ => panic!("a single complex was asked for"),
    }
    match simplify(complex(&text), &Cli { skip_minimize_pair: true, ..Cli::default() }, &None) {
        Simplified::Pair(whole, sub) => {
            assert_eq!(euler_characteristic(&whole), 0);
            assert!(sub.is_contractible());
            assert_eq!(euler_characteristic(&sub), 1);
            for f in sub.facets() {
                assert!(whole.facets().contains(f));
            }
        }
        _ => panic!("a pair was asked for"),
    }
}

fn kinds(events: &[Event]) -> Vec<&'static str> {
    events
        .iter()
        .map(|e| match e {
            Event::NerveBegins => "nerve begins",
            Event::NerveEnds { .. } => "nerve ends",
            Event::PinchBegins => "pinch begins",
            Event::PinchEnds { .. } => "pinch ends",
            Event::AccretionBegins => "accretion begins",
            Event::AccretionEnds { .. } => "accretion ends",
            Event::MinimizeBegins => "minimize begins",
            Event::MinimizeEnds { .. } => "minimize ends",
        })
        .collect()
}

#[test]
fn a_run_reports_its_stages_in_their_order() {
    let seen = std::cell::RefCell::new(Vec::new());
    let report = |event: Event| seen.borrow_mut().push(event);
    let text = "0 1 2\n0 1 3\n0 2 3\n1 2 3";
    let out = simplify_with(complex(text), &Cli::default(), &None, &report);
    assert_eq!(show(&out), run(text, Cli::default()));
    let events = seen.into_inner();
    assert_eq!(
        kinds(&events),
        vec![
            "nerve begins",
            "nerve ends",
            "pinch begins",
            "pinch ends",
            "accretion begins",
            "accretion ends",
            "minimize begins",
            "minimize ends"
        ]
    );
    match events[1] {
        Event::NerveEnds { nerves, vertices, facets } => {
            assert_eq!((nerves, vertices, facets), (0, 4, 4));
        }
        _ => panic!("the second event ends the nerves"),
    }
    match events[3] {
        Event::PinchEnds { sweeps, vertices, facets } => {
            assert_eq!((sweeps, vertices, facets), (1, 4, 4));
        }
        _ => panic!("the fourth event ends the pinching"),
    }
    match events[5] {
        Event::AccretionEnds { vertices, facets } => assert_eq!((vertices, facets), (4, 3)),
        _ => panic!("the sixth event ends the accretion"),
    }
    match events[7] {
        Event::MinimizeEnds { vertices, facets, sub_vertices, sub_facets } => {
            assert_eq!((vertices, facets, sub_vertices, sub_facets), (3, 1, 3, 3));
        }
        _ => panic!("the last event ends the minimizing"),
    }
}

#[test]
fn a_run_reports_only_the_stages_that_it_makes() {
    let seen = std::cell::RefCell::new(Vec::new());
    let report = |event: Event| seen.borrow_mut().push(event);
    let cli = Cli { skip_nerve: true, max_pinch_loops: 0, no_pair: true, ..Cli::default() };
    simplify_with(complex("0 1 2"), &cli, &None, &report);
    assert!(seen.borrow().is_empty());
    let cli = Cli { skip_minimize_pair: true, max_pinch_loops: 0, ..Cli::default() };
    simplify_with(complex("0 1\n1 2\n2 3\n3 0"), &cli, &None, &report);
    assert_eq!(
        kinds(&seen.borrow()),
        vec!["nerve begins", "nerve ends", "accretion begins", "accretion ends"]
    );
}
