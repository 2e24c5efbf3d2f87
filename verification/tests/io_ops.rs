use sc_simplify::io::{digits_of, read_input, write_pair, write_sc, write_xml, ParseError};
use sc_simplify::{Face, SimplicialComplex};

fn complex(list: &[&[u32]]) -> SimplicialComplex {
    SimplicialComplex::from_check_unique(list.iter().map(|f| Face::from_vec(f.to_vec())).collect())
}

fn parsed(text: &str) -> Result<Vec<Vec<u32>>, ParseError> {
    read_input(text.as_bytes()).map(|faces| faces.iter().map(|f| f.tuple()).collect())
}

#[test]
fn parse_reads_one_face_for_each_line() {
    assert_eq!(parsed("0 1 2\n3 4\n"), Ok(vec![vec![0, 1, 2], vec![3, 4]]));
    assert_eq!(parsed("2 1 0"), Ok(vec![vec![0, 1, 2]]));
    assert_eq!(parsed("5 5 5\n"), Ok(vec![vec![5]]));
}

#[test]
fn parse_of_the_empty_text_gives_no_face() {
    assert_eq!(parsed(""), Ok(vec![]));
    assert_eq!(parsed("\n"), Ok(vec![]));
    assert_eq!(parsed("  \n\t\n\r\n"), Ok(vec![]));
}

#[test]
fn parse_passes_over_blank_lines() {
    assert_eq!(parsed("\n0 1\n\n\n2\n\n"), Ok(vec![vec![0, 1], vec![2]]));
}

#[test]
fn parse_takes_blanks_of_any_kind_and_number() {
    assert_eq!(parsed("  0\t1   2\r\n3\r\n"), Ok(vec![vec![0, 1, 2], vec![3]]));
}

#[test]
fn parse_takes_leading_zeros_and_a_plus_sign() {
    assert_eq!(parsed("007 +5 0 00"), Ok(vec![vec![0, 5, 7]]));
}

#[test]
fn parse_takes_labels_below_two_to_the_32() {
    assert_eq!(parsed("4294967295 0"), Ok(vec![vec![0, 4294967295]]));
    assert_eq!(parsed("4294967296"), Err(ParseError { line: 0 }));
    assert_eq!(parsed("1\n99999999999999999999999999"), Err(ParseError { line: 1 }));
}

#[test]
fn parse_names_the_first_line_that_cannot_be_read() {
    assert_eq!(parsed("1 x"), Err(ParseError { line: 0 }));
    assert_eq!(parsed("1\n\n2 a\nb"), Err(ParseError { line: 2 }));
    assert_eq!(parsed("0 1\n-2"), Err(ParseError { line: 1 }));
    assert_eq!(parsed("0 1\n1.5"), Err(ParseError { line: 1 }));
    assert_eq!(parsed("+"), Err(ParseError { line: 0 }));
    assert_eq!(parsed("1+1"), Err(ParseError { line: 0 }));
    assert_eq!(parsed("0,1"), Err(ParseError { line: 0 }));
}

#[test]
fn digits_of_labels() {
    assert_eq!(digits_of(0), b"0".to_vec());
    assert_eq!(digits_of(7), b"7".to_vec());
    assert_eq!(digits_of(10), b"10".to_vec());
    assert_eq!(digits_of(4294967295), b"4294967295".to_vec());
}

#[test]
fn write_lists_larger_facets_first() {
    let sc = complex(&[&[0, 1], &[2, 3, 4], &[1, 2], &[5]]);
    assert_eq!(write_sc(&sc), b"2 3 4\n1 2\n0 1\n5\n".to_vec());
}

#[test]
fn write_pads_every_label_to_the_widest() {
    let sc = complex(&[&[2, 3, 12], &[0, 100]]);
    assert_eq!(write_sc(&sc), b"  2   3  12\n  0 100\n".to_vec());
    let narrow = complex(&[&[9, 10]]);
    assert_eq!(write_sc(&narrow), b" 9 10\n".to_vec());
}

#[test]
fn write_of_the_empty_complex_is_an_empty_line() {
    assert_eq!(write_sc(&SimplicialComplex::default()), b"\n".to_vec());
}

#[test]
fn write_pair_separates_by_an_empty_line() {
    let a = complex(&[&[0, 1, 2], &[2, 3]]);
    let b = complex(&[&[10, 11]]);
    assert_eq!(write_pair(&a, &b), b"0 1 2\n2 3\n\n10 11\n".to_vec());
}

#[test]
fn write_then_parse_gives_the_facets_back() {
    let sc = complex(&[&[2, 3, 12], &[0, 100], &[7]]);
    let text = write_sc(&sc);
    let faces = read_input(&text).unwrap();
    assert_eq!(faces, sc.clone().into_facets());
}

#[test]
fn write_xml_lists_the_facets_in_brackets() {
    let sc = complex(&[&[0, 1, 2], &[2, 30]]);
    let text = String::from_utf8(write_xml(&sc)).unwrap();
    assert_eq!(
        text,
        "<?xml version=\"1.0\" encoding=\"UTF-8\"?>\n<SimplicialComplexV2 type=\"SCSimplicialComplex\">\n<SCFacetsEx type=\"SCArray\">[[0,1,2],[2,30]]</SCFacetsEx>\n</SimplicialComplexV2>\n"
    );
    let none = String::from_utf8(write_xml(&SimplicialComplex::default())).unwrap();
    assert!(none.contains("[[]]"));
}
