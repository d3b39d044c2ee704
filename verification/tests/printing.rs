use gourd::printing::format_table;

#[test]
fn tabling_test() {
    let data = vec![
        vec!["a".to_string(), "b".to_string(), "c".to_string()],
        vec!["d".to_string(), "e".to_string(), "f".to_string()],
    ];
    let expected = "a | b | c\nd | e | f";
    assert_eq!(expected, format_table(data));
}

#[test]
fn tabling_empty_test() {
    let data = vec![];
    let expected = "";
    assert_eq!(expected, format_table(data));
}

#[test]
fn tabling_pads_columns_to_widest_cell() {
    let data = vec![
        vec!["name".to_string(), "x".to_string()],
        vec!["a".to_string(), "longer".to_string()],
    ];
    assert_eq!("name | x     \na    | longer", format_table(data));
}

#[test]
fn tabling_trims_trailing_padding() {
    let data = vec![vec!["ab".to_string(), "c".to_string()], vec!["d".to_string()]];
    assert_eq!("ab | c\nd", format_table(data));
}
