use gchemol_core::get_reduced_formula;
use gchemol_core::get_reduced_symbols;

#[test]
fn test_formula() {
    let symbols = vec!["C", "H", "C", "H", "H", "H"];
    let formula = get_reduced_formula(&symbols);
    assert_eq!("C2H4", formula);
    let symbols = vec!["C", "H", "C", "H", "H", "O", "H", "O"];
    let formula = get_reduced_formula(&symbols);
    assert_eq!("C2O2H4", formula);
}

#[test]
fn formula_of_empty_input_is_empty() {
    let symbols: Vec<&str> = vec![];
    assert_eq!(get_reduced_formula(&symbols), "");
}

#[test]
fn formula_single_symbol_has_no_count() {
    assert_eq!(get_reduced_formula(&["O"]), "O");
}

#[test]
fn formula_others_in_first_occurrence_order() {
    assert_eq!(get_reduced_formula(&["H", "N", "O", "O", "C", "N", "H", "H"]), "CN2O2H3");
    assert_eq!(get_reduced_formula(&["Fe", "Fe", "Fe", "Fe", "Fe", "Fe", "Fe", "Fe", "Fe", "Fe", "Fe", "Fe"]), "Fe12");
}

#[test]
fn reduced_symbols_counts_in_order() {
    let r = get_reduced_symbols(&["H", "O", "H"]);
    assert_eq!(r, vec![("H".to_string(), 2), ("O".to_string(), 1)]);
}
