use logic_analyzer::expr::Expr;
use logic_analyzer::k_map::{k_map, not_supported_message, KMap, KarnaughMap};
use logic_analyzer::logic_gates::{GateType, Netlist};
use logic_analyzer::parser::parse_expr;
use logic_analyzer::text::{bit_cells, bit_text, bits_text, join_names};
use logic_analyzer::truth_table::truth_table;

fn grid_of(text: &str) -> KarnaughMap {
    match k_map(&parse_expr(text).unwrap()) {
        KMap::Grid(grid) => grid,
        KMap::NotSupported(_) => panic!("no map"),
    }
}

#[test]
fn bits_are_shown_as_digits() {
    assert_eq!(bit_text(true), "1");
    assert_eq!(bit_text(false), "0");
    assert_eq!(bits_text(&vec![false, true, true, false]), "0110");
    assert_eq!(bits_text(&vec![]), "");
    assert_eq!(bit_cells(&vec![true, false]), vec!["1", "0"]);
}

#[test]
fn names_are_joined_without_a_gap() {
    let names = vec!["A".to_string(), "bc".to_string(), "D".to_string()];
    assert_eq!(join_names(&names), "AbcD");
    assert_eq!(join_names(&Vec::new()), "");
}

#[test]
fn truth_table_is_shown_with_header_and_digits() {
    let t = truth_table(&parse_expr("A | B * C").unwrap());
    assert_eq!(t.header(), vec!["A", "B", "C", "OUT"]);
    assert_eq!(t.row_cells(0), vec!["0", "0", "0", "0"]);
    assert_eq!(t.row_cells(3), vec!["0", "1", "1", "1"]);
    assert_eq!(t.row_cells(4), vec!["1", "0", "0", "1"]);
}

#[test]
fn k_map_is_shown_with_codes_and_digits() {
    let grid = grid_of("A | B * C");
    assert_eq!(grid.corner_label(), "A\\BC");
    assert_eq!(grid.header_cells(), vec!["A\\BC", "00", "01", "11", "10"]);
    assert_eq!(grid.row_cells(0), vec!["0", "0", "0", "1", "0"]);
    assert_eq!(grid.row_cells(1), vec!["1", "1", "1", "1", "1"]);
    let wide = grid_of("A & B & C & D");
    assert_eq!(wide.corner_label(), "AB\\CD");
    assert_eq!(wide.row_cells(2), vec!["11", "0", "0", "1", "0"]);
}

#[test]
fn unsupported_map_has_its_message() {
    assert_eq!(not_supported_message(), "K-Map supported only for 2 to 6 variables");
}

#[test]
fn gates_have_labels() {
    assert_eq!(GateType::And.label(), "AND");
    assert_eq!(GateType::Or.label(), "OR");
    assert_eq!(GateType::Not.label(), "NOT");
    assert_eq!(GateType::Nand.label(), "NAND");
    assert_eq!(GateType::Nor.label(), "NOR");
    assert_eq!(GateType::Xor.label(), "XOR");
    assert_eq!(GateType::Xnor.label(), "XNOR");
    assert_eq!(GateType::Input("A".to_string()).label(), "");
}

#[test]
fn constructors_build_the_variants() {
    let a = || Expr::var("A");
    let b = || Expr::var("B");
    assert_eq!(Expr::var("A"), Expr::Var("A".to_string()));
    assert_eq!(Expr::not(a()), Expr::Not(Box::new(a())));
    assert_eq!(Expr::and(a(), b()), Expr::And(Box::new(a()), Box::new(b())));
    assert_eq!(Expr::or(a(), b()), Expr::Or(Box::new(a()), Box::new(b())));
    assert_eq!(Expr::xor(a(), b()), Expr::Xor(Box::new(a()), Box::new(b())));
    assert_eq!(Expr::nand(a(), b()), Expr::Nand(Box::new(a()), Box::new(b())));
    assert_eq!(Expr::nor(a(), b()), Expr::Nor(Box::new(a()), Box::new(b())));
    assert_eq!(Expr::xnor(a(), b()), Expr::Xnor(Box::new(a()), Box::new(b())));
}

#[test]
fn expressions_compare_by_shape() {
    let a = || Expr::var("A");
    let b = || Expr::var("B");
    assert_eq!(parse_expr("A & B").unwrap(), Expr::and(a(), b()));
    assert_ne!(Expr::and(a(), b()), Expr::and(b(), a()));
    assert_ne!(Expr::and(a(), b()), Expr::nand(a(), b()));
    assert_ne!(Expr::not(Expr::not(a())), a());
    assert_ne!(a(), b());
    assert_eq!(parse_expr("(A)").unwrap(), a());
}

#[test]
fn built_connectives_compile_to_their_gates() {
    let e = Expr::xnor(Expr::nand(Expr::var("A"), Expr::var("B")), Expr::nor(Expr::var("B"), Expr::var("C")));
    let net = Netlist::compile(&e);
    let kinds: Vec<&str> = net.gates.iter().map(|g| g.gate_type.label()).collect();
    assert_eq!(kinds, vec!["", "", "", "NAND", "NOR", "XNOR"]);
    assert_eq!(net.layers, vec![vec![0, 1, 2], vec![3, 4], vec![5]]);
}
