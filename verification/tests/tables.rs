use logic_analyzer::eval::{eval, Assignment};
use logic_analyzer::expr::Expr;
use logic_analyzer::k_map::{gray_code, k_map, KMap};
use logic_analyzer::parser::parse_expr;
use logic_analyzer::truth_table::{collect_vars, counting_rows, truth_table, variables};

fn var(name: &str) -> Expr {
    Expr::Var(name.to_string())
}

fn bits(text: &str) -> Vec<bool> {
    text.chars().map(|c| c == '1').collect()
}

#[test]
fn variables_are_sorted_and_unique() {
    let e = parse_expr("C & (A | C) ^ !B & A").unwrap();
    assert_eq!(variables(&e), vec!["A", "B", "C"]);
    let f = parse_expr("b | B | a | A | ab | a1").unwrap();
    assert_eq!(variables(&f), vec!["A", "B", "a", "a1", "ab", "b"]);
    assert_eq!(variables(&var("x")), vec!["x"]);
}

#[test]
fn variables_follow_the_byte_order_of_names() {
    let e = Expr::Or(
        Box::new(Expr::Or(Box::new(var("é")), Box::new(var("z")))),
        Box::new(Expr::Or(Box::new(var("")), Box::new(var("Z")))),
    );
    let mut expected = vec!["é".to_string(), "z".to_string(), "".to_string(), "Z".to_string()];
    expected.sort();
    assert_eq!(variables(&e), expected);
    assert_eq!(variables(&e), vec!["", "Z", "z", "é"]);
}

#[test]
fn collect_vars_adds_to_a_sorted_list() {
    let mut set = vec!["B".to_string(), "D".to_string()];
    collect_vars(&parse_expr("E | A & D & C").unwrap(), &mut set);
    assert_eq!(set, vec!["A", "B", "C", "D", "E"]);
}

#[test]
fn truth_table_of_two_variables_counts_up() {
    let t = truth_table(&parse_expr("B & A").unwrap());
    assert_eq!(t.variables, vec!["A", "B"]);
    assert_eq!(t.rows.len(), 4);
    let inputs: Vec<Vec<bool>> = t.rows.iter().map(|r| r.inputs.clone()).collect();
    assert_eq!(inputs, vec![bits("00"), bits("01"), bits("10"), bits("11")]);
    let outputs: Vec<bool> = t.rows.iter().map(|r| r.output).collect();
    assert_eq!(outputs, vec![false, false, false, true]);
}

#[test]
fn truth_table_of_one_variable() {
    let t = truth_table(&parse_expr("!A").unwrap());
    assert_eq!(t.rows.len(), 2);
    assert_eq!(t.rows[0].inputs, bits("0"));
    assert_eq!(t.rows[0].output, true);
    assert_eq!(t.rows[1].inputs, bits("1"));
    assert_eq!(t.rows[1].output, false);
}

#[test]
fn truth_table_end_to_end() {
    let e = parse_expr("A | B * C").unwrap();
    let t = truth_table(&e);
    assert_eq!(t.variables, vec!["A", "B", "C"]);
    assert_eq!(t.rows.len(), 8);
    assert_eq!(t.rows[3].inputs, bits("011"));
    assert_eq!(t.rows[3].output, true);
    assert_eq!(t.rows[2].inputs, bits("010"));
    assert_eq!(t.rows[2].output, false);
    let outputs: Vec<bool> = t.rows.iter().map(|r| r.output).collect();
    assert_eq!(outputs, bits("00011111"));
}

#[test]
fn truth_table_rows_are_the_binary_numbers() {
    let e = parse_expr("A ^ B ^ C ^ D ^ E").unwrap();
    let t = truth_table(&e);
    assert_eq!(t.rows.len(), 32);
    for (i, row) in t.rows.iter().enumerate() {
        assert_eq!(row.inputs.len(), 5);
        for j in 0..5 {
            assert_eq!(row.inputs[j], (i >> (4 - j)) & 1 == 1);
        }
        let ones = row.inputs.iter().filter(|b| **b).count();
        assert_eq!(row.output, ones % 2 == 1);
    }
}

#[test]
fn gray_code_of_no_bits_is_one_empty_pattern() {
    assert_eq!(gray_code(0), vec![Vec::<bool>::new()]);
}

#[test]
fn gray_code_reflects() {
    assert_eq!(gray_code(1), vec![bits("0"), bits("1")]);
    assert_eq!(gray_code(2), vec![bits("00"), bits("01"), bits("11"), bits("10")]);
    assert_eq!(
        gray_code(3),
        vec![
            bits("000"),
            bits("001"),
            bits("011"),
            bits("010"),
            bits("110"),
            bits("111"),
            bits("101"),
            bits("100")
        ]
    );
}

#[test]
fn gray_code_neighbours_differ_in_one_bit() {
    for k in 0..8usize {
        let codes = gray_code(k);
        assert_eq!(codes.len(), 1 << k);
        for pair in codes.windows(2) {
            let changed = pair[0].iter().zip(pair[1].iter()).filter(|(a, b)| a != b).count();
            assert_eq!(changed, 1);
        }
        let mut seen = codes.clone();
        seen.sort();
        seen.dedup();
        assert_eq!(seen.len(), 1 << k);
        assert!(codes.iter().all(|c| c.len() == k));
    }
}

#[test]
fn k_map_needs_two_to_six_variables() {
    assert!(matches!(k_map(&parse_expr("A").unwrap()), KMap::NotSupported(1)));
    assert!(matches!(k_map(&parse_expr("A&B").unwrap()), KMap::Grid(_)));
    assert!(matches!(k_map(&parse_expr("A&B&C&D&E&F").unwrap()), KMap::Grid(_)));
    assert!(matches!(k_map(&parse_expr("A&B&C&D&E&F&G").unwrap()), KMap::NotSupported(7)));
}

#[test]
fn k_map_of_three_variables() {
    let grid = match k_map(&parse_expr("A | B * C").unwrap()) {
        KMap::Grid(grid) => grid,
        KMap::NotSupported(_) => panic!("three variables are supported"),
    };
    assert_eq!(grid.row_vars, vec!["A"]);
    assert_eq!(grid.col_vars, vec!["B", "C"]);
    assert_eq!(grid.row_codes, vec![bits("0"), bits("1")]);
    assert_eq!(grid.col_codes, vec![bits("00"), bits("01"), bits("11"), bits("10")]);
    assert_eq!(grid.cells, vec![bits("0010"), bits("1111")]);
}

#[test]
fn k_map_splits_five_variables_two_and_three() {
    let grid = match k_map(&parse_expr("A & B | C & D | E").unwrap()) {
        KMap::Grid(grid) => grid,
        KMap::NotSupported(_) => panic!("five variables are supported"),
    };
    assert_eq!(grid.row_vars, vec!["A", "B"]);
    assert_eq!(grid.col_vars, vec!["C", "D", "E"]);
    assert_eq!(grid.cells.len(), 4);
    assert!(grid.cells.iter().all(|row| row.len() == 8));
}

#[test]
fn k_map_cells_agree_with_the_truth_table() {
    for text in ["A ^ B", "A | B * C", "(A | !B) & (C ^ D)", "A&B | C&D | E&!F", "!A' & B | C ^ D ^ E"] {
        let e = parse_expr(text).unwrap();
        let table = truth_table(&e);
        let grid = match k_map(&e) {
            KMap::Grid(grid) => grid,
            KMap::NotSupported(_) => panic!("supported"),
        };
        for (r, row_code) in grid.row_codes.iter().enumerate() {
            for (c, col_code) in grid.col_codes.iter().enumerate() {
                let mut inputs = row_code.clone();
                inputs.extend(col_code.iter().copied());
                let row = table.rows.iter().find(|row| row.inputs == inputs).unwrap();
                assert_eq!(grid.cells[r][c], row.output);
                let mut env = Assignment::new();
                env.bind(&table.variables, &inputs);
                assert_eq!(grid.cells[r][c], eval(&e, &env));
            }
        }
    }
}

#[test]
fn counting_rows_of_no_digits_is_one_empty_row() {
    assert_eq!(counting_rows(0), vec![Vec::<bool>::new()]);
}

#[test]
fn counting_rows_count_in_binary() {
    assert_eq!(counting_rows(1), vec![bits("0"), bits("1")]);
    assert_eq!(
        counting_rows(3),
        vec![
            bits("000"),
            bits("001"),
            bits("010"),
            bits("011"),
            bits("100"),
            bits("101"),
            bits("110"),
            bits("111")
        ]
    );
    assert_eq!(counting_rows(10).len(), 1024);
}
