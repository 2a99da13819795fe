use logic_analyzer::expr::Expr;
use logic_analyzer::logic_gates::{GateInstance, GateType, LogicGatesViewer, Netlist};
use logic_analyzer::parser::parse_expr;

fn var(name: &str) -> Expr {
    Expr::Var(name.to_string())
}

fn kinds(gates: &[GateInstance]) -> Vec<GateType> {
    gates.iter().map(|g| g.gate_type.clone()).collect()
}

fn input(name: &str) -> GateType {
    GateType::Input(name.to_string())
}

fn check_layout(net: &Netlist) {
    let mut seen = vec![false; net.gates.len()];
    for (l, layer) in net.layers.iter().enumerate() {
        assert!(!layer.is_empty());
        for (p, &g) in layer.iter().enumerate() {
            assert!(!seen[g]);
            seen[g] = true;
            assert_eq!(net.gates[g].layer, l);
            assert_eq!(net.gates[g].offset, p);
        }
    }
    assert!(seen.iter().all(|s| *s));
    for (i, gate) in net.gates.iter().enumerate() {
        let deepest = gate.inputs.iter().map(|&a| net.gates[a].layer + 1).max().unwrap_or(0);
        assert_eq!(gate.layer, deepest);
        for &a in &gate.inputs {
            assert!(a < i);
            assert!(net.gates[a].layer < gate.layer);
            let reads = gate.inputs.iter().filter(|&&x| x == a).count();
            let listed = net.gates[a].output_connects_to.iter().filter(|&&x| x == i).count();
            assert_eq!(reads, listed);
        }
        for &b in &gate.output_connects_to {
            assert!(net.gates[b].inputs.contains(&i));
        }
    }
}

#[test]
fn a_variable_read_twice_has_one_input() {
    let e = Expr::And(Box::new(var("A")), Box::new(var("A")));
    let net = Netlist::compile(&e);
    assert_eq!(net.variables, vec!["A"]);
    assert_eq!(kinds(&net.gates), vec![input("A"), GateType::And]);
    assert_eq!(net.gates[0].output_connects_to, vec![1, 1]);
    assert_eq!(net.gates[0].inputs, Vec::<usize>::new());
    assert_eq!(net.gates[1].inputs, vec![0, 0]);
    assert_eq!(net.gates[1].output_connects_to, Vec::<usize>::new());
    assert_eq!(net.layers, vec![vec![0], vec![1]]);
    check_layout(&net);
}

#[test]
fn a_lone_variable_is_one_layer() {
    let net = Netlist::compile(&var("A"));
    assert_eq!(kinds(&net.gates), vec![input("A")]);
    assert_eq!(net.layers, vec![vec![0]]);
    assert_eq!((net.gates[0].layer, net.gates[0].offset), (0, 0));
}

#[test]
fn an_empty_netlist_has_no_layer() {
    let net = Netlist::new();
    assert!(net.gates.is_empty());
    assert!(net.variables.is_empty());
    assert!(net.layers.is_empty());
}

#[test]
fn variables_come_in_order_of_first_occurrence() {
    let net = Netlist::compile(&parse_expr("C & (A | C) ^ !B & A").unwrap());
    assert_eq!(net.variables, vec!["C", "A", "B"]);
    assert_eq!(
        kinds(&net.gates),
        vec![
            input("C"),
            input("A"),
            input("B"),
            GateType::Or,
            GateType::And,
            GateType::Not,
            GateType::And,
            GateType::Xor
        ]
    );
    assert_eq!(net.gates[3].inputs, vec![1, 0]);
    assert_eq!(net.gates[4].inputs, vec![0, 3]);
    assert_eq!(net.gates[5].inputs, vec![2]);
    assert_eq!(net.gates[6].inputs, vec![5, 1]);
    assert_eq!(net.gates[7].inputs, vec![4, 6]);
    assert_eq!(net.gates[0].output_connects_to, vec![3, 4]);
    assert_eq!(net.gates[1].output_connects_to, vec![3, 6]);
    assert_eq!(net.layers, vec![vec![0, 1, 2], vec![3, 5], vec![4, 6], vec![7]]);
    check_layout(&net);
}

#[test]
fn a_gate_waits_for_its_deepest_input() {
    let e = Expr::And(Box::new(Expr::Not(Box::new(var("A")))), Box::new(var("A")));
    let net = Netlist::compile(&e);
    assert_eq!(kinds(&net.gates), vec![input("A"), GateType::Not, GateType::And]);
    assert_eq!(net.gates[0].output_connects_to, vec![1, 2]);
    assert_eq!(net.layers, vec![vec![0], vec![1], vec![2]]);
    assert_eq!(net.gates[2].layer, 2);
    check_layout(&net);
}

#[test]
fn equal_operators_get_gates_of_their_own() {
    let net = Netlist::compile(&parse_expr("(A & B) | (A & B)").unwrap());
    assert_eq!(
        kinds(&net.gates),
        vec![input("A"), input("B"), GateType::And, GateType::And, GateType::Or]
    );
    assert_eq!(net.gates[0].output_connects_to, vec![2, 3]);
    assert_eq!(net.gates[4].inputs, vec![2, 3]);
    assert_eq!(net.layers, vec![vec![0, 1], vec![2, 3], vec![4]]);
    check_layout(&net);
}

#[test]
fn every_connective_has_its_gate() {
    let l = || Box::new(var("A"));
    let r = || Box::new(var("B"));
    let cases = vec![
        (Expr::And(l(), r()), GateType::And),
        (Expr::Or(l(), r()), GateType::Or),
        (Expr::Xor(l(), r()), GateType::Xor),
        (Expr::Nand(l(), r()), GateType::Nand),
        (Expr::Nor(l(), r()), GateType::Nor),
        (Expr::Xnor(l(), r()), GateType::Xnor),
    ];
    for (e, kind) in cases {
        let net = Netlist::compile(&e);
        assert_eq!(kinds(&net.gates), vec![input("A"), input("B"), kind]);
        assert_eq!(net.gates[2].inputs, vec![0, 1]);
    }
}

#[test]
fn layers_ascend_along_every_edge() {
    for text in [
        "A",
        "!A",
        "A & B | C ^ D",
        "!(A | B) & (C | !(D ^ A)) | !!B",
        "((((A & B) & C) & D) & E) | A",
        "A ^ (B ^ (C ^ (D ^ (E ^ F))))",
    ] {
        let net = Netlist::compile(&parse_expr(text).unwrap());
        check_layout(&net);
    }
}

#[test]
fn compiling_again_replaces_the_netlist() {
    let mut net = Netlist::compile(&parse_expr("A & B | C").unwrap());
    net.generate_circuit_from_expression(&parse_expr("!X").unwrap());
    assert_eq!(net.variables, vec!["X"]);
    assert_eq!(kinds(&net.gates), vec![input("X"), GateType::Not]);
    assert_eq!(net.layers, vec![vec![0], vec![1]]);
}

#[test]
fn viewer_holds_expression_and_netlist() {
    let mut viewer = LogicGatesViewer::new();
    assert!(viewer.expression().is_none());
    assert!(viewer.netlist().gates.is_empty());
    viewer.set_expression(parse_expr("A | B").unwrap());
    assert_eq!(
        format!("{:?}", viewer.expression().unwrap()),
        format!("{:?}", Expr::Or(Box::new(var("A")), Box::new(var("B"))))
    );
    assert_eq!(viewer.netlist().gates.len(), 3);
    assert_eq!(viewer.netlist().layers, vec![vec![0, 1], vec![2]]);
}
