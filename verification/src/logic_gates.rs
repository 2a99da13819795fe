//! Netlists: an expression as a circuit of gates, laid out in layers.

use vstd::prelude::*;
use crate::expr::{Connective, Expr, Formula};
use crate::layering::{
    admitted, depth, fanout, input_gates, inputs_marked, laid_out, lemma_admit, lemma_all_placed,
    lemma_candidate, lemma_depth_at_most_index, lemma_depth_witness, lemma_inputs_placed,
    lemma_level_closed, lemma_level_empty, lemma_level_gathered, lemma_readers_members,
    lemma_ready_is_depth, lemma_unchanged_nodes, lemma_unchanged_trans, lemma_wired_nodes, placed,
    unchanged, well_formed,
};
use crate::names::names_of;
use crate::sequences::{absorb, distinct, lemma_absorb, lemma_absorb_concat};

verus! {

/// What a gate computes.
#[derive(Clone, Debug, PartialEq)]
pub enum GateType {
    And,
    Or,
    Not,
    Nand,
    Nor,
    Xor,
    Xnor,
    /// The source of a variable's signal.
    Input(String),
}

/// The model of a [`GateType`].
pub enum GateKind {
    Input(Seq<char>),
    Not,
    Binary(Connective),
}

impl View for GateType {
    type V = GateKind;

    open spec fn view(&self) -> GateKind {
        match self {
            GateType::And => GateKind::Binary(Connective::And),
            GateType::Or => GateKind::Binary(Connective::Or),
            GateType::Not => GateKind::Not,
            GateType::Nand => GateKind::Binary(Connective::Nand),
            GateType::Nor => GateKind::Binary(Connective::Nor),
            GateType::Xor => GateKind::Binary(Connective::Xor),
            GateType::Xnor => GateKind::Binary(Connective::Xnor),
            GateType::Input(name) => GateKind::Input(name@),
        }
    }
}

impl GateType {
    /// The name that a gate of this kind is shown with; an input has none.
    pub fn label(&self) -> (name: &'static str)
        ensures
            name@ == match self {
                GateType::And => "AND"@,
                GateType::Or => "OR"@,
                GateType::Not => "NOT"@,
                GateType::Nand => "NAND"@,
                GateType::Nor => "NOR"@,
                GateType::Xor => "XOR"@,
                GateType::Xnor => "XNOR"@,
                GateType::Input(_) => ""@,
            },
    {
        match self {
            GateType::And => "AND",
            GateType::Or => "OR",
            GateType::Not => "NOT",
            GateType::Nand => "NAND",
            GateType::Nor => "NOR",
            GateType::Xor => "XOR",
            GateType::Xnor => "XNOR",
            GateType::Input(_) => "",
        }
    }
}

impl GateKind {
    /// The number of inputs that a gate of this kind reads.
    pub open spec fn arity(self) -> nat {
        match self {
            GateKind::Input(_) => 0,
            GateKind::Not => 1,
            GateKind::Binary(_) => 2,
        }
    }
}

/// One gate of a netlist. A gate is known by its index in the list of gates;
/// `inputs` and `output_connects_to` hold such indices.
#[derive(Clone, Debug)]
pub struct GateInstance {
    pub gate_type: GateType,
    /// The layer that the layout put this gate in.
    pub layer: usize,
    /// This gate's place within its layer.
    pub offset: usize,
    /// The gates whose results this gate reads, in the order of its operands.
    pub inputs: Vec<usize>,
    /// The gates that read this gate's result, one entry for each input that
    /// does so.
    pub output_connects_to: Vec<usize>,
}

/// A gate without its fan-out and its place: what it computes, and from what.
pub struct Node {
    pub kind: GateKind,
    pub inputs: Seq<usize>,
}

impl GateInstance {
    /// The node of this gate.
    pub open spec fn node(&self) -> Node {
        Node { kind: self.gate_type@, inputs: self.inputs@ }
    }
}

/// The nodes of a list of gates.
pub open spec fn nodes_of(gates: Seq<GateInstance>) -> Seq<Node> {
    Seq::new(gates.len(), |i: int| gates[i].node())
}

/// `reader` once for each place at which `gate` occurs in `inputs`.
pub open spec fn slots(inputs: Seq<usize>, gate: usize, reader: usize) -> Seq<usize>
    decreases inputs.len(),
{
    if inputs.len() == 0 {
        Seq::empty()
    } else if inputs.last() == gate {
        slots(inputs.drop_last(), gate, reader).push(reader)
    } else {
        slots(inputs.drop_last(), gate, reader)
    }
}

/// The gates that read `gate`, in ascending order, each once for every input
/// of it that is `gate`.
pub open spec fn readers(nodes: Seq<Node>, gate: usize) -> Seq<usize>
    decreases nodes.len(),
{
    if nodes.len() == 0 {
        Seq::empty()
    } else {
        readers(nodes.drop_last(), gate) + slots(
            nodes.last().inputs,
            gate,
            (nodes.len() - 1) as usize,
        )
    }
}

/// The gates form a circuit: each has as many inputs as its kind reads, each
/// input was created before its reader, and each fan-out list holds exactly
/// the readers.
pub open spec fn wired(gates: Seq<GateInstance>) -> bool {
    &&& forall|i: int|
        0 <= i < gates.len() ==> (#[trigger] gates[i]).inputs@.len() == gates[i].gate_type@.arity()
    &&& forall|i: int, s: int|
        0 <= i < gates.len() && 0 <= s < gates[i].inputs@.len() ==> (#[trigger] gates[i].inputs@[s])
            < i
    &&& forall|i: int|
        0 <= i < gates.len() ==> (#[trigger] gates[i]).output_connects_to@ == readers(
            nodes_of(gates),
            i as usize,
        )
}

/// The input nodes of the given variables, in their order.
pub open spec fn input_nodes(vars: Seq<Seq<char>>) -> Seq<Node> {
    Seq::new(vars.len(), |i: int| Node { kind: GateKind::Input(vars[i]), inputs: Seq::empty() })
}

/// The index of that gate which carries the value of `f`, where the input of
/// the `i`-th variable is gate `i` and the first operator of `f` becomes gate
/// `base`.
pub open spec fn root(f: Formula, vars: Seq<Seq<char>>, base: nat) -> int {
    match f {
        Formula::Var(name) => vars.index_of(name),
        _ => base + f.operators() - 1,
    }
}

/// The operator nodes of `f` in the order of their creation: the operands'
/// nodes come before the node that reads them, a left operand's before a
/// right operand's. Every operator of the tree has a node of its own.
pub open spec fn wiring(f: Formula, vars: Seq<Seq<char>>, base: nat) -> Seq<Node>
    decreases f,
{
    match f {
        Formula::Var(_) => Seq::empty(),
        Formula::Not(a) => wiring(*a, vars, base).push(
            Node { kind: GateKind::Not, inputs: seq![root(*a, vars, base) as usize] },
        ),
        Formula::Binary(op, a, b) => {
            let mid = base + a.operators();
            (wiring(*a, vars, base) + wiring(*b, vars, mid)).push(
                Node {
                    kind: GateKind::Binary(op),
                    inputs: seq![root(*a, vars, base) as usize, root(*b, vars, mid) as usize],
                },
            )
        },
    }
}

/// The nodes of the netlist of `f`: one input per variable, in the order in
/// which the variables first occur, then the operators.
pub open spec fn netlist_nodes(f: Formula) -> Seq<Node> {
    let vars = distinct(f.leaves());
    input_nodes(vars) + wiring(f, vars, vars.len())
}

/// A netlist: the gates, the variables in the order of their input gates, and
/// the layers of the layout, each a list of gate indices.
pub struct Netlist {
    pub gates: Vec<GateInstance>,
    pub variables: Vec<String>,
    pub layers: Vec<Vec<usize>>,
}

impl Netlist {
    /// The first gates are the inputs of the variables, one each and in their
    /// order; no other gate is an input.
    pub open spec fn inputs_first(&self) -> bool {
        let vars = names_of(self.variables@);
        &&& vars.no_duplicates()
        &&& vars.len() <= self.gates@.len()
        &&& forall|i: int|
            0 <= i < self.gates@.len() ==> ((#[trigger] self.gates@[i]).gate_type@ is Input <==> i
                < vars.len())
        &&& forall|i: int|
            0 <= i < vars.len() ==> (#[trigger] self.gates@[i]).gate_type@ == GateKind::Input(
                vars[i],
            )
    }
}

impl Netlist {
    /// `self` is the netlist of `f`: its variables are those of `f` in the
    /// order in which they first occur, its gates are wired as `f` reads, and
    /// they are laid out in layers.
    pub open spec fn is_netlist_of(&self, f: Formula) -> bool {
        &&& names_of(self.variables@) == distinct(f.leaves())
        &&& nodes_of(self.gates@) == netlist_nodes(f)
        &&& wired(self.gates@)
        &&& laid_out(self.gates@, self.layers@)
    }

    /// The netlist without gates.
    pub fn new() -> (net: Netlist)
        ensures
            net.gates@.len() == 0,
            net.variables@.len() == 0,
            net.layers@.len() == 0,
    {
        Netlist { gates: Vec::new(), variables: Vec::new(), layers: Vec::new() }
    }

    /// Compiles `expr` to its netlist.
    pub fn compile(expr: &Expr) -> (net: Netlist)
        ensures
            net.is_netlist_of(expr@),
    {
        let mut net = Netlist::new();
        net.generate_circuit_from_expression(expr);
        net
    }

    /// Replaces what `self` holds by the netlist of `expr`: an input gate for
    /// each variable, the operator gates, and the layout.
    pub fn generate_circuit_from_expression(&mut self, expr: &Expr)
        ensures
            final(self).is_netlist_of(expr@),
    {
        self.gates.clear();
        self.variables.clear();
        self.layers.clear();
        assert(names_of(self.variables@) =~= Seq::<Seq<char>>::empty());
        self.collect_variables(expr);
        let ghost vars = names_of(self.variables@);
        proof {
            lemma_absorb(Seq::<Seq<char>>::empty(), expr@.leaves());
        }
        let mut i: usize = 0;
        while i < self.variables.len()
            invariant
                i <= self.variables@.len(),
                vars == names_of(self.variables@),
                self.layers@.len() == 0,
                self.gates@.len() == i,
                forall|k: int|
                    0 <= k < i ==> {
                        &&& (#[trigger] self.gates@[k]).gate_type@ == GateKind::Input(vars[k])
                        &&& self.gates@[k].inputs@.len() == 0
                        &&& self.gates@[k].output_connects_to@.len() == 0
                    },
            decreases self.variables@.len() - i,
        {
            let input_gate = GateInstance {
                gate_type: GateType::Input(self.variables[i].clone()),
                layer: 0,
                offset: 0,
                inputs: Vec::new(),
                output_connects_to: Vec::new(),
            };
            self.gates.push(input_gate);
            i += 1;
        }
        proof {
            let gates = self.gates@;
            let nodes = nodes_of(gates);
            assert forall|k: int| 0 <= k < gates.len() implies nodes[k] == input_nodes(vars)[k] by {
                assert(gates[k].inputs@ =~= Seq::<usize>::empty());
            }
            assert(nodes =~= input_nodes(vars));
            assert forall|k: int| 0 <= k < gates.len() implies (#[trigger] gates[k]).output_connects_to@
                == readers(nodes, k as usize) by {
                lemma_readers_none(nodes, k as usize);
                assert(gates[k].output_connects_to@ =~= Seq::<usize>::empty());
            }
            assert forall|k: int| 0 <= k < expr@.leaves().len() implies vars.contains(
                #[trigger] expr@.leaves()[k],
            ) by {
                assert(expr@.leaves().contains(expr@.leaves()[k]));
            }
        }
        let _output_gate_id = self.build_circuit_recursive(expr);
        let ghost built = self.gates@;
        self.layout_gates();
        proof {
            let gates = self.gates@;
            assert(nodes_of(gates) =~= nodes_of(built));
            assert forall|k: int| 0 <= k < gates.len() implies (#[trigger] gates[k]).output_connects_to@
                == readers(nodes_of(gates), k as usize) by {
                assert(built[k].output_connects_to@ == readers(nodes_of(built), k as usize));
            }
            assert forall|k: int, s: int|
                0 <= k < gates.len() && 0 <= s < gates[k].inputs@.len() implies (
            #[trigger] gates[k].inputs@[s]) < k by {
                assert(built[k].inputs@[s] < k);
            }
            assert forall|k: int| 0 <= k < gates.len() implies (#[trigger] gates[k]).inputs@.len()
                == gates[k].gate_type@.arity() by {
                assert(built[k].inputs@.len() == built[k].gate_type@.arity());
            }
        }
    }

    /// Appends to the variables each name of `expr` that they do not hold
    /// yet, in the order in which the names first occur.
    fn collect_variables(&mut self, expr: &Expr)
        ensures
            names_of(final(self).variables@) == absorb(
                names_of(old(self).variables@),
                expr@.leaves(),
            ),
            final(self).gates == old(self).gates,
            final(self).layers == old(self).layers,
        decreases expr,
    {
        match expr {
            Expr::Var(name) => {
                let ghost before = names_of(self.variables@);
                proof {
                    reveal_with_fuel(absorb, 2);
                    assert(expr@.leaves().last() == name@);
                }
                match find_name(&self.variables, name) {
                    Some(i) => {
                        assert(before[i as int] == name@);
                    },
                    None => {
                        self.variables.push(name.clone());
                        assert(names_of(self.variables@) =~= before.push(name@));
                    },
                }
            },
            Expr::And(left, right)
            | Expr::Or(left, right)
            | Expr::Xor(left, right)
            | Expr::Nand(left, right)
            | Expr::Nor(left, right)
            | Expr::Xnor(left, right) => {
                proof {
                    lemma_absorb_concat(
                        names_of(self.variables@),
                        left@.leaves(),
                        right@.leaves(),
                    );
                }
                self.collect_variables(left);
                self.collect_variables(right);
            },
            Expr::Not(inner) => {
                self.collect_variables(inner);
            },
        }
    }

    /// Adds the gates of `expr` and returns the one that carries its value.
    /// A variable adds none: it is read from its input gate.
    fn build_circuit_recursive(&mut self, expr: &Expr) -> (id: usize)
        requires
            old(self).inputs_first(),
            wired(old(self).gates@),
            forall|k: int|
                0 <= k < expr@.leaves().len() ==> names_of(old(self).variables@).contains(
                    #[trigger] expr@.leaves()[k],
                ),
        ensures
            final(self).variables == old(self).variables,
            final(self).layers == old(self).layers,
            final(self).inputs_first(),
            wired(final(self).gates@),
            nodes_of(final(self).gates@) == nodes_of(old(self).gates@) + wiring(
                expr@,
                names_of(old(self).variables@),
                old(self).gates@.len(),
            ),
            id == root(expr@, names_of(old(self).variables@), old(self).gates@.len()),
            id < final(self).gates@.len(),
        decreases expr@.operators(), 1nat,
    {
        match expr {
            Expr::Var(name) => {
                let ghost vars = names_of(self.variables@);
                assert(vars.contains(expr@.leaves()[0]));
                let found = find_name(&self.variables, name);
                assert(found is Some);
                let id = found.unwrap();
                assert(vars[id as int] == name@);
                assert(nodes_of(self.gates@) + Seq::<Node>::empty() =~= nodes_of(self.gates@));
                id
            },
            Expr::And(left, right) => {
                proof {
                    lemma_operand_names(
                        names_of(self.variables@),
                        expr@.leaves(),
                        left@.leaves(),
                        right@.leaves(),
                    );
                }
                self.create_binary_gate(GateType::And, left, right)
            },
            Expr::Or(left, right) => {
                proof {
                    lemma_operand_names(
                        names_of(self.variables@),
                        expr@.leaves(),
                        left@.leaves(),
                        right@.leaves(),
                    );
                }
                self.create_binary_gate(GateType::Or, left, right)
            },
            Expr::Xor(left, right) => {
                proof {
                    lemma_operand_names(
                        names_of(self.variables@),
                        expr@.leaves(),
                        left@.leaves(),
                        right@.leaves(),
                    );
                }
                self.create_binary_gate(GateType::Xor, left, right)
            },
            Expr::Nand(left, right) => {
                proof {
                    lemma_operand_names(
                        names_of(self.variables@),
                        expr@.leaves(),
                        left@.leaves(),
                        right@.leaves(),
                    );
                }
                self.create_binary_gate(GateType::Nand, left, right)
            },
            Expr::Nor(left, right) => {
                proof {
                    lemma_operand_names(
                        names_of(self.variables@),
                        expr@.leaves(),
                        left@.leaves(),
                        right@.leaves(),
                    );
                }
                self.create_binary_gate(GateType::Nor, left, right)
            },
            Expr::Xnor(left, right) => {
                proof {
                    lemma_operand_names(
                        names_of(self.variables@),
                        expr@.leaves(),
                        left@.leaves(),
                        right@.leaves(),
                    );
                }
                self.create_binary_gate(GateType::Xnor, left, right)
            },
            Expr::Not(inner) => {
                let ghost vars = names_of(self.variables@);
                let ghost base = self.gates@.len();
                let ghost nodes0 = nodes_of(self.gates@);
                assert(expr@.leaves() == inner@.leaves());
                let input_gate_id = self.build_circuit_recursive(inner);
                let ghost before = self.gates@;
                proof {
                    lemma_wiring_len(inner@, vars, base);
                }
                let mut inputs: Vec<usize> = Vec::new();
                inputs.push(input_gate_id);
                let gate = GateInstance {
                    gate_type: GateType::Not,
                    layer: 0,
                    offset: 0,
                    inputs,
                    output_connects_to: Vec::new(),
                };
                self.gates.push(gate);
                let gate_id = self.gates.len() - 1;
                self.gates[input_gate_id].output_connects_to.push(gate_id);
                proof {
                    let ins = seq![input_gate_id];
                    assert forall|i: int| 0 <= i < before.len() implies (#[trigger] self.gates@[i]).output_connects_to@
                        == before[i].output_connects_to@ + slots(ins, i as usize, gate_id) by {
                        lemma_slots_short(ins, i as usize, gate_id);
                        assert(before[i].output_connects_to@ + Seq::<usize>::empty()
                            =~= before[i].output_connects_to@);
                    }
                    lemma_gate_added(before, self.gates@);
                    assert(nodes_of(self.gates@) =~= nodes0 + wiring(expr@, vars, base));
                }
                gate_id
            },
        }
    }

    /// Adds the gates of both operands, then one that joins them, which it
    /// returns.
    fn create_binary_gate(&mut self, gate_type: GateType, left: &Expr, right: &Expr) -> (id: usize)
        requires
            gate_type@ is Binary,
            old(self).inputs_first(),
            wired(old(self).gates@),
            forall|k: int|
                0 <= k < left@.leaves().len() ==> names_of(old(self).variables@).contains(
                    #[trigger] left@.leaves()[k],
                ),
            forall|k: int|
                0 <= k < right@.leaves().len() ==> names_of(old(self).variables@).contains(
                    #[trigger] right@.leaves()[k],
                ),
        ensures
            final(self).variables == old(self).variables,
            final(self).layers == old(self).layers,
            final(self).inputs_first(),
            wired(final(self).gates@),
            nodes_of(final(self).gates@) == nodes_of(old(self).gates@) + wiring(
                Formula::binary(gate_type@->Binary_0, left@, right@),
                names_of(old(self).variables@),
                old(self).gates@.len(),
            ),
            id == old(self).gates@.len() + left@.operators() + right@.operators(),
            id < final(self).gates@.len(),
        decreases left@.operators() + right@.operators() + 1, 0nat,
    {
        let ghost vars = names_of(self.variables@);
        let ghost base = self.gates@.len();
        let ghost nodes0 = nodes_of(self.gates@);
        let left_gate_id = self.build_circuit_recursive(left);
        let ghost mid = self.gates@.len();
        let right_gate_id = self.build_circuit_recursive(right);
        let ghost before = self.gates@;
        proof {
            lemma_wiring_len(left@, vars, base);
            lemma_wiring_len(right@, vars, mid);
        }
        let mut inputs: Vec<usize> = Vec::new();
        inputs.push(left_gate_id);
        inputs.push(right_gate_id);
        let ghost kind = gate_type@;
        let gate = GateInstance {
            gate_type,
            layer: 0,
            offset: 0,
            inputs,
            output_connects_to: Vec::new(),
        };
        self.gates.push(gate);
        let gate_id = self.gates.len() - 1;
        self.gates[left_gate_id].output_connects_to.push(gate_id);
        self.gates[right_gate_id].output_connects_to.push(gate_id);
        proof {
            let ins = seq![left_gate_id, right_gate_id];
            assert(self.gates@[gate_id as int].inputs@ =~= ins);
            assert forall|i: int| 0 <= i < before.len() implies (#[trigger] self.gates@[i]).output_connects_to@
                == before[i].output_connects_to@ + slots(ins, i as usize, gate_id) by {
                lemma_slots_short(ins, i as usize, gate_id);
                assert(before[i].output_connects_to@ + Seq::<usize>::empty()
                    =~= before[i].output_connects_to@);
                assert(before[i].output_connects_to@ + seq![gate_id]
                    =~= before[i].output_connects_to@.push(gate_id));
                assert(before[i].output_connects_to@ + seq![gate_id, gate_id]
                    =~= before[i].output_connects_to@.push(gate_id).push(gate_id));
            }
            lemma_gate_added(before, self.gates@);
            let f = Formula::binary(kind->Binary_0, left@, right@);
            assert(nodes_of(before) == nodes0 + wiring(left@, vars, base) + wiring(right@, vars, mid));
            assert(nodes_of(self.gates@) =~= nodes0 + wiring(f, vars, base));
        }
        gate_id
    }

    /// Puts the gates in layers. The inputs form the first layer. Each further
    /// layer is gathered from the fan-out of the layer before it: a gate
    /// enters once all its inputs stand in earlier layers.
    fn layout_gates(&mut self)
        requires
            wired(old(self).gates@),
        ensures
            final(self).variables == old(self).variables,
            unchanged(old(self).gates@, final(self).gates@),
            laid_out(final(self).gates@, final(self).layers@),
    {
        let n = self.gates.len();
        let ghost nodes = nodes_of(self.gates@);
        let ghost start = self.gates@;
        proof {
            lemma_wired_nodes(start);
        }
        let mut layers: Vec<Vec<usize>> = Vec::new();
        let (current_layer, visited_inputs) = self.place_inputs();
        let mut visited = visited_inputs;
        proof {
            lemma_unchanged_nodes(start, self.gates@);
        }
        if current_layer.len() == 0 {
            proof {
                if n > 0 {
                    lemma_depth_witness(nodes, 0);
                    assert(nodes[0].inputs.len() == nodes[0].kind.arity());
                    if nodes[0].inputs.len() > 0 {
                        assert(nodes[0].inputs[0] < 0);
                    }
                    assert(nodes[0].kind is Input);
                    assert(self.gates@[0].offset < 0);
                }
            }
            self.layers = layers;
            return ;
        }
        layers.push(current_layer);
        proof {
            lemma_inputs_placed(self.gates@, layers@, visited@, nodes);
        }
        let mut done = false;
        while !done
            invariant
                n == nodes.len(),
                well_formed(nodes),
                self.variables == old(self).variables,
                start == old(self).gates@,
                unchanged(start, self.gates@),
                1 <= layers@.len() <= n,
                placed(self.gates@, layers@, visited@, nodes, layers@.len() as nat, Seq::empty()),
                done ==> forall|k: int| 0 <= k < n ==> depth(nodes, k) != layers@.len(),
            decreases n - layers@.len() + (if done { 0int } else { 1int }),
        {
            let ghost level = layers@.len() as nat;
            let ghost gates_before = self.gates@;
            let next_layer = self.gather_layer(&mut visited, &layers, Ghost(nodes));
            proof {
                lemma_unchanged_trans(start, gates_before, self.gates@);
                lemma_level_gathered(self.gates@, layers@, visited@, nodes, level, next_layer@);
            }
            if next_layer.len() == 0 {
                done = true;
                proof {
                    lemma_level_empty(self.gates@, layers@, visited@, nodes, level);
                }
            } else {
                proof {
                    lemma_depth_at_most_index(nodes, next_layer@[0] as int);
                }
                let ghost before = layers@;
                layers.push(next_layer);
                proof {
                    assert(layers@.drop_last() =~= before);
                    lemma_level_closed(self.gates@, before, layers@, visited@, nodes, level);
                }
            }
        }
        proof {
            lemma_all_placed(self.gates@, layers@, visited@, nodes);
        }
        self.layers = layers;
    }

    /// Puts the inputs, in ascending order, in a layer of their own, and
    /// marks them.
    fn place_inputs(&mut self) -> (found: (Vec<usize>, Vec<bool>))
        ensures
            final(self).variables == old(self).variables,
            final(self).layers == old(self).layers,
            unchanged(old(self).gates@, final(self).gates@),
            found.0@ == input_gates(nodes_of(old(self).gates@)),
            inputs_marked(final(self).gates@, found.0@, found.1@, nodes_of(old(self).gates@)),
    {
        let n = self.gates.len();
        let ghost nodes = nodes_of(self.gates@);
        let ghost start = self.gates@;
        let mut visited: Vec<bool> = Vec::new();
        let mut current_layer: Vec<usize> = Vec::new();
        let mut i: usize = 0;
        while i < n
            invariant
                n == nodes.len(),
                nodes == nodes_of(start),
                start == old(self).gates@,
                self.variables == old(self).variables,
                self.layers == old(self).layers,
                unchanged(start, self.gates@),
                i <= n,
                visited@.len() == i,
                current_layer@ == input_gates(nodes.take(i as int)),
                forall|k: int| 0 <= k < i ==> (#[trigger] visited@[k] <==> nodes[k].kind is Input),
                forall|k: int|
                    0 <= k < i && nodes[k].kind is Input ==> {
                        &&& (#[trigger] self.gates@[k]).layer == 0
                        &&& self.gates@[k].offset < current_layer@.len()
                        &&& current_layer@[self.gates@[k].offset as int] == k
                    },
                forall|p: int|
                    0 <= p < current_layer@.len() ==> {
                        &&& (#[trigger] current_layer@[p]) < i
                        &&& nodes[current_layer@[p] as int].kind is Input
                        &&& self.gates@[current_layer@[p] as int].layer == 0
                        &&& self.gates@[current_layer@[p] as int].offset == p
                    },
            decreases n - i,
        {
            proof {
                assert(nodes.take(i + 1).drop_last() =~= nodes.take(i as int));
                assert(nodes.take(i + 1).last() == nodes[i as int]);
                assert(start[i as int].node() == nodes[i as int]);
            }
            let is_input = matches!(self.gates[i].gate_type, GateType::Input(_));
            if is_input {
                self.gates[i].layer = 0;
                self.gates[i].offset = current_layer.len();
                current_layer.push(i);
                visited.push(true);
            } else {
                visited.push(false);
            }
            i += 1;
        }
        proof {
            assert(nodes.take(n as int) =~= nodes);
        }
        (current_layer, visited)
    }

    /// Gathers the next layer from the fan-out of the last one: the gates
    /// that are not marked yet and whose inputs all stand in earlier layers,
    /// each once, in the order in which the fan-out names them.
    fn gather_layer(
        &mut self,
        visited: &mut Vec<bool>,
        layers: &Vec<Vec<usize>>,
        Ghost(nodes): Ghost<Seq<Node>>,
    ) -> (next_layer: Vec<usize>)
        requires
            well_formed(nodes),
            layers@.len() >= 1,
            placed(
                old(self).gates@,
                layers@,
                old(visited)@,
                nodes,
                layers@.len() as nat,
                Seq::empty(),
            ),
        ensures
            final(self).variables == old(self).variables,
            final(self).layers == old(self).layers,
            unchanged(old(self).gates@, final(self).gates@),
            placed(
                final(self).gates@,
                layers@,
                final(visited)@,
                nodes,
                layers@.len() as nat,
                next_layer@,
            ),
            next_layer@ == admitted(
                nodes,
                fanout(nodes, layers@[layers@.len() - 1]@),
                layers@.len() as nat,
            ),
    {
        let level = layers.len();
        let last = level - 1;
        let n = self.gates.len();
        let ghost start = self.gates@;
        let mut next_layer: Vec<usize> = Vec::new();
        let ghost mut candidates: Seq<usize> = Seq::empty();
        let mut m: usize = 0;
        while m < layers[last].len()
            invariant
                n == nodes.len(),
                well_formed(nodes),
                self.variables == old(self).variables,
                self.layers == old(self).layers,
                start == old(self).gates@,
                unchanged(start, self.gates@),
                level == layers@.len(),
                last == level - 1,
                1 <= level,
                m <= layers@[last as int]@.len(),
                placed(self.gates@, layers@, visited@, nodes, level as nat, next_layer@),
                next_layer@ == admitted(nodes, candidates, level as nat),
                next_layer@.no_duplicates(),
                candidates == fanout(nodes, layers@[last as int]@.take(m as int)),
            decreases layers@[last as int]@.len() - m,
        {
            let gate_id = layers[last][m];
            let ghost earlier = candidates;
            let ghost fan = readers(nodes, gate_id);
            assert(self.gates@[gate_id as int].output_connects_to@ == fan);
            let mut t: usize = 0;
            assert(earlier + fan.take(0) =~= earlier);
            while t < self.gates[gate_id].output_connects_to.len()
                invariant
                    n == nodes.len(),
                    well_formed(nodes),
                    self.variables == old(self).variables,
                    self.layers == old(self).layers,
                    start == old(self).gates@,
                    unchanged(start, self.gates@),
                    level == layers@.len(),
                    last == level - 1,
                    1 <= level,
                    m < layers@[last as int]@.len(),
                    gate_id == layers@[last as int]@[m as int],
                    gate_id < n,
                    fan == readers(nodes, gate_id),
                    self.gates@[gate_id as int].output_connects_to@ == fan,
                    t <= fan.len(),
                    placed(self.gates@, layers@, visited@, nodes, level as nat, next_layer@),
                    next_layer@ == admitted(nodes, candidates, level as nat),
                    next_layer@.no_duplicates(),
                    candidates == earlier + fan.take(t as int),
                decreases fan.len() - t,
            {
                let connected_gate_id = self.gates[gate_id].output_connects_to[t];
                let ghost c = connected_gate_id;
                proof {
                    lemma_candidate(
                        self.gates@,
                        layers@,
                        visited@,
                        nodes,
                        level as nat,
                        next_layer@,
                        gate_id,
                        m as int,
                        t as int,
                    );
                    assert((earlier + fan.take(t + 1)).drop_last() =~= earlier + fan.take(t as int));
                    assert((earlier + fan.take(t + 1)).last() == c);
                }
                if !visited[connected_gate_id] {
                    let all_inputs_ready = inputs_ready(
                        &self.gates,
                        visited,
                        connected_gate_id,
                        level,
                    );
                    proof {
                        lemma_ready_is_depth(
                            self.gates@,
                            layers@,
                            visited@,
                            nodes,
                            level as nat,
                            next_layer@,
                            c,
                            all_inputs_ready,
                        );
                    }
                    if all_inputs_ready {
                        let ghost gates_before = self.gates@;
                        let ghost next_before = next_layer@;
                        let ghost visited_before = visited@;
                        self.gates[connected_gate_id].layer = level;
                        self.gates[connected_gate_id].offset = next_layer.len();
                        next_layer.push(connected_gate_id);
                        visited[connected_gate_id] = true;
                        proof {
                            lemma_admit(
                                gates_before,
                                self.gates@,
                                layers@,
                                visited_before,
                                visited@,
                                nodes,
                                level as nat,
                                next_before,
                                c,
                            );
                            lemma_unchanged_trans(start, gates_before, self.gates@);
                        }
                    }
                }
                proof {
                    candidates = earlier + fan.take(t + 1);
                }
                t += 1;
            }
            proof {
                let layer = layers@[last as int]@;
                assert(fan.take(fan.len() as int) =~= fan);
                assert(layer.take(m + 1).drop_last() =~= layer.take(m as int));
                assert(layer.take(m + 1).last() == gate_id);
            }
            m += 1;
        }
        proof {
            let layer = layers@[last as int]@;
            assert(layer.take(layer.len() as int) =~= layer);
        }
        next_layer
    }
}

/// Whether every input of `gate` stands in a layer before `level`.
fn inputs_ready(gates: &Vec<GateInstance>, visited: &Vec<bool>, gate: usize, level: usize) -> (ready:
    bool)
    requires
        gate < gates@.len(),
        visited@.len() == gates@.len(),
        forall|s: int|
            0 <= s < gates@[gate as int].inputs@.len() ==> gates@[gate as int].inputs@[s]
                < gates@.len(),
    ensures
        ready <==> forall|s: int|
            0 <= s < gates@[gate as int].inputs@.len() ==> visited@[gates@[gate as int].inputs@[s] as int]
                && gates@[gates@[gate as int].inputs@[s] as int].layer < level,
{
    let mut s: usize = 0;
    while s < gates[gate].inputs.len()
        invariant
            gate < gates@.len(),
            visited@.len() == gates@.len(),
            s <= gates@[gate as int].inputs@.len(),
            forall|k: int|
                0 <= k < gates@[gate as int].inputs@.len() ==> gates@[gate as int].inputs@[k]
                    < gates@.len(),
            forall|k: int|
                0 <= k < s ==> visited@[gates@[gate as int].inputs@[k] as int]
                    && gates@[gates@[gate as int].inputs@[k] as int].layer < level,
        decreases gates@[gate as int].inputs@.len() - s,
    {
        let input_id = gates[gate].inputs[s];
        if !visited[input_id] || gates[input_id].layer >= level {
            return false;
        }
        s += 1;
    }
    true
}

/// The first place at which `names` holds `name`.
fn find_name(names: &Vec<String>, name: &String) -> (found: Option<usize>)
    ensures
        match found {
            Some(i) => i < names@.len() && names@[i as int]@ == name@ && forall|j: int|
                0 <= j < i ==> names@[j]@ != name@,
            None => !names_of(names@).contains(name@),
        },
{
    let mut i: usize = 0;
    while i < names.len()
        invariant
            i <= names@.len(),
            forall|j: int| 0 <= j < i ==> names@[j]@ != name@,
        decreases names@.len() - i,
    {
        if names[i] == *name {
            return Some(i);
        }
        i += 1;
    }
    proof {
        let all = names_of(names@);
        if all.contains(name@) {
            let j = choose|j: int| 0 <= j < all.len() && all[j] == name@;
            assert(names@[j]@ == name@);
        }
    }
    None
}

/// Names that hold all of `a + b` hold all of `a` and all of `b`.
proof fn lemma_operand_names(
    names: Seq<Seq<char>>,
    all: Seq<Seq<char>>,
    a: Seq<Seq<char>>,
    b: Seq<Seq<char>>,
)
    requires
        all == a + b,
        forall|k: int| 0 <= k < all.len() ==> names.contains(#[trigger] all[k]),
    ensures
        forall|k: int| 0 <= k < a.len() ==> names.contains(#[trigger] a[k]),
        forall|k: int| 0 <= k < b.len() ==> names.contains(#[trigger] b[k]),
{
    assert forall|k: int| 0 <= k < a.len() implies names.contains(#[trigger] a[k]) by {
        assert((a + b)[k] == a[k]);
    }
    assert forall|k: int| 0 <= k < b.len() implies names.contains(#[trigger] b[k]) by {
        assert((a + b)[a.len() + k] == b[k]);
    }
}

/// `slots` of an input list of one or two entries.
proof fn lemma_slots_short(inputs: Seq<usize>, gate: usize, reader: usize)
    requires
        1 <= inputs.len() <= 2,
    ensures
        inputs.len() == 1 ==> slots(inputs, gate, reader) == if inputs[0] == gate {
            seq![reader]
        } else {
            Seq::<usize>::empty()
        },
        inputs.len() == 2 ==> slots(inputs, gate, reader) == if inputs[0] == gate && inputs[1]
            == gate {
            seq![reader, reader]
        } else if inputs[0] == gate || inputs[1] == gate {
            seq![reader]
        } else {
            Seq::<usize>::empty()
        },
{
    reveal_with_fuel(slots, 3);
    if inputs.len() == 1 {
        assert(slots(inputs, gate, reader) =~= if inputs[0] == gate {
            seq![reader]
        } else {
            Seq::<usize>::empty()
        });
    } else {
        assert(inputs.drop_last().last() == inputs[0]);
        assert(slots(inputs, gate, reader) =~= if inputs[0] == gate && inputs[1] == gate {
            seq![reader, reader]
        } else if inputs[0] == gate || inputs[1] == gate {
            seq![reader]
        } else {
            Seq::<usize>::empty()
        });
    }
}

/// A circuit stays one when a gate is added whose inputs exist, and each of
/// them gets the new gate into its fan-out, once per input.
proof fn lemma_gate_added(before: Seq<GateInstance>, after: Seq<GateInstance>)
    requires
        wired(before),
        after.len() == before.len() + 1,
        before.len() < usize::MAX,
        after.last().inputs@.len() == after.last().gate_type@.arity(),
        forall|s: int| 0 <= s < after.last().inputs@.len() ==> after.last().inputs@[s] < before.len(),
        after.last().output_connects_to@ == Seq::<usize>::empty(),
        forall|i: int| 0 <= i < before.len() ==> (#[trigger] after[i]).node() == before[i].node(),
        forall|i: int|
            0 <= i < before.len() ==> (#[trigger] after[i]).output_connects_to@
                == before[i].output_connects_to@ + slots(
                after.last().inputs@,
                i as usize,
                before.len() as usize,
            ),
    ensures
        wired(after),
        nodes_of(after) == nodes_of(before).push(after.last().node()),
{
    let n = before.len() as int;
    let nodes = nodes_of(after);
    assert(nodes =~= nodes_of(before).push(after.last().node()));
    assert(nodes.drop_last() =~= nodes_of(before));
    assert forall|i: int| 0 <= i < after.len() implies (#[trigger] after[i]).inputs@.len()
        == after[i].gate_type@.arity() by {
        if i < n {
            assert(after[i].node() == before[i].node());
        }
    }
    assert forall|i: int, s: int| 0 <= i < after.len() && 0 <= s < after[i].inputs@.len() implies (
    #[trigger] after[i].inputs@[s]) < i by {
        if i < n {
            assert(after[i].node() == before[i].node());
            assert(before[i].inputs@[s] < i);
        }
    }
    assert forall|i: int| 0 <= i < after.len() implies (#[trigger] after[i]).output_connects_to@
        == readers(nodes, i as usize) by {
        if i < n {
            assert(before[i].output_connects_to@ == readers(nodes_of(before), i as usize));
        } else {
            assert forall|k: int, s: int|
                0 <= k < nodes.len() && 0 <= s < nodes[k].inputs.len() implies #[trigger] nodes[k].inputs[s]
                != i as usize by {
                assert(after[k].inputs@[s] < k);
            }
            lemma_readers_none(nodes, i as usize);
        }
    }
}

proof fn lemma_wiring_len(f: Formula, vars: Seq<Seq<char>>, base: nat)
    ensures
        wiring(f, vars, base).len() == f.operators(),
    decreases f,
{
    match f {
        Formula::Var(_) => {},
        Formula::Not(a) => {
            lemma_wiring_len(*a, vars, base);
        },
        Formula::Binary(_, a, b) => {
            lemma_wiring_len(*a, vars, base);
            lemma_wiring_len(*b, vars, base + a.operators());
        },
    }
}

proof fn lemma_slots_none(inputs: Seq<usize>, gate: usize, reader: usize)
    requires
        forall|s: int| 0 <= s < inputs.len() ==> inputs[s] != gate,
    ensures
        slots(inputs, gate, reader) == Seq::<usize>::empty(),
    decreases inputs.len(),
{
    if inputs.len() > 0 {
        lemma_slots_none(inputs.drop_last(), gate, reader);
    }
}

proof fn lemma_readers_none(nodes: Seq<Node>, gate: usize)
    requires
        forall|i: int, s: int|
            0 <= i < nodes.len() && 0 <= s < nodes[i].inputs.len() ==> #[trigger] nodes[i].inputs[s]
                != gate,
    ensures
        readers(nodes, gate) == Seq::<usize>::empty(),
    decreases nodes.len(),
{
    if nodes.len() > 0 {
        let front = nodes.drop_last();
        assert forall|i: int, s: int|
            0 <= i < front.len() && 0 <= s < front[i].inputs.len() implies #[trigger] front[i].inputs[s]
            != gate by {
            assert(nodes[i].inputs[s] != gate);
        }
        lemma_readers_none(front, gate);
        lemma_slots_none(nodes.last().inputs, gate, (nodes.len() - 1) as usize);
    }
}

/// In the netlist of a formula every variable has one input gate, however
/// often the formula reads it: the first gates are the inputs of the
/// variables, one each, and no other gate is an input.
pub proof fn lemma_one_input_per_variable(net: Netlist, f: Formula)
    requires
        net.is_netlist_of(f),
    ensures
        net.inputs_first(),
        forall|k: int|
            0 <= k < f.leaves().len() ==> names_of(net.variables@).contains(
                #[trigger] f.leaves()[k],
            ),
{
    let vars = names_of(net.variables@);
    let nodes = nodes_of(net.gates@);
    lemma_absorb(Seq::<Seq<char>>::empty(), f.leaves());
    lemma_wiring_len(f, vars, vars.len());
    lemma_wiring_kinds(f, vars, vars.len());
    assert forall|i: int| 0 <= i < net.gates@.len() implies ((#[trigger] net.gates@[i]).gate_type@ is Input
        <==> i < vars.len()) by {
        assert(nodes[i] == net.gates@[i].node());
        if i >= vars.len() {
            assert(nodes[i] == wiring(f, vars, vars.len())[i - vars.len()]);
        } else {
            assert(nodes[i] == input_nodes(vars)[i]);
        }
    }
    assert forall|i: int| 0 <= i < vars.len() implies (#[trigger] net.gates@[i]).gate_type@
        == GateKind::Input(vars[i]) by {
        assert(nodes[i] == net.gates@[i].node());
        assert(nodes[i] == input_nodes(vars)[i]);
    }
    assert forall|k: int| 0 <= k < f.leaves().len() implies vars.contains(
        #[trigger] f.leaves()[k],
    ) by {
        assert(f.leaves().contains(f.leaves()[k]));
    }
}

/// No operator node is an input.
proof fn lemma_wiring_kinds(f: Formula, vars: Seq<Seq<char>>, base: nat)
    ensures
        forall|i: int|
            0 <= i < wiring(f, vars, base).len() ==> !((#[trigger] wiring(f, vars, base)[i]).kind
                is Input),
    decreases f,
{
    match f {
        Formula::Var(_) => {},
        Formula::Not(a) => {
            lemma_wiring_kinds(*a, vars, base);
        },
        Formula::Binary(_, a, b) => {
            lemma_wiring_kinds(*a, vars, base);
            lemma_wiring_kinds(*b, vars, base + a.operators());
        },
    }
}

/// In a circuit the two directions of an edge agree: gate `b` reads gate `a`
/// exactly if the fan-out of `a` holds `b`.
pub proof fn lemma_edges_agree(gates: Seq<GateInstance>, a: usize, b: usize)
    requires
        wired(gates),
        gates.len() <= usize::MAX,
        a < gates.len(),
        b < gates.len(),
    ensures
        gates[a as int].output_connects_to@.contains(b) <==> gates[b as int].inputs@.contains(a),
{
    lemma_readers_members(nodes_of(gates), a, b);
}

/// Holds the expression that is shown and its netlist.
pub struct LogicGatesViewer {
    netlist: Netlist,
    expression: Option<Expr>,
}

impl LogicGatesViewer {
    /// The netlist that the viewer holds.
    pub closed spec fn spec_netlist(&self) -> Netlist {
        self.netlist
    }

    /// The formula of the expression that the viewer holds, if it holds one.
    pub closed spec fn spec_formula(&self) -> Option<Formula> {
        match self.expression {
            Some(e) => Some(e@),
            None => None,
        }
    }

    /// A viewer without an expression: its netlist has no gate.
    pub fn new() -> (viewer: LogicGatesViewer)
        ensures
            viewer.spec_formula() is None,
            viewer.spec_netlist().gates@.len() == 0,
            viewer.spec_netlist().variables@.len() == 0,
            viewer.spec_netlist().layers@.len() == 0,
    {
        LogicGatesViewer { netlist: Netlist::new(), expression: None }
    }

    /// Takes `expr` as the expression to show and compiles its netlist.
    pub fn set_expression(&mut self, expr: Expr)
        ensures
            final(self).spec_formula() == Some(expr@),
            final(self).spec_netlist().is_netlist_of(expr@),
    {
        self.netlist.generate_circuit_from_expression(&expr);
        self.expression = Some(expr);
    }

    /// The netlist of the expression set last.
    pub fn netlist(&self) -> (net: &Netlist)
        ensures
            *net == self.spec_netlist(),
    {
        &self.netlist
    }

    /// The expression set last.
    pub fn expression(&self) -> (expr: Option<&Expr>)
        ensures
            match expr {
                Some(e) => self.spec_formula() == Some(e@),
                None => self.spec_formula() is None,
            },
    {
        self.expression.as_ref()
    }
}

} // verus!
