//! The layers of a circuit: the depth of a gate, the order within a layer,
//! and why the layout reaches every gate.

use vstd::prelude::*;
use crate::logic_gates::{nodes_of, readers, slots, wired, GateInstance, Node};

verus! {

/// Every input of every node was created before the node.
pub open spec fn ordered(nodes: Seq<Node>) -> bool {
    forall|i: int, s: int|
        0 <= i < nodes.len() && 0 <= s < nodes[i].inputs.len() ==> (#[trigger] nodes[i].inputs[s])
            < i
}

/// One more than the greatest depth among the first `count` inputs of node
/// `i`, and 0 where `count` is 0.
pub open spec fn depth_over(nodes: Seq<Node>, i: int, count: nat) -> nat
    decreases i, count,
{
    if count == 0 || i < 0 || i >= nodes.len() || count > nodes[i].inputs.len() {
        0
    } else {
        let input = nodes[i].inputs[count - 1] as int;
        let rest = depth_over(nodes, i, (count - 1) as nat);
        if input < i {
            let through = depth_over(nodes, input, nodes[input].inputs.len()) + 1;
            if through > rest {
                through
            } else {
                rest
            }
        } else {
            rest
        }
    }
}

/// The depth of node `i`: 0 for a node without inputs, otherwise one more
/// than the greatest depth among its inputs.
pub open spec fn depth(nodes: Seq<Node>, i: int) -> nat {
    if 0 <= i < nodes.len() {
        depth_over(nodes, i, nodes[i].inputs.len())
    } else {
        0
    }
}

/// The input nodes, in ascending order.
pub open spec fn input_gates(nodes: Seq<Node>) -> Seq<usize>
    decreases nodes.len(),
{
    if nodes.len() == 0 {
        Seq::empty()
    } else if nodes.last().kind is Input {
        input_gates(nodes.drop_last()).push((nodes.len() - 1) as usize)
    } else {
        input_gates(nodes.drop_last())
    }
}

/// The fan-out of a layer: the readers of its first member, then those of
/// its second, and so on.
pub open spec fn fanout(nodes: Seq<Node>, layer: Seq<usize>) -> Seq<usize>
    decreases layer.len(),
{
    if layer.len() == 0 {
        Seq::empty()
    } else {
        fanout(nodes, layer.drop_last()) + readers(nodes, layer.last())
    }
}

/// The members of `candidates` whose depth is `level`, each once, in the
/// order in which they first occur.
pub open spec fn admitted(nodes: Seq<Node>, candidates: Seq<usize>, level: nat) -> Seq<usize>
    decreases candidates.len(),
{
    if candidates.len() == 0 {
        Seq::empty()
    } else {
        let before = admitted(nodes, candidates.drop_last(), level);
        let c = candidates.last();
        if depth(nodes, c as int) == level && !before.contains(c) {
            before.push(c)
        } else {
            before
        }
    }
}

/// The layout of a circuit. Every gate stands in the layer of its depth, at
/// its offset, and the layers hold nothing else; no layer is empty. The first
/// layer holds the inputs in ascending order; each further layer holds, from
/// the fan-out of the layer before it, the gates of its depth in the order in
/// which they first occur there.
pub open spec fn laid_out(gates: Seq<GateInstance>, layers: Seq<Vec<usize>>) -> bool {
    let nodes = nodes_of(gates);
    &&& forall|i: int|
        0 <= i < gates.len() ==> {
            &&& (#[trigger] gates[i]).layer == depth(nodes, i)
            &&& gates[i].layer < layers.len()
            &&& gates[i].offset < layers[gates[i].layer as int]@.len()
            &&& layers[gates[i].layer as int]@[gates[i].offset as int] == i
        }
    &&& forall|l: int, p: int|
        0 <= l < layers.len() && 0 <= p < layers[l]@.len() ==> {
            &&& (#[trigger] layers[l]@[p]) < gates.len()
            &&& gates[layers[l]@[p] as int].layer == l
            &&& gates[layers[l]@[p] as int].offset == p
        }
    &&& forall|l: int| 0 <= l < layers.len() ==> (#[trigger] layers[l])@.len() > 0
    &&& layers.len() > 0 ==> layers[0]@ == input_gates(nodes)
    &&& forall|l: int|
        1 <= l < layers.len() ==> (#[trigger] layers[l])@ == admitted(
            nodes,
            fanout(nodes, layers[l - 1]@),
            l as nat,
        )
}

/// The gates after a step of the layout are those before it but for their
/// places: kinds, inputs and fan-out lists are the same.
pub open spec fn unchanged(before: Seq<GateInstance>, after: Seq<GateInstance>) -> bool {
    &&& after.len() == before.len()
    &&& forall|k: int|
        0 <= k < before.len() ==> {
            &&& (#[trigger] after[k]).gate_type == before[k].gate_type
            &&& after[k].inputs == before[k].inputs
            &&& after[k].output_connects_to == before[k].output_connects_to
        }
}

/// The nodes of a circuit: ordered, each with as many inputs as its kind
/// reads, and no more of them than an index can count.
pub(crate) open spec fn well_formed(nodes: Seq<Node>) -> bool {
    &&& ordered(nodes)
    &&& nodes.len() <= usize::MAX
    &&& forall|i: int| 0 <= i < nodes.len() ==> (#[trigger] nodes[i]).inputs.len() == nodes[i].kind.arity()
}

/// The state after the inputs were put in `layer`.
pub(crate) open spec fn inputs_marked(
    gates: Seq<GateInstance>,
    layer: Seq<usize>,
    visited: Seq<bool>,
    nodes: Seq<Node>,
) -> bool {
    &&& visited.len() == nodes.len()
    &&& forall|k: int| 0 <= k < nodes.len() ==> (#[trigger] visited[k] <==> nodes[k].kind is Input)
    &&& forall|k: int|
        0 <= k < nodes.len() && nodes[k].kind is Input ==> {
            &&& (#[trigger] gates[k]).layer == 0
            &&& gates[k].offset < layer.len()
            &&& layer[gates[k].offset as int] == k
        }
    &&& forall|p: int|
        0 <= p < layer.len() ==> {
            &&& (#[trigger] layer[p]) < nodes.len()
            &&& nodes[layer[p] as int].kind is Input
            &&& gates[layer[p] as int].layer == 0
            &&& gates[layer[p] as int].offset == p
        }
}

/// The state of the layout while layer `level` is gathered in `next`: the
/// gates of lesser depth stand in `layers`, those in `next` have depth
/// `level`, and `visited` marks both.
pub(crate) open spec fn placed(
    gates: Seq<GateInstance>,
    layers: Seq<Vec<usize>>,
    visited: Seq<bool>,
    nodes: Seq<Node>,
    level: nat,
    next: Seq<usize>,
) -> bool {
    &&& gates.len() == nodes.len()
    &&& nodes.len() <= usize::MAX
    &&& visited.len() == nodes.len()
    &&& layers.len() == level
    &&& forall|i: int|
        0 <= i < nodes.len() ==> (#[trigger] gates[i]).node() == nodes[i]
            && gates[i].output_connects_to@ == readers(nodes, i as usize)
    &&& forall|i: int|
        0 <= i < nodes.len() ==> (#[trigger] visited[i] <==> depth(nodes, i) < level
            || next.contains(i as usize))
    &&& forall|i: int|
        0 <= i < nodes.len() && depth(nodes, i) < level ==> {
            &&& (#[trigger] gates[i]).layer == depth(nodes, i)
            &&& gates[i].offset < layers[gates[i].layer as int]@.len()
            &&& layers[gates[i].layer as int]@[gates[i].offset as int] == i
        }
    &&& forall|l: int, p: int|
        0 <= l < layers.len() && 0 <= p < layers[l]@.len() ==> {
            &&& (#[trigger] layers[l]@[p]) < nodes.len()
            &&& depth(nodes, layers[l]@[p] as int) == l
            &&& gates[layers[l]@[p] as int].layer == l
            &&& gates[layers[l]@[p] as int].offset == p
        }
    &&& forall|p: int|
        0 <= p < next.len() ==> {
            &&& (#[trigger] next[p]) < nodes.len()
            &&& depth(nodes, next[p] as int) == level
            &&& gates[next[p] as int].layer == level
            &&& gates[next[p] as int].offset == p
        }
    &&& forall|l: int| 0 <= l < layers.len() ==> (#[trigger] layers[l])@.len() > 0
    &&& layers.len() > 0 ==> layers[0]@ == input_gates(nodes)
    &&& forall|l: int|
        1 <= l < layers.len() ==> (#[trigger] layers[l])@ == admitted(
            nodes,
            fanout(nodes, layers[l - 1]@),
            l as nat,
        )
}

pub(crate) proof fn lemma_wired_nodes(gates: Seq<GateInstance>)
    requires
        wired(gates),
        gates.len() <= usize::MAX,
    ensures
        well_formed(nodes_of(gates)),
{
    let nodes = nodes_of(gates);
    assert forall|k: int, s: int|
        0 <= k < nodes.len() && 0 <= s < nodes[k].inputs.len() implies (#[trigger] nodes[k].inputs[s])
        < k by {
        assert(gates[k].inputs@[s] < k);
    }
    assert forall|i: int| 0 <= i < nodes.len() implies (#[trigger] nodes[i]).inputs.len()
        == nodes[i].kind.arity() by {
        assert(gates[i].inputs@.len() == gates[i].gate_type@.arity());
    }
}

/// Unchanged gates have the same nodes, and stay a circuit.
pub(crate) proof fn lemma_unchanged_nodes(before: Seq<GateInstance>, after: Seq<GateInstance>)
    requires
        unchanged(before, after),
    ensures
        nodes_of(after) == nodes_of(before),
        wired(before) ==> wired(after),
{
    assert forall|k: int| 0 <= k < before.len() implies nodes_of(after)[k] == nodes_of(before)[k] by {
        assert(after[k].gate_type == before[k].gate_type);
    }
    assert(nodes_of(after) =~= nodes_of(before));
    if wired(before) {
        assert forall|i: int| 0 <= i < after.len() implies (#[trigger] after[i]).inputs@.len()
            == after[i].gate_type@.arity() by {
            assert(before[i].inputs@.len() == before[i].gate_type@.arity());
        }
        assert forall|i: int, s: int|
            0 <= i < after.len() && 0 <= s < after[i].inputs@.len() implies (#[trigger] after[i].inputs@[s])
            < i by {
            assert(before[i].inputs@[s] < i);
        }
        assert forall|i: int| 0 <= i < after.len() implies (#[trigger] after[i]).output_connects_to@
            == readers(nodes_of(after), i as usize) by {
            assert(before[i].output_connects_to@ == readers(nodes_of(before), i as usize));
        }
    }
}

pub(crate) proof fn lemma_unchanged_trans(a: Seq<GateInstance>, b: Seq<GateInstance>, c: Seq<GateInstance>)
    requires
        unchanged(a, b),
        unchanged(b, c),
    ensures
        unchanged(a, c),
{
    assert forall|k: int| 0 <= k < a.len() implies {
        &&& (#[trigger] c[k]).gate_type == a[k].gate_type
        &&& c[k].inputs == a[k].inputs
        &&& c[k].output_connects_to == a[k].output_connects_to
    } by {
        assert(b[k].gate_type == a[k].gate_type);
    }
}

/// Once the inputs are placed, the layout stands at level 1.
pub(crate) proof fn lemma_inputs_placed(
    gates: Seq<GateInstance>,
    layers: Seq<Vec<usize>>,
    visited: Seq<bool>,
    nodes: Seq<Node>,
)
    requires
        well_formed(nodes),
        wired(gates),
        nodes == nodes_of(gates),
        layers.len() == 1,
        layers[0]@.len() > 0,
        layers[0]@ == input_gates(nodes),
        inputs_marked(gates, layers[0]@, visited, nodes),
    ensures
        placed(gates, layers, visited, nodes, 1, Seq::empty()),
        1 <= nodes.len(),
{
    let none = Seq::<usize>::empty();
    assert(layers[0]@[0] < nodes.len());
    assert forall|k: int| 0 <= k < nodes.len() implies (depth(nodes, k) == 0 <==> nodes[k].kind is Input) by {
        lemma_depth_witness(nodes, k);
    }
    assert forall|i: int| 0 <= i < nodes.len() implies (#[trigger] gates[i]).node() == nodes[i]
        && gates[i].output_connects_to@ == readers(nodes, i as usize) by {}
    assert forall|i: int| 0 <= i < nodes.len() implies (#[trigger] visited[i] <==> depth(nodes, i) < 1
        || none.contains(i as usize)) by {
        if none.contains(i as usize) {
            let j = choose|j: int| 0 <= j < 0 && none[j] == i as usize;
        }
    }
    assert forall|l: int, p: int| 0 <= l < layers.len() && 0 <= p < layers[l]@.len() implies {
        &&& (#[trigger] layers[l]@[p]) < nodes.len()
        &&& depth(nodes, layers[l]@[p] as int) == l
        &&& gates[layers[l]@[p] as int].layer == l
        &&& gates[layers[l]@[p] as int].offset == p
    } by {
        assert(nodes[layers[0]@[p] as int].kind is Input);
    }
}

/// A candidate from the fan-out of a gate of the last layer is a gate that
/// lies deeper than that layer.
pub(crate) proof fn lemma_candidate(
    gates: Seq<GateInstance>,
    layers: Seq<Vec<usize>>,
    visited: Seq<bool>,
    nodes: Seq<Node>,
    level: nat,
    next: Seq<usize>,
    gate: usize,
    m: int,
    t: int,
)
    requires
        well_formed(nodes),
        level >= 1,
        placed(gates, layers, visited, nodes, level, next),
        0 <= m < layers[level - 1]@.len(),
        layers[level - 1]@[m] == gate,
        0 <= t < readers(nodes, gate).len(),
    ensures
        readers(nodes, gate)[t] < nodes.len(),
        depth(nodes, readers(nodes, gate)[t] as int) >= level,
        forall|s: int|
            0 <= s < gates[readers(nodes, gate)[t] as int].inputs@.len() ==> gates[readers(
                nodes,
                gate,
            )[t] as int].inputs@[s] < gates.len(),
{
    let c = readers(nodes, gate)[t];
    assert(depth(nodes, layers[level - 1]@[m] as int) == level - 1);
    assert(readers(nodes, gate).contains(c));
    lemma_readers_members(nodes, gate, c);
    let s = choose|s: int| 0 <= s < nodes[c as int].inputs.len() && nodes[c as int].inputs[s] == gate;
    lemma_depth_exceeds_inputs(nodes, c as int, s);
    assert(gates[c as int].node() == nodes[c as int]);
    assert forall|s: int| 0 <= s < gates[c as int].inputs@.len() implies gates[c as int].inputs@[s]
        < gates.len() by {
        assert(nodes[c as int].inputs[s] < c);
    }
}

/// Where a gathered layer is empty, no gate has the depth of its level.
pub(crate) proof fn lemma_level_empty(
    gates: Seq<GateInstance>,
    layers: Seq<Vec<usize>>,
    visited: Seq<bool>,
    nodes: Seq<Node>,
    level: nat,
)
    requires
        forall|k: int|
            0 <= k < nodes.len() ==> (depth(nodes, k) == level <==> Seq::<usize>::empty().contains(
                k as usize,
            )),
    ensures
        forall|k: int| 0 <= k < nodes.len() ==> depth(nodes, k) != level,
{
    let none = Seq::<usize>::empty();
    assert forall|k: int| 0 <= k < nodes.len() implies depth(nodes, k) != level by {
        if none.contains(k as usize) {
            let j = choose|j: int| 0 <= j < 0 && none[j] == k as usize;
        }
    }
}

/// When no gate has the depth of the level reached, every gate is placed.
pub(crate) proof fn lemma_all_placed(
    gates: Seq<GateInstance>,
    layers: Seq<Vec<usize>>,
    visited: Seq<bool>,
    nodes: Seq<Node>,
)
    requires
        well_formed(nodes),
        placed(gates, layers, visited, nodes, layers.len(), Seq::empty()),
        forall|k: int| 0 <= k < nodes.len() ==> depth(nodes, k) != layers.len(),
    ensures
        laid_out(gates, layers),
{
    let level = layers.len();
    assert(nodes_of(gates) =~= nodes) by {
        assert forall|k: int| 0 <= k < nodes.len() implies nodes_of(gates)[k] == nodes[k] by {
            assert(gates[k].node() == nodes[k]);
        }
    }
    assert forall|k: int| 0 <= k < nodes.len() implies depth(nodes, k) < level by {
        lemma_no_gap(nodes, level, k);
    }
}

/// While a layer is gathered, a candidate that is not marked can enter
/// exactly if its depth is the layer's level.
pub(crate) proof fn lemma_ready_is_depth(
    gates: Seq<GateInstance>,
    layers: Seq<Vec<usize>>,
    visited: Seq<bool>,
    nodes: Seq<Node>,
    level: nat,
    next: Seq<usize>,
    c: usize,
    ready: bool,
)
    requires
        ordered(nodes),
        placed(gates, layers, visited, nodes, level, next),
        c < nodes.len(),
        depth(nodes, c as int) >= level,
        ready <==> forall|s: int|
            0 <= s < gates[c as int].inputs@.len() ==> visited[gates[c as int].inputs@[s] as int]
                && gates[gates[c as int].inputs@[s] as int].layer < level,
    ensures
        ready <==> depth(nodes, c as int) == level,
{
    let i = c as int;
    assert(gates[i].node() == nodes[i]);
    let w = lemma_depth_witness(nodes, i);
    if ready {
        if depth(nodes, i) > 0 {
            let a = nodes[i].inputs[w] as int;
            assert(a < i);
            assert(visited[a] && gates[a].layer < level);
            if depth(nodes, a) >= level {
                assert(next.contains(a as usize));
                let p = choose|p: int| 0 <= p < next.len() && next[p] == a as usize;
                assert(gates[next[p] as int].layer == level);
            }
        }
    } else {
        let s = choose|s: int|
            0 <= s < gates[i].inputs@.len() && !(visited[gates[i].inputs@[s] as int]
                && gates[gates[i].inputs@[s] as int].layer < level);
        let a = nodes[i].inputs[s] as int;
        assert(a < i);
        lemma_depth_exceeds_inputs(nodes, i, s);
        if depth(nodes, a) < level {
            assert(visited[a]);
            assert(gates[a].layer == depth(nodes, a));
        }
    }
}

/// The state after a gate of the layer's depth has entered `next`.
pub(crate) proof fn lemma_admit(
    before: Seq<GateInstance>,
    after: Seq<GateInstance>,
    layers: Seq<Vec<usize>>,
    visited_before: Seq<bool>,
    visited: Seq<bool>,
    nodes: Seq<Node>,
    level: nat,
    next: Seq<usize>,
    c: usize,
)
    requires
        placed(before, layers, visited_before, nodes, level, next),
        next.no_duplicates(),
        c < nodes.len(),
        depth(nodes, c as int) == level,
        !visited_before[c as int],
        visited == visited_before.update(c as int, true),
        after.len() == before.len(),
        forall|k: int| 0 <= k < before.len() && k != c ==> after[k] == before[k],
        after[c as int].node() == before[c as int].node(),
        after[c as int].output_connects_to == before[c as int].output_connects_to,
        after[c as int].layer == level,
        after[c as int].offset == next.len(),
    ensures
        placed(after, layers, visited, nodes, level, next.push(c)),
        next.push(c).no_duplicates(),
{
    let grown = next.push(c);
    assert(!next.contains(c));
    assert forall|i: int| 0 <= i < nodes.len() implies (#[trigger] visited[i] <==> depth(nodes, i)
        < level || grown.contains(i as usize)) by {
        if grown.contains(i as usize) {
            let p = choose|p: int| 0 <= p < grown.len() && grown[p] == i as usize;
            if p < next.len() {
                assert(next[p] == i as usize);
                assert(next.contains(i as usize));
            }
        }
        if next.contains(i as usize) {
            let p = choose|p: int| 0 <= p < next.len() && next[p] == i as usize;
            assert(grown[p] == i as usize);
        }
        if i == c {
            assert(grown[next.len() as int] == c);
        }
    }
    assert forall|l: int, p: int| 0 <= l < layers.len() && 0 <= p < layers[l]@.len() implies {
        &&& (#[trigger] layers[l]@[p]) < nodes.len()
        &&& depth(nodes, layers[l]@[p] as int) == l
        &&& after[layers[l]@[p] as int].layer == l
        &&& after[layers[l]@[p] as int].offset == p
    } by {
        let g = layers[l]@[p] as int;
        assert(before[g].layer == l);
        assert(depth(nodes, g) == l);
    }
    assert forall|p: int| 0 <= p < grown.len() implies {
        &&& (#[trigger] grown[p]) < nodes.len()
        &&& depth(nodes, grown[p] as int) == level
        &&& after[grown[p] as int].layer == level
        &&& after[grown[p] as int].offset == p
    } by {
        if p < next.len() {
            assert(grown[p] == next[p]);
            assert(next.contains(next[p]));
        }
    }
    assert forall|i: int| 0 <= i < nodes.len() && depth(nodes, i) < level implies {
        &&& (#[trigger] after[i]).layer == depth(nodes, i)
        &&& after[i].offset < layers[after[i].layer as int]@.len()
        &&& layers[after[i].layer as int]@[after[i].offset as int] == i
    } by {
        assert(before[i].layer == depth(nodes, i));
    }
    assert forall|i: int| 0 <= i < nodes.len() implies (#[trigger] after[i]).node() == nodes[i]
        && after[i].output_connects_to@ == readers(nodes, i as usize) by {
        assert(before[i].node() == nodes[i]);
    }
}

/// Once the fan-out of the last layer has been gone through, `next` holds
/// every gate of the level's depth.
pub(crate) proof fn lemma_level_gathered(
    gates: Seq<GateInstance>,
    layers: Seq<Vec<usize>>,
    visited: Seq<bool>,
    nodes: Seq<Node>,
    level: nat,
    next: Seq<usize>,
)
    requires
        ordered(nodes),
        nodes.len() <= usize::MAX,
        level >= 1,
        placed(gates, layers, visited, nodes, level, next),
        next == admitted(nodes, fanout(nodes, layers[level - 1]@), level),
    ensures
        forall|k: int|
            0 <= k < nodes.len() ==> (depth(nodes, k) == level <==> next.contains(k as usize)),
{
    let prev = layers[level - 1]@;
    lemma_admitted_members(nodes, fanout(nodes, prev), level);
    assert forall|k: int| 0 <= k < nodes.len() && depth(nodes, k) == level implies next.contains(
        k as usize,
    ) by {
        let s = lemma_depth_witness(nodes, k);
        let a = nodes[k].inputs[s];
        assert(a < k);
        assert(gates[a as int].layer == level - 1);
        let p = gates[a as int].offset as int;
        assert(prev[p] == a);
        assert(nodes[k].inputs.contains(a));
        lemma_readers_members(nodes, a, k as usize);
        lemma_fanout_members(nodes, prev, k as usize);
    }
    assert forall|k: int| 0 <= k < nodes.len() && next.contains(k as usize) implies depth(nodes, k)
        == level by {
        let p = choose|p: int| 0 <= p < next.len() && next[p] == k as usize;
        assert(depth(nodes, next[p] as int) == level);
    }
}

/// The state once a gathered layer has joined the layers.
pub(crate) proof fn lemma_level_closed(
    gates: Seq<GateInstance>,
    layers: Seq<Vec<usize>>,
    grown: Seq<Vec<usize>>,
    visited: Seq<bool>,
    nodes: Seq<Node>,
    level: nat,
)
    requires
        level >= 1,
        grown.len() == level + 1,
        layers == grown.drop_last(),
        grown.last()@.len() > 0,
        placed(gates, layers, visited, nodes, level, grown.last()@),
        grown.last()@ == admitted(nodes, fanout(nodes, layers[level - 1]@), level),
        forall|k: int|
            0 <= k < nodes.len() ==> (depth(nodes, k) == level <==> grown.last()@.contains(
                k as usize,
            )),
    ensures
        placed(gates, grown, visited, nodes, level + 1, Seq::empty()),
{
    let next = grown.last()@;
    let none = Seq::<usize>::empty();
    assert forall|l: int| 0 <= l < level implies grown[l] == layers[l] by {}
    assert forall|i: int| 0 <= i < nodes.len() implies (#[trigger] visited[i] <==> depth(nodes, i)
        < level + 1 || none.contains(i as usize)) by {
        if none.contains(i as usize) {
            let p = choose|p: int| 0 <= p < 0 && none[p] == i as usize;
        }
    }
    assert forall|i: int| 0 <= i < nodes.len() && depth(nodes, i) < level + 1 implies {
        &&& (#[trigger] gates[i]).layer == depth(nodes, i)
        &&& gates[i].offset < grown[gates[i].layer as int]@.len()
        &&& grown[gates[i].layer as int]@[gates[i].offset as int] == i
    } by {
        if depth(nodes, i) == level {
            assert(next.contains(i as usize));
            let p = choose|p: int| 0 <= p < next.len() && next[p] == i as usize;
            assert(gates[next[p] as int].offset == p);
        } else {
            assert(grown[gates[i].layer as int] == layers[gates[i].layer as int]);
        }
    }
    assert forall|l: int, p: int| 0 <= l < grown.len() && 0 <= p < grown[l]@.len() implies {
        &&& (#[trigger] grown[l]@[p]) < nodes.len()
        &&& depth(nodes, grown[l]@[p] as int) == l
        &&& gates[grown[l]@[p] as int].layer == l
        &&& gates[grown[l]@[p] as int].offset == p
    } by {
        if l < level {
            assert(grown[l] == layers[l]);
            assert(layers[l]@[p] < nodes.len());
        } else {
            assert(next[p] < nodes.len());
        }
    }
    assert forall|l: int| 0 <= l < grown.len() implies (#[trigger] grown[l])@.len() > 0 by {
        if l < level {
            assert(grown[l] == layers[l]);
        }
    }
    assert forall|l: int| 1 <= l < grown.len() implies (#[trigger] grown[l])@ == admitted(
        nodes,
        fanout(nodes, grown[l - 1]@),
        l as nat,
    ) by {
        assert(grown[l - 1] == layers[l - 1]);
        if l < level {
            assert(grown[l] == layers[l]);
        }
    }
}

/// A node lies deeper than each of its inputs.
pub proof fn lemma_depth_exceeds_inputs(nodes: Seq<Node>, i: int, s: int)
    requires
        ordered(nodes),
        0 <= i < nodes.len(),
        0 <= s < nodes[i].inputs.len(),
    ensures
        depth(nodes, nodes[i].inputs[s] as int) < depth(nodes, i),
{
    lemma_depth_over_bounds(nodes, i, nodes[i].inputs.len(), s);
}

pub(crate) proof fn lemma_depth_over_bounds(nodes: Seq<Node>, i: int, count: nat, s: int)
    requires
        ordered(nodes),
        0 <= i < nodes.len(),
        0 <= s < count <= nodes[i].inputs.len(),
    ensures
        depth(nodes, nodes[i].inputs[s] as int) < depth_over(nodes, i, count),
    decreases count,
{
    assert(nodes[i].inputs[count - 1] < i);
    if s < count - 1 {
        lemma_depth_over_bounds(nodes, i, (count - 1) as nat, s);
    }
}

/// Where `count` is not 0, `depth_over` is reached through one of the inputs.
pub(crate) proof fn lemma_depth_over_witness(nodes: Seq<Node>, i: int, count: nat) -> (s: int)
    requires
        ordered(nodes),
        0 <= i < nodes.len(),
        0 < count <= nodes[i].inputs.len(),
    ensures
        0 <= s < count,
        depth(nodes, nodes[i].inputs[s] as int) + 1 == depth_over(nodes, i, count),
    decreases count,
{
    assert(nodes[i].inputs[count - 1] < i);
    let input = nodes[i].inputs[count - 1] as int;
    let rest = depth_over(nodes, i, (count - 1) as nat);
    let through = depth(nodes, input) + 1;
    if through > rest {
        count - 1
    } else {
        assert(count > 1);
        lemma_depth_over_witness(nodes, i, (count - 1) as nat)
    }
}

/// A node of depth 0 has no inputs; a deeper node has an input whose depth is
/// one less than its own.
pub proof fn lemma_depth_witness(nodes: Seq<Node>, i: int) -> (s: int)
    requires
        ordered(nodes),
        0 <= i < nodes.len(),
    ensures
        depth(nodes, i) == 0 <==> nodes[i].inputs.len() == 0,
        depth(nodes, i) > 0 ==> 0 <= s < nodes[i].inputs.len() && depth(
            nodes,
            nodes[i].inputs[s] as int,
        ) + 1 == depth(nodes, i),
{
    if nodes[i].inputs.len() > 0 {
        lemma_depth_over_witness(nodes, i, nodes[i].inputs.len())
    } else {
        0
    }
}

/// No node lies deeper than its index.
pub proof fn lemma_depth_at_most_index(nodes: Seq<Node>, i: int)
    requires
        ordered(nodes),
        0 <= i < nodes.len(),
    ensures
        depth(nodes, i) <= i,
    decreases i,
{
    let s = lemma_depth_witness(nodes, i);
    if depth(nodes, i) > 0 {
        let input = nodes[i].inputs[s] as int;
        assert(input < i);
        lemma_depth_at_most_index(nodes, input);
    }
}

/// Where no node has depth `level`, none lies deeper.
pub(crate) proof fn lemma_no_gap(nodes: Seq<Node>, level: nat, i: int)
    requires
        ordered(nodes),
        0 <= i < nodes.len(),
        forall|k: int| 0 <= k < nodes.len() ==> depth(nodes, k) != level,
    ensures
        depth(nodes, i) < level,
    decreases i,
{
    let s = lemma_depth_witness(nodes, i);
    if depth(nodes, i) > level {
        let input = nodes[i].inputs[s] as int;
        assert(input < i);
        lemma_no_gap(nodes, level, input);
    }
}

pub(crate) proof fn lemma_slots_members(inputs: Seq<usize>, gate: usize, reader: usize, c: usize)
    ensures
        slots(inputs, gate, reader).contains(c) <==> c == reader && inputs.contains(gate),
    decreases inputs.len(),
{
    if inputs.len() == 0 {
        assert(!slots(inputs, gate, reader).contains(c)) by {
            if slots(inputs, gate, reader).contains(c) {
                let k = choose|k: int| 0 <= k < 0 && slots(inputs, gate, reader)[k] == c;
            }
        }
        assert(!inputs.contains(gate)) by {
            if inputs.contains(gate) {
                let k = choose|k: int| 0 <= k < inputs.len() && inputs[k] == gate;
            }
        }
    } else {
        let front = inputs.drop_last();
        lemma_slots_members(front, gate, reader, c);
        let before = slots(front, gate, reader);
        let all = slots(inputs, gate, reader);
        if all.contains(c) {
            let k = choose|k: int| 0 <= k < all.len() && all[k] == c;
            if k < before.len() {
                assert(before[k] == c);
                assert(before.contains(c));
                let j = choose|j: int| 0 <= j < front.len() && front[j] == gate;
                assert(inputs[j] == gate);
            } else {
                assert(inputs[inputs.len() - 1] == gate);
            }
        }
        if c == reader && inputs.contains(gate) {
            let j = choose|j: int| 0 <= j < inputs.len() && inputs[j] == gate;
            if inputs.last() == gate {
                assert(all[all.len() - 1] == c);
            } else {
                assert(front[j] == gate);
                assert(front.contains(gate));
                let k = choose|k: int| 0 <= k < before.len() && before[k] == c;
                assert(all[k] == c);
            }
        }
    }
}

/// The readers of a gate are the nodes that have it among their inputs.
pub proof fn lemma_readers_members(nodes: Seq<Node>, gate: usize, c: usize)
    requires
        nodes.len() <= usize::MAX,
    ensures
        readers(nodes, gate).contains(c) <==> c < nodes.len() && nodes[c as int].inputs.contains(
            gate,
        ),
    decreases nodes.len(),
{
    if nodes.len() == 0 {
        if readers(nodes, gate).contains(c) {
            let k = choose|k: int| 0 <= k < 0 && readers(nodes, gate)[k] == c;
        }
    } else {
        let front = nodes.drop_last();
        let last = (nodes.len() - 1) as usize;
        lemma_readers_members(front, gate, c);
        lemma_slots_members(nodes.last().inputs, gate, last, c);
        let a = readers(front, gate);
        let b = slots(nodes.last().inputs, gate, last);
        lemma_concat_members(a, b, c);
    }
}

pub(crate) proof fn lemma_concat_members(a: Seq<usize>, b: Seq<usize>, c: usize)
    ensures
        (a + b).contains(c) <==> a.contains(c) || b.contains(c),
{
    if (a + b).contains(c) {
        let k = choose|k: int| 0 <= k < (a + b).len() && (a + b)[k] == c;
        if k < a.len() {
            assert(a[k] == c);
        } else {
            assert(b[k - a.len()] == c);
        }
    }
    if a.contains(c) {
        let k = choose|k: int| 0 <= k < a.len() && a[k] == c;
        assert((a + b)[k] == c);
    }
    if b.contains(c) {
        let k = choose|k: int| 0 <= k < b.len() && b[k] == c;
        assert((a + b)[a.len() + k] == c);
    }
}

/// The fan-out of a layer holds the readers of its members.
pub(crate) proof fn lemma_fanout_members(nodes: Seq<Node>, layer: Seq<usize>, c: usize)
    requires
        nodes.len() <= usize::MAX,
    ensures
        fanout(nodes, layer).contains(c) <==> exists|p: int|
            0 <= p < layer.len() && readers(nodes, #[trigger] layer[p]).contains(c),
    decreases layer.len(),
{
    if layer.len() == 0 {
        if fanout(nodes, layer).contains(c) {
            let k = choose|k: int| 0 <= k < 0 && fanout(nodes, layer)[k] == c;
        }
    } else {
        let front = layer.drop_last();
        lemma_fanout_members(nodes, front, c);
        lemma_concat_members(fanout(nodes, front), readers(nodes, layer.last()), c);
        if fanout(nodes, layer).contains(c) {
            if fanout(nodes, front).contains(c) {
                let p = choose|p: int|
                    0 <= p < front.len() && readers(nodes, #[trigger] front[p]).contains(c);
                assert(layer[p] == front[p]);
            } else {
                assert(readers(nodes, layer[layer.len() - 1]).contains(c));
            }
        }
        if exists|p: int| 0 <= p < layer.len() && readers(nodes, #[trigger] layer[p]).contains(c) {
            let p = choose|p: int|
                0 <= p < layer.len() && readers(nodes, #[trigger] layer[p]).contains(c);
            if p < front.len() {
                assert(front[p] == layer[p]);
            }
        }
    }
}

/// What `admitted` holds, and that it holds nothing twice.
pub(crate) proof fn lemma_admitted_members(nodes: Seq<Node>, candidates: Seq<usize>, level: nat)
    ensures
        admitted(nodes, candidates, level).no_duplicates(),
        forall|c: usize| #[trigger]
            admitted(nodes, candidates, level).contains(c) <==> candidates.contains(c) && depth(
                nodes,
                c as int,
            ) == level,
    decreases candidates.len(),
{
    let all = admitted(nodes, candidates, level);
    if candidates.len() == 0 {
        assert forall|c: usize| !(#[trigger] all.contains(c)) by {
            if all.contains(c) {
                let k = choose|k: int| 0 <= k < 0 && all[k] == c;
            }
        }
        assert forall|c: usize| !candidates.contains(c) by {
            if candidates.contains(c) {
                let k = choose|k: int| 0 <= k < 0 && candidates[k] == c;
            }
        }
    } else {
        let front = candidates.drop_last();
        let last = candidates.last();
        lemma_admitted_members(nodes, front, level);
        let before = admitted(nodes, front, level);
        assert forall|c: usize| #[trigger]
            all.contains(c) <==> candidates.contains(c) && depth(nodes, c as int) == level by {
            if all.contains(c) {
                let k = choose|k: int| 0 <= k < all.len() && all[k] == c;
                if k < before.len() {
                    assert(before[k] == c);
                    assert(before.contains(c));
                    let j = choose|j: int| 0 <= j < front.len() && front[j] == c;
                    assert(candidates[j] == c);
                } else {
                    assert(candidates[candidates.len() - 1] == c);
                }
            }
            if candidates.contains(c) && depth(nodes, c as int) == level {
                let j = choose|j: int| 0 <= j < candidates.len() && candidates[j] == c;
                if j < front.len() {
                    assert(front[j] == c);
                    assert(front.contains(c));
                    assert(before.contains(c));
                    let k = choose|k: int| 0 <= k < before.len() && before[k] == c;
                    assert(all[k] == c);
                } else if before.contains(c) {
                    let k = choose|k: int| 0 <= k < before.len() && before[k] == c;
                    assert(all[k] == c);
                } else {
                    assert(all[all.len() - 1] == c);
                }
            }
        }
    }
}

/// Every gate of a laid-out circuit stands in a later layer than each of its
/// inputs.
pub proof fn lemma_layers_ascend(gates: Seq<GateInstance>, layers: Seq<Vec<usize>>, i: int, s: int)
    requires
        wired(gates),
        laid_out(gates, layers),
        0 <= i < gates.len(),
        0 <= s < gates[i].inputs@.len(),
    ensures
        gates[i].inputs@[s] < i,
        gates[gates[i].inputs@[s] as int].layer < gates[i].layer,
{
    let nodes = nodes_of(gates);
    assert(ordered(nodes)) by {
        assert forall|k: int, t: int|
            0 <= k < nodes.len() && 0 <= t < nodes[k].inputs.len() implies (#[trigger] nodes[k].inputs[t])
            < k by {
            assert(gates[k].inputs@[t] < k);
        }
    }
    assert(gates[i].inputs@[s] < i);
    lemma_depth_exceeds_inputs(nodes, i, s);
}

} // verus!
