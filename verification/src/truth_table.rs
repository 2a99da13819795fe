//! The variables of an expression in their canonical order, and its truth
//! table.

use itertools::Itertools;
use vstd::prelude::*;
use vstd::seq_lib::seq_to_set_is_finite;
use vstd::string::StringExecFns;
use vstd::arithmetic::div_mod::{
    lemma_basic_div, lemma_div_denominator, lemma_fundamental_div_mod_converse,
    lemma_small_div_converse,
};
use vstd::arithmetic::power2::{lemma_pow2_pos, lemma_pow2_unfold, lemma2_to64, pow2};
use crate::eval::{binding, eval, holds, Assignment};
use crate::expr::{Expr, Formula};
use crate::text::{bit_cells, bit_text, digit, digit_texts};
use crate::names::{
    lemma_name_total, lemma_name_transitive, lemma_sorted_distinct, lemma_sorted_unique,
    name_before, name_less, names_of, strictly_sorted,
};

verus! {

/// `names` is the canonical order of the variables of `f`: it holds the names
/// that occur in `f`, each once, in the order of names.
pub open spec fn is_variable_order(names: Seq<Seq<char>>, f: Formula) -> bool {
    &&& strictly_sorted(names)
    &&& forall|x: Seq<char>| names.contains(x) <==> f.leaves().contains(x)
}

/// The number of variables of `f`.
pub open spec fn variable_count(f: Formula) -> nat {
    f.leaves().to_set().len()
}

/// Row `i` of the table that counts from 0 in binary with `n` digits: the
/// first digit is the most significant one, and `true` stands for 1.
pub open spec fn counting_row(n: nat, i: nat) -> Seq<bool> {
    Seq::new(n, |j: int| (i / pow2((n - 1 - j) as nat)) % 2 == 1)
}

/// One row of a truth table.
#[derive(Clone, Debug)]
pub struct TruthTableRow {
    /// The values of the variables, in their order.
    pub inputs: Vec<bool>,
    /// The value of the expression under them.
    pub output: bool,
}

/// The truth table of an expression.
#[derive(Clone, Debug)]
pub struct TruthTable {
    /// The variables in their canonical order.
    pub variables: Vec<String>,
    /// One row for each assignment.
    pub rows: Vec<TruthTableRow>,
}

impl TruthTable {
    /// `self` is the truth table of `f`: the variables stand in their
    /// canonical order, row `i` holds the digits of `i` as the values of the
    /// variables, so that the first variable changes most slowly, and the
    /// value of `f` under them.
    pub open spec fn is_table_of(&self, f: Formula) -> bool {
        let names = names_of(self.variables@);
        &&& is_variable_order(names, f)
        &&& self.rows@.len() == pow2(names.len())
        &&& forall|i: int|
            0 <= i < self.rows@.len() ==> {
                &&& (#[trigger] self.rows@[i]).inputs@ == counting_row(names.len(), i as nat)
                &&& self.rows@[i].output == holds(
                    f,
                    binding(names, counting_row(names.len(), i as nat)),
                )
            }
    }
}

/// The heading of the output column.
pub open spec fn output_heading() -> Seq<char> {
    seq!['O', 'U', 'T']
}

impl TruthTable {
    /// The header of the table as it is shown: the variables, then the
    /// heading of the output column.
    pub fn header(&self) -> (cells: Vec<String>)
        ensures
            names_of(cells@) == names_of(self.variables@).push(output_heading()),
    {
        let mut cells: Vec<String> = Vec::new();
        let mut i: usize = 0;
        while i < self.variables.len()
            invariant
                i <= self.variables@.len(),
                names_of(cells@) == names_of(self.variables@).take(i as int),
            decreases self.variables@.len() - i,
        {
            let ghost before = cells@;
            cells.push(self.variables[i].clone());
            assert(names_of(cells@) =~= names_of(before).push(self.variables@[i as int]@));
            assert(names_of(self.variables@).take(i + 1) =~= names_of(self.variables@).take(
                i as int,
            ).push(self.variables@[i as int]@));
            i += 1;
        }
        proof {
            reveal_strlit("OUT");
        }
        let ghost before = cells@;
        let heading = String::from_str("OUT");
        assert(heading@ =~= output_heading());
        cells.push(heading);
        assert(names_of(self.variables@).take(self.variables@.len() as int) =~= names_of(
            self.variables@,
        ));
        assert(names_of(cells@) =~= names_of(before).push(output_heading()));
        cells
    }

    /// The cells of row `i` as they are shown: the digit of each input, then
    /// that of the output.
    pub fn row_cells(&self, i: usize) -> (cells: Vec<String>)
        requires
            i < self.rows@.len(),
        ensures
            names_of(cells@) == digit_texts(self.rows@[i as int].inputs@).push(
                seq![digit(self.rows@[i as int].output)],
            ),
    {
        let mut cells = bit_cells(&self.rows[i].inputs);
        let ghost before = cells@;
        cells.push(bit_text(self.rows[i].output));
        assert(names_of(cells@) =~= names_of(before).push(seq![digit(self.rows@[i as int].output)]));
        cells
    }
}

/// Puts `name` at its place in the sorted `set`, unless `set` holds it.
fn insert_sorted(set: &mut Vec<String>, name: &String)
    requires
        strictly_sorted(names_of(old(set)@)),
    ensures
        strictly_sorted(names_of(final(set)@)),
        forall|x: Seq<char>| #[trigger]
            names_of(final(set)@).contains(x) <==> names_of(old(set)@).contains(x) || x == name@,
{
    let ghost before = names_of(set@);
    let mut p: usize = 0;
    while p < set.len() && name_less(set[p].as_str(), name.as_str())
        invariant
            p <= set@.len(),
            set@ == old(set)@,
            before == names_of(set@),
            forall|j: int| 0 <= j < p ==> name_before(#[trigger] before[j], name@),
        decreases set@.len() - p,
    {
        p += 1;
    }
    if p < set.len() && set[p] == *name {
        assert(before[p as int] == name@);
        return ;
    }
    set.insert(p, name.clone());
    proof {
        let after = names_of(set@);
        assert(after =~= before.insert(p as int, name@));
        if p < before.len() {
            lemma_name_total(before[p as int], name@);
        }
        assert forall|i: int, j: int| 0 <= i < j < after.len() implies name_before(
            after[i],
            after[j],
        ) by {
            if j < p {
                assert(name_before(before[i], before[j]));
            } else if j == p {
                assert(name_before(before[i], name@));
            } else if i == p {
                if j - 1 > p {
                    assert(name_before(before[p as int], before[j - 1]));
                    lemma_name_transitive(name@, before[p as int], before[j - 1]);
                }
            } else if i < p {
                assert(name_before(before[i], before[j - 1]));
            } else {
                assert(name_before(before[i - 1], before[j - 1]));
            }
        }
        assert forall|x: Seq<char>| #[trigger]
            after.contains(x) <==> before.contains(x) || x == name@ by {
            if after.contains(x) {
                let k = choose|k: int| 0 <= k < after.len() && after[k] == x;
                if k < p {
                    assert(before[k] == x);
                } else if k > p {
                    assert(before[k - 1] == x);
                }
            }
            if before.contains(x) {
                let k = choose|k: int| 0 <= k < before.len() && before[k] == x;
                if k < p {
                    assert(after[k] == x);
                } else {
                    assert(after[k + 1] == x);
                }
            }
            if x == name@ {
                assert(after[p as int] == x);
            }
        }
    }
}

/// Adds the names that occur in `expr` to the sorted `set`.
pub fn collect_vars(expr: &Expr, set: &mut Vec<String>)
    requires
        strictly_sorted(names_of(old(set)@)),
    ensures
        strictly_sorted(names_of(final(set)@)),
        forall|x: Seq<char>| #[trigger]
            names_of(final(set)@).contains(x) <==> names_of(old(set)@).contains(x)
                || expr@.leaves().contains(x),
    decreases expr,
{
    let ghost before = names_of(set@);
    match expr {
        Expr::Var(name) => {
            insert_sorted(set, name);
            proof {
                let leaves = expr@.leaves();
                let after = names_of(set@);
                assert(leaves[0] == name@);
                assert forall|x: Seq<char>| #[trigger]
                    after.contains(x) <==> before.contains(x) || leaves.contains(x) by {
                    if leaves.contains(x) {
                        let k = choose|k: int| 0 <= k < leaves.len() && leaves[k] == x;
                    }
                    assert(after.contains(x) <==> before.contains(x) || x == name@);
                }
            }
        },
        Expr::Not(inner) => {
            assert(expr@.leaves() == inner@.leaves());
            collect_vars(inner, set);
        },
        Expr::And(a, b)
        | Expr::Or(a, b)
        | Expr::Xor(a, b)
        | Expr::Xnor(a, b)
        | Expr::Nand(a, b)
        | Expr::Nor(a, b) => {
            collect_vars(a, set);
            let ghost mid = names_of(set@);
            collect_vars(b, set);
            proof {
                let after = names_of(set@);
                let x = a@.leaves();
                let y = b@.leaves();
                assert(expr@.leaves() == x + y);
                assert forall|v: Seq<char>| #[trigger]
                    after.contains(v) <==> before.contains(v) || (x + y).contains(v) by {
                    assert(mid.contains(v) <==> before.contains(v) || x.contains(v));
                    assert(after.contains(v) <==> mid.contains(v) || y.contains(v));
                    if (x + y).contains(v) {
                        let k = choose|k: int| 0 <= k < (x + y).len() && (x + y)[k] == v;
                        if k < x.len() {
                            assert(x[k] == v);
                        } else {
                            assert(y[k - x.len()] == v);
                        }
                    }
                    if x.contains(v) {
                        let k = choose|k: int| 0 <= k < x.len() && x[k] == v;
                        assert((x + y)[k] == v);
                    }
                    if y.contains(v) {
                        let k = choose|k: int| 0 <= k < y.len() && y[k] == v;
                        assert((x + y)[x.len() + k] == v);
                    }
                }
            }
        },
    }
}

/// The variables of `expr` in their canonical order.
pub fn variables(expr: &Expr) -> (vars: Vec<String>)
    ensures
        is_variable_order(names_of(vars@), expr@),
        vars@.len() == variable_count(expr@),
{
    let mut set: Vec<String> = Vec::new();
    collect_vars(expr, &mut set);
    proof {
        let names = names_of(set@);
        assert forall|x: Seq<char>| !Seq::<Seq<char>>::empty().contains(x) by {
            if Seq::<Seq<char>>::empty().contains(x) {
                let k = choose|k: int| 0 <= k < 0 && Seq::<Seq<char>>::empty()[k] == x;
            }
        }
        lemma_variable_count(names, expr@);
    }
    set
}

/// A canonical order has as many names as the formula has variables.
pub proof fn lemma_variable_count(names: Seq<Seq<char>>, f: Formula)
    requires
        is_variable_order(names, f),
    ensures
        names.len() == variable_count(f),
{
    lemma_sorted_distinct(names);
    names.unique_seq_to_set();
    assert(names.to_set() =~= f.leaves().to_set());
}

/// The place within axis `j` of `n` axes of two entries each that
/// combination `i` of their product takes its entry from, where the
/// combinations are counted with the last axis changing first.
pub open spec fn entry_at(n: nat, i: nat, j: int) -> int {
    ((i / pow2((n - 1 - j) as nat)) % 2) as int
}

/// The product of the given axes, by `multi_cartesian_product` of itertools.
/// It yields one combination for every choice of an entry from each axis, an
/// entry of the first axis at the first place; the combinations come with the
/// last axis changing first, each axis running through its entries in their
/// order. From no axes it yields the one empty combination. This is stated
/// for axes of two entries each.
#[verifier::external_body]
fn binary_product(axes: Vec<Vec<bool>>) -> (rows: Vec<Vec<bool>>)
    requires
        axes@.len() < usize::BITS,
        forall|j: int| 0 <= j < axes@.len() ==> (#[trigger] axes@[j])@.len() == 2,
    ensures
        rows@.len() == pow2(axes@.len()),
        forall|i: int| 0 <= i < rows@.len() ==> (#[trigger] rows@[i])@.len() == axes@.len(),
        forall|i: int, j: int|
            0 <= i < rows@.len() && 0 <= j < axes@.len() ==> (#[trigger] rows@[i]@[j])
                == axes@[j]@[entry_at(axes@.len(), i as nat, j)],
{
    axes.into_iter().multi_cartesian_product().collect()
}

/// The rows that count from 0 in binary with `n` digits: every combination
/// of `n` truth values, false before true. With no digits this is the one
/// empty row.
pub fn counting_rows(n: usize) -> (rows: Vec<Vec<bool>>)
    requires
        n < usize::BITS,
    ensures
        rows@.len() == pow2(n as nat),
        forall|i: int|
            0 <= i < rows@.len() ==> (#[trigger] rows@[i])@ == counting_row(n as nat, i as nat),
{
    let mut axes: Vec<Vec<bool>> = Vec::new();
    let mut k: usize = 0;
    while k < n
        invariant
            k <= n,
            axes@.len() == k,
            forall|j: int| 0 <= j < k ==> (#[trigger] axes@[j])@ == seq![false, true],
        decreases n - k,
    {
        let mut axis: Vec<bool> = Vec::new();
        axis.push(false);
        axis.push(true);
        assert(axis@ =~= seq![false, true]);
        axes.push(axis);
        k += 1;
    }
    let ghost given = axes@;
    let rows = binary_product(axes);
    proof {
        assert forall|i: int| 0 <= i < rows@.len() implies (#[trigger] rows@[i])@ == counting_row(
            n as nat,
            i as nat,
        ) by {
            let row = rows@[i]@;
            assert forall|j: int| 0 <= j < n implies row[j] == counting_row(n as nat, i as nat)[j] by {
                assert(rows@[i]@[j] == given[j]@[entry_at(n as nat, i as nat, j)]);
                assert(given[j]@ == seq![false, true]);
            }
            assert(row =~= counting_row(n as nat, i as nat));
        }
    }
    rows
}

/// The truth table of `expr`.
pub fn truth_table(expr: &Expr) -> (table: TruthTable)
    requires
        variable_count(expr@) < usize::BITS,
    ensures
        table.is_table_of(expr@),
{
    let vars = variables(expr);
    let combos = counting_rows(vars.len());
    let ghost names = names_of(vars@);
    let mut rows: Vec<TruthTableRow> = Vec::new();
    let mut i: usize = 0;
    while i < combos.len()
        invariant
            i <= combos@.len(),
            names == names_of(vars@),
            combos@.len() == pow2(names.len()),
            forall|k: int|
                0 <= k < combos@.len() ==> (#[trigger] combos@[k])@ == counting_row(
                    names.len(),
                    k as nat,
                ),
            rows@.len() == i,
            forall|k: int|
                0 <= k < i ==> {
                    &&& (#[trigger] rows@[k]).inputs@ == counting_row(names.len(), k as nat)
                    &&& rows@[k].output == holds(
                        expr@,
                        binding(names, counting_row(names.len(), k as nat)),
                    )
                },
        decreases combos@.len() - i,
    {
        let combo = &combos[i];
        let mut map = Assignment::new();
        map.bind(&vars, combo);
        let result = eval(expr, &map);
        let mut inputs: Vec<bool> = Vec::new();
        let mut j: usize = 0;
        while j < combo.len()
            invariant
                j <= combo@.len(),
                inputs@ == combo@.take(j as int),
            decreases combo@.len() - j,
        {
            inputs.push(combo[j]);
            assert(combo@.take(j + 1) =~= combo@.take(j as int).push(combo@[j as int]));
            j += 1;
        }
        assert(combo@.take(combo@.len() as int) =~= combo@);
        rows.push(TruthTableRow { inputs, output: result });
        i += 1;
    }
    TruthTable { variables: vars, rows }
}

/// The number that `bits` write in binary, the first digit being the most
/// significant one.
pub open spec fn row_index(bits: Seq<bool>) -> nat
    decreases bits.len(),
{
    if bits.len() == 0 {
        0
    } else if bits.last() {
        2 * row_index(bits.drop_last()) + 1
    } else {
        2 * row_index(bits.drop_last())
    }
}

/// The digits of `i` without the last are the digits of `i / 2`.
proof fn lemma_counting_row_front(n: nat, i: nat)
    requires
        n > 0,
    ensures
        counting_row(n, i).drop_last() == counting_row((n - 1) as nat, i / 2),
        counting_row(n, i).last() == (i % 2 == 1),
{
    lemma2_to64();
    let row = counting_row(n, i);
    let front = counting_row((n - 1) as nat, i / 2);
    assert forall|j: int| 0 <= j < n - 1 implies row[j] == front[j] by {
        let p = pow2((n - 2 - j) as nat);
        lemma_pow2_pos((n - 2 - j) as nat);
        lemma_pow2_unfold((n - 1 - j) as nat);
        lemma_div_denominator(i as int, 2, p as int);
    }
    assert(row.drop_last() =~= front);
    assert(pow2((n - 1 - (n - 1)) as nat) == 1);
    assert(row[n - 1] == ((i / pow2((n - 1 - (n - 1)) as nat)) % 2 == 1));
}

/// The digits of a row's number are the row.
pub proof fn lemma_counting_row_of_index(bits: Seq<bool>)
    ensures
        row_index(bits) < pow2(bits.len()),
        counting_row(bits.len(), row_index(bits)) == bits,
    decreases bits.len(),
{
    lemma2_to64();
    let n = bits.len();
    if n == 0 {
        assert(counting_row(0, 0) =~= bits);
    } else {
        let front = bits.drop_last();
        lemma_counting_row_of_index(front);
        lemma_pow2_unfold(n);
        let i = row_index(bits);
        lemma_counting_row_front(n, i);
        assert(i / 2 == row_index(front));
        assert(counting_row(n, i) =~= counting_row(n, i).drop_last().push(counting_row(n, i).last()));
        assert(bits =~= front.push(bits.last()));
    }
}

/// The number that the digits of `i` write is `i`.
pub proof fn lemma_index_of_counting_row(n: nat, i: nat)
    requires
        i < pow2(n),
    ensures
        row_index(counting_row(n, i)) == i,
    decreases n,
{
    lemma2_to64();
    if n > 0 {
        lemma_pow2_unfold(n);
        lemma_counting_row_front(n, i);
        lemma_index_of_counting_row((n - 1) as nat, i / 2);
    }
}

/// Every formula has a variable, so every truth table has two rows at least.
pub proof fn lemma_at_least_one_variable(f: Formula)
    ensures
        f.leaves().len() >= 1,
        variable_count(f) >= 1,
    decreases f,
{
    match f {
        Formula::Var(_) => {},
        Formula::Not(a) => {
            lemma_at_least_one_variable(*a);
        },
        Formula::Binary(_, a, b) => {
            lemma_at_least_one_variable(*a);
        },
    }
    let leaves = f.leaves();
    let names = leaves.to_set();
    seq_to_set_is_finite(leaves);
    assert(names.contains(leaves[0]));
    if names.len() == 0 {
        names.lemma_len0_is_empty();
    }
}

/// The rows of a truth table are in the order of binary counting: the first
/// variable is false in the first half of the rows and true in the second
/// half, and the last variable changes from each row to the next.
pub proof fn lemma_first_variable_slowest(n: nat, i: nat)
    requires
        n > 0,
        i < pow2(n),
    ensures
        counting_row(n, i)[0] == (i >= pow2((n - 1) as nat)),
        counting_row(n, i)[n - 1] == (i % 2 == 1),
{
    lemma2_to64();
    let half = pow2((n - 1) as nat);
    lemma_pow2_pos((n - 1) as nat);
    lemma_pow2_unfold(n);
    lemma_counting_row_front(n, i);
    if i < half {
        lemma_small_div_converse(i as int, half as int);
        assert(i / half == 0) by {
            lemma_basic_div(i as int, half as int);
        }
    } else {
        assert(i / half == 1) by {
            lemma_fundamental_div_mod_converse(i as int, half as int, 1, i - half);
        }
    }
}

/// A formula has one truth table: two tables of it hold the same names and
/// the same rows.
pub proof fn lemma_table_unique(a: TruthTable, b: TruthTable, f: Formula)
    requires
        a.is_table_of(f),
        b.is_table_of(f),
    ensures
        names_of(a.variables@) == names_of(b.variables@),
        a.rows@.len() == b.rows@.len(),
        forall|i: int|
            0 <= i < a.rows@.len() ==> (#[trigger] a.rows@[i]).inputs@ == b.rows@[i].inputs@
                && a.rows@[i].output == b.rows@[i].output,
{
    lemma_sorted_unique(names_of(a.variables@), names_of(b.variables@));
}

} // verus!
