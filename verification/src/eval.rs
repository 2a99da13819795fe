//! Assignments of truth values to names, and evaluation under them.

use vstd::prelude::*;
use vstd::hash_map::StringHashMap;
use crate::expr::{Connective, Expr, Formula};
use crate::names::names_of;

verus! {

/// What a name reads under `env`: its value, or false where it has none.
pub open spec fn reads(env: Map<Seq<char>, bool>, name: Seq<char>) -> bool {
    env.contains_key(name) && env[name]
}

/// The value of `f` when each name is read from `env`.
pub open spec fn holds(f: Formula, env: Map<Seq<char>, bool>) -> bool
    decreases f,
{
    match f {
        Formula::Var(name) => reads(env, name),
        Formula::Not(a) => !holds(*a, env),
        Formula::Binary(op, a, b) => op.apply(holds(*a, env), holds(*b, env)),
    }
}

/// `env` after each name that has a value at its place in `values` has been
/// bound to that value, the names taken from first to last.
pub open spec fn bound(env: Map<Seq<char>, bool>, names: Seq<Seq<char>>, values: Seq<bool>) -> Map<
    Seq<char>,
    bool,
>
    decreases names.len(),
{
    if names.len() == 0 {
        env
    } else if names.len() > values.len() {
        bound(env, names.drop_last(), values)
    } else {
        bound(env, names.drop_last(), values).insert(names.last(), values[names.len() - 1])
    }
}

/// The assignment that binds each name to the value at its place.
pub open spec fn binding(names: Seq<Seq<char>>, values: Seq<bool>) -> Map<Seq<char>, bool> {
    bound(Map::empty(), names, values)
}

/// A mapping from variable names to truth values.
pub struct Assignment {
    values: StringHashMap<bool>,
}

impl View for Assignment {
    type V = Map<Seq<char>, bool>;

    closed spec fn view(&self) -> Map<Seq<char>, bool> {
        self.values@
    }
}

impl Assignment {
    /// The assignment that binds no name.
    pub fn new() -> (a: Assignment)
        ensures
            a@ == Map::<Seq<char>, bool>::empty(),
    {
        Assignment { values: StringHashMap::new() }
    }

    /// Binds `name` to `value`, replacing an earlier binding of the same name.
    pub fn insert(&mut self, name: String, value: bool)
        ensures
            final(self)@ == old(self)@.insert(name@, value),
    {
        self.values.insert(name, value);
    }

    /// Binds each name that has a value at its place in `values` to that
    /// value, the names taken from first to last.
    pub fn bind(&mut self, names: &Vec<String>, values: &Vec<bool>)
        ensures
            final(self)@ == bound(old(self)@, names_of(names@), values@),
    {
        let ghost all = names_of(names@);
        let count = if names.len() < values.len() {
            names.len()
        } else {
            values.len()
        };
        let mut i: usize = 0;
        while i < count
            invariant
                i <= count,
                count <= names@.len(),
                count <= values@.len(),
                all == names_of(names@),
                self@ == bound(old(self)@, all.take(i as int), values@),
            decreases count - i,
        {
            proof {
                assert(all.take(i + 1).drop_last() =~= all.take(i as int));
            }
            self.insert(names[i].clone(), values[i]);
            i += 1;
        }
        proof {
            lemma_bound_unvalued(old(self)@, all, values@);
            assert(all.take(all.len() as int) =~= all);
        }
    }

    /// The value bound to `name`, if any.
    pub fn get(&self, name: &str) -> (value: Option<bool>)
        ensures
            value == (if self@.contains_key(name@) {
                Some(self@[name@])
            } else {
                None
            }),
    {
        match self.values.get(name) {
            Some(v) => Some(*v),
            None => None,
        }
    }
}

/// Evaluates `expr` under `vars`.
pub fn eval(expr: &Expr, vars: &Assignment) -> (value: bool)
    ensures
        value == holds(expr@, vars@),
    decreases expr,
{
    match expr {
        Expr::Var(name) => match vars.get(name.as_str()) {
            Some(v) => v,
            None => false,
        },
        Expr::Not(inner) => !eval(inner, vars),
        Expr::And(a, b) => {
            let x = eval(a, vars);
            let y = eval(b, vars);
            x && y
        },
        Expr::Or(a, b) => {
            let x = eval(a, vars);
            let y = eval(b, vars);
            x || y
        },
        Expr::Xor(a, b) => eval(a, vars) != eval(b, vars),
        Expr::Nand(a, b) => {
            let x = eval(a, vars);
            let y = eval(b, vars);
            !(x && y)
        },
        Expr::Nor(a, b) => {
            let x = eval(a, vars);
            let y = eval(b, vars);
            !(x || y)
        },
        Expr::Xnor(a, b) => eval(a, vars) == eval(b, vars),
    }
}

/// The value of a formula depends only on what its own names read.
pub proof fn lemma_holds_by_leaves(f: Formula, a: Map<Seq<char>, bool>, b: Map<Seq<char>, bool>)
    requires
        forall|k: int| 0 <= k < f.leaves().len() ==> reads(a, #[trigger] f.leaves()[k]) == reads(
            b,
            f.leaves()[k],
        ),
    ensures
        holds(f, a) == holds(f, b),
    decreases f,
{
    match f {
        Formula::Var(name) => {
            assert(f.leaves()[0] == name);
        },
        Formula::Not(inner) => {
            assert(f.leaves() == inner.leaves());
            lemma_holds_by_leaves(*inner, a, b);
        },
        Formula::Binary(_, left, right) => {
            let x = left.leaves();
            let y = right.leaves();
            assert forall|k: int| 0 <= k < x.len() implies reads(a, #[trigger] x[k]) == reads(
                b,
                x[k],
            ) by {
                assert(f.leaves()[k] == x[k]);
            }
            assert forall|k: int| 0 <= k < y.len() implies reads(a, #[trigger] y[k]) == reads(
                b,
                y[k],
            ) by {
                assert(f.leaves()[x.len() + k] == y[k]);
            }
            lemma_holds_by_leaves(*left, a, b);
            lemma_holds_by_leaves(*right, a, b);
        },
    }
}

/// A name without a value counts as false: to bind it to false changes the
/// value of no formula.
pub proof fn lemma_unbound_is_false(f: Formula, env: Map<Seq<char>, bool>, name: Seq<char>)
    requires
        !env.contains_key(name),
    ensures
        holds(f, env) == holds(f, env.insert(name, false)),
{
    lemma_holds_by_leaves(f, env, env.insert(name, false));
}

/// A formula negated twice has the value of the formula.
pub proof fn lemma_double_negation(f: Formula, env: Map<Seq<char>, bool>)
    ensures
        holds(Formula::negation(Formula::negation(f)), env) == holds(f, env),
{
    reveal_with_fuel(holds, 3);
}

/// Nand, Nor and Xnor are the negations of And, Or and Xor.
pub proof fn lemma_negated_connectives(left: Formula, right: Formula, env: Map<Seq<char>, bool>)
    ensures
        holds(Formula::binary(Connective::Nand, left, right), env) == !holds(
            Formula::binary(Connective::And, left, right),
            env,
        ),
        holds(Formula::binary(Connective::Nor, left, right), env) == !holds(
            Formula::binary(Connective::Or, left, right),
            env,
        ),
        holds(Formula::binary(Connective::Xnor, left, right), env) == !holds(
            Formula::binary(Connective::Xor, left, right),
            env,
        ),
{
    reveal_with_fuel(holds, 2);
}

/// Names that have no value at their place bind nothing.
pub proof fn lemma_bound_unvalued(env: Map<Seq<char>, bool>, names: Seq<Seq<char>>, values: Seq<bool>)
    ensures
        names.len() >= values.len() ==> bound(env, names, values) == bound(
            env,
            names.take(values.len() as int),
            values,
        ),
    decreases names.len(),
{
    if names.len() > values.len() {
        lemma_bound_unvalued(env, names.drop_last(), values);
        assert(names.drop_last().take(values.len() as int) =~= names.take(values.len() as int));
    } else if names.len() == values.len() {
        assert(names.take(values.len() as int) =~= names);
    }
}

/// Where no name occurs twice, each name is bound to the value at its place,
/// and names that do not occur keep what they had.
pub proof fn lemma_bound_values(env: Map<Seq<char>, bool>, names: Seq<Seq<char>>, values: Seq<bool>)
    requires
        names.no_duplicates(),
        names.len() <= values.len(),
    ensures
        forall|i: int|
            0 <= i < names.len() ==> bound(env, names, values).contains_key(#[trigger] names[i])
                && bound(env, names, values)[names[i]] == values[i],
        forall|x: Seq<char>|
            !names.contains(x) ==> (bound(env, names, values).contains_key(x) <==> env.contains_key(
                x,
            )) && bound(env, names, values)[x] == env[x],
    decreases names.len(),
{
    if names.len() > 0 {
        let front = names.drop_last();
        lemma_bound_values(env, front, values);
        assert forall|i: int| 0 <= i < names.len() implies bound(env, names, values).contains_key(
            #[trigger] names[i],
        ) && bound(env, names, values)[names[i]] == values[i] by {
            if i < names.len() - 1 {
                assert(front[i] == names[i]);
                assert(names[i] != names[names.len() - 1]);
            }
        }
        assert forall|x: Seq<char>| !names.contains(x) implies (bound(
            env,
            names,
            values,
        ).contains_key(x) <==> env.contains_key(x)) && bound(env, names, values)[x] == env[x] by {
            assert(names[names.len() - 1] != x);
            if front.contains(x) {
                let i = choose|i: int| 0 <= i < front.len() && front[i] == x;
                assert(names[i] == x);
            }
        }
    }
}

/// Binding two lists of names in turn is binding their concatenation.
pub proof fn lemma_bound_concat(
    env: Map<Seq<char>, bool>,
    a: Seq<Seq<char>>,
    x: Seq<bool>,
    b: Seq<Seq<char>>,
    y: Seq<bool>,
)
    requires
        a.len() == x.len(),
        b.len() <= y.len(),
    ensures
        bound(bound(env, a, x), b, y) == bound(env, a + b, x + y),
    decreases b.len(),
{
    if b.len() == 0 {
        assert(a + b =~= a);
        lemma_bound_prefix(env, a, x, x + y);
    } else {
        lemma_bound_concat(env, a, x, b.drop_last(), y);
        assert((a + b).drop_last() =~= a + b.drop_last());
    }
}

/// Only the values at the places of the names matter.
pub proof fn lemma_bound_prefix(
    env: Map<Seq<char>, bool>,
    names: Seq<Seq<char>>,
    x: Seq<bool>,
    y: Seq<bool>,
)
    requires
        names.len() <= x.len(),
        names.len() <= y.len(),
        forall|i: int| 0 <= i < names.len() ==> x[i] == y[i],
    ensures
        bound(env, names, x) == bound(env, names, y),
    decreases names.len(),
{
    if names.len() > 0 {
        lemma_bound_prefix(env, names.drop_last(), x, y);
    }
}

} // verus!
