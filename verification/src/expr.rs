//! The expression tree and its mathematical model.

use vstd::prelude::*;

verus! {

/// A boolean formula. Each node owns its children; two leaves that carry the
/// same name are distinct nodes standing for the same signal.
#[derive(Debug)]
pub enum Expr {
    Var(String),
    Not(Box<Expr>),
    And(Box<Expr>, Box<Expr>),
    Or(Box<Expr>, Box<Expr>),
    Xnor(Box<Expr>, Box<Expr>),
    Xor(Box<Expr>, Box<Expr>),
    Nand(Box<Expr>, Box<Expr>),
    Nor(Box<Expr>, Box<Expr>),
}

/// The six binary connectives.
pub enum Connective {
    And,
    Or,
    Xnor,
    Xor,
    Nand,
    Nor,
}

/// The model of an [`Expr`]: a name is a sequence of characters, and the
/// binary nodes share one shape.
pub enum Formula {
    Var(Seq<char>),
    Not(Box<Formula>),
    Binary(Connective, Box<Formula>, Box<Formula>),
}

impl Connective {
    /// The truth function of the connective.
    pub open spec fn apply(self, x: bool, y: bool) -> bool {
        match self {
            Connective::And => x && y,
            Connective::Or => x || y,
            Connective::Xnor => x == y,
            Connective::Xor => x != y,
            Connective::Nand => !(x && y),
            Connective::Nor => !(x || y),
        }
    }
}

impl Formula {
    /// `op` applied to two formulas.
    pub open spec fn binary(op: Connective, left: Formula, right: Formula) -> Formula {
        Formula::Binary(op, Box::new(left), Box::new(right))
    }

    /// The negation of a formula.
    pub open spec fn negation(inner: Formula) -> Formula {
        Formula::Not(Box::new(inner))
    }

    /// The names at the leaves, from left to right, each as often as it occurs.
    pub open spec fn leaves(self) -> Seq<Seq<char>>
        decreases self,
    {
        match self {
            Formula::Var(name) => seq![name],
            Formula::Not(a) => a.leaves(),
            Formula::Binary(_, a, b) => a.leaves() + b.leaves(),
        }
    }

    /// The number of operator nodes.
    pub open spec fn operators(self) -> nat
        decreases self,
    {
        match self {
            Formula::Var(_) => 0,
            Formula::Not(a) => a.operators() + 1,
            Formula::Binary(_, a, b) => a.operators() + b.operators() + 1,
        }
    }
}

impl View for Expr {
    type V = Formula;

    open spec fn view(&self) -> Formula
        decreases self,
    {
        match self {
            Expr::Var(name) => Formula::Var(name@),
            Expr::Not(a) => Formula::negation((**a).view()),
            Expr::And(a, b) => Formula::binary(Connective::And, (**a).view(), (**b).view()),
            Expr::Or(a, b) => Formula::binary(Connective::Or, (**a).view(), (**b).view()),
            Expr::Xnor(a, b) => Formula::binary(Connective::Xnor, (**a).view(), (**b).view()),
            Expr::Xor(a, b) => Formula::binary(Connective::Xor, (**a).view(), (**b).view()),
            Expr::Nand(a, b) => Formula::binary(Connective::Nand, (**a).view(), (**b).view()),
            Expr::Nor(a, b) => Formula::binary(Connective::Nor, (**a).view(), (**b).view()),
        }
    }
}

impl Expr {
    /// The variable of the given name.
    pub fn var(name: &str) -> (expr: Expr)
        ensures
            expr@ == Formula::Var(name@),
    {
        Expr::Var(name.to_owned())
    }

    /// The negation of `inner`.
    pub fn not(inner: Expr) -> (expr: Expr)
        ensures
            expr@ == Formula::negation(inner@),
    {
        Expr::Not(Box::new(inner))
    }

    /// `left` AND `right`.
    pub fn and(left: Expr, right: Expr) -> (expr: Expr)
        ensures
            expr@ == Formula::binary(Connective::And, left@, right@),
    {
        Expr::And(Box::new(left), Box::new(right))
    }

    /// `left` OR `right`.
    pub fn or(left: Expr, right: Expr) -> (expr: Expr)
        ensures
            expr@ == Formula::binary(Connective::Or, left@, right@),
    {
        Expr::Or(Box::new(left), Box::new(right))
    }

    /// `left` XOR `right`.
    pub fn xor(left: Expr, right: Expr) -> (expr: Expr)
        ensures
            expr@ == Formula::binary(Connective::Xor, left@, right@),
    {
        Expr::Xor(Box::new(left), Box::new(right))
    }

    /// `left` NAND `right`. The grammar has no text for it.
    pub fn nand(left: Expr, right: Expr) -> (expr: Expr)
        ensures
            expr@ == Formula::binary(Connective::Nand, left@, right@),
    {
        Expr::Nand(Box::new(left), Box::new(right))
    }

    /// `left` NOR `right`. The grammar has no text for it.
    pub fn nor(left: Expr, right: Expr) -> (expr: Expr)
        ensures
            expr@ == Formula::binary(Connective::Nor, left@, right@),
    {
        Expr::Nor(Box::new(left), Box::new(right))
    }

    /// `left` XNOR `right`. The grammar has no text for it.
    pub fn xnor(left: Expr, right: Expr) -> (expr: Expr)
        ensures
            expr@ == Formula::binary(Connective::Xnor, left@, right@),
    {
        Expr::Xnor(Box::new(left), Box::new(right))
    }
}

impl PartialEq for Expr {
    fn eq(&self, other: &Expr) -> (equal: bool)
        decreases self,
    {
        match (self, other) {
            (Expr::Var(a), Expr::Var(b)) => *a == *b,
            (Expr::Not(a), Expr::Not(b)) => (**a).eq(&**b),
            (Expr::And(a, b), Expr::And(c, d)) => (**a).eq(&**c) && (**b).eq(&**d),
            (Expr::Or(a, b), Expr::Or(c, d)) => (**a).eq(&**c) && (**b).eq(&**d),
            (Expr::Xnor(a, b), Expr::Xnor(c, d)) => (**a).eq(&**c) && (**b).eq(&**d),
            (Expr::Xor(a, b), Expr::Xor(c, d)) => (**a).eq(&**c) && (**b).eq(&**d),
            (Expr::Nand(a, b), Expr::Nand(c, d)) => (**a).eq(&**c) && (**b).eq(&**d),
            (Expr::Nor(a, b), Expr::Nor(c, d)) => (**a).eq(&**c) && (**b).eq(&**d),
            _ => false,
        }
    }
}

impl vstd::std_specs::cmp::PartialEqSpecImpl for Expr {
    open spec fn obeys_eq_spec() -> bool {
        true
    }

    open spec fn eq_spec(&self, other: &Expr) -> bool {
        self@ == other@
    }
}

impl Clone for Expr {
    fn clone(&self) -> (copy: Expr)
        ensures
            copy@ == self@,
        decreases self,
    {
        match self {
            Expr::Var(name) => Expr::Var(name.clone()),
            Expr::Not(a) => Expr::Not(Box::new((**a).clone())),
            Expr::And(a, b) => Expr::And(Box::new((**a).clone()), Box::new((**b).clone())),
            Expr::Or(a, b) => Expr::Or(Box::new((**a).clone()), Box::new((**b).clone())),
            Expr::Xnor(a, b) => Expr::Xnor(Box::new((**a).clone()), Box::new((**b).clone())),
            Expr::Xor(a, b) => Expr::Xor(Box::new((**a).clone()), Box::new((**b).clone())),
            Expr::Nand(a, b) => Expr::Nand(Box::new((**a).clone()), Box::new((**b).clone())),
            Expr::Nor(a, b) => Expr::Nor(Box::new((**a).clone()), Box::new((**b).clone())),
        }
    }
}

} // verus!
