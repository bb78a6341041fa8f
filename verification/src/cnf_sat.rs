//! Satisfiability of a formula in conjunctive normal form, as an exact
//! cover problem with colours.
use vstd::prelude::*;

verus! {

/// A literal: a variable or its negation.
pub enum Var {
    Positive(usize),
    Negated(usize),
}

/// The items of the problem: a variable of a clause, or a variable.
enum Item {
    ClauseVar(usize, usize),
    Variable(usize),
}

/// Takes the clauses and returns nothing: no search over them is made.
pub fn cnf_sat_dlx(or_clauses: &[Vec<Var>]) {
}

} // verus!
