//! Propositional proof search: clauses and CNF formulas, Robinson's
//! resolution, the DPLL satisfiability procedure and analytic tableaux.
pub mod logic;
pub mod resolution;
pub mod dpll;
pub mod tableau;

pub use self::dpll::{dpll, DPLLResult};
pub use self::logic::{Assignment, Clause, Literal, VarSet, CNF};
pub use self::resolution::{resolution_refutation, resolve, ResolutionResult};
pub use self::tableau::{tableau_prove, TableauFormula, TableauNode};
