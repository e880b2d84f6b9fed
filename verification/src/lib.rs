//! Closed-form solving of linear recurrence relations with constant
//! coefficients.
//!
//! A [`RecurrenceRelation`] holds base cases and recurrence coefficients.
//! Its characteristic [`Polynomial`] leads, through the eigenvalues of the
//! companion matrix, to a [`RecurrenceSolution`]: one polynomial-in-`n`
//! coefficient per distinct root `r`, standing for the closed form
//! `sum of P_r(n) * r^n`.
//!
//! Every numeric value is the bit pattern of an IEEE 754 double, carried as
//! a `u64` (see [`double`]). The eigen-decomposition and the linear solve,
//! which need native floating point, are left to the caller: the library
//! builds the companion matrix, clusters eigenvalues into roots, assembles
//! the coefficient-fitting system, and packages its solution.

pub mod double;
pub mod polynomial;
pub mod recurrence_relation;
pub mod recurrence_relation_parser;
pub mod recurrence_solution;
pub mod text;
pub mod utilities;
