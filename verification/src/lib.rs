//! Tensor contraction optimisation: representation, cost model,
//! parenthesisation, canonicalisation and biclique factorisation.
pub mod rational;
pub mod repr;
pub mod cost;
pub mod bits;
pub mod parenth;
pub mod sort;
pub mod rl_parenth;
pub mod enumerate;
pub mod canon;
pub mod constr;
pub mod optimize;
pub mod rl_canon;
pub mod biclique;
pub mod message;
pub mod biclique_action;
pub mod text;
