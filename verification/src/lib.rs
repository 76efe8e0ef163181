//! Generalized algebraic theories: terms, sorts, operations, theories,
//! morphisms and the constructions built on them.
use vstd::prelude::*;

pub mod alg_struct;
pub mod alpha;
pub mod colimit;
pub mod composition;
pub mod enrichment;
pub mod eq;
pub mod factorize;
pub mod error;
pub mod ident;
pub mod maps;
pub mod matching;
pub mod model;
pub mod morphism;
pub mod nat_transform;
pub mod normalize;
pub mod op;
pub mod pullback;
pub mod pushout;
pub mod quotient;
pub mod refinement;
pub mod rewriting;
pub mod schema_functor;
pub mod sort;
pub mod term;
pub mod text;
pub mod theory;

verus! {

} // verus!
