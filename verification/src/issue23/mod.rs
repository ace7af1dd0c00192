//! A frozen transport-timing treatment: a plan that fixes every transfer, a
//! hidden snapshot of the restored objects, and a gate that releases the
//! bundles of a cohort at fixed offsets.

pub mod experiment;
pub mod gate;
pub mod identity;
pub mod layout;
pub mod plan;
