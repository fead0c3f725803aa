//! Runtime substrate of a hybrid SAT/theory constraint solver: packed bound
//! literals, a reversible event trail, writer-gated discrete domain models,
//! an activity-driven clause database, and the theory binding protocol.

pub mod bool_model;
pub mod bounds;
pub mod clauses;
pub mod int_model;
pub mod lit;
pub mod model;
pub mod theory;
pub mod trail;
pub mod writer;
