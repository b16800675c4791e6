//! The agent programs and the small weather world used to illustrate them.

pub mod envs;
pub mod growth;
pub mod reflex;
pub mod table;
