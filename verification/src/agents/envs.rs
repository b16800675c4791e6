//! Example environments whose percepts and actions the agents can work on.

pub mod weather;
