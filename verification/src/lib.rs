//! Agent programs: strategies that turn a stream of percepts into actions.
//!
//! Two alternative strategies are provided. A table-driven agent remembers
//! every percept it has received and looks the whole history up in a finite
//! table. A simple reflex agent keeps no history and derives its action from
//! the current percept alone.

pub mod agents;
