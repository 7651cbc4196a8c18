//! Exhaustive search over small Turing machines (the Busy Beaver game):
//! compact machine encoding, a growable two-sided tape, a layered analyzer that
//! classifies a machine's fate, and enumerators over all machines with `n`
//! states.

pub mod analyze;
pub mod gen;
pub mod outcome;
pub mod report;
pub mod tape;
pub mod tm;
