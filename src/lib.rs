//! Coverage estimation over an assembly/part incidence relation: for every
//! parts budget, how many assemblies can be fully built.

pub mod counting;
pub mod incidence;
pub mod knapsack;
pub mod laws;
pub mod ranking;
