//! Verified core of the GazFlow gas-network simulator: network topology model,
//! N-1 contingency planning, NoVa capacity bisection control, transient-event
//! validation and PDE topology analysis, and the index bookkeeping of the
//! steady-state solver.

pub mod network;
pub mod contingency;
pub mod capacity;
pub mod reach;
pub mod steady;
pub mod order;
pub mod transient;
pub mod components;
