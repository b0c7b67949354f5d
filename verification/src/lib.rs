//! Stats and changes for entities of a simulation: a stat holds a value, a
//! change accumulates what is to be added to it, and the two meet when the
//! change is applied. Changes can also flow along a parent relation, from the
//! leaves of a hierarchy to its roots, and values can flow from roots to leaves.
pub mod stat_num;
pub mod stat_component;
pub mod system;
pub mod utils;
