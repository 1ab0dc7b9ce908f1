pub mod hierarchy;
pub mod laws;
pub mod origin;
pub mod propagate;
pub mod schedule;
