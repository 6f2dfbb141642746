//! Allocation of a pool of participants to roles: quota planning under a
//! curve or a threshold policy, and randomized scarcest-first assignment.

pub mod ids;
pub mod sums;
pub mod points;
pub mod curve;
pub mod apportion;
pub mod quota;
pub mod threshold;
pub mod assign;
pub mod pairing;
pub mod participants;
pub mod stages;
