//! Temple of Atzoatl builder advisor: the board lattice, the door graph, the
//! rule chain and the rollout mechanics, with their contracts.

pub mod lattice;
pub mod masks;
pub mod state;
pub mod strategy;
pub mod doorset;
pub mod reading;
pub mod rollout;
pub mod rules;
pub mod convenience;
pub mod advice;
pub mod ranking;
pub mod drops;
pub mod dump;
pub mod search;
pub mod ink;
pub mod markers;
pub mod fixtures;
pub mod cases;
