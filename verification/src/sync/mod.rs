//! Containers shared by the participants.

pub mod pile;
pub mod queue;
pub mod reusable_slots;
pub mod hash_set;
