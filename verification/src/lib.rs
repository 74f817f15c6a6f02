//! A concurrent garbage collector by deferred partial tracing.
//!
//! Managed objects live in a heap of their own. The collector counts only the *roots* of an
//! object, that is, the pointers to it from outside the heap, and traces what the roots lead to.
//! So traversals touch no counts, and cycles are reclaimed.
//!
//! - [`global::Global`] is the collector: the heap, the participants, the lists of objects, the
//!   settings and the statistics. Every operation is a step on it.
//! - [`guards::Handle`] and [`guards::Guard`] are how a thread takes part: a guard pins its
//!   participant, and what a pinned participant can get hold of is not reclaimed.
//! - [`pointers`] holds the pointers: [`pointers::Local`] for as long as a guard or a hazard
//!   pointer protects the object, [`pointers::Shared`] as an immutable root, and
//!   [`pointers::AtomicShared`] and [`pointers::AtomicSharedOption`] as mutable ones. In an
//!   object, they become [`edges`].
//! - [`collector`] runs the cycles: a normal phase, in which dead objects are swept, then root
//!   tracing and completion tracing.
//! - [`model`] is the state as the proofs see it, with what holds at every step; [`steps`] are
//!   the steps; [`laws`], [`survival`] and [`accounts`] say what the collector promises.
//! - [`derive`] plans the code that traces a type.
//! - The modules named after laws say the same in numbers and addresses: what words hold
//!   ([`word_laws`]), what pointers lead to ([`pointer_laws`]), what is in the heap ([`heap_laws`],
//!   [`object_laws`]), who is pinned and protects what ([`participant_laws`]), when collections
//!   take place and what they leave ([`driving_laws`], [`cycle_laws`]), what the parts of the
//!   collector hold ([`working_laws`]), and which code a type gets ([`derive_laws`]).

pub mod accounts;
pub mod allocation;
pub mod bags;
pub mod barriers;
pub mod collector;
pub mod comparing;
pub mod config;
pub mod cycle_laws;
pub mod derive;
pub mod derive_laws;
pub mod draining;
pub mod driving;
pub mod driving_laws;
pub mod edges;
pub mod epoch;
pub mod global;
pub mod guards;
pub mod hazard_pointer;
pub mod hazards;
pub mod heap;
pub mod heap_laws;
pub mod helping;
pub mod internal;
pub mod laws;
pub mod lists;
pub mod man_ptr;
pub mod mark_queue;
pub mod marking;
pub mod model;
pub mod obj_meta;
pub mod object_laws;
pub mod participant_laws;
pub mod pinning;
pub mod pointer_laws;
pub mod pointers;
pub mod publishing;
pub mod record;
pub mod registry;
pub mod roots;
pub mod scanning;
pub mod settings;
pub mod shards;
pub mod stats;
pub mod steps;
pub mod survival;
pub mod sweeping;
pub mod sync;
pub mod trace;
pub mod word_laws;
pub mod working_laws;
