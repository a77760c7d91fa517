//! Course timetabling by particle swarm search: the decoder that turns a
//! particle's order keys into a timetable, the penalty evaluator, and the
//! bookkeeping that decides when a run adopts a new best and when it stops.

pub mod checker;
pub mod checker_laws;
pub mod conflict_laws;
pub mod conflicts;
pub mod decoder;
pub mod decoder_census;
pub mod decoder_laws;
pub mod decoder_order;
pub mod decoder_rooms;
pub mod engine;
pub mod grouping;
pub mod models;
pub mod overload;
pub mod packing;
pub mod preferences;
pub mod rooms;
pub mod runs;
pub mod sorting;
pub mod text;
