//! Verified core of a motorsport positional-data pipeline.
//!
//! A session's dataset maps each driver (a car-number string) to an ordered
//! series of positional samples.  The library trims every series to the
//! window that represents on-track running, assembles the trimmed blocks
//! into one long-format frame table tagged by driver code and local frame
//! index, and derives the decimated frame list that drives an animation.
//!
//! The sample type is generic: the numeric coordinates only flow through the
//! pipeline, while every decision the pipeline takes — window boundaries,
//! block layout, frame numbering, frame selection — is made over plain
//! indices and is verified here.

pub mod frame_table;
pub mod pipeline;
pub mod tables;
pub mod window;
