//! A timeline-based animation core: time spans, action clips, clip
//! sequences, track composition and compilation, and timeline playback
//! state, each with a machine-checked contract.

pub mod action;
pub mod conflict;
pub mod controller;
pub mod id_registry;
pub mod mut_detect;
pub mod pipeline;
pub mod sequence;
pub mod queue;
pub mod time;
pub mod timeline;
pub mod track;
