//! A verified engine for turn-based drafting of uniquely named items among a
//! fixed, ordered roster of participants.
//!
//! A draft is run by a [`league::League`]: it owns the participants, decides
//! whose turn it is with one of the two rotation algorithms in
//! [`draft_types`], resolves queued fallback picks when a turn advances, and
//! handles post-draft waivers and trades. Independent leagues are grouped by
//! name in a [`registry::DraftGuild`].

pub mod draft_types;
pub mod item;
pub mod laws;
pub mod league;
pub mod player;
pub mod registry;
pub mod seq_find;
