//! A single-user, terminal-based habit tracker: named activities, boolean
//! completion per activity per calendar day, a day-view projection and a
//! heat-map cursor, with both stores persisted as text.
pub mod activities;
pub mod codec;
pub mod date;
pub mod session;
