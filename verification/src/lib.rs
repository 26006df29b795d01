//! A relationship-filtered join accessor over an indexed component store.
//!
//! The store attaches typed component data to opaque entities; a relationship
//! component on a *source* entity names one *target* entity.  [`related::Related`]
//! combines a primary query (entities carrying the data of interest) with a
//! secondary query (relationship components whose sources pass a filter) and
//! exposes exactly those primary entities that are targets of at least one
//! qualifying relationship.

pub mod access;
pub mod entity;
pub mod query;
pub mod related;
