//! Mirror of a compositor's live state: a reconciler keeps a flat model of
//! workspaces and windows consistent with an ordered stream of change events,
//! and a projector derives the display-ready output -> workspace -> window
//! tree from it.

pub mod model;
pub mod order;
pub mod project;
pub mod laws;
pub mod reconcile;
