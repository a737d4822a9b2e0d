//! A simulation engine for hierarchies of composite bodies.
//!
//! A body owns sub-bodies, parts and force rules; a part owns sub-parts,
//! points in space and a bag of properties. One tick of the engine lets the
//! siblings at every level of the hierarchy interact pair by pair and then
//! moves the points of the parts in steps of an elementary time unit.
//!
//! * [`entity`] holds the bodies, parts, rules and properties, their
//!   models, and the particles that the engine knows how to build.
//! * [`schedule`] orders the pairs of siblings into rounds that share no
//!   sibling, so that the pairs of a round may be worked on at once.
//! * [`interaction`] walks the hierarchy and applies the force rules under
//!   a law of force that the caller chooses.
//! * [`frame`] says what interaction leaves alone.
//! * [`integrator`] moves the points and runs a whole tick.
//! * [`rest`] shows that what is at rest stays at rest.
//! * [`export`] finds the places and sizes of the meshes to show, and
//!   [`mesh`] holds the meshes.
//! * [`error`] names the failures.
//!
//! All quantities are fixed-point integers and every function is total:
//! none panics, and each states exactly what it returns or changes.

pub mod entity;
pub mod error;
pub mod export;
pub mod frame;
pub mod integrator;
pub mod interaction;
pub mod mesh;
pub mod rest;
pub mod schedule;
