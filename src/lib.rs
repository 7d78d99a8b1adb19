//! Rendezvous queries on a forest of cities joined by open roads.
//!
//! A [`Kingdom`] is built from a stream of roads; each query names a few cities
//! whose travellers all set off at the same moment, at the same speed, and asks
//! in how many cities they can all arrive together.

pub mod forest;
pub mod meeting;

pub use forest::{City, CityView, Kingdom, Road};
