//! Order matching and trade settlement for a single-venue exchange backend.
pub mod models;
pub mod portfolio;
pub mod text;
pub mod book;
pub mod store;
pub mod settlement;
pub mod events;
pub mod venue;
pub mod fills;
pub mod runs;
