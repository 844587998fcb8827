//! A streaming bin-matching engine: incoming stems, each tagged with a
//! species and a size class, are greedily assembled into fixed recipes
//! ("designs") as soon as enough qualifying stems are on hand. Each
//! arrival withdraws at most one bundle, and matching prefers designs
//! with the smallest required total, ties broken by registration order.

pub mod design;
pub mod line;
pub mod size;
pub mod species;
pub mod warehouse;
