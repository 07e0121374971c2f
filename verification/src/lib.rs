//! Verified core of a force-directed graph layout engine: the deterministic
//! random stream, the link-degree bookkeeping of the spring force, the arena
//! that backs the Barnes-Hut quadtree, and the ordered set of named forces.

pub mod forces;
pub mod lcg;
pub mod link;
pub mod quadtree;

pub use forces::Forces;
pub use lcg::Lcg;
pub use link::{zip_links, Link, LinkRef};
pub use quadtree::{Quad, Quadtree, VisitStep, NIL};
