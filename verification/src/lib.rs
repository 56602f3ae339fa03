//! Pathfinding for a token on a map of walls, doors and difficult terrain.
//!
//! The map is a visibility graph. Its nodes are waypoints that keep half the
//! size of the token away from the corners of the walls; its edges join the
//! waypoints between which the token can move straight. A query asks for a
//! cheapest path between two points and gets it as a list of points, from the
//! destination back to the origin.
//!
//! All coordinates are integers on a lattice whose unit the caller chooses,
//! and every geometric test is decided without rounding. Lines whose slopes
//! differ by less than five parts in a hundred million count as parallel, and
//! a point within a millionth of a lattice unit of an end point of a segment
//! counts as the end point. Costs are measured in hundred-thousandths of a
//! lattice unit.
//!
//! The modules, from the bottom up:
//!
//! - [`numeric`], [`geometry`] and [`line`]: integer square roots, points,
//!   directions, segments, lines, rectangles and circles;
//! - [`util`] and [`ptr_indexed_hash_set`]: walking a list in pairs, and a set
//!   of node handles;
//! - [`walls`] and [`terrain`]: what the map is made of;
//! - [`bearings`], [`corners`], [`generation`] and [`clearance`]: where the
//!   waypoints go, and that they keep clear of the walls;
//! - [`pathfinder`]: the graph and the lazy discovery of its edges;
//! - [`costs`], [`search_state`], [`search_proofs`], [`model`] and [`search`]:
//!   the search, what it keeps, why it is right, and what it returns;
//! - [`host`]: building a graph from the records of a host, and the
//!   fingerprint of a scene.

pub mod bearings;
pub mod clearance;
pub mod corners;
pub mod costs;
pub mod generation;
pub mod geometry;
pub mod host;
pub mod line;
pub mod model;
pub mod numeric;
pub mod pathfinder;
pub mod ptr_indexed_hash_set;
pub mod search;
pub mod search_proofs;
pub mod search_state;
pub mod terrain;
pub mod util;
pub mod walls;
