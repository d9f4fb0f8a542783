//! Converts static mesh geometry into physics collision volumes and attaches
//! rigid-body dynamics to the right node of a scene hierarchy, exactly once
//! per session.
//!
//! Geometry arrives asynchronously, over several scheduling ticks, with no
//! completion signal of its own. A tick-bounded gate ([`schedule`]) therefore
//! retries the scan for a bounded number of ticks. When eligible, a scan pass
//! ([`scanner`]) enumerates every node that requests a collider, finds the
//! mesh-bearing child, converts its geometry record into a collision volume
//! ([`collider`]), spawns the collider child under the requesting node and
//! marks the topmost ancestor as a dynamic rigid body. After the first pass
//! that processes at least one request, the session state becomes `Done` and
//! no further pass ever runs.
//!
//! The convex decomposition itself operates on floating-point vertex data and
//! is performed by an outside geometry library; this crate prepares, validates
//! and routes the exact vertex and triangle lists handed to it, holding the
//! float components as opaque 32-bit patterns that it never interprets.

pub mod collider;
pub mod geometry;
pub mod scanner;
pub mod scene;
pub mod schedule;
pub mod store;
