//! A follower-chain engine for a tick-driven 2D game.
//!
//! A leader is trailed by an ordered chain of followers. Each tick, every
//! follower nudges its position a fixed fraction of the way toward the last
//! recorded position of the member directly ahead of it, unless it is already
//! within a padding threshold of that target. Followers join at the back of
//! the chain and can be detached (thrown), after which the chain closes the
//! gap and never moves them again.
//!
//! Coordinates are fixed-point: callers pick a scale and hand in integer
//! coordinates at that scale.

pub mod vec2;
pub mod order;
pub mod ledger;
pub mod engine;
pub mod laws;
