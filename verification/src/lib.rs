//! Combat collision resolution, one frame at a time.
//!
//! A frame hands in a [`world::World`], the snapshot of its entities, and
//! the overlaps that the physics layer reports. Each resolver decides which
//! overlaps are hits and hands back plain messages:
//!
//! - [`melee`]: the main-hand weapon against mobs, once per swing;
//! - [`projectile`]: projectiles of the player and of mobs, once per target;
//! - [`contact`]: a mob touching the player, with dodge and thorns;
//! - [`pickup`]: item stacks under a moving player, while there is room.
//!
//! [`overlap`] puts the feed into the form they read, [`damage`] holds the
//! arithmetic, and [`events`] the messages.

pub mod contact;
pub mod damage;
pub mod digits;
pub mod entity;
pub mod events;
pub mod melee;
pub mod overlap;
pub mod pickup;
pub mod projectile;
pub mod world;
