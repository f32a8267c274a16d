//! A deterministic tower-defense simulation core in fixed-point arithmetic.
//!
//! Enemies walk a path of waypoints, towers fire at the nearest enemy in
//! range, projectiles fly straight and damage what they touch, and the player
//! earns money for kills and loses health to enemies that get through. One
//! call of [`World::advance`] runs one tick of all of it on integers alone,
//! so that a run can be replayed to the last digit.
pub mod bullet;
pub mod fixed;
pub mod laws;
pub mod physics;
pub mod player;
pub mod store;
pub mod target;
pub mod timer;
pub mod tower;
pub mod vector;
pub mod walk;
pub mod world;

pub use crate::bullet::{Bullet, Lifetime, Projectile};
pub use crate::physics::Contact;
pub use crate::player::Player;
pub use crate::target::{
    Enemy, Health, Target, TargetBreachEvent, TargetDeathEvent, TargetPath, Wave,
};
pub use crate::timer::RepeatingTimer;
pub use crate::tower::{PlacedTower, Tower, TowerButtonAttributes, TowerButtonState, TowerType};
pub use crate::vector::{Vec2, Vec3};
pub use crate::world::{Config, World};
