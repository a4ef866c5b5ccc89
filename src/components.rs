//! Plain data carried by the game's entities: markers, tiles, sides and weapons.

use vstd::prelude::*;

verus! {

/// Marks the camera.
pub struct CameraMarker;

/// Something that moves each tick; `auto_despawn` removes it once it leaves the window.
pub struct Movable {
    pub auto_despawn: bool,
}

/// A background tile at grid position (`x`, `y`).
pub struct Tile {
    pub x: i32,
    pub y: i32,
}

/// Marks a background star.
pub struct Star;

/// Marks a ship's shield sprite.
pub struct Shield;

/// The side an entity fights on.
#[derive(Clone, Copy, PartialEq, Eq, Structural, Hash, Debug)]
pub enum Allegiance {
    Friendly,
    Enemy,
}

impl Default for Allegiance {
    fn default() -> (r: Self)
        ensures
            r == Allegiance::Friendly,
    {
        Allegiance::Friendly
    }
}

/// Marks the player's ship.
pub struct Player;

/// Marks a projectile fired by the player.
pub struct FromPlayer;

/// Marks an enemy ship.
pub struct Enemy;

/// Marks a projectile fired by an enemy.
pub struct FromEnemy;

/// The kinds of weapon a ship can fire.
#[derive(Clone, Copy, PartialEq, Eq, Structural, Hash, Debug)]
pub enum WeaponType {
    Laser,
    EMP,
}

impl Default for WeaponType {
    fn default() -> (r: Self)
        ensures
            r == WeaponType::Laser,
    {
        WeaponType::Laser
    }
}

/// Marks a laser shot.
pub struct Laser;

/// Marks an EMP blast.
pub struct EMP;

/// Marks an explosion.
pub struct Explosion;

/// Marks the weapon charge bar of the heads-up display.
pub struct WeaponChargeBar;

/// Marks the score text.
pub struct ScoreText;

/// Marks the text that shows whether the script is running.
pub struct CodePilotActiveText;

/// Marks the best-score text.
pub struct MaxScoreText;

} // verus!
