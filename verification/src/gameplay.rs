//! Gameplay records that live on the generated grid, and the small
//! combat rules that mutate them.

use crate::geom::CardinalDirection;
use vstd::prelude::*;

verus! {

/// Marker for enemy entities.
#[derive(Clone, Copy, Debug, Default)]
pub struct Enemy;

/// Marker for the level exit entity.
#[derive(Clone, Copy, Debug, Default)]
pub struct Exit;

/// Damage a melee strike deals.
pub const MELEE_DAMAGE: i32 = 10;

/// Hit points of a creature; `current` may go negative on a killing blow.
#[derive(Clone, Copy, Debug, PartialEq, Eq, Structural)]
pub struct Health {
    pub max: u32,
    pub current: i32,
}

impl Health {
    pub fn new(max: u32) -> (r: Health)
        requires
            max <= i32::MAX,
        ensures
            r.max == max,
            r.current == max,
    {
        Health { max, current: max as i32 }
    }

    /// A melee strike: creatures already at or below zero take no
    /// further melee damage.
    pub fn melee_hit(&mut self)
        ensures
            final(self).max == old(self).max,
            old(self).current > 0 ==> final(self).current == old(self).current - MELEE_DAMAGE,
            old(self).current <= 0 ==> final(self).current == old(self).current,
    {
        if self.current > 0 {
            self.current = self.current - MELEE_DAMAGE;
        }
    }

    /// A projectile impact always deals its full damage.
    pub fn projectile_hit(&mut self, damage: u32)
        requires
            damage <= i32::MAX,
            old(self).current - damage >= i32::MIN,
        ensures
            final(self).max == old(self).max,
            final(self).current == old(self).current - damage,
    {
        self.current = self.current - damage as i32;
    }

    /// Dead at or below zero hit points.
    pub fn dead(&self) -> (r: bool)
        ensures
            r == (self.current <= 0),
    {
        self.current <= 0
    }
}

/// A bullet in flight and the damage it will deal.
#[derive(Clone, Copy, Debug, PartialEq, Eq, Structural)]
pub struct Projectile {
    pub damage: u32,
}

impl Projectile {
    pub fn new(damage: u32) -> (r: Projectile)
        ensures
            r.damage == damage,
    {
        Projectile { damage }
    }
}

/// A weapon rolling its damage uniformly inside `damage_range`.
#[derive(Clone, Copy, Debug)]
pub struct Weapon {
    pub damage_range: (u32, u32),
    pub ranged: bool,
}

impl Weapon {
    /// Fires a projectile with a random damage roll from the weapon's
    /// half-open damage range.
    pub fn fire(&self) -> (r: Projectile)
        requires
            self.damage_range.0 < self.damage_range.1,
        ensures
            self.damage_range.0 <= r.damage < self.damage_range.1,
    {
        let lo = self.damage_range.0;
        let hi = self.damage_range.1;
        let roll = crate::rng::random_range(lo as u64, hi as u64);
        Projectile::new(roll as u32)
    }
}

/// An entity's pending movement: a direction and how many animation
/// steps remain before the move lands.
#[derive(Clone, Copy, Debug, PartialEq, Eq, Structural)]
pub struct MovementIntent {
    pub dir: CardinalDirection,
    pub step: usize,
}

impl MovementIntent {
    pub fn new(dir: CardinalDirection, step: usize) -> (r: MovementIntent)
        ensures
            r.dir == dir && r.step == step,
    {
        MovementIntent { dir, step }
    }
}

} // verus!
