//! Entity components and small engine-wide types.

use vstd::prelude::*;

use crate::assoc::{AssocMap, KeyEq};
use crate::geom::IVec2;
use crate::time::Instant;

verus! {

/// How far can the player see.
pub const FOV_RADIUS: i32 = 10;

/// From how far away do inert enemies first react to foes.
pub const ALERT_RADIUS: i32 = 9;

/// From how far away does the enemy shout wake up mobs.
pub const SHOUT_RADIUS: i32 = 6;

/// How far can you throw items.
pub const THROW_RANGE: i32 = 10;

/// Outcome of a game scenario.
#[derive(Copy, Clone, PartialEq, Eq, Structural, Debug)]
pub enum ScenarioStatus {
    Ongoing,
    Won,
    Lost,
}

/// Status effects.
#[derive(Copy, Clone, PartialEq, Eq, Structural, Debug, Hash)]
pub enum Buff {
    Confusion,
}

impl KeyEq for Buff {
    fn key_eq(&self, other: &Self) -> (r: bool) {
        match (self, other) {
            (Buff::Confusion, Buff::Confusion) => true,
        }
    }
}

/// Active status effects and when each one expires.
pub struct Buffs(pub AssocMap<Buff, Instant>);

/// Special abilities of mobs.
#[derive(Copy, Clone, PartialEq, Eq, Structural, Debug)]
pub enum Ability {
    BerserkRage,
    CallLightning,
    Confusion,
    Firebolt,
}

impl Ability {
    /// The ability is aimed in a direction.
    pub fn needs_aim(self) -> (r: bool)
        ensures
            r == (self == Ability::Firebolt),
    {
        matches!(self, Ability::Firebolt)
    }
}

/// Cooldown state of an ability.
#[derive(Copy, Clone, PartialEq, Eq, Structural, Debug)]
pub struct AbilityState {
    pub cooldown_until: Instant,
}

/// Cooldown state of a power.
#[derive(Copy, Clone, PartialEq, Eq, Structural, Debug)]
pub struct PowerState {
    pub cooldown_until: Instant,
}

/// Time when the mob can act next.
#[derive(Copy, Clone, PartialEq, Eq, Structural, Debug)]
pub struct ActsNext(pub Instant);

/// Stacking value, value 0 means there's one item but it does not stack.
#[derive(Copy, Clone, PartialEq, Eq, Structural, Debug)]
pub struct Count(pub i32);

#[derive(Copy, Clone, PartialEq, Eq, Structural, Debug)]
pub struct Icon(pub char);

/// Entities with this flag will be destroyed when the player respawns.
#[derive(Copy, Clone, PartialEq, Eq, Structural, Debug)]
pub struct IsEphemeral(pub bool);

#[derive(Copy, Clone, PartialEq, Eq, Structural, Debug)]
pub struct IsFriendly(pub bool);

#[derive(Copy, Clone, PartialEq, Eq, Structural, Debug)]
pub struct IsMob(pub bool);

/// Used by AI movement, moving sets momentum and you can't displace a mob
/// that moved this turn against its momentum.
#[derive(Copy, Clone, PartialEq, Eq, Structural, Debug)]
pub struct Momentum(pub IVec2);

#[derive(Debug)]
pub struct Nickname(pub String);

/// How many times has the player died.
#[derive(Copy, Clone, PartialEq, Eq, Structural, Debug)]
pub struct NumDeaths(pub i32);

#[derive(Copy, Clone, PartialEq, Eq, Structural, Debug)]
pub struct Speed(pub i8);

/// Voice of a mob.
#[derive(Copy, Clone, PartialEq, Eq, Structural, Debug)]
pub enum Voice {
    Silent,
    Shout,
    Hiss,
    Gibber,
    Roar,
}

/// Reversed value, zero is healthy, high values are bad.
#[derive(Copy, Clone, PartialEq, Eq, Structural, Debug)]
pub struct Wounds(pub i32);

/// Fungible money carried by the mob.
#[derive(Copy, Clone, PartialEq, Eq, Structural, Debug)]
pub struct Cash(pub i32);

/// Combat statistics.
#[derive(Copy, Clone, PartialEq, Eq, Structural, Debug)]
pub struct Stats {
    /// General power.
    pub level: i32,
    /// Deciban odds for landing an attack.
    pub hit: i32,
    /// Deciban odds for evading an attack.
    pub ev: i32,
    /// Damage done with a successful attack.
    pub dmg: i32,
}

impl Stats {
    pub open spec fn can_add(self, o: Stats) -> bool {
        i32::MIN <= self.level + o.level <= i32::MAX && i32::MIN <= self.hit + o.hit <= i32::MAX
            && i32::MIN <= self.ev + o.ev <= i32::MAX && i32::MIN <= self.dmg + o.dmg <= i32::MAX
    }

    /// Fieldwise sum of stats.
    pub fn add(self, rhs: Stats) -> (r: Stats)
        requires
            self.can_add(rhs),
        ensures
            r.level == self.level + rhs.level,
            r.hit == self.hit + rhs.hit,
            r.ev == self.ev + rhs.ev,
            r.dmg == self.dmg + rhs.dmg,
    {
        let mut s = self;
        s.add_assign(rhs);
        s
    }

    pub fn add_assign(&mut self, rhs: Stats)
        requires
            old(self).can_add(rhs),
        ensures
            final(self).level == old(self).level + rhs.level,
            final(self).hit == old(self).hit + rhs.hit,
            final(self).ev == old(self).ev + rhs.ev,
            final(self).dmg == old(self).dmg + rhs.dmg,
    {
        self.level = self.level + rhs.level;
        self.hit = self.hit + rhs.hit;
        self.ev = self.ev + rhs.ev;
        self.dmg = self.dmg + rhs.dmg;
    }
}

} // verus!
