//! Static game data: item kinds, equipment slots, powers and map regions.

use vstd::prelude::*;

use crate::geom::IVec2;
use crate::sector_map::{SectorMap, cells_of, first_position};

verus! {

/// Game-wide general settings.
pub struct Settings {
    /// Internal human-readable identifier of the game, used for save
    /// directories etc.
    pub id: String,
    /// Player-visible full title of the game.
    pub title: String,
}

/// Kinds of generated sectors.
#[derive(Copy, Clone, PartialEq, Eq, Structural, Debug)]
pub enum GenericSector {
    Water,
    Grassland,
    Forest,
    Mountains,
    Dungeon,
}

/// Data for a kind of monster.
pub struct Monster {
    pub icon: char,
    pub might: i32,
    pub evasion: i32,
    pub attack_damage: i32,
    pub rarity: u32,
    pub min_depth: u32,
}

#[derive(Copy, Clone, PartialEq, Eq, Structural, Debug)]
pub enum ItemKind {
    // A baked-in empty value so this can be used directly as a component.
    Nothing,
    MeleeWeapon,
    RangedWeapon,
    Armor,
    Ring,
    Scroll,
    Potion,
    Treasure,
}

/// Equipment slots of a mob.
#[derive(Copy, Clone, PartialEq, Eq, Structural, Debug)]
pub enum EquippedAt {
    Nowhere,
    RunHand,
    GunHand,
    Body,
    Ring1,
    Ring2,
}

/// Special powers items can hold.
#[derive(Copy, Clone, PartialEq, Eq, Structural, Debug)]
pub enum Power {
    CallLightning,
    Confusion,
    Fireball,
    MagicMapping,
    HealSelf,
}

pub open spec fn spec_fits(k: ItemKind, slot: EquippedAt) -> bool {
    match k {
        ItemKind::MeleeWeapon => slot == EquippedAt::RunHand,
        ItemKind::RangedWeapon => slot == EquippedAt::RunHand || slot == EquippedAt::GunHand,
        ItemKind::Armor => slot == EquippedAt::Body,
        ItemKind::Ring => slot == EquippedAt::Ring1 || slot == EquippedAt::Ring2,
        _ => false,
    }
}

pub open spec fn spec_icon(k: ItemKind) -> char {
    match k {
        ItemKind::Nothing => 'X',
        ItemKind::MeleeWeapon => ')',
        ItemKind::RangedWeapon => ')',
        ItemKind::Armor => '[',
        ItemKind::Ring => '\u{b0}',
        ItemKind::Scroll => '?',
        ItemKind::Potion => '!',
        ItemKind::Treasure => '$',
    }
}

impl ItemKind {
    /// Whether an item of this kind can be equipped in the slot.
    pub fn fits(&self, slot: EquippedAt) -> (r: bool)
        ensures
            r == spec_fits(*self, slot),
    {
        match self {
            ItemKind::MeleeWeapon => slot == EquippedAt::RunHand,
            ItemKind::RangedWeapon => slot == EquippedAt::RunHand || slot == EquippedAt::GunHand,
            ItemKind::Armor => slot == EquippedAt::Body,
            ItemKind::Ring => slot == EquippedAt::Ring1 || slot == EquippedAt::Ring2,
            _ => false,
        }
    }

    /// Map icon for items of the kind.
    pub fn icon(&self) -> (r: char)
        ensures
            r == spec_icon(*self),
    {
        match self {
            ItemKind::Nothing => 'X',
            ItemKind::MeleeWeapon => ')',
            ItemKind::RangedWeapon => ')',
            ItemKind::Armor => '[',
            ItemKind::Ring => '\u{b0}',
            ItemKind::Scroll => '?',
            ItemKind::Potion => '!',
            ItemKind::Treasure => '$',
        }
    }

    /// Items of this kind form stacks.
    pub fn is_stacking(&self) -> (r: bool)
        ensures
            r == matches!(*self, ItemKind::Scroll | ItemKind::Potion | ItemKind::Treasure),
    {
        matches!(self, ItemKind::Scroll | ItemKind::Potion | ItemKind::Treasure)
    }
}

impl Default for ItemKind {
    fn default() -> (r: ItemKind)
        ensures
            r == ItemKind::Nothing,
    {
        ItemKind::Nothing
    }
}

impl EquippedAt {
    pub fn is_none(&self) -> (r: bool)
        ensures
            r == (*self == EquippedAt::Nowhere),
    {
        matches!(self, EquippedAt::Nowhere)
    }

    pub fn is_some(&self) -> (r: bool)
        ensures
            r == (*self != EquippedAt::Nowhere),
    {
        !self.is_none()
    }
}

impl Default for EquippedAt {
    fn default() -> (r: EquippedAt)
        ensures
            r == EquippedAt::Nowhere,
    {
        EquippedAt::Nowhere
    }
}

impl Power {
    /// The power is aimed in a direction when used.
    pub fn needs_aim(self) -> (r: bool)
        ensures
            r == matches!(self, Power::Confusion | Power::Fireball),
    {
        matches!(self, Power::Confusion | Power::Fireball)
    }
}

/// No item kind fits the empty slot.
pub proof fn lemma_nothing_fits_none(k: ItemKind)
    ensures
        !spec_fits(k, EquippedAt::Nowhere),
{
}

/// Only equipment kinds fit anywhere, and stacking kinds never do.
pub proof fn lemma_stacking_not_equipment(k: ItemKind, slot: EquippedAt)
    ensures
        matches!(k, ItemKind::Scroll | ItemKind::Potion | ItemKind::Treasure) ==> !spec_fits(
            k,
            slot,
        ),
{
}

/// Kinds of regions in a scenario map.
pub enum Region {
    /// A procgen level.
    Generate(GenericSector),
    /// An above-ground prefab level.
    Site(SectorMap),
    /// An underground prefab level.
    Hall(SectorMap),
    /// Branch a new stack off to the side.
    Branch(Vec<Region>),
    /// A sequence of applying the same constructor multiple times.
    Repeat(u32, Box<Region>),
}

pub open spec fn spec_is_site(r: Region) -> bool
    decreases r,
{
    match r {
        Region::Site(_) => true,
        Region::Repeat(_, a) => spec_is_site(*a),
        _ => false,
    }
}

pub open spec fn spec_is_prefab(r: Region) -> bool
    decreases r,
{
    match r {
        Region::Site(_) | Region::Hall(_) => true,
        Region::Repeat(_, a) => spec_is_prefab(*a),
        _ => false,
    }
}

/// Floors the region stacks up.
pub open spec fn spec_count(r: Region) -> int
    decreases r,
{
    match r {
        Region::Repeat(n, a) => n * spec_count(*a),
        // Branches go off to the side so they don't add to count.
        Region::Branch(_) => 0,
        _ => 1,
    }
}

/// Floor counts of a region and all its nested repeats fit under a bound.
pub open spec fn count_fits(r: Region, bound: int) -> bool
    decreases r,
{
    match r {
        Region::Repeat(n, a) => count_fits(*a, bound) && n <= bound && n * spec_count(*a) <= bound,
        _ => true,
    }
}

impl Region {
    /// Sites are always above ground, though some generated regions may be
    /// above ground too.
    pub fn is_site(&self) -> (r: bool)
        ensures
            r == spec_is_site(*self),
        decreases self,
    {
        match self {
            Region::Site(_) => true,
            Region::Repeat(_, r) => r.is_site(),
            _ => false,
        }
    }

    pub fn is_prefab(&self) -> (r: bool)
        ensures
            r == spec_is_prefab(*self),
        decreases self,
    {
        match self {
            Region::Site(_) | Region::Hall(_) => true,
            Region::Repeat(_, a) => a.is_prefab(),
            _ => false,
        }
    }

    /// How many vertical floors this region represents.
    pub fn count(&self) -> (r: u32)
        requires
            count_fits(*self, u32::MAX as int),
        ensures
            r == spec_count(*self),
        decreases self,
    {
        match self {
            Region::Repeat(n, inner) => {
                let c = inner.count();
                assert(*n as int * c as int == spec_count(*self));
                *n * c
            },
            // Branches go off to the side so they don't add to count.
            Region::Branch(_) => 0,
            _ => 1,
        }
    }

    /// Vertical height of the region in levels.
    pub fn height(&self) -> (r: i32)
        requires
            count_fits(*self, i32::MAX as int),
        ensures
            r == spec_count(*self),
        decreases self,
    {
        match self {
            Region::Repeat(n, a) => {
                let h = a.height();
                proof {
                    lemma_count_nonneg(**a);
                }
                assert(*n as int * h as int == spec_count(*self));
                *n as i32 * h
            },
            Region::Branch(_) => 0,
            _ => 1,
        }
    }
}

/// The map of a prefab region fits the grid coordinates.
pub open spec fn prefab_fits(r: Region) -> bool {
    match r {
        Region::Site(a) | Region::Hall(a) => a.fits(),
        _ => true,
    }
}

impl Region {
    /// Upstairs position that a prefab level fixes, if it has one.
    pub fn fixed_upstairs(&self) -> (r: Option<IVec2>)
        requires
            prefab_fits(*self),
        ensures
            r == match *self {
                Region::Site(a) | Region::Hall(a) => first_position(cells_of(a.map@), '<'),
                _ => None,
            },
    {
        match self {
            Region::Site(a) | Region::Hall(a) => a.find_upstairs(),
            _ => None,
        }
    }
}

/// A region never counts fewer than zero levels.
pub proof fn lemma_count_nonneg(r: Region)
    ensures
        spec_count(r) >= 0,
    decreases r,
{
    if let Region::Repeat(n, a) = r {
        lemma_count_nonneg(*a);
        assert(n * spec_count(*a) >= 0) by (nonlinear_arith)
            requires
                n >= 0,
                spec_count(*a) >= 0,
        ;
    }
}

} // verus!
