//! Durability tables of tools and armour, used as literal constants by loot
//! tables.

use vstd::prelude::*;

verus! {

/// Tool materials.
#[derive(Debug, Copy, Clone, PartialEq, Eq, Structural)]
pub enum ToolMaterial {
    Wood,
    Gold,
    Stone,
    Iron,
    Diamond,
    Netherite,
}

/// The durability of a tool made of this material.
pub open spec fn spec_tool_durability(m: ToolMaterial) -> int {
    match m {
        ToolMaterial::Wood => 59,
        ToolMaterial::Gold => 32,
        ToolMaterial::Stone => 131,
        ToolMaterial::Iron => 250,
        ToolMaterial::Diamond => 1561,
        ToolMaterial::Netherite => 2031,
    }
}

impl ToolMaterial {
    pub fn tool_durability(self) -> (r: i32)
        ensures
            r == spec_tool_durability(self),
    {
        match self {
            Self::Wood => 59,
            Self::Gold => 32,
            Self::Stone => 131,
            Self::Iron => 250,
            Self::Diamond => 1561,
            Self::Netherite => 2031,
        }
    }
}

/// Armour materials.
#[derive(Debug, Copy, Clone, PartialEq, Eq, Structural)]
pub enum ArmorMaterial {
    Leather,
    Gold,
    Chainmail,
    Iron,
    Diamond,
    Netherite,
}

/// The base level an armour material scales its piece durabilities from.
pub open spec fn spec_armor_level(m: ArmorMaterial) -> int {
    match m {
        ArmorMaterial::Leather => 5,
        ArmorMaterial::Gold => 7,
        ArmorMaterial::Chainmail => 15,
        ArmorMaterial::Iron => 15,
        ArmorMaterial::Diamond => 33,
        ArmorMaterial::Netherite => 37,
    }
}

impl ArmorMaterial {
    pub fn level(self) -> (r: i32)
        ensures
            r == spec_armor_level(self),
    {
        match self {
            Self::Leather => 5,
            Self::Gold => 7,
            Self::Chainmail | Self::Iron => 15,
            Self::Diamond => 33,
            Self::Netherite => 37,
        }
    }

    pub fn helmet_durability(self) -> (r: i32)
        ensures
            r == 11 * spec_armor_level(self),
    {
        11 * self.level()
    }

    pub fn chestplate_durability(self) -> (r: i32)
        ensures
            r == 16 * spec_armor_level(self),
    {
        16 * self.level()
    }

    pub fn leggings_durability(self) -> (r: i32)
        ensures
            r == 15 * spec_armor_level(self),
    {
        15 * self.level()
    }

    pub fn boots_durability(self) -> (r: i32)
        ensures
            r == 13 * spec_armor_level(self),
    {
        13 * self.level()
    }
}

/// Anything with a durability bar.
#[derive(Debug, Copy, Clone, PartialEq, Eq, Structural)]
pub enum ItemWithDurability {
    Sword(ToolMaterial),
    Pickaxe(ToolMaterial),
    Axe(ToolMaterial),
    Shovel(ToolMaterial),
    Hoe(ToolMaterial),
    Helmet(ArmorMaterial),
    Chestplate(ArmorMaterial),
    Leggings(ArmorMaterial),
    Boots(ArmorMaterial),
    Shears,
    FishingRod,
    CarrotOnAStick,
    WarpedFungusOnAStick,
    FlintAndSteel,
    Bow,
    Crossbow,
    Trident,
    Elytra,
    Shield,
}

/// The durability of an item.
pub open spec fn spec_durability(item: ItemWithDurability) -> int {
    match item {
        ItemWithDurability::Sword(m) => spec_tool_durability(m),
        ItemWithDurability::Pickaxe(m) => spec_tool_durability(m),
        ItemWithDurability::Axe(m) => spec_tool_durability(m),
        ItemWithDurability::Shovel(m) => spec_tool_durability(m),
        ItemWithDurability::Hoe(m) => spec_tool_durability(m),
        ItemWithDurability::Helmet(m) => 11 * spec_armor_level(m),
        ItemWithDurability::Chestplate(m) => 16 * spec_armor_level(m),
        ItemWithDurability::Leggings(m) => 15 * spec_armor_level(m),
        ItemWithDurability::Boots(m) => 13 * spec_armor_level(m),
        ItemWithDurability::FlintAndSteel => 64,
        ItemWithDurability::FishingRod => 64,
        ItemWithDurability::CarrotOnAStick => 25,
        ItemWithDurability::WarpedFungusOnAStick => 100,
        ItemWithDurability::Shears => 238,
        ItemWithDurability::Shield => 336,
        ItemWithDurability::Bow => 384,
        ItemWithDurability::Trident => 250,
        ItemWithDurability::Elytra => 432,
        ItemWithDurability::Crossbow => 465,
    }
}

impl ItemWithDurability {
    pub fn durability(self) -> (r: i32)
        ensures
            r == spec_durability(self),
    {
        match self {
            Self::Sword(m) | Self::Pickaxe(m) | Self::Axe(m) | Self::Shovel(m) | Self::Hoe(m) => {
                m.tool_durability()
            },
            Self::Helmet(m) => m.helmet_durability(),
            Self::Chestplate(m) => m.chestplate_durability(),
            Self::Leggings(m) => m.leggings_durability(),
            Self::Boots(m) => m.boots_durability(),
            Self::FlintAndSteel | Self::FishingRod => 64,
            Self::CarrotOnAStick => 25,
            Self::WarpedFungusOnAStick => 100,
            Self::Shears => 238,
            Self::Shield => 336,
            Self::Bow => 384,
            Self::Trident => 250,
            Self::Elytra => 432,
            Self::Crossbow => 465,
        }
    }
}

} // verus!
