//! Tests of the durability tables.

use mcseedcracker::durability::{ArmorMaterial, ItemWithDurability, ToolMaterial};

#[test]
fn test_durability_tables() {
    assert_eq!(ToolMaterial::Iron.tool_durability(), 250);
    assert_eq!(ToolMaterial::Netherite.tool_durability(), 2031);
    assert_eq!(ArmorMaterial::Diamond.chestplate_durability(), 528);
    assert_eq!(ArmorMaterial::Leather.helmet_durability(), 55);
    assert_eq!(ItemWithDurability::Sword(ToolMaterial::Gold).durability(), 32);
    assert_eq!(ItemWithDurability::Boots(ArmorMaterial::Netherite).durability(), 481);
    assert_eq!(ItemWithDurability::Elytra.durability(), 432);
}
