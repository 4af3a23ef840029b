use gdse::color::color_for;
use gdse::infer::TagInfo;
use gdse::keywords::{Kind, Rarity};

fn info(kind: Kind, rarity: Rarity, affixable: bool) -> TagInfo {
    TagInfo { kind, rarity, affixable }
}

#[test]
fn affixable_items_take_their_rarity_color() {
    assert_eq!(color_for(&info(Kind::RegularItem, Rarity::Common, true)), Some('w'));
    assert_eq!(color_for(&info(Kind::RegularItem, Rarity::Magical, true)), Some('y'));
    assert_eq!(color_for(&info(Kind::RegularItem, Rarity::Rare, true)), Some('g'));
}

#[test]
fn rare_mi_reads_olive() {
    assert_eq!(color_for(&info(Kind::MiItem, Rarity::Rare, true)), Some('l'));
    assert_eq!(color_for(&info(Kind::MiItem, Rarity::Common, true)), Some('w'));
    assert_eq!(color_for(&info(Kind::MiItem, Rarity::Magical, true)), Some('y'));
}

#[test]
fn unaffixable_item_names_are_uncolored() {
    assert_eq!(color_for(&info(Kind::RegularItem, Rarity::Rare, false)), None);
    assert_eq!(color_for(&info(Kind::MiItem, Rarity::Rare, false)), None);
}

#[test]
fn high_tiers_and_broken_are_uncolored() {
    for r in [Rarity::Epic, Rarity::Legendary, Rarity::Broken] {
        assert_eq!(color_for(&info(Kind::RegularItem, r, true)), None);
        assert_eq!(color_for(&info(Kind::MiItem, r, true)), None);
        assert_eq!(color_for(&info(Kind::Affix, r, false)), None);
    }
}

#[test]
fn affixes_are_colored_directly() {
    assert_eq!(color_for(&info(Kind::Affix, Rarity::Common, false)), Some('w'));
    assert_eq!(color_for(&info(Kind::Affix, Rarity::Magical, false)), Some('y'));
    assert_eq!(color_for(&info(Kind::Affix, Rarity::Rare, false)), Some('g'));
}
