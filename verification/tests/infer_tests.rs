use gdse::db::{Record, Value};
use gdse::infer::{infer, mode_rarity, RarityCounts, TagInfo};
use gdse::keywords::{Kind, Rarity};

fn rec(id: &str, fields: &[(&str, &str)]) -> Record {
    let mut r = Record::new(id);
    for (k, v) in fields {
        r.set_field(k, Value::Str(v.to_string()));
    }
    r
}

fn item(id: &str, tag: &str, class: &str, rarity: &str) -> Record {
    rec(id, &[("itemNameTag", tag), ("Class", class), ("itemClassification", rarity)])
}

#[test]
fn affix_records_label_their_tag() {
    let rs = vec![
        rec(
            "records/items/lootaffixes/prefix/a01.dbr",
            &[("lootRandomizerName", "tagPrefixA"), ("itemClassification", "Magical")],
        ),
        rec(
            "records/items/lootaffixes/suffix/b01.dbr",
            &[("lootRandomizerName", "tagSuffixB"), ("itemClassification", "Rare")],
        ),
    ];
    let tags = infer(&rs);
    assert_eq!(tags.len(), 2);
    assert_eq!(
        tags.get("tagPrefixA"),
        Some(&TagInfo { kind: Kind::Affix, rarity: Rarity::Magical, affixable: false })
    );
    assert_eq!(
        tags.get("tagSuffixB"),
        Some(&TagInfo { kind: Kind::Affix, rarity: Rarity::Rare, affixable: false })
    );
}

#[test]
fn affix_without_rarity_or_tag_is_skipped() {
    let rs = vec![
        rec("records/items/lootaffixes/prefix/a.dbr", &[("lootRandomizerName", "tagP")]),
        rec(
            "records/items/lootaffixes/prefix/b.dbr",
            &[("lootRandomizerName", ""), ("itemClassification", "Rare")],
        ),
        rec(
            "records/items/lootaffixes/prefix/c.dbr",
            &[("lootRandomizerName", "tagQ"), ("itemClassification", "Quest")],
        ),
    ];
    assert_eq!(infer(&rs).len(), 0);
}

#[test]
fn gear_of_low_tier_is_affixable() {
    let rs = vec![item("records/items/gearweapons/swords/a.dbr", "tagSword", "WeaponMelee_Sword", "Rare")];
    let tags = infer(&rs);
    assert_eq!(
        tags.get("tagSword"),
        Some(&TagInfo { kind: Kind::RegularItem, rarity: Rarity::Rare, affixable: true })
    );
}

#[test]
fn mode_rarity_wins_and_ties_go_low() {
    let rs = vec![
        item("records/items/gear/a1.dbr", "tagMode", "ArmorProtective_Head", "Epic"),
        item("records/items/gear/a2.dbr", "tagMode", "ArmorProtective_Head", "Epic"),
        item("records/items/gear/a3.dbr", "tagMode", "ArmorProtective_Head", "Rare"),
        item("records/items/gear/b1.dbr", "tagTie", "ArmorProtective_Head", "Epic"),
        item("records/items/gear/b2.dbr", "tagTie", "ArmorProtective_Head", "Rare"),
    ];
    let tags = infer(&rs);
    assert_eq!(
        tags.get("tagMode"),
        Some(&TagInfo { kind: Kind::RegularItem, rarity: Rarity::Epic, affixable: false })
    );
    assert_eq!(
        tags.get("tagTie"),
        Some(&TagInfo { kind: Kind::RegularItem, rarity: Rarity::Rare, affixable: true })
    );
}

#[test]
fn faction_and_non_gear_are_not_affixable() {
    let rs = vec![
        item("records/items/faction/rings/a.dbr", "tagFaction", "ArmorJewelry_Ring", "Common"),
        item("records/items/gear/f2.dbr", "tagFaction", "ArmorJewelry_Ring", "Common"),
        item("records/items/materia/comp.dbr", "tagComponent", "ItemRelic", "Magical"),
        rec("records/items/misc/noclass.dbr", &[("itemNameTag", "tagNoClass"), ("itemClassification", "Common")]),
    ];
    let tags = infer(&rs);
    assert_eq!(tags.get("tagFaction").map(|i| i.affixable), Some(false));
    assert_eq!(tags.get("tagComponent").map(|i| i.affixable), Some(false));
    assert_eq!(tags.get("tagNoClass").map(|i| i.affixable), Some(false));
    assert_eq!(tags.get("tagFaction").map(|i| i.rarity), Some(Rarity::Common));
}

#[test]
fn gear_record_without_rarity_still_marks_gear() {
    let rs = vec![
        rec("records/items/gear/x1.dbr", &[("itemNameTag", "tagG"), ("Class", "WeaponHunting_Gun2h")]),
        rec("records/items/gear/x2.dbr", &[("itemNameTag", "tagG"), ("itemClassification", "Magical")]),
    ];
    let tags = infer(&rs);
    assert_eq!(
        tags.get("tagG"),
        Some(&TagInfo { kind: Kind::RegularItem, rarity: Rarity::Magical, affixable: true })
    );
}

#[test]
fn records_outside_items_and_unrated_tags_are_ignored() {
    let rs = vec![
        item("records/creatures/x.dbr", "tagCreature", "WeaponMelee_Sword", "Rare"),
        item("records/items/gear/q.dbr", "tagQuest", "WeaponMelee_Sword", "Quest"),
        item("records/items/gear/e.dbr", "", "WeaponMelee_Sword", "Rare"),
    ];
    assert_eq!(infer(&rs).len(), 0);
}

#[test]
fn item_entry_wins_over_affix_of_same_tag() {
    let rs = vec![
        item("records/items/gear/s.dbr", "tagSame", "WeaponMelee_Sword", "Common"),
        rec(
            "records/items/lootaffixes/prefix/s.dbr",
            &[("lootRandomizerName", "tagSame"), ("itemClassification", "Rare")],
        ),
    ];
    let tags = infer(&rs);
    assert_eq!(
        tags.get("tagSame"),
        Some(&TagInfo { kind: Kind::RegularItem, rarity: Rarity::Common, affixable: true })
    );
}

#[test]
fn mode_of_counts() {
    let mut c = RarityCounts::new();
    assert_eq!(mode_rarity(&c), None);
    c.add_one(Rarity::Legendary);
    c.add_one(Rarity::Magical);
    assert_eq!(mode_rarity(&c), Some(Rarity::Magical));
    c.add_one(Rarity::Legendary);
    assert_eq!(mode_rarity(&c), Some(Rarity::Legendary));
    assert_eq!(c.count(Rarity::Legendary), 2);
}
