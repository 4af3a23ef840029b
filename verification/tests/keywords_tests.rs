use gdse::keywords::{Kind, Rarity};

const ALL: [Rarity; 6] = [
    Rarity::Broken,
    Rarity::Common,
    Rarity::Magical,
    Rarity::Rare,
    Rarity::Epic,
    Rarity::Legendary,
];

#[test]
fn kind_spellings() {
    assert_eq!(Kind::RegularItem.as_str(), "Regular Item");
    assert_eq!(Kind::MiItem.as_str(), "MI Item");
    assert_eq!(Kind::Affix.as_str(), "Affix");
}

#[test]
fn rarity_spellings() {
    let names: Vec<&str> = ALL.iter().map(|r| r.as_str()).collect();
    assert_eq!(names, vec!["Broken", "Common", "Magical", "Rare", "Epic", "Legendary"]);
}

#[test]
fn rarity_from_db_round_trip() {
    for r in ALL {
        assert_eq!(Rarity::from_db(r.as_str()), Some(r));
    }
}

#[test]
fn rarity_from_db_rejects_unmodeled() {
    assert_eq!(Rarity::from_db("Quest"), None);
    assert_eq!(Rarity::from_db("common"), None);
    assert_eq!(Rarity::from_db("Rare "), None);
    assert_eq!(Rarity::from_db(""), None);
}

#[test]
fn rarity_rank_ascends_with_tier() {
    for (i, r) in ALL.iter().enumerate() {
        assert_eq!(r.rank() as usize, i);
    }
    assert!(Rarity::Common < Rarity::Rare);
}
