use gdse::infer::TagInfo;
use gdse::keywords::{Kind, Rarity};
use gdse::strmap::StrMap;
use gdse::validate::{run, TruthTag};

fn truth_tag(kind: Option<&str>, class: Option<&str>) -> TruthTag {
    TruthTag { kind: kind.map(|s| s.to_string()), classification: class.map(|s| s.to_string()) }
}

fn info(kind: Kind, rarity: Rarity) -> TagInfo {
    TagInfo { kind, rarity, affixable: false }
}

#[test]
fn scores_against_ground_truth() {
    let mut truth: StrMap<TruthTag> = StrMap::new();
    truth.insert("tagA", truth_tag(Some("Regular Item"), Some("Rare")));
    truth.insert("tagB", truth_tag(Some("MI Item"), Some("Epic")));
    truth.insert("tagC", truth_tag(Some("Affix"), None));
    truth.insert("tagD", truth_tag(Some("Regular Item"), Some("Common")));
    truth.insert("tagE", truth_tag(Some("Skill"), None));
    truth.insert("tagF", truth_tag(None, Some("Rare")));
    let mut inferred: StrMap<TagInfo> = StrMap::new();
    inferred.insert("tagA", info(Kind::RegularItem, Rarity::Rare));
    inferred.insert("tagB", info(Kind::RegularItem, Rarity::Legendary));
    inferred.insert("tagC", info(Kind::Affix, Rarity::Magical));
    inferred.insert("tagE", info(Kind::Affix, Rarity::Rare));
    inferred.insert("tagX", info(Kind::Affix, Rarity::Common));

    let s = run(&inferred, &truth);
    assert_eq!(s.total_truth, 6);
    assert_eq!(s.in_scope, 4);
    assert_eq!(s.inferred, 5);
    assert_eq!(s.extra, 1);
    assert_eq!(s.covered, 3);
    assert_eq!(s.missing_by_type.len(), 1);
    assert_eq!(s.missing_by_type.get("Regular Item"), Some(&1));
    assert_eq!(s.agree_type, 2);
    assert_eq!(s.agree_class, 2);
    assert_eq!(s.agree_all, 2);
    assert_eq!(s.type_confusion.len(), 1);
    assert_eq!(s.type_confusion.get("MI Item").map(|m| m.len()), Some(1));
    assert_eq!(s.type_confusion.get("MI Item").and_then(|m| m.get("Regular Item")), Some(&1));
    assert_eq!(
        s.class_mismatches,
        vec![("tagB".to_string(), "Epic".to_string(), "Legendary".to_string())]
    );
}

#[test]
fn type_and_class_agree_independently() {
    let mut truth: StrMap<TruthTag> = StrMap::new();
    truth.insert("t1", truth_tag(Some("Affix"), Some("Rare")));
    truth.insert("t2", truth_tag(Some("Regular Item"), Some("Magical")));
    let mut inferred: StrMap<TagInfo> = StrMap::new();
    inferred.insert("t1", info(Kind::RegularItem, Rarity::Rare));
    inferred.insert("t2", info(Kind::RegularItem, Rarity::Common));
    let s = run(&inferred, &truth);
    assert_eq!((s.covered, s.agree_type, s.agree_class, s.agree_all), (2, 1, 1, 0));
    assert_eq!(s.type_confusion.get("Affix").and_then(|m| m.get("Regular Item")), Some(&1));
    assert_eq!(s.class_mismatches, vec![("t2".to_string(), "Magical".to_string(), "Common".to_string())]);
    assert_eq!(s.missing_by_type.len(), 0);
}

#[test]
fn mismatch_sample_keeps_first_fifteen() {
    let mut truth: StrMap<TruthTag> = StrMap::new();
    let mut inferred: StrMap<TagInfo> = StrMap::new();
    for i in 0..20 {
        let tag = format!("tag{:02}", i);
        truth.insert(&tag, truth_tag(Some("Regular Item"), Some("Rare")));
        inferred.insert(&tag, info(Kind::RegularItem, Rarity::Epic));
    }
    let s = run(&inferred, &truth);
    assert_eq!(s.covered, 20);
    assert_eq!(s.agree_class, 0);
    assert_eq!(s.agree_type, 20);
    assert_eq!(s.class_mismatches.len(), 15);
    assert_eq!(s.class_mismatches[0].0, "tag00");
    assert_eq!(s.class_mismatches[14].0, "tag14");
}

#[test]
fn empty_inputs_score_zero() {
    let truth: StrMap<TruthTag> = StrMap::new();
    let inferred: StrMap<TagInfo> = StrMap::new();
    let s = run(&inferred, &truth);
    assert_eq!((s.total_truth, s.in_scope, s.inferred, s.extra, s.covered), (0, 0, 0, 0, 0));
    assert!(s.class_mismatches.is_empty());
}
