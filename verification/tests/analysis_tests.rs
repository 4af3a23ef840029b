use gdse::conflicts::{mode, run as conflicts_run};
use gdse::db::{Record, Value};
use gdse::loot_refs::run as loot_refs_run;
use gdse::mi_signal::{refs, run as mi_signal_run};
use gdse::strmap::StrMap;

fn rec(id: &str, fields: &[(&str, &str)]) -> Record {
    let mut r = Record::new(id);
    for (k, v) in fields {
        r.set_field(k, Value::Str(v.to_string()));
    }
    r
}

fn rated(id: &str, tag: &str, rarity: &str) -> Record {
    rec(id, &[("itemNameTag", tag), ("itemClassification", rarity)])
}

#[test]
fn conflicts_mode_prefers_greatest_on_tie() {
    let mut c: StrMap<usize> = StrMap::new();
    assert_eq!(mode(&c), None);
    c.insert("Epic", 2);
    c.insert("Rare", 2);
    c.insert("Common", 1);
    assert_eq!(mode(&c), Some("Rare".to_string()));
    c.insert("Common", 3);
    assert_eq!(mode(&c), Some("Common".to_string()));
}

#[test]
fn conflicts_report() {
    let rs = vec![
        rated("records/items/gear/a.dbr", "tagA", "Rare"),
        rated("records/items/gdx3/awakened/a.dbr", "tagA", "Legendary"),
        rated("records/items/gear/b1.dbr", "tagB", "Epic"),
        rated("records/items/gear/b2.dbr", "tagB", "Rare"),
        rated("records/items/gdx3/awakened/c.dbr", "tagC", "Epic"),
        rated("records/items/gear/d.dbr", "tagD", "Legendary"),
        rated("records/items/gdx3/awakened/d.dbr", "tagD", "Legendary"),
        rated("records/items/gdx3/upgraded/e.dbr", "tagE", "Epic"),
        rec("records/items/gear/notag.dbr", &[("itemClassification", "Rare")]),
        rec("records/items/gear/norarity.dbr", &[("itemNameTag", "tagF")]),
        rated("records/creatures/x.dbr", "tagX", "Rare"),
    ];
    let r = conflicts_run(&rs);
    assert_eq!(r.total, 5);
    assert_eq!(r.with_awakened, 3);
    assert_eq!(r.base_ambiguous, 1);
    assert_eq!(r.awakened_non_legendary, vec!["tagC".to_string()]);
    assert_eq!(
        r.examples,
        vec![
            ("tagA".to_string(), "Rare".to_string(), "Legendary".to_string()),
            ("tagC".to_string(), "(none)".to_string(), "Epic".to_string()),
        ]
    );
    assert_eq!(r.pair_counts.len(), 3);
    assert_eq!(r.pair_counts.get("Rare").and_then(|m| m.get("Legendary")), Some(&1));
    assert_eq!(r.pair_counts.get("(none)").and_then(|m| m.get("Epic")), Some(&1));
    assert_eq!(r.pair_counts.get("Legendary").and_then(|m| m.get("Legendary")), Some(&1));
}

#[test]
fn loot_refs_rows() {
    let rs = vec![
        rec("records/items/a.dbr", &[("itemNameTag", "tagA")]),
        rec("records/items/b.dbr", &[("itemNameTag", "tagB")]),
        rec("records/items/b2.dbr", &[("itemNameTag", "tagB")]),
        rec(
            "records/items/loottables/t1.dbr",
            &[
                ("lootName1", "records/items/a.dbr"),
                ("lootName2", "records/items/b.dbr"),
                ("prefixTableName1", "records/items/lootaffixes/p.dbr"),
            ],
        ),
        rec(
            "records/items/loottables/t2.dbr",
            &[
                ("lootName1", "records/items/b.dbr"),
                ("lootName2", "records/items/b2.dbr"),
                ("suffixTableName1", ""),
            ],
        ),
        rec("records/items/loottables/t3.dbr", &[("lootName1", "records/items/missing.dbr")]),
    ];
    let out = loot_refs_run(&rs);
    assert_eq!(out.len(), 2);
    assert_eq!(out[0].tag, "tagA");
    assert_eq!((out[0].min_table_tags, out[0].table_count, out[0].has_affix_table), (2, 1, true));
    assert_eq!(out[1].tag, "tagB");
    assert_eq!((out[1].min_table_tags, out[1].table_count, out[1].has_affix_table), (1, 2, true));
}

#[test]
fn loot_refs_table_without_affix_or_tags() {
    let rs = vec![
        rec("records/items/c.dbr", &[("itemNameTag", "tagC")]),
        rec("records/items/loottables/t.dbr", &[("lootName1", "records/items/c.dbr")]),
        rec("records/items/loottables/empty.dbr", &[("prefixTableName", "x")]),
    ];
    let out = loot_refs_run(&rs);
    assert_eq!(out.len(), 1);
    assert_eq!((out[0].min_table_tags, out[0].table_count, out[0].has_affix_table), (1, 1, false));
}

fn mi_records() -> Vec<Record> {
    let mut a = rec("records/items/gear/a.dbr", &[("itemNameTag", "tagA")]);
    a.set_field("itemLevel", Value::Int(10));
    let mut a2 = rec("records/items/gear/a2.dbr", &[("itemNameTag", "tagA")]);
    a2.set_field("itemLevel", Value::Int(30));
    let b = rec("records/items/gear/b.dbr", &[("itemNameTag", "tagB")]);
    let mut c = rec("records/items/gear/c.dbr", &[("itemNameTag", "tagC")]);
    c.set_field("itemLevel", Value::Int(5));
    let mut d = rec("records/items/gear/d.dbr", &[("itemNameTag", "tagD")]);
    d.set_field("itemLevel", Value::Int(7));
    vec![
        a,
        a2,
        b,
        c,
        d,
        rec(
            "records/items/loottables/top.dbr",
            &[("lootName1", "records/items/loottables/sub.dbr"), ("lootName2", "records/items/gear/b.dbr")],
        ),
        rec("records/items/loottables/sub.dbr", &[("lootName1", "records/items/gear/a.dbr")]),
        rec(
            "records/items/loottables/tdyn_x.dbr",
            &[("lootName1", "records/items/gear/c.dbr"), ("lootName2", "records/items/gear/d.dbr")],
        ),
        rec(
            "records/creatures/m.dbr",
            &[("lootTable", "records/items/loottables/top.dbr"), ("equip", "records/items/gear/d.dbr")],
        ),
    ]
}

#[test]
fn mi_signal_rows() {
    let out = mi_signal_run(&mi_records());
    let rows: Vec<(String, bool, bool, bool, bool, u32)> = out
        .iter()
        .map(|s| (s.tag.clone(), s.dedicated, s.via_table, s.via_equip, s.via_tdyn, s.max_level))
        .collect();
    assert_eq!(
        rows,
        vec![
            ("tagA".to_string(), true, true, false, false, 30),
            ("tagB".to_string(), true, true, false, false, 0),
            ("tagC".to_string(), false, false, false, true, 5),
            ("tagD".to_string(), false, false, true, true, 7),
        ]
    );
}

#[test]
fn mi_signal_table_cycle_terminates() {
    let rs = vec![
        rec("records/items/gear/z.dbr", &[("itemNameTag", "tagZ")]),
        rec("records/items/loottables/t1.dbr", &[("lootName1", "records/items/loottables/t2.dbr")]),
        rec(
            "records/items/loottables/t2.dbr",
            &[("lootName1", "records/items/loottables/t1.dbr"), ("lootName2", "records/items/gear/z.dbr")],
        ),
        rec("records/creatures/c.dbr", &[("loot", "records/items/loottables/t1.dbr")]),
    ];
    let out = mi_signal_run(&rs);
    assert_eq!(out.len(), 1);
    assert_eq!(out[0].tag, "tagZ");
    assert!(out[0].via_table);
    assert!(out[0].dedicated);
    assert!(!out[0].via_equip);
}

#[test]
fn mi_signal_unreached_table_is_no_drop() {
    let rs = vec![
        rec("records/items/gear/z.dbr", &[("itemNameTag", "tagZ")]),
        rec("records/items/loottables/lonely.dbr", &[("lootName1", "records/items/gear/z.dbr")]),
    ];
    let out = mi_signal_run(&rs);
    assert_eq!(out.len(), 1);
    assert!(!out[0].via_table);
    assert!(out[0].dedicated);
}

#[test]
fn refs_lists_matching_string_fields() {
    let out = refs(&mi_records(), "gear/d");
    assert_eq!(
        out,
        vec![
            (
                "records/items/loottables/tdyn_x.dbr".to_string(),
                "lootName2".to_string(),
                "records/items/gear/d.dbr".to_string(),
            ),
            ("records/creatures/m.dbr".to_string(), "equip".to_string(), "records/items/gear/d.dbr".to_string()),
        ]
    );
    assert!(refs(&mi_records(), "nowhere").is_empty());
}
