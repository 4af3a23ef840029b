use gdse::strmap::StrMap;
use gdse::tags::{grep, is_tag_record, merge};

fn pairs(v: &[(&str, &str)]) -> Vec<(String, String)> {
    v.iter().map(|(a, b)| (a.to_string(), b.to_string())).collect()
}

#[test]
fn tag_records_mention_tag() {
    assert!(is_tag_record("text_en/tags_items.txt"));
    assert!(is_tag_record("tagsgdx1.txt"));
    assert!(!is_tag_record("text_en/ui.txt"));
}

#[test]
fn later_files_override_earlier_ones() {
    let mut all: StrMap<String> = StrMap::new();
    merge(&mut all, &pairs(&[("tagA", "base A"), ("tagB", "base B")]));
    merge(&mut all, &pairs(&[("tagB", "gdx1 B"), ("tagC", "gdx1 C")]));
    assert_eq!(all.len(), 3);
    assert_eq!(all.get("tagA"), Some(&"base A".to_string()));
    assert_eq!(all.get("tagB"), Some(&"gdx1 B".to_string()));
    assert_eq!(all.get("tagC"), Some(&"gdx1 C".to_string()));
}

#[test]
fn last_entry_of_one_file_wins() {
    let mut all: StrMap<String> = StrMap::new();
    merge(&mut all, &pairs(&[("tagA", "first"), ("tagA", "second")]));
    assert_eq!(all.get("tagA"), Some(&"second".to_string()));
}

#[test]
fn grep_finds_texts_in_tag_order() {
    let mut all: StrMap<String> = StrMap::new();
    merge(
        &mut all,
        &pairs(&[("tagZ", "{^Y}Magic"), ("tagA", "{^G}Rare"), ("tagM", "plain"), ("tagB", "x{^Y}")]),
    );
    assert_eq!(grep(&all, "{^Y}"), pairs(&[("tagB", "x{^Y}"), ("tagZ", "{^Y}Magic")]));
    assert_eq!(grep(&all, "{^").len(), 3);
    assert!(grep(&all, "{^Q}").is_empty());
    assert_eq!(grep(&all, "").len(), 4);
}
