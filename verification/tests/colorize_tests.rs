use gdse::colorize::{
    apply_color, color_code_chars, color_map, has_color_code, insert_after_bar_digit,
    insert_after_brackets, is_color_code_at, is_tag_text_record, recolor_file, recolor_record,
    replace_color_codes, split_eol,
};
use gdse::infer::TagInfo;
use gdse::keywords::{Kind, Rarity};
use gdse::property::DamageColors;
use gdse::strmap::StrMap;

fn cs(s: &str) -> Vec<char> {
    s.chars().collect()
}

fn st(v: &[char]) -> String {
    v.iter().collect()
}

#[test]
fn color_code_is_upper_cased() {
    assert_eq!(st(&color_code_chars('g')), "{^G}");
    assert_eq!(st(&color_code_chars('W')), "{^W}");
}

#[test]
fn plain_name_gets_code_prepended() {
    assert_eq!(apply_color("Sword", 'g'), "{^G}Sword");
    assert_eq!(apply_color("Sword of Fire", 'y'), "{^Y}Sword of Fire");
}

#[test]
fn letterless_value_is_unchanged() {
    assert_eq!(apply_color("123", 'g'), "123");
    assert_eq!(apply_color("", 'g'), "");
    assert_eq!(apply_color("- -", 'w'), "- -");
}

#[test]
fn end_placeholder_is_replaced_then_restored() {
    assert_eq!(apply_color("Foo{^E}bar", 'g'), "Foo{^G}bar{^E}");
    assert_eq!(apply_color("{^E}A{^E}B", 'w'), "{^W}A{^E}B{^E}");
}

#[test]
fn start_placeholder_is_replaced_then_restored() {
    assert_eq!(apply_color("{^S}Blade", 'y'), "{^Y}Blade{^S}");
}

#[test]
fn existing_codes_are_overwritten() {
    assert_eq!(apply_color("{^W}Sword of {^y}Fire", 'g'), "{^G}Sword of {^G}Fire");
}

#[test]
fn bracket_header_gets_code_after_it() {
    assert_eq!(apply_color("[Rare]Sword", 'g'), "[Rare]{^G}Sword");
    assert_eq!(apply_color("$[MI]Helm", 'l'), "$[MI]{^L}Helm");
    assert_eq!(apply_color("[A][B]x", 'g'), "[A]{^G}[B]{^G}x");
    assert_eq!(apply_color("[1]Sword", 'g'), "[1]Sword");
    assert_eq!(apply_color("[]Sword", 'g'), "[]Sword");
}

#[test]
fn dollar_marker_gets_code_after_it() {
    assert_eq!(apply_color("$Sword", 'g'), "${^G}Sword");
}

#[test]
fn bar_digit_prefix_gets_code_after_it() {
    assert_eq!(apply_color("|2Sword", 'g'), "|2{^G}Sword");
    assert_eq!(apply_color("|xSword", 'g'), "|xSword");
}

#[test]
fn inline_code_detection() {
    assert!(has_color_code(&cs("x{^a}y")));
    assert!(has_color_code(&cs("{^Z}")));
    assert!(!has_color_code(&cs("{^1}")));
    assert!(!has_color_code(&cs("{^A")));
    assert!(!has_color_code(&cs("")));
    assert!(is_color_code_at(&cs("ab{^C}"), 2));
    assert!(!is_color_code_at(&cs("ab{^C}"), 1));
    assert!(!is_color_code_at(&cs("ab{^C}"), 9));
}

#[test]
fn replace_codes_keeps_text_between() {
    assert_eq!(st(&replace_color_codes(&cs("A{^W}B{^y}C"), &cs("{^G}"))), "A{^G}B{^G}C");
    assert_eq!(st(&replace_color_codes(&cs("é{^W}ß"), &cs("{^G}"))), "é{^G}ß");
    assert_eq!(st(&replace_color_codes(&cs("{^W"), &cs("{^G}"))), "{^W");
}

#[test]
fn insert_after_each_bar_digit() {
    assert_eq!(st(&insert_after_bar_digit(&cs("|1a|2b"), &cs("{^G}"))), "|1{^G}a|2{^G}b");
    assert_eq!(st(&insert_after_bar_digit(&cs("a|"), &cs("{^G}"))), "a|");
}

#[test]
fn insert_after_each_letter_bracket() {
    assert_eq!(st(&insert_after_brackets(&cs("[Ab]x[c]y"), &cs("{^G}"))), "[Ab]{^G}x[c]{^G}y");
    assert_eq!(st(&insert_after_brackets(&cs("[a1]x"), &cs("{^G}"))), "[a1]x");
    assert_eq!(st(&insert_after_brackets(&cs("x]"), &cs("{^G}"))), "x]");
}

#[test]
fn split_eol_cases() {
    assert_eq!(split_eol("a=b\r\n"), ("a=b".to_string(), "\r\n".to_string()));
    assert_eq!(split_eol("a=b\n"), ("a=b".to_string(), "\n".to_string()));
    assert_eq!(split_eol("a=b"), ("a=b".to_string(), String::new()));
    assert_eq!(split_eol(""), (String::new(), String::new()));
}

fn colors() -> StrMap<char> {
    let mut m: StrMap<char> = StrMap::new();
    m.insert("tagA", 'g');
    m.insert("tagConversionX", 'o');
    m.insert("tagEmpty", 'w');
    m
}

#[test]
fn recolor_file_rewrites_only_colored_tags() {
    let text = "# comment\ntagA=Sword\r\ntagB=Shield\ntagConversionX=Fire\nno equals here\ntagA=Again";
    let (out, n) = recolor_file(text, &colors());
    assert_eq!(
        out,
        "# comment\ntagA={^G}Sword\r\ntagB=Shield\ntagConversionX={^O}Fire{^E}\nno equals here\ntagA={^G}Again"
    );
    assert_eq!(n, 3);
}

#[test]
fn recolor_file_reads_the_map_alone() {
    let m: StrMap<char> = StrMap::new();
    let text = "DamageFire=Fire Damage\nDefensePierce=Pierce\n";
    let (out, n) = recolor_file(text, &m);
    assert_eq!(out, text);
    assert_eq!(n, 0);
}

#[test]
fn recolor_file_unchanged_values_not_counted() {
    let text = "tagEmpty=\ntagEmpty=42\n";
    let (out, n) = recolor_file(text, &colors());
    assert_eq!(out, text);
    assert_eq!(n, 0);
}

#[test]
fn recolor_file_value_may_hold_equals() {
    let (out, n) = recolor_file("tagA=a=b\n", &colors());
    assert_eq!(out, "tagA={^G}a=b\n");
    assert_eq!(n, 1);
}

#[test]
fn recolor_file_empty_text() {
    assert_eq!(recolor_file("", &colors()), (String::new(), 0));
}

#[test]
fn tag_text_records_are_the_tag_txt_files() {
    assert!(is_tag_text_record("text_en/tags_items.txt"));
    assert!(!is_tag_text_record("text_en/tags_items.dat"));
    assert!(!is_tag_text_record("text_en/ui.txt"));
}

#[test]
fn recolor_record_cases() {
    assert_eq!(recolor_record("text_en/ui.txt", "tagA=Sword\n", &colors()), None);
    assert_eq!(recolor_record("text_en/tags_items.txt", "tagB=Shield\n", &colors()), None);
    assert_eq!(
        recolor_record("text_en/tags_items.txt", "tagA=Sword\ntagB=Shield\n", &colors()),
        Some(("tagA={^G}Sword\ntagB=Shield\n".to_string(), 1))
    );
}

fn infos() -> StrMap<TagInfo> {
    let mut infos: StrMap<TagInfo> = StrMap::new();
    infos.insert("tagA", TagInfo { kind: Kind::RegularItem, rarity: Rarity::Rare, affixable: true });
    infos.insert("tagB", TagInfo { kind: Kind::RegularItem, rarity: Rarity::Epic, affixable: false });
    infos.insert("tagC", TagInfo { kind: Kind::Affix, rarity: Rarity::Magical, affixable: false });
    infos.insert("DamageFire", TagInfo { kind: Kind::Affix, rarity: Rarity::Common, affixable: false });
    infos
}

fn texts() -> StrMap<String> {
    let mut t: StrMap<String> = StrMap::new();
    for tag in ["tagA", "DamageFire", "DefensePierce", "DefenseBleeding", "DamageReductionFire", "Physique"] {
        t.insert(tag, "text".to_string());
    }
    t
}

#[test]
fn color_map_keeps_colored_tags_only() {
    let empty: StrMap<String> = StrMap::new();
    let m = color_map(&infos(), &empty, DamageColors::Default);
    assert_eq!(m.len(), 3);
    assert_eq!(m.get("tagA"), Some(&'g'));
    assert_eq!(m.get("tagB"), None);
    assert_eq!(m.get("tagC"), Some(&'y'));
    assert_eq!(m.get("DamageFire"), Some(&'w'));
}

#[test]
fn color_map_adds_property_tags_which_win() {
    let m = color_map(&infos(), &texts(), DamageColors::Default);
    assert_eq!(m.len(), 5);
    assert_eq!(m.get("tagA"), Some(&'g'));
    assert_eq!(m.get("tagC"), Some(&'y'));
    assert_eq!(m.get("DamageFire"), Some(&'o'));
    assert_eq!(m.get("DefensePierce"), Some(&'f'));
    assert_eq!(m.get("DefenseBleeding"), Some(&'r'));
    assert_eq!(m.get("DamageReductionFire"), None);
    assert_eq!(m.get("Physique"), None);
}

#[test]
fn color_map_of_no_records_holds_property_tags() {
    let none: StrMap<TagInfo> = StrMap::new();
    let m = color_map(&none, &texts(), DamageColors::RainbowFilter);
    assert_eq!(m.len(), 3);
    assert_eq!(m.get("DefensePierce"), Some(&'r'));
    let (out, n) = recolor_file("DefensePierce=Pierce\nDamageFire=Fire\n", &m);
    assert_eq!(out, "DefensePierce={^R}Pierce\nDamageFire={^O}Fire\n");
    assert_eq!(n, 2);
}
