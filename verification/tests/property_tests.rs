use gdse::property::{color_for, DamageColors};

fn default_color(tag: &str) -> Option<char> {
    color_for(tag, DamageColors::Default)
}

#[test]
fn element_tokens_color_by_element() {
    assert_eq!(default_color("DamagePhysical"), Some('k'));
    assert_eq!(default_color("DamagePierce"), Some('f'));
    assert_eq!(default_color("DamageBleeding"), Some('r'));
    assert_eq!(default_color("DamageFire"), Some('o'));
    assert_eq!(default_color("DefenseCold"), Some('c'));
    assert_eq!(default_color("RetaliationLightning"), Some('z'));
    assert_eq!(default_color("DamagePoison"), Some('l'));
    assert_eq!(default_color("DamageVitality"), Some('m'));
    assert_eq!(default_color("DamageLife"), Some('m'));
    assert_eq!(default_color("tagDamageBaseAether"), Some('a'));
    assert_eq!(default_color("DamageChaos"), Some('p'));
    assert_eq!(default_color("DefenseElemental"), Some('y'));
    assert_eq!(default_color("tagConversionFire"), Some('o'));
}

#[test]
fn first_token_in_vocabulary_order_wins() {
    // `Fire` precedes `Cold` in the vocabulary.
    assert_eq!(default_color("DamageColdToFire"), Some('o'));
    assert_eq!(default_color("DamagePhysicalFire"), Some('k'));
}

#[test]
fn unprefixed_tags_are_not_properties() {
    assert_eq!(default_color("Physique"), None);
    assert_eq!(default_color("tagFireSword"), None);
    assert_eq!(default_color(""), None);
}

#[test]
fn reduction_labels_are_skipped() {
    assert_eq!(default_color("DamageReductionFire"), None);
    assert_eq!(default_color("DefenseReductionCold"), None);
}

#[test]
fn deprecated_pierce_ratio_is_skipped_but_live_one_kept() {
    assert_eq!(default_color("DamageModifierPierceRatio"), None);
    assert_eq!(default_color("DamageModifierPierceRatioR"), None);
    assert_eq!(default_color("DamageBasePierceRatio"), Some('f'));
}

#[test]
fn resist_duration_labels_are_skipped() {
    assert_eq!(default_color("DefenseFireDuration"), None);
    assert_eq!(default_color("DamageDurationFire"), Some('o'));
}

#[test]
fn leech_and_health_labels_are_skipped() {
    assert_eq!(default_color("DamageLifeLeech"), None);
    assert_eq!(default_color("DamageLifeLeach"), None);
    assert_eq!(default_color("DefensePercentLife"), None);
}

#[test]
fn labels_without_element_are_left_alone() {
    assert_eq!(default_color("DamageSpeed"), None);
    assert_eq!(default_color("DefenseArmor"), None);
}

#[test]
fn pierce_is_pink_apart_from_bleeding_by_default() {
    assert_eq!(default_color("DefensePierce"), Some('f'));
    assert_eq!(default_color("DefenseBleeding"), Some('r'));
    assert_ne!(default_color("DefensePierce"), default_color("DefenseBleeding"));
}

#[test]
fn rainbow_filter_scheme_paints_pierce_red() {
    let rainbow = |t: &str| color_for(t, DamageColors::RainbowFilter);
    assert_eq!(rainbow("DefensePierce"), Some('r'));
    assert_eq!(rainbow("DamageBasePierceRatio"), Some('r'));
    assert_eq!(rainbow("DefenseBleeding"), Some('r'));
    assert_eq!(rainbow("DamageFire"), Some('o'));
    assert_eq!(rainbow("DamageReductionPierce"), None);
    assert_eq!(rainbow("Physique"), None);
}
