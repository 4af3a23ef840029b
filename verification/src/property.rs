//! Damage-type Property tag coloring, derived from the tag NAME alone.
//!
//! Grim Dawn's stat-label tags follow a rigid naming convention: a structural
//! prefix (`Damage`/`Defense`/`Retaliation`/`tagConversion`/`tagDamageBase`)
//! plus the damage element's base token (`Fire`, `Cold`, `Aether`, ...). The
//! over-time and acid variants reuse the base token in the name (`Burn` labels
//! are `DamageDuration*Fire*`, `Acid` is `*Poison*`, `Trauma` is `*Physical*`,
//! `Frostburn` is `*Cold*`, `Decay`/`Vitality` is `*Life*`), so this small
//! base vocabulary covers every damage-type label. Tag names are English keys
//! regardless of the localization, so the rule is language-independent.
//! Non-damage stat labels carry no element token and are left untouched.

use vstd::prelude::*;
use crate::text::{chars_of, contains, contains_chars, starts_with, starts_with_chars};

verus! {

/// The damage-color scheme. By default Pierce is pink, to tell it apart from
/// Bleeding's red; `RainbowFilter` is Rainbow Filter's exact scheme, in which
/// Pierce is red like Bleeding.
#[derive(Debug, Clone, Copy, PartialEq, Eq, Structural)]
pub enum DamageColors {
    Default,
    RainbowFilter,
}

/// The color of Pierce damage under `scheme`: pink by default, red in
/// Rainbow Filter's scheme.
pub open spec fn pierce_color(scheme: DamageColors) -> char {
    match scheme {
        DamageColors::Default => 'f',
        DamageColors::RainbowFilter => 'r',
    }
}

/// The tag starts with one of the structural prefixes that mark a damage /
/// resistance / retaliation / conversion stat label.
pub open spec fn has_property_prefix(tag: Seq<char>) -> bool {
    ||| starts_with(tag, "Damage"@)
    ||| starts_with(tag, "Defense"@)
    ||| starts_with(tag, "Retaliation"@)
    ||| starts_with(tag, "tagConversion"@)
    ||| starts_with(tag, "tagDamageBase"@)
}

/// A prefixed tag that is nevertheless not an element label: enemy-debuff
/// `*Reduction*` labels, the deprecated `DamageModifierPierceRatio*` stat,
/// resist-duration sentences, and Life Leech / %-Health stats that name the
/// `Life` token without being the Vitality damage type.
pub open spec fn is_excluded_property(tag: Seq<char>) -> bool {
    ||| contains(tag, "Reduction"@)
    ||| starts_with(tag, "DamageModifierPierceRatio"@)
    ||| (starts_with(tag, "Defense"@) && contains(tag, "Duration"@))
    ||| contains(tag, "Leech"@)
    ||| contains(tag, "Leach"@)
    ||| (contains(tag, "Percent"@) && contains(tag, "Life"@))
}

/// The color of the first element token (in this order) that the tag names,
/// under the damage-color scheme `scheme`.
pub open spec fn element_color(tag: Seq<char>, scheme: DamageColors) -> Option<char> {
    if contains(tag, "Physical"@) {
        Some('k')
    } else if contains(tag, "Pierce"@) {
        Some(pierce_color(scheme))
    } else if contains(tag, "Bleeding"@) {
        Some('r')
    } else if contains(tag, "Fire"@) {
        Some('o')
    } else if contains(tag, "Cold"@) {
        Some('c')
    } else if contains(tag, "Lightning"@) {
        Some('z')
    } else if contains(tag, "Poison"@) {
        Some('l')
    } else if contains(tag, "Vitality"@) {
        Some('m')
    } else if contains(tag, "Life"@) {
        Some('m')
    } else if contains(tag, "Aether"@) {
        Some('a')
    } else if contains(tag, "Chaos"@) {
        Some('p')
    } else if contains(tag, "Elemental"@) {
        Some('y')
    } else {
        None
    }
}

/// The color letter of a damage-type Property tag under the scheme `scheme`,
/// `None` for any other tag.
pub open spec fn property_color(tag: Seq<char>, scheme: DamageColors) -> Option<char> {
    if !has_property_prefix(tag) || is_excluded_property(tag) {
        None
    } else {
        element_color(tag, scheme)
    }
}

fn has(tag: &[char], lit: &str) -> (r: bool)
    ensures
        r == contains(tag@, lit@),
{
    contains_chars(tag, chars_of(lit).as_slice())
}

fn begins(tag: &[char], lit: &str) -> (r: bool)
    ensures
        r == starts_with(tag@, lit@),
{
    starts_with_chars(tag, chars_of(lit).as_slice())
}

/// `color_for` on the characters of a tag name.
pub fn color_for_chars(tag: &[char], scheme: DamageColors) -> (r: Option<char>)
    ensures
        r == property_color(tag@, scheme),
{
    let prefixed = begins(tag, "Damage") || begins(tag, "Defense") || begins(tag, "Retaliation")
        || begins(tag, "tagConversion") || begins(tag, "tagDamageBase");
    if !prefixed {
        return None;
    }
    if has(tag, "Reduction") {
        return None;
    }
    if begins(tag, "DamageModifierPierceRatio") {
        return None;
    }
    if begins(tag, "Defense") && has(tag, "Duration") {
        return None;
    }
    if has(tag, "Leech") || has(tag, "Leach") || (has(tag, "Percent") && has(tag, "Life")) {
        return None;
    }
    if has(tag, "Physical") {
        Some('k')
    } else if has(tag, "Pierce") {
        match scheme {
            DamageColors::Default => Some('f'),
            DamageColors::RainbowFilter => Some('r'),
        }
    } else if has(tag, "Bleeding") {
        Some('r')
    } else if has(tag, "Fire") {
        Some('o')
    } else if has(tag, "Cold") {
        Some('c')
    } else if has(tag, "Lightning") {
        Some('z')
    } else if has(tag, "Poison") {
        Some('l')
    } else if has(tag, "Vitality") {
        Some('m')
    } else if has(tag, "Life") {
        Some('m')
    } else if has(tag, "Aether") {
        Some('a')
    } else if has(tag, "Chaos") {
        Some('p')
    } else if has(tag, "Elemental") {
        Some('y')
    } else {
        None
    }
}

/// The color letter for a damage-type Property tag under the scheme
/// `scheme`, or `None` if `tag` isn't one.
pub fn color_for(tag: &str, scheme: DamageColors) -> (r: Option<char>)
    ensures
        r == property_color(tag@, scheme),
{
    color_for_chars(chars_of(tag).as_slice(), scheme)
}

/// A tag outside the five structural prefixes is never colored as a property.
pub proof fn lemma_unprefixed_uncolored(tag: Seq<char>, scheme: DamageColors)
    requires
        !has_property_prefix(tag),
    ensures
        property_color(tag, scheme) == None::<char>,
{
}

/// Enemy-debuff `*Reduction*` labels are never colored, whatever element they
/// name.
pub proof fn lemma_reduction_uncolored(tag: Seq<char>, scheme: DamageColors)
    requires
        contains(tag, "Reduction"@),
    ensures
        property_color(tag, scheme) == None::<char>,
{
}

/// A stat label that names no element token is left uncolored.
pub proof fn lemma_no_token_uncolored(tag: Seq<char>, scheme: DamageColors)
    requires
        element_color(tag, scheme) == None::<char>,
    ensures
        property_color(tag, scheme) == None::<char>,
{
}

/// By default Pierce is pink and Bleeding red, so the two read apart; in
/// Rainbow Filter's scheme both are red.
pub proof fn lemma_pierce_apart_from_bleeding(pierce: Seq<char>, bleeding: Seq<char>)
    requires
        property_color(pierce, DamageColors::Default) is Some,
        contains(pierce, "Pierce"@),
        !contains(pierce, "Physical"@),
        property_color(bleeding, DamageColors::Default) is Some,
        contains(bleeding, "Bleeding"@),
        !contains(bleeding, "Physical"@),
        !contains(bleeding, "Pierce"@),
    ensures
        property_color(pierce, DamageColors::Default) == Some('f'),
        property_color(bleeding, DamageColors::Default) == Some('r'),
        property_color(pierce, DamageColors::RainbowFilter) == Some('r'),
        property_color(bleeding, DamageColors::RainbowFilter) == Some('r'),
{
}

/// The two schemes differ on Pierce alone: wherever they disagree, the tag
/// is a Pierce label, pink by default and red in Rainbow Filter's scheme.
pub proof fn lemma_schemes_differ_on_pierce_only(tag: Seq<char>)
    requires
        property_color(tag, DamageColors::Default) != property_color(tag, DamageColors::RainbowFilter),
    ensures
        contains(tag, "Pierce"@),
        property_color(tag, DamageColors::Default) == Some('f'),
        property_color(tag, DamageColors::RainbowFilter) == Some('r'),
{
}

} // verus!
