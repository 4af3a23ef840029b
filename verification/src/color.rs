//! The color model, after WanezGD's FilterGroup + Library concept, trimmed to
//! item & affix rarity and the distinct Rare-MI palette.
//!
//! A `Rule` is a match over a tag's inferred Kind + Rarity plus the color
//! letter to assign. The library is an ordered list of rules; the first one a
//! tag matches wins, so it encodes the color hierarchy. An empty `rarities`
//! list is a wildcard; `kinds` is always required (a tag with no matching Kind
//! never matches, mirroring WanezGD's required Type).
//!
//! Colors are the single-letter `{^X}` codes from WanezGD's
//! gd-colorcodes.json. Faction / Set / Skill / Quality / Style get no special
//! cue: items take their rarity color regardless, matching Full Rainbow.

use vstd::prelude::*;
use crate::infer::TagInfo;
use crate::keywords::{Kind, Rarity};

verus! {

struct Rule {
    kinds: Vec<Kind>,
    rarities: Vec<Rarity>,
    color: char,
}

/// Whether a rule over `kinds` and `rarities` matches `info`.
pub open spec fn rule_matches(kinds: Seq<Kind>, rarities: Seq<Rarity>, info: TagInfo) -> bool {
    kinds.contains(info.kind) && (rarities.len() == 0 || rarities.contains(info.rarity))
}

impl Rule {
    spec fn spec_matches(&self, info: TagInfo) -> bool {
        rule_matches(self.kinds@, self.rarities@, info)
    }

    fn matches(&self, info: &TagInfo) -> (r: bool)
        ensures
            r == self.spec_matches(*info),
    {
        contains_kind(&self.kinds, info.kind) && (self.rarities.len() == 0 || contains_rarity(
            &self.rarities,
            info.rarity,
        ))
    }
}

fn contains_kind(v: &Vec<Kind>, k: Kind) -> (r: bool)
    ensures
        r == v@.contains(k),
{
    let mut i: usize = 0;
    while i < v.len()
        invariant
            i <= v.len(),
            forall|j: int| 0 <= j < i ==> v@[j] != k,
        decreases v.len() - i,
    {
        if v[i] == k {
            assert(v@[i as int] == k);
            return true;
        }
        i = i + 1;
    }
    false
}

fn contains_rarity(v: &Vec<Rarity>, r: Rarity) -> (b: bool)
    ensures
        b == v@.contains(r),
{
    let mut i: usize = 0;
    while i < v.len()
        invariant
            i <= v.len(),
            forall|j: int| 0 <= j < i ==> v@[j] != r,
        decreases v.len() - i,
    {
        if v[i] == r {
            assert(v@[i as int] == r);
            return true;
        }
        i = i + 1;
    }
    false
}

/// The kinds the item/affix rules cover.
spec fn item_kinds() -> Seq<Kind> {
    seq![Kind::RegularItem, Kind::Affix, Kind::MiItem]
}

fn items() -> (v: Vec<Kind>)
    ensures
        v@ == item_kinds(),
{
    let v = vec![Kind::RegularItem, Kind::Affix, Kind::MiItem];
    assert(v@ =~= item_kinds());
    v
}

/// A one-element rarity list.
fn rarity_slice(rarity: Rarity) -> (v: Vec<Rarity>)
    ensures
        v@ == seq![rarity],
{
    let v = vec![rarity];
    assert(v@ =~= seq![rarity]);
    v
}

/// A rule matching `kinds` of a single rarity.
fn use_rarity(kinds: Vec<Kind>, rarity: Rarity, color: char) -> (r: Rule)
    ensures
        r.kinds@ == kinds@,
        r.rarities@ == seq![rarity],
        r.color == color,
{
    Rule { kinds, rarities: rarity_slice(rarity), color }
}

/// The active preset, ordered first-match-wins, seeded from Full Rainbow's
/// `fullRainbow` library. Only rarities that can carry a name-altering affix
/// appear: Common=w, Magical=y, Rare=g. Epic/Legendary are absent on purpose:
/// those names never take a prefix/suffix, so they keep the engine's native
/// rarity color. The one MI distinction is Rare: a Rare MI reads olive
/// instead of the regular-Rare green, so the Rare-MI rule comes first.
fn library() -> (lib: Vec<Rule>)
    ensures
        lib@.len() == 4,
        lib@[0].kinds@ == seq![Kind::MiItem],
        lib@[0].rarities@ == seq![Rarity::Rare],
        lib@[0].color == 'l',
        lib@[1].kinds@ == item_kinds(),
        lib@[1].rarities@ == seq![Rarity::Common],
        lib@[1].color == 'w',
        lib@[2].kinds@ == item_kinds(),
        lib@[2].rarities@ == seq![Rarity::Magical],
        lib@[2].color == 'y',
        lib@[3].kinds@ == item_kinds(),
        lib@[3].rarities@ == seq![Rarity::Rare],
        lib@[3].color == 'g',
{
    let mi = vec![Kind::MiItem];
    assert(mi@ =~= seq![Kind::MiItem]);
    vec![
        use_rarity(mi, Rarity::Rare, 'l'),
        use_rarity(items(), Rarity::Common, 'w'),
        use_rarity(items(), Rarity::Magical, 'y'),
        use_rarity(items(), Rarity::Rare, 'g'),
    ]
}

/// The color letter a tag's keywords call for. Base item names are colored
/// only when they can take a name-altering affix; affix tags are always
/// colored directly. Common is white, Magical yellow, Rare green, and a Rare
/// MI olive; no other rarity is colored.
pub open spec fn library_color(info: TagInfo) -> Option<char> {
    if (info.kind == Kind::RegularItem || info.kind == Kind::MiItem) && !info.affixable {
        None
    } else if info.kind == Kind::MiItem && info.rarity == Rarity::Rare {
        Some('l')
    } else if info.rarity == Rarity::Common {
        Some('w')
    } else if info.rarity == Rarity::Magical {
        Some('y')
    } else if info.rarity == Rarity::Rare {
        Some('g')
    } else {
        None
    }
}

/// The color letter to bake into a tag's value, or `None` if the tag is left
/// untouched.
pub fn color_for(info: &TagInfo) -> (r: Option<char>)
    ensures
        r == library_color(*info),
{
    if (info.kind == Kind::RegularItem || info.kind == Kind::MiItem) && !info.affixable {
        return None;
    }
    let lib = library();
    assert(item_kinds().contains(info.kind)) by {
        match info.kind {
            Kind::RegularItem => assert(item_kinds()[0] == info.kind),
            Kind::Affix => assert(item_kinds()[1] == info.kind),
            Kind::MiItem => assert(item_kinds()[2] == info.kind),
        }
    }
    assert(seq![Kind::MiItem].contains(info.kind) == (info.kind == Kind::MiItem)) by {
        if info.kind == Kind::MiItem {
            assert(seq![Kind::MiItem][0] == info.kind);
        }
    }
    assert(forall|r: Rarity| #[trigger] seq![r].contains(info.rarity) == (r == info.rarity)) by {
        assert forall|r: Rarity| #[trigger] seq![r].contains(info.rarity) == (r == info.rarity) by {
            if r == info.rarity {
                assert(seq![r][0] == info.rarity);
            }
        }
    }
    let mut i: usize = 0;
    while i < lib.len()
        invariant
            i <= lib.len(),
            lib@.len() == 4,
            lib@[0].kinds@ == seq![Kind::MiItem],
            lib@[0].rarities@ == seq![Rarity::Rare],
            lib@[0].color == 'l',
            lib@[1].kinds@ == item_kinds(),
            lib@[1].rarities@ == seq![Rarity::Common],
            lib@[1].color == 'w',
            lib@[2].kinds@ == item_kinds(),
            lib@[2].rarities@ == seq![Rarity::Magical],
            lib@[2].color == 'y',
            lib@[3].kinds@ == item_kinds(),
            lib@[3].rarities@ == seq![Rarity::Rare],
            lib@[3].color == 'g',
            item_kinds().contains(info.kind),
            seq![Kind::MiItem].contains(info.kind) == (info.kind == Kind::MiItem),
            forall|r: Rarity| #[trigger] seq![r].contains(info.rarity) == (r == info.rarity),
            !((info.kind == Kind::RegularItem || info.kind == Kind::MiItem) && !info.affixable),
            forall|j: int| 0 <= j < i ==> !(#[trigger] lib@[j]).spec_matches(*info),
        decreases lib.len() - i,
    {
        if lib[i].matches(info) {
            proof {
                assert(lib@[0].spec_matches(*info) == (info.kind == Kind::MiItem && info.rarity
                    == Rarity::Rare));
                assert(lib@[1].spec_matches(*info) == (info.rarity == Rarity::Common));
                assert(lib@[2].spec_matches(*info) == (info.rarity == Rarity::Magical));
                assert(lib@[3].spec_matches(*info) == (info.rarity == Rarity::Rare));
                if i > 0 {
                    assert(!lib@[0].spec_matches(*info));
                }
                if i > 1 {
                    assert(!lib@[1].spec_matches(*info));
                }
                if i > 2 {
                    assert(!lib@[2].spec_matches(*info));
                }
            }
            return Some(lib[i].color);
        }
        i = i + 1;
    }
    None
}

/// Epic, Legendary and Broken tags are never colored: those names never take
/// a prefix/suffix, so they keep the engine's native rarity color.
pub proof fn lemma_high_tiers_uncolored(info: TagInfo)
    requires
        info.rarity == Rarity::Epic || info.rarity == Rarity::Legendary || info.rarity
            == Rarity::Broken,
    ensures
        library_color(info) == None::<char>,
{
}

/// A base item name that cannot take an affix is never colored.
pub proof fn lemma_unaffixable_items_uncolored(info: TagInfo)
    requires
        info.kind == Kind::RegularItem || info.kind == Kind::MiItem,
        !info.affixable,
    ensures
        library_color(info) == None::<char>,
{
}

/// Affix tags of the affixable tiers are always colored, by rarity.
pub proof fn lemma_affix_colored_by_rarity(info: TagInfo)
    requires
        info.kind == Kind::Affix,
    ensures
        library_color(info) == (if info.rarity == Rarity::Common {
            Some('w')
        } else if info.rarity == Rarity::Magical {
            Some('y')
        } else if info.rarity == Rarity::Rare {
            Some('g')
        } else {
            None
        }),
{
}

} // verus!
