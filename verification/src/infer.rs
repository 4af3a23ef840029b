//! Inferring WanezGD-style tag keywords from the Grim Dawn `.arz` database.
//!
//! This replaces WanezGD_Tools' hand-maintained `gd-filter.json` `Tags` map.
//! For each tag we infer a `Kind` (Item or Affix) and a `Rarity`
//! (`itemClassification`); when a generic base name is shared across items of
//! different rarities, the tag's rarity is the most-frequent (mode) one.

use vstd::prelude::*;
use crate::db::{field_str, items_prefix, Record};
use crate::keywords::{rarity_from_name, rarity_rank, Kind, Rarity};
use crate::strmap::StrMap;
use crate::text::{chars_of, push_all, starts_with, starts_with_chars};

verus! {

/// The inferred keywords for a single tag.
#[derive(Debug, Clone, Copy, PartialEq, Eq, Structural)]
pub struct TagInfo {
    pub kind: Kind,
    pub rarity: Rarity,
    /// Whether this item can be displayed with a name-altering prefix/suffix
    /// affix: the only reason to bake a color code into a base name (to stop
    /// the affix's color bleeding into it). True only for equippable, non-
    /// faction gear of rarity Common/Magical/Rare; Epic/Legendary uniques,
    /// relics, components and faction gear never roll a name affix.
    pub affixable: bool,
}

/// How many records of a tag carry each rarity.
#[derive(Debug, Clone, Copy)]
pub struct RarityCounts {
    pub broken: usize,
    pub common: usize,
    pub magical: usize,
    pub rare: usize,
    pub epic: usize,
    pub legendary: usize,
}

pub open spec fn count_of(c: RarityCounts, r: Rarity) -> nat {
    match r {
        Rarity::Broken => c.broken as nat,
        Rarity::Common => c.common as nat,
        Rarity::Magical => c.magical as nat,
        Rarity::Rare => c.rare as nat,
        Rarity::Epic => c.epic as nat,
        Rarity::Legendary => c.legendary as nat,
    }
}

/// Every count of `c` is at most `n`.
pub open spec fn counts_at_most(c: RarityCounts, n: nat) -> bool {
    forall|r: Rarity| count_of(c, r) <= n
}

/// `c` with one more record of rarity `r`.
pub open spec fn one_more(c: RarityCounts, r: Rarity) -> RarityCounts {
    match r {
        Rarity::Broken => RarityCounts { broken: (c.broken + 1) as usize, ..c },
        Rarity::Common => RarityCounts { common: (c.common + 1) as usize, ..c },
        Rarity::Magical => RarityCounts { magical: (c.magical + 1) as usize, ..c },
        Rarity::Rare => RarityCounts { rare: (c.rare + 1) as usize, ..c },
        Rarity::Epic => RarityCounts { epic: (c.epic + 1) as usize, ..c },
        Rarity::Legendary => RarityCounts { legendary: (c.legendary + 1) as usize, ..c },
    }
}

pub open spec fn no_counts() -> RarityCounts {
    RarityCounts { broken: 0, common: 0, magical: 0, rare: 0, epic: 0, legendary: 0 }
}

/// `r` is the most frequent rarity of `c`, the lowest such on a tie.
pub open spec fn is_mode(c: RarityCounts, r: Rarity) -> bool {
    &&& count_of(c, r) > 0
    &&& forall|q: Rarity|
        #![trigger count_of(c, q)]
        count_of(c, q) <= count_of(c, r) && (count_of(c, q) == count_of(c, r) ==> rarity_rank(r)
            <= rarity_rank(q))
}

/// The mode rarity of `c`, `None` when no rarity was counted.
pub open spec fn mode_of(c: RarityCounts) -> Option<Rarity> {
    if exists|r: Rarity| #[trigger] count_of(c, r) > 0 {
        Some(choose|r: Rarity| is_mode(c, r))
    } else {
        None
    }
}

/// There is at most one mode.
pub proof fn lemma_mode_unique(c: RarityCounts, a: Rarity, b: Rarity)
    requires
        is_mode(c, a),
        is_mode(c, b),
    ensures
        a == b,
{
    assert(count_of(c, a) <= count_of(c, b));
    assert(count_of(c, b) <= count_of(c, a));
}

impl RarityCounts {
    pub fn new() -> (c: RarityCounts)
        ensures
            c == no_counts(),
    {
        RarityCounts { broken: 0, common: 0, magical: 0, rare: 0, epic: 0, legendary: 0 }
    }

    pub fn count(&self, r: Rarity) -> (n: usize)
        ensures
            n == count_of(*self, r),
    {
        match r {
            Rarity::Broken => self.broken,
            Rarity::Common => self.common,
            Rarity::Magical => self.magical,
            Rarity::Rare => self.rare,
            Rarity::Epic => self.epic,
            Rarity::Legendary => self.legendary,
        }
    }

    /// Counts one more record of rarity `r`.
    pub fn add_one(&mut self, r: Rarity)
        requires
            count_of(*old(self), r) < usize::MAX,
        ensures
            *final(self) == one_more(*old(self), r),
    {
        match r {
            Rarity::Broken => self.broken = self.broken + 1,
            Rarity::Common => self.common = self.common + 1,
            Rarity::Magical => self.magical = self.magical + 1,
            Rarity::Rare => self.rare = self.rare + 1,
            Rarity::Epic => self.epic = self.epic + 1,
            Rarity::Legendary => self.legendary = self.legendary + 1,
        }
    }
}

/// The most frequent rarity in `counts`; ties resolve to the lower tier.
pub fn mode_rarity(counts: &RarityCounts) -> (r: Option<Rarity>)
    ensures
        r == mode_of(*counts),
        match r {
            Some(m) => is_mode(*counts, m),
            None => forall|q: Rarity| count_of(*counts, q) == 0,
        },
{
    let order = [
        Rarity::Broken,
        Rarity::Common,
        Rarity::Magical,
        Rarity::Rare,
        Rarity::Epic,
        Rarity::Legendary,
    ];
    let mut best: Option<Rarity> = None;
    let mut best_n: usize = 0;
    let mut i: usize = 0;
    while i < 6
        invariant
            i <= 6,
            order@ == seq![
                Rarity::Broken,
                Rarity::Common,
                Rarity::Magical,
                Rarity::Rare,
                Rarity::Epic,
                Rarity::Legendary,
            ],
            forall|k: int| 0 <= k < 6 ==> rarity_rank(#[trigger] order@[k]) == k,
            match best {
                None => best_n == 0,
                Some(b) => best_n == count_of(*counts, b) && best_n > 0 && rarity_rank(b) < i,
            },
            forall|k: int|
                0 <= k < i ==> count_of(*counts, #[trigger] order@[k]) <= best_n && (match best {
                    Some(b) => count_of(*counts, order@[k]) == best_n ==> rarity_rank(b) <= k,
                    None => true,
                }),
        decreases 6 - i,
    {
        let r = order[i];
        let n = counts.count(r);
        if n > best_n {
            best = Some(r);
            best_n = n;
        }
        i = i + 1;
    }
    proof {
        assert forall|q: Rarity| #[trigger] count_of(*counts, q) <= best_n by {
            assert(order@[rarity_rank(q) as int] == q);
        }
        match best {
            Some(b) => {
                assert forall|q: Rarity|
                    #![trigger count_of(*counts, q)]
                    count_of(*counts, q) <= count_of(*counts, b) && (count_of(*counts, q)
                        == count_of(*counts, b) ==> rarity_rank(b) <= rarity_rank(q)) by {
                    assert(order@[rarity_rank(q) as int] == q);
                }
                assert(is_mode(*counts, b));
                let m = choose|r: Rarity| is_mode(*counts, r);
                lemma_mode_unique(*counts, m, b);
            },
            None => {
                assert(!exists|r: Rarity| #[trigger] count_of(*counts, r) > 0);
            },
        }
    }
    best
}

/// Affix records live under these paths.
pub open spec fn prefix_path() -> Seq<char> {
    "records/items/lootaffixes/prefix/"@
}

pub open spec fn suffix_path() -> Seq<char> {
    "records/items/lootaffixes/suffix/"@
}

/// Faction gear lives under this path.
pub open spec fn faction_prefix() -> Seq<char> {
    "records/items/faction/"@
}

/// The rarity field of a record, when it names a rarity we model.
pub open spec fn record_rarity(r: Record) -> Option<Rarity> {
    match field_str(r, "itemClassification"@) {
        Some(s) => rarity_from_name(s),
        None => None,
    }
}

/// A `Class` value of equippable gear (weapons, shields/offhands, armor,
/// jewelry): the items that can roll a name-altering prefix/suffix.
pub open spec fn is_gear_class(class: Option<Seq<char>>) -> bool {
    match class {
        Some(c) => starts_with(c, "Weapon"@) || starts_with(c, "Armor"@),
        None => false,
    }
}

/// The state the inference accumulates over the records.
pub struct InferScan {
    /// Affix tags and their keywords.
    pub affixes: Map<Seq<char>, TagInfo>,
    /// Per item tag: how many records carry each rarity.
    pub counts: Map<Seq<char>, RarityCounts>,
    /// Item tags with a record under `records/items/faction/`.
    pub faction: Set<Seq<char>>,
    /// Item tags with an equippable-gear record.
    pub gear: Set<Seq<char>>,
}

/// An affix record labels its `lootRandomizerName` tag with its rarity.
pub open spec fn classify_affix_spec(tags: Map<Seq<char>, TagInfo>, r: Record) -> Map<
    Seq<char>,
    TagInfo,
> {
    match (field_str(r, "lootRandomizerName"@), record_rarity(r)) {
        (Some(tag), Some(rarity)) => if tag.len() == 0 {
            tags
        } else {
            tags.insert(tag, TagInfo { kind: Kind::Affix, rarity, affixable: false })
        },
        _ => tags,
    }
}

/// An item record adds its `itemNameTag` to the gear set (equippable gear),
/// counts its rarity for the tag, and (when it has a rarity) adds the tag to
/// the faction set if it is faction gear.
pub open spec fn accumulate_item_spec(s: InferScan, r: Record) -> InferScan {
    match field_str(r, "itemNameTag"@) {
        None => s,
        Some(tag) => if tag.len() == 0 {
            s
        } else {
            let gear = if is_gear_class(field_str(r, "Class"@)) {
                s.gear.insert(tag)
            } else {
                s.gear
            };
            match record_rarity(r) {
                None => InferScan { gear, ..s },
                Some(rarity) => {
                    let before = if s.counts.contains_key(tag) {
                        s.counts[tag]
                    } else {
                        no_counts()
                    };
                    InferScan {
                        counts: s.counts.insert(tag, one_more(before, rarity)),
                        faction: if starts_with(r.id@, faction_prefix()) {
                            s.faction.insert(tag)
                        } else {
                            s.faction
                        },
                        gear,
                        ..s
                    }
                },
            }
        },
    }
}

/// One record's contribution: records outside `records/items/` are ignored,
/// affix records are classified, every other item record is accumulated.
pub open spec fn scan_step(s: InferScan, r: Record) -> InferScan {
    if !starts_with(r.id@, items_prefix()) {
        s
    } else if starts_with(r.id@, prefix_path()) || starts_with(r.id@, suffix_path()) {
        InferScan { affixes: classify_affix_spec(s.affixes, r), ..s }
    } else {
        accumulate_item_spec(s, r)
    }
}

pub open spec fn empty_scan() -> InferScan {
    InferScan {
        affixes: Map::empty(),
        counts: Map::empty(),
        faction: Set::empty(),
        gear: Set::empty(),
    }
}

/// The state after reading `rs` in order.
pub open spec fn scan(rs: Seq<Record>) -> InferScan
    decreases rs.len(),
{
    if rs.len() == 0 {
        empty_scan()
    } else {
        scan_step(scan(rs.drop_last()), rs.last())
    }
}

/// Common, Magical and Rare: the rarities whose names can take an affix.
pub open spec fn is_affixable_tier(r: Rarity) -> bool {
    r == Rarity::Common || r == Rarity::Magical || r == Rarity::Rare
}

/// The keywords of item tag `tag` after the scan `s`.
pub open spec fn item_info(s: InferScan, tag: Seq<char>) -> TagInfo {
    let rarity = mode_of(s.counts[tag]).unwrap();
    TagInfo {
        kind: Kind::RegularItem,
        rarity,
        affixable: s.gear.contains(tag) && !s.faction.contains(tag) && is_affixable_tier(rarity),
    }
}

/// An item tag that was counted and has a mode rarity.
pub open spec fn is_counted_item(s: InferScan, t: Seq<char>) -> bool {
    s.counts.contains_key(t) && mode_of(s.counts[t]) is Some
}

/// Item tags with a mode rarity among `keys`.
pub open spec fn is_item_tag(s: InferScan, keys: Seq<Seq<char>>, t: Seq<char>) -> bool {
    keys.contains(t) && s.counts.contains_key(t) && mode_of(s.counts[t]) is Some
}

/// The affix entries, with the item tags among `keys` entered over them.
pub open spec fn with_items(s: InferScan, keys: Seq<Seq<char>>) -> Map<Seq<char>, TagInfo> {
    Map::new(
        |t: Seq<char>| s.affixes.contains_key(t) || is_item_tag(s, keys, t),
        |t: Seq<char>|
            if is_item_tag(s, keys, t) {
                item_info(s, t)
            } else {
                s.affixes[t]
            },
    )
}

/// The tag map inferred from `rs`: every affix tag with its affix keywords,
/// then every item tag with its mode rarity (item entries win on a clash).
pub open spec fn inferred(rs: Seq<Record>) -> Map<Seq<char>, TagInfo> {
    let s = scan(rs);
    Map::new(
        |t: Seq<char>| s.affixes.contains_key(t) || is_counted_item(s, t),
        |t: Seq<char>|
            if is_counted_item(s, t) {
                item_info(s, t)
            } else {
                s.affixes[t]
            },
    )
}

fn string_field_chars(record: &Record, key: &str) -> (r: Option<Vec<char>>)
    ensures
        match r {
            Some(v) => field_str(*record, key@) == Some(v@),
            None => field_str(*record, key@) == None::<Seq<char>>,
        },
{
    match record.string_field(key) {
        Some(s) => Some(chars_of(s.as_str())),
        None => None,
    }
}

fn rarity_field(record: &Record) -> (r: Option<Rarity>)
    ensures
        r == record_rarity(*record),
{
    match record.string_field("itemClassification") {
        Some(s) => Rarity::from_db(s.as_str()),
        None => None,
    }
}

/// Labels an affix record's tag with its rarity.
fn classify_affix(record: &Record, tags: &mut StrMap<TagInfo>)
    ensures
        final(tags)@ == classify_affix_spec(old(tags)@, *record),
{
    let Some(tag) = string_field_chars(record, "lootRandomizerName") else {
        return;
    };
    let Some(rarity) = rarity_field(record) else {
        return;
    };
    if tag.len() == 0 {
        return;
    }
    // `affixable` is about base names; an affix tag is always colored directly.
    tags.insert_chars(tag, TagInfo { kind: Kind::Affix, rarity, affixable: false });
}

proof fn lemma_counts_bound(c: RarityCounts, r: Rarity, n: nat)
    requires
        counts_at_most(c, n),
    ensures
        counts_at_most(c, n + 1),
        counts_at_most(one_more(c, r), n + 1),
{
    assert forall|q: Rarity| count_of(one_more(c, r), q) <= n + 1 by {
        assert(count_of(c, q) <= n);
    }
    assert forall|q: Rarity| count_of(c, q) <= n + 1 by {
        assert(count_of(c, q) <= n);
    }
}

/// Every tag's counts in `m` are at most `n`.
pub open spec fn all_counts_at_most(m: Map<Seq<char>, RarityCounts>, n: nat) -> bool {
    forall|t: Seq<char>| #[trigger] m.contains_key(t) ==> counts_at_most(m[t], n)
}

/// Accumulates an item record into the per-tag rarity tally, the faction set,
/// and the gear set. The final item entry (with the mode rarity) is built
/// after the scan.
fn accumulate_item(
    record: &Record,
    rarity_counts: &mut StrMap<RarityCounts>,
    faction_tags: &mut StrMap<()>,
    gear_tags: &mut StrMap<()>,
    Ghost(s): Ghost<InferScan>,
    Ghost(bound): Ghost<nat>,
)
    requires
        old(rarity_counts)@ == s.counts,
        old(faction_tags)@.dom() == s.faction,
        old(gear_tags)@.dom() == s.gear,
        all_counts_at_most(s.counts, bound),
        bound < usize::MAX,
    ensures
        final(rarity_counts)@ == accumulate_item_spec(s, *record).counts,
        final(faction_tags)@.dom() == accumulate_item_spec(s, *record).faction,
        final(gear_tags)@.dom() == accumulate_item_spec(s, *record).gear,
        all_counts_at_most(final(rarity_counts)@, bound + 1),
{
    let Some(tag) = string_field_chars(record, "itemNameTag") else {
        return;
    };
    if tag.len() == 0 {
        return;
    }
    if let Some(class) = string_field_chars(record, "Class") {
        if starts_with_chars(class.as_slice(), chars_of("Weapon").as_slice())
            || starts_with_chars(class.as_slice(), chars_of("Armor").as_slice()) {
            let mut key: Vec<char> = Vec::new();
            push_all(&mut key, tag.as_slice());
            gear_tags.insert_chars(key, ());
        }
    }
    let Some(rarity) = rarity_field(record) else {
        return;
    };
    let mut c = match rarity_counts.get_chars(tag.as_slice()) {
        Some(c) => *c,
        None => RarityCounts::new(),
    };
    let ghost c0 = c;
    assert(counts_at_most(c, bound));
    assert(count_of(c, rarity) <= bound);
    c.add_one(rarity);
    let mut key: Vec<char> = Vec::new();
    push_all(&mut key, tag.as_slice());
    rarity_counts.insert_chars(key, c);
    if starts_with_chars(chars_of(record.id.as_str()).as_slice(), chars_of("records/items/faction/").as_slice()) {
        faction_tags.insert_chars(tag, ());
    }
    proof {
        let m = final(rarity_counts)@;
        assert forall|t: Seq<char>| #[trigger] m.contains_key(t) implies counts_at_most(m[t], bound + 1) by {
            if t != tag@ {
                assert(s.counts.contains_key(t));
                lemma_counts_bound(s.counts[t], rarity, bound);
            } else {
                lemma_counts_bound(c0, rarity, bound);
            }
        }
    }
}

/// Runs the inference over every record and returns the tag map.
pub fn infer(records: &[Record]) -> (tags: StrMap<TagInfo>)
    ensures
        tags@ == inferred(records@),
{
    let mut tags: StrMap<TagInfo> = StrMap::new();
    // Per item tag: rarity -> #records. A handful of generic base-name tags are
    // shared across items of different rarities, so we pick the most-frequent
    // (mode) rarity.
    let mut rarity_counts: StrMap<RarityCounts> = StrMap::new();
    // item tags with at least one record under records/items/faction/.
    let mut faction_tags: StrMap<()> = StrMap::new();
    // item tags with at least one equippable-gear record.
    let mut gear_tags: StrMap<()> = StrMap::new();
    let mut i: usize = 0;
    assert(records@.take(0) =~= Seq::<Record>::empty());
    assert(faction_tags@.dom() =~= Set::<Seq<char>>::empty());
    assert(gear_tags@.dom() =~= Set::<Seq<char>>::empty());
    while i < records.len()
        invariant
            i <= records.len(),
            tags@ == scan(records@.take(i as int)).affixes,
            rarity_counts@ == scan(records@.take(i as int)).counts,
            faction_tags@.dom() == scan(records@.take(i as int)).faction,
            gear_tags@.dom() == scan(records@.take(i as int)).gear,
            all_counts_at_most(rarity_counts@, i as nat),
        decreases records.len() - i,
    {
        let record = &records[i];
        let ghost s = scan(records@.take(i as int));
        assert(records@.take(i + 1).drop_last() =~= records@.take(i as int));
        assert(records@.take(i + 1).last() == *record);
        let id = chars_of(record.id.as_str());
        if starts_with_chars(id.as_slice(), chars_of("records/items/").as_slice()) {
            if starts_with_chars(id.as_slice(), chars_of("records/items/lootaffixes/prefix/").as_slice())
                || starts_with_chars(id.as_slice(), chars_of("records/items/lootaffixes/suffix/").as_slice()) {
                classify_affix(record, &mut tags);
            } else {
                accumulate_item(
                    record,
                    &mut rarity_counts,
                    &mut faction_tags,
                    &mut gear_tags,
                    Ghost(s),
                    Ghost(i as nat),
                );
            }
        }
        i = i + 1;
        assert(all_counts_at_most(rarity_counts@, i as nat)) by {
            assert forall|t: Seq<char>| #[trigger] rarity_counts@.contains_key(t) implies counts_at_most(rarity_counts@[t], i as nat) by {
                assert(counts_at_most(rarity_counts@[t], (i - 1) as nat) || counts_at_most(rarity_counts@[t], i as nat));
            }
        }
    }
    assert(records@.take(i as int) =~= records@);
    let ghost s = scan(records@);
    // Build item entries, choosing each tag's most-frequent (mode) rarity.
    // Awakened/upgraded variants are not special-cased: they are always
    // Epic/Legendary (never colored), so they never change a colored result.
    let n = rarity_counts.len();
    let ghost keys = rarity_counts.key_list();
    assert(tags@ =~= with_items(s, keys.take(0)));
    let mut j: usize = 0;
    while j < n
        invariant
            j <= n,
            n == keys.len(),
            keys == rarity_counts.key_list(),
            rarity_counts.listing(),
            rarity_counts@ == s.counts,
            faction_tags@.dom() == s.faction,
            gear_tags@.dom() == s.gear,
            tags@ == with_items(s, keys.take(j as int)),
        decreases n - j,
    {
        let tag = rarity_counts.key_chars_at(j);
        let counts = rarity_counts.value_at(j);
        let ghost before = tags@;
        assert(keys.take(j + 1) =~= keys.take(j as int).push(keys[j as int]));
        assert(keys.take(j + 1)[j as int] == keys[j as int]);
        assert forall|t: Seq<char>| #[trigger] keys.take(j + 1).contains(t) == (keys.take(j as int).contains(t) || t == keys[j as int]) by {
            if keys.take(j + 1).contains(t) {
                let k = keys.take(j + 1).index_of(t);
                if k < j {
                    assert(keys.take(j as int)[k] == t);
                }
            }
            if keys.take(j as int).contains(t) {
                let k = keys.take(j as int).index_of(t);
                assert(keys.take(j + 1)[k] == t);
            }
        }
        assert(rarity_counts@.contains_key(keys[j as int]));
        match mode_rarity(counts) {
            None => {
                assert(tags@ =~= with_items(s, keys.take(j + 1)));
            },
            Some(rarity) => {
                let affixable = gear_tags.contains_key_chars(tag.as_slice())
                    && !faction_tags.contains_key_chars(tag.as_slice()) && (rarity == Rarity::Common
                    || rarity == Rarity::Magical || rarity == Rarity::Rare);
                let mut key: Vec<char> = Vec::new();
                push_all(&mut key, tag.as_slice());
                tags.insert_chars(key, TagInfo { kind: Kind::RegularItem, rarity, affixable });
                assert(tags@ =~= with_items(s, keys.take(j + 1)));
            },
        }
        j = j + 1;
    }
    assert(keys.take(n as int) =~= keys);
    proof {
        assert forall|t: Seq<char>| #[trigger] is_item_tag(s, keys, t) == is_counted_item(s, t) by {
            if s.counts.contains_key(t) {
                assert(rarity_counts@.contains_key(t));
            }
        }
        assert(with_items(s, keys) =~= inferred(records@));
    }
    tags
}

/// Some rarity is a mode of any non-empty tally.
proof fn lemma_mode_exists(c: RarityCounts)
    requires
        exists|r: Rarity| #[trigger] count_of(c, r) > 0,
    ensures
        exists|r: Rarity| is_mode(c, r),
{
    let b = c.broken as nat;
    let co = c.common as nat;
    let ma = c.magical as nat;
    let ra = c.rare as nat;
    let ep = c.epic as nat;
    let le = c.legendary as nat;
    let m1 = if b >= co { b } else { co };
    let m2 = if m1 >= ma { m1 } else { ma };
    let m3 = if m2 >= ra { m2 } else { ra };
    let m4 = if m3 >= ep { m3 } else { ep };
    let m = if m4 >= le { m4 } else { le };
    let r = if b == m {
        Rarity::Broken
    } else if co == m {
        Rarity::Common
    } else if ma == m {
        Rarity::Magical
    } else if ra == m {
        Rarity::Rare
    } else if ep == m {
        Rarity::Epic
    } else {
        Rarity::Legendary
    };
    let w = choose|r: Rarity| #[trigger] count_of(c, r) > 0;
    assert(count_of(c, w) <= m);
    assert forall|q: Rarity| #![trigger count_of(c, q)]
        count_of(c, q) <= count_of(c, r) && (count_of(c, q) == count_of(c, r) ==> rarity_rank(r) <= rarity_rank(q)) by {
        match q {
            Rarity::Broken => {},
            Rarity::Common => {},
            Rarity::Magical => {},
            Rarity::Rare => {},
            Rarity::Epic => {},
            Rarity::Legendary => {},
        }
    }
    assert(is_mode(c, r));
}

/// An item tag's rarity is the most frequent rarity among its records (the
/// lowest tier on a tie).
pub proof fn lemma_item_rarity_is_mode(rs: Seq<Record>, t: Seq<char>)
    requires
        is_counted_item(scan(rs), t),
    ensures
        inferred(rs).contains_key(t),
        inferred(rs)[t].kind == Kind::RegularItem,
        is_mode(scan(rs).counts[t], inferred(rs)[t].rarity),
{
    let c = scan(rs).counts[t];
    lemma_mode_exists(c);
}

/// The affix entries of a scan are never affixable.
proof fn lemma_affixes_not_affixable(rs: Seq<Record>)
    ensures
        forall|t: Seq<char>| #[trigger] scan(rs).affixes.contains_key(t) ==> !scan(rs).affixes[t].affixable,
    decreases rs.len(),
{
    if rs.len() > 0 {
        lemma_affixes_not_affixable(rs.drop_last());
    }
}

/// Only a base item name can be affixable, and only one of Common, Magical or
/// Rare rarity with an equippable-gear record and no faction record.
pub proof fn lemma_affixable_only_low_tier_gear(rs: Seq<Record>, t: Seq<char>)
    requires
        inferred(rs).contains_key(t),
        inferred(rs)[t].affixable,
    ensures
        inferred(rs)[t].kind == Kind::RegularItem,
        is_affixable_tier(inferred(rs)[t].rarity),
        scan(rs).gear.contains(t),
        !scan(rs).faction.contains(t),
{
    lemma_affixes_not_affixable(rs);
}

/// Record `r` is an item record (under `records/items/`, not an affix) that
/// names the non-empty tag `t`.
pub open spec fn item_record_of(r: Record, t: Seq<char>) -> bool {
    &&& starts_with(r.id@, "records/items/"@)
    &&& !starts_with(r.id@, "records/items/lootaffixes/prefix/"@)
    &&& !starts_with(r.id@, "records/items/lootaffixes/suffix/"@)
    &&& field_str(r, "itemNameTag"@) == Some(t)
    &&& t.len() > 0
}

/// Record `r` is equippable gear named `t`: weapons (`Class` starting with
/// `Weapon`) and armor, shields and jewelry (`Class` starting with `Armor`).
pub open spec fn gear_record_of(r: Record, t: Seq<char>) -> bool {
    &&& item_record_of(r, t)
    &&& exists|c: Seq<char>|
        field_str(r, "Class"@) == Some(c) && (starts_with(c, "Weapon"@) || starts_with(c, "Armor"@))
}

/// Record `r` is faction gear named `t` with a modeled rarity.
pub open spec fn faction_record_of(r: Record, t: Seq<char>) -> bool {
    &&& item_record_of(r, t)
    &&& rarity_from_name_of(r) is Some
    &&& starts_with(r.id@, "records/items/faction/"@)
}

/// The modeled rarity named by a record's `itemClassification`.
pub open spec fn rarity_from_name_of(r: Record) -> Option<Rarity> {
    match field_str(r, "itemClassification"@) {
        Some(s) => rarity_from_name(s),
        None => None,
    }
}

/// The gear and faction sets of a scan hold exactly the tags of the gear and
/// faction records read, and every affix entry is an affix.
proof fn lemma_scan_sets(rs: Seq<Record>)
    ensures
        forall|t: Seq<char>| #[trigger] scan(rs).gear.contains(t) == exists|i: int| 0 <= i < rs.len() && gear_record_of(#[trigger] rs[i], t),
        forall|t: Seq<char>| #[trigger] scan(rs).faction.contains(t) == exists|i: int| 0 <= i < rs.len() && faction_record_of(#[trigger] rs[i], t),
        forall|t: Seq<char>| #[trigger] scan(rs).affixes.contains_key(t) ==> scan(rs).affixes[t].kind == Kind::Affix,
    decreases rs.len(),
{
    if rs.len() > 0 {
        let pre = rs.drop_last();
        let r = rs.last();
        lemma_scan_sets(pre);
        assert forall|i: int| 0 <= i < pre.len() implies #[trigger] pre[i] == rs[i] by {}
        assert(rs[rs.len() - 1] == r);
        assert forall|t: Seq<char>| #[trigger] scan(rs).gear.contains(t) == exists|i: int| 0 <= i < rs.len() && gear_record_of(#[trigger] rs[i], t) by {
            if scan(rs).gear.contains(t) && !scan(pre).gear.contains(t) {
                assert(gear_record_of(rs[rs.len() - 1], t));
            }
            if exists|i: int| 0 <= i < rs.len() && gear_record_of(#[trigger] rs[i], t) {
                let i = choose|i: int| 0 <= i < rs.len() && gear_record_of(#[trigger] rs[i], t);
                if i < pre.len() {
                    assert(gear_record_of(pre[i], t));
                } else {
                    let c = choose|c: Seq<char>|
                        field_str(r, "Class"@) == Some(c) && (starts_with(c, "Weapon"@) || starts_with(c, "Armor"@));
                    assert(is_gear_class(field_str(r, "Class"@)));
                }
            }
        }
        assert forall|t: Seq<char>| #[trigger] scan(rs).faction.contains(t) == exists|i: int| 0 <= i < rs.len() && faction_record_of(#[trigger] rs[i], t) by {
            if scan(rs).faction.contains(t) && !scan(pre).faction.contains(t) {
                assert(faction_record_of(rs[rs.len() - 1], t));
            }
            if exists|i: int| 0 <= i < rs.len() && faction_record_of(#[trigger] rs[i], t) {
                let i = choose|i: int| 0 <= i < rs.len() && faction_record_of(#[trigger] rs[i], t);
                if i < pre.len() {
                    assert(faction_record_of(pre[i], t));
                }
            }
        }
    }
}

/// A base item name is affixable exactly when some record of it is
/// equippable gear (a `Class` starting with `Weapon` or `Armor`, which takes
/// in shields and jewelry), no record of it is faction gear, and its rarity
/// is Common, Magical or Rare.
pub proof fn lemma_affixable_iff_gear(rs: Seq<Record>, t: Seq<char>)
    requires
        inferred(rs).contains_key(t),
        inferred(rs)[t].kind == Kind::RegularItem,
    ensures
        inferred(rs)[t].affixable == ((exists|i: int| 0 <= i < rs.len() && gear_record_of(#[trigger] rs[i], t))
            && !(exists|i: int| 0 <= i < rs.len() && faction_record_of(#[trigger] rs[i], t))
            && is_affixable_tier(inferred(rs)[t].rarity)),
{
    lemma_scan_sets(rs);
    assert(scan(rs).gear.contains(t) == exists|i: int| 0 <= i < rs.len() && gear_record_of(#[trigger] rs[i], t));
    assert(scan(rs).faction.contains(t) == exists|i: int| 0 <= i < rs.len() && faction_record_of(#[trigger] rs[i], t));
    if !is_counted_item(scan(rs), t) {
        assert(scan(rs).affixes.contains_key(t));
    }
}

} // verus!
