//! Analysis of rarity-ambiguous tags: tags whose item records disagree on
//! `itemClassification`, in particular the awakened/upgraded gdx3 variants
//! that reuse a base item's tag at a higher rarity.

use vstd::prelude::*;
use crate::db::{field_str, is_item_record_id, items_prefix, Record};
use crate::strmap::{
    lemma_lex_asymmetric, lemma_lex_irreflexive, lemma_lex_total, lex_lt, sorted_keys, StrMap,
};
use crate::text::{chars_eq, chars_of, contains, contains_chars, push_all, starts_with, to_text};

verus! {

/// How often each raw rarity string occurs among a tag's records, split into
/// normal, awakened and upgraded records.
pub struct TagRarities {
    /// rarity -> count, for "normal" records (not awakened/upgraded).
    pub base: StrMap<usize>,
    pub awakened: StrMap<usize>,
    pub upgraded: StrMap<usize>,
}

/// The counts of a `TagRarities`.
pub struct Buckets {
    pub base: Map<Seq<char>, usize>,
    pub awakened: Map<Seq<char>, usize>,
    pub upgraded: Map<Seq<char>, usize>,
}

impl TagRarities {
    pub open spec fn buckets(&self) -> Buckets {
        Buckets { base: self.base@, awakened: self.awakened@, upgraded: self.upgraded@ }
    }

    pub fn new() -> (t: TagRarities)
        ensures
            t.buckets() == empty_buckets(),
    {
        let t = TagRarities { base: StrMap::new(), awakened: StrMap::new(), upgraded: StrMap::new() };
        assert(t.buckets().base =~= Map::<Seq<char>, usize>::empty());
        t
    }
}

pub open spec fn empty_buckets() -> Buckets {
    Buckets { base: Map::empty(), awakened: Map::empty(), upgraded: Map::empty() }
}

/// `m` with one more occurrence of `k`.
pub open spec fn bump(m: Map<Seq<char>, usize>, k: Seq<char>) -> Map<Seq<char>, usize> {
    m.insert(
        k,
        (if m.contains_key(k) {
            m[k] + 1
        } else {
            1
        }) as usize,
    )
}

/// Every count in `m` is at most `n`.
pub open spec fn bounded(m: Map<Seq<char>, usize>, n: nat) -> bool {
    forall|k: Seq<char>| #[trigger] m.contains_key(k) ==> m[k] <= n
}

/// A record's rarity counts toward the awakened bucket if its id holds
/// `/awakened/`, else the upgraded bucket if it holds `/upgraded/`, else the
/// base bucket.
pub open spec fn add_record(b: Buckets, id: Seq<char>, rarity: Seq<char>) -> Buckets {
    if contains(id, "/awakened/"@) {
        Buckets { awakened: bump(b.awakened, rarity), ..b }
    } else if contains(id, "/upgraded/"@) {
        Buckets { upgraded: bump(b.upgraded, rarity), ..b }
    } else {
        Buckets { base: bump(b.base, rarity), ..b }
    }
}

/// One record's contribution to the per-tag tally: item records with both an
/// `itemNameTag` and an `itemClassification` string count their rarity.
pub open spec fn tally_step(m: Map<Seq<char>, Buckets>, r: Record) -> Map<Seq<char>, Buckets> {
    if !starts_with(r.id@, items_prefix()) {
        m
    } else {
        match (field_str(r, "itemNameTag"@), field_str(r, "itemClassification"@)) {
            (Some(tag), Some(rarity)) => {
                let before = if m.contains_key(tag) {
                    m[tag]
                } else {
                    empty_buckets()
                };
                m.insert(tag, add_record(before, r.id@, rarity))
            },
            _ => m,
        }
    }
}

/// The per-tag tally of `rs`.
pub open spec fn tally(rs: Seq<Record>) -> Map<Seq<char>, Buckets>
    decreases rs.len(),
{
    if rs.len() == 0 {
        Map::empty()
    } else {
        tally_step(tally(rs.drop_last()), rs.last())
    }
}

/// Record `r` is an item record of tag `t` whose raw rarity is `k`.
pub open spec fn rated_record(r: Record, t: Seq<char>, k: Seq<char>) -> bool {
    &&& starts_with(r.id@, "records/items/"@)
    &&& field_str(r, "itemNameTag"@) == Some(t)
    &&& field_str(r, "itemClassification"@) == Some(k)
}

/// A normal record: neither awakened nor upgraded.
pub open spec fn p_normal(t: Seq<char>, k: Seq<char>) -> spec_fn(Record) -> bool {
    |r: Record| rated_record(r, t, k) && !contains(r.id@, "/awakened/"@) && !contains(r.id@, "/upgraded/"@)
}

/// An awakened record.
pub open spec fn p_awakened(t: Seq<char>, k: Seq<char>) -> spec_fn(Record) -> bool {
    |r: Record| rated_record(r, t, k) && contains(r.id@, "/awakened/"@)
}

/// An upgraded record (that is not also awakened).
pub open spec fn p_upgraded(t: Seq<char>, k: Seq<char>) -> spec_fn(Record) -> bool {
    |r: Record| rated_record(r, t, k) && !contains(r.id@, "/awakened/"@) && contains(r.id@, "/upgraded/"@)
}

/// The count of `k` in `m`, 0 when absent.
pub open spec fn count_in(m: Map<Seq<char>, usize>, k: Seq<char>) -> nat {
    if m.contains_key(k) {
        m[k] as nat
    } else {
        0
    }
}

/// The buckets of tag `t` in a tally, empty when the tag is absent.
pub open spec fn buckets_of(m: Map<Seq<char>, Buckets>, t: Seq<char>) -> Buckets {
    if m.contains_key(t) {
        m[t]
    } else {
        empty_buckets()
    }
}

/// The tally counts, for each tag and raw rarity, exactly the records of
/// that tag and rarity in each bucket: its normal counts the records that
/// are neither awakened nor upgraded, its awakened counts the awakened
/// records, its upgraded counts the upgraded ones; a rarity is listed in a
/// bucket only with a positive count, and a tag is listed exactly when some
/// record of it has a rarity.
pub proof fn lemma_tally_counts_records(rs: Seq<Record>)
    requires
        rs.len() < usize::MAX,
    ensures
        forall|t: Seq<char>, k: Seq<char>| #[trigger] count_in(buckets_of(tally(rs), t).base, k) == rs.filter(p_normal(t, k)).len(),
        forall|t: Seq<char>, k: Seq<char>| #[trigger] count_in(buckets_of(tally(rs), t).awakened, k) == rs.filter(p_awakened(t, k)).len(),
        forall|t: Seq<char>, k: Seq<char>| #[trigger] count_in(buckets_of(tally(rs), t).upgraded, k) == rs.filter(p_upgraded(t, k)).len(),
        forall|t: Seq<char>, k: Seq<char>|
            #![trigger buckets_of(tally(rs), t).base.contains_key(k)]
            buckets_of(tally(rs), t).base.contains_key(k) ==> buckets_of(tally(rs), t).base[k] > 0,
        forall|t: Seq<char>, k: Seq<char>|
            #![trigger buckets_of(tally(rs), t).awakened.contains_key(k)]
            buckets_of(tally(rs), t).awakened.contains_key(k) ==> buckets_of(tally(rs), t).awakened[k] > 0,
        forall|t: Seq<char>, k: Seq<char>|
            #![trigger buckets_of(tally(rs), t).upgraded.contains_key(k)]
            buckets_of(tally(rs), t).upgraded.contains_key(k) ==> buckets_of(tally(rs), t).upgraded[k] > 0,
        forall|t: Seq<char>| #[trigger] tally(rs).contains_key(t) == exists|i: int, k: Seq<char>|
            0 <= i < rs.len() && #[trigger] rated_record(rs[i], t, k),
    decreases rs.len(),
{
    reveal(Seq::filter);
    if rs.len() > 0 {
        let pre = rs.drop_last();
        let r = rs.last();
        let n = rs.len() - 1;
        lemma_tally_counts_records(pre);
        assert forall|i: int| 0 <= i < pre.len() implies #[trigger] pre[i] == rs[i] by {}
        assert(rs[n] == r);
        let m0 = tally(pre);
        let m = tally(rs);
        assert forall|t: Seq<char>, k: Seq<char>|
            #![trigger count_in(buckets_of(m, t).base, k)]
            #![trigger count_in(buckets_of(m, t).awakened, k)]
            #![trigger count_in(buckets_of(m, t).upgraded, k)]
            #![trigger buckets_of(m, t).base.contains_key(k)]
            #![trigger buckets_of(m, t).awakened.contains_key(k)]
            #![trigger buckets_of(m, t).upgraded.contains_key(k)]
            count_in(buckets_of(m, t).base, k) == rs.filter(p_normal(t, k)).len()
                && count_in(buckets_of(m, t).awakened, k) == rs.filter(p_awakened(t, k)).len()
                && count_in(buckets_of(m, t).upgraded, k) == rs.filter(p_upgraded(t, k)).len()
                && (buckets_of(m, t).base.contains_key(k) ==> buckets_of(m, t).base[k] > 0)
                && (buckets_of(m, t).awakened.contains_key(k) ==> buckets_of(m, t).awakened[k] > 0)
                && (buckets_of(m, t).upgraded.contains_key(k) ==> buckets_of(m, t).upgraded[k] > 0) by {
            pre.lemma_filter_len(p_normal(t, k));
            pre.lemma_filter_len(p_awakened(t, k));
            pre.lemma_filter_len(p_upgraded(t, k));
            assert(count_in(buckets_of(m0, t).base, k) == pre.filter(p_normal(t, k)).len());
            assert(count_in(buckets_of(m0, t).awakened, k) == pre.filter(p_awakened(t, k)).len());
            assert(count_in(buckets_of(m0, t).upgraded, k) == pre.filter(p_upgraded(t, k)).len());
            assert(buckets_of(m0, t).base.contains_key(k) ==> buckets_of(m0, t).base[k] > 0);
            assert(buckets_of(m0, t).awakened.contains_key(k) ==> buckets_of(m0, t).awakened[k] > 0);
            assert(buckets_of(m0, t).upgraded.contains_key(k) ==> buckets_of(m0, t).upgraded[k] > 0);
        }
        assert forall|t: Seq<char>| #[trigger] m.contains_key(t) == exists|i: int, k: Seq<char>|
            0 <= i < rs.len() && #[trigger] rated_record(rs[i], t, k) by {
            if exists|i: int, k: Seq<char>| 0 <= i < rs.len() && #[trigger] rated_record(rs[i], t, k) {
                let (i, k) = choose|i: int, k: Seq<char>| 0 <= i < rs.len() && #[trigger] rated_record(rs[i], t, k);
                if i < n {
                    assert(rated_record(pre[i], t, k));
                }
            }
            if m.contains_key(t) && !m0.contains_key(t) {
                let k = field_str(r, "itemClassification"@)->0;
                assert(rated_record(rs[n], t, k));
            }
        }
    }
}

/// `k` is the most frequent key of `m`; among equally frequent keys it is the
/// greatest (as `max_by_key` over a `BTreeMap` yields the last maximum).
pub open spec fn is_count_mode(m: Map<Seq<char>, usize>, k: Seq<char>) -> bool {
    &&& m.contains_key(k)
    &&& forall|q: Seq<char>|
        #[trigger] m.contains_key(q) ==> m[q] <= m[k] && (m[q] == m[k] ==> !lex_lt(k, q))
}

/// The most frequent key of `m`, `None` when `m` is empty.
pub open spec fn count_mode(m: Map<Seq<char>, usize>) -> Option<Seq<char>> {
    if exists|k: Seq<char>| #[trigger] m.contains_key(k) {
        Some(choose|k: Seq<char>| is_count_mode(m, k))
    } else {
        None
    }
}

/// A count map has at most one mode: ties go to the greatest key.
pub proof fn lemma_count_mode_unique(m: Map<Seq<char>, usize>, a: Seq<char>, b: Seq<char>)
    requires
        is_count_mode(m, a),
        is_count_mode(m, b),
    ensures
        a == b,
{
    assert(m[a] <= m[b] && m[b] <= m[a]);
    if a != b {
        lemma_lex_total(a, b);
    }
}

/// The most frequent key of `counts` (the greatest on a tie), if any.
pub fn mode(counts: &StrMap<usize>) -> (r: Option<String>)
    ensures
        match r {
            Some(s) => count_mode(counts@) == Some(s@),
            None => count_mode(counts@) == None::<Seq<char>>,
        },
{
    let n = counts.len();
    let ghost keys = counts.key_list();
    let ghost vals = counts.val_list();
    if n == 0 {
        proof {
            assert forall|k: Seq<char>| !#[trigger] counts@.contains_key(k) by {
                if counts@.contains_key(k) {
                    assert(keys.contains(k));
                }
            }
        }
        return None;
    }
    let mut best: usize = 0;
    let mut best_n: usize = *counts.value_at(0);
    let mut i: usize = 1;
    while i < n
        invariant
            1 <= i <= n,
            best < i,
            n == keys.len(),
            keys == counts.key_list(),
            vals == counts.val_list(),
            counts.listing(),
            best_n == vals[best as int],
            forall|j: int|
                0 <= j < i ==> #[trigger] vals[j] <= best_n && (vals[j] == best_n ==> j <= best),
        decreases n - i,
    {
        let c = *counts.value_at(i);
        if c >= best_n {
            best = i;
            best_n = c;
        }
        i = i + 1;
    }
    let k = counts.key_at(best);
    proof {
        let kb = keys[best as int];
        assert forall|q: Seq<char>| #[trigger] counts@.contains_key(q) implies counts@[q]
            <= counts@[kb] && (counts@[q] == counts@[kb] ==> !lex_lt(kb, q)) by {
            let j = keys.index_of(q);
            assert(keys.contains(q));
            assert(counts@[keys[j]] == vals[j]);
            if vals[j] == best_n && j < best {
                assert(lex_lt(keys[j], kb));
                lemma_lex_asymmetric(keys[j], kb);
            }
            if j == best {
                lemma_lex_irreflexive(kb);
            }
        }
        assert(is_count_mode(counts@, kb));
        let c = choose|k: Seq<char>| is_count_mode(counts@, k);
        lemma_count_mode_unique(counts@, c, kb);
    }
    Some(k)
}

/// `m` has at least two keys.
pub open spec fn several(m: Map<Seq<char>, usize>) -> bool {
    exists|a: Seq<char>, b: Seq<char>|
        a != b && #[trigger] m.contains_key(a) && #[trigger] m.contains_key(b)
}

/// `m` has a key other than `Legendary`.
pub open spec fn has_non_legendary(m: Map<Seq<char>, usize>) -> bool {
    exists|k: Seq<char>| #[trigger] m.contains_key(k) && k != "Legendary"@
}

/// The mode of `m`, or `(none)`.
pub open spec fn mode_or_none(m: Map<Seq<char>, usize>) -> Seq<char> {
    match count_mode(m) {
        Some(k) => k,
        None => "(none)"@,
    }
}

/// The summary statistics of the analysis, built tag by tag.
pub struct Summary {
    pub with_awakened: nat,
    pub base_ambiguous: nat,
    /// (base canonical rarity -> awakened canonical rarity) -> count
    pub pairs: Map<Seq<char>, Map<Seq<char>, usize>>,
    pub non_legendary: Seq<Seq<char>>,
    pub examples: Seq<(Seq<char>, Seq<char>, Seq<char>)>,
}

pub open spec fn empty_summary() -> Summary {
    Summary {
        with_awakened: 0,
        base_ambiguous: 0,
        pairs: Map::empty(),
        non_legendary: seq![],
        examples: seq![],
    }
}

/// One tag's contribution: base-only ambiguity is counted for every tag; tags
/// with awakened records add their (base mode, awakened mode) pair, are listed
/// when an awakened record is not Legendary, and (up to twelve) are kept as
/// examples when the two modes differ.
pub open spec fn summary_step(st: Summary, tag: Seq<char>, b: Buckets) -> Summary {
    let st1 = Summary {
        base_ambiguous: if several(b.base) {
            st.base_ambiguous + 1
        } else {
            st.base_ambiguous
        },
        ..st
    };
    if !(exists|k: Seq<char>| #[trigger] b.awakened.contains_key(k)) {
        st1
    } else {
        let base = mode_or_none(b.base);
        let awk = mode_or_none(b.awakened);
        let inner = if st1.pairs.contains_key(base) {
            st1.pairs[base]
        } else {
            Map::empty()
        };
        Summary {
            with_awakened: st1.with_awakened + 1,
            pairs: st1.pairs.insert(base, bump(inner, awk)),
            non_legendary: if has_non_legendary(b.awakened) {
                st1.non_legendary.push(tag)
            } else {
                st1.non_legendary
            },
            examples: if base != awk && st1.examples.len() < 12 {
                st1.examples.push((tag, base, awk))
            } else {
                st1.examples
            },
            ..st1
        }
    }
}

/// The summary over the tags `ks`, in order.
pub open spec fn summarize(ks: Seq<Seq<char>>, m: Map<Seq<char>, Buckets>) -> Summary
    decreases ks.len(),
{
    if ks.len() == 0 {
        empty_summary()
    } else {
        summary_step(summarize(ks.drop_last(), m), ks.last(), m[ks.last()])
    }
}

/// The analysis result, ready to print.
pub struct ConflictReport {
    /// Distinct item tags.
    pub total: usize,
    /// Tags with an awakened variant.
    pub with_awakened: usize,
    /// Tags whose normal records carry more than one rarity.
    pub base_ambiguous: usize,
    /// base rarity -> awakened rarity -> count, both keys ascending.
    pub pair_counts: StrMap<StrMap<usize>>,
    /// Tags with an awakened record that is not Legendary, ascending.
    pub awakened_non_legendary: Vec<String>,
    /// Up to twelve (tag, base rarity, awakened rarity) conflicts.
    pub examples: Vec<(String, String, String)>,
}

/// The per-tag buckets of a tally map.
pub open spec fn bucket_views(m: Map<Seq<char>, TagRarities>) -> Map<Seq<char>, Buckets> {
    m.map_values(|t: TagRarities| t.buckets())
}

/// The pair counts of a report.
pub open spec fn pair_views(m: Map<Seq<char>, StrMap<usize>>) -> Map<Seq<char>, Map<Seq<char>, usize>> {
    m.map_values(|t: StrMap<usize>| t@)
}

/// Counts one more occurrence of `key`.
fn bump_count(m: &mut StrMap<usize>, key: Vec<char>, Ghost(bound): Ghost<nat>)
    requires
        bounded(old(m)@, bound),
        bound < usize::MAX,
    ensures
        final(m)@ == bump(old(m)@, key@),
        bounded(final(m)@, bound + 1),
{
    let c = match m.get_chars(key.as_slice()) {
        Some(c) => *c + 1,
        None => 1,
    };
    m.insert_chars(key, c);
}

proof fn lemma_bounded_mono(m: Map<Seq<char>, usize>, n: nat)
    requires
        bounded(m, n),
    ensures
        bounded(m, n + 1),
{
}

/// Every tag's buckets in `m` are bounded by `n`.
pub open spec fn tally_bounded(m: Map<Seq<char>, Buckets>, n: nat) -> bool {
    forall|t: Seq<char>| #[trigger]
        m.contains_key(t) ==> bounded(m[t].base, n) && bounded(m[t].awakened, n) && bounded(
            m[t].upgraded,
            n,
        )
}

/// Tallies the raw rarity strings of every item record's tag.
pub fn tally_records(records: &[Record]) -> (by_tag: StrMap<TagRarities>)
    ensures
        bucket_views(by_tag@) == tally(records@),
{
    let mut by_tag: StrMap<TagRarities> = StrMap::new();
    let mut i: usize = 0;
    assert(records@.take(0) =~= Seq::<Record>::empty());
    assert(bucket_views(by_tag@) =~= Map::<Seq<char>, Buckets>::empty());
    while i < records.len()
        invariant
            i <= records.len(),
            bucket_views(by_tag@) == tally(records@.take(i as int)),
            tally_bounded(tally(records@.take(i as int)), i as nat),
        decreases records.len() - i,
    {
        let r = &records[i];
        let ghost before = tally(records@.take(i as int));
        assert(records@.take(i + 1).drop_last() =~= records@.take(i as int));
        assert(records@.take(i + 1).last() == *r);
        assert(tally(records@.take(i + 1)) == tally_step(before, *r));
        let mut done = false;
        if is_item_record_id(r.id.as_str()) {
            if let Some(tag) = r.string_field("itemNameTag") {
                if let Some(rarity) = r.string_field("itemClassification") {
                    let tagc = chars_of(tag.as_str());
                    let mut entry = match by_tag.remove_chars(tagc.as_slice()) {
                        Some(e) => e,
                        None => TagRarities::new(),
                    };
                    let ghost b0 = entry.buckets();
                    assert(b0 == (if before.contains_key(tagc@) {
                        before[tagc@]
                    } else {
                        empty_buckets()
                    }));
                    assert(bounded(b0.base, i as nat) && bounded(b0.awakened, i as nat) && bounded(
                        b0.upgraded,
                        i as nat,
                    ));
                    let idc = chars_of(r.id.as_str());
                    let rc = chars_of(rarity.as_str());
                    if contains_chars(idc.as_slice(), chars_of("/awakened/").as_slice()) {
                        bump_count(&mut entry.awakened, rc, Ghost(i as nat));
                        proof { lemma_bounded_mono(b0.base, i as nat); }
                        proof { lemma_bounded_mono(b0.upgraded, i as nat); }
                    } else if contains_chars(idc.as_slice(), chars_of("/upgraded/").as_slice()) {
                        bump_count(&mut entry.upgraded, rc, Ghost(i as nat));
                        proof { lemma_bounded_mono(b0.base, i as nat); }
                        proof { lemma_bounded_mono(b0.awakened, i as nat); }
                    } else {
                        bump_count(&mut entry.base, rc, Ghost(i as nat));
                        proof { lemma_bounded_mono(b0.awakened, i as nat); }
                        proof { lemma_bounded_mono(b0.upgraded, i as nat); }
                    }
                    assert(entry.buckets() == add_record(b0, r.id@, rarity@));
                    by_tag.insert_chars(tagc, entry);
                    assert(bucket_views(by_tag@) =~= tally_step(before, *r));
                    done = true;
                }
            }
        }
        if !done {
            assert(tally_step(before, *r) == before);
        }
        proof {
            let after = tally(records@.take(i + 1));
            assert forall|t: Seq<char>| #[trigger] after.contains_key(t) implies bounded(after[t].base, (i + 1) as nat)
                && bounded(after[t].awakened, (i + 1) as nat) && bounded(after[t].upgraded, (i + 1) as nat) by {
                if before.contains_key(t) && after[t] == before[t] {
                    lemma_bounded_mono(before[t].base, i as nat);
                    lemma_bounded_mono(before[t].awakened, i as nat);
                    lemma_bounded_mono(before[t].upgraded, i as nat);
                }
            }
        }
        i = i + 1;
    }
    assert(records@.take(i as int) =~= records@);
    by_tag
}

/// Whether `m` has at least two keys.
fn has_several(m: &StrMap<usize>) -> (r: bool)
    ensures
        r == several(m@),
{
    let n = m.len();
    let ghost keys = m.key_list();
    proof {
        if n > 1 {
            assert(m@.contains_key(keys[0]) && m@.contains_key(keys[1]));
            assert(lex_lt(keys[0], keys[1]));
            lemma_lex_irreflexive(keys[0]);
            assert(keys[0] != keys[1]);
        } else {
            assert forall|a: Seq<char>, b: Seq<char>| a != b && #[trigger] m@.contains_key(a)
                implies !#[trigger] m@.contains_key(b) by {
                assert(keys.contains(a));
                if m@.contains_key(b) {
                    assert(keys.contains(b));
                    assert(keys[keys.index_of(a)] == a);
                    assert(keys[keys.index_of(b)] == b);
                }
            }
        }
    }
    n > 1
}

/// Whether `m` has any key.
fn has_any(m: &StrMap<usize>) -> (r: bool)
    ensures
        r == exists|k: Seq<char>| #[trigger] m@.contains_key(k),
{
    let n = m.len();
    let ghost keys = m.key_list();
    proof {
        if n > 0 {
            assert(m@.contains_key(keys[0]));
        } else {
            assert forall|k: Seq<char>| !#[trigger] m@.contains_key(k) by {
                if m@.contains_key(k) {
                    assert(keys.contains(k));
                }
            }
        }
    }
    n > 0
}

/// Whether `m` has a key other than `Legendary`.
fn any_non_legendary(m: &StrMap<usize>) -> (r: bool)
    ensures
        r == has_non_legendary(m@),
{
    let n = m.len();
    let ghost keys = m.key_list();
    let legendary = chars_of("Legendary");
    let mut i: usize = 0;
    while i < n
        invariant
            i <= n,
            n == keys.len(),
            keys == m.key_list(),
            m.listing(),
            legendary@ == "Legendary"@,
            forall|j: int| 0 <= j < i ==> #[trigger] keys[j] == "Legendary"@,
        decreases n - i,
    {
        if !chars_eq(m.key_chars_at(i).as_slice(), legendary.as_slice()) {
            assert(m@.contains_key(keys[i as int]));
            return true;
        }
        i = i + 1;
    }
    proof {
        assert forall|k: Seq<char>| #[trigger] m@.contains_key(k) implies k == "Legendary"@ by {
            assert(keys.contains(k));
            assert(keys[keys.index_of(k)] == k);
        }
    }
    false
}

/// The views of a list of strings.
pub open spec fn string_views(v: Seq<String>) -> Seq<Seq<char>> {
    Seq::new(v.len(), |i: int| v[i]@)
}

/// The views of a list of string triples.
pub open spec fn triple_views(v: Seq<(String, String, String)>) -> Seq<(Seq<char>, Seq<char>, Seq<char>)> {
    Seq::new(v.len(), |i: int| (v[i].0@, v[i].1@, v[i].2@))
}

/// Every pair count is at most `n`.
pub open spec fn pairs_bounded(m: Map<Seq<char>, Map<Seq<char>, usize>>, n: nat) -> bool {
    forall|b: Seq<char>| #[trigger] m.contains_key(b) ==> bounded(m[b], n)
}

/// Computes the rarity-ambiguity / awakened analysis over the item records.
/// Tags are visited in ascending order.
pub fn run(records: &[Record]) -> (report: ConflictReport)
    ensures
        report.total == sorted_keys(tally(records@)).len(),
        report.with_awakened == summarize(sorted_keys(tally(records@)), tally(records@)).with_awakened,
        report.base_ambiguous == summarize(sorted_keys(tally(records@)), tally(records@)).base_ambiguous,
        pair_views(report.pair_counts@) == summarize(sorted_keys(tally(records@)), tally(records@)).pairs,
        string_views(report.awakened_non_legendary@) == summarize(sorted_keys(tally(records@)), tally(records@)).non_legendary,
        triple_views(report.examples@) == summarize(sorted_keys(tally(records@)), tally(records@)).examples,
{
    let by_tag = tally_records(records);
    let ghost m = tally(records@);
    let n = by_tag.len();
    let ghost keys = by_tag.key_list();
    proof {
        assert forall|k: Seq<char>| #[trigger] keys.contains(k) == m.contains_key(k) by {
            if keys.contains(k) {
                assert(by_tag@.contains_key(keys[keys.index_of(k)]));
            }
        }
        crate::strmap::lemma_sorted_keys_of(keys, m);
    }
    let mut with_awakened: usize = 0;
    let mut base_ambiguous: usize = 0;
    let mut pair_counts: StrMap<StrMap<usize>> = StrMap::new();
    let mut non_legendary: Vec<String> = Vec::new();
    let mut examples: Vec<(String, String, String)> = Vec::new();
    let none_text = chars_of("(none)");
    let mut j: usize = 0;
    assert(keys.take(0) =~= Seq::<Seq<char>>::empty());
    assert(pair_views(pair_counts@) =~= Map::<Seq<char>, Map<Seq<char>, usize>>::empty());
    assert(string_views(non_legendary@) =~= Seq::<Seq<char>>::empty());
    assert(triple_views(examples@) =~= Seq::<(Seq<char>, Seq<char>, Seq<char>)>::empty());
    while j < n
        invariant
            j <= n,
            n == keys.len(),
            keys == by_tag.key_list(),
            by_tag.listing(),
            bucket_views(by_tag@) == m,
            none_text@ == "(none)"@,
            with_awakened <= j,
            base_ambiguous <= j,
            pairs_bounded(pair_views(pair_counts@), j as nat),
            with_awakened == summarize(keys.take(j as int), m).with_awakened,
            base_ambiguous == summarize(keys.take(j as int), m).base_ambiguous,
            pair_views(pair_counts@) == summarize(keys.take(j as int), m).pairs,
            string_views(non_legendary@) == summarize(keys.take(j as int), m).non_legendary,
            triple_views(examples@) == summarize(keys.take(j as int), m).examples,
        decreases n - j,
    {
        let tag = by_tag.key_at(j);
        let tr = by_tag.value_at(j);
        let ghost st = summarize(keys.take(j as int), m);
        let ghost b = m[keys[j as int]];
        assert(keys.take(j + 1).drop_last() =~= keys.take(j as int));
        assert(keys.take(j + 1).last() == keys[j as int]);
        assert(tr.buckets() == b);
        let ghost next = summary_step(st, keys[j as int], b);
        assert(summarize(keys.take(j + 1), m) == next);
        if has_several(&tr.base) {
            base_ambiguous = base_ambiguous + 1;
        }
        if has_any(&tr.awakened) {
            with_awakened = with_awakened + 1;
            let base = match mode(&tr.base) {
                Some(s) => chars_of(s.as_str()),
                None => {
                    let mut v: Vec<char> = Vec::new();
                    push_all(&mut v, none_text.as_slice());
                    v
                },
            };
            let awk = match mode(&tr.awakened) {
                Some(s) => chars_of(s.as_str()),
                None => {
                    let mut v: Vec<char> = Vec::new();
                    push_all(&mut v, none_text.as_slice());
                    v
                },
            };
            assert(base@ == mode_or_none(b.base));
            assert(awk@ == mode_or_none(b.awakened));
            if any_non_legendary(&tr.awakened) {
                let ghost before = non_legendary@;
                non_legendary.push(tag.clone());
                assert(string_views(non_legendary@) =~= string_views(before).push(keys[j as int]));
            } else {
                assert(!has_non_legendary(b.awakened));
            }
            if !chars_eq(base.as_slice(), awk.as_slice()) && examples.len() < 12 {
                let ghost before = examples@;
                examples.push((tag.clone(), to_text(base.as_slice()), to_text(awk.as_slice())));
                assert(triple_views(examples@) =~= triple_views(before).push(
                    (keys[j as int], base@, awk@),
                ));
            }
            let ghost pv = pair_views(pair_counts@);
            let mut inner = match pair_counts.remove_chars(base.as_slice()) {
                Some(p) => p,
                None => StrMap::new(),
            };
            assert(inner@ == (if pv.contains_key(base@) {
                pv[base@]
            } else {
                Map::<Seq<char>, usize>::empty()
            }));
            assert(bounded(inner@, j as nat));
            let ghost pv_removed = pair_views(pair_counts@);
            bump_count(&mut inner, awk, Ghost(j as nat));
            pair_counts.insert_chars(base, inner);
            assert(pair_views(pair_counts@) =~= next.pairs);
            proof {
                let pv2 = pair_views(pair_counts@);
                assert forall|k: Seq<char>| #[trigger] pv2.contains_key(k) implies bounded(pv2[k], (j + 1) as nat) by {
                    if k != base@ {
                        assert(pv.contains_key(k));
                        lemma_bounded_mono(pv[k], j as nat);
                    }
                }
            }
        } else {
            proof {
                assert(next.pairs == st.pairs);
                let pv2 = pair_views(pair_counts@);
                assert forall|k: Seq<char>| #[trigger] pv2.contains_key(k) implies bounded(pv2[k], (j + 1) as nat) by {
                    lemma_bounded_mono(pv2[k], j as nat);
                }
            }
        }
        j = j + 1;
    }
    assert(keys.take(n as int) =~= keys);
    ConflictReport {
        total: n,
        with_awakened,
        base_ambiguous,
        pair_counts,
        awakened_non_legendary: non_legendary,
        examples,
    }
}

} // verus!
