//! Analysis: test whether "has a dedicated loot table" predicts Monster
//! Infrequent status. For each item tag we compute the smallest number of
//! distinct item tags in any loot table that references it: MIs are expected
//! to have a dedicated (single-item) affix table, regulars to share big
//! tables.

use vstd::prelude::*;
use crate::db::{field_str, is_item_record_id, items_prefix, Record, Value};
use crate::strmap::{lemma_sorted_keys_of, sorted_keys, StrMap};
use crate::text::{chars_of, contains, contains_chars, push_all, starts_with, starts_with_chars};

verus! {

pub open spec fn loottables_prefix() -> Seq<char> {
    "records/items/loottables/"@
}

/// The string held by a value, if it holds one.
pub open spec fn str_value(v: Value) -> Option<Seq<char>> {
    match v {
        Value::Str(s) => Some(s@),
        _ => None,
    }
}

/// Item record id -> its `itemNameTag`, over the item records of `rs` (a later
/// record with the same id wins).
pub open spec fn record_tags(rs: Seq<Record>) -> Map<Seq<char>, Seq<char>>
    decreases rs.len(),
{
    if rs.len() == 0 {
        Map::empty()
    } else {
        let m = record_tags(rs.drop_last());
        let r = rs.last();
        if starts_with(r.id@, items_prefix()) {
            match field_str(r, "itemNameTag"@) {
                Some(t) => m.insert(r.id@, t),
                None => m,
            }
        } else {
            m
        }
    }
}

/// A field naming an item (or sub-table) a loot table can drop.
pub open spec fn is_loot_name_key(k: Seq<char>) -> bool {
    starts_with(k, "lootName"@)
}

/// A field naming an affix (prefix/suffix) table.
pub open spec fn is_affix_table_key(k: Seq<char>) -> bool {
    contains(k, "refixTableName"@) || contains(k, "uffixTableName"@)
}

/// The distinct item tags a loot table references through its `lootName*`
/// fields.
pub open spec fn table_tags(r: Record, rt: Map<Seq<char>, Seq<char>>) -> Set<Seq<char>> {
    Set::new(
        |t: Seq<char>|
            exists|k: Seq<char>|
                #![trigger r.fields@.contains_key(k)]
                r.fields@.contains_key(k) && is_loot_name_key(k) && match str_value(r.fields@[k]) {
                    Some(s) => rt.contains_key(s) && rt[s] == t,
                    None => false,
                },
    )
}

/// Whether a loot table names a non-empty affix table.
pub open spec fn names_affix_table(r: Record) -> bool {
    exists|k: Seq<char>|
        #![trigger r.fields@.contains_key(k)]
        r.fields@.contains_key(k) && !is_loot_name_key(k) && is_affix_table_key(k) && match str_value(
            r.fields@[k],
        ) {
            Some(s) => s.len() > 0,
            None => false,
        }
}

/// Per tag: (smallest table size, number of tables, some table rolls affixes).
pub type LootStat = (nat, nat, bool);

/// One loot table's contribution to the per-tag statistics.
pub open spec fn stats_step(
    st: Map<Seq<char>, LootStat>,
    r: Record,
    rt: Map<Seq<char>, Seq<char>>,
) -> Map<Seq<char>, LootStat> {
    let ts = table_tags(r, rt);
    let size = ts.len();
    let aff = names_affix_table(r);
    if !starts_with(r.id@, loottables_prefix()) || size == 0 {
        st
    } else {
        Map::new(
            |t: Seq<char>| st.contains_key(t) || ts.contains(t),
            |t: Seq<char>|
                if ts.contains(t) {
                    if st.contains_key(t) {
                        (
                            if st[t].0 <= size {
                                st[t].0
                            } else {
                                size
                            },
                            st[t].1 + 1,
                            st[t].2 || aff,
                        )
                    } else {
                        (size, 1nat, aff)
                    }
                } else {
                    st[t]
                },
        )
    }
}

/// The per-tag statistics over the loot tables among `rs`, with item tags
/// resolved through `rt`.
pub open spec fn loot_stats(rs: Seq<Record>, rt: Map<Seq<char>, Seq<char>>) -> Map<
    Seq<char>,
    LootStat,
>
    decreases rs.len(),
{
    if rs.len() == 0 {
        Map::empty()
    } else {
        stats_step(loot_stats(rs.drop_last(), rt), rs.last(), rt)
    }
}

/// One output row.
pub struct TagStat {
    pub tag: String,
    /// Smallest distinct-tag count among loot tables referencing this tag.
    pub min_table_tags: usize,
    /// How many distinct loot tables reference this tag.
    pub table_count: usize,
    /// Whether some referencing table also names affix tables (rolls affixes).
    pub has_affix_table: bool,
}

/// Whether row `s` reports statistic `v` for tag `t`.
pub open spec fn row_is(s: TagStat, t: Seq<char>, v: LootStat) -> bool {
    s.tag@ == t && s.min_table_tags == v.0 && s.table_count == v.1 && s.has_affix_table == v.2
}

/// The views of a map of character vectors.
pub open spec fn char_views(m: Map<Seq<char>, Vec<char>>) -> Map<Seq<char>, Seq<char>> {
    m.map_values(|v: Vec<char>| v@)
}

/// Item record id -> tag, over the item records.
pub fn collect_record_tags(records: &[Record]) -> (rt: StrMap<Vec<char>>)
    ensures
        char_views(rt@) == record_tags(records@),
{
    let mut rt: StrMap<Vec<char>> = StrMap::new();
    let mut i: usize = 0;
    assert(char_views(rt@) =~= Map::<Seq<char>, Seq<char>>::empty());
    assert(records@.take(0) =~= Seq::<Record>::empty());
    while i < records.len()
        invariant
            i <= records.len(),
            char_views(rt@) == record_tags(records@.take(i as int)),
        decreases records.len() - i,
    {
        let r = &records[i];
        assert(records@.take(i + 1).drop_last() =~= records@.take(i as int));
        assert(records@.take(i + 1).last() == *r);
        if is_item_record_id(r.id.as_str()) {
            if let Some(tag) = r.string_field("itemNameTag") {
                rt.insert_chars(chars_of(r.id.as_str()), chars_of(tag.as_str()));
                assert(char_views(rt@) =~= record_tags(records@.take(i + 1)));
            }
        }
        i = i + 1;
    }
    assert(records@.take(i as int) =~= records@);
    rt
}

/// The distinct tags a loot table references, and whether it names an affix
/// table.
pub fn scan_table(r: &Record, rt: &StrMap<Vec<char>>) -> (out: (StrMap<()>, bool))
    ensures
        out.0@.dom() == table_tags(*r, char_views(rt@)),
        out.1 == names_affix_table(*r),
{
    let ghost rtv = char_views(rt@);
    let mut tags: StrMap<()> = StrMap::new();
    let mut affix_table = false;
    let n = r.fields.len();
    let ghost keys = r.fields.key_list();
    let ghost fm = r.fields@;
    let loot_name = chars_of("lootName");
    let refix = chars_of("refixTableName");
    let uffix = chars_of("uffixTableName");
    let mut f: usize = 0;
    assert(tags@.dom() =~= Set::<Seq<char>>::empty());
    while f < n
        invariant
            f <= n,
            n == keys.len(),
            keys == r.fields.key_list(),
            fm == r.fields@,
            r.fields.listing(),
            rtv == char_views(rt@),
            loot_name@ == "lootName"@,
            refix@ == "refixTableName"@,
            uffix@ == "uffixTableName"@,
            forall|t: Seq<char>| #[trigger] tags@.dom().contains(t) == exists|k: Seq<char>|
                #![trigger keys.take(f as int).contains(k)]
                keys.take(f as int).contains(k) && is_loot_name_key(k) && match str_value(fm[k]) {
                    Some(s) => rtv.contains_key(s) && rtv[s] == t,
                    None => false,
                },
            affix_table == exists|k: Seq<char>|
                #![trigger keys.take(f as int).contains(k)]
                keys.take(f as int).contains(k) && !is_loot_name_key(k) && is_affix_table_key(k)
                    && match str_value(fm[k]) {
                    Some(s) => s.len() > 0,
                    None => false,
                },
        decreases n - f,
    {
        let key = r.fields.key_chars_at(f);
        let value = r.fields.value_at(f);
        let ghost k = keys[f as int];
        assert(keys.take(f + 1)[f as int] == k);
        assert forall|q: Seq<char>| #[trigger] keys.take(f + 1).contains(q) == (keys.take(f as int).contains(q) || q == k) by {
            if keys.take(f + 1).contains(q) {
                let p = keys.take(f + 1).index_of(q);
                if p < f {
                    assert(keys.take(f as int)[p] == q);
                }
            }
            if keys.take(f as int).contains(q) {
                let p = keys.take(f as int).index_of(q);
                assert(keys.take(f + 1)[p] == q);
            }
        }
        let ghost old_tags = tags@;
        let ghost old_aff = affix_table;
        if let Value::Str(s) = value {
            let sc = chars_of(s.as_str());
            if starts_with_chars(key.as_slice(), loot_name.as_slice()) {
                match rt.get_chars(sc.as_slice()) {
                    Some(tag) => {
                        let mut t: Vec<char> = Vec::new();
                        push_all(&mut t, tag.as_slice());
                        tags.insert_chars(t, ());
                        assert(rtv.contains_key(sc@) && rtv[sc@] == tag@);
                    },
                    None => {},
                }
            } else if (contains_chars(key.as_slice(), refix.as_slice()) || contains_chars(
                key.as_slice(),
                uffix.as_slice(),
            )) && sc.len() > 0 {
                affix_table = true;
            }
        }
        proof {
            assert forall|t: Seq<char>| #[trigger] tags@.dom().contains(t) == exists|q: Seq<char>|
                #![trigger keys.take(f + 1).contains(q)]
                keys.take(f + 1).contains(q) && is_loot_name_key(q) && match str_value(fm[q]) {
                    Some(s) => rtv.contains_key(s) && rtv[s] == t,
                    None => false,
                } by {
                if tags@.dom().contains(t) && !old_tags.dom().contains(t) {
                    assert(keys.take(f + 1).contains(k));
                }
                if old_tags.dom().contains(t) {
                    let q = choose|q: Seq<char>|
                        #![trigger keys.take(f as int).contains(q)]
                        keys.take(f as int).contains(q) && is_loot_name_key(q) && match str_value(fm[q]) {
                            Some(s) => rtv.contains_key(s) && rtv[s] == t,
                            None => false,
                        };
                    assert(keys.take(f + 1).contains(q));
                }
            }
            if affix_table && !old_aff {
                assert(keys.take(f + 1).contains(k));
            }
            if old_aff {
                let q = choose|q: Seq<char>|
                    #![trigger keys.take(f as int).contains(q)]
                    keys.take(f as int).contains(q) && !is_loot_name_key(q) && is_affix_table_key(q)
                        && match str_value(fm[q]) {
                        Some(s) => s.len() > 0,
                        None => false,
                    };
                assert(keys.take(f + 1).contains(q));
            }
        }
        f = f + 1;
    }
    proof {
        assert(keys.take(n as int) =~= keys);
        assert forall|q: Seq<char>| #[trigger] keys.contains(q) == fm.contains_key(q) by {
            if keys.contains(q) {
                assert(fm.contains_key(keys[keys.index_of(q)]));
            }
        }
        assert(tags@.dom() =~= table_tags(*r, rtv));
    }
    (tags, affix_table)
}

/// Every tag reported is referenced by at least one loot table and at most
/// one per record, and its smallest referencing table holds at least one tag.
pub proof fn lemma_stats_positive(rs: Seq<Record>, rt: Map<Seq<char>, Seq<char>>)
    ensures
        forall|t: Seq<char>| #[trigger] loot_stats(rs, rt).contains_key(t) ==> {
            &&& loot_stats(rs, rt)[t].0 >= 1
            &&& 1 <= loot_stats(rs, rt)[t].1 <= rs.len()
        },
    decreases rs.len(),
{
    if rs.len() > 0 {
        let pre = rs.drop_last();
        let r = rs.last();
        lemma_stats_positive(pre, rt);
        let st = loot_stats(pre, rt);
        let ts = table_tags(r, rt);
        if starts_with(r.id@, loottables_prefix()) && ts.len() > 0 {
            let next = stats_step(st, r, rt);
            assert forall|t: Seq<char>| #[trigger] next.contains_key(t) implies next[t].0 >= 1 && 1 <= next[t].1
                <= rs.len() by {
                if ts.contains(t) {
                    if st.contains_key(t) {
                        assert(st[t].0 >= 1 && st[t].1 <= pre.len());
                    }
                } else {
                    assert(st.contains_key(t));
                }
            }
        }
    }
}

/// Record `r` is a loot table.
pub open spec fn is_loot_table(r: Record) -> bool {
    starts_with(r.id@, "records/items/loottables/"@)
}

/// Loot table `r` references an item carrying tag `t`.
pub open spec fn table_references(r: Record, rt: Map<Seq<char>, Seq<char>>, t: Seq<char>) -> bool {
    is_loot_table(r) && table_tags(r, rt).contains(t)
}

pub open spec fn p_references(rt: Map<Seq<char>, Seq<char>>, t: Seq<char>) -> spec_fn(Record) -> bool {
    |r: Record| table_references(r, rt, t)
}

/// A loot table references finitely many tags.
pub proof fn lemma_table_tags_finite(r: Record, rt: Map<Seq<char>, Seq<char>>)
    ensures
        table_tags(r, rt).finite(),
{
    let ks = r.fields.key_list();
    r.fields.lemma_keys_listed();
    let f = |k: Seq<char>| match str_value(r.fields@[k]) {
        Some(s) => rt[s],
        None => Seq::<char>::empty(),
    };
    let img = ks.map_values(f).to_set();
    vstd::seq_lib::seq_to_set_is_finite(ks.map_values(f));
    assert forall|t: Seq<char>| #[trigger] table_tags(r, rt).contains(t) implies img.contains(t) by {
        let k = choose|k: Seq<char>|
            #![trigger r.fields@.contains_key(k)]
            r.fields@.contains_key(k) && is_loot_name_key(k) && match str_value(r.fields@[k]) {
                Some(s) => rt.contains_key(s) && rt[s] == t,
                None => false,
            };
        assert(ks.contains(k));
        let p = ks.index_of(k);
        assert(ks.map_values(f)[p] == t);
    }
    vstd::set_lib::lemma_set_subset_finite(img, table_tags(r, rt));
}

/// The statistics of a tag are what the loot tables referencing it say: a
/// tag is reported exactly when some loot table references it; its smallest
/// table size is at most the tag count of every referencing table and is
/// that of one of them; its table count is the number of referencing tables;
/// and it rolls affixes exactly when a referencing table names an affix table.
pub proof fn lemma_stats_from_referencing_tables(rs: Seq<Record>, rt: Map<Seq<char>, Seq<char>>)
    ensures
        forall|t: Seq<char>| #[trigger] loot_stats(rs, rt).contains_key(t) == exists|i: int|
            0 <= i < rs.len() && table_references(#[trigger] rs[i], rt, t),
        forall|t: Seq<char>, i: int|
            #![trigger loot_stats(rs, rt)[t], rs[i]]
            loot_stats(rs, rt).contains_key(t) && 0 <= i < rs.len() && table_references(rs[i], rt, t)
                ==> loot_stats(rs, rt)[t].0 <= table_tags(rs[i], rt).len(),
        forall|t: Seq<char>| #[trigger] loot_stats(rs, rt).contains_key(t) ==> exists|i: int|
            0 <= i < rs.len() && table_references(#[trigger] rs[i], rt, t) && loot_stats(rs, rt)[t].0 == table_tags(
                rs[i],
                rt,
            ).len(),
        forall|t: Seq<char>| #[trigger] loot_stats(rs, rt).contains_key(t) ==> loot_stats(rs, rt)[t].1 == rs.filter(
            p_references(rt, t),
        ).len(),
        forall|t: Seq<char>| #[trigger] loot_stats(rs, rt).contains_key(t) ==> loot_stats(rs, rt)[t].2 == exists|i: int|
            0 <= i < rs.len() && table_references(#[trigger] rs[i], rt, t) && names_affix_table(rs[i]),
    decreases rs.len(),
{
    reveal(Seq::filter);
    if rs.len() > 0 {
        let pre = rs.drop_last();
        let r = rs.last();
        let n = rs.len() - 1;
        lemma_stats_from_referencing_tables(pre, rt);
        lemma_table_tags_finite(r, rt);
        assert forall|i: int| 0 <= i < pre.len() implies #[trigger] pre[i] == rs[i] by {}
        assert(rs[n] == r);
        let st0 = loot_stats(pre, rt);
        let st = loot_stats(rs, rt);
        let ts = table_tags(r, rt);
        let active = is_loot_table(r) && ts.len() > 0;
        assert forall|t: Seq<char>| table_references(r, rt, t) implies active by {
            assert(ts.contains(t));
        }
        assert forall|t: Seq<char>| #[trigger] st.contains_key(t) == exists|i: int|
            0 <= i < rs.len() && table_references(#[trigger] rs[i], rt, t) by {
            if exists|i: int| 0 <= i < rs.len() && table_references(#[trigger] rs[i], rt, t) {
                let i = choose|i: int| 0 <= i < rs.len() && table_references(#[trigger] rs[i], rt, t);
                if i < n {
                    assert(table_references(pre[i], rt, t));
                }
            }
            if st.contains_key(t) && !st0.contains_key(t) {
                assert(table_references(rs[n], rt, t));
            }
        }
        assert forall|t: Seq<char>, i: int|
            #![trigger st[t], rs[i]]
            st.contains_key(t) && 0 <= i < rs.len() && table_references(rs[i], rt, t) implies st[t].0 <= table_tags(rs[i], rt).len() by {
            if i < n {
                assert(table_references(pre[i], rt, t));
                assert(st0.contains_key(t));
                assert(st0[t].0 <= table_tags(pre[i], rt).len());
            }
        }
        assert forall|t: Seq<char>| #[trigger] st.contains_key(t) implies exists|i: int|
            0 <= i < rs.len() && table_references(#[trigger] rs[i], rt, t) && st[t].0 == table_tags(rs[i], rt).len() by {
            if active && ts.contains(t) && (!st0.contains_key(t) || st0[t].0 > ts.len()) {
                assert(table_references(rs[n], rt, t) && st[t].0 == table_tags(rs[n], rt).len());
            } else {
                assert(st0.contains_key(t));
                let i = choose|i: int|
                    0 <= i < pre.len() && table_references(#[trigger] pre[i], rt, t) && st0[t].0 == table_tags(pre[i], rt).len();
                assert(table_references(rs[i], rt, t) && st[t].0 == table_tags(rs[i], rt).len());
            }
        }
        assert forall|t: Seq<char>| #[trigger] st.contains_key(t) implies st[t].1 == rs.filter(p_references(rt, t)).len() by {
            assert(rs.filter(p_references(rt, t)) == if p_references(rt, t)(r) {
                pre.filter(p_references(rt, t)).push(r)
            } else {
                pre.filter(p_references(rt, t))
            });
            if !st0.contains_key(t) {
                assert(pre.filter(p_references(rt, t)).len() == 0) by {
                    if pre.filter(p_references(rt, t)).len() > 0 {
                        let x = pre.filter(p_references(rt, t))[0];
                        pre.lemma_filter_pred(p_references(rt, t), 0);
                        assert(pre.filter(p_references(rt, t)).contains(x));
                        pre.lemma_filter_contains_rev(p_references(rt, t), x);
                        let i = choose|i: int| 0 <= i < pre.len() && pre[i] == x;
                        assert(table_references(pre[i], rt, t));
                    }
                }
            }
        }
        assert forall|t: Seq<char>| #[trigger] st.contains_key(t) implies st[t].2 == exists|i: int|
            0 <= i < rs.len() && table_references(#[trigger] rs[i], rt, t) && names_affix_table(rs[i]) by {
            if exists|i: int| 0 <= i < rs.len() && table_references(#[trigger] rs[i], rt, t) && names_affix_table(rs[i]) {
                let i = choose|i: int| 0 <= i < rs.len() && table_references(#[trigger] rs[i], rt, t) && names_affix_table(rs[i]);
                if i < n {
                    assert(table_references(pre[i], rt, t));
                }
            }
            if st0.contains_key(t) && st0[t].2 {
                let i = choose|i: int| 0 <= i < pre.len() && table_references(#[trigger] pre[i], rt, t) && names_affix_table(pre[i]);
                assert(table_references(rs[i], rt, t));
            }
        }
    }
}

/// The statistics of an exec stats map.
pub open spec fn stat_views(m: Map<Seq<char>, (usize, usize, bool)>) -> Map<Seq<char>, LootStat> {
    m.map_values(|v: (usize, usize, bool)| (v.0 as nat, v.1 as nat, v.2))
}

/// The statistic of `t` after one more table of `size` tags (`aff`: it rolls
/// affixes) references it.
pub open spec fn updated(st: Map<Seq<char>, LootStat>, t: Seq<char>, size: nat, aff: bool) -> LootStat {
    if st.contains_key(t) {
        (
            if st[t].0 <= size {
                st[t].0
            } else {
                size
            },
            st[t].1 + 1,
            st[t].2 || aff,
        )
    } else {
        (size, 1nat, aff)
    }
}

/// Every table count is at most `n`.
pub open spec fn counts_bounded(st: Map<Seq<char>, LootStat>, n: nat) -> bool {
    forall|t: Seq<char>| #[trigger] st.contains_key(t) ==> st[t].1 <= n
}

/// Computes, for each item tag referenced by a loot table, the smallest
/// number of distinct tags in a referencing table, the number of referencing
/// tables, and whether one of them rolls affixes. Rows come in ascending tag
/// order.
pub fn run(records: &[Record]) -> (out: Vec<TagStat>)
    ensures
        out@.len() == sorted_keys(loot_stats(records@, record_tags(records@))).len(),
        forall|i: int|
            0 <= i < out@.len() ==> row_is(
                #[trigger] out@[i],
                sorted_keys(loot_stats(records@, record_tags(records@)))[i],
                loot_stats(records@, record_tags(records@))[sorted_keys(
                    loot_stats(records@, record_tags(records@)),
                )[i]],
            ),
{
    let rt = collect_record_tags(records);
    let ghost rtv = record_tags(records@);
    let mut stats: StrMap<(usize, usize, bool)> = StrMap::new();
    let table_prefix = chars_of("records/items/loottables/");
    let mut i: usize = 0;
    assert(records@.take(0) =~= Seq::<Record>::empty());
    assert(stat_views(stats@) =~= Map::<Seq<char>, LootStat>::empty());
    while i < records.len()
        invariant
            i <= records.len(),
            rtv == char_views(rt@),
            rtv == record_tags(records@),
            table_prefix@ == loottables_prefix(),
            stat_views(stats@) == loot_stats(records@.take(i as int), rtv),
            counts_bounded(stat_views(stats@), i as nat),
        decreases records.len() - i,
    {
        let r = &records[i];
        let ghost st = stat_views(stats@);
        assert(records@.take(i + 1).drop_last() =~= records@.take(i as int));
        assert(records@.take(i + 1).last() == *r);
        if starts_with_chars(chars_of(r.id.as_str()).as_slice(), table_prefix.as_slice()) {
            let (tags, affix_table) = scan_table(r, &rt);
            let size = tags.len();
            let ghost ts = tags@.dom();
            let ghost tkeys = tags.key_list();
            proof {
                tags.lemma_dom_len();
            }
            if size > 0 {
                let mut q: usize = 0;
                assert(stat_views(stats@) =~= Map::new(
                    |t: Seq<char>| st.contains_key(t) || tkeys.take(0).contains(t),
                    |t: Seq<char>| if tkeys.take(0).contains(t) { updated(st, t, size as nat, affix_table) } else { st[t] },
                ));
                while q < size
                    invariant
                        q <= size,
                        size == tkeys.len(),
                        tkeys == tags.key_list(),
                        tags.listing(),
                        ts == tags@.dom(),
                        counts_bounded(st, i as nat),
                        i < records.len(),
                        stat_views(stats@) == Map::new(
                            |t: Seq<char>| st.contains_key(t) || tkeys.take(q as int).contains(t),
                            |t: Seq<char>|
                                if tkeys.take(q as int).contains(t) {
                                    updated(st, t, size as nat, affix_table)
                                } else {
                                    st[t]
                                },
                        ),
                    decreases size - q,
                {
                    let tag = tags.key_chars_at(q);
                    let ghost t0 = tkeys[q as int];
                    assert(tkeys.take(q + 1)[q as int] == t0);
                    assert forall|x: Seq<char>| #[trigger] tkeys.take(q + 1).contains(x) == (tkeys.take(q as int).contains(x) || x == t0) by {
                        if tkeys.take(q + 1).contains(x) {
                            let p = tkeys.take(q + 1).index_of(x);
                            if p < q {
                                assert(tkeys.take(q as int)[p] == x);
                            }
                        }
                        if tkeys.take(q as int).contains(x) {
                            let p = tkeys.take(q as int).index_of(x);
                            assert(tkeys.take(q + 1)[p] == x);
                        }
                    }
                    assert(!tkeys.take(q as int).contains(t0)) by {
                        if tkeys.take(q as int).contains(t0) {
                            let p = tkeys.take(q as int).index_of(t0);
                            assert(tkeys[p] == t0);
                            assert(crate::strmap::lex_lt(tkeys[p], tkeys[q as int]));
                            crate::strmap::lemma_lex_irreflexive(t0);
                        }
                    }
                    let next = match stats.get_chars(tag.as_slice()) {
                        Some(v) => {
                            assert(stat_views(stats@).contains_key(t0));
                            assert(stat_views(stats@)[t0] == (v.0 as nat, v.1 as nat, v.2));
                            assert(st.contains_key(t0));
                            assert(v.1 <= i);
                            (if v.0 <= size { v.0 } else { size }, v.1 + 1, v.2 || affix_table)
                        },
                        None => {
                            assert(!stat_views(stats@).contains_key(t0));
                            assert(!st.contains_key(t0));
                            (size, 1, affix_table)
                        },
                    };
                    assert((next.0 as nat, next.1 as nat, next.2) == updated(st, t0, size as nat, affix_table));
                    let mut key: Vec<char> = Vec::new();
                    push_all(&mut key, tag.as_slice());
                    let ghost before = stat_views(stats@);
                    stats.insert_chars(key, next);
                    assert(stat_views(stats@) =~= before.insert(t0, (next.0 as nat, next.1 as nat, next.2)));
                    assert(stat_views(stats@) =~= Map::new(
                        |t: Seq<char>| st.contains_key(t) || tkeys.take(q + 1).contains(t),
                        |t: Seq<char>| if tkeys.take(q + 1).contains(t) { updated(st, t, size as nat, affix_table) } else { st[t] },
                    ));
                    q = q + 1;
                }
                proof {
                    assert(tkeys.take(size as int) =~= tkeys);
                    assert forall|x: Seq<char>| #[trigger] tkeys.contains(x) == ts.contains(x) by {
                        if tkeys.contains(x) {
                            assert(tags@.contains_key(tkeys[tkeys.index_of(x)]));
                        }
                    }
                    assert(stat_views(stats@) =~= stats_step(st, *r, rtv));
                    let sv = stat_views(stats@);
                    assert forall|t: Seq<char>| #[trigger] sv.contains_key(t) implies sv[t].1 <= i + 1 by {
                        if st.contains_key(t) {
                            assert(st[t].1 <= i);
                        }
                    }
                }
            } else {
                assert(stats_step(st, *r, rtv) == st);
            }
        } else {
            assert(stats_step(st, *r, rtv) == st);
        }
        i = i + 1;
    }
    assert(records@.take(i as int) =~= records@);
    let ghost fin = loot_stats(records@, rtv);
    let n = stats.len();
    let ghost keys = stats.key_list();
    proof {
        assert forall|k: Seq<char>| #[trigger] keys.contains(k) == fin.contains_key(k) by {
            if keys.contains(k) {
                assert(stats@.contains_key(keys[keys.index_of(k)]));
            }
        }
        lemma_sorted_keys_of(keys, fin);
    }
    let mut out: Vec<TagStat> = Vec::new();
    let mut j: usize = 0;
    while j < n
        invariant
            j <= n,
            n == keys.len(),
            keys == stats.key_list(),
            stats.listing(),
            stat_views(stats@) == fin,
            out@.len() == j,
            forall|p: int| 0 <= p < j ==> row_is(#[trigger] out@[p], keys[p], fin[keys[p]]),
        decreases n - j,
    {
        let v = *stats.value_at(j);
        out.push(TagStat {
            tag: stats.key_at(j),
            min_table_tags: v.0,
            table_count: v.1,
            has_affix_table: v.2,
        });
        j = j + 1;
    }
    out
}

} // verus!
