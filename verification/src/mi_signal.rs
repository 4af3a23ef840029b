//! Analysis: candidate Monster Infrequent signals per item tag, for offline
//! correlation against gd-filter.
//!
//! Signals:
//!   - dedicated:  the item is the sole tag in some loot table (dedicated affix table)
//!   - via_table:  reachable from a loot table that a creature references (a DROP)
//!   - via_equip:  directly referenced by a creature record (WORN equipment; noisy)
//!   - via_tdyn:   referenced by a `tdyn_*` (dynamic affix) loot table

use vstd::prelude::*;
use crate::db::{field_int, field_str, is_item_record_id, items_prefix, Record, Value};
use crate::loot_refs::{collect_record_tags, char_views, is_loot_name_key, loottables_prefix, record_tags, str_value};
use crate::conflicts::triple_views;
use crate::strmap::{lemma_sorted_keys_of, sorted_keys, StrMap};
use crate::text::{chars_of, contains, contains_chars, push_all, starts_with, starts_with_chars};

verus! {

pub open spec fn creatures_prefix() -> Seq<char> {
    "records/creatures/"@
}

/// The string values of a record's fields (only of its `lootName*` fields
/// when `loot_only`).
pub open spec fn field_strings(r: Record, loot_only: bool) -> Set<Seq<char>> {
    Set::new(
        |s: Seq<char>|
            exists|k: Seq<char>|
                #![trigger r.fields@.contains_key(k)]
                r.fields@.contains_key(k) && (!loot_only || is_loot_name_key(k)) && str_value(
                    r.fields@[k],
                ) == Some(s),
    )
}

pub open spec fn is_table_id(id: Seq<char>) -> bool {
    starts_with(id, loottables_prefix())
}

pub open spec fn is_creature_id(id: Seq<char>) -> bool {
    starts_with(id, creatures_prefix())
}

/// What the loot table(s) with id `id` among `rs` reference through their
/// `lootName*` fields (records sharing an id pool their references).
pub open spec fn refs_of(rs: Seq<Record>, id: Seq<char>) -> Set<Seq<char>> {
    Set::new(
        |s: Seq<char>|
            exists|i: int|
                0 <= i < rs.len() && (#[trigger] rs[i]).id@ == id && is_table_id(id) && field_strings(
                    rs[i],
                    true,
                ).contains(s),
    )
}

/// Loot tables referenced by some creature record.
pub open spec fn creature_tables(rs: Seq<Record>) -> Set<Seq<char>> {
    Set::new(
        |s: Seq<char>|
            exists|i: int|
                0 <= i < rs.len() && is_creature_id((#[trigger] rs[i]).id@) && field_strings(
                    rs[i],
                    false,
                ).contains(s) && is_table_id(s),
    )
}

/// Item records referenced directly by some creature record.
pub open spec fn creature_items(rs: Seq<Record>, rt: Map<Seq<char>, Seq<char>>) -> Set<Seq<char>> {
    Set::new(
        |s: Seq<char>|
            exists|i: int|
                0 <= i < rs.len() && is_creature_id((#[trigger] rs[i]).id@) && field_strings(
                    rs[i],
                    false,
                ).contains(s) && !is_table_id(s) && rt.contains_key(s),
    )
}

/// Item tags referenced by a `tdyn` (dynamic affix) loot table.
pub open spec fn tdyn_tags(rs: Seq<Record>, rt: Map<Seq<char>, Seq<char>>) -> Set<Seq<char>> {
    Set::new(
        |t: Seq<char>|
            exists|i: int, s: Seq<char>|
                0 <= i < rs.len() && is_table_id((#[trigger] rs[i]).id@) && contains(
                    rs[i].id@,
                    "tdyn"@,
                ) && #[trigger] field_strings(rs[i], true).contains(s) && rt.contains_key(s)
                    && rt[s] == t,
    )
}

/// The string values of `r`'s fields (its `lootName*` fields when
/// `loot_only`).
pub fn collect_strings(r: &Record, loot_only: bool) -> (out: StrMap<()>)
    ensures
        out@.dom() == field_strings(*r, loot_only),
{
    let mut out: StrMap<()> = StrMap::new();
    let n = r.fields.len();
    let ghost keys = r.fields.key_list();
    let ghost fm = r.fields@;
    let loot_name = chars_of("lootName");
    let mut f: usize = 0;
    assert(out@.dom() =~= Set::<Seq<char>>::empty());
    while f < n
        invariant
            f <= n,
            n == keys.len(),
            keys == r.fields.key_list(),
            fm == r.fields@,
            r.fields.listing(),
            loot_name@ == "lootName"@,
            forall|s: Seq<char>| #[trigger] out@.dom().contains(s) == exists|k: Seq<char>|
                #![trigger keys.take(f as int).contains(k)]
                keys.take(f as int).contains(k) && (!loot_only || is_loot_name_key(k)) && str_value(
                    fm[k],
                ) == Some(s),
        decreases n - f,
    {
        let key = r.fields.key_chars_at(f);
        let value = r.fields.value_at(f);
        let ghost k = keys[f as int];
        assert(keys.take(f + 1)[f as int] == k);
        assert forall|q: Seq<char>| #[trigger] keys.take(f + 1).contains(q) == (keys.take(f as int).contains(q) || q == k) by {
            if keys.take(f + 1).contains(q) {
                let p = keys.take(f + 1).index_of(q);
                if p < f {
                    assert(keys.take(f as int)[p] == q);
                }
            }
            if keys.take(f as int).contains(q) {
                let p = keys.take(f as int).index_of(q);
                assert(keys.take(f + 1)[p] == q);
            }
        }
        let ghost old_out = out@;
        if let Value::Str(s) = value {
            if !loot_only || starts_with_chars(key.as_slice(), loot_name.as_slice()) {
                out.insert_chars(chars_of(s.as_str()), ());
            }
        }
        proof {
            assert forall|s: Seq<char>| #[trigger] out@.dom().contains(s) == exists|q: Seq<char>|
                #![trigger keys.take(f + 1).contains(q)]
                keys.take(f + 1).contains(q) && (!loot_only || is_loot_name_key(q)) && str_value(
                    fm[q],
                ) == Some(s) by {
                if out@.dom().contains(s) && !old_out.dom().contains(s) {
                    assert(keys.take(f + 1).contains(k));
                }
                if old_out.dom().contains(s) {
                    let q = choose|q: Seq<char>|
                        #![trigger keys.take(f as int).contains(q)]
                        keys.take(f as int).contains(q) && (!loot_only || is_loot_name_key(q))
                            && str_value(fm[q]) == Some(s);
                    assert(keys.take(f + 1).contains(q));
                }
            }
        }
        f = f + 1;
    }
    proof {
        assert(keys.take(n as int) =~= keys);
        assert forall|q: Seq<char>| #[trigger] keys.contains(q) == fm.contains_key(q) by {
            if keys.contains(q) {
                assert(fm.contains_key(keys[keys.index_of(q)]));
            }
        }
        assert(out@.dom() =~= field_strings(*r, loot_only));
    }
    out
}

/// Adds every key of `src` to `dst`.
fn union_into(dst: &mut StrMap<()>, src: &StrMap<()>)
    ensures
        final(dst)@.dom() == old(dst)@.dom().union(src@.dom()),
{
    let n = src.len();
    let ghost keys = src.key_list();
    let ghost d0 = dst@.dom();
    let mut j: usize = 0;
    assert(d0 =~= d0.union(keys.take(0).to_set()));
    while j < n
        invariant
            j <= n,
            n == keys.len(),
            keys == src.key_list(),
            src.listing(),
            dst@.dom() == d0.union(keys.take(j as int).to_set()),
        decreases n - j,
    {
        let mut k: Vec<char> = Vec::new();
        push_all(&mut k, src.key_chars_at(j).as_slice());
        dst.insert_chars(k, ());
        assert(keys.take(j + 1) =~= keys.take(j as int).push(keys[j as int]));
        proof {
            keys.take(j as int).lemma_push_to_set_commute(keys[j as int]);
        }
        assert(dst@.dom() =~= d0.union(keys.take(j + 1).to_set()));
        j = j + 1;
    }
    proof {
        assert(keys.take(n as int) =~= keys);
        assert forall|x: Seq<char>| #[trigger] keys.to_set().contains(x) == src@.dom().contains(x) by {
            if keys.contains(x) {
                assert(src@.contains_key(keys[keys.index_of(x)]));
            }
        }
        assert(dst@.dom() =~= d0.union(src@.dom()));
    }
}

/// The tags of the item records among `refs`.
pub open spec fn tags_of(refs: Set<Seq<char>>, rt: Map<Seq<char>, Seq<char>>) -> Set<Seq<char>> {
    Set::new(|t: Seq<char>| exists|s: Seq<char>| #[trigger] refs.contains(s) && rt.contains_key(s) && rt[s] == t)
}

/// Adds the tag of every item record among `refs` to `dst`.
fn add_tags(dst: &mut StrMap<()>, refs: &StrMap<()>, rt: &StrMap<Vec<char>>)
    ensures
        final(dst)@.dom() == old(dst)@.dom().union(tags_of(refs@.dom(), char_views(rt@))),
{
    let n = refs.len();
    let ghost keys = refs.key_list();
    let ghost d0 = dst@.dom();
    let ghost rtv = char_views(rt@);
    let mut j: usize = 0;
    assert(d0 =~= d0.union(tags_of(keys.take(0).to_set(), rtv)));
    while j < n
        invariant
            j <= n,
            n == keys.len(),
            keys == refs.key_list(),
            refs.listing(),
            rtv == char_views(rt@),
            dst@.dom() == d0.union(tags_of(keys.take(j as int).to_set(), rtv)),
        decreases n - j,
    {
        let s = refs.key_chars_at(j);
        assert(keys.take(j + 1) =~= keys.take(j as int).push(keys[j as int]));
        proof {
            keys.take(j as int).lemma_push_to_set_commute(keys[j as int]);
        }
        let ghost before = dst@.dom();
        match rt.get_chars(s.as_slice()) {
            Some(tag) => {
                let mut t: Vec<char> = Vec::new();
                push_all(&mut t, tag.as_slice());
                dst.insert_chars(t, ());
                assert(rtv.contains_key(s@) && rtv[s@] == tag@);
            },
            None => {},
        }
        proof {
            let a = keys.take(j as int).to_set();
            let b = keys.take(j + 1).to_set();
            assert forall|t: Seq<char>| #[trigger] tags_of(b, rtv).contains(t) == (tags_of(a, rtv).contains(t) || (rtv.contains_key(s@) && rtv[s@] == t)) by {
                if tags_of(b, rtv).contains(t) {
                    let x = choose|x: Seq<char>| #[trigger] b.contains(x) && rtv.contains_key(x) && rtv[x] == t;
                    if x != s@ {
                        assert(a.contains(x));
                    }
                }
                if tags_of(a, rtv).contains(t) {
                    let x = choose|x: Seq<char>| #[trigger] a.contains(x) && rtv.contains_key(x) && rtv[x] == t;
                    assert(b.contains(x));
                }
                if rtv.contains_key(s@) && rtv[s@] == t {
                    assert(b.contains(s@));
                }
            }
        }
        assert(dst@.dom() =~= d0.union(tags_of(keys.take(j + 1).to_set(), rtv)));
        j = j + 1;
    }
    proof {
        assert(keys.take(n as int) =~= keys);
        assert(keys.to_set() =~= refs@.dom()) by {
            assert forall|x: Seq<char>| #[trigger] keys.to_set().contains(x) == refs@.dom().contains(x) by {
                if keys.contains(x) {
                    assert(refs@.contains_key(keys[keys.index_of(x)]));
                }
            }
        }
    }
}

/// The loot-table links among the records.
pub struct Links {
    /// loot table id -> record ids it references (items and/or sub-tables)
    pub table_refs: StrMap<StrMap<()>>,
    /// loot tables referenced by some creature (drop chains)
    pub creature_tables: StrMap<()>,
    /// item record ids referenced directly by some creature (worn equipment)
    pub creature_items: StrMap<()>,
    /// item tags referenced by a `tdyn_*` (dynamic affix) loot table
    pub tdyn_tags: StrMap<()>,
}

/// The reference sets of a table map.
pub open spec fn ref_sets(m: Map<Seq<char>, StrMap<()>>) -> Map<Seq<char>, Set<Seq<char>>> {
    m.map_values(|v: StrMap<()>| v@.dom())
}

/// The links hold what `rs` says: each table's pooled references (tables
/// without references have no entry), and the creature and `tdyn` sets.
pub open spec fn links_of(l: Links, rs: Seq<Record>, rt: Map<Seq<char>, Seq<char>>) -> bool {
    &&& forall|id: Seq<char>| #[trigger] ref_sets(l.table_refs@).contains_key(id) ==> ref_sets(l.table_refs@)[id] == refs_of(rs, id)
    &&& forall|id: Seq<char>| !#[trigger] ref_sets(l.table_refs@).contains_key(id) ==> refs_of(rs, id) == Set::<Seq<char>>::empty()
    &&& l.creature_tables@.dom() == creature_tables(rs)
    &&& l.creature_items@.dom() == creature_items(rs, rt)
    &&& l.tdyn_tags@.dom() == tdyn_tags(rs, rt)
}

proof fn lemma_prefix_record(rs: Seq<Record>, i: int)
    requires
        0 <= i < rs.len(),
    ensures
        rs.take(i + 1).len() == i + 1,
        forall|j: int| 0 <= j <= i ==> #[trigger] rs.take(i + 1)[j] == rs[j],
        forall|j: int| 0 <= j < i ==> #[trigger] rs.take(i)[j] == rs[j],
{
}

/// How the sets grow by one record.
proof fn lemma_links_step(rs: Seq<Record>, i: int, rtv: Map<Seq<char>, Seq<char>>)
    requires
        0 <= i < rs.len(),
    ensures
        forall|x: Seq<char>| #[trigger] refs_of(rs.take(i + 1), x) == (if x == rs[i].id@ && is_table_id(x) {
            refs_of(rs.take(i), x).union(field_strings(rs[i], true))
        } else {
            refs_of(rs.take(i), x)
        }),
        creature_tables(rs.take(i + 1)) == (if is_creature_id(rs[i].id@) {
            creature_tables(rs.take(i)).union(Set::new(|s: Seq<char>| field_strings(rs[i], false).contains(s) && is_table_id(s)))
        } else {
            creature_tables(rs.take(i))
        }),
        creature_items(rs.take(i + 1), rtv) == (if is_creature_id(rs[i].id@) {
            creature_items(rs.take(i), rtv).union(Set::new(|s: Seq<char>| field_strings(rs[i], false).contains(s) && !is_table_id(s) && rtv.contains_key(s)))
        } else {
            creature_items(rs.take(i), rtv)
        }),
        tdyn_tags(rs.take(i + 1), rtv) == (if is_table_id(rs[i].id@) && contains(rs[i].id@, "tdyn"@) {
            tdyn_tags(rs.take(i), rtv).union(tags_of(field_strings(rs[i], true), rtv))
        } else {
            tdyn_tags(rs.take(i), rtv)
        }),
{
    let pre = rs.take(i);
    let post = rs.take(i + 1);
    let r = rs[i];
    assert(post[i] == r);
    assert forall|x: Seq<char>| #[trigger] refs_of(post, x) == (if x == r.id@ && is_table_id(x) {
        refs_of(pre, x).union(field_strings(r, true))
    } else {
        refs_of(pre, x)
    }) by {
        let rhs = if x == r.id@ && is_table_id(x) {
            refs_of(pre, x).union(field_strings(r, true))
        } else {
            refs_of(pre, x)
        };
        assert forall|s: Seq<char>| #[trigger] refs_of(post, x).contains(s) == rhs.contains(s) by {
            if refs_of(post, x).contains(s) {
                let j = choose|j: int| 0 <= j < post.len() && (#[trigger] post[j]).id@ == x && is_table_id(x) && field_strings(post[j], true).contains(s);
                if j < i {
                    assert(pre[j] == post[j]);
                }
            }
            if refs_of(pre, x).contains(s) {
                let j = choose|j: int| 0 <= j < pre.len() && (#[trigger] pre[j]).id@ == x && is_table_id(x) && field_strings(pre[j], true).contains(s);
                assert(post[j] == pre[j]);
            }
            if x == r.id@ && is_table_id(x) && field_strings(r, true).contains(s) {
                assert(post[i] == r);
            }
        }
        assert(refs_of(post, x) =~= rhs);
    }
    let ct_rhs = if is_creature_id(r.id@) {
        creature_tables(pre).union(Set::new(|s: Seq<char>| field_strings(r, false).contains(s) && is_table_id(s)))
    } else {
        creature_tables(pre)
    };
    assert forall|s: Seq<char>| #[trigger] creature_tables(post).contains(s) == ct_rhs.contains(s) by {
        if creature_tables(post).contains(s) {
            let j = choose|j: int| 0 <= j < post.len() && is_creature_id((#[trigger] post[j]).id@) && field_strings(post[j], false).contains(s) && is_table_id(s);
            if j < i {
                assert(pre[j] == post[j]);
            }
        }
        if creature_tables(pre).contains(s) {
            let j = choose|j: int| 0 <= j < pre.len() && is_creature_id((#[trigger] pre[j]).id@) && field_strings(pre[j], false).contains(s) && is_table_id(s);
            assert(post[j] == pre[j]);
        }
    }
    assert(creature_tables(post) =~= ct_rhs);
    let ci_rhs = if is_creature_id(r.id@) {
        creature_items(pre, rtv).union(Set::new(|s: Seq<char>| field_strings(r, false).contains(s) && !is_table_id(s) && rtv.contains_key(s)))
    } else {
        creature_items(pre, rtv)
    };
    assert forall|s: Seq<char>| #[trigger] creature_items(post, rtv).contains(s) == ci_rhs.contains(s) by {
        if creature_items(post, rtv).contains(s) {
            let j = choose|j: int| 0 <= j < post.len() && is_creature_id((#[trigger] post[j]).id@) && field_strings(post[j], false).contains(s) && !is_table_id(s) && rtv.contains_key(s);
            if j < i {
                assert(pre[j] == post[j]);
            }
        }
        if creature_items(pre, rtv).contains(s) {
            let j = choose|j: int| 0 <= j < pre.len() && is_creature_id((#[trigger] pre[j]).id@) && field_strings(pre[j], false).contains(s) && !is_table_id(s) && rtv.contains_key(s);
            assert(post[j] == pre[j]);
        }
    }
    assert(creature_items(post, rtv) =~= ci_rhs);
    let td_rhs = if is_table_id(r.id@) && contains(r.id@, "tdyn"@) {
        tdyn_tags(pre, rtv).union(tags_of(field_strings(r, true), rtv))
    } else {
        tdyn_tags(pre, rtv)
    };
    assert forall|t: Seq<char>| #[trigger] tdyn_tags(post, rtv).contains(t) == td_rhs.contains(t) by {
        if tdyn_tags(post, rtv).contains(t) {
            let (j, s) = choose|j: int, s: Seq<char>| 0 <= j < post.len() && is_table_id((#[trigger] post[j]).id@) && contains(post[j].id@, "tdyn"@) && #[trigger] field_strings(post[j], true).contains(s) && rtv.contains_key(s) && rtv[s] == t;
            if j < i {
                assert(pre[j] == post[j]);
            } else {
                assert(field_strings(r, true).contains(s));
            }
        }
        if tdyn_tags(pre, rtv).contains(t) {
            let (j, s) = choose|j: int, s: Seq<char>| 0 <= j < pre.len() && is_table_id((#[trigger] pre[j]).id@) && contains(pre[j].id@, "tdyn"@) && #[trigger] field_strings(pre[j], true).contains(s) && rtv.contains_key(s) && rtv[s] == t;
            assert(post[j] == pre[j]);
        }
        if is_table_id(r.id@) && contains(r.id@, "tdyn"@) && tags_of(field_strings(r, true), rtv).contains(t) {
            let s = choose|s: Seq<char>| #[trigger] field_strings(r, true).contains(s) && rtv.contains_key(s) && rtv[s] == t;
            assert(field_strings(post[i], true).contains(s));
        }
    }
    assert(tdyn_tags(post, rtv) =~= td_rhs);
}

/// Sorts the strings a creature record holds into loot tables and item
/// records.
fn add_creature_refs(
    strs: &StrMap<()>,
    rt: &StrMap<Vec<char>>,
    creature_tables: &mut StrMap<()>,
    creature_items: &mut StrMap<()>,
)
    ensures
        final(creature_tables)@.dom() == old(creature_tables)@.dom().union(
            Set::new(|s: Seq<char>| strs@.dom().contains(s) && is_table_id(s)),
        ),
        final(creature_items)@.dom() == old(creature_items)@.dom().union(
            Set::new(|s: Seq<char>| strs@.dom().contains(s) && !is_table_id(s) && char_views(rt@).contains_key(s)),
        ),
{
    let ghost rtv = char_views(rt@);
    let table_prefix = chars_of("records/items/loottables/");
    let n = strs.len();
    let ghost keys = strs.key_list();
    let mut j: usize = 0;
    let ghost ct0 = creature_tables@.dom();
    let ghost ci0 = creature_items@.dom();
    assert(ct0 =~= ct0.union(Set::new(|s: Seq<char>| keys.take(0).contains(s) && is_table_id(s))));
    assert(ci0 =~= ci0.union(Set::new(|s: Seq<char>| keys.take(0).contains(s) && !is_table_id(s) && rtv.contains_key(s))));
    while j < n
        invariant
            j <= n,
            n == keys.len(),
            keys == strs.key_list(),
            strs.listing(),
            rtv == char_views(rt@),
            table_prefix@ == loottables_prefix(),
            creature_tables@.dom() == ct0.union(Set::new(|s: Seq<char>| keys.take(j as int).contains(s) && is_table_id(s))),
            creature_items@.dom() == ci0.union(Set::new(|s: Seq<char>| keys.take(j as int).contains(s) && !is_table_id(s) && rtv.contains_key(s))),
        decreases n - j,
    {
        let s = strs.key_chars_at(j);
        assert(keys.take(j + 1) =~= keys.take(j as int).push(keys[j as int]));
        assert forall|x: Seq<char>| #[trigger] keys.take(j + 1).contains(x) == (keys.take(j as int).contains(x) || x == keys[j as int]) by {
            if keys.take(j + 1).contains(x) {
                let p = keys.take(j + 1).index_of(x);
                if p < j {
                    assert(keys.take(j as int)[p] == x);
                }
            }
            if keys.take(j as int).contains(x) {
                let p = keys.take(j as int).index_of(x);
                assert(keys.take(j + 1)[p] == x);
            }
            assert(keys.take(j + 1)[j as int] == keys[j as int]);
        }
        let mut k: Vec<char> = Vec::new();
        push_all(&mut k, s.as_slice());
        if starts_with_chars(s.as_slice(), table_prefix.as_slice()) {
            creature_tables.insert_chars(k, ());
        } else if rt.contains_key_chars(s.as_slice()) {
            creature_items.insert_chars(k, ());
        }
        assert(creature_tables@.dom() =~= ct0.union(Set::new(|s: Seq<char>| keys.take(j + 1).contains(s) && is_table_id(s))));
        assert(creature_items@.dom() =~= ci0.union(Set::new(|s: Seq<char>| keys.take(j + 1).contains(s) && !is_table_id(s) && rtv.contains_key(s))));
        j = j + 1;
    }
    proof {
        assert(keys.take(n as int) =~= keys);
        assert forall|x: Seq<char>| #[trigger] keys.contains(x) == strs@.dom().contains(x) by {
            if keys.contains(x) {
                assert(strs@.contains_key(keys[keys.index_of(x)]));
            }
        }
        assert(creature_tables@.dom() =~= ct0.union(Set::new(|s: Seq<char>| strs@.dom().contains(s) && is_table_id(s))));
        assert(creature_items@.dom() =~= ci0.union(Set::new(|s: Seq<char>| strs@.dom().contains(s) && !is_table_id(s) && rtv.contains_key(s))));
    }
}

/// Collects the loot-table links of all records.
pub fn collect_links(records: &[Record], rt: &StrMap<Vec<char>>) -> (l: Links)
    ensures
        links_of(l, records@, char_views(rt@)),
{
    let ghost rtv = char_views(rt@);
    let ghost rs = records@;
    let mut l = Links {
        table_refs: StrMap::new(),
        creature_tables: StrMap::new(),
        creature_items: StrMap::new(),
        tdyn_tags: StrMap::new(),
    };
    let table_prefix = chars_of("records/items/loottables/");
    let creature_prefix = chars_of("records/creatures/");
    let tdyn = chars_of("tdyn");
    let mut i: usize = 0;
    proof {
        assert(rs.take(0).len() == 0);
        assert(ref_sets(l.table_refs@) =~= Map::<Seq<char>, Set<Seq<char>>>::empty());
        assert forall|id: Seq<char>| refs_of(rs.take(0), id) =~= Set::<Seq<char>>::empty() by {}
        assert(l.creature_tables@.dom() =~= creature_tables(rs.take(0)));
        assert(l.creature_items@.dom() =~= creature_items(rs.take(0), rtv));
        assert(l.tdyn_tags@.dom() =~= tdyn_tags(rs.take(0), rtv));
    }
    while i < records.len()
        invariant
            i <= records.len(),
            rs == records@,
            rtv == char_views(rt@),
            table_prefix@ == loottables_prefix(),
            creature_prefix@ == creatures_prefix(),
            tdyn@ == "tdyn"@,
            links_of(l, rs.take(i as int), rtv),
        decreases records.len() - i,
    {
        let r = &records[i];
        let ghost pre = rs.take(i as int);
        let ghost post = rs.take(i + 1);
        proof {
            lemma_prefix_record(rs, i as int);
        }
        let id = chars_of(r.id.as_str());
        let ghost old_l_refs = ref_sets(l.table_refs@);
        let ghost old_ct = l.creature_tables@.dom();
        let ghost old_ci = l.creature_items@.dom();
        let ghost old_td = l.tdyn_tags@.dom();
        let is_table = starts_with_chars(id.as_slice(), table_prefix.as_slice());
        if is_table {
            let lr = collect_strings(r, true);
            let mut inner = match l.table_refs.remove_chars(id.as_slice()) {
                Some(m) => m,
                None => StrMap::new(),
            };
            union_into(&mut inner, &lr);
            let ghost inner_dom = inner@.dom();
            assert(inner_dom == refs_of(pre, id@).union(field_strings(*r, true))) by {
                if !old_l_refs.contains_key(id@) {
                    assert(refs_of(pre, id@) =~= Set::<Seq<char>>::empty());
                }
            }
            let ghost removed = ref_sets(l.table_refs@);
            assert(removed =~= old_l_refs.remove(id@));
            if inner.len() > 0 {
                let mut key: Vec<char> = Vec::new();
                push_all(&mut key, id.as_slice());
                l.table_refs.insert_chars(key, inner);
                assert(ref_sets(l.table_refs@) =~= removed.insert(id@, inner_dom));
            } else {
                proof {
                    assert(inner@.dom() =~= Set::<Seq<char>>::empty()) by {
                        assert forall|x: Seq<char>| !#[trigger] inner@.contains_key(x) by {
                            if inner@.contains_key(x) {
                                assert(inner.key_list().contains(x));
                            }
                        }
                    }
                }
            }
            if contains_chars(id.as_slice(), tdyn.as_slice()) {
                add_tags(&mut l.tdyn_tags, &lr, rt);
            }
        }
        let is_creature = starts_with_chars(id.as_slice(), creature_prefix.as_slice());
        if is_creature {
            let strs = collect_strings(r, false);
            add_creature_refs(&strs, rt, &mut l.creature_tables, &mut l.creature_items);
        }
        proof {
            lemma_links_step(rs, i as int, rtv);
            assert(r.id@ == id@);
            let nr = ref_sets(l.table_refs@);
            assert forall|x: Seq<char>| #[trigger] nr.contains_key(x) implies nr[x] == refs_of(post, x) by {
                if x != id@ || !is_table_id(id@) {
                    assert(old_l_refs.contains_key(x));
                }
            }
            assert forall|x: Seq<char>| !#[trigger] nr.contains_key(x) implies refs_of(post, x) == Set::<Seq<char>>::empty() by {
                if x != id@ || !is_table_id(id@) {
                    assert(!old_l_refs.contains_key(x));
                }
            }
            assert(l.tdyn_tags@.dom() == tdyn_tags(post, rtv));
            assert(l.creature_tables@.dom() == creature_tables(post));
            assert(l.creature_items@.dom() == creature_items(post, rtv));
        }
        i = i + 1;
    }
    assert(rs.take(i as int) =~= rs);
    l
}

/// A loot table `a` leads to the sub-table `b`: `a` references `b`, which is
/// a loot table and not an item record.
pub open spec fn table_edge(rs: Seq<Record>, rt: Map<Seq<char>, Seq<char>>, a: Seq<char>, b: Seq<char>) -> bool {
    refs_of(rs, a).contains(b) && !rt.contains_key(b) && is_table_id(b)
}

/// `p` is a chain of loot tables starting at one a creature references.
pub open spec fn is_drop_path(rs: Seq<Record>, rt: Map<Seq<char>, Seq<char>>, p: Seq<Seq<char>>) -> bool {
    &&& p.len() > 0
    &&& creature_tables(rs).contains(p[0])
    &&& forall|k: int| 0 <= k < p.len() - 1 ==> table_edge(rs, rt, #[trigger] p[k], p[k + 1])
}

/// Loot table `t` is reachable from a creature's drop table.
pub open spec fn reachable(rs: Seq<Record>, rt: Map<Seq<char>, Seq<char>>, t: Seq<char>) -> bool {
    exists|p: Seq<Seq<char>>| #[trigger] is_drop_path(rs, rt, p) && p.last() == t
}

/// Item tags referenced by a loot table reachable from a creature (drops).
pub open spec fn drop_tags(rs: Seq<Record>, rt: Map<Seq<char>, Seq<char>>) -> Set<Seq<char>> {
    Set::new(
        |tg: Seq<char>|
            exists|t: Seq<char>, x: Seq<char>|
                #[trigger] reachable(rs, rt, t) && #[trigger] refs_of(rs, t).contains(x)
                    && rt.contains_key(x) && rt[x] == tg,
    )
}

/// The views of a list of character vectors.
pub open spec fn vec_views(v: Seq<Vec<char>>) -> Seq<Seq<char>> {
    Seq::new(v.len(), |i: int| v[i]@)
}

/// What visiting a table with references `refs` does to the search state:
/// the unseen sub-tables among `refs` are marked seen and queued (each once,
/// after what was queued), and the tags of the item records among `refs` are
/// collected.
pub open spec fn visit_post(
    rtv: Map<Seq<char>, Seq<char>>,
    refs: Set<Seq<char>>,
    seen0: Set<Seq<char>>,
    q0: Seq<Seq<char>>,
    drops0: Set<Seq<char>>,
    seen1: Set<Seq<char>>,
    q1: Seq<Seq<char>>,
    drops1: Set<Seq<char>>,
) -> bool {
    &&& seen1 == seen0.union(Set::new(|b: Seq<char>| refs.contains(b) && !rtv.contains_key(b) && is_table_id(b)))
    &&& q1.len() >= q0.len()
    &&& q1.take(q0.len() as int) == q0
    &&& forall|k: int| q0.len() <= k < q1.len() ==> !seen0.contains(#[trigger] q1[k])
    &&& forall|k: int, m: int| q0.len() <= k < m < q1.len() ==> #[trigger] q1[k] != #[trigger] q1[m]
    &&& forall|k: int| q0.len() <= k < q1.len() ==> seen1.contains(#[trigger] q1[k])
    &&& forall|b: Seq<char>| #[trigger] seen1.contains(b) && !seen0.contains(b) ==> q1.contains(b)
    &&& seen1.finite() ==> seen1.len() == seen0.len() + (q1.len() - q0.len())
    &&& seen0.finite() ==> seen1.finite()
    &&& drops1 == drops0.union(tags_of(refs, rtv))
}

/// The references of a visited table: item tags are collected, sub-tables not
/// seen before are marked seen and queued.
fn visit(
    refs: &StrMap<()>,
    rt: &StrMap<Vec<char>>,
    seen: &mut StrMap<()>,
    queue: &mut Vec<Vec<char>>,
    drops: &mut StrMap<()>,
)
    ensures
        visit_post(
            char_views(rt@),
            refs@.dom(),
            old(seen)@.dom(),
            vec_views(old(queue)@),
            old(drops)@.dom(),
            final(seen)@.dom(),
            vec_views(final(queue)@),
            final(drops)@.dom(),
        ),
{
    let ghost rtv = char_views(rt@);
    let ghost seen0 = seen@.dom();
    let ghost q0 = vec_views(queue@);
    let ghost drops0 = drops@.dom();
    let table_prefix = chars_of("records/items/loottables/");
    let n = refs.len();
    let ghost keys = refs.key_list();
    let mut j: usize = 0;
    proof {
        assert(seen0 =~= seen0.union(Set::new(|b: Seq<char>| keys.take(0).contains(b) && !rtv.contains_key(b) && is_table_id(b))));
        assert(drops0 =~= drops0.union(tags_of(keys.take(0).to_set(), rtv)));
        assert(vec_views(queue@).take(q0.len() as int) =~= q0);
    }
    while j < n
        invariant
            j <= n,
            n == keys.len(),
            keys == refs.key_list(),
            refs.listing(),
            rtv == char_views(rt@),
            table_prefix@ == loottables_prefix(),
            seen@.dom() == seen0.union(Set::new(|b: Seq<char>| keys.take(j as int).contains(b) && !rtv.contains_key(b) && is_table_id(b))),
            drops@.dom() == drops0.union(tags_of(keys.take(j as int).to_set(), rtv)),
            vec_views(queue@).len() >= q0.len(),
            vec_views(queue@).take(q0.len() as int) == q0,
            forall|k: int| q0.len() <= k < queue@.len() ==> !seen0.contains(#[trigger] vec_views(queue@)[k]),
            forall|k: int, m: int| q0.len() <= k < m < queue@.len() ==> #[trigger] vec_views(queue@)[k] != #[trigger] vec_views(queue@)[m],
            forall|k: int| q0.len() <= k < queue@.len() ==> seen@.dom().contains(#[trigger] vec_views(queue@)[k]),
            forall|b: Seq<char>| #[trigger] seen@.dom().contains(b) && !seen0.contains(b) ==> vec_views(queue@).contains(b),
            seen@.dom().finite() ==> seen@.dom().len() == seen0.len() + (queue@.len() - q0.len()),
            seen0.finite() ==> seen@.dom().finite(),
        decreases n - j,
    {
        let r = refs.key_chars_at(j);
        let ghost rv = r@;
        assert(keys.take(j + 1) =~= keys.take(j as int).push(rv));
        assert forall|x: Seq<char>| #[trigger] keys.take(j + 1).contains(x) == (keys.take(j as int).contains(x) || x == rv) by {
            if keys.take(j + 1).contains(x) {
                let p = keys.take(j + 1).index_of(x);
                if p < j {
                    assert(keys.take(j as int)[p] == x);
                }
            }
            if keys.take(j as int).contains(x) {
                let p = keys.take(j as int).index_of(x);
                assert(keys.take(j + 1)[p] == x);
            }
            assert(keys.take(j + 1)[j as int] == rv);
        }
        proof {
            keys.take(j as int).lemma_push_to_set_commute(rv);
        }
        let ghost seen_before = seen@.dom();
        let ghost qb = vec_views(queue@);
        match rt.get_chars(r.as_slice()) {
            Some(tag) => {
                let mut t: Vec<char> = Vec::new();
                push_all(&mut t, tag.as_slice());
                drops.insert_chars(t, ());
                assert(rtv.contains_key(rv) && rtv[rv] == tag@);
            },
            None => {
                if starts_with_chars(r.as_slice(), table_prefix.as_slice()) && !seen.contains_key_chars(r.as_slice()) {
                    let mut k1: Vec<char> = Vec::new();
                    push_all(&mut k1, r.as_slice());
                    seen.insert_chars(k1, ());
                    let mut k2: Vec<char> = Vec::new();
                    push_all(&mut k2, r.as_slice());
                    queue.push(k2);
                    proof {
                        assert(vec_views(queue@) =~= qb.push(rv));
                        assert(!seen0.contains(rv));
                        if seen@.dom().finite() {
                            assert(seen@.dom() =~= seen_before.insert(rv));
                            assert(seen_before.finite()) by {
                                assert(seen_before.subset_of(seen@.dom()));
                                vstd::set_lib::lemma_len_subset(seen_before, seen@.dom());
                            }
                        }
                        if seen0.finite() {
                            assert(seen_before.finite());
                            assert(seen@.dom() =~= seen_before.insert(rv));
                        }
                        assert forall|k: int| q0.len() <= k < queue@.len() - 1 implies vec_views(queue@)[k] != rv by {
                            assert(vec_views(queue@)[k] == qb[k]);
                            assert(seen_before.contains(qb[k]));
                        }
                        assert(vec_views(queue@)[queue@.len() - 1] == rv);
                        assert forall|b: Seq<char>| #[trigger] seen@.dom().contains(b) && !seen0.contains(b) implies vec_views(queue@).contains(b) by {
                            if b != rv {
                                assert(seen_before.contains(b));
                                let p = qb.index_of(b);
                                assert(vec_views(queue@)[p] == b);
                            }
                        }
                    }
                }
            },
        }
        proof {
            let a = keys.take(j as int).to_set();
            let b = keys.take(j + 1).to_set();
            assert forall|t: Seq<char>| #[trigger] tags_of(b, rtv).contains(t) == (tags_of(a, rtv).contains(t) || (rtv.contains_key(rv) && rtv[rv] == t)) by {
                if tags_of(b, rtv).contains(t) {
                    let x = choose|x: Seq<char>| #[trigger] b.contains(x) && rtv.contains_key(x) && rtv[x] == t;
                    if x != rv {
                        assert(a.contains(x));
                    }
                }
                if tags_of(a, rtv).contains(t) {
                    let x = choose|x: Seq<char>| #[trigger] a.contains(x) && rtv.contains_key(x) && rtv[x] == t;
                    assert(b.contains(x));
                }
                if rtv.contains_key(rv) && rtv[rv] == t {
                    assert(b.contains(rv));
                }
            }
            assert(drops@.dom() =~= drops0.union(tags_of(keys.take(j + 1).to_set(), rtv)));
            assert(seen@.dom() =~= seen0.union(Set::new(|b: Seq<char>| keys.take(j + 1).contains(b) && !rtv.contains_key(b) && is_table_id(b))));
            assert(vec_views(queue@).take(q0.len() as int) =~= q0);
        }
        j = j + 1;
    }
    proof {
        assert(keys.take(n as int) =~= keys);
        assert forall|x: Seq<char>| #[trigger] keys.contains(x) == refs@.dom().contains(x) by {
            if keys.contains(x) {
                assert(refs@.contains_key(keys[keys.index_of(x)]));
            }
        }
        assert(keys.to_set() =~= refs@.dom());
        assert(seen@.dom() =~= seen0.union(Set::new(|b: Seq<char>| refs@.dom().contains(b) && !rtv.contains_key(b) && is_table_id(b))));
    }
}

proof fn lemma_path_extend(rs: Seq<Record>, rt: Map<Seq<char>, Seq<char>>, a: Seq<char>, b: Seq<char>)
    requires
        reachable(rs, rt, a),
        table_edge(rs, rt, a, b),
    ensures
        reachable(rs, rt, b),
{
    let p = choose|p: Seq<Seq<char>>| #[trigger] is_drop_path(rs, rt, p) && p.last() == a;
    let q = p.push(b);
    assert forall|k: int| 0 <= k < q.len() - 1 implies table_edge(rs, rt, #[trigger] q[k], q[k + 1]) by {
        if k < p.len() - 1 {
            assert(q[k] == p[k] && q[k + 1] == p[k + 1]);
        } else {
            assert(q[k] == a && q[k + 1] == b);
        }
    }
    assert(is_drop_path(rs, rt, q));
}

/// A set of tables that holds every creature drop table and is closed under
/// table edges holds every reachable table.
proof fn lemma_closed_holds_reachable(
    rs: Seq<Record>,
    rt: Map<Seq<char>, Seq<char>>,
    seen: Set<Seq<char>>,
    t: Seq<char>,
)
    requires
        forall|c: Seq<char>| #[trigger] creature_tables(rs).contains(c) ==> seen.contains(c),
        forall|a: Seq<char>, b: Seq<char>| #[trigger] seen.contains(a) && #[trigger] table_edge(rs, rt, a, b) ==> seen.contains(b),
        reachable(rs, rt, t),
    ensures
        seen.contains(t),
{
    let p = choose|p: Seq<Seq<char>>| #[trigger] is_drop_path(rs, rt, p) && p.last() == t;
    lemma_path_prefix_seen(rs, rt, seen, p, p.len() - 1);
}

proof fn lemma_path_prefix_seen(
    rs: Seq<Record>,
    rt: Map<Seq<char>, Seq<char>>,
    seen: Set<Seq<char>>,
    p: Seq<Seq<char>>,
    k: int,
)
    requires
        forall|c: Seq<char>| #[trigger] creature_tables(rs).contains(c) ==> seen.contains(c),
        forall|a: Seq<char>, b: Seq<char>| #[trigger] seen.contains(a) && #[trigger] table_edge(rs, rt, a, b) ==> seen.contains(b),
        is_drop_path(rs, rt, p),
        0 <= k < p.len(),
    ensures
        seen.contains(p[k]),
    decreases k,
{
    if k > 0 {
        lemma_path_prefix_seen(rs, rt, seen, p, k - 1);
        assert(table_edge(rs, rt, p[k - 1], p[k]));
    }
}

/// The tables and sub-tables a drop search can meet: the creature drop
/// tables and everything a table references.
fn search_universe(links: &Links, Ghost(rs): Ghost<Seq<Record>>, Ghost(rtv): Ghost<Map<Seq<char>, Seq<char>>>) -> (u: StrMap<()>)
    requires
        links_of(*links, rs, rtv),
    ensures
        forall|c: Seq<char>| #[trigger] creature_tables(rs).contains(c) ==> u@.dom().contains(c),
        forall|id: Seq<char>, b: Seq<char>| #[trigger] refs_of(rs, id).contains(b) ==> u@.dom().contains(b),
{
    let mut u: StrMap<()> = StrMap::new();
    union_into(&mut u, &links.creature_tables);
    let n = links.table_refs.len();
    let ghost keys = links.table_refs.key_list();
    let ghost u0 = u@.dom();
    let mut j: usize = 0;
    while j < n
        invariant
            j <= n,
            n == keys.len(),
            keys == links.table_refs.key_list(),
            links.table_refs.listing(),
            links_of(*links, rs, rtv),
            forall|c: Seq<char>| #[trigger] creature_tables(rs).contains(c) ==> u@.dom().contains(c),
            forall|p: int, b: Seq<char>| 0 <= p < j && #[trigger] refs_of(rs, keys[p]).contains(b) ==> u@.dom().contains(b),
        decreases n - j,
    {
        let inner = links.table_refs.value_at(j);
        assert(ref_sets(links.table_refs@).contains_key(keys[j as int]));
        assert(inner@.dom() == refs_of(rs, keys[j as int]));
        union_into(&mut u, inner);
        j = j + 1;
    }
    proof {
        assert forall|id: Seq<char>, b: Seq<char>| #[trigger] refs_of(rs, id).contains(b) implies u@.dom().contains(b) by {
            if !ref_sets(links.table_refs@).contains_key(id) {
                assert(refs_of(rs, id) == Set::<Seq<char>>::empty());
            } else {
                assert(links.table_refs@.contains_key(id));
                assert(keys.contains(id));
                let p = keys.index_of(id);
                assert(refs_of(rs, keys[p]).contains(b));
            }
        }
    }
    u
}

/// Table `a` has been processed by the search: seen, and no longer queued.
pub open spec fn processed(seen: Set<Seq<char>>, q: Seq<Seq<char>>, a: Seq<char>) -> bool {
    seen.contains(a) && !q.contains(a)
}

/// The tags of the item records that the processed tables reference.
pub open spec fn processed_tags(
    rs: Seq<Record>,
    rtv: Map<Seq<char>, Seq<char>>,
    seen: Set<Seq<char>>,
    q: Seq<Seq<char>>,
) -> Set<Seq<char>> {
    Set::new(
        |tg: Seq<char>|
            exists|t: Seq<char>, x: Seq<char>|
                #[trigger] processed(seen, q, t) && #[trigger] refs_of(rs, t).contains(x) && rtv.contains_key(x)
                    && rtv[x] == tg,
    )
}

/// No table is queued twice.
pub open spec fn distinct(q: Seq<Seq<char>>) -> bool {
    forall|k: int, m: int| 0 <= k < m < q.len() ==> #[trigger] q[k] != #[trigger] q[m]
}

/// The state of the drop search: everything seen lies in the universe `u`,
/// is reachable, and every creature drop table is seen; the queue holds
/// distinct seen tables; a processed table leads only to seen tables; and
/// `drops` holds the tags the processed tables reference.
pub open spec fn search_inv(
    rs: Seq<Record>,
    rtv: Map<Seq<char>, Seq<char>>,
    u: Set<Seq<char>>,
    seen: Set<Seq<char>>,
    q: Seq<Seq<char>>,
    drops: Set<Seq<char>>,
) -> bool {
    &&& u.finite()
    &&& forall|id: Seq<char>, b: Seq<char>| #[trigger] refs_of(rs, id).contains(b) ==> u.contains(b)
    &&& seen.finite()
    &&& seen.subset_of(u)
    &&& distinct(q)
    &&& forall|k: int| 0 <= k < q.len() ==> seen.contains(#[trigger] q[k])
    &&& forall|x: Seq<char>| #[trigger] seen.contains(x) ==> reachable(rs, rtv, x)
    &&& forall|c: Seq<char>| #[trigger] creature_tables(rs).contains(c) ==> seen.contains(c)
    &&& forall|a: Seq<char>, b: Seq<char>|
        #[trigger] processed(seen, q, a) && #[trigger] table_edge(rs, rtv, a, b) ==> seen.contains(b)
    &&& drops == processed_tags(rs, rtv, seen, q)
}

/// After popping `t` off the queue and visiting it, the processed tables are
/// those processed before, and `t`.
proof fn lemma_processed_step(
    rtv: Map<Seq<char>, Seq<char>>,
    refs_t: Set<Seq<char>>,
    seen0: Set<Seq<char>>,
    q0: Seq<Seq<char>>,
    drops0: Set<Seq<char>>,
    seen1: Set<Seq<char>>,
    q1: Seq<Seq<char>>,
    drops1: Set<Seq<char>>,
)
    requires
        q0.len() > 0,
        distinct(q0),
        forall|k: int| 0 <= k < q0.len() ==> seen0.contains(#[trigger] q0[k]),
        visit_post(rtv, refs_t, seen0, q0.drop_last(), drops0, seen1, q1, drops1),
    ensures
        forall|a: Seq<char>| #[trigger] processed(seen1, q1, a) == (processed(seen0, q0, a) || a == q0.last()),
        distinct(q1),
        forall|k: int| 0 <= k < q1.len() ==> seen1.contains(#[trigger] q1[k]),
{
    let t = q0.last();
    let qm = q0.drop_last();
    assert forall|x: Seq<char>| #[trigger] qm.contains(x) implies q1.contains(x) && q0.contains(x) by {
        let p = qm.index_of(x);
        assert(q1.take(qm.len() as int)[p] == q1[p]);
        assert(q0[p] == x);
    }
    assert forall|x: Seq<char>| #[trigger] q1.contains(x) && seen0.contains(x) implies qm.contains(x) by {
        let p = q1.index_of(x);
        if p >= qm.len() {
            assert(!seen0.contains(q1[p]));
        } else {
            assert(q1.take(qm.len() as int)[p] == x);
        }
    }
    assert(!qm.contains(t)) by {
        if qm.contains(t) {
            let p = qm.index_of(t);
            assert(q0[p] == q0[q0.len() - 1]);
        }
    }
    assert(seen0.contains(t)) by {
        assert(seen0.contains(q0[q0.len() - 1]));
    }
    assert forall|a: Seq<char>| #[trigger] processed(seen1, q1, a) == (processed(seen0, q0, a) || a == t) by {
        if processed(seen1, q1, a) && a != t {
            assert(seen0.contains(a)) by {
                if !seen0.contains(a) {
                    assert(q1.contains(a));
                }
            }
            assert(!q0.contains(a)) by {
                if q0.contains(a) {
                    let p = q0.index_of(a);
                    assert(qm[p] == a);
                    assert(qm.contains(a));
                }
            }
        }
        if processed(seen0, q0, a) {
            assert(!qm.contains(a));
        }
    }
    assert forall|k: int, m: int| 0 <= k < m < q1.len() implies #[trigger] q1[k] != #[trigger] q1[m] by {
        if m < qm.len() {
            assert(q1[k] == q1.take(qm.len() as int)[k] && q1[m] == q1.take(qm.len() as int)[m]);
            assert(q0[k] == qm[k] && q0[m] == qm[m]);
        } else if k < qm.len() {
            assert(q1[k] == q1.take(qm.len() as int)[k]);
            assert(seen0.contains(q0[k]));
            assert(qm[k] == q0[k]);
        }
    }
    assert forall|k: int| 0 <= k < q1.len() implies seen1.contains(#[trigger] q1[k]) by {
        if k < qm.len() {
            assert(q1[k] == q1.take(qm.len() as int)[k]);
            assert(qm[k] == q0[k]);
            assert(seen0.contains(q0[k]));
        }
    }
}

/// One step of the drop search keeps its invariant and shrinks its measure.
proof fn lemma_search_step(
    rs: Seq<Record>,
    rtv: Map<Seq<char>, Seq<char>>,
    u: Set<Seq<char>>,
    seen0: Set<Seq<char>>,
    q0: Seq<Seq<char>>,
    drops0: Set<Seq<char>>,
    seen1: Set<Seq<char>>,
    q1: Seq<Seq<char>>,
    drops1: Set<Seq<char>>,
)
    requires
        search_inv(rs, rtv, u, seen0, q0, drops0),
        q0.len() > 0,
        visit_post(rtv, refs_of(rs, q0.last()), seen0, q0.drop_last(), drops0, seen1, q1, drops1),
    ensures
        search_inv(rs, rtv, u, seen1, q1, drops1),
        seen1.len() <= u.len(),
        2 * (u.len() - seen1.len()) + q1.len() < 2 * (u.len() - seen0.len()) + q0.len(),
{
    let t = q0.last();
    let refs_t = refs_of(rs, t);
    let added = Set::new(|b: Seq<char>| refs_t.contains(b) && !rtv.contains_key(b) && is_table_id(b));
    lemma_processed_step(rtv, refs_t, seen0, q0, drops0, seen1, q1, drops1);
    assert(seen0.contains(t)) by {
        assert(seen0.contains(q0[q0.len() - 1]));
    }
    assert(seen1.subset_of(u)) by {
        assert forall|b: Seq<char>| #[trigger] seen1.contains(b) implies u.contains(b) by {
            if !seen0.contains(b) {
                assert(refs_of(rs, t).contains(b));
            }
        }
    }
    vstd::set_lib::lemma_len_subset(seen1, u);
    assert forall|x: Seq<char>| #[trigger] seen1.contains(x) implies reachable(rs, rtv, x) by {
        if !seen0.contains(x) {
            assert(table_edge(rs, rtv, t, x));
            lemma_path_extend(rs, rtv, t, x);
        }
    }
    assert forall|a: Seq<char>, b: Seq<char>|
        #[trigger] processed(seen1, q1, a) && #[trigger] table_edge(rs, rtv, a, b) implies seen1.contains(b) by {
        if a == t {
            assert(added.contains(b));
        } else {
            assert(processed(seen0, q0, a));
        }
    }
    assert forall|tg: Seq<char>| #[trigger] drops1.contains(tg) == processed_tags(rs, rtv, seen1, q1).contains(tg) by {
        if drops0.contains(tg) {
            let (t2, x) = choose|t2: Seq<char>, x: Seq<char>|
                #[trigger] processed(seen0, q0, t2) && #[trigger] refs_of(rs, t2).contains(x) && rtv.contains_key(x)
                    && rtv[x] == tg;
            assert(processed(seen1, q1, t2));
        }
        if tags_of(refs_t, rtv).contains(tg) {
            let x = choose|x: Seq<char>| #[trigger] refs_t.contains(x) && rtv.contains_key(x) && rtv[x] == tg;
            assert(processed(seen1, q1, t) && refs_of(rs, t).contains(x));
        }
        if processed_tags(rs, rtv, seen1, q1).contains(tg) {
            let (t2, x) = choose|t2: Seq<char>, x: Seq<char>|
                #[trigger] processed(seen1, q1, t2) && #[trigger] refs_of(rs, t2).contains(x) && rtv.contains_key(x)
                    && rtv[x] == tg;
            if t2 == t {
                assert(tags_of(refs_t, rtv).contains(tg));
            } else {
                assert(processed(seen0, q0, t2));
            }
        }
    }
    assert(drops1 =~= processed_tags(rs, rtv, seen1, q1));
}

/// The tags of the items that drop from creatures: reachable from a
/// creature's loot table through table -> sub-table references.
fn find_drop_tags(links: &Links, rt: &StrMap<Vec<char>>, Ghost(rs): Ghost<Seq<Record>>) -> (out: StrMap<()>)
    requires
        links_of(*links, rs, char_views(rt@)),
    ensures
        out@.dom() == drop_tags(rs, char_views(rt@)),
{
    let ghost rtv = char_views(rt@);
    let u = search_universe(links, Ghost(rs), Ghost(rtv));
    let u_len = u.len();
    proof {
        u.lemma_dom_len();
    }
    let mut seen: StrMap<()> = StrMap::new();
    let mut queue: Vec<Vec<char>> = Vec::new();
    let mut drops: StrMap<()> = StrMap::new();
    let nct = links.creature_tables.len();
    let ghost ctk = links.creature_tables.key_list();
    let mut j: usize = 0;
    proof {
        assert(seen@.dom() =~= Set::<Seq<char>>::empty());
        assert(vec_views(queue@) =~= Seq::<Seq<char>>::empty());
    }
    while j < nct
        invariant
            j <= nct,
            nct == ctk.len(),
            ctk == links.creature_tables.key_list(),
            links.creature_tables.listing(),
            seen@.dom().finite(),
            vec_views(queue@) == ctk.take(j as int),
            forall|x: Seq<char>| #[trigger] seen@.dom().contains(x) == ctk.take(j as int).contains(x),
        decreases nct - j,
    {
        let c = links.creature_tables.key_chars_at(j);
        let mut k1: Vec<char> = Vec::new();
        push_all(&mut k1, c.as_slice());
        let mut k2: Vec<char> = Vec::new();
        push_all(&mut k2, c.as_slice());
        let ghost before = seen@.dom();
        let ghost qv0 = vec_views(queue@);
        seen.insert_chars(k1, ());
        queue.push(k2);
        assert(seen@.dom() =~= before.insert(ctk[j as int]));
        assert(vec_views(queue@) =~= qv0.push(ctk[j as int]));
        assert(ctk.take(j + 1) =~= ctk.take(j as int).push(ctk[j as int]));
        assert forall|x: Seq<char>| #[trigger] seen@.dom().contains(x) == ctk.take(j + 1).contains(x) by {
            if ctk.take(j + 1).contains(x) {
                let p = ctk.take(j + 1).index_of(x);
                if p < j {
                    assert(ctk.take(j as int)[p] == x);
                }
            }
            if ctk.take(j as int).contains(x) {
                let p = ctk.take(j as int).index_of(x);
                assert(ctk.take(j + 1)[p] == x);
            }
            assert(ctk.take(j + 1)[j as int] == ctk[j as int]);
        }
        j = j + 1;
    }
    proof {
        let sd = seen@.dom();
        let qv = vec_views(queue@);
        assert(ctk.take(nct as int) =~= ctk);
        assert forall|x: Seq<char>| #[trigger] ctk.contains(x) == creature_tables(rs).contains(x) by {
            if ctk.contains(x) {
                assert(links.creature_tables@.contains_key(ctk[ctk.index_of(x)]));
            }
        }
        assert forall|k: int, m: int| 0 <= k < m < qv.len() implies #[trigger] qv[k] != #[trigger] qv[m] by {
            assert(crate::strmap::lex_lt(ctk[k], ctk[m]));
            crate::strmap::lemma_lex_irreflexive(ctk[k]);
        }
        assert forall|k: int| 0 <= k < qv.len() implies sd.contains(#[trigger] qv[k]) by {
            assert(ctk.contains(ctk[k]));
        }
        assert forall|x: Seq<char>| #[trigger] sd.contains(x) implies reachable(rs, rtv, x) by {
            let p = seq![x];
            assert(is_drop_path(rs, rtv, p));
        }
        assert forall|x: Seq<char>| !#[trigger] processed(sd, qv, x) by {
            if sd.contains(x) {
                assert(qv.contains(x));
            }
        }
        assert(sd.subset_of(u@.dom()));
        assert(drops@.dom() =~= processed_tags(rs, rtv, sd, qv));
        assert(search_inv(rs, rtv, u@.dom(), sd, qv, drops@.dom()));
    }
    while queue.len() > 0
        invariant
            links_of(*links, rs, rtv),
            rtv == char_views(rt@),
            u@.dom().len() == u_len,
            search_inv(rs, rtv, u@.dom(), seen@.dom(), vec_views(queue@), drops@.dom()),
        decreases 2 * (u_len - seen@.dom().len()) + queue@.len(),
    {
        proof {
            vstd::set_lib::lemma_len_subset(seen@.dom(), u@.dom());
        }
        let ghost q0 = vec_views(queue@);
        let ghost seen0 = seen@.dom();
        let ghost drops0 = drops@.dom();
        let id = queue.pop().unwrap();
        let ghost t = id@;
        assert(vec_views(queue@) =~= q0.drop_last());
        assert(q0.last() == t);
        match links.table_refs.get_chars(id.as_slice()) {
            Some(inner) => {
                assert(ref_sets(links.table_refs@).contains_key(t));
                visit(inner, rt, &mut seen, &mut queue, &mut drops);
            },
            None => {
                assert(!ref_sets(links.table_refs@).contains_key(t));
                let ghost refs_t = refs_of(rs, t);
                assert(refs_t == Set::<Seq<char>>::empty());
                assert(tags_of(refs_t, rtv) =~= Set::<Seq<char>>::empty());
                assert(seen0 =~= seen0.union(
                    Set::new(|b: Seq<char>| refs_t.contains(b) && !rtv.contains_key(b) && is_table_id(b)),
                ));
                assert(vec_views(queue@).take(vec_views(queue@).len() as int) =~= vec_views(queue@));
                assert(drops0 =~= drops0.union(tags_of(refs_t, rtv)));
            },
        }
        proof {
            lemma_search_step(rs, rtv, u@.dom(), seen0, q0, drops0, seen@.dom(), vec_views(queue@), drops@.dom());
        }
    }
    proof {
        let sd = seen@.dom();
        let qv = vec_views(queue@);
        assert(qv =~= Seq::<Seq<char>>::empty());
        assert forall|a: Seq<char>, b: Seq<char>| #[trigger] sd.contains(a) && #[trigger] table_edge(rs, rtv, a, b) implies sd.contains(b) by {
            assert(processed(sd, qv, a));
        }
        assert forall|tg: Seq<char>| #[trigger] drops@.dom().contains(tg) == drop_tags(rs, rtv).contains(tg) by {
            if drop_tags(rs, rtv).contains(tg) {
                let (t2, x) = choose|t2: Seq<char>, x: Seq<char>|
                    #[trigger] reachable(rs, rtv, t2) && #[trigger] refs_of(rs, t2).contains(x) && rtv.contains_key(x) && rtv[x] == tg;
                lemma_closed_holds_reachable(rs, rtv, sd, t2);
                assert(processed(sd, qv, t2));
            }
            if drops@.dom().contains(tg) {
                let (t2, x) = choose|t2: Seq<char>, x: Seq<char>|
                    #[trigger] processed(sd, qv, t2) && #[trigger] refs_of(rs, t2).contains(x) && rtv.contains_key(x)
                        && rtv[x] == tg;
                assert(reachable(rs, rtv, t2));
            }
        }
        assert(drops@.dom() =~= drop_tags(rs, rtv));
    }
    drops
}

/// Item tag -> the largest `itemLevel` among the item records carrying that
/// tag (a record without a level counts as level 0).
pub open spec fn max_levels(rs: Seq<Record>) -> Map<Seq<char>, u32>
    decreases rs.len(),
{
    if rs.len() == 0 {
        Map::empty()
    } else {
        let m = max_levels(rs.drop_last());
        let r = rs.last();
        if starts_with(r.id@, items_prefix()) {
            match field_str(r, "itemNameTag"@) {
                Some(t) => {
                    let lvl: u32 = match field_int(r, "itemLevel"@) {
                        Some(n) => n,
                        None => 0,
                    };
                    let prev: u32 = if m.contains_key(t) { m[t] } else { 0 };
                    m.insert(t, if prev >= lvl { prev } else { lvl })
                },
                None => m,
            }
        } else {
            m
        }
    }
}

/// The level reported for tag `t`: its largest item level, 0 when unknown.
pub open spec fn level_of(m: Map<Seq<char>, u32>, t: Seq<char>) -> u32 {
    if m.contains_key(t) {
        m[t]
    } else {
        0
    }
}

/// Record `r` is an item record carrying the tag `t`.
pub open spec fn carries_tag(r: Record, t: Seq<char>) -> bool {
    starts_with(r.id@, "records/items/"@) && field_str(r, "itemNameTag"@) == Some(t)
}

/// A record's item level, 0 when it has none.
pub open spec fn item_level(r: Record) -> u32 {
    match field_int(r, "itemLevel"@) {
        Some(n) => n,
        None => 0,
    }
}

/// The level of a tag is the largest item level among the item records
/// carrying it: at least the level of each of them, and the level of one of
/// them; a tag gets a level exactly when some item record carries it.
pub proof fn lemma_max_level_is_largest(rs: Seq<Record>)
    ensures
        forall|t: Seq<char>| #[trigger] max_levels(rs).contains_key(t) == exists|i: int| 0 <= i < rs.len() && carries_tag(#[trigger] rs[i], t),
        forall|t: Seq<char>, i: int|
            0 <= i < rs.len() && #[trigger] carries_tag(rs[i], t) ==> item_level(rs[i]) <= #[trigger] max_levels(rs)[t],
        forall|t: Seq<char>| #[trigger] max_levels(rs).contains_key(t) ==> exists|i: int|
            0 <= i < rs.len() && #[trigger] carries_tag(rs[i], t) && item_level(rs[i]) == max_levels(rs)[t],
    decreases rs.len(),
{
    if rs.len() > 0 {
        let pre = rs.drop_last();
        let r = rs.last();
        let n = rs.len() - 1;
        lemma_max_level_is_largest(pre);
        assert forall|i: int| 0 <= i < pre.len() implies #[trigger] pre[i] == rs[i] by {}
        assert(rs[n] == r);
        let m0 = max_levels(pre);
        let m = max_levels(rs);
        assert forall|t: Seq<char>| #[trigger] m.contains_key(t) == exists|i: int| 0 <= i < rs.len() && carries_tag(#[trigger] rs[i], t) by {
            if m.contains_key(t) && !m0.contains_key(t) {
                assert(carries_tag(rs[n], t));
            }
            if exists|i: int| 0 <= i < rs.len() && carries_tag(#[trigger] rs[i], t) {
                let i = choose|i: int| 0 <= i < rs.len() && carries_tag(#[trigger] rs[i], t);
                if i < n {
                    assert(carries_tag(pre[i], t));
                }
            }
        }
        assert forall|t: Seq<char>, i: int| 0 <= i < rs.len() && #[trigger] carries_tag(rs[i], t) implies item_level(rs[i]) <= #[trigger] m[t] by {
            if i < n {
                assert(carries_tag(pre[i], t));
                assert(m0.contains_key(t));
                assert(item_level(pre[i]) <= m0[t]);
            }
        }
        assert forall|t: Seq<char>| #[trigger] m.contains_key(t) implies exists|i: int|
            0 <= i < rs.len() && #[trigger] carries_tag(rs[i], t) && item_level(rs[i]) == m[t] by {
            if carries_tag(r, t) && (!m0.contains_key(t) || m0[t] < item_level(r)) {
                assert(carries_tag(rs[n], t) && item_level(rs[n]) == m[t]);
            } else {
                assert(m0.contains_key(t));
                let i = choose|i: int| 0 <= i < pre.len() && #[trigger] carries_tag(pre[i], t) && item_level(pre[i]) == m0[t];
                assert(carries_tag(rs[i], t) && item_level(rs[i]) == m[t]);
            }
        }
    }
}

/// Item tag -> its largest item level, over the item records.
pub fn collect_max_levels(records: &[Record]) -> (m: StrMap<u32>)
    ensures
        m@ == max_levels(records@),
{
    let mut m: StrMap<u32> = StrMap::new();
    let mut i: usize = 0;
    assert(records@.take(0) =~= Seq::<Record>::empty());
    while i < records.len()
        invariant
            i <= records.len(),
            m@ == max_levels(records@.take(i as int)),
        decreases records.len() - i,
    {
        let r = &records[i];
        assert(records@.take(i + 1).drop_last() =~= records@.take(i as int));
        assert(records@.take(i + 1).last() == *r);
        if is_item_record_id(r.id.as_str()) {
            if let Some(tag) = r.string_field("itemNameTag") {
                let lvl: u32 = match r.int_field("itemLevel") {
                    Some(n) => n,
                    None => 0,
                };
                let key = chars_of(tag.as_str());
                let prev: u32 = match m.get_chars(key.as_slice()) {
                    Some(v) => *v,
                    None => 0,
                };
                m.insert_chars(key, if prev >= lvl { prev } else { lvl });
            }
        }
        i = i + 1;
    }
    assert(records@.take(i as int) =~= records@);
    m
}

/// The tags some loot table has as its only tag: its item references all
/// carry that one tag.
pub open spec fn dedicated_tags(rs: Seq<Record>, rt: Map<Seq<char>, Seq<char>>) -> Set<Seq<char>> {
    Set::new(|t: Seq<char>| exists|id: Seq<char>| #[trigger] tags_of(refs_of(rs, id), rt) == set![t])
}

/// The tags that are the sole tag of some loot table.
fn find_dedicated(links: &Links, rt: &StrMap<Vec<char>>, Ghost(rs): Ghost<Seq<Record>>) -> (out: StrMap<()>)
    requires
        links_of(*links, rs, char_views(rt@)),
    ensures
        out@.dom() == dedicated_tags(rs, char_views(rt@)),
{
    let ghost rtv = char_views(rt@);
    let ghost rsets = ref_sets(links.table_refs@);
    let ghost keys = links.table_refs.key_list();
    let n = links.table_refs.len();
    let mut out: StrMap<()> = StrMap::new();
    let mut j: usize = 0;
    assert(out@.dom() =~= Set::<Seq<char>>::empty());
    while j < n
        invariant
            j <= n,
            n == keys.len(),
            keys == links.table_refs.key_list(),
            links.table_refs.listing(),
            links_of(*links, rs, rtv),
            rtv == char_views(rt@),
            rsets == ref_sets(links.table_refs@),
            forall|t: Seq<char>| #[trigger] out@.dom().contains(t) == exists|p: int|
                0 <= p < j && #[trigger] tags_of(refs_of(rs, keys[p]), rtv) == set![t],
        decreases n - j,
    {
        let inner = links.table_refs.value_at(j);
        let ghost id = keys[j as int];
        assert(rsets.contains_key(id));
        assert(inner@.dom() == refs_of(rs, id));
        let mut tags: StrMap<()> = StrMap::new();
        assert(tags@.dom() =~= Set::<Seq<char>>::empty());
        add_tags(&mut tags, inner, rt);
        let ghost ts = tags@.dom();
        assert(ts =~= tags_of(refs_of(rs, id), rtv));
        let ghost before = out@.dom();
        if tags.len() == 1 {
            let only = tags.key_at(0);
            assert(ts =~= set![only@]) by {
                assert(tags@.contains_key(tags.key_list()[0]));
                assert forall|x: Seq<char>| #[trigger] ts.contains(x) implies x == only@ by {
                    assert(tags.key_list().contains(x));
                    let p = tags.key_list().index_of(x);
                }
            }
            out.insert(only.as_str(), ());
            assert forall|t: Seq<char>| #[trigger] out@.dom().contains(t) == exists|p: int|
                0 <= p < j + 1 && #[trigger] tags_of(refs_of(rs, keys[p]), rtv) == set![t] by {
                if t == only@ {
                    assert(tags_of(refs_of(rs, keys[j as int]), rtv) == set![t]);
                }
                if exists|p: int| 0 <= p < j + 1 && #[trigger] tags_of(refs_of(rs, keys[p]), rtv) == set![t] {
                    let p = choose|p: int| 0 <= p < j + 1 && #[trigger] tags_of(refs_of(rs, keys[p]), rtv) == set![t];
                    if p == j {
                        assert(set![t].contains(t));
                        assert(ts.contains(t));
                    }
                }
            }
        } else {
            proof {
                tags.lemma_dom_len();
            }
            assert forall|t: Seq<char>| #[trigger] out@.dom().contains(t) == exists|p: int|
                0 <= p < j + 1 && #[trigger] tags_of(refs_of(rs, keys[p]), rtv) == set![t] by {
                if exists|p: int| 0 <= p < j + 1 && #[trigger] tags_of(refs_of(rs, keys[p]), rtv) == set![t] {
                    let p = choose|p: int| 0 <= p < j + 1 && #[trigger] tags_of(refs_of(rs, keys[p]), rtv) == set![t];
                    if p == j {
                        assert(ts == set![t]);
                        assert(set![t].len() == 1);
                    }
                }
            }
        }
        j = j + 1;
    }
    proof {
        assert forall|t: Seq<char>| #[trigger] out@.dom().contains(t) == dedicated_tags(rs, rtv).contains(t) by {
            if out@.dom().contains(t) {
                let p = choose|p: int| 0 <= p < n && #[trigger] tags_of(refs_of(rs, keys[p]), rtv) == set![t];
                assert(tags_of(refs_of(rs, keys[p]), rtv) == set![t]);
            }
            if dedicated_tags(rs, rtv).contains(t) {
                let id = choose|id: Seq<char>| #[trigger] tags_of(refs_of(rs, id), rtv) == set![t];
                if rsets.contains_key(id) {
                    assert(links.table_refs@.contains_key(id));
                    let p = keys.index_of(id);
                    assert(tags_of(refs_of(rs, keys[p]), rtv) == set![t]);
                } else {
                    assert(refs_of(rs, id) == Set::<Seq<char>>::empty());
                    assert(tags_of(refs_of(rs, id), rtv) =~= Set::<Seq<char>>::empty());
                    assert(set![t].contains(t));
                }
            }
        }
        assert(out@.dom() =~= dedicated_tags(rs, rtv));
    }
    out
}

/// The tags the item records carry.
pub open spec fn all_tags(rt: Map<Seq<char>, Seq<char>>) -> Set<Seq<char>> {
    Set::new(|t: Seq<char>| exists|id: Seq<char>| #[trigger] rt.contains_key(id) && rt[id] == t)
}

/// The set of tags of an id -> tag map.
pub fn collect_tags(rt: &StrMap<Vec<char>>) -> (out: StrMap<()>)
    ensures
        out@.dom() == all_tags(char_views(rt@)),
{
    let ghost rtv = char_views(rt@);
    let ghost keys = rt.key_list();
    let n = rt.len();
    let mut out: StrMap<()> = StrMap::new();
    let mut j: usize = 0;
    assert(out@.dom() =~= Set::<Seq<char>>::empty());
    while j < n
        invariant
            j <= n,
            n == keys.len(),
            keys == rt.key_list(),
            rt.listing(),
            rtv == char_views(rt@),
            forall|t: Seq<char>| #[trigger] out@.dom().contains(t) == exists|p: int| 0 <= p < j && #[trigger] rtv[keys[p]] == t,
        decreases n - j,
    {
        let v = rt.value_at(j);
        let mut k: Vec<char> = Vec::new();
        push_all(&mut k, v.as_slice());
        assert(rtv[keys[j as int]] == v@);
        out.insert_chars(k, ());
        assert forall|t: Seq<char>| #[trigger] out@.dom().contains(t) == exists|p: int| 0 <= p < j + 1 && #[trigger] rtv[keys[p]] == t by {
            if t == v@ {
                assert(rtv[keys[j as int]] == t);
            }
        }
        j = j + 1;
    }
    proof {
        assert forall|t: Seq<char>| #[trigger] out@.dom().contains(t) == all_tags(rtv).contains(t) by {
            if out@.dom().contains(t) {
                let p = choose|p: int| 0 <= p < n && #[trigger] rtv[keys[p]] == t;
                assert(rt@.contains_key(keys[p]));
            }
            if all_tags(rtv).contains(t) {
                let id = choose|id: Seq<char>| #[trigger] rtv.contains_key(id) && rtv[id] == t;
                assert(keys.contains(id));
                let p = keys.index_of(id);
                assert(rtv[keys[p]] == t);
            }
        }
        assert(out@.dom() =~= all_tags(rtv));
    }
    out
}

/// The candidate signals of one item tag.
pub struct TagSignals {
    pub tag: String,
    /// The tag is the only tag of some loot table (a dedicated table).
    pub dedicated: bool,
    /// An item with the tag drops from a creature's loot table chain.
    pub via_table: bool,
    /// A creature record references an item with the tag directly (worn).
    pub via_equip: bool,
    /// A `tdyn` (dynamic affix) loot table references an item with the tag.
    pub via_tdyn: bool,
    /// The largest item level among the tag's records.
    pub max_level: u32,
}

/// The tags reported on, in ascending order: every tag an item record
/// carries.
pub open spec fn signal_tags(rs: Seq<Record>) -> Seq<Seq<char>> {
    sorted_keys(Map::new(|t: Seq<char>| all_tags(record_tags(rs)).contains(t), |t: Seq<char>| ()))
}

/// Row `s` holds the signals of tag `t` over the records `rs`.
pub open spec fn signals_of(s: TagSignals, rs: Seq<Record>, t: Seq<char>) -> bool {
    let rt = record_tags(rs);
    &&& s.tag@ == t
    &&& s.dedicated == dedicated_tags(rs, rt).contains(t)
    &&& s.via_table == drop_tags(rs, rt).contains(t)
    &&& s.via_equip == tags_of(creature_items(rs, rt), rt).contains(t)
    &&& s.via_tdyn == tdyn_tags(rs, rt).contains(t)
    &&& s.max_level == level_of(max_levels(rs), t)
}

/// Computes the signals of every item tag, one row per tag in ascending tag
/// order.
pub fn run(records: &[Record]) -> (out: Vec<TagSignals>)
    ensures
        out@.len() == signal_tags(records@).len(),
        forall|i: int| 0 <= i < out@.len() ==> signals_of(#[trigger] out@[i], records@, signal_tags(records@)[i]),
{
    let ghost rs = records@;
    let rt = collect_record_tags(records);
    let ghost rtv = char_views(rt@);
    let levels = collect_max_levels(records);
    let links = collect_links(records, &rt);
    let dedicated = find_dedicated(&links, &rt, Ghost(rs));
    let drops = find_drop_tags(&links, &rt, Ghost(rs));
    let mut equip: StrMap<()> = StrMap::new();
    assert(equip@.dom() =~= Set::<Seq<char>>::empty());
    add_tags(&mut equip, &links.creature_items, &rt);
    assert(equip@.dom() =~= tags_of(creature_items(rs, rtv), rtv));
    let tags = collect_tags(&rt);
    let n = tags.len();
    let ghost keys = tags.key_list();
    let ghost tm = Map::new(|t: Seq<char>| all_tags(record_tags(rs)).contains(t), |t: Seq<char>| ());
    proof {
        assert forall|k: Seq<char>| #[trigger] keys.contains(k) == tm.contains_key(k) by {
            if keys.contains(k) {
                assert(tags@.contains_key(keys[keys.index_of(k)]));
            }
        }
        lemma_sorted_keys_of(keys, tm);
    }
    let mut out: Vec<TagSignals> = Vec::new();
    let mut j: usize = 0;
    while j < n
        invariant
            j <= n,
            n == keys.len(),
            keys == tags.key_list(),
            keys == signal_tags(rs),
            tags.listing(),
            rs == records@,
            rtv == record_tags(rs),
            levels@ == max_levels(rs),
            dedicated@.dom() == dedicated_tags(rs, rtv),
            drops@.dom() == drop_tags(rs, rtv),
            equip@.dom() == tags_of(creature_items(rs, rtv), rtv),
            links_of(links, rs, rtv),
            out@.len() == j,
            forall|p: int| 0 <= p < j ==> signals_of(#[trigger] out@[p], rs, keys[p]),
        decreases n - j,
    {
        let t = tags.key_chars_at(j);
        let max_level: u32 = match levels.get_chars(t.as_slice()) {
            Some(v) => *v,
            None => 0,
        };
        out.push(TagSignals {
            tag: tags.key_at(j),
            dedicated: dedicated.contains_key_chars(t.as_slice()),
            via_table: drops.contains_key_chars(t.as_slice()),
            via_equip: equip.contains_key_chars(t.as_slice()),
            via_tdyn: links.tdyn_tags.contains_key_chars(t.as_slice()),
            max_level,
        });
        j = j + 1;
    }
    out
}

/// The `(record id, field, value)` triples of the fields among `ks` of record
/// `r` whose string value contains `needle`, in the order of `ks`.
pub open spec fn field_matches(r: Record, ks: Seq<Seq<char>>, needle: Seq<char>) -> Seq<(Seq<char>, Seq<char>, Seq<char>)>
    decreases ks.len(),
{
    if ks.len() == 0 {
        Seq::empty()
    } else {
        let prev = field_matches(r, ks.drop_last(), needle);
        let k = ks.last();
        match str_value(r.fields@[k]) {
            Some(s) => if contains(s, needle) {
                prev.push((r.id@, k, s))
            } else {
                prev
            },
            None => prev,
        }
    }
}

/// The reverse references to `needle`: for each record in turn, its fields
/// (by ascending name) whose string value contains `needle`.
pub open spec fn refs_in(rs: Seq<Record>, needle: Seq<char>) -> Seq<(Seq<char>, Seq<char>, Seq<char>)>
    decreases rs.len(),
{
    if rs.len() == 0 {
        Seq::empty()
    } else {
        refs_in(rs.drop_last(), needle) + field_matches(rs.last(), sorted_keys(rs.last().fields@), needle)
    }
}

/// Field `k` of record `r` holds a string containing `needle`.
pub open spec fn field_hit(r: Record, k: Seq<char>, needle: Seq<char>) -> bool {
    r.fields@.contains_key(k) && match str_value(r.fields@[k]) {
        Some(s) => contains(s, needle),
        None => false,
    }
}

/// The string held by field `k` of record `r`.
pub open spec fn field_text(r: Record, k: Seq<char>) -> Seq<char> {
    match str_value(r.fields@[k]) {
        Some(s) => s,
        None => Seq::empty(),
    }
}

/// The fields of `r` whose string contains `needle`.
pub open spec fn hit_fields(r: Record, needle: Seq<char>) -> Set<Seq<char>> {
    Set::new(|k: Seq<char>| field_hit(r, k, needle))
}

/// How many fields, over all the records, hold a string containing `needle`.
pub open spec fn hit_total(rs: Seq<Record>, needle: Seq<char>) -> nat
    decreases rs.len(),
{
    if rs.len() == 0 {
        0
    } else {
        hit_total(rs.drop_last(), needle) + hit_fields(rs.last(), needle).len()
    }
}

proof fn lemma_field_matches(r: Record, ks: Seq<Seq<char>>, needle: Seq<char>)
    requires
        ks.no_duplicates(),
        forall|k: Seq<char>| ks.contains(k) ==> #[trigger] r.fields@.contains_key(k),
    ensures
        forall|x: (Seq<char>, Seq<char>, Seq<char>)| #[trigger] field_matches(r, ks, needle).contains(x) == (x.0 == r.id@
            && ks.contains(x.1) && field_hit(r, x.1, needle) && x.2 == field_text(r, x.1)),
        Set::new(|k: Seq<char>| ks.contains(k) && field_hit(r, k, needle)).finite(),
        field_matches(r, ks, needle).len() == Set::new(|k: Seq<char>| ks.contains(k) && field_hit(r, k, needle)).len(),
    decreases ks.len(),
{
    let set = Set::new(|k: Seq<char>| ks.contains(k) && field_hit(r, k, needle));
    if ks.len() == 0 {
        assert(set =~= Set::<Seq<char>>::empty());
    } else {
        let pre = ks.drop_last();
        let k = ks.last();
        assert forall|i: int, j: int| 0 <= i < pre.len() && 0 <= j < pre.len() && i != j implies pre[i] != pre[j] by {
            assert(pre[i] == ks[i] && pre[j] == ks[j]);
        }
        assert forall|q: Seq<char>| pre.contains(q) implies #[trigger] r.fields@.contains_key(q) by {
            let p = pre.index_of(q);
            assert(ks[p] == q);
            assert(ks.contains(q));
        }
        lemma_field_matches(r, pre, needle);
        let pset = Set::new(|q: Seq<char>| pre.contains(q) && field_hit(r, q, needle));
        assert(ks.contains(k)) by {
            assert(ks[ks.len() - 1] == k);
        }
        assert(!pre.contains(k)) by {
            if pre.contains(k) {
                let p = pre.index_of(k);
                assert(ks[p] == ks[ks.len() - 1]);
            }
        }
        assert forall|q: Seq<char>| #[trigger] ks.contains(q) == (pre.contains(q) || q == k) by {
            if ks.contains(q) {
                let p = ks.index_of(q);
                if p < ks.len() - 1 {
                    assert(pre[p] == q);
                }
            }
            if pre.contains(q) {
                let p = pre.index_of(q);
                assert(ks[p] == q);
            }
        }
        let prev = field_matches(r, pre, needle);
        if field_hit(r, k, needle) {
            assert(set =~= pset.insert(k));
            let s0 = str_value(r.fields@[k])->0;
            assert(field_matches(r, ks, needle) == prev.push((r.id@, k, s0)));
            assert forall|x: (Seq<char>, Seq<char>, Seq<char>)| #[trigger] prev.push((r.id@, k, s0)).contains(x) == (prev.contains(x) || x == (r.id@, k, s0)) by {
                if prev.push((r.id@, k, s0)).contains(x) {
                    let p = prev.push((r.id@, k, s0)).index_of(x);
                    if p < prev.len() {
                        assert(prev[p] == x);
                    }
                }
                if prev.contains(x) {
                    let p = prev.index_of(x);
                    assert(prev.push((r.id@, k, s0))[p] == x);
                }
                assert(prev.push((r.id@, k, s0))[prev.len() as int] == (r.id@, k, s0));
            }
        } else {
            assert(set =~= pset);
            assert(field_matches(r, ks, needle) == prev);
        }
    }
}

/// The reverse references list every field, of every record, whose string
/// contains `needle`, as `(record id, field, value)`, and nothing else; each
/// such field once per record holding it.
pub proof fn lemma_refs_complete(rs: Seq<Record>, needle: Seq<char>)
    requires
        forall|i: int| 0 <= i < rs.len() ==> (#[trigger] rs[i]).fields.listing(),
    ensures
        forall|i: int, k: Seq<char>|
            #![trigger rs[i], field_hit(rs[i], k, needle)]
            0 <= i < rs.len() && field_hit(rs[i], k, needle) ==> refs_in(rs, needle).contains(
                (rs[i].id@, k, field_text(rs[i], k)),
            ),
        forall|x: (Seq<char>, Seq<char>, Seq<char>)| #[trigger] refs_in(rs, needle).contains(x) ==> exists|i: int|
            0 <= i < rs.len() && x.0 == (#[trigger] rs[i]).id@ && field_hit(rs[i], x.1, needle) && x.2 == field_text(rs[i], x.1),
        refs_in(rs, needle).len() == hit_total(rs, needle),
    decreases rs.len(),
{
    if rs.len() > 0 {
        let pre = rs.drop_last();
        let r = rs.last();
        let n = rs.len() - 1;
        assert forall|i: int| 0 <= i < pre.len() implies #[trigger] pre[i] == rs[i] by {}
        assert forall|i: int| 0 <= i < pre.len() implies (#[trigger] pre[i]).fields.listing() by {
            assert(rs[i].fields.listing());
        }
        lemma_refs_complete(pre, needle);
        assert(rs[n] == r);
        assert(r.fields.listing());
        r.fields.lemma_key_list_sorted();
        let ks = sorted_keys(r.fields@);
        assert(ks.no_duplicates()) by {
            assert forall|i: int, j: int| 0 <= i < ks.len() && 0 <= j < ks.len() && i != j implies ks[i] != ks[j] by {
                if i < j {
                    crate::strmap::lemma_lex_irreflexive(ks[i]);
                } else {
                    crate::strmap::lemma_lex_irreflexive(ks[j]);
                }
            }
        }
        assert forall|k: Seq<char>| ks.contains(k) implies #[trigger] r.fields@.contains_key(k) by {
            let p = ks.index_of(k);
            assert(r.fields@.contains_key(r.fields.key_list()[p]));
        }
        lemma_field_matches(r, ks, needle);
        assert(Set::new(|k: Seq<char>| ks.contains(k) && field_hit(r, k, needle)) =~= hit_fields(r, needle)) by {
            assert forall|k: Seq<char>| field_hit(r, k, needle) implies ks.contains(k) by {
                assert(r.fields.key_list().contains(k));
            }
        }
        let a = refs_in(pre, needle);
        let b = field_matches(r, ks, needle);
        assert(refs_in(rs, needle) == a + b);
        assert forall|x: (Seq<char>, Seq<char>, Seq<char>)| #[trigger] (a + b).contains(x) == (a.contains(x) || b.contains(x)) by {
            if (a + b).contains(x) {
                let p = (a + b).index_of(x);
                if p < a.len() {
                    assert(a[p] == x);
                } else {
                    assert(b[p - a.len()] == x);
                }
            }
            if a.contains(x) {
                let p = a.index_of(x);
                assert((a + b)[p] == x);
            }
            if b.contains(x) {
                let p = b.index_of(x);
                assert((a + b)[p + a.len()] == x);
            }
        }
        assert forall|i: int, k: Seq<char>|
            #![trigger rs[i], field_hit(rs[i], k, needle)]
            0 <= i < rs.len() && field_hit(rs[i], k, needle) implies refs_in(rs, needle).contains(
                (rs[i].id@, k, field_text(rs[i], k)),
            ) by {
            if i < n {
                assert(field_hit(pre[i], k, needle));
                assert(a.contains((pre[i].id@, k, field_text(pre[i], k))));
            } else {
                assert(r.fields.key_list().contains(k));
                assert(b.contains((r.id@, k, field_text(r, k))));
            }
        }
        assert forall|x: (Seq<char>, Seq<char>, Seq<char>)| #[trigger] refs_in(rs, needle).contains(x) implies exists|i: int|
            0 <= i < rs.len() && x.0 == (#[trigger] rs[i]).id@ && field_hit(rs[i], x.1, needle) && x.2 == field_text(rs[i], x.1) by {
            if a.contains(x) {
                let i = choose|i: int|
                    0 <= i < pre.len() && x.0 == (#[trigger] pre[i]).id@ && field_hit(pre[i], x.1, needle) && x.2 == field_text(pre[i], x.1);
                assert(rs[i] == pre[i]);
            } else {
                assert(b.contains(x));
                assert(x.0 == rs[n].id@ && field_hit(rs[n], x.1, needle));
            }
        }
    }
}

/// Lists the `(record id, field, value)` triples of the string fields whose
/// value contains `needle`.
pub fn refs(records: &[Record], needle: &str) -> (out: Vec<(String, String, String)>)
    ensures
        triple_views(out@) == refs_in(records@, needle@),
{
    let pat = chars_of(needle);
    let mut out: Vec<(String, String, String)> = Vec::new();
    let mut i: usize = 0;
    assert(records@.take(0) =~= Seq::<Record>::empty());
    assert(triple_views(out@) =~= Seq::<(Seq<char>, Seq<char>, Seq<char>)>::empty());
    while i < records.len()
        invariant
            i <= records.len(),
            pat@ == needle@,
            triple_views(out@) == refs_in(records@.take(i as int), needle@),
        decreases records.len() - i,
    {
        let r = &records[i];
        let n = r.fields.len();
        let ghost keys = r.fields.key_list();
        let ghost base = triple_views(out@);
        proof {
            r.fields.lemma_key_list_sorted();
        }
        let mut f: usize = 0;
        assert(keys.take(0) =~= Seq::<Seq<char>>::empty());
        assert(base + field_matches(*r, keys.take(0), needle@) =~= base);
        while f < n
            invariant
                f <= n,
                n == keys.len(),
                keys == r.fields.key_list(),
                r.fields.listing(),
                pat@ == needle@,
                triple_views(out@) == base + field_matches(*r, keys.take(f as int), needle@),
            decreases n - f,
        {
            let value = r.fields.value_at(f);
            let ghost k = keys[f as int];
            assert(keys.take(f + 1).drop_last() =~= keys.take(f as int));
            assert(keys.take(f + 1).last() == k);
            let ghost prev = triple_views(out@);
            if let Value::Str(s) = value {
                if contains_chars(chars_of(s.as_str()).as_slice(), pat.as_slice()) {
                    out.push((r.id.clone(), r.fields.key_at(f), s.clone()));
                    assert(triple_views(out@) =~= prev.push((r.id@, k, s@)));
                }
            }
            assert(triple_views(out@) =~= base + field_matches(*r, keys.take(f + 1), needle@));
            f = f + 1;
        }
        assert(keys.take(n as int) =~= keys);
        assert(records@.take(i + 1).drop_last() =~= records@.take(i as int));
        assert(records@.take(i + 1).last() == *r);
        i = i + 1;
    }
    assert(records@.take(i as int) =~= records@);
    out
}

} // verus!
