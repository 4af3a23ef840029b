//! The localized tag text: merging the tag files of the text bundles into one
//! tag -> text map, and a search over the texts (for inspecting how the game
//! itself uses `{^X}` color codes).
//!
//! Opening the `.arc` bundles and parsing their tag files happens outside this
//! library; it hands over each record's id and its parsed entries.

use vstd::prelude::*;
use crate::strmap::{sorted_keys, StrMap};
use crate::text::{chars_of, contains, contains_chars};

verus! {

/// Tag text lives in the records whose id mentions `tag` (the `tags*.txt`
/// files); the others are skipped.
pub open spec fn is_tag_record_id(id: Seq<char>) -> bool {
    contains(id, "tag"@)
}

/// Whether the record `id` holds tag text.
pub fn is_tag_record(id: &str) -> (r: bool)
    ensures
        r == is_tag_record_id(id@),
{
    contains_chars(chars_of(id).as_slice(), chars_of("tag").as_slice())
}

/// The texts of a tag map.
pub open spec fn text_views(m: Map<Seq<char>, String>) -> Map<Seq<char>, Seq<char>> {
    m.map_values(|s: String| s@)
}

/// The views of a list of string pairs.
pub open spec fn pair_list_views(v: Seq<(String, String)>) -> Seq<(Seq<char>, Seq<char>)> {
    Seq::new(v.len(), |i: int| (v[i].0@, v[i].1@))
}

/// `m` with the entries added in turn, a later entry replacing the text of an
/// earlier tag.
pub open spec fn merged(m: Map<Seq<char>, Seq<char>>, entries: Seq<(Seq<char>, Seq<char>)>) -> Map<
    Seq<char>,
    Seq<char>,
>
    decreases entries.len(),
{
    if entries.len() == 0 {
        m
    } else {
        merged(m, entries.drop_last()).insert(entries.last().0, entries.last().1)
    }
}

/// Merging lets the last entry for a tag win: a tag ends up with the text of
/// its last entry.
pub proof fn lemma_last_entry_wins(m: Map<Seq<char>, Seq<char>>, entries: Seq<(Seq<char>, Seq<char>)>, i: int)
    requires
        0 <= i < entries.len(),
        forall|j: int| i < j < entries.len() ==> #[trigger] entries[j].0 != entries[i].0,
    ensures
        merged(m, entries).contains_key(entries[i].0),
        merged(m, entries)[entries[i].0] == entries[i].1,
    decreases entries.len(),
{
    if i < entries.len() - 1 {
        let pre = entries.drop_last();
        assert(pre[i] == entries[i]);
        assert forall|j: int| i < j < pre.len() implies #[trigger] pre[j].0 != pre[i].0 by {
            assert(pre[j] == entries[j]);
        }
        lemma_last_entry_wins(m, pre, i);
        assert(entries[entries.len() - 1].0 != entries[i].0);
    }
}

/// A tag no entry gives keeps what it had.
pub proof fn lemma_untouched_tag_kept(m: Map<Seq<char>, Seq<char>>, entries: Seq<(Seq<char>, Seq<char>)>, k: Seq<char>)
    requires
        forall|i: int| 0 <= i < entries.len() ==> #[trigger] entries[i].0 != k,
    ensures
        merged(m, entries).contains_key(k) == m.contains_key(k),
        m.contains_key(k) ==> merged(m, entries)[k] == m[k],
    decreases entries.len(),
{
    if entries.len() > 0 {
        let pre = entries.drop_last();
        assert forall|i: int| 0 <= i < pre.len() implies #[trigger] pre[i].0 != k by {
            assert(pre[i] == entries[i]);
        }
        lemma_untouched_tag_kept(m, pre, k);
        assert(entries[entries.len() - 1].0 != k);
    }
}

/// Adds the parsed entries of one tag file; they override what earlier files
/// gave for the same tags.
pub fn merge(all: &mut StrMap<String>, parsed: &[(String, String)])
    ensures
        text_views(final(all)@) == merged(text_views(old(all)@), pair_list_views(parsed@)),
{
    let ghost m0 = text_views(all@);
    let ghost entries = pair_list_views(parsed@);
    let mut i: usize = 0;
    assert(entries.take(0) =~= Seq::<(Seq<char>, Seq<char>)>::empty());
    while i < parsed.len()
        invariant
            i <= parsed.len(),
            entries == pair_list_views(parsed@),
            text_views(all@) == merged(m0, entries.take(i as int)),
        decreases parsed.len() - i,
    {
        let (tag, text) = &parsed[i];
        assert(entries.take(i + 1).drop_last() =~= entries.take(i as int));
        assert(entries.take(i + 1).last() == (tag@, text@));
        let ghost before = text_views(all@);
        all.insert(tag.as_str(), text.clone());
        assert(text_views(all@) =~= before.insert(tag@, text@));
        i = i + 1;
    }
    assert(entries.take(i as int) =~= entries);
}

/// The texts that contain `needle`.
pub open spec fn p_hit(m: Map<Seq<char>, Seq<char>>, needle: Seq<char>) -> spec_fn(Seq<char>) -> bool {
    |t: Seq<char>| contains(m[t], needle)
}

/// The `(tag, text)` entries whose text contains `needle`, in ascending tag
/// order.
pub open spec fn hits(m: Map<Seq<char>, Seq<char>>, needle: Seq<char>) -> Seq<(Seq<char>, Seq<char>)> {
    sorted_keys(m).filter(p_hit(m, needle)).map_values(|t: Seq<char>| (t, m[t]))
}

/// The tags whose text contains `needle`, with their texts, sorted.
pub fn grep(all: &StrMap<String>, needle: &str) -> (out: Vec<(String, String)>)
    ensures
        pair_list_views(out@) == hits(text_views(all@), needle@),
{
    let ghost m = text_views(all@);
    let n = all.len();
    let ghost keys = all.key_list();
    proof {
        all.lemma_key_list_sorted();
        assert(sorted_keys(all@) == sorted_keys(m)) by {
            assert forall|k: Seq<char>| #[trigger] keys.contains(k) == m.contains_key(k) by {
                if keys.contains(k) {
                    assert(all@.contains_key(keys[keys.index_of(k)]));
                }
            }
            crate::strmap::lemma_sorted_keys_of(keys, m);
        }
    }
    let pat = chars_of(needle);
    let mut out: Vec<(String, String)> = Vec::new();
    let mut j: usize = 0;
    proof {
        assert(keys.take(0) =~= Seq::<Seq<char>>::empty());
        reveal(Seq::filter);
        assert(pair_list_views(out@) =~= keys.take(0).filter(p_hit(m, needle@)).map_values(
            |t: Seq<char>| (t, m[t]),
        ));
    }
    while j < n
        invariant
            j <= n,
            n == keys.len(),
            keys == all.key_list(),
            all.listing(),
            m == text_views(all@),
            pat@ == needle@,
            pair_list_views(out@) == keys.take(j as int).filter(p_hit(m, needle@)).map_values(
                |t: Seq<char>| (t, m[t]),
            ),
        decreases n - j,
    {
        let ghost t = keys[j as int];
        let ghost f0 = keys.take(j as int).filter(p_hit(m, needle@));
        proof {
            assert(keys.take(j + 1) =~= keys.take(j as int).push(t));
            keys.take(j as int).lemma_filter_push(t, p_hit(m, needle@));
        }
        let text = all.value_at(j);
        let ghost before = pair_list_views(out@);
        if contains_chars(chars_of(text.as_str()).as_slice(), pat.as_slice()) {
            out.push((all.key_at(j), text.clone()));
            assert(pair_list_views(out@) =~= before.push((t, m[t])));
            assert(f0.push(t).map_values(|t: Seq<char>| (t, m[t])) =~= f0.map_values(|t: Seq<char>| (t, m[t])).push(
                (t, m[t]),
            ));
        }
        j = j + 1;
    }
    assert(keys.take(n as int) =~= keys);
    out
}

} // verus!
