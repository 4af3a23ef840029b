//! Scores the inference engine against a hand-maintained ground truth (the
//! `Tags` map of WanezGD_Tools' `gd-filter.json`): coverage of the tags in
//! scope, agreement on `Type` and `Classification`, the type confusion, and a
//! sample of classification mismatches.
//!
//! Reading and parsing the ground-truth file happens outside this library;
//! the scoring here works on its entries handed over as plain values.

use vstd::prelude::*;
use crate::conflicts::{pair_views, triple_views};
use crate::infer::TagInfo;
use crate::keywords::{kind_name, rarity_name};
use crate::strmap::{sorted_keys, StrMap};
use crate::text::{chars_eq, chars_of, to_text};

verus! {

/// One ground-truth entry: the tag's `Type` and `Classification`, where given.
pub struct TruthTag {
    pub kind: Option<String>,
    pub classification: Option<String>,
}

/// The types the inference attempts (`Regular Item`, `MI Item`, `Affix`);
/// every other ground-truth type is out of scope.
pub open spec fn in_scope(g: TruthTag) -> bool {
    match g.kind {
        Some(k) => k@ == "Regular Item"@ || k@ == "MI Item"@ || k@ == "Affix"@,
        None => false,
    }
}

/// The ground-truth type, empty when the entry gives none.
pub open spec fn truth_type(g: TruthTag) -> Seq<char> {
    match g.kind {
        Some(k) => k@,
        None => Seq::empty(),
    }
}

/// The ground-truth classification, empty when the entry gives none.
pub open spec fn truth_class(g: TruthTag) -> Seq<char> {
    match g.classification {
        Some(c) => c@,
        None => Seq::empty(),
    }
}

/// The inferred kind is the ground-truth type.
pub open spec fn type_ok(g: TruthTag, got: TagInfo) -> bool {
    truth_type(g) == kind_name(got.kind)
}

/// The inferred rarity is the ground-truth classification, or the entry
/// gives none.
pub open spec fn class_ok(g: TruthTag, got: TagInfo) -> bool {
    match g.classification {
        Some(c) => c@ == rarity_name(got.rarity),
        None => true,
    }
}

/// Tag `t` is a ground-truth tag in scope.
pub open spec fn scoped(truth: Map<Seq<char>, TruthTag>, t: Seq<char>) -> bool {
    truth.contains_key(t) && in_scope(truth[t])
}

/// Tag `t` is in scope and was inferred.
pub open spec fn covered(truth: Map<Seq<char>, TruthTag>, inf: Map<Seq<char>, TagInfo>, t: Seq<char>) -> bool {
    scoped(truth, t) && inf.contains_key(t)
}

pub open spec fn p_scoped(truth: Map<Seq<char>, TruthTag>) -> spec_fn(Seq<char>) -> bool {
    |t: Seq<char>| scoped(truth, t)
}

pub open spec fn p_covered(truth: Map<Seq<char>, TruthTag>, inf: Map<Seq<char>, TagInfo>) -> spec_fn(Seq<char>) -> bool {
    |t: Seq<char>| covered(truth, inf, t)
}

pub open spec fn p_agree_type(truth: Map<Seq<char>, TruthTag>, inf: Map<Seq<char>, TagInfo>) -> spec_fn(Seq<char>) -> bool {
    |t: Seq<char>| covered(truth, inf, t) && type_ok(truth[t], inf[t])
}

pub open spec fn p_agree_class(truth: Map<Seq<char>, TruthTag>, inf: Map<Seq<char>, TagInfo>) -> spec_fn(Seq<char>) -> bool {
    |t: Seq<char>| covered(truth, inf, t) && class_ok(truth[t], inf[t])
}

pub open spec fn p_agree_all(truth: Map<Seq<char>, TruthTag>, inf: Map<Seq<char>, TagInfo>) -> spec_fn(Seq<char>) -> bool {
    |t: Seq<char>| covered(truth, inf, t) && type_ok(truth[t], inf[t]) && class_ok(truth[t], inf[t])
}

/// In scope, of ground-truth type `ty`, and not inferred.
pub open spec fn p_missing(truth: Map<Seq<char>, TruthTag>, inf: Map<Seq<char>, TagInfo>, ty: Seq<char>) -> spec_fn(Seq<char>) -> bool {
    |t: Seq<char>| scoped(truth, t) && !inf.contains_key(t) && truth_type(truth[t]) == ty
}

/// Covered, of ground-truth type `g`, inferred as the other kind `o`.
pub open spec fn p_confused(
    truth: Map<Seq<char>, TruthTag>,
    inf: Map<Seq<char>, TagInfo>,
    g: Seq<char>,
    o: Seq<char>,
) -> spec_fn(Seq<char>) -> bool {
    |t: Seq<char>|
        covered(truth, inf, t) && !type_ok(truth[t], inf[t]) && truth_type(truth[t]) == g && kind_name(inf[t].kind)
            == o
}

/// Covered, and the classification disagrees.
pub open spec fn p_mismatch(truth: Map<Seq<char>, TruthTag>, inf: Map<Seq<char>, TagInfo>) -> spec_fn(Seq<char>) -> bool {
    |t: Seq<char>| covered(truth, inf, t) && !class_ok(truth[t], inf[t])
}

/// A classification mismatch as `(tag, truth, inferred)`.
pub open spec fn mismatch_row(truth: Map<Seq<char>, TruthTag>, inf: Map<Seq<char>, TagInfo>, t: Seq<char>) -> (
    Seq<char>,
    Seq<char>,
    Seq<char>,
) {
    (t, truth_class(truth[t]), rarity_name(inf[t].rarity))
}

/// The classification mismatches among the tags `ks`, in their order.
pub open spec fn mismatch_rows(
    truth: Map<Seq<char>, TruthTag>,
    inf: Map<Seq<char>, TagInfo>,
    ks: Seq<Seq<char>>,
) -> Seq<(Seq<char>, Seq<char>, Seq<char>)> {
    ks.filter(p_mismatch(truth, inf)).map_values(|t: Seq<char>| mismatch_row(truth, inf, t))
}

/// The first `n` elements of `s` (all of them when there are fewer).
pub open spec fn first_n<A>(s: Seq<A>, n: nat) -> Seq<A> {
    if s.len() <= n {
        s
    } else {
        s.take(n as int)
    }
}

/// How many classification mismatches are kept as a sample.
pub const SAMPLE_MISMATCHES: usize = 15;

/// The scores of an inference against the ground truth.
pub struct Score {
    /// Ground-truth tags.
    pub total_truth: usize,
    /// Ground-truth tags in scope.
    pub in_scope: usize,
    /// Inferred tags.
    pub inferred: usize,
    /// Inferred tags the ground truth does not list.
    pub extra: usize,
    /// In-scope tags that were inferred.
    pub covered: usize,
    /// Ground-truth type -> in-scope tags of that type not inferred.
    pub missing_by_type: StrMap<usize>,
    /// Covered tags whose inferred kind is the ground-truth type.
    pub agree_type: usize,
    /// Covered tags whose inferred rarity agrees with the classification.
    pub agree_class: usize,
    /// Covered tags agreeing on both.
    pub agree_all: usize,
    /// Ground-truth type -> inferred kind -> covered tags so confused.
    pub type_confusion: StrMap<StrMap<usize>>,
    /// The first classification mismatches, in ascending tag order, as
    /// `(tag, truth, inferred)`.
    pub class_mismatches: Vec<(String, String, String)>,
}

/// Whether the entry's type is one the inference attempts.
fn is_in_scope(g: &TruthTag) -> (r: bool)
    ensures
        r == in_scope(*g),
{
    match &g.kind {
        Some(k) => {
            let kc = chars_of(k.as_str());
            chars_eq(kc.as_slice(), chars_of("Regular Item").as_slice()) || chars_eq(
                kc.as_slice(),
                chars_of("MI Item").as_slice(),
            ) || chars_eq(kc.as_slice(), chars_of("Affix").as_slice())
        },
        None => false,
    }
}

/// Whether the inferred kind is the entry's type.
fn is_type_ok(g: &TruthTag, got: &TagInfo) -> (r: bool)
    ensures
        r == type_ok(*g, *got),
{
    let gt = match &g.kind {
        Some(k) => chars_of(k.as_str()),
        None => Vec::new(),
    };
    chars_eq(gt.as_slice(), chars_of(got.kind.as_str()).as_slice())
}

/// Whether the inferred rarity agrees with the entry's classification.
fn is_class_ok(g: &TruthTag, got: &TagInfo) -> (r: bool)
    ensures
        r == class_ok(*g, *got),
{
    match &g.classification {
        Some(c) => chars_eq(chars_of(c.as_str()).as_slice(), chars_of(got.rarity.as_str()).as_slice()),
        None => true,
    }
}

/// The entry's type as characters, empty when it gives none.
fn type_chars(g: &TruthTag) -> (r: Vec<char>)
    ensures
        r@ == truth_type(*g),
{
    match &g.kind {
        Some(k) => chars_of(k.as_str()),
        None => Vec::new(),
    }
}

/// Counts one more under `key`.
fn bump(m: &mut StrMap<usize>, key: Vec<char>, Ghost(bound): Ghost<nat>)
    requires
        old(m)@.contains_key(key@) ==> old(m)@[key@] < bound,
        bound <= usize::MAX,
    ensures
        final(m)@ == old(m)@.insert(
            key@,
            if old(m)@.contains_key(key@) {
                (old(m)@[key@] + 1) as usize
            } else {
                1usize
            },
        ),
{
    let next: usize = match m.get_chars(key.as_slice()) {
        Some(c) => *c + 1,
        None => 1,
    };
    m.insert_chars(key, next);
}

/// Growing a key prefix by one key grows each filter of it by that key, if
/// the key passes.
proof fn lemma_take_filter(ks: Seq<Seq<char>>, j: int, p: spec_fn(Seq<char>) -> bool)
    requires
        0 <= j < ks.len(),
    ensures
        ks.take(j + 1).filter(p) == if p(ks[j]) {
            ks.take(j).filter(p).push(ks[j])
        } else {
            ks.take(j).filter(p)
        },
        ks.take(j).filter(p).len() <= j,
{
    assert(ks.take(j + 1) =~= ks.take(j).push(ks[j]));
    ks.take(j).lemma_filter_push(ks[j], p);
    ks.take(j).lemma_filter_len(p);
}

/// The scalar counts over the ground truth: in scope, covered, and the three
/// agreements.
fn count_agreement(truth: &StrMap<TruthTag>, inferred: &StrMap<TagInfo>) -> (r: (usize, usize, usize, usize, usize))
    ensures
        r.0 == sorted_keys(truth@).filter(p_scoped(truth@)).len(),
        r.1 == sorted_keys(truth@).filter(p_covered(truth@, inferred@)).len(),
        r.2 == sorted_keys(truth@).filter(p_agree_type(truth@, inferred@)).len(),
        r.3 == sorted_keys(truth@).filter(p_agree_class(truth@, inferred@)).len(),
        r.4 == sorted_keys(truth@).filter(p_agree_all(truth@, inferred@)).len(),
{
    let n = truth.len();
    let ghost keys = truth.key_list();
    let ghost tm = truth@;
    let ghost im = inferred@;
    proof {
        truth.lemma_key_list_sorted();
    }
    let mut in_scope: usize = 0;
    let mut covered: usize = 0;
    let mut agree_type: usize = 0;
    let mut agree_class: usize = 0;
    let mut agree_all: usize = 0;
    let mut j: usize = 0;
    proof {
        assert(keys.take(0) =~= Seq::<Seq<char>>::empty());
        reveal(Seq::filter);
    }
    while j < n
        invariant
            j <= n,
            n == keys.len(),
            keys == truth.key_list(),
            truth.listing(),
            tm == truth@,
            im == inferred@,
            in_scope == keys.take(j as int).filter(p_scoped(tm)).len(),
            covered == keys.take(j as int).filter(p_covered(tm, im)).len(),
            agree_type == keys.take(j as int).filter(p_agree_type(tm, im)).len(),
            agree_class == keys.take(j as int).filter(p_agree_class(tm, im)).len(),
            agree_all == keys.take(j as int).filter(p_agree_all(tm, im)).len(),
        decreases n - j,
    {
        let ghost t = keys[j as int];
        proof {
            lemma_take_filter(keys, j as int, p_scoped(tm));
            lemma_take_filter(keys, j as int, p_covered(tm, im));
            lemma_take_filter(keys, j as int, p_agree_type(tm, im));
            lemma_take_filter(keys, j as int, p_agree_class(tm, im));
            lemma_take_filter(keys, j as int, p_agree_all(tm, im));
        }
        let g = truth.value_at(j);
        let tag = truth.key_chars_at(j);
        assert(tag@ == t);
        if is_in_scope(g) {
            in_scope = in_scope + 1;
            match inferred.get_chars(tag.as_slice()) {
                Some(got) => {
                    covered = covered + 1;
                    let t_ok = is_type_ok(g, got);
                    let c_ok = is_class_ok(g, got);
                    if t_ok {
                        agree_type = agree_type + 1;
                    }
                    if c_ok {
                        agree_class = agree_class + 1;
                    }
                    if t_ok && c_ok {
                        agree_all = agree_all + 1;
                    }
                },
                None => {},
            }
        }
        j = j + 1;
    }
    assert(keys.take(n as int) =~= keys);
    (in_scope, covered, agree_type, agree_class, agree_all)
}

/// The count, per ground-truth type, of the in-scope tags of that type that
/// were not inferred (types with no such tag have no entry).
pub open spec fn missing_is(m: Map<Seq<char>, usize>, truth: Map<Seq<char>, TruthTag>, inf: Map<Seq<char>, TagInfo>, ks: Seq<Seq<char>>) -> bool {
    &&& forall|ty: Seq<char>| #[trigger] m.contains_key(ty) == (ks.filter(p_missing(truth, inf, ty)).len() > 0)
    &&& forall|ty: Seq<char>| #[trigger] m.contains_key(ty) ==> m[ty] == ks.filter(p_missing(truth, inf, ty)).len()
}

/// Counts the in-scope tags that were not inferred, by ground-truth type.
fn count_missing(truth: &StrMap<TruthTag>, inferred: &StrMap<TagInfo>) -> (m: StrMap<usize>)
    ensures
        missing_is(m@, truth@, inferred@, sorted_keys(truth@)),
{
    let n = truth.len();
    let ghost keys = truth.key_list();
    let ghost tm = truth@;
    let ghost im = inferred@;
    proof {
        truth.lemma_key_list_sorted();
    }
    let mut m: StrMap<usize> = StrMap::new();
    let mut j: usize = 0;
    proof {
        assert(keys.take(0) =~= Seq::<Seq<char>>::empty());
        reveal(Seq::filter);
    }
    while j < n
        invariant
            j <= n,
            n == keys.len(),
            keys == truth.key_list(),
            truth.listing(),
            tm == truth@,
            im == inferred@,
            missing_is(m@, tm, im, keys.take(j as int)),
        decreases n - j,
    {
        let ghost t = keys[j as int];
        let g = truth.value_at(j);
        let tag = truth.key_chars_at(j);
        assert forall|ty: Seq<char>| #[trigger] keys.take(j + 1).filter(p_missing(tm, im, ty)) == if p_missing(tm, im, ty)(t) {
            keys.take(j as int).filter(p_missing(tm, im, ty)).push(t)
        } else {
            keys.take(j as int).filter(p_missing(tm, im, ty))
        } && keys.take(j as int).filter(p_missing(tm, im, ty)).len() <= j by {
            lemma_take_filter(keys, j as int, p_missing(tm, im, ty));
        }
        if is_in_scope(g) && !inferred.contains_key_chars(tag.as_slice()) {
            let ty = type_chars(g);
            let ghost tyv = ty@;
            let ghost before = m@;
            bump(&mut m, ty, Ghost(j as nat + 1));
            assert forall|x: Seq<char>| #[trigger] m@.contains_key(x) == (keys.take(j + 1).filter(p_missing(tm, im, x)).len() > 0) by {
                assert(keys.take(j + 1).filter(p_missing(tm, im, x)) == if p_missing(tm, im, x)(t) {
                    keys.take(j as int).filter(p_missing(tm, im, x)).push(t)
                } else {
                    keys.take(j as int).filter(p_missing(tm, im, x))
                });
            }
            assert forall|x: Seq<char>| #[trigger] m@.contains_key(x) implies m@[x] == keys.take(j + 1).filter(p_missing(tm, im, x)).len() by {
                assert(keys.take(j + 1).filter(p_missing(tm, im, x)) == if p_missing(tm, im, x)(t) {
                    keys.take(j as int).filter(p_missing(tm, im, x)).push(t)
                } else {
                    keys.take(j as int).filter(p_missing(tm, im, x))
                });
            }
        } else {
            assert forall|x: Seq<char>| #[trigger] keys.take(j + 1).filter(p_missing(tm, im, x)) == keys.take(j as int).filter(p_missing(tm, im, x)) by {
                assert(!p_missing(tm, im, x)(t));
            }
        }
        j = j + 1;
    }
    assert(keys.take(n as int) =~= keys);
    m
}

/// The count, per ground-truth type `g` and differing inferred kind `o`, of
/// the covered tags so confused (pairs with no such tag have no entry).
pub open spec fn confusion_is(
    c: Map<Seq<char>, Map<Seq<char>, usize>>,
    truth: Map<Seq<char>, TruthTag>,
    inf: Map<Seq<char>, TagInfo>,
    ks: Seq<Seq<char>>,
) -> bool {
    &&& forall|g: Seq<char>, o: Seq<char>|
        #![trigger c[g].contains_key(o)]
        #![trigger ks.filter(p_confused(truth, inf, g, o))]
        (c.contains_key(g) && c[g].contains_key(o)) == (ks.filter(p_confused(truth, inf, g, o)).len() > 0)
    &&& forall|g: Seq<char>, o: Seq<char>|
        #![trigger c[g].contains_key(o)]
        c.contains_key(g) && c[g].contains_key(o) ==> c[g][o] == ks.filter(p_confused(truth, inf, g, o)).len()
    &&& forall|g: Seq<char>| #[trigger] c.contains_key(g) ==> exists|o: Seq<char>| #[trigger] c[g].contains_key(o)
}

/// Counts the covered tags whose inferred kind differs from the ground-truth
/// type, by the pair of the two.
fn count_confusion(truth: &StrMap<TruthTag>, inferred: &StrMap<TagInfo>) -> (c: StrMap<StrMap<usize>>)
    ensures
        confusion_is(pair_views(c@), truth@, inferred@, sorted_keys(truth@)),
{
    let n = truth.len();
    let ghost keys = truth.key_list();
    let ghost tm = truth@;
    let ghost im = inferred@;
    proof {
        truth.lemma_key_list_sorted();
    }
    let mut c: StrMap<StrMap<usize>> = StrMap::new();
    let mut j: usize = 0;
    proof {
        assert(keys.take(0) =~= Seq::<Seq<char>>::empty());
        reveal(Seq::filter);
        assert(pair_views(c@) =~= Map::<Seq<char>, Map<Seq<char>, usize>>::empty());
    }
    while j < n
        invariant
            j <= n,
            n == keys.len(),
            keys == truth.key_list(),
            truth.listing(),
            tm == truth@,
            im == inferred@,
            confusion_is(pair_views(c@), tm, im, keys.take(j as int)),
        decreases n - j,
    {
        let ghost t = keys[j as int];
        let ghost pv0 = pair_views(c@);
        let g = truth.value_at(j);
        let tag = truth.key_chars_at(j);
        assert forall|x: Seq<char>, y: Seq<char>| #[trigger] keys.take(j + 1).filter(p_confused(tm, im, x, y)) == if p_confused(tm, im, x, y)(t) {
            keys.take(j as int).filter(p_confused(tm, im, x, y)).push(t)
        } else {
            keys.take(j as int).filter(p_confused(tm, im, x, y))
        } && keys.take(j as int).filter(p_confused(tm, im, x, y)).len() <= j by {
            lemma_take_filter(keys, j as int, p_confused(tm, im, x, y));
        }
        let mut confused = false;
        if is_in_scope(g) {
            match inferred.get_chars(tag.as_slice()) {
                Some(got) => {
                    if !is_type_ok(g, got) {
                        confused = true;
                        let gty = type_chars(g);
                        let oty = chars_of(got.kind.as_str());
                        let ghost gv = gty@;
                        let ghost ov = oty@;
                        assert(forall|x: Seq<char>, y: Seq<char>| #[trigger] p_confused(tm, im, x, y)(t) == (x == gv && y == ov));
                        let mut inner = match c.remove_chars(gty.as_slice()) {
                            Some(m) => m,
                            None => StrMap::new(),
                        };
                        let ghost inner0 = inner@;
                        assert(pv0.contains_key(gv) ==> inner0 == pv0[gv]);
                        assert(!pv0.contains_key(gv) ==> inner0 == Map::<Seq<char>, usize>::empty());
                        assert(inner0.contains_key(ov) ==> inner0[ov] == keys.take(j as int).filter(p_confused(tm, im, gv, ov)).len());
                        bump(&mut inner, oty, Ghost(j as nat + 1));
                        let ghost inner1 = inner@;
                        c.insert_chars(gty, inner);
                        let ghost pv1 = pair_views(c@);
                        assert(pv1 =~= pv0.insert(gv, inner1));
                        assert forall|x: Seq<char>, y: Seq<char>|
                            #![trigger pv1[x].contains_key(y)]
                            #![trigger keys.take(j + 1).filter(p_confused(tm, im, x, y))]
                            (pv1.contains_key(x) && pv1[x].contains_key(y)) == (keys.take(j + 1).filter(p_confused(tm, im, x, y)).len() > 0)
                                && (pv1.contains_key(x) && pv1[x].contains_key(y) ==> pv1[x][y] == keys.take(j + 1).filter(p_confused(tm, im, x, y)).len()) by {
                            assert(keys.take(j + 1).filter(p_confused(tm, im, x, y)) == if p_confused(tm, im, x, y)(t) {
                                keys.take(j as int).filter(p_confused(tm, im, x, y)).push(t)
                            } else {
                                keys.take(j as int).filter(p_confused(tm, im, x, y))
                            });
                            if x == gv && y != ov {
                                assert(pv0.contains_key(gv) ==> (pv0[gv].contains_key(y) == inner0.contains_key(y)));
                            }
                        }
                        assert forall|x: Seq<char>| #[trigger] pv1.contains_key(x) implies exists|y: Seq<char>| #[trigger] pv1[x].contains_key(y) by {
                            if x == gv {
                                assert(pv1[x].contains_key(ov));
                            } else {
                                let y = choose|y: Seq<char>| #[trigger] pv0[x].contains_key(y);
                                assert(pv1[x].contains_key(y));
                            }
                        }
                    }
                },
                None => {},
            }
        }
        if !confused {
            assert forall|x: Seq<char>, y: Seq<char>| #[trigger] keys.take(j + 1).filter(p_confused(tm, im, x, y)) == keys.take(j as int).filter(p_confused(tm, im, x, y)) by {
                assert(!p_confused(tm, im, x, y)(t));
            }
        }
        j = j + 1;
    }
    assert(keys.take(n as int) =~= keys);
    c
}

/// The first classification mismatches, in ascending tag order.
fn sample_mismatches(truth: &StrMap<TruthTag>, inferred: &StrMap<TagInfo>) -> (v: Vec<(String, String, String)>)
    ensures
        triple_views(v@) == first_n(mismatch_rows(truth@, inferred@, sorted_keys(truth@)), SAMPLE_MISMATCHES as nat),
{
    let n = truth.len();
    let ghost keys = truth.key_list();
    let ghost tm = truth@;
    let ghost im = inferred@;
    proof {
        truth.lemma_key_list_sorted();
    }
    let mut v: Vec<(String, String, String)> = Vec::new();
    let mut j: usize = 0;
    proof {
        assert(keys.take(0) =~= Seq::<Seq<char>>::empty());
        reveal(Seq::filter);
        assert(mismatch_rows(tm, im, keys.take(0)) =~= Seq::<(Seq<char>, Seq<char>, Seq<char>)>::empty());
        assert(triple_views(v@) =~= Seq::<(Seq<char>, Seq<char>, Seq<char>)>::empty());
    }
    while j < n
        invariant
            j <= n,
            n == keys.len(),
            keys == truth.key_list(),
            truth.listing(),
            tm == truth@,
            im == inferred@,
            triple_views(v@) == first_n(mismatch_rows(tm, im, keys.take(j as int)), SAMPLE_MISMATCHES as nat),
        decreases n - j,
    {
        let ghost t = keys[j as int];
        let ghost rows0 = mismatch_rows(tm, im, keys.take(j as int));
        let ghost f0 = keys.take(j as int).filter(p_mismatch(tm, im));
        proof {
            lemma_take_filter(keys, j as int, p_mismatch(tm, im));
        }
        let g = truth.value_at(j);
        let tag = truth.key_chars_at(j);
        let mut hit = false;
        if is_in_scope(g) {
            match inferred.get_chars(tag.as_slice()) {
                Some(got) => {
                    if !is_class_ok(g, got) {
                        hit = true;
                        assert(p_mismatch(tm, im)(t));
                        assert(mismatch_rows(tm, im, keys.take(j + 1)) =~= rows0.push(mismatch_row(tm, im, t))) by {
                            assert(keys.take(j + 1).filter(p_mismatch(tm, im)) == f0.push(t));
                            assert(f0.push(t).map_values(|t: Seq<char>| mismatch_row(tm, im, t)) =~= f0.map_values(
                                |t: Seq<char>| mismatch_row(tm, im, t),
                            ).push(mismatch_row(tm, im, t)));
                        }
                        if v.len() < SAMPLE_MISMATCHES {
                            let cls = match &g.classification {
                                Some(c) => c.clone(),
                                None => String::new(),
                            };
                            let ghost before = triple_views(v@);
                            v.push((to_text(tag.as_slice()), cls, got.rarity.as_str().to_owned()));
                            assert(triple_views(v@) =~= before.push(mismatch_row(tm, im, t)));
                        } else {
                            assert(rows0.push(mismatch_row(tm, im, t)).take(SAMPLE_MISMATCHES as int) =~= rows0.take(
                                SAMPLE_MISMATCHES as int,
                            ));
                        }
                    }
                },
                None => {},
            }
        }
        if !hit {
            assert(!p_mismatch(tm, im)(t));
            assert(mismatch_rows(tm, im, keys.take(j + 1)) == rows0);
        }
        j = j + 1;
    }
    assert(keys.take(n as int) =~= keys);
    v
}

/// The inferred tags that the ground truth does not list.
pub open spec fn p_extra(truth: Map<Seq<char>, TruthTag>) -> spec_fn(Seq<char>) -> bool {
    |t: Seq<char>| !truth.contains_key(t)
}

/// Counts the inferred tags the ground truth does not list.
fn count_extra(truth: &StrMap<TruthTag>, inferred: &StrMap<TagInfo>) -> (r: usize)
    ensures
        r == sorted_keys(inferred@).filter(p_extra(truth@)).len(),
{
    let n = inferred.len();
    let ghost keys = inferred.key_list();
    let ghost tm = truth@;
    proof {
        inferred.lemma_key_list_sorted();
    }
    let mut count: usize = 0;
    let mut j: usize = 0;
    proof {
        assert(keys.take(0) =~= Seq::<Seq<char>>::empty());
        reveal(Seq::filter);
    }
    while j < n
        invariant
            j <= n,
            n == keys.len(),
            keys == inferred.key_list(),
            inferred.listing(),
            tm == truth@,
            count == keys.take(j as int).filter(p_extra(tm)).len(),
        decreases n - j,
    {
        proof {
            lemma_take_filter(keys, j as int, p_extra(tm));
        }
        let tag = inferred.key_chars_at(j);
        if !truth.contains_key_chars(tag.as_slice()) {
            count = count + 1;
        }
        j = j + 1;
    }
    assert(keys.take(n as int) =~= keys);
    count
}

/// Scores the inferred tags against the ground truth.
pub fn run(inferred: &StrMap<TagInfo>, truth: &StrMap<TruthTag>) -> (s: Score)
    ensures
        s.total_truth == truth@.dom().len(),
        s.in_scope == sorted_keys(truth@).filter(p_scoped(truth@)).len(),
        s.inferred == inferred@.dom().len(),
        s.extra == sorted_keys(inferred@).filter(p_extra(truth@)).len(),
        s.covered == sorted_keys(truth@).filter(p_covered(truth@, inferred@)).len(),
        missing_is(s.missing_by_type@, truth@, inferred@, sorted_keys(truth@)),
        s.agree_type == sorted_keys(truth@).filter(p_agree_type(truth@, inferred@)).len(),
        s.agree_class == sorted_keys(truth@).filter(p_agree_class(truth@, inferred@)).len(),
        s.agree_all == sorted_keys(truth@).filter(p_agree_all(truth@, inferred@)).len(),
        confusion_is(pair_views(s.type_confusion@), truth@, inferred@, sorted_keys(truth@)),
        triple_views(s.class_mismatches@) == first_n(
            mismatch_rows(truth@, inferred@, sorted_keys(truth@)),
            SAMPLE_MISMATCHES as nat,
        ),
{
    let total_truth = truth.len();
    let inferred_len = inferred.len();
    proof {
        truth.lemma_dom_len();
        inferred.lemma_dom_len();
    }
    let (in_scope, covered, agree_type, agree_class, agree_all) = count_agreement(truth, inferred);
    Score {
        total_truth,
        in_scope,
        inferred: inferred_len,
        extra: count_extra(truth, inferred),
        covered,
        missing_by_type: count_missing(truth, inferred),
        agree_type,
        agree_class,
        agree_all,
        type_confusion: count_confusion(truth, inferred),
        class_mismatches: sample_mismatches(truth, inferred),
    }
}

/// A filter by a weaker predicate keeps at least as much.
proof fn lemma_filter_weaker(ks: Seq<Seq<char>>, p: spec_fn(Seq<char>) -> bool, q: spec_fn(Seq<char>) -> bool)
    requires
        forall|x: Seq<char>| #[trigger] p(x) ==> q(x),
    ensures
        ks.filter(p).len() <= ks.filter(q).len(),
    decreases ks.len(),
{
    reveal(Seq::filter);
    if ks.len() > 0 {
        lemma_filter_weaker(ks.drop_last(), p, q);
    }
}

/// Filtering by a predicate that is one of two exclusive cases keeps the
/// elements of both.
proof fn lemma_filter_split(
    ks: Seq<Seq<char>>,
    p: spec_fn(Seq<char>) -> bool,
    q: spec_fn(Seq<char>) -> bool,
    r: spec_fn(Seq<char>) -> bool,
)
    requires
        forall|x: Seq<char>| #[trigger] p(x) == (q(x) || r(x)),
        forall|x: Seq<char>| !(#[trigger] q(x) && r(x)),
    ensures
        ks.filter(p).len() == ks.filter(q).len() + ks.filter(r).len(),
    decreases ks.len(),
{
    reveal(Seq::filter);
    if ks.len() > 0 {
        lemma_filter_split(ks.drop_last(), p, q, r);
        assert(p(ks.last()) == (q(ks.last()) || r(ks.last())));
        assert(!(q(ks.last()) && r(ks.last())));
    }
}

/// The scores are consistent: the covered tags are among those in scope; the
/// agreeing tags are among the covered ones; every covered tag either agrees
/// on classification or is a classification mismatch; and the sample holds
/// the first mismatches, at most their preset number.
pub proof fn lemma_scores_consistent(truth: Map<Seq<char>, TruthTag>, inf: Map<Seq<char>, TagInfo>)
    ensures
        sorted_keys(truth).filter(p_covered(truth, inf)).len() <= sorted_keys(truth).filter(p_scoped(truth)).len(),
        sorted_keys(truth).filter(p_agree_all(truth, inf)).len() <= sorted_keys(truth).filter(p_agree_type(truth, inf)).len(),
        sorted_keys(truth).filter(p_agree_all(truth, inf)).len() <= sorted_keys(truth).filter(p_agree_class(truth, inf)).len(),
        sorted_keys(truth).filter(p_agree_type(truth, inf)).len() <= sorted_keys(truth).filter(p_covered(truth, inf)).len(),
        sorted_keys(truth).filter(p_covered(truth, inf)).len() == sorted_keys(truth).filter(p_agree_class(truth, inf)).len()
            + sorted_keys(truth).filter(p_mismatch(truth, inf)).len(),
        first_n(mismatch_rows(truth, inf, sorted_keys(truth)), SAMPLE_MISMATCHES as nat).len() == if sorted_keys(
            truth,
        ).filter(p_mismatch(truth, inf)).len() <= SAMPLE_MISMATCHES {
            sorted_keys(truth).filter(p_mismatch(truth, inf)).len()
        } else {
            SAMPLE_MISMATCHES as nat
        },
{
    let ks = sorted_keys(truth);
    lemma_filter_weaker(ks, p_covered(truth, inf), p_scoped(truth));
    lemma_filter_weaker(ks, p_agree_all(truth, inf), p_agree_type(truth, inf));
    lemma_filter_weaker(ks, p_agree_all(truth, inf), p_agree_class(truth, inf));
    lemma_filter_weaker(ks, p_agree_type(truth, inf), p_covered(truth, inf));
    lemma_filter_split(ks, p_covered(truth, inf), p_agree_class(truth, inf), p_mismatch(truth, inf));
}

} // verus!
