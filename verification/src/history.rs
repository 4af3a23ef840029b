//! The run history kept in `gdse-db-hash.txt`: one line per run,
//!
//! `<YYYY-MM-DD HH:MM> hash=<hash> steam_build_id=<id> patch_versions=<list>`
//!
//! and the lookup of the most recently logged database hash, which tells a
//! new run whether the database changed since the last one.

use vstd::prelude::*;
use crate::colorize::{lemma_segment_len_bounds, segment_len, split_eol_len, split_eol_spec};
use crate::text::{chars_of, push_all, push_range, starts_with, starts_with_chars, to_text};

verus! {

/// `char::is_whitespace`: the Unicode `White_Space` characters.
pub open spec fn is_ws(c: char) -> bool {
    ||| c == ' '
    ||| ('\t' <= c && c <= '\r')
    ||| c == '\u{85}'
    ||| c == '\u{a0}'
    ||| c == '\u{1680}'
    ||| ('\u{2000}' <= c && c <= '\u{200a}')
    ||| c == '\u{2028}'
    ||| c == '\u{2029}'
    ||| c == '\u{202f}'
    ||| c == '\u{205f}'
    ||| c == '\u{3000}'
}

pub fn is_ws_char(c: char) -> (r: bool)
    ensures
        r == is_ws(c),
{
    c == ' ' || ('\t' <= c && c <= '\r') || c == '\u{85}' || c == '\u{a0}' || c == '\u{1680}'
        || ('\u{2000}' <= c && c <= '\u{200a}') || c == '\u{2028}' || c == '\u{2029}' || c
        == '\u{202f}' || c == '\u{205f}' || c == '\u{3000}'
}

/// `str::lines`: the `split_inclusive('\n')` segments with their trailing
/// `\n` or `\r\n` removed.
pub open spec fn lines(s: Seq<char>) -> Seq<Seq<char>>
    decreases s.len(),
{
    if s.len() == 0 {
        seq![]
    } else {
        let n = segment_len(s);
        if 1 <= n <= s.len() {
            seq![split_eol_spec(s.take(n as int)).0] + lines(s.skip(n as int))
        } else {
            seq![]
        }
    }
}

/// The number of leading non-whitespace characters of `s`.
pub open spec fn word_len(s: Seq<char>) -> nat
    decreases s.len(),
{
    if s.len() == 0 || is_ws(s[0]) {
        0
    } else {
        1 + word_len(s.drop_first())
    }
}

/// `str::split_whitespace`: the maximal runs of non-whitespace characters.
pub open spec fn tokens(s: Seq<char>) -> Seq<Seq<char>>
    decreases s.len(),
{
    if s.len() == 0 {
        seq![]
    } else if is_ws(s[0]) {
        tokens(s.drop_first())
    } else {
        let n = word_len(s);
        if 1 <= n <= s.len() {
            seq![s.take(n as int)] + tokens(s.skip(n as int))
        } else {
            seq![]
        }
    }
}

pub open spec fn hash_key() -> Seq<char> {
    seq!['h', 'a', 's', 'h', '=']
}

/// The value of the first `hash=<value>` token.
pub open spec fn first_hash(ts: Seq<Seq<char>>) -> Option<Seq<char>>
    decreases ts.len(),
{
    if ts.len() == 0 {
        None
    } else if starts_with(ts[0], hash_key()) {
        Some(ts[0].skip(5))
    } else {
        first_hash(ts.drop_first())
    }
}

/// The hash a log line records: its `hash=` token, or, on an old-style line
/// `YYYY-MM-DD HH:MM <hash>`, its third token.
pub open spec fn line_hash(line: Seq<char>) -> Option<Seq<char>> {
    let ts = tokens(line);
    match first_hash(ts) {
        Some(h) => Some(h),
        None => if ts.len() >= 3 {
            Some(ts[2])
        } else {
            None
        },
    }
}

/// The hash recorded by the last line of `ls` that records one.
pub open spec fn latest_in(ls: Seq<Seq<char>>) -> Option<Seq<char>>
    decreases ls.len(),
{
    if ls.len() == 0 {
        None
    } else {
        match line_hash(ls.last()) {
            Some(h) => Some(h),
            None => latest_in(ls.drop_last()),
        }
    }
}

/// The most recently logged hash in a log's text.
pub open spec fn latest_hash(log: Seq<char>) -> Option<Seq<char>> {
    latest_in(lines(log))
}

/// The views of a list of character vectors.
pub open spec fn views(v: Seq<Vec<char>>) -> Seq<Seq<char>> {
    Seq::new(v.len(), |i: int| v[i]@)
}

proof fn lemma_views_push(v: Seq<Vec<char>>, x: Vec<char>)
    ensures
        views(v.push(x)) == views(v) + seq![x@],
{
    assert(views(v.push(x)) =~= views(v) + seq![x@]);
}

proof fn lemma_word_len_bounds(s: Seq<char>)
    ensures
        word_len(s) <= s.len(),
        s.len() > 0 && !is_ws(s[0]) ==> word_len(s) >= 1,
    decreases s.len(),
{
    if s.len() > 0 && !is_ws(s[0]) {
        lemma_word_len_bounds(s.drop_first());
    }
}

/// `s` split into lines.
fn split_lines(s: &[char]) -> (ls: Vec<Vec<char>>)
    ensures
        views(ls@) == lines(s@),
{
    let mut out: Vec<Vec<char>> = Vec::new();
    let mut i: usize = 0;
    assert(s@.skip(0) =~= s@);
    assert(views(out@) =~= Seq::<Seq<char>>::empty());
    while i < s.len()
        invariant
            i <= s.len(),
            views(out@) + lines(s@.skip(i as int)) == lines(s@),
        decreases s.len() - i,
    {
        let ghost rest = s@.skip(i as int);
        let mut j: usize = i;
        assert(s@.skip(j as int) == rest);
        while j < s.len() && s[j] != '\n'
            invariant
                i <= j <= s.len(),
                segment_len(rest) == (j - i) + segment_len(s@.skip(j as int)),
            decreases s.len() - j,
        {
            assert(s@.skip(j as int).drop_first() =~= s@.skip(j + 1));
            j = j + 1;
        }
        if j < s.len() {
            j = j + 1;
        }
        proof {
            lemma_segment_len_bounds(rest);
        }
        let mut seg: Vec<char> = Vec::new();
        push_range(&mut seg, s, i, j);
        assert(seg@ =~= rest.take((j - i) as int));
        assert(rest.skip((j - i) as int) =~= s@.skip(j as int));
        let n = split_eol_len(seg.as_slice());
        let mut line: Vec<char> = Vec::new();
        push_range(&mut line, seg.as_slice(), 0, n);
        assert(line@ =~= seg@.take(n as int));
        proof {
            lemma_views_push(out@, line);
        }
        out.push(line);
        assert(views(out@) + lines(s@.skip(j as int)) =~= lines(s@));
        i = j;
    }
    assert(s@.skip(i as int) =~= Seq::<char>::empty());
    assert(views(out@) =~= lines(s@));
    out
}

/// `line` split into whitespace-separated tokens.
fn split_tokens(line: &[char]) -> (ts: Vec<Vec<char>>)
    ensures
        views(ts@) == tokens(line@),
{
    let mut out: Vec<Vec<char>> = Vec::new();
    let mut i: usize = 0;
    assert(line@.skip(0) =~= line@);
    assert(views(out@) =~= Seq::<Seq<char>>::empty());
    while i < line.len()
        invariant
            i <= line.len(),
            views(out@) + tokens(line@.skip(i as int)) == tokens(line@),
        decreases line.len() - i,
    {
        let ghost rest = line@.skip(i as int);
        if is_ws_char(line[i]) {
            assert(rest.drop_first() =~= line@.skip(i + 1));
            i = i + 1;
        } else {
            let mut j: usize = i;
            assert(line@.skip(j as int) == rest);
            while j < line.len() && !is_ws_char(line[j])
                invariant
                    i <= j <= line.len(),
                    word_len(rest) == (j - i) + word_len(line@.skip(j as int)),
                decreases line.len() - j,
            {
                assert(line@.skip(j as int).drop_first() =~= line@.skip(j + 1));
                j = j + 1;
            }
            proof {
                lemma_word_len_bounds(rest);
            }
            let mut word: Vec<char> = Vec::new();
            push_range(&mut word, line, i, j);
            assert(word@ =~= rest.take((j - i) as int));
            assert(rest.skip((j - i) as int) =~= line@.skip(j as int));
            proof {
                lemma_views_push(out@, word);
            }
            out.push(word);
            assert(views(out@) + tokens(line@.skip(j as int)) =~= tokens(line@));
            i = j;
        }
    }
    assert(line@.skip(i as int) =~= Seq::<char>::empty());
    assert(views(out@) =~= tokens(line@));
    out
}

/// The value of the first `hash=` token in `ts`, if any.
fn find_hash_token(ts: &Vec<Vec<char>>) -> (r: Option<Vec<char>>)
    ensures
        match r {
            Some(h) => first_hash(views(ts@)) == Some(h@),
            None => first_hash(views(ts@)) == None::<Seq<char>>,
        },
{
    let key = vec!['h', 'a', 's', 'h', '='];
    assert(key@ =~= hash_key());
    let mut i: usize = 0;
    assert(views(ts@).skip(0) =~= views(ts@));
    while i < ts.len()
        invariant
            i <= ts.len(),
            key@ == hash_key(),
            first_hash(views(ts@)) == first_hash(views(ts@).skip(i as int)),
        decreases ts.len() - i,
    {
        assert(views(ts@).skip(i as int)[0] == ts@[i as int]@);
        if starts_with_chars(ts[i].as_slice(), key.as_slice()) {
            let mut h: Vec<char> = Vec::new();
            push_range(&mut h, ts[i].as_slice(), 5, ts[i].len());
            assert(h@ =~= ts@[i as int]@.skip(5));
            return Some(h);
        }
        assert(views(ts@).skip(i as int).drop_first() =~= views(ts@).skip(i + 1));
        i = i + 1;
    }
    assert(views(ts@).skip(i as int) =~= Seq::<Seq<char>>::empty());
    None
}

/// The hash a line records.
fn hash_of_line(line: &[char]) -> (r: Option<Vec<char>>)
    ensures
        match r {
            Some(h) => line_hash(line@) == Some(h@),
            None => line_hash(line@) == None::<Seq<char>>,
        },
{
    let ts = split_tokens(line);
    match find_hash_token(&ts) {
        Some(h) => Some(h),
        None => {
            // Backward compatibility with old lines: "YYYY-MM-DD HH:MM <hash>"
            if ts.len() >= 3 {
                let mut h: Vec<char> = Vec::new();
                push_all(&mut h, ts[2].as_slice());
                assert(h@ == views(ts@)[2]);
                Some(h)
            } else {
                None
            }
        },
    }
}

/// The most recently logged database hash in the history `log`, if any.
pub fn latest_logged_hash(log: &str) -> (r: Option<String>)
    ensures
        match r {
            Some(h) => latest_hash(log@) == Some(h@),
            None => latest_hash(log@) == None::<Seq<char>>,
        },
{
    let text = chars_of(log);
    let ls = split_lines(text.as_slice());
    let ghost all = views(ls@);
    let mut k: usize = ls.len();
    assert(all.take(k as int) =~= all);
    while k > 0
        invariant
            k <= ls.len(),
            all == views(ls@),
            all == lines(log@),
            latest_in(all) == latest_in(all.take(k as int)),
        decreases k,
    {
        assert(all.take(k as int).last() == ls@[k - 1]@);
        assert(all.take(k as int).drop_last() =~= all.take(k - 1));
        match hash_of_line(ls[k - 1].as_slice()) {
            Some(h) => {
                assert(all.take(k as int).len() > 0);
                assert(line_hash(all.take(k as int).last()) == Some(h@));
                assert(latest_in(all.take(k as int)) == Some(h@));
                return Some(to_text(h.as_slice()));
            },
            None => {},
        }
        k = k - 1;
    }
    assert(all.take(0) =~= Seq::<Seq<char>>::empty());
    None
}

/// The history line one run appends (without its line ending).
pub open spec fn log_line_spec(
    now: Seq<char>,
    hash: Seq<char>,
    steam_build_id: Seq<char>,
    patch_versions: Seq<char>,
) -> Seq<char> {
    now + seq![' '] + hash_key() + hash + seq![' '] + "steam_build_id="@ + steam_build_id
        + seq![' '] + "patch_versions="@ + patch_versions
}

/// The history line for a run at `now` over database hash `hash`.
pub fn log_line(now: &str, hash: &str, steam_build_id: &str, patch_versions: &str) -> (r: String)
    ensures
        r@ == log_line_spec(now@, hash@, steam_build_id@, patch_versions@),
{
    let mut v: Vec<char> = Vec::new();
    push_all(&mut v, chars_of(now).as_slice());
    v.push(' ');
    let key = vec!['h', 'a', 's', 'h', '='];
    push_all(&mut v, key.as_slice());
    push_all(&mut v, chars_of(hash).as_slice());
    v.push(' ');
    push_all(&mut v, chars_of("steam_build_id=").as_slice());
    push_all(&mut v, chars_of(steam_build_id).as_slice());
    v.push(' ');
    push_all(&mut v, chars_of("patch_versions=").as_slice());
    push_all(&mut v, chars_of(patch_versions).as_slice());
    assert(v@ =~= log_line_spec(now@, hash@, steam_build_id@, patch_versions@));
    to_text(v.as_slice())
}

/// The `patch_versions` field: the detected versions joined by `,`, or
/// `unknown` when none was detected.
pub open spec fn patch_versions_spec(versions: Seq<Seq<char>>) -> Seq<char>
    decreases versions.len(),
{
    if versions.len() == 0 {
        "unknown"@
    } else if versions.len() == 1 {
        versions[0]
    } else {
        patch_versions_spec(versions.drop_last()) + seq![','] + versions.last()
    }
}

pub fn patch_versions_field(versions: &[String]) -> (r: String)
    ensures
        r@ == patch_versions_spec(Seq::new(versions@.len(), |i: int| versions@[i]@)),
{
    let ghost vs = Seq::new(versions@.len(), |i: int| versions@[i]@);
    if versions.len() == 0 {
        return "unknown".to_owned();
    }
    let mut v: Vec<char> = chars_of(versions[0].as_str());
    let mut i: usize = 1;
    assert(vs.take(1).len() == 1);
    while i < versions.len()
        invariant
            1 <= i <= versions.len(),
            vs == Seq::new(versions@.len(), |i: int| versions@[i]@),
            v@ == patch_versions_spec(vs.take(i as int)),
        decreases versions.len() - i,
    {
        v.push(',');
        push_all(&mut v, chars_of(versions[i].as_str()).as_slice());
        assert(vs.take(i + 1).drop_last() =~= vs.take(i as int));
        i = i + 1;
    }
    assert(vs.take(i as int) =~= vs);
    to_text(v.as_slice())
}

proof fn lemma_segment_len_append(a: Seq<char>, b: Seq<char>)
    requires
        a.len() > 0,
        a.last() == '\n',
    ensures
        segment_len(a + b) == segment_len(a),
    decreases a.len(),
{
    if a[0] != '\n' {
        assert((a + b).drop_first() =~= a.drop_first() + b);
        lemma_segment_len_append(a.drop_first(), b);
    }
}

proof fn lemma_segment_len_ends_line(a: Seq<char>)
    requires
        a.len() > 0,
        a.last() == '\n',
    ensures
        ({
            let n = segment_len(a);
            1 <= n <= a.len() && (a.skip(n as int).len() == 0 || a.skip(n as int).last() == '\n')
        }),
    decreases a.len(),
{
    lemma_segment_len_bounds(a);
    if a[0] != '\n' {
        lemma_segment_len_ends_line(a.drop_first());
        let n = segment_len(a.drop_first());
        assert(a.skip(n + 1 as int) =~= a.drop_first().skip(n as int));
    }
}

/// Text that ends with a line break splits into lines independently of what
/// follows.
proof fn lemma_lines_append(a: Seq<char>, b: Seq<char>)
    requires
        a.len() == 0 || a.last() == '\n',
    ensures
        lines(a + b) == lines(a) + lines(b),
    decreases a.len(),
{
    if a.len() == 0 {
        assert(a + b =~= b);
        assert(lines(a) + lines(b) =~= lines(b));
    } else {
        let n = segment_len(a);
        lemma_segment_len_append(a, b);
        lemma_segment_len_ends_line(a);
        assert((a + b).take(n as int) =~= a.take(n as int));
        assert((a + b).skip(n as int) =~= a.skip(n as int) + b);
        lemma_lines_append(a.skip(n as int), b);
        assert(lines(a + b) =~= lines(a) + lines(b));
    }
}

proof fn lemma_segment_len_line(l: Seq<char>)
    requires
        forall|i: int| 0 <= i < l.len() ==> l[i] != '\n',
    ensures
        segment_len(l + seq!['\n']) == l.len() + 1,
    decreases l.len(),
{
    if l.len() > 0 {
        assert((l + seq!['\n']).drop_first() =~= l.drop_first() + seq!['\n']);
        lemma_segment_len_line(l.drop_first());
    }
}

proof fn lemma_word_len_append(a: Seq<char>, b: Seq<char>)
    requires
        b.len() > 0,
        is_ws(b[0]),
    ensures
        word_len(a + b) == word_len(a),
    decreases a.len(),
{
    if a.len() > 0 && !is_ws(a[0]) {
        assert((a + b).drop_first() =~= a.drop_first() + b);
        lemma_word_len_append(a.drop_first(), b);
    }
}

/// Tokens do not run across whitespace: splitting `a + b` where `b` starts
/// with whitespace splits `a` and `b` separately.
proof fn lemma_tokens_append(a: Seq<char>, b: Seq<char>)
    requires
        b.len() > 0,
        is_ws(b[0]),
    ensures
        tokens(a + b) == tokens(a) + tokens(b),
    decreases a.len(),
{
    if a.len() == 0 {
        assert(a + b =~= b);
        assert(tokens(a) + tokens(b) =~= tokens(b));
    } else if is_ws(a[0]) {
        assert((a + b).drop_first() =~= a.drop_first() + b);
        lemma_tokens_append(a.drop_first(), b);
    } else {
        let n = word_len(a);
        lemma_word_len_append(a, b);
        lemma_word_len_bounds(a);
        assert((a + b).take(n as int) =~= a.take(n as int));
        assert((a + b).skip(n as int) =~= a.skip(n as int) + b);
        lemma_tokens_append(a.skip(n as int), b);
        assert(tokens(a + b) =~= tokens(a) + tokens(b));
    }
}

proof fn lemma_word_whole(w: Seq<char>)
    requires
        forall|i: int| 0 <= i < w.len() ==> !is_ws(w[i]),
    ensures
        word_len(w) == w.len(),
    decreases w.len(),
{
    if w.len() > 0 {
        lemma_word_whole(w.drop_first());
    }
}

proof fn lemma_tokens_word(w: Seq<char>)
    requires
        w.len() > 0,
        forall|i: int| 0 <= i < w.len() ==> !is_ws(w[i]),
    ensures
        tokens(w) == seq![w],
{
    lemma_word_whole(w);
    assert(!is_ws(w[0]));
    assert(tokens(w.skip(w.len() as int)) == Seq::<Seq<char>>::empty()) by {
        assert(w.skip(w.len() as int).len() == 0);
    }
    assert(w.take(w.len() as int) =~= w);
    assert(w.skip(w.len() as int) =~= Seq::<char>::empty());
    assert(seq![w] + Seq::<Seq<char>>::empty() =~= seq![w]);
}

proof fn lemma_tokens_trailing_ws(x: Seq<char>, c: char)
    requires
        is_ws(c),
    ensures
        tokens(x + seq![c]) == tokens(x),
{
    lemma_tokens_append(x, seq![c]);
    assert(tokens(seq![c]) == tokens(seq![c].drop_first()));
    assert(seq![c].drop_first() =~= Seq::<char>::empty());
    assert(tokens(x) + Seq::<Seq<char>>::empty() =~= tokens(x));
}

proof fn lemma_first_hash_append(a: Seq<Seq<char>>, b: Seq<Seq<char>>)
    ensures
        first_hash(a + b) == (match first_hash(a) {
            Some(h) => Some(h),
            None => first_hash(b),
        }),
    decreases a.len(),
{
    if a.len() == 0 {
        assert(a + b =~= b);
    } else {
        assert((a + b)[0] == a[0]);
        assert((a + b).drop_first() =~= a.drop_first() + b);
        lemma_first_hash_append(a.drop_first(), b);
    }
}

proof fn lemma_log_line_one_line(
    now: Seq<char>,
    hash: Seq<char>,
    steam_build_id: Seq<char>,
    patch_versions: Seq<char>,
)
    requires
        forall|i: int| 0 <= i < hash.len() ==> !is_ws(#[trigger] hash[i]),
        forall|i: int| 0 <= i < now.len() ==> #[trigger] now[i] != '\n',
        forall|i: int| 0 <= i < steam_build_id.len() ==> #[trigger] steam_build_id[i] != '\n',
        forall|i: int| 0 <= i < patch_versions.len() ==> #[trigger] patch_versions[i] != '\n',
    ensures
        forall|i: int|
            0 <= i < log_line_spec(now, hash, steam_build_id, patch_versions).len()
                ==> #[trigger] log_line_spec(now, hash, steam_build_id, patch_versions)[i]
                != '\n',
{
    let line = log_line_spec(now, hash, steam_build_id, patch_versions);
    reveal_strlit("steam_build_id=");
    reveal_strlit("patch_versions=");
    let a = now.len();
    let b = a + 6 + hash.len();
    let c = b + 16 + steam_build_id.len();
    assert forall|i: int| 0 <= i < line.len() implies line[i] != '\n' by {
        if i < a {
            assert(line[i] == now[i]);
        } else if i < a + 6 {
        } else if i < b {
            assert(line[i] == hash[i - a - 6]);
            assert(!is_ws(hash[i - a - 6]));
        } else if i < b + 16 {
        } else if i < c {
            assert(line[i] == steam_build_id[i - b - 16]);
        } else if i < c + 16 {
        } else {
            assert(line[i] == patch_versions[i - c - 16]);
        }
    }
}

proof fn lemma_log_line_hash(
    now: Seq<char>,
    hash: Seq<char>,
    steam_build_id: Seq<char>,
    patch_versions: Seq<char>,
)
    requires
        forall|i: int| 0 <= i < hash.len() ==> !is_ws(#[trigger] hash[i]),
        first_hash(tokens(now)) == None::<Seq<char>>,
    ensures
        first_hash(tokens(log_line_spec(now, hash, steam_build_id, patch_versions))) == Some(
            hash,
        ),
{
    let hk = hash_key();
    let tail2 = "steam_build_id="@ + steam_build_id + seq![' '] + "patch_versions="@
        + patch_versions;
    let word = hk + hash;
    let rest = word + (seq![' '] + tail2);
    let line = log_line_spec(now, hash, steam_build_id, patch_versions);
    assert(line =~= now + (seq![' '] + rest));
    lemma_tokens_append(now, seq![' '] + rest);
    assert((seq![' '] + rest).drop_first() =~= rest);
    assert(tokens(seq![' '] + rest) == tokens(rest));
    lemma_tokens_append(word, seq![' '] + tail2);
    assert forall|i: int| 0 <= i < word.len() implies !is_ws(word[i]) by {
        if i >= 5 {
            assert(word[i] == hash[i - 5]);
        }
    }
    lemma_tokens_word(word);
    assert(tokens(seq![' '] + tail2) == tokens(tail2)) by {
        assert((seq![' '] + tail2).drop_first() =~= tail2);
    }
    assert(tokens(line) =~= tokens(now) + (seq![word] + tokens(tail2)));
    lemma_first_hash_append(tokens(now), seq![word] + tokens(tail2));
    assert((seq![word] + tokens(tail2))[0] == word);
    assert(word.subrange(0, 5) =~= hk);
    assert(word.skip(5) =~= hash);
}

/// What a run logs is what the next run reads back: after appending the
/// history line for database hash `hash` (and its line break) to a history
/// that is empty or ends with a line break, the latest logged hash is `hash`.
/// This holds when the hash is a single token (no whitespace), the timestamp
/// holds no `hash=` token, and no field holds a line feed.
pub proof fn lemma_logged_hash_read_back(
    prev: Seq<char>,
    now: Seq<char>,
    hash: Seq<char>,
    steam_build_id: Seq<char>,
    patch_versions: Seq<char>,
)
    requires
        prev.len() == 0 || prev.last() == '\n',
        forall|i: int| 0 <= i < hash.len() ==> !is_ws(#[trigger] hash[i]),
        first_hash(tokens(now)) == None::<Seq<char>>,
        forall|i: int| 0 <= i < now.len() ==> #[trigger] now[i] != '\n',
        forall|i: int| 0 <= i < steam_build_id.len() ==> #[trigger] steam_build_id[i] != '\n',
        forall|i: int| 0 <= i < patch_versions.len() ==> #[trigger] patch_versions[i] != '\n',
    ensures
        latest_hash(prev + log_line_spec(now, hash, steam_build_id, patch_versions) + seq!['\n'])
            == Some(hash),
{
    let line = log_line_spec(now, hash, steam_build_id, patch_versions);
    lemma_log_line_one_line(now, hash, steam_build_id, patch_versions);
    lemma_log_line_hash(now, hash, steam_build_id, patch_versions);
    // Splitting into lines: the new line is the last one.
    let full = prev + line + seq!['\n'];
    let seg = line + seq!['\n'];
    assert(full =~= prev + seg);
    lemma_lines_append(prev, seg);
    lemma_segment_len_line(line);
    assert(seg.take(seg.len() as int) =~= seg);
    assert(seg.skip(seg.len() as int) =~= Seq::<char>::empty());
    assert(lines(seg.skip(seg.len() as int)) =~= Seq::<Seq<char>>::empty());
    let body = split_eol_spec(seg).0;
    assert(lines(seg) =~= seq![body]);
    assert(seg.subrange(seg.len() - 1, seg.len() as int) =~= seq!['\n']);
    assert(seg.take(seg.len() - 1) =~= line);
    // Whether or not a `\r` was stripped with the line feed, the tokens agree.
    if body != line {
        assert(line =~= body + seq![line.last()]);
        lemma_tokens_trailing_ws(body, line.last());
    }
    assert(line_hash(body) == Some(hash));
    let all = lines(prev) + seq![body];
    assert(lines(full) =~= all);
    assert(all.last() == body);
    assert(all.drop_last() =~= lines(prev));
}

} // verus!
