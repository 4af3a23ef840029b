//! The colorizer: bakes `{^X}` color codes into the localization tag text.
//!
//! Source text is read from the game's pristine `Text_EN.arc` bundles (never
//! the already-colored files in settings/text_en, which would double-color).
//! Each tag we have a color for has its value rewritten by `apply_color`
//! (WanezGD's placement cascade), and any file that changed is written
//! whole: comments, Desc lines and untouched tags preserved.

use vstd::prelude::*;
use crate::strmap::StrMap;
use crate::property::{self, property_color, DamageColors};
use crate::color::{self, library_color};
use crate::infer::TagInfo;
use crate::text::{
    any_alpha, ascii_upper, chars_eq, chars_of, contains, contains_chars, ends_with, ends_with_chars,
    find, has_alpha, is_alpha, is_alpha_char, is_digit, is_digit_char,
    lemma_first_occurrence_unique, lemma_first_occurrence_exists, first_occurrence, occurs_at, push_all, push_range, replace_first,
    replace_first_chars, to_ascii_upper, to_text,
};

verus! {

/// A `{^X}` inline code (X an ASCII letter) starts at index `i`.
pub open spec fn is_code_at(s: Seq<char>, i: int) -> bool {
    &&& 0 <= i
    &&& i + 4 <= s.len()
    &&& s[i] == '{'
    &&& s[i + 1] == '^'
    &&& is_alpha(s[i + 2])
    &&& s[i + 3] == '}'
}

/// Some `{^X}` inline code occurs in `s`.
pub open spec fn has_code(s: Seq<char>) -> bool {
    exists|i: int| is_code_at(s, i)
}

/// The inline code for color letter `color`: `{^` + upper-cased letter + `}`.
pub open spec fn color_code(color: char) -> Seq<char> {
    seq!['{', '^', ascii_upper(color), '}']
}

/// The end-of-name placeholder `{^E}`.
pub open spec fn end_code() -> Seq<char> {
    seq!['{', '^', 'E', '}']
}

/// The start-of-name placeholder `{^S}`.
pub open spec fn start_code() -> Seq<char> {
    seq!['{', '^', 'S', '}']
}

/// Every `{^X}` inline code of `s`, scanning left to right, replaced by `cc`.
pub open spec fn replace_codes(s: Seq<char>, cc: Seq<char>) -> Seq<char>
    decreases s.len(),
{
    if s.len() == 0 {
        seq![]
    } else if is_code_at(s, 0) {
        cc + replace_codes(s.skip(4), cc)
    } else {
        seq![s[0]] + replace_codes(s.drop_first(), cc)
    }
}

/// `cc` inserted after each `|n` (pipe + ASCII digit) marker, scanning left to
/// right.
pub open spec fn bar_digit(s: Seq<char>, cc: Seq<char>) -> Seq<char>
    decreases s.len(),
{
    if s.len() == 0 {
        seq![]
    } else if s.len() >= 2 && s[0] == '|' && is_digit(s[1]) {
        seq![s[0], s[1]] + cc + bar_digit(s.skip(2), cc)
    } else {
        seq![s[0]] + bar_digit(s.drop_first(), cc)
    }
}

/// The length of the run of ASCII letters that ends `s`.
pub open spec fn trailing_alpha(s: Seq<char>) -> nat
    decreases s.len(),
{
    if s.len() > 0 && is_alpha(s.last()) {
        1 + trailing_alpha(s.drop_last())
    } else {
        0
    }
}

/// `s` ends with a `[letters` header opening: a non-empty run of letters right
/// after the last `[`.
pub open spec fn ends_in_letter_header(s: Seq<char>) -> bool {
    let k = trailing_alpha(s);
    k > 0 && s.len() > k && s[s.len() - k - 1] == '['
}

/// One step of `insert_brackets`: append `c`, and `cc` after it when `c`
/// closes a `[letters]` header.
pub open spec fn brackets_step(out: Seq<char>, c: char, cc: Seq<char>) -> Seq<char> {
    if c == ']' && ends_in_letter_header(out) {
        out.push(c) + cc
    } else {
        out.push(c)
    }
}

/// `cc` inserted after each `[letters]` header segment of `s`.
pub open spec fn insert_brackets(s: Seq<char>, cc: Seq<char>) -> Seq<char>
    decreases s.len(),
{
    if s.len() == 0 {
        seq![]
    } else {
        brackets_step(insert_brackets(s.drop_last(), cc), s.last(), cc)
    }
}

/// The tag value `value` with color `color` baked in, following WanezGD's
/// placement cascade.
pub open spec fn colored_value(value: Seq<char>, color: char) -> Seq<char> {
    let cc = color_code(color);
    if contains(value, end_code()) {
        replace_first(value, end_code(), cc) + end_code()
    } else if contains(value, start_code()) {
        replace_first(value, start_code(), cc) + start_code()
    } else if has_code(value) {
        replace_codes(value, cc)
    } else if value.len() > 0 && value[0] == '[' || value.len() > 1 && value[0] == '$'
        && value[1] == '[' {
        insert_brackets(value, cc)
    } else if value.len() > 0 && value[0] == '$' {
        seq!['$'] + cc + value.drop_first()
    } else if value.len() > 0 && value[0] == '|' {
        bar_digit(value, cc)
    } else if any_alpha(value) {
        cc + value
    } else {
        value
    }
}

/// Whether a `{^X}` inline code starts at index `i` of `b`.
pub fn is_color_code_at(b: &[char], i: usize) -> (r: bool)
    ensures
        r == is_code_at(b@, i as int),
{
    i < b.len() && b.len() - i >= 4 && b[i] == '{' && b[i + 1] == '^' && is_alpha_char(b[i + 2])
        && b[i + 3] == '}'
}

/// Whether a `{^X}` inline code appears anywhere in `s`.
pub fn has_color_code(s: &[char]) -> (r: bool)
    ensures
        r == has_code(s@),
{
    let mut i: usize = 0;
    while i < s.len()
        invariant
            i <= s.len(),
            forall|j: int| 0 <= j < i ==> !is_code_at(s@, j),
        decreases s.len() - i,
    {
        if is_color_code_at(s, i) {
            return true;
        }
        i = i + 1;
    }
    assert forall|j: int| !is_code_at(s@, j) by {
        if 0 <= j < i {
        }
    }
    false
}

/// Replaces every `{^X}` inline code in `s` with `cc`.
pub fn replace_color_codes(s: &[char], cc: &[char]) -> (out: Vec<char>)
    ensures
        out@ == replace_codes(s@, cc@),
{
    let mut out: Vec<char> = Vec::new();
    let mut i: usize = 0;
    assert(s@.skip(0) =~= s@);
    while i < s.len()
        invariant
            i <= s.len(),
            out@ + replace_codes(s@.skip(i as int), cc@) == replace_codes(s@, cc@),
        decreases s.len() - i,
    {
        let ghost rest = s@.skip(i as int);
        if is_color_code_at(s, i) {
            assert(is_code_at(rest, 0));
            assert(rest.skip(4) =~= s@.skip(i + 4));
            push_all(&mut out, cc);
            i = i + 4;
            assert(out@ + replace_codes(s@.skip(i as int), cc@) =~= replace_codes(s@, cc@));
        } else {
            assert(!is_code_at(rest, 0));
            assert(rest.drop_first() =~= s@.skip(i + 1));
            out.push(s[i]);
            i = i + 1;
            assert(out@ + replace_codes(s@.skip(i as int), cc@) =~= replace_codes(s@, cc@));
        }
    }
    assert(s@.skip(i as int) =~= Seq::<char>::empty());
    assert(out@ =~= replace_codes(s@, cc@));
    out
}

/// Inserts `cc` after each `|n` (pipe + digit) formatting marker.
pub fn insert_after_bar_digit(s: &[char], cc: &[char]) -> (out: Vec<char>)
    ensures
        out@ == bar_digit(s@, cc@),
{
    let mut out: Vec<char> = Vec::new();
    let mut i: usize = 0;
    assert(s@.skip(0) =~= s@);
    while i < s.len()
        invariant
            i <= s.len(),
            out@ + bar_digit(s@.skip(i as int), cc@) == bar_digit(s@, cc@),
        decreases s.len() - i,
    {
        let ghost rest = s@.skip(i as int);
        if s[i] == '|' && i + 1 < s.len() && is_digit_char(s[i + 1]) {
            assert(rest.skip(2) =~= s@.skip(i + 2));
            out.push(s[i]);
            out.push(s[i + 1]);
            push_all(&mut out, cc);
            i = i + 2;
            assert(out@ + bar_digit(s@.skip(i as int), cc@) =~= bar_digit(s@, cc@));
        } else {
            assert(rest.drop_first() =~= s@.skip(i + 1));
            out.push(s[i]);
            i = i + 1;
            assert(out@ + bar_digit(s@.skip(i as int), cc@) =~= bar_digit(s@, cc@));
        }
    }
    assert(s@.skip(i as int) =~= Seq::<char>::empty());
    assert(out@ =~= bar_digit(s@, cc@));
    out
}

/// Whether `out` ends with a `[letters` header opening.
fn ends_in_header(out: &Vec<char>) -> (r: bool)
    ensures
        r == ends_in_letter_header(out@),
{
    let mut j: usize = out.len();
    assert(out@.take(j as int) =~= out@);
    while j > 0 && is_alpha_char(out[j - 1])
        invariant
            j <= out.len(),
            trailing_alpha(out@) == (out.len() - j) + trailing_alpha(out@.take(j as int)),
        decreases j,
    {
        assert(out@.take(j as int).drop_last() =~= out@.take(j - 1));
        j = j - 1;
    }
    assert(trailing_alpha(out@.take(j as int)) == 0);
    let k = out.len() - j;
    k > 0 && j > 0 && out[j - 1] == '['
}

/// Inserts `cc` after each `[letters]` header segment.
pub fn insert_after_brackets(s: &[char], cc: &[char]) -> (out: Vec<char>)
    ensures
        out@ == insert_brackets(s@, cc@),
{
    let mut out: Vec<char> = Vec::new();
    let mut i: usize = 0;
    assert(s@.take(0) =~= Seq::<char>::empty());
    while i < s.len()
        invariant
            i <= s.len(),
            out@ == insert_brackets(s@.take(i as int), cc@),
        decreases s.len() - i,
    {
        let c = s[i];
        let close = c == ']' && ends_in_header(&out);
        out.push(c);
        if close {
            push_all(&mut out, cc);
        }
        assert(s@.take(i + 1).drop_last() =~= s@.take(i as int));
        i = i + 1;
    }
    assert(s@.take(i as int) =~= s@);
    out
}

/// The inline code for color letter `color`.
pub fn color_code_chars(color: char) -> (cc: Vec<char>)
    ensures
        cc@ == color_code(color),
{
    let u = to_ascii_upper(color);
    let cc = vec!['{', '^', u, '}'];
    assert(cc@ =~= color_code(color));
    cc
}

/// `apply_color` on the characters of a tag value.
pub fn apply_color_chars(value: &[char], color: char) -> (out: Vec<char>)
    ensures
        out@ == colored_value(value@, color),
{
    let cc = color_code_chars(color);
    let e = vec!['{', '^', 'E', '}'];
    let s = vec!['{', '^', 'S', '}'];
    assert(e@ =~= end_code());
    assert(s@ =~= start_code());
    if contains_chars(value, e.as_slice()) {
        let mut out = replace_first_chars(value, e.as_slice(), cc.as_slice());
        push_all(&mut out, e.as_slice());
        return out;
    }
    if contains_chars(value, s.as_slice()) {
        let mut out = replace_first_chars(value, s.as_slice(), cc.as_slice());
        push_all(&mut out, s.as_slice());
        return out;
    }
    if has_color_code(value) {
        return replace_color_codes(value, cc.as_slice());
    }
    if value.len() > 0 && value[0] == '[' || value.len() > 1 && value[0] == '$' && value[1]
        == '[' {
        return insert_after_brackets(value, cc.as_slice());
    }
    if value.len() > 0 && value[0] == '$' {
        let mut out: Vec<char> = Vec::new();
        out.push('$');
        push_all(&mut out, cc.as_slice());
        push_range(&mut out, value, 1, value.len());
        assert(value@.subrange(1, value@.len() as int) =~= value@.drop_first());
        assert(out@ =~= seq!['$'] + cc@ + value@.drop_first());
        return out;
    }
    if value.len() > 0 && value[0] == '|' {
        return insert_after_bar_digit(value, cc.as_slice());
    }
    if has_alpha(value) {
        let mut out: Vec<char> = Vec::new();
        push_all(&mut out, cc.as_slice());
        push_all(&mut out, value);
        assert(out@ =~= cc@ + value@);
        return out;
    }
    let mut out: Vec<char> = Vec::new();
    push_all(&mut out, value);
    assert(out@ =~= value@);
    out
}

/// Bakes color code `color` into a tag value, following WanezGD's placement
/// cascade (SRainbowFilter.js `ApplyColorInSourceData`). The cascade handles
/// values that already contain codes or structural prefixes; the common case
/// (a plain name) just gets the code prepended.
pub fn apply_color(value: &str, color: char) -> (out: String)
    ensures
        out@ == colored_value(value@, color),
{
    let v = chars_of(value);
    let out = apply_color_chars(v.as_slice(), color);
    to_text(out.as_slice())
}

/// A line segment split into its body and its trailing `\r\n` or `\n` (or
/// nothing).
pub open spec fn split_eol_spec(seg: Seq<char>) -> (Seq<char>, Seq<char>) {
    if ends_with(seg, seq!['\r', '\n']) {
        (seg.take(seg.len() - 2), seq!['\r', '\n'])
    } else if ends_with(seg, seq!['\n']) {
        (seg.take(seg.len() - 1), seq!['\n'])
    } else {
        (seg, seq![])
    }
}

/// The length of the first `split_inclusive('\n')` segment of `s`: up to and
/// including the first newline, or all of `s`.
pub open spec fn segment_len(s: Seq<char>) -> nat
    decreases s.len(),
{
    if s.len() == 0 {
        0
    } else if s[0] == '\n' {
        1
    } else {
        1 + segment_len(s.drop_first())
    }
}

pub proof fn lemma_segment_len_bounds(s: Seq<char>)
    ensures
        segment_len(s) <= s.len(),
        s.len() > 0 ==> segment_len(s) >= 1,
    decreases s.len(),
{
    if s.len() > 0 && s[0] != '\n' {
        lemma_segment_len_bounds(s.drop_first());
    }
}

/// The color a tag gets: its entry in `colors`, if it has one.
pub open spec fn tag_color(colors: Map<Seq<char>, char>, tag: Seq<char>) -> Option<char> {
    if colors.contains_key(tag) {
        Some(colors[tag])
    } else {
        None
    }
}

/// The value a colored tag is given: the cascade's result, closed with `{^E}`
/// for `Conversion` labels (which carry no placeholder, so the color would
/// otherwise bleed to the line's end).
pub open spec fn recolored_value(tag: Seq<char>, value: Seq<char>, color: char) -> Seq<char> {
    if contains(tag, "Conversion"@) {
        colored_value(value, color) + end_code()
    } else {
        colored_value(value, color)
    }
}

/// One segment rewritten, with 1 if its tag value changed and 0 otherwise.
/// A segment is a `tag=value` line when it holds an `=`; the tag is what comes
/// before the first `=`.
pub open spec fn recolor_segment(seg: Seq<char>, colors: Map<Seq<char>, char>) -> (Seq<char>, nat) {
    let (line, eol) = split_eol_spec(seg);
    if contains(line, seq!['=']) {
        let i = first_occurrence(line, seq!['=']);
        let tag = line.take(i);
        let value = line.skip(i + 1);
        match tag_color(colors, tag) {
            Some(c) => {
                let nv = recolored_value(tag, value, c);
                (tag + seq!['='] + nv + eol, if nv != value { 1 } else { 0 })
            },
            None => (seg, 0),
        }
    } else {
        (seg, 0)
    }
}

/// A whole file's content recolored segment by segment, with the number of
/// tag values that changed.
pub open spec fn recolor_text(s: Seq<char>, colors: Map<Seq<char>, char>) -> (Seq<char>, nat)
    decreases s.len(),
{
    if s.len() == 0 {
        (seq![], 0)
    } else {
        let n = segment_len(s);
        if 1 <= n <= s.len() {
            let (a, x) = recolor_segment(s.take(n as int), colors);
            let (b, y) = recolor_text(s.skip(n as int), colors);
            (a + b, x + y)
        } else {
            (s, 0)
        }
    }
}

/// Splits a trailing `\n` or `\r\n` off a line segment: the length of the
/// body that remains.
pub fn split_eol_len(segment: &[char]) -> (n: usize)
    ensures
        n <= segment.len(),
        segment@.take(n as int) == split_eol_spec(segment@).0,
        segment@.skip(n as int) == split_eol_spec(segment@).1,
{
    let len = segment.len();
    if len >= 2 && segment[len - 2] == '\r' && segment[len - 1] == '\n' {
        assert(segment@.subrange(len - 2, len as int) =~= seq!['\r', '\n']);
        assert(segment@.skip(len - 2) =~= seq!['\r', '\n']);
        len - 2
    } else if len >= 1 && segment[len - 1] == '\n' {
        assert(!ends_with(segment@, seq!['\r', '\n'])) by {
            if ends_with(segment@, seq!['\r', '\n']) {
                assert(segment@.subrange(len - 2, len as int)[0] == '\r');
            }
        }
        assert(segment@.subrange(len - 1, len as int) =~= seq!['\n']);
        assert(segment@.skip(len - 1) =~= seq!['\n']);
        len - 1
    } else {
        assert(!ends_with(segment@, seq!['\r', '\n'])) by {
            if ends_with(segment@, seq!['\r', '\n']) {
                assert(segment@.subrange(len - 2, len as int)[1] == '\n');
            }
        }
        assert(!ends_with(segment@, seq!['\n'])) by {
            if ends_with(segment@, seq!['\n']) {
                assert(segment@.subrange(len - 1, len as int)[0] == '\n');
            }
        }
        assert(segment@.take(len as int) =~= segment@);
        assert(segment@.skip(len as int) =~= Seq::<char>::empty());
        len
    }
}

/// Splits a trailing `\n` or `\r\n` off a line segment, returning (body, eol).
pub fn split_eol(segment: &str) -> (r: (String, String))
    ensures
        r.0@ == split_eol_spec(segment@).0,
        r.1@ == split_eol_spec(segment@).1,
{
    let v = chars_of(segment);
    let n = split_eol_len(v.as_slice());
    let mut body: Vec<char> = Vec::new();
    let mut eol: Vec<char> = Vec::new();
    push_range(&mut body, v.as_slice(), 0, n);
    push_range(&mut eol, v.as_slice(), n, v.len());
    assert(v@.subrange(0, n as int) =~= v@.take(n as int));
    assert(v@.subrange(n as int, v@.len() as int) =~= v@.skip(n as int));
    (to_text(body.as_slice()), to_text(eol.as_slice()))
}

/// The color `tag` gets under `colors`.
pub fn tag_color_of(colors: &StrMap<char>, tag: &[char]) -> (r: Option<char>)
    ensures
        r == tag_color(colors@, tag@),
{
    match colors.get_chars(tag) {
        Some(c) => Some(*c),
        None => None,
    }
}

/// Rewrites one segment; returns the new segment and whether its value changed.
fn recolor_segment_chars(seg: &[char], colors: &StrMap<char>) -> (r: (Vec<char>, bool))
    ensures
        r.0@ == recolor_segment(seg@, colors@).0,
        (if r.1 { 1nat } else { 0nat }) == recolor_segment(seg@, colors@).1,
{
    let n = split_eol_len(seg);
    let mut line: Vec<char> = Vec::new();
    push_range(&mut line, seg, 0, n);
    assert(seg@.subrange(0, n as int) =~= seg@.take(n as int));
    let eq = vec!['='];
    assert(eq@ =~= seq!['=']);
    assert(line@ == split_eol_spec(seg@).0);
    match find(line.as_slice(), eq.as_slice()) {
        None => {
            let mut out: Vec<char> = Vec::new();
            push_all(&mut out, seg);
            assert(out@ =~= seg@);
            (out, false)
        },
        Some(i) => {
            proof {
                lemma_first_occurrence_unique(line@, eq@, i as int);
            }
            let mut tag: Vec<char> = Vec::new();
            let mut value: Vec<char> = Vec::new();
            push_range(&mut tag, line.as_slice(), 0, i);
            push_range(&mut value, line.as_slice(), i + 1, line.len());
            assert(line@.subrange(0, i as int) =~= line@.take(i as int));
            assert(line@.subrange(i + 1, line@.len() as int) =~= line@.skip(i + 1));
            match tag_color_of(colors, tag.as_slice()) {
                None => {
                    let mut out: Vec<char> = Vec::new();
                    push_all(&mut out, seg);
                    assert(out@ =~= seg@);
                    (out, false)
                },
                Some(c) => {
                    let mut nv = apply_color_chars(value.as_slice(), c);
                    if contains_chars(tag.as_slice(), chars_of("Conversion").as_slice()) {
                        let e = vec!['{', '^', 'E', '}'];
                        assert(e@ =~= end_code());
                        push_all(&mut nv, e.as_slice());
                    }
                    assert(nv@ == recolored_value(tag@, value@, c));
                    let changed = !chars_eq(nv.as_slice(), value.as_slice());
                    let mut out: Vec<char> = Vec::new();
                    push_all(&mut out, tag.as_slice());
                    out.push('=');
                    push_all(&mut out, nv.as_slice());
                    push_range(&mut out, seg, n, seg.len());
                    assert(seg@.subrange(n as int, seg@.len() as int) =~= seg@.skip(n as int));
                    assert(out@ =~= tag@ + seq!['='] + nv@ + seg@.skip(n as int));
                    (out, changed)
                },
            }
        },
    }
}

/// Rewrites one `.txt` file's content (given as characters), recoloring each
/// line whose tag has a color. Returns the new content and how many tag values
/// actually changed.
pub fn recolor_chars(text: &[char], colors: &StrMap<char>) -> (r: (Vec<char>, usize))
    ensures
        r.0@ == recolor_text(text@, colors@).0,
        r.1 == recolor_text(text@, colors@).1,
{
    let mut out: Vec<char> = Vec::new();
    let mut colored: usize = 0;
    let mut i: usize = 0;
    assert(text@.skip(0) =~= text@);
    while i < text.len()
        invariant
            i <= text.len(),
            colored <= i,
            out@ + recolor_text(text@.skip(i as int), colors@).0 == recolor_text(text@, colors@).0,
            colored + recolor_text(text@.skip(i as int), colors@).1 == recolor_text(text@, colors@).1,
        decreases text.len() - i,
    {
        let ghost rest = text@.skip(i as int);
        // Find the end of this segment: just past the next newline, or the end.
        let mut j: usize = i;
        assert(text@.skip(j as int) == rest);
        while j < text.len() && text[j] != '\n'
            invariant
                i <= j <= text.len(),
                segment_len(rest) == (j - i) + segment_len(text@.skip(j as int)),
            decreases text.len() - j,
        {
            assert(text@.skip(j as int).drop_first() =~= text@.skip(j + 1));
            j = j + 1;
        }
        if j < text.len() {
            j = j + 1;
        }
        proof {
            lemma_segment_len_bounds(rest);
        }
        assert(j - i == segment_len(rest));
        let mut seg: Vec<char> = Vec::new();
        push_range(&mut seg, text, i, j);
        assert(seg@ =~= rest.take((j - i) as int));
        assert(rest.skip((j - i) as int) =~= text@.skip(j as int));
        let (new_seg, changed) = recolor_segment_chars(seg.as_slice(), colors);
        push_all(&mut out, new_seg.as_slice());
        if changed {
            colored = colored + 1;
        }
        i = j;
    }
    assert(text@.skip(i as int) =~= Seq::<char>::empty());
    (out, colored)
}

/// Rewrites one `.txt` file's content, recoloring each line whose tag is
/// colored under `colors` (see `tag_color`). Returns the new content and how
/// many tag values actually changed. Comments, blank lines, and untouched tags
/// are preserved verbatim.
pub fn recolor_file(text: &str, colors: &StrMap<char>) -> (r: (String, usize))
    ensures
        r.0@ == recolor_text(text@, colors@).0,
        r.1 == recolor_text(text@, colors@).1,
{
    let t = chars_of(text);
    let (out, n) = recolor_chars(t.as_slice(), colors);
    (to_text(out.as_slice()), n)
}

/// The colors of the inferred tags: each tag whose keywords call for a color
/// (see `library_color`), with that color.
pub open spec fn inferred_colors(infos: Map<Seq<char>, TagInfo>) -> Map<Seq<char>, char> {
    Map::new(
        |t: Seq<char>| infos.contains_key(t) && library_color(infos[t]) is Some,
        |t: Seq<char>| library_color(infos[t]).unwrap(),
    )
}

/// The damage-type Property colors of the tags `names`, under `scheme`.
pub open spec fn property_colors(names: Set<Seq<char>>, scheme: DamageColors) -> Map<Seq<char>, char> {
    Map::new(
        |t: Seq<char>| names.contains(t) && property_color(t, scheme) is Some,
        |t: Seq<char>| property_color(t, scheme).unwrap(),
    )
}

/// The tag -> color map: the colors of the inferred tags, then the Property
/// colors of the tags `names`, a Property color winning on a shared tag.
pub open spec fn tag_colors(infos: Map<Seq<char>, TagInfo>, names: Set<Seq<char>>, scheme: DamageColors) -> Map<
    Seq<char>,
    char,
> {
    inferred_colors(infos).union_prefer_right(property_colors(names, scheme))
}

/// Builds the tag -> color-letter map: every inferred item / affix / MI tag
/// the active preset colors, then every damage-type Property tag among the
/// tags of `texts` (the merged tag text), colored under `scheme`; the
/// Property color wins on a tag that is both.
pub fn color_map(infos: &StrMap<TagInfo>, texts: &StrMap<String>, scheme: DamageColors) -> (colors: StrMap<char>)
    ensures
        colors@ == tag_colors(infos@, texts@.dom(), scheme),
{
    let mut colors: StrMap<char> = StrMap::new();
    let n = infos.len();
    let ghost keys = infos.key_list();
    let ghost m = infos@;
    let mut j: usize = 0;
    while j < n
        invariant
            j <= n,
            n == keys.len(),
            keys == infos.key_list(),
            m == infos@,
            infos.listing(),
            colors@ == Map::new(
                |t: Seq<char>| keys.take(j as int).contains(t) && library_color(m[t]) is Some,
                |t: Seq<char>| library_color(m[t]).unwrap(),
            ),
        decreases n - j,
    {
        let tag = infos.key_chars_at(j);
        let info = infos.value_at(j);
        assert(keys.take(j + 1)[j as int] == keys[j as int]);
        assert forall|t: Seq<char>| #[trigger] keys.take(j + 1).contains(t) == (keys.take(j as int).contains(t) || t == keys[j as int]) by {
            if keys.take(j + 1).contains(t) {
                let k = keys.take(j + 1).index_of(t);
                if k < j {
                    assert(keys.take(j as int)[k] == t);
                }
            }
            if keys.take(j as int).contains(t) {
                let k = keys.take(j as int).index_of(t);
                assert(keys.take(j + 1)[k] == t);
            }
        }
        match color::color_for(info) {
            Some(c) => {
                let mut key: Vec<char> = Vec::new();
                push_all(&mut key, tag.as_slice());
                colors.insert_chars(key, c);
            },
            None => {},
        }
        assert(colors@ =~= Map::new(
            |t: Seq<char>| keys.take(j + 1).contains(t) && library_color(m[t]) is Some,
            |t: Seq<char>| library_color(m[t]).unwrap(),
        ));
        j = j + 1;
    }
    proof {
        assert(keys.take(n as int) =~= keys);
        assert forall|t: Seq<char>| #[trigger] keys.contains(t) == m.contains_key(t) by {
            if keys.contains(t) {
                let k = keys.index_of(t);
                assert(m.contains_key(keys[k]));
            }
        }
        assert(colors@ =~= inferred_colors(m));
    }
    let ghost base = colors@;
    let nt = texts.len();
    let ghost tkeys = texts.key_list();
    let mut q: usize = 0;
    proof {
        assert(base =~= base.union_prefer_right(property_colors(tkeys.take(0).to_set(), scheme)));
    }
    while q < nt
        invariant
            q <= nt,
            nt == tkeys.len(),
            tkeys == texts.key_list(),
            texts.listing(),
            colors@ == base.union_prefer_right(property_colors(tkeys.take(q as int).to_set(), scheme)),
        decreases nt - q,
    {
        let tag = texts.key_chars_at(q);
        let ghost t0 = tkeys[q as int];
        assert(tkeys.take(q + 1) =~= tkeys.take(q as int).push(t0));
        proof {
            tkeys.take(q as int).lemma_push_to_set_commute(t0);
        }
        let ghost before = colors@;
        match property::color_for_chars(tag.as_slice(), scheme) {
            Some(c) => {
                let mut key: Vec<char> = Vec::new();
                push_all(&mut key, tag.as_slice());
                colors.insert_chars(key, c);
            },
            None => {},
        }
        assert(colors@ =~= base.union_prefer_right(property_colors(tkeys.take(q + 1).to_set(), scheme)));
        q = q + 1;
    }
    proof {
        assert(tkeys.take(nt as int) =~= tkeys);
        assert(tkeys.to_set() =~= texts@.dom()) by {
            assert forall|t: Seq<char>| #[trigger] tkeys.to_set().contains(t) == texts@.dom().contains(t) by {
                if tkeys.contains(t) {
                    assert(texts@.contains_key(tkeys[tkeys.index_of(t)]));
                }
            }
        }
    }
    colors
}

/// Whether an archive record holds tag text: a `tags*.txt` file.
pub open spec fn is_tag_text_id(id: Seq<char>) -> bool {
    contains(id, "tag"@) && ends_with(id, ".txt"@)
}

pub fn is_tag_text_record(id: &str) -> (r: bool)
    ensures
        r == is_tag_text_id(id@),
{
    let v = chars_of(id);
    contains_chars(v.as_slice(), chars_of("tag").as_slice()) && ends_with_chars(
        v.as_slice(),
        chars_of(".txt").as_slice(),
    )
}

/// The rewrite of one archive record: `None` when the record is not tag text
/// or when no tag value in it changed (the file is then left alone), else the
/// new content and the number of values that changed.
pub fn recolor_record(id: &str, text: &str, colors: &StrMap<char>) -> (r: Option<(String, usize)>)
    ensures
        match r {
            None => !is_tag_text_id(id@) || recolor_text(text@, colors@).1 == 0,
            Some((out, n)) => {
                &&& is_tag_text_id(id@)
                &&& n > 0
                &&& out@ == recolor_text(text@, colors@).0
                &&& n == recolor_text(text@, colors@).1
            },
        },
{
    if !is_tag_text_record(id) {
        return None;
    }
    let (out, n) = recolor_file(text, colors);
    if n == 0 {
        return None;
    }
    Some((out, n))
}

proof fn lemma_split_eol_concat(seg: Seq<char>)
    ensures
        split_eol_spec(seg).0 + split_eol_spec(seg).1 == seg,
{
    if ends_with(seg, seq!['\r', '\n']) {
        assert(seg.subrange(seg.len() - 2, seg.len() as int) == seq!['\r', '\n']);
        assert(seg.take(seg.len() - 2) + seq!['\r', '\n'] =~= seg);
    } else if ends_with(seg, seq!['\n']) {
        assert(seg.subrange(seg.len() - 1, seg.len() as int) == seq!['\n']);
        assert(seg.take(seg.len() - 1) + seq!['\n'] =~= seg);
    } else {
        assert(seg + seq![] =~= seg);
    }
}

/// A segment whose value did not change is reproduced as it was.
proof fn lemma_segment_unchanged(seg: Seq<char>, colors: Map<Seq<char>, char>)
    requires
        recolor_segment(seg, colors).1 == 0,
    ensures
        recolor_segment(seg, colors).0 == seg,
{
    let (line, eol) = split_eol_spec(seg);
    lemma_split_eol_concat(seg);
    if contains(line, seq!['=']) {
        let k = choose|k: int| occurs_at(line, seq!['='], k);
        lemma_first_occurrence_exists(line, seq!['='], k);
        let i = first_occurrence(line, seq!['=']);
        assert(line.subrange(i, i + 1) == seq!['=']);
        assert(line.take(i) + seq!['='] + line.skip(i + 1) =~= line);
    }
}

/// A file in which no tag value changed comes out exactly as it went in:
/// comments, blank lines, untouched tags and line endings are preserved.
pub proof fn lemma_unchanged_file_preserved(text: Seq<char>, colors: Map<Seq<char>, char>)
    requires
        recolor_text(text, colors).1 == 0,
    ensures
        recolor_text(text, colors).0 == text,
    decreases text.len(),
{
    if text.len() > 0 {
        let n = segment_len(text);
        lemma_segment_len_bounds(text);
        lemma_segment_unchanged(text.take(n as int), colors);
        lemma_unchanged_file_preserved(text.skip(n as int), colors);
        assert(text.take(n as int) + text.skip(n as int) =~= text);
    }
}

/// A placeholder is itself an inline code.
proof fn lemma_placeholder_is_code(value: Seq<char>, p: Seq<char>)
    requires
        p == end_code() || p == start_code(),
        contains(value, p),
    ensures
        has_code(value),
{
    let i = choose|i: int| occurs_at(value, p, i);
    assert(value.subrange(i, i + 4)[0] == value[i]);
    assert(value.subrange(i, i + 4)[1] == value[i + 1]);
    assert(value.subrange(i, i + 4)[2] == value[i + 2]);
    assert(value.subrange(i, i + 4)[3] == value[i + 3]);
    assert(is_code_at(value, i));
}

/// The common case: a plain name (a letter in it, no inline code, no `[`,
/// `$` or `|` prefix) just gets the color code prepended.
pub proof fn lemma_plain_name_prepended(value: Seq<char>, color: char)
    requires
        any_alpha(value),
        !has_code(value),
        value.len() > 0 ==> value[0] != '[' && value[0] != '$' && value[0] != '|',
    ensures
        colored_value(value, color) == color_code(color) + value,
{
    if contains(value, end_code()) {
        lemma_placeholder_is_code(value, end_code());
    }
    if contains(value, start_code()) {
        lemma_placeholder_is_code(value, start_code());
    }
}

/// A value with no letter to color (and no inline code or prefix) is left as
/// it is.
pub proof fn lemma_letterless_unchanged(value: Seq<char>, color: char)
    requires
        !any_alpha(value),
        !has_code(value),
        value.len() > 0 ==> value[0] != '[' && value[0] != '$' && value[0] != '|',
    ensures
        colored_value(value, color) == value,
{
    if contains(value, end_code()) {
        lemma_placeholder_is_code(value, end_code());
    }
    if contains(value, start_code()) {
        lemma_placeholder_is_code(value, start_code());
    }
}

} // verus!
