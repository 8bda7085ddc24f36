//! Global form rows of a lookup: dictionary occurrences grouped by the
//! normalised identity of their forms, with the columns of every dictionary.
use vstd::prelude::*;
use unicode_normalization::UnicodeNormalization;
use crate::dictionary::model::{
    DictEntry, DictionaryFormAvailability, DictionaryFormGroup, DictionaryFormVariant,
    DictionaryLookup, DictionaryLookupTiming, PosTag,
};
use crate::sort::{Ranked, sort_stable, stable_sort, sort_by, sorted_by, lemma_sort_map, lemma_sort_props, rank_lt};
use crate::text::{chars_of, string_from_chars, is_kana, is_han, is_whitespace, spec_is_kana, spec_is_han, spec_is_whitespace, str_eq};
use crate::token::strings_view;

verus! {

/// Unicode normalisation form KC of the characters.
pub uninterp spec fn nfkc(s: Seq<char>) -> Seq<char>;

/// `UnicodeNormalization::nfkc` of unicode-normalization, collected into characters.
#[verifier::external_body]
pub(crate) fn nfkc_chars(value: &str) -> (r: Vec<char>)
    ensures
        r@ == nfkc(value@),
{
    value.nfkc().collect()
}

/// `char::from_u32`: `Some` exactly for Unicode scalar values.
#[verifier::external_body]
pub(crate) fn char_from_u32(u: u32) -> (r: Option<char>)
    ensures
        (u <= 0xd7ff || (0xe000 <= u && u <= 0x10ffff)) ==> r == Some(u as char),
        !(u <= 0xd7ff || (0xe000 <= u && u <= 0x10ffff)) ==> r is None,
{
    char::from_u32(u)
}

/// Katakana that has a hiragana counterpart 0x60 below it.
pub open spec fn spec_katakana_to_hiragana(c: char) -> char {
    if (0x30a1 <= c as u32 <= 0x30f6) || (0x30fd <= c as u32 <= 0x30fe) {
        (c as u32 - 0x60) as char
    } else {
        c
    }
}

pub fn katakana_to_hiragana(c: char) -> (r: char)
    ensures
        r == spec_katakana_to_hiragana(c),
{
    if ('\u{30a1}' <= c && c <= '\u{30f6}') || ('\u{30fd}' <= c && c <= '\u{30fe}') {
        match char_from_u32(c as u32 - 0x60) {
            Some(h) => h,
            None => c,
        }
    } else {
        c
    }
}

/// The characters without leading whitespace.
pub open spec fn trim_start(s: Seq<char>) -> Seq<char>
    decreases s.len(),
{
    if s.len() > 0 && spec_is_whitespace(s[0]) {
        trim_start(s.drop_first())
    } else {
        s
    }
}

/// The characters without trailing whitespace.
pub open spec fn trim_end(s: Seq<char>) -> Seq<char>
    decreases s.len(),
{
    if s.len() > 0 && spec_is_whitespace(s.last()) {
        trim_end(s.drop_last())
    } else {
        s
    }
}

/// The characters without whitespace at either end (`str::trim`).
pub open spec fn spec_trim(s: Seq<char>) -> Seq<char> {
    trim_end(trim_start(s))
}

proof fn lemma_trim_start_skip(s: Seq<char>, i: int)
    requires
        0 <= i <= s.len(),
        forall|k: int| 0 <= k < i ==> spec_is_whitespace(#[trigger] s[k]),
    ensures
        trim_start(s) == trim_start(s.skip(i)),
    decreases i,
{
    if i > 0 {
        assert(s.skip(1) == s.drop_first());
        lemma_trim_start_skip(s.drop_first(), i - 1);
        assert(s.drop_first().skip(i - 1) == s.skip(i));
    } else {
        assert(s.skip(0) == s);
    }
}

proof fn lemma_trim_end_take(s: Seq<char>, j: int)
    requires
        0 <= j <= s.len(),
        forall|k: int| j <= k < s.len() ==> spec_is_whitespace(#[trigger] s[k]),
    ensures
        trim_end(s) == trim_end(s.take(j)),
    decreases s.len() - j,
{
    if j < s.len() {
        assert(s.drop_last() == s.take(s.len() - 1));
        lemma_trim_end_take(s.drop_last(), j);
        assert(s.drop_last().take(j) == s.take(j));
    } else {
        assert(s.take(j) == s);
    }
}

/// The characters with surrounding whitespace removed.
pub fn trim_chars(v: &[char]) -> (r: Vec<char>)
    ensures
        r@ == spec_trim(v@),
{
    let mut i: usize = 0;
    while i < v.len() && is_whitespace(v[i])
        invariant
            i <= v.len(),
            forall|k: int| 0 <= k < i ==> spec_is_whitespace(#[trigger] v@[k]),
        decreases v.len() - i,
    {
        i += 1;
    }
    proof {
        lemma_trim_start_skip(v@, i as int);
    }
    let ghost t = v@.skip(i as int);
    let mut j: usize = v.len();
    while j > i && is_whitespace(v[j - 1])
        invariant
            i <= j <= v.len(),
            forall|k: int| j <= k < v.len() ==> spec_is_whitespace(#[trigger] v@[k]),
        decreases j,
    {
        j -= 1;
    }
    proof {
        if i < v.len() {
            assert(!spec_is_whitespace(v@[i as int]));
        }
        assert(trim_start(t) == t) by {
            if t.len() > 0 {
                assert(t[0] == v@[i as int]);
            }
        }
        assert forall|k: int| (j - i) <= k < t.len() implies spec_is_whitespace(#[trigger] t[k]) by {
            assert(t[k] == v@[k + i]);
        }
        lemma_trim_end_take(t, j - i);
        let u = t.take(j - i);
        assert(trim_end(u) == u) by {
            if u.len() > 0 {
                assert(u.last() == v@[j - 1]);
            }
        }
    }
    let mut r: Vec<char> = Vec::new();
    let mut k = i;
    while k < j
        invariant
            i <= k <= j <= v.len(),
            r@ == v@.subrange(i as int, k as int),
        decreases j - k,
    {
        r.push(v[k]);
        assert(v@.subrange(i as int, k + 1) == v@.subrange(i as int, k as int).push(v@[k as int]));
        k += 1;
    }
    assert(r@ == t.take(j - i));
    r
}

/// The surface identity of one normalised character: `繋` is folded into `繫`.
pub open spec fn fold_variant(c: char) -> char {
    if c == '繋' { '繫' } else { c }
}

/// Characters folded and stripped of whitespace.
pub open spec fn fold_and_strip(s: Seq<char>) -> Seq<char>
    decreases s.len(),
{
    if s.len() == 0 {
        s
    } else {
        let p = fold_and_strip(s.drop_last());
        let c = fold_variant(s.last());
        if spec_is_whitespace(c) { p } else { p.push(c) }
    }
}

/// NFKC, with the variant fold, without whitespace.
pub open spec fn surface_identity(s: Seq<char>) -> Seq<char> {
    fold_and_strip(nfkc(s))
}

pub open spec fn is_kana_mark(c: char) -> bool {
    spec_is_kana(c) || c == 'ー' || c == '・' || c == '-' || c == '‐'
}

/// At least one kana and nothing but kana and kana marks.
pub open spec fn kana_only(s: Seq<char>) -> bool {
    (exists|i: int| 0 <= i < s.len() && spec_is_kana(#[trigger] s[i]))
        && forall|i: int| 0 <= i < s.len() ==> is_kana_mark(#[trigger] s[i])
}

/// The surface identity, in hiragana when it is kana only.
pub open spec fn form_identity(s: Seq<char>) -> Seq<char> {
    let n = surface_identity(s);
    if kana_only(n) { n.map_values(|c: char| spec_katakana_to_hiragana(c)) } else { n }
}

/// The form identity with every katakana in hiragana.
pub open spec fn reading_identity(s: Seq<char>) -> Seq<char> {
    form_identity(s).map_values(|c: char| spec_katakana_to_hiragana(c))
}

fn hiragana_chars(v: &Vec<char>) -> (r: Vec<char>)
    ensures
        r@ == v@.map_values(|c: char| spec_katakana_to_hiragana(c)),
{
    let mut r: Vec<char> = Vec::new();
    for i in 0..v.len()
        invariant
            r@.len() == i,
            forall|k: int| 0 <= k < i ==> #[trigger] r@[k] == spec_katakana_to_hiragana(v@[k]),
    {
        r.push(katakana_to_hiragana(v[i]));
    }
    assert(r@ =~= v@.map_values(|c: char| spec_katakana_to_hiragana(c)));
    r
}

fn surface_identity_chars(value: &str) -> (r: Vec<char>)
    ensures
        r@ == surface_identity(value@),
{
    let n = nfkc_chars(value);
    let mut r: Vec<char> = Vec::new();
    for i in 0..n.len()
        invariant
            r@ == fold_and_strip(n@.take(i as int)),
    {
        let c = if n[i] == '繋' { '繫' } else { n[i] };
        if !is_whitespace(c) {
            r.push(c);
        }
        assert(n@.take(i + 1).drop_last() == n@.take(i as int));
    }
    assert(n@.take(n.len() as int) == n@);
    r
}

fn form_identity_chars(value: &str) -> (r: Vec<char>)
    ensures
        r@ == form_identity(value@),
{
    let n = surface_identity_chars(value);
    let mut any_kana = false;
    let mut all_marks = true;
    for i in 0..n.len()
        invariant
            any_kana == exists|k: int| 0 <= k < i && spec_is_kana(#[trigger] n@[k]),
            all_marks == forall|k: int| 0 <= k < i ==> is_kana_mark(#[trigger] n@[k]),
    {
        let c = n[i];
        if is_kana(c) {
            any_kana = true;
        }
        if !(is_kana(c) || c == 'ー' || c == '・' || c == '-' || c == '‐') {
            all_marks = false;
        }
    }
    if any_kana && all_marks {
        hiragana_chars(&n)
    } else {
        n
    }
}

/// `normalize_surface_identity`: NFKC, `繋` folded into `繫`, whitespace removed.
pub fn normalize_surface_identity(value: &str) -> (r: String)
    ensures
        r@ == surface_identity(value@),
{
    let v = surface_identity_chars(value);
    string_from_chars(&v)
}

/// The identity a form is grouped by: the surface identity, in hiragana when it is kana only.
pub fn normalize_form_identity(value: &str) -> (r: String)
    ensures
        r@ == form_identity(value@),
{
    let v = form_identity_chars(value);
    string_from_chars(&v)
}

/// The identity a reading is compared by: the form identity in hiragana.
pub fn normalize_reading_identity(value: &str) -> (r: String)
    ensures
        r@ == reading_identity(value@),
{
    let v = form_identity_chars(value);
    let h = hiragana_chars(&v);
    string_from_chars(&h)
}

/// `form:{normalized}`.
pub open spec fn spec_form_id(normalized: Seq<char>) -> Seq<char> {
    seq!['f', 'o', 'r', 'm', ':'] + normalized
}

pub fn form_id(normalized: &str) -> (r: String)
    ensures
        r@ == spec_form_id(normalized@),
{
    let prefix: Vec<char> = vec!['f', 'o', 'r', 'm', ':'];
    let mut r = string_from_chars(&prefix);
    r.append(normalized);
    r
}

/// `values` with `value` added at the end, unless it is empty or already there.
pub open spec fn spec_push_unique(values: Seq<Seq<char>>, value: Seq<char>) -> Seq<Seq<char>> {
    if value.len() > 0 && !values.contains(value) { values.push(value) } else { values }
}

pub fn push_unique(values: &mut Vec<String>, value: String)
    ensures
        strings_view(final(values)@) == spec_push_unique(strings_view(old(values)@), value@),
{
    let ghost old_view = strings_view(values@);
    if value.as_str().is_empty() {
        return;
    }
    let mut found = false;
    for i in 0..values.len()
        invariant
            old_view == strings_view(values@),
            found == exists|k: int| 0 <= k < i && old_view[k] == value@,
    {
        assert(old_view[i as int] == values@[i as int]@);
        if values[i] == value {
            found = true;
        }
    }
    if !found {
        values.push(value);
        assert(strings_view(values@) =~= old_view.push(value@));
    }
}

/// The first index at or after `i` holding `c`, or -1.
pub open spec fn index_from(s: Seq<char>, c: char, i: int) -> int
    decreases s.len() - i,
{
    if i >= s.len() || i < 0 {
        -1
    } else if s[i] == c {
        i
    } else {
        index_from(s, c, i + 1)
    }
}

proof fn lemma_index_from_bounds(s: Seq<char>, c: char, i: int)
    requires
        0 <= i,
    ensures
        index_from(s, c, i) == -1 || (i <= index_from(s, c, i) < s.len() && s[index_from(s, c, i)] == c),
    decreases s.len() - i,
{
    if i < s.len() {
        lemma_index_from_bounds(s, c, i + 1);
    }
}

fn find_char(v: &Vec<char>, c: char, from: usize) -> (r: Option<usize>)
    requires
        from <= v@.len(),
    ensures
        r is None <==> index_from(v@, c, from as int) == -1,
        r matches Some(i) ==> i == index_from(v@, c, from as int),
{
    let mut i = v.len();
    let mut found: Option<usize> = None;
    while i > from
        invariant
            from <= i <= v@.len(),
            found is None <==> index_from(v@, c, i as int) == -1,
            found matches Some(k) ==> k == index_from(v@, c, i as int),
        decreases i,
    {
        i -= 1;
        if v[i] == c {
            found = Some(i);
        }
        proof {
            lemma_index_from_bounds(v@, c, i + 1);
        }
    }
    found
}

pub open spec fn all_kana(s: Seq<char>) -> bool {
    forall|k: int| 0 <= k < s.len() ==> spec_is_kana(#[trigger] s[k])
}

pub open spec fn has_han(s: Seq<char>) -> bool {
    exists|k: int| 0 <= k < s.len() && spec_is_han(#[trigger] s[k])
}

/// A form with an optional kana part in full-width brackets, such as
/// `寄り掛（か）る`, read with and without that part; any other form as it is.
pub open spec fn spec_expand_optional_kana(v: Seq<char>) -> Seq<Seq<char>> {
    let open = index_from(v, '（', 0);
    if open < 0 {
        seq![v]
    } else {
        let close = index_from(v, '）', open + 1);
        if close < 0 {
            seq![v]
        } else {
            let optional = v.subrange(open + 1, close);
            if optional.len() == 0 || !all_kana(optional) {
                seq![v]
            } else {
                seq![v.take(open) + optional + v.skip(close + 1), v.take(open) + v.skip(close + 1)]
            }
        }
    }
}

fn expand_optional_kana(v: &Vec<char>) -> (r: Vec<String>)
    ensures
        strings_view(r@) == spec_expand_optional_kana(v@),
{
    let whole = string_from_chars(v);
    let n0 = v.len();
    let open = match find_char(v, '（', 0) {
        None => {
            let r = vec![whole];
            assert(strings_view(r@) =~= spec_expand_optional_kana(v@));
            return r;
        },
        Some(open) => open,
    };
    proof { lemma_index_from_bounds(v@, '（', 0); }
    let close = match find_char(v, '）', open + 1) {
        None => {
            let r = vec![whole];
            assert(strings_view(r@) =~= spec_expand_optional_kana(v@));
            return r;
        },
        Some(close) => close,
    };
    proof { lemma_index_from_bounds(v@, '）', open + 1); }
    let mut all = true;
    let mut k = open + 1;
    while k < close
        invariant
            open + 1 <= k <= close < v@.len(),
            all == forall|m: int| open + 1 <= m < k ==> spec_is_kana(#[trigger] v@[m]),
        decreases close - k,
    {
        if !is_kana(v[k]) {
            all = false;
        }
        k += 1;
    }
    let ghost optional = v@.subrange(open + 1, close as int);
    assert(all == all_kana(optional)) by {
        if all {
            assert forall|m: int| 0 <= m < optional.len() implies spec_is_kana(#[trigger] optional[m]) by {
                assert(optional[m] == v@[m + open + 1]);
            }
        } else {
            let m = choose|m: int| open + 1 <= m < close && !spec_is_kana(#[trigger] v@[m]);
            assert(optional[m - open - 1] == v@[m]);
        }
    }
    if close == open + 1 || !all {
        let r = vec![whole];
        assert(strings_view(r@) =~= spec_expand_optional_kana(v@));
        return r;
    }
    let mut with: Vec<char> = Vec::new();
    let mut without: Vec<char> = Vec::new();
    let n = v.len();
    for i in 0..n
        invariant
            n == v@.len(),
            open < close < n,
            with@ == (if i <= open { v@.take(i as int) } else if i <= close + 1 { v@.take(open as int) + v@.subrange(open + 1, if i >= close { close as int } else { i as int }) } else { v@.take(open as int) + v@.subrange(open + 1, close as int) + v@.subrange(close + 1, i as int) }),
            without@ == (if i <= open { v@.take(i as int) } else if i <= close + 1 { v@.take(open as int) } else { v@.take(open as int) + v@.subrange(close + 1, i as int) }),
    {
        let c = v[i];
        if i < open {
            with.push(c);
            without.push(c);
            assert(v@.take(i + 1) == v@.take(i as int).push(c));
        } else if i > open && i < close {
            with.push(c);
            assert(v@.subrange(open + 1, i + 1) == v@.subrange(open + 1, i as int).push(c));
        } else if i > close {
            with.push(c);
            without.push(c);
            assert(v@.subrange(close + 1, i + 1) == v@.subrange(close + 1, i as int).push(c));
        }
    }
    let r = vec![string_from_chars(&with), string_from_chars(&without)];
    assert(v@.take(open as int) + optional + v@.skip(close + 1) =~= with@);
    assert(v@.take(open as int) + v@.skip(close + 1) =~= without@);
    assert(strings_view(r@) =~= spec_expand_optional_kana(v@));
    r
}

/// Scanning left to right: the pieces before each `sep` seen so far, and the open piece.
pub open spec fn split_scan(s: Seq<char>, sep: char) -> (Seq<Seq<char>>, Seq<char>)
    decreases s.len(),
{
    if s.len() == 0 {
        (seq![], seq![])
    } else {
        let (done, current) = split_scan(s.drop_last(), sep);
        if s.last() == sep {
            (done.push(current), seq![])
        } else {
            (done, current.push(s.last()))
        }
    }
}

/// The pieces of `s` between occurrences of `sep` (`str::split`).
pub open spec fn split_pieces(s: Seq<char>, sep: char) -> Seq<Seq<char>> {
    split_scan(s, sep).0.push(split_scan(s, sep).1)
}

pub fn split_char(v: &Vec<char>, sep: char) -> (r: Vec<Vec<char>>)
    ensures
        r@.len() == split_pieces(v@, sep).len(),
        forall|k: int| 0 <= k < r@.len() ==> (#[trigger] r@[k])@ == split_pieces(v@, sep)[k],
{
    let mut done: Vec<Vec<char>> = Vec::new();
    let mut current: Vec<char> = Vec::new();
    for i in 0..v.len()
        invariant
            done@.len() == split_scan(v@.take(i as int), sep).0.len(),
            forall|k: int| 0 <= k < done@.len() ==> (#[trigger] done@[k])@ == split_scan(v@.take(i as int), sep).0[k],
            current@ == split_scan(v@.take(i as int), sep).1,
    {
        assert(v@.take(i + 1).drop_last() == v@.take(i as int));
        if v[i] == sep {
            done.push(current);
            current = Vec::new();
        } else {
            current.push(v[i]);
        }
    }
    assert(v@.take(v.len() as int) == v@);
    done.push(current);
    done
}

fn has_han_chars(v: &Vec<char>) -> (b: bool)
    ensures
        b == has_han(v@),
{
    for i in 0..v.len()
        invariant
            forall|k: int| 0 <= k < i ==> !spec_is_han(#[trigger] v@[k]),
    {
        if is_han(v[i]) {
            return true;
        }
    }
    false
}

/// A form as the dictionaries write it: trimmed; alternatives joined by `・`
/// split when every one holds a kanji; optional kana expanded.
pub open spec fn spec_expand_form(v: Seq<char>) -> Seq<Seq<char>> {
    let t = spec_trim(v);
    if t.len() == 0 {
        seq![]
    } else {
        let alternatives = split_pieces(t, '・');
        if alternatives.len() > 1 && forall|k: int| 0 <= k < alternatives.len() ==> has_han(#[trigger] alternatives[k]) {
            alternatives.map_values(|a: Seq<char>| spec_expand_optional_kana(a)).flatten_alt()
        } else {
            spec_expand_optional_kana(t)
        }
    }
}

pub fn expand_form(value: &str) -> (r: Vec<String>)
    ensures
        strings_view(r@) == spec_expand_form(value@),
{
    let chars = chars_of(value);
    let t = trim_chars(&chars);
    if t.len() == 0 {
        let r: Vec<String> = Vec::new();
        assert(strings_view(r@) =~= spec_expand_form(value@));
        return r;
    }
    let alternatives = split_char(&t, '・');
    let ghost alts = split_pieces(t@, '・');
    let mut all_han = true;
    for i in 0..alternatives.len()
        invariant
            alternatives@.len() == alts.len(),
            forall|k: int| 0 <= k < alternatives@.len() ==> (#[trigger] alternatives@[k])@ == alts[k],
            all_han == forall|k: int| 0 <= k < i ==> has_han(#[trigger] alts[k]),
    {
        if !has_han_chars(&alternatives[i]) {
            all_han = false;
        }
    }
    if alternatives.len() > 1 && all_han {
        let ghost expanded = alts.map_values(|a: Seq<char>| spec_expand_optional_kana(a));
        let mut r: Vec<String> = Vec::new();
        for i in 0..alternatives.len()
            invariant
                alternatives@.len() == alts.len(),
                forall|k: int| 0 <= k < alternatives@.len() ==> (#[trigger] alternatives@[k])@ == alts[k],
                expanded == alts.map_values(|a: Seq<char>| spec_expand_optional_kana(a)),
                strings_view(r@) == expanded.take(i as int).flatten_alt(),
        {
            let piece = expand_optional_kana(&alternatives[i]);
            let mut j: usize = 0;
            let ghost before = strings_view(r@);
            while j < piece.len()
                invariant
                    j <= piece@.len(),
                    r@.len() == before.len() + j,
                    forall|m: int| 0 <= m < before.len() ==> (#[trigger] r@[m])@ == before[m],
                    forall|m: int| before.len() <= m < r@.len() ==> (#[trigger] r@[m])@ == piece@[m - before.len()]@,
                decreases piece@.len() - j,
            {
                r.push(piece[j].clone());
                j += 1;
            }
            assert(strings_view(r@) =~= before + strings_view(piece@));
            assert(expanded.take(i + 1).drop_last() == expanded.take(i as int));
            assert(expanded.take(i + 1).last() == strings_view(piece@));
            assert(expanded.take(i + 1) == expanded.take(i as int).push(strings_view(piece@)));
        }
        assert(expanded.take(alternatives@.len() as int) == expanded);
        return r;
    }
    expand_optional_kana(&t)
}

/// `acc` with each of `items` added by `spec_push_unique`, in order.
pub open spec fn push_all_unique(acc: Seq<Seq<char>>, items: Seq<Seq<char>>) -> Seq<Seq<char>>
    decreases items.len(),
{
    if items.len() == 0 {
        acc
    } else {
        spec_push_unique(push_all_unique(acc, items.drop_last()), items.last())
    }
}

fn push_all(values: &mut Vec<String>, items: Vec<String>)
    ensures
        strings_view(final(values)@) == push_all_unique(strings_view(old(values)@), strings_view(items@)),
{
    let ghost start = strings_view(values@);
    let ghost all = strings_view(items@);
    for i in 0..items.len()
        invariant
            all == strings_view(items@),
            strings_view(values@) == push_all_unique(start, all.take(i as int)),
    {
        push_unique(values, items[i].clone());
        assert(all.take(i + 1).drop_last() == all.take(i as int));
    }
    assert(all.take(items@.len() as int) == all);
}

/// The forms gathered from the scoped forms that are not `original`.
pub open spec fn scoped_forms_of(forms: Seq<crate::dictionary::model::DictionaryForm>, n: int) -> Seq<Seq<char>>
    decreases n,
{
    if n <= 0 {
        seq![]
    } else {
        let acc = scoped_forms_of(forms, n - 1);
        if forms[n - 1].kind@ == "original"@ {
            acc
        } else {
            push_all_unique(acc, spec_expand_form(forms[n - 1].form@))
        }
    }
}

/// The forms of an occurrence: its scoped forms, or else its display form
/// (its headword when that is empty), each expanded, without repeats.
pub open spec fn spec_entry_forms(entry: DictEntry) -> Seq<Seq<char>> {
    let scoped = scoped_forms_of(entry.header.scoped_forms@, entry.header.scoped_forms@.len() as int);
    if scoped.len() > 0 {
        scoped
    } else {
        push_all_unique(
            seq![],
            spec_expand_form(
                if entry.header.display_form@.len() == 0 { entry.headword@ } else { entry.header.display_form@ },
            ),
        )
    }
}

pub fn entry_forms(entry: &DictEntry) -> (r: Vec<String>)
    ensures
        strings_view(r@) == spec_entry_forms(*entry),
{
    let mut forms: Vec<String> = Vec::new();
    let scoped = &entry.header.scoped_forms;
    for i in 0..scoped.len()
        invariant
            strings_view(forms@) == scoped_forms_of(scoped@, i as int),
    {
        if !str_eq(scoped[i].kind.as_str(), "original") {
            push_all(&mut forms, expand_form(scoped[i].form.as_str()));
        }
    }
    if forms.len() == 0 {
        let form = if entry.header.display_form.as_str().is_empty() {
            entry.headword.as_str()
        } else {
            entry.header.display_form.as_str()
        };
        assert(strings_view(forms@) =~= Seq::<Seq<char>>::empty());
        push_all(&mut forms, expand_form(form));
    }
    forms
}

/// The form answers a request: by its id, its normalised form, or the identity of its display form.
pub open spec fn form_answers(form: DictionaryFormGroup, requested: Seq<char>) -> bool {
    form.form_id@ == requested || form.normalized_form@ == form_identity(requested)
        || form_identity(form.display_form@) == form_identity(requested)
}

/// The first form at or after `i` that answers the request, or -1.
pub open spec fn first_answering(forms: Seq<DictionaryFormGroup>, requested: Seq<char>, i: int) -> int
    decreases forms.len() - i,
{
    if i >= forms.len() || i < 0 {
        -1
    } else if form_answers(forms[i], requested) {
        i
    } else {
        first_answering(forms, requested, i + 1)
    }
}

proof fn lemma_first_answering_bounds(forms: Seq<DictionaryFormGroup>, requested: Seq<char>, i: int)
    requires
        0 <= i,
    ensures
        first_answering(forms, requested, i) == -1 || (i <= first_answering(forms, requested, i) < forms.len()),
    decreases forms.len() - i,
{
    if i < forms.len() {
        lemma_first_answering_bounds(forms, requested, i + 1);
    }
}

/// The id of the first form that answers the request, else of the first form.
pub fn selected_form_id(forms: &[DictionaryFormGroup], requested: Option<&str>) -> (r: Option<String>)
    ensures
        ({
            let answered = match requested {
                Some(q) => first_answering(forms@, q@, 0),
                None => -1,
            };
            if answered >= 0 {
                r matches Some(id) && id@ == forms@[answered].form_id@
            } else if forms@.len() > 0 {
                r matches Some(id) && id@ == forms@[0].form_id@
            } else {
                r is None
            }
        }),
{
    if let Some(requested) = requested {
        let key = normalize_form_identity(requested);
        let mut i = forms.len();
        let mut found: Option<usize> = None;
        while i > 0
            invariant
                i <= forms@.len(),
                key@ == form_identity(requested@),
                found is None <==> first_answering(forms@, requested@, i as int) == -1,
                found matches Some(k) ==> k == first_answering(forms@, requested@, i as int),
            decreases i,
        {
            i -= 1;
            let form = &forms[i];
            let display_key = normalize_form_identity(form.display_form.as_str());
            if str_eq(form.form_id.as_str(), requested) || form.normalized_form == key || display_key == key {
                found = Some(i);
            }
            proof { lemma_first_answering_bounds(forms@, requested@, i + 1); }
        }
        proof { lemma_first_answering_bounds(forms@, requested@, 0); }
        if let Some(k) = found {
            return Some(forms[k].form_id.clone());
        }
    }
    if forms.len() > 0 {
        Some(forms[0].form_id.clone())
    } else {
        None
    }
}

/// The first form with the given id, else the first form.
pub open spec fn first_with_id(forms: Seq<DictionaryFormGroup>, id: Seq<char>, i: int) -> int
    decreases forms.len() - i,
{
    if i >= forms.len() || i < 0 {
        -1
    } else if forms[i].form_id@ == id {
        i
    } else {
        first_with_id(forms, id, i + 1)
    }
}

proof fn lemma_first_with_id_bounds(forms: Seq<DictionaryFormGroup>, id: Seq<char>, i: int)
    requires
        0 <= i,
    ensures
        first_with_id(forms, id, i) == -1 || (i <= first_with_id(forms, id, i) < forms.len()),
    decreases forms.len() - i,
{
    if i < forms.len() {
        lemma_first_with_id_bounds(forms, id, i + 1);
    }
}

pub fn selected_form<'a>(forms: &'a [DictionaryFormGroup], selected_form_id: Option<&str>) -> (r: Option<&'a DictionaryFormGroup>)
    ensures
        ({
            let hit = match selected_form_id {
                Some(id) => first_with_id(forms@, id@, 0),
                None => -1,
            };
            if hit >= 0 {
                r == Some(&forms@[hit])
            } else if forms@.len() > 0 {
                r == Some(&forms@[0])
            } else {
                r is None
            }
        }),
{
    if let Some(selected) = selected_form_id {
        let mut i = forms.len();
        let mut found: Option<usize> = None;
        while i > 0
            invariant
                i <= forms@.len(),
                found is None <==> first_with_id(forms@, selected@, i as int) == -1,
                found matches Some(k) ==> k == first_with_id(forms@, selected@, i as int),
            decreases i,
        {
            i -= 1;
            if str_eq(forms[i].form_id.as_str(), selected) {
                found = Some(i);
            }
            proof { lemma_first_with_id_bounds(forms@, selected@, i + 1); }
        }
        proof { lemma_first_with_id_bounds(forms@, selected@, 0); }
        if let Some(k) = found {
            return Some(&forms[k]);
        }
    }
    if forms.len() > 0 {
        Some(&forms[0])
    } else {
        None
    }
}

/// Some form of the occurrence has the same form identity as `form`.
pub fn entry_matches_form(entry: &DictEntry, form: &str) -> (b: bool)
    ensures
        b == exists|k: int| 0 <= k < spec_entry_forms(*entry).len()
            && #[trigger] form_identity(spec_entry_forms(*entry)[k]) == form_identity(form@),
{
    let target = normalize_form_identity(form);
    let forms = entry_forms(entry);
    let ghost fs = strings_view(forms@);
    for i in 0..forms.len()
        invariant
            fs == strings_view(forms@),
            fs == spec_entry_forms(*entry),
            target@ == form_identity(form@),
            forall|k: int| 0 <= k < i ==> #[trigger] form_identity(fs[k]) != form_identity(form@),
    {
        let candidate = normalize_form_identity(forms[i].as_str());
        assert(fs[i as int] == forms@[i as int]@);
        if candidate == target {
            return true;
        }
    }
    false
}

/// Some form of the occurrence has the same surface identity as `form`.
pub fn entry_matches_surface_form(entry: &DictEntry, form: &str) -> (b: bool)
    ensures
        b == exists|k: int| 0 <= k < spec_entry_forms(*entry).len()
            && #[trigger] surface_identity(spec_entry_forms(*entry)[k]) == surface_identity(form@),
{
    let target = normalize_surface_identity(form);
    let forms = entry_forms(entry);
    let ghost fs = strings_view(forms@);
    for i in 0..forms.len()
        invariant
            fs == strings_view(forms@),
            fs == spec_entry_forms(*entry),
            target@ == surface_identity(form@),
            forall|k: int| 0 <= k < i ==> #[trigger] surface_identity(fs[k]) != surface_identity(form@),
    {
        let candidate = normalize_surface_identity(forms[i].as_str());
        assert(fs[i as int] == forms@[i as int]@);
        if candidate == target {
            return true;
        }
    }
    false
}

fn copy_pos(pos: &PosTag) -> (r: PosTag)
    ensures
        r == *pos,
{
    PosTag {
        major: pos.major.clone(),
        sub1: pos.sub1.clone(),
        sub2: pos.sub2.clone(),
        sub3: pos.sub3.clone(),
    }
}

fn to_owned_option(value: Option<&str>) -> (r: Option<String>)
    ensures
        value is None <==> r is None,
        r matches Some(s) ==> s@ == value->0@,
{
    match value {
        Some(v) => Some(String::from_str(v)),
        None => None,
    }
}

/// Assembles the answer of a lookup.
pub fn build_lookup(
    query: &str,
    observed_form: Option<&str>,
    reading: Option<&str>,
    pos: Option<&PosTag>,
    selected_form_id: Option<String>,
    mode: &str,
    forms: Vec<DictionaryFormGroup>,
    dictionary_names: Vec<String>,
    entries: Vec<DictEntry>,
    timing: Option<DictionaryLookupTiming>,
) -> (r: DictionaryLookup)
    ensures
        r.query@ == query@,
        observed_form is None <==> r.observed_form is None,
        r.observed_form matches Some(s) ==> s@ == observed_form->0@,
        reading is None <==> r.reading is None,
        r.reading matches Some(s) ==> s@ == reading->0@,
        pos is None <==> r.pos is None,
        r.pos matches Some(p) ==> p == *pos->0,
        r.selected_form_id == selected_form_id,
        r.mode@ == mode@,
        r.forms == forms,
        r.dictionary_names == dictionary_names,
        r.entries == entries,
        r.timing == timing,
{
    DictionaryLookup {
        query: String::from_str(query),
        observed_form: to_owned_option(observed_form),
        reading: to_owned_option(reading),
        pos: match pos {
            Some(p) => Some(copy_pos(p)),
            None => None,
        },
        selected_form_id,
        mode: String::from_str(mode),
        forms,
        dictionary_names,
        entries,
        timing,
    }
}

#[derive(Debug, Clone)]
pub struct DictionaryFormVariantSeed {
    pub surface_form: String,
    pub readings: Vec<String>,
    pub evidence: Vec<String>,
    pub score: i32,
    pub dictionary_names: Vec<String>,
    pub order: usize,
}

#[derive(Debug, Clone)]
pub struct DictionaryFormSeed {
    pub display_form: String,
    pub normalized_form: String,
    pub readings: Vec<String>,
    pub evidence: Vec<String>,
    pub score: i32,
    pub variants: Vec<DictionaryFormVariantSeed>,
    pub available_dictionary_names: Vec<String>,
    pub order: usize,
    pub admissible: bool,
}

pub ghost struct VariantSeedView {
    pub surface_form: Seq<char>,
    pub readings: Seq<Seq<char>>,
    pub evidence: Seq<Seq<char>>,
    pub score: i32,
    pub dictionary_names: Seq<Seq<char>>,
    pub order: usize,
}

pub ghost struct SeedView {
    pub display_form: Seq<char>,
    pub normalized_form: Seq<char>,
    pub readings: Seq<Seq<char>>,
    pub evidence: Seq<Seq<char>>,
    pub score: i32,
    pub variants: Seq<VariantSeedView>,
    pub available_dictionary_names: Seq<Seq<char>>,
    pub order: usize,
    pub admissible: bool,
}

impl View for DictionaryFormVariantSeed {
    type V = VariantSeedView;

    open spec fn view(&self) -> VariantSeedView {
        VariantSeedView {
            surface_form: self.surface_form@,
            readings: strings_view(self.readings@),
            evidence: strings_view(self.evidence@),
            score: self.score,
            dictionary_names: strings_view(self.dictionary_names@),
            order: self.order,
        }
    }
}

pub open spec fn variant_seeds_view(s: Seq<DictionaryFormVariantSeed>) -> Seq<VariantSeedView> {
    s.map_values(|v: DictionaryFormVariantSeed| v@)
}

impl View for DictionaryFormSeed {
    type V = SeedView;

    open spec fn view(&self) -> SeedView {
        SeedView {
            display_form: self.display_form@,
            normalized_form: self.normalized_form@,
            readings: strings_view(self.readings@),
            evidence: strings_view(self.evidence@),
            score: self.score,
            variants: variant_seeds_view(self.variants@),
            available_dictionary_names: strings_view(self.available_dictionary_names@),
            order: self.order,
            admissible: self.admissible,
        }
    }
}

pub open spec fn seeds_view(s: Seq<DictionaryFormSeed>) -> Seq<SeedView> {
    s.map_values(|v: DictionaryFormSeed| v@)
}

pub ghost struct VariantView {
    pub surface_form: Seq<char>,
    pub readings: Seq<Seq<char>>,
    pub evidence: Seq<Seq<char>>,
    pub score: i32,
    pub dictionary_names: Seq<Seq<char>>,
}

pub ghost struct GroupView {
    pub form_id: Seq<char>,
    pub display_form: Seq<char>,
    pub normalized_form: Seq<char>,
    pub readings: Seq<Seq<char>>,
    pub evidence: Seq<Seq<char>>,
    pub score: i32,
    pub variants: Seq<VariantView>,
    pub dictionaries: Seq<(Seq<char>, bool)>,
}

impl View for DictionaryFormVariant {
    type V = VariantView;

    open spec fn view(&self) -> VariantView {
        VariantView {
            surface_form: self.surface_form@,
            readings: strings_view(self.readings@),
            evidence: strings_view(self.evidence@),
            score: self.score,
            dictionary_names: strings_view(self.dictionary_names@),
        }
    }
}

impl View for DictionaryFormGroup {
    type V = GroupView;

    open spec fn view(&self) -> GroupView {
        GroupView {
            form_id: self.form_id@,
            display_form: self.display_form@,
            normalized_form: self.normalized_form@,
            readings: strings_view(self.readings@),
            evidence: strings_view(self.evidence@),
            score: self.score,
            variants: self.variants@.map_values(|v: DictionaryFormVariant| v@),
            dictionaries: self.dictionaries@.map_values(
                |d: DictionaryFormAvailability| (d.dictionary_name@, d.available),
            ),
        }
    }
}

pub open spec fn groups_view(s: Seq<DictionaryFormGroup>) -> Seq<GroupView> {
    s.map_values(|g: DictionaryFormGroup| g@)
}

/// The row of a seed: its id, its fields, and one availability column per dictionary.
pub open spec fn spec_group(seed: SeedView, names: Seq<Seq<char>>) -> GroupView {
    GroupView {
        form_id: spec_form_id(seed.normalized_form),
        display_form: seed.display_form,
        normalized_form: seed.normalized_form,
        readings: seed.readings,
        evidence: seed.evidence,
        score: seed.score,
        variants: seed.variants.map_values(
            |v: VariantSeedView|
                VariantView {
                    surface_form: v.surface_form,
                    readings: v.readings,
                    evidence: v.evidence,
                    score: v.score,
                    dictionary_names: v.dictionary_names,
                },
        ),
        dictionaries: names.map_values(
            |n: Seq<char>| (n, seed.available_dictionary_names.contains(n)),
        ),
    }
}

/// How many dictionaries hold the form.
pub open spec fn coverage(d: Seq<(Seq<char>, bool)>) -> int
    decreases d.len(),
{
    if d.len() == 0 {
        0
    } else {
        coverage(d.drop_last()) + (if d.last().1 { 1int } else { 0int })
    }
}

/// Rows are ordered by score, then by how many dictionaries hold the form, both descending.
pub open spec fn group_rank(g: GroupView) -> (int, int) {
    (-(g.score as int), -coverage(g.dictionaries))
}

impl Ranked for DictionaryFormGroup {
    open spec fn rank(&self) -> (int, int) {
        group_rank(self@)
    }

    fn rank_of(&self) -> (r: (i128, i128)) {
        let mut count: usize = 0;
        let ghost d = self@.dictionaries;
        for i in 0..self.dictionaries.len()
            invariant
                d == self@.dictionaries,
                count == coverage(d.take(i as int)),
                count <= i,
        {
            if self.dictionaries[i].available {
                count += 1;
            }
            assert(d.take(i + 1).drop_last() == d.take(i as int));
        }
        assert(d.take(self.dictionaries@.len() as int) == d);
        (-(self.score as i128), -(count as i128))
    }
}

fn variant_of(seed: DictionaryFormVariantSeed) -> (r: DictionaryFormVariant)
    ensures
        r@ == (VariantView {
            surface_form: seed@.surface_form,
            readings: seed@.readings,
            evidence: seed@.evidence,
            score: seed@.score,
            dictionary_names: seed@.dictionary_names,
        }),
{
    DictionaryFormVariant {
        surface_form: seed.surface_form,
        readings: seed.readings,
        evidence: seed.evidence,
        score: seed.score,
        dictionary_names: seed.dictionary_names,
    }
}

fn contains_string(values: &Vec<String>, value: &String) -> (b: bool)
    ensures
        b == strings_view(values@).contains(value@),
{
    let ghost v = strings_view(values@);
    for i in 0..values.len()
        invariant
            v == strings_view(values@),
            forall|k: int| 0 <= k < i ==> v[k] != value@,
    {
        assert(v[i as int] == values@[i as int]@);
        if values[i] == *value {
            return true;
        }
    }
    false
}

fn group_of(seed: DictionaryFormSeed, dictionary_names: &[String]) -> (g: DictionaryFormGroup)
    ensures
        g@ == spec_group(seed@, strings_view(dictionary_names@)),
{
    let ghost sv = seed@;
    let mut dictionaries: Vec<DictionaryFormAvailability> = Vec::new();
    for i in 0..dictionary_names.len()
        invariant
            sv == seed@,
            dictionaries@.len() == i,
            forall|k: int| 0 <= k < i ==> (#[trigger] dictionaries@[k]).dictionary_name@ == dictionary_names@[k]@
                && dictionaries@[k].available == sv.available_dictionary_names.contains(dictionary_names@[k]@),
    {
        let available = contains_string(&seed.available_dictionary_names, &dictionary_names[i]);
        dictionaries.push(DictionaryFormAvailability {
            dictionary_name: dictionary_names[i].clone(),
            available,
        });
    }
    let mut variants: Vec<DictionaryFormVariant> = Vec::new();
    let form_id = form_id(seed.normalized_form.as_str());
    let DictionaryFormSeed { display_form, normalized_form, readings, evidence, score, variants: seed_variants, available_dictionary_names, order, admissible } = seed;
    let mut rest = seed_variants;
    let ghost vs = variant_seeds_view(rest@);
    let mut reversed: Vec<DictionaryFormVariantSeed> = Vec::new();
    while rest.len() > 0
        invariant
            vs.len() == rest@.len() + reversed@.len(),
            forall|k: int| 0 <= k < rest@.len() ==> (#[trigger] rest@[k])@ == vs[k],
            forall|k: int| 0 <= k < reversed@.len() ==> (#[trigger] reversed@[k])@ == vs[vs.len() - 1 - k],
        decreases rest.len(),
    {
        let v = rest.pop().unwrap();
        reversed.push(v);
    }
    while reversed.len() > 0
        invariant
            vs.len() == variants@.len() + reversed@.len(),
            forall|k: int| 0 <= k < reversed@.len() ==> (#[trigger] reversed@[k])@ == vs[vs.len() - 1 - k],
            forall|k: int| 0 <= k < variants@.len() ==> (#[trigger] variants@[k])@ == (VariantView {
                surface_form: vs[k].surface_form,
                readings: vs[k].readings,
                evidence: vs[k].evidence,
                score: vs[k].score,
                dictionary_names: vs[k].dictionary_names,
            }),
        decreases reversed.len(),
    {
        let v = reversed.pop().unwrap();
        variants.push(variant_of(v));
    }
    let g = DictionaryFormGroup {
        form_id,
        display_form,
        normalized_form,
        readings,
        evidence,
        score,
        variants,
        dictionaries,
    };
    assert(g@.variants =~= spec_group(sv, strings_view(dictionary_names@)).variants);
    assert(g@.dictionaries =~= spec_group(sv, strings_view(dictionary_names@)).dictionaries);
    g
}

/// The rows of a lookup are ordered by score, highest first, and rows of
/// equal score by how many dictionaries hold the form, most first; there is
/// one row per seed.
pub proof fn law_form_rows_by_score(seeds: Seq<SeedView>, names: Seq<Seq<char>>)
    ensures
        ({
            let rows = sort_by(seeds.map_values(|s: SeedView| spec_group(s, names)), |g: GroupView| group_rank(g));
            &&& rows.len() == seeds.len()
            &&& forall|i: int, j: int| 0 <= i < j < rows.len() ==> (#[trigger] rows[i]).score >= (#[trigger] rows[j]).score
            &&& forall|i: int, j: int| 0 <= i < j < rows.len() && (#[trigger] rows[i]).score == (#[trigger] rows[j]).score
                ==> coverage(rows[i].dictionaries) >= coverage(rows[j].dictionaries)
        }),
{
    let gr = |g: GroupView| group_rank(g);
    let m = seeds.map_values(|s: SeedView| spec_group(s, names));
    lemma_sort_props(m, gr);
    let rows = sort_by(m, gr);
    assert forall|i: int, j: int| 0 <= i < j < rows.len() implies (#[trigger] rows[i]).score >= (#[trigger] rows[j]).score
        && (rows[i].score == rows[j].score ==> coverage(rows[i].dictionaries) >= coverage(rows[j].dictionaries)) by {
        assert(!rank_lt(gr(rows[j]), gr(rows[i])));
    }
}

/// The rows of a lookup: each seed with a column for every dictionary, ordered
/// by score and then by how many dictionaries hold the form.
pub fn build_form_groups(seeds: Vec<DictionaryFormSeed>, dictionary_names: &[String]) -> (groups: Vec<DictionaryFormGroup>)
    ensures
        groups_view(groups@) == sort_by(
            seeds_view(seeds@).map_values(|s: SeedView| spec_group(s, strings_view(dictionary_names@))),
            |g: GroupView| group_rank(g),
        ),
        groups@.len() == seeds@.len(),
        forall|i: int, j: int| 0 <= i < j < groups@.len() ==> (#[trigger] groups@[i])@.score >= (#[trigger] groups@[j])@.score,
        forall|i: int, j: int| 0 <= i < j < groups@.len() && (#[trigger] groups@[i])@.score == (#[trigger] groups@[j])@.score
            ==> coverage(groups@[i]@.dictionaries) >= coverage(groups@[j]@.dictionaries),
{
    let ghost names = strings_view(dictionary_names@);
    proof {
        law_form_rows_by_score(seeds_view(seeds@), names);
    }
    let ghost sv = seeds_view(seeds@);
    let mut rest = seeds;
    let mut reversed: Vec<DictionaryFormSeed> = Vec::new();
    while rest.len() > 0
        invariant
            sv.len() == rest@.len() + reversed@.len(),
            forall|k: int| 0 <= k < rest@.len() ==> (#[trigger] rest@[k])@ == sv[k],
            forall|k: int| 0 <= k < reversed@.len() ==> (#[trigger] reversed@[k])@ == sv[sv.len() - 1 - k],
        decreases rest.len(),
    {
        let v = rest.pop().unwrap();
        reversed.push(v);
    }
    let mut groups: Vec<DictionaryFormGroup> = Vec::new();
    while reversed.len() > 0
        invariant
            names == strings_view(dictionary_names@),
            sv.len() == groups@.len() + reversed@.len(),
            forall|k: int| 0 <= k < reversed@.len() ==> (#[trigger] reversed@[k])@ == sv[sv.len() - 1 - k],
            forall|k: int| 0 <= k < groups@.len() ==> (#[trigger] groups@[k])@ == spec_group(sv[k], names),
        decreases reversed.len(),
    {
        let v = reversed.pop().unwrap();
        groups.push(group_of(v, dictionary_names));
    }
    let ghost mapped = groups@;
    assert(groups_view(mapped) =~= sv.map_values(|s: SeedView| spec_group(s, names)));
    let sorted = sort_stable(groups);
    proof {
        let f = |g: DictionaryFormGroup| g.rank();
        let gr = |g: GroupView| group_rank(g);
        let m = |g: DictionaryFormGroup| g@;
        assert forall|x: DictionaryFormGroup| #[trigger] f(x) == gr(m(x)) by {}
        lemma_sort_map(mapped, f, gr, m);
        assert(groups_view(sorted@) =~= sort_by(mapped, f).map_values(m));
        assert(groups_view(mapped) =~= mapped.map_values(m));
        let rows = groups_view(sorted@);
        assert forall|i: int, j: int| 0 <= i < j < sorted@.len() implies (#[trigger] sorted@[i])@.score >= (#[trigger] sorted@[j])@.score
            && (sorted@[i]@.score == sorted@[j]@.score ==> coverage(sorted@[i]@.dictionaries) >= coverage(sorted@[j]@.dictionaries)) by {
            assert(rows[i] == sorted@[i]@);
            assert(rows[j] == sorted@[j]@);
        }
    }
    sorted
}

/// What the lookup asks for, in normalised form.
pub ghost struct LookupKeys {
    pub query_key: Seq<char>,
    pub observed_key: Option<Seq<char>>,
    pub query_surface: Seq<char>,
    pub observed_surface: Option<Seq<char>>,
    pub reading_key: Option<Seq<char>>,
}

pub open spec fn lookup_keys(query: Seq<char>, observed: Option<Seq<char>>, reading: Option<Seq<char>>) -> LookupKeys {
    LookupKeys {
        query_key: form_identity(query),
        observed_key: match observed { Some(o) => Some(form_identity(o)), None => None },
        query_surface: spec_trim(query),
        observed_surface: match observed { Some(o) => Some(spec_trim(o)), None => None },
        reading_key: match reading { Some(r) => Some(reading_identity(r)), None => None },
    }
}

/// One form of one occurrence, as it counts towards its row.
pub ghost struct Contribution {
    pub form: Seq<char>,
    pub normalized: Seq<char>,
    pub surface_key: Seq<char>,
    pub reading: Option<Seq<char>>,
    pub evidence: Seq<char>,
    pub dict_name: Seq<char>,
    pub score: int,
    pub admissible: bool,
}

/// The occurrence's reading (its header's, else its own) as a reading identity.
pub open spec fn spec_entry_reading(e: DictEntry) -> Option<Seq<char>> {
    match e.header.reading {
        Some(r) => Some(reading_identity(r@)),
        None => match e.reading {
            Some(r) => Some(reading_identity(r@)),
            None => None,
        },
    }
}

/// Without a requested reading, or without an occurrence reading, any reading is compatible.
pub open spec fn reading_compatible(keys: LookupKeys, entry_reading: Option<Seq<char>>) -> bool {
    match (keys.reading_key, entry_reading) {
        (Some(a), Some(b)) => a == b,
        _ => true,
    }
}

pub open spec fn base_score(e: DictEntry) -> int {
    match e.match_evidence {
        Some(ev) => ev.score as int,
        None => 0,
    }
}

/// `{match_type}:{dict_name}`.
pub open spec fn evidence_of(e: DictEntry) -> Seq<char> {
    e.match_type@ + seq![':'] + e.dict_name@
}

pub open spec fn opt_seq(r: Option<Seq<char>>) -> Seq<Seq<char>> {
    match r {
        Some(x) => seq![x],
        None => seq![],
    }
}

/// A form scores for an exact observed form (240), an exact query (180), a
/// compatible reading (40), the observed spelling itself (1000) and the query
/// spelling itself (700), on top of the occurrence's match score. It is
/// admissible when it is exact or its reading is compatible.
pub open spec fn contribution_of(keys: LookupKeys, e: DictEntry, form: Seq<char>) -> Contribution {
    let normalized = form_identity(form);
    let surface_key = spec_trim(form);
    let query_exact = normalized == keys.query_key;
    let observed_exact = keys.observed_key == Some(normalized);
    let query_surface_exact = surface_key == keys.query_surface;
    let observed_surface_exact = keys.observed_surface == Some(surface_key);
    let compatible = reading_compatible(keys, spec_entry_reading(e));
    Contribution {
        form,
        normalized,
        surface_key,
        reading: spec_entry_reading(e),
        evidence: evidence_of(e),
        dict_name: e.dict_name@,
        score: base_score(e) + (if observed_exact { 240int } else { 0int }) + (if query_exact { 180int } else { 0int })
            + (if compatible { 40int } else { 0int }) + (if observed_surface_exact { 1000int } else { 0int })
            + (if query_surface_exact { 700int } else { 0int }),
        admissible: query_exact || observed_exact || compatible,
    }
}

/// The contributions of the first `n` forms; forms with an empty identity do not count.
pub open spec fn form_contributions(keys: LookupKeys, e: DictEntry, forms: Seq<Seq<char>>, n: int) -> Seq<Contribution>
    decreases n,
{
    if n <= 0 {
        seq![]
    } else {
        let p = form_contributions(keys, e, forms, n - 1);
        if form_identity(forms[n - 1]).len() == 0 { p } else { p.push(contribution_of(keys, e, forms[n - 1])) }
    }
}

/// Navigation and redirect occurrences contribute no forms.
pub open spec fn is_lexical_occurrence(e: DictEntry) -> bool {
    e.entry_kind@ != "navigation"@ && e.entry_kind@ != "redirect"@
}

/// The contributions of the first `n` occurrences, in order.
pub open spec fn all_contributions(keys: LookupKeys, entries: Seq<DictEntry>, n: int) -> Seq<Contribution>
    decreases n,
{
    if n <= 0 {
        seq![]
    } else {
        let p = all_contributions(keys, entries, n - 1);
        let e = entries[n - 1];
        if is_lexical_occurrence(e) {
            p + form_contributions(keys, e, spec_entry_forms(e), spec_entry_forms(e).len() as int)
        } else {
            p
        }
    }
}

/// The first variant at or after `i` whose trimmed spelling is `key`, or -1.
pub open spec fn variant_index(vs: Seq<VariantSeedView>, key: Seq<char>, i: int) -> int
    decreases vs.len() - i,
{
    if i >= vs.len() || i < 0 {
        -1
    } else if spec_trim(vs[i].surface_form) == key {
        i
    } else {
        variant_index(vs, key, i + 1)
    }
}

/// The first row at or after `i` with identity `key`, or -1.
pub open spec fn seed_index(seeds: Seq<SeedView>, key: Seq<char>, i: int) -> int
    decreases seeds.len() - i,
{
    if i >= seeds.len() || i < 0 {
        -1
    } else if seeds[i].normalized_form == key {
        i
    } else {
        seed_index(seeds, key, i + 1)
    }
}

pub open spec fn push_opt(values: Seq<Seq<char>>, r: Option<Seq<char>>) -> Seq<Seq<char>> {
    match r {
        Some(x) => spec_push_unique(values, x),
        None => values,
    }
}

pub open spec fn max_i32(a: i32, b: int) -> i32 {
    if a as int >= b { a } else { b as i32 }
}

/// A row gains a contribution: its reading, evidence and dictionary, the
/// higher score, admissibility, and the spelling's own variant.
pub open spec fn add_contribution(s: SeedView, c: Contribution) -> SeedView {
    let k = variant_index(s.variants, c.surface_key, 0);
    SeedView {
        readings: push_opt(s.readings, c.reading),
        evidence: spec_push_unique(s.evidence, c.evidence),
        available_dictionary_names: spec_push_unique(s.available_dictionary_names, c.dict_name),
        score: max_i32(s.score, c.score),
        admissible: s.admissible || c.admissible,
        variants: if k >= 0 {
            s.variants.update(k, VariantSeedView {
                readings: push_opt(s.variants[k].readings, c.reading),
                evidence: spec_push_unique(s.variants[k].evidence, c.evidence),
                dictionary_names: spec_push_unique(s.variants[k].dictionary_names, c.dict_name),
                score: max_i32(s.variants[k].score, c.score),
                ..s.variants[k]
            })
        } else {
            s.variants.push(VariantSeedView {
                surface_form: c.form,
                readings: opt_seq(c.reading),
                evidence: seq![c.evidence],
                score: c.score as i32,
                dictionary_names: seq![c.dict_name],
                order: s.variants.len() as usize,
            })
        },
        ..s
    }
}

/// The row a contribution opens.
pub open spec fn new_seed(c: Contribution, order: int) -> SeedView {
    SeedView {
        display_form: c.form,
        normalized_form: c.normalized,
        readings: opt_seq(c.reading),
        evidence: seq![c.evidence],
        score: c.score as i32,
        variants: seq![VariantSeedView {
            surface_form: c.form,
            readings: opt_seq(c.reading),
            evidence: seq![c.evidence],
            score: c.score as i32,
            dictionary_names: seq![c.dict_name],
            order: 0,
        }],
        available_dictionary_names: seq![c.dict_name],
        order: order as usize,
        admissible: c.admissible,
    }
}

/// A contribution joins the row of its identity, or opens a new row.
pub open spec fn group_step(seeds: Seq<SeedView>, c: Contribution) -> Seq<SeedView> {
    let j = seed_index(seeds, c.normalized, 0);
    if j >= 0 {
        seeds.update(j, add_contribution(seeds[j], c))
    } else {
        seeds.push(new_seed(c, seeds.len() as int))
    }
}

/// Rows grouped by identity, in order of first appearance.
pub open spec fn group_contributions(cs: Seq<Contribution>) -> Seq<SeedView>
    decreases cs.len(),
{
    if cs.len() == 0 {
        seq![]
    } else {
        group_step(group_contributions(cs.drop_last()), cs.last())
    }
}

/// The query or observed form itself, when it has a row: its evidence and
/// score, admissibility, and its own variant.
pub open spec fn add_context(seeds: Seq<SeedView>, form: Seq<char>, evidence: Seq<char>, score: i32, reading_key: Option<Seq<char>>) -> Seq<SeedView> {
    let j = seed_index(seeds, form_identity(form), 0);
    if j < 0 {
        seeds
    } else {
        let s = seeds[j];
        let k = variant_index(s.variants, spec_trim(form), 0);
        seeds.update(j, SeedView {
            evidence: spec_push_unique(s.evidence, evidence),
            score: max_i32(s.score, score as int),
            admissible: true,
            variants: if k >= 0 {
                s.variants.update(k, VariantSeedView {
                    evidence: spec_push_unique(s.variants[k].evidence, evidence),
                    score: max_i32(s.variants[k].score, score as int),
                    readings: push_opt(s.variants[k].readings, reading_key),
                    ..s.variants[k]
                })
            } else {
                s.variants.push(VariantSeedView {
                    surface_form: form,
                    readings: opt_seq(reading_key),
                    evidence: seq![evidence],
                    score,
                    dictionary_names: seq![],
                    order: s.variants.len() as usize,
                })
            },
            ..s
        })
    }
}

pub open spec fn admissible_only(seeds: Seq<SeedView>) -> Seq<SeedView>
    decreases seeds.len(),
{
    if seeds.len() == 0 {
        seeds
    } else {
        let p = admissible_only(seeds.drop_last());
        if seeds.last().admissible { p.push(seeds.last()) } else { p }
    }
}

pub open spec fn variant_rank(v: VariantSeedView) -> (int, int) {
    (-(v.score as int), v.order as int)
}

pub open spec fn seed_rank(s: SeedView) -> (int, int) {
    (-(s.score as int), s.order as int)
}

/// Variants by score, descending, then first appearance; the best one names the row.
pub open spec fn finish_seed(s: SeedView) -> SeedView {
    let vs = sort_by(s.variants, |v: VariantSeedView| variant_rank(v));
    SeedView {
        variants: vs,
        display_form: if vs.len() > 0 { vs[0].surface_form } else { s.display_form },
        ..s
    }
}

pub open spec fn context_strings() -> (Seq<char>, Seq<char>) {
    (
        seq!['c', 'o', 'n', 't', 'e', 'x', 't', ':', 'q', 'u', 'e', 'r', 'y'],
        seq!['c', 'o', 'n', 't', 'e', 'x', 't', ':', 'o', 'b', 's', 'e', 'r', 'v', 'e', 'd'],
    )
}

/// The rows of a lookup: the occurrences' forms grouped by identity, the
/// query and observed form added as context, inadmissible rows dropped,
/// each row's variants ordered, rows ordered by score, then first appearance.
pub open spec fn spec_form_seeds(query: Seq<char>, observed: Option<Seq<char>>, reading: Option<Seq<char>>, entries: Seq<DictEntry>) -> Seq<SeedView> {
    let keys = lookup_keys(query, observed, reading);
    let grouped = group_contributions(all_contributions(keys, entries, entries.len() as int));
    let with_query = add_context(grouped, query, context_strings().0, 2000, keys.reading_key);
    let with_context = match observed {
        Some(o) => add_context(with_query, o, context_strings().1, 3000, keys.reading_key),
        None => with_query,
    };
    sort_by(
        admissible_only(with_context).map_values(|s: SeedView| finish_seed(s)),
        |s: SeedView| seed_rank(s),
    )
}

proof fn lemma_variant_index_bounds(vs: Seq<VariantSeedView>, key: Seq<char>, i: int)
    requires
        0 <= i,
    ensures
        variant_index(vs, key, i) == -1 || (i <= variant_index(vs, key, i) < vs.len()),
    decreases vs.len() - i,
{
    if i < vs.len() {
        lemma_variant_index_bounds(vs, key, i + 1);
    }
}

proof fn lemma_seed_index_bounds(seeds: Seq<SeedView>, key: Seq<char>, i: int)
    requires
        0 <= i,
    ensures
        seed_index(seeds, key, i) == -1 || (i <= seed_index(seeds, key, i) < seeds.len()),
    decreases seeds.len() - i,
{
    if i < seeds.len() {
        lemma_seed_index_bounds(seeds, key, i + 1);
    }
}

fn chars_equal(a: &Vec<char>, b: &Vec<char>) -> (r: bool)
    ensures
        r == (a@ == b@),
{
    if a.len() != b.len() {
        return false;
    }
    for i in 0..a.len()
        invariant
            a@.len() == b@.len(),
            forall|k: int| 0 <= k < i ==> a@[k] == b@[k],
    {
        if a[i] != b[i] {
            return false;
        }
    }
    assert(a@ =~= b@);
    true
}

/// Whether two character sequences are equal.
pub fn chars_equal_pub(a: &Vec<char>, b: &Vec<char>) -> (r: bool)
    ensures
        r == (a@ == b@),
{
    chars_equal(a, b)
}

fn find_variant(vs: &Vec<DictionaryFormVariantSeed>, key: &Vec<char>) -> (r: Option<usize>)
    ensures
        r is None <==> variant_index(variant_seeds_view(vs@), key@, 0) == -1,
        r matches Some(k) ==> k == variant_index(variant_seeds_view(vs@), key@, 0),
{
    let ghost v = variant_seeds_view(vs@);
    let mut i = vs.len();
    let mut found: Option<usize> = None;
    while i > 0
        invariant
            i <= vs@.len(),
            v == variant_seeds_view(vs@),
            found is None <==> variant_index(v, key@, i as int) == -1,
            found matches Some(k) ==> k == variant_index(v, key@, i as int),
        decreases i,
    {
        i -= 1;
        let surface = trim_chars(&chars_of(vs[i].surface_form.as_str()));
        assert(v[i as int].surface_form == vs@[i as int].surface_form@);
        if chars_equal(&surface, key) {
            found = Some(i);
        }
        proof { lemma_variant_index_bounds(v, key@, i + 1); }
    }
    proof { lemma_variant_index_bounds(v, key@, 0); }
    found
}

fn find_seed(seeds: &Vec<DictionaryFormSeed>, key: &String) -> (r: Option<usize>)
    ensures
        r is None <==> seed_index(seeds_view(seeds@), key@, 0) == -1,
        r matches Some(k) ==> k == seed_index(seeds_view(seeds@), key@, 0),
{
    let ghost v = seeds_view(seeds@);
    let mut i = seeds.len();
    let mut found: Option<usize> = None;
    while i > 0
        invariant
            i <= seeds@.len(),
            v == seeds_view(seeds@),
            found is None <==> seed_index(v, key@, i as int) == -1,
            found matches Some(k) ==> k == seed_index(v, key@, i as int),
        decreases i,
    {
        i -= 1;
        assert(v[i as int].normalized_form == seeds@[i as int].normalized_form@);
        if seeds[i].normalized_form == *key {
            found = Some(i);
        }
        proof { lemma_seed_index_bounds(v, key@, i + 1); }
    }
    proof { lemma_seed_index_bounds(v, key@, 0); }
    found
}

fn push_option(values: &mut Vec<String>, r: &Option<String>)
    ensures
        strings_view(final(values)@) == push_opt(strings_view(old(values)@), match r { Some(x) => Some(x@), None => None }),
{
    if let Some(x) = r {
        push_unique(values, x.clone());
    }
}

fn option_vec(r: &Option<String>) -> (v: Vec<String>)
    ensures
        strings_view(v@) == opt_seq(match r { Some(x) => Some(x@), None => None }),
{
    let mut v: Vec<String> = Vec::new();
    if let Some(x) = r {
        v.push(x.clone());
    }
    assert(strings_view(v@) =~= opt_seq(match r { Some(x) => Some(x@), None => None }));
    v
}

pub open spec fn opt_view(r: Option<String>) -> Option<Seq<char>> {
    match r {
        Some(x) => Some(x@),
        None => None,
    }
}

/// One form of one occurrence, computed.
struct FormContribution {
    form: String,
    normalized: String,
    surface_key: Vec<char>,
    reading: Option<String>,
    evidence: String,
    dict_name: String,
    score: i32,
    admissible: bool,
}

impl View for FormContribution {
    type V = Contribution;

    closed spec fn view(&self) -> Contribution {
        Contribution {
            form: self.form@,
            normalized: self.normalized@,
            surface_key: self.surface_key@,
            reading: opt_view(self.reading),
            evidence: self.evidence@,
            dict_name: self.dict_name@,
            score: self.score as int,
            admissible: self.admissible,
        }
    }
}

fn max_score(a: i32, b: i32) -> (r: i32)
    ensures
        r == max_i32(a, b as int),
{
    if a >= b { a } else { b }
}

fn add_to_seeds(seeds: &mut Vec<DictionaryFormSeed>, c: FormContribution)
    ensures
        seeds_view(final(seeds)@) == group_step(seeds_view(old(seeds)@), c@),
{
    let ghost cv = c@;
    let ghost old_view = seeds_view(seeds@);
    match find_seed(seeds, &c.normalized) {
        Some(j) => {
            proof { lemma_seed_index_bounds(old_view, cv.normalized, 0); }
            let mut seed = seeds.remove(j);
            let ghost sv = seed@;
            push_option(&mut seed.readings, &c.reading);
            push_unique(&mut seed.evidence, c.evidence.clone());
            push_unique(&mut seed.available_dictionary_names, c.dict_name.clone());
            seed.score = max_score(seed.score, c.score);
            seed.admissible = seed.admissible || c.admissible;
            match find_variant(&seed.variants, &c.surface_key) {
                Some(k) => {
                    proof { lemma_variant_index_bounds(sv.variants, cv.surface_key, 0); }
                    let mut variant = seed.variants.remove(k);
                    push_option(&mut variant.readings, &c.reading);
                    push_unique(&mut variant.evidence, c.evidence.clone());
                    push_unique(&mut variant.dictionary_names, c.dict_name.clone());
                    variant.score = max_score(variant.score, c.score);
                    seed.variants.insert(k, variant);
                    assert(variant_seeds_view(seed.variants@) =~= add_contribution(sv, cv).variants);
                },
                None => {
                    let order = seed.variants.len();
                    let variant = DictionaryFormVariantSeed {
                        surface_form: c.form.clone(),
                        readings: option_vec(&c.reading),
                        evidence: vec![c.evidence.clone()],
                        score: c.score,
                        dictionary_names: vec![c.dict_name.clone()],
                        order,
                    };
                    assert(strings_view(variant.evidence@) =~= seq![cv.evidence]);
                    assert(strings_view(variant.dictionary_names@) =~= seq![cv.dict_name]);
                    seed.variants.push(variant);
                    assert(variant_seeds_view(seed.variants@) =~= add_contribution(sv, cv).variants);
                },
            }
            assert(seed@ == add_contribution(sv, cv));
            seeds.insert(j, seed);
            assert(seeds_view(seeds@) =~= group_step(old_view, cv));
        },
        None => {
            let order = seeds.len();
            let variant = DictionaryFormVariantSeed {
                surface_form: c.form.clone(),
                readings: option_vec(&c.reading),
                evidence: vec![c.evidence.clone()],
                score: c.score,
                dictionary_names: vec![c.dict_name.clone()],
                order: 0,
            };
            assert(strings_view(variant.evidence@) =~= seq![cv.evidence]);
            assert(strings_view(variant.dictionary_names@) =~= seq![cv.dict_name]);
            let seed = DictionaryFormSeed {
                display_form: c.form,
                normalized_form: c.normalized,
                readings: option_vec(&c.reading),
                evidence: vec![c.evidence],
                score: c.score,
                variants: vec![variant],
                available_dictionary_names: vec![c.dict_name],
                order,
                admissible: c.admissible,
            };
            assert(strings_view(seed.evidence@) =~= seq![cv.evidence]);
            assert(strings_view(seed.available_dictionary_names@) =~= seq![cv.dict_name]);
            assert(variant_seeds_view(seed.variants@) =~= new_seed(cv, order as int).variants);
            seeds.push(seed);
            assert(seeds_view(seeds@) =~= group_step(old_view, cv));
        },
    }
}

fn add_context_exec(seeds: &mut Vec<DictionaryFormSeed>, form: &str, evidence: &String, score: i32, reading_key: &Option<String>)
    ensures
        seeds_view(final(seeds)@) == add_context(seeds_view(old(seeds)@), form@, evidence@, score, opt_view(*reading_key)),
{
    let ghost old_view = seeds_view(seeds@);
    let normalized = normalize_form_identity(form);
    let surface_key = trim_chars(&chars_of(form));
    match find_seed(seeds, &normalized) {
        None => {},
        Some(j) => {
            proof { lemma_seed_index_bounds(old_view, normalized@, 0); }
            let mut seed = seeds.remove(j);
            let ghost sv = seed@;
            push_unique(&mut seed.evidence, evidence.clone());
            seed.score = max_score(seed.score, score);
            seed.admissible = true;
            match find_variant(&seed.variants, &surface_key) {
                Some(k) => {
                    proof { lemma_variant_index_bounds(sv.variants, surface_key@, 0); }
                    let mut variant = seed.variants.remove(k);
                    push_unique(&mut variant.evidence, evidence.clone());
                    variant.score = max_score(variant.score, score);
                    push_option(&mut variant.readings, reading_key);
                    seed.variants.insert(k, variant);
                },
                None => {
                    let order = seed.variants.len();
                    let variant = DictionaryFormVariantSeed {
                        surface_form: String::from_str(form),
                        readings: option_vec(reading_key),
                        evidence: vec![evidence.clone()],
                        score,
                        dictionary_names: Vec::new(),
                        order,
                    };
                    assert(strings_view(variant.evidence@) =~= seq![evidence@]);
                    assert(strings_view(variant.dictionary_names@) =~= Seq::<Seq<char>>::empty());
                    seed.variants.push(variant);
                },
            }
            let ghost expected = add_context(old_view, form@, evidence@, score, opt_view(*reading_key));
            assert(variant_seeds_view(seed.variants@) =~= expected[j as int].variants);
            assert(seed@ == expected[j as int]);
            seeds.insert(j, seed);
            assert(seeds_view(seeds@) =~= expected);
        },
    }
}

impl Ranked for DictionaryFormVariantSeed {
    open spec fn rank(&self) -> (int, int) {
        variant_rank(self@)
    }

    fn rank_of(&self) -> (r: (i128, i128)) {
        (-(self.score as i128), self.order as i128)
    }
}

impl Ranked for DictionaryFormSeed {
    open spec fn rank(&self) -> (int, int) {
        seed_rank(self@)
    }

    fn rank_of(&self) -> (r: (i128, i128)) {
        (-(self.score as i128), self.order as i128)
    }
}

fn finish_seed_exec(seed: DictionaryFormSeed) -> (r: DictionaryFormSeed)
    ensures
        r@ == finish_seed(seed@),
{
    let ghost sv = seed@;
    let DictionaryFormSeed { display_form, normalized_form, readings, evidence, score, variants, available_dictionary_names, order, admissible } = seed;
    let ghost raw = variants@;
    let sorted = sort_stable(variants);
    proof {
        let f = |v: DictionaryFormVariantSeed| v.rank();
        let g = |v: VariantSeedView| variant_rank(v);
        let m = |v: DictionaryFormVariantSeed| v@;
        assert forall|x: DictionaryFormVariantSeed| #[trigger] f(x) == g(m(x)) by {}
        lemma_sort_map(raw, f, g, m);
        assert(variant_seeds_view(sorted@) =~= sort_by(raw, f).map_values(m));
        assert(variant_seeds_view(raw) =~= raw.map_values(m));
    }
    let display_form = if sorted.len() > 0 { sorted[0].surface_form.clone() } else { display_form };
    DictionaryFormSeed {
        display_form,
        normalized_form,
        readings,
        evidence,
        score,
        variants: sorted,
        available_dictionary_names,
        order,
        admissible,
    }
}

/// `{match_type}:{dict_name}`.
fn evidence_exec(entry: &DictEntry) -> (r: String)
    ensures
        r@ == evidence_of(*entry),
{
    let mut r = entry.match_type.clone();
    crate::text::push_char(&mut r, ':');
    r.append(entry.dict_name.as_str());
    r
}

fn entry_reading_exec(entry: &DictEntry) -> (r: Option<String>)
    ensures
        opt_view(r) == spec_entry_reading(*entry),
{
    match &entry.header.reading {
        Some(reading) => Some(normalize_reading_identity(reading.as_str())),
        None => match &entry.reading {
            Some(reading) => Some(normalize_reading_identity(reading.as_str())),
            None => None,
        },
    }
}

/// The occurrence's match score leaves room for every bonus a form can earn.
pub open spec fn score_fits(e: DictEntry) -> bool {
    match e.match_evidence {
        Some(ev) => ev.score <= i32::MAX - 2160,
        None => true,
    }
}

/// The rows of a lookup, grouped from the forms of its occurrences.
/// Aliases and reading fallbacks only supply evidence: a form that is not
/// exact enters the matrix only with a compatible reading.
pub fn collect_form_seeds(
    query: &str,
    observed_form: Option<&str>,
    requested_reading: Option<&str>,
    entries: &[DictEntry],
) -> (seeds: Vec<DictionaryFormSeed>)
    requires
        forall|k: int| 0 <= k < entries@.len() ==> score_fits(#[trigger] entries@[k]),
    ensures
        seeds_view(seeds@) == spec_form_seeds(query@, match observed_form { Some(o) => Some(o@), None => None },
            match requested_reading { Some(r) => Some(r@), None => None }, entries@),
{
    let ghost observed = match observed_form { Some(o) => Some(o@), None => None };
    let ghost reading = match requested_reading { Some(r) => Some(r@), None => None };
    let ghost keys = lookup_keys(query@, observed, reading);
    let query_key = normalize_form_identity(query);
    let observed_key = match observed_form { Some(o) => Some(normalize_form_identity(o)), None => None };
    let query_surface = trim_chars(&chars_of(query));
    let observed_surface = match observed_form { Some(o) => Some(trim_chars(&chars_of(o))), None => None };
    let reading_key = match requested_reading { Some(r) => Some(normalize_reading_identity(r)), None => None };
    assert(opt_view(reading_key) == keys.reading_key);
    let mut seeds: Vec<DictionaryFormSeed> = Vec::new();
    let ghost mut cs: Seq<Contribution> = seq![];
    for i in 0..entries.len()
        invariant
            keys == lookup_keys(query@, observed, reading),
            query_key@ == keys.query_key,
            opt_view(observed_key) == keys.observed_key,
            query_surface@ == keys.query_surface,
            observed_surface is None <==> keys.observed_surface is None,
            observed_surface matches Some(x) ==> keys.observed_surface == Some(x@),
            opt_view(reading_key) == keys.reading_key,
            forall|k: int| 0 <= k < entries@.len() ==> score_fits(#[trigger] entries@[k]),
            cs == all_contributions(keys, entries@, i as int),
            seeds_view(seeds@) == group_contributions(cs),
    {
        let entry = &entries[i];
        let lexical = !str_eq(entry.entry_kind.as_str(), "navigation") && !str_eq(entry.entry_kind.as_str(), "redirect");
        if lexical {
            let entry_reading = entry_reading_exec(entry);
            let compatible = match (&reading_key, &entry_reading) {
                (Some(requested), Some(actual)) => *requested == *actual,
                _ => true,
            };
            assert(compatible == reading_compatible(keys, spec_entry_reading(*entry)));
            let base: i32 = match &entry.match_evidence {
                Some(evidence) => evidence.score,
                None => 0,
            };
            assert(score_fits(entries@[i as int]));
            let evidence = evidence_exec(entry);
            let forms = entry_forms(entry);
            let ghost fs = strings_view(forms@);
            let ghost prefix = cs;
            for f in 0..forms.len()
                invariant
                    keys == lookup_keys(query@, observed, reading),
                    query_key@ == keys.query_key,
                    opt_view(observed_key) == keys.observed_key,
                    query_surface@ == keys.query_surface,
                    observed_surface is None <==> keys.observed_surface is None,
                    observed_surface matches Some(x) ==> keys.observed_surface == Some(x@),
                    opt_view(reading_key) == keys.reading_key,
                    opt_view(entry_reading) == spec_entry_reading(*entry),
                    compatible == reading_compatible(keys, spec_entry_reading(*entry)),
                    base as int == base_score(*entry),
                    base <= i32::MAX - 2160,
                    evidence@ == evidence_of(*entry),
                    fs == strings_view(forms@),
                    fs == spec_entry_forms(*entry),
                    cs == prefix + form_contributions(keys, *entry, fs, f as int),
                    seeds_view(seeds@) == group_contributions(cs),
            {
                let form = &forms[f];
                assert(fs[f as int] == form@);
                let normalized = normalize_form_identity(form.as_str());
                if !normalized.as_str().is_empty() {
                    let query_exact = normalized == query_key;
                    let observed_exact = match &observed_key { Some(k) => *k == normalized, None => false };
                    let surface_key = trim_chars(&chars_of(form.as_str()));
                    let query_surface_exact = chars_equal(&surface_key, &query_surface);
                    let observed_surface_exact = match &observed_surface { Some(k) => chars_equal(&surface_key, k), None => false };
                    let admissible = query_exact || observed_exact || compatible;
                    let score: i32 = base + if observed_exact { 240 } else { 0 } + if query_exact { 180 } else { 0 }
                        + if compatible { 40 } else { 0 } + if observed_surface_exact { 1000 } else { 0 }
                        + if query_surface_exact { 700 } else { 0 };
                    let c = FormContribution {
                        form: form.clone(),
                        normalized,
                        surface_key,
                        reading: match &entry_reading { Some(r) => Some(r.clone()), None => None },
                        evidence: evidence.clone(),
                        dict_name: entry.dict_name.clone(),
                        score,
                        admissible,
                    };
                    proof {
                        assert(c@ == contribution_of(keys, *entry, fs[f as int]));
                        cs = cs.push(c@);
                        assert(cs.drop_last() == prefix + form_contributions(keys, *entry, fs, f as int));
                        assert(prefix + form_contributions(keys, *entry, fs, f + 1) =~= cs);
                    }
                    add_to_seeds(&mut seeds, c);
                } else {
                    assert(prefix + form_contributions(keys, *entry, fs, f + 1) =~= cs);
                }
            }
            assert(cs == all_contributions(keys, entries@, i + 1));
        } else {
            assert(cs == all_contributions(keys, entries@, i + 1));
        }
    }
    let ghost grouped = seeds_view(seeds@);
    let query_evidence = string_from_chars(&vec!['c', 'o', 'n', 't', 'e', 'x', 't', ':', 'q', 'u', 'e', 'r', 'y']);
    add_context_exec(&mut seeds, query, &query_evidence, 2000, &reading_key);
    if let Some(observed_text) = observed_form {
        let observed_evidence = string_from_chars(&vec!['c', 'o', 'n', 't', 'e', 'x', 't', ':', 'o', 'b', 's', 'e', 'r', 'v', 'e', 'd']);
        add_context_exec(&mut seeds, observed_text, &observed_evidence, 3000, &reading_key);
    }
    let ghost with_context = seeds_view(seeds@);
    let mut rest = seeds;
    let c0 = rest.len();
    assert(with_context.len() == c0);
    let mut reversed: Vec<DictionaryFormSeed> = Vec::new();
    while rest.len() > 0
        invariant
            with_context.len() == c0,
            with_context.len() == rest@.len() + reversed@.len(),
            forall|k: int| 0 <= k < rest@.len() ==> (#[trigger] rest@[k])@ == with_context[k],
            forall|k: int| 0 <= k < reversed@.len() ==> (#[trigger] reversed@[k])@ == with_context[with_context.len() - 1 - k],
        decreases rest.len(),
    {
        let v = rest.pop().unwrap();
        reversed.push(v);
    }
    let mut kept: Vec<DictionaryFormSeed> = Vec::new();
    let mut n: usize = 0;
    let total = reversed.len();
    while reversed.len() > 0
        invariant
            with_context.len() == c0,
            with_context.len() == n + reversed@.len(),
            forall|k: int| 0 <= k < reversed@.len() ==> (#[trigger] reversed@[k])@ == with_context[with_context.len() - 1 - k],
            seeds_view(kept@) == admissible_only(with_context.take(n as int)).map_values(|s: SeedView| finish_seed(s)),
        decreases reversed.len(),
    {
        let seed = reversed.pop().unwrap();
        assert(seed@ == with_context[n as int]);
        assert(with_context.take(n + 1).drop_last() == with_context.take(n as int));
        if seed.admissible {
            let finished = finish_seed_exec(seed);
            let ghost before = kept@;
            kept.push(finished);
            proof {
                assert(admissible_only(with_context.take(n + 1)) == admissible_only(with_context.take(n as int)).push(with_context[n as int]));
                assert(kept@ == before.push(finished));
                assert(seeds_view(kept@) =~= seeds_view(before).push(finished@));
                assert(admissible_only(with_context.take(n + 1)).map_values(|s: SeedView| finish_seed(s)) =~= admissible_only(with_context.take(n as int)).map_values(|s: SeedView| finish_seed(s)).push(finish_seed(with_context[n as int])));
            }
        }
        n = n + 1;
    }
    assert(with_context.take(n as int) == with_context);
    let ghost finished_view = seeds_view(kept@);
    let ghost raw = kept@;
    let sorted = sort_stable(kept);
    proof {
        let f = |v: DictionaryFormSeed| v.rank();
        let g = |v: SeedView| seed_rank(v);
        let m = |v: DictionaryFormSeed| v@;
        assert forall|x: DictionaryFormSeed| #[trigger] f(x) == g(m(x)) by {}
        lemma_sort_map(raw, f, g, m);
        assert(seeds_view(sorted@) =~= sort_by(raw, f).map_values(m));
        assert(seeds_view(raw) =~= raw.map_values(m));
    }
    sorted
}

} // verus!
