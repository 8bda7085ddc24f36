//! Text rules of the 小学館 adapter: trimming, phrases, labels and kinds.
use vstd::prelude::*;
use crate::dictionary::adapters::common::{
    escape_html, escaped, normalize_visible_text, normalized_visible, sanitize_fallback, sanitized_fallback, tag, text,
};
use crate::dictionary::adapters::crown::zh_view;
use crate::dictionary::adapters::daijirin::element_text;
use crate::dictionary::adapters::daijirin_notes::{first_groups, group_string};
use crate::dictionary::adapters::daijirin_senses::text_view;
use crate::dictionary::adapters::section_view::TextView;
use crate::dictionary::model::{DictionaryTag, DictionaryText};
use crate::html::{by_class, element_view, refs_view, ElementView, HtmlElement};
use crate::dictionary::adapters::daijirin_text::{all_captures, first_captures, group_at, opt_str, opt_view, tags_view};
use crate::dictionary::lookup_state::{spec_trim, trim_chars};
use crate::import::epub::{find_pattern, find_seq};
use crate::text::{
    chars_of, groups_view, is_whitespace, push_char, push_str, regex_captures_all, regex_compiles, regex_pieces, regex_replaced,
    regex_split, spec_is_whitespace, str_eq, string_from_chars, string_from_range,
};
use crate::token::strings_view;

verus! {

/// Which characters are trimmed from the ends of a text.
pub enum Edge {
    /// Whitespace and the punctuation that ends a phrase.
    Phrase,
    /// Whitespace, full stops and arrows.
    Gloss,
}

pub open spec fn edge_of(e: Edge, c: char) -> bool {
    match e {
        Edge::Phrase => spec_is_whitespace(c) || c == '，' || c == ',' || c == '；' || c == ';' || c == '。' || c == '．'
            || c == '、',
        Edge::Gloss => spec_is_whitespace(c) || c == '。' || c == '．' || c == '⇒' || c == '→' || c == '☞',
    }
}

pub open spec fn strip_front(s: Seq<char>, e: Edge) -> Seq<char>
    decreases s.len(),
{
    if s.len() > 0 && edge_of(e, s[0]) { strip_front(s.drop_first(), e) } else { s }
}

pub open spec fn strip_back(s: Seq<char>, e: Edge) -> Seq<char>
    decreases s.len(),
{
    if s.len() > 0 && edge_of(e, s.last()) { strip_back(s.drop_last(), e) } else { s }
}

/// The text without edge characters at either end.
pub open spec fn strip_edges(s: Seq<char>, e: Edge) -> Seq<char> {
    strip_back(strip_front(s, e), e)
}

fn is_edge(e: &Edge, c: char) -> (b: bool)
    ensures
        b == edge_of(*e, c),
{
    match e {
        Edge::Phrase => is_whitespace(c) || c == '，' || c == ',' || c == '；' || c == ';' || c == '。' || c == '．'
            || c == '、',
        Edge::Gloss => is_whitespace(c) || c == '。' || c == '．' || c == '⇒' || c == '→' || c == '☞',
    }
}

fn strip_edges_exec(s: &str, e: &Edge) -> (r: String)
    ensures
        r@ == strip_edges(s@, *e),
{
    let v = chars_of(s);
    let mut i: usize = 0;
    assert(v@.skip(0) == v@);
    while i < v.len() && is_edge(e, v[i])
        invariant
            i <= v.len(),
            strip_front(v@, *e) == strip_front(v@.skip(i as int), *e),
        decreases v.len() - i,
    {
        assert(v@.skip(i as int).drop_first() == v@.skip(i + 1));
        assert(v@.skip(i as int)[0] == v@[i as int]);
        i += 1;
    }
    proof {
        if i < v.len() {
            assert(v@.skip(i as int)[0] == v@[i as int]);
        }
    }
    assert(strip_front(v@, *e) == v@.skip(i as int));
    let mut j: usize = v.len();
    assert(v@.subrange(i as int, v.len() as int) == v@.skip(i as int));
    while j > i && is_edge(e, v[j - 1])
        invariant
            i <= j <= v.len(),
            strip_back(v@.skip(i as int), *e) == strip_back(v@.subrange(i as int, j as int), *e),
        decreases j,
    {
        assert(v@.subrange(i as int, j as int).drop_last() == v@.subrange(i as int, j - 1));
        assert(v@.subrange(i as int, j as int).last() == v@[j - 1]);
        j -= 1;
    }
    proof {
        if j > i {
            assert(v@.subrange(i as int, j as int).last() == v@[j - 1]);
        }
    }
    string_from_range(v.as_slice(), i, j)
}

/// The visible text without whitespace or phrase punctuation at either end.
pub open spec fn outer_trimmed(v: Seq<char>) -> Seq<char> {
    strip_edges(normalized_visible(v), Edge::Phrase)
}

/// The visible text without whitespace or phrase punctuation at either end.
pub fn trim_outer_punctuation(value: &str) -> (r: String)
    ensures
        r@ == outer_trimmed(value@),
{
    let n = normalize_visible_text(value);
    strip_edges_exec(n.as_str(), &Edge::Phrase)
}

/// The visible text of a gloss without whitespace, full stops or arrows at either end.
pub open spec fn gloss_trimmed(v: Seq<char>) -> Seq<char> {
    strip_edges(normalized_visible(v), Edge::Gloss)
}

/// The visible text of a gloss without whitespace, full stops or arrows at either end.
pub fn normalize_gloss_text(value: &str) -> (r: String)
    ensures
        r@ == gloss_trimmed(value@),
{
    let n = normalize_visible_text(value);
    strip_edges_exec(n.as_str(), &Edge::Gloss)
}

/// The phrases found so far, the phrase being read and the bracket depth,
/// after reading `s`: commas and semicolons outside brackets end a phrase.
pub open spec fn phrase_scan(s: Seq<char>) -> (Seq<Seq<char>>, Seq<char>, nat)
    decreases s.len(),
{
    if s.len() == 0 {
        (seq![], seq![], 0)
    } else {
        let prev = phrase_scan(s.drop_last());
        let c = s.last();
        if c == '（' || c == '(' {
            (prev.0, prev.1.push(c), prev.2 + 1)
        } else if c == '）' || c == ')' {
            (prev.0, prev.1.push(c), if prev.2 > 0 { (prev.2 - 1) as nat } else { 0 })
        } else if (c == '，' || c == ',' || c == '；' || c == ';') && prev.2 == 0 {
            (if outer_trimmed(prev.1).len() > 0 { prev.0.push(outer_trimmed(prev.1)) } else { prev.0 }, seq![], 0)
        } else {
            (prev.0, prev.1.push(c), prev.2)
        }
    }
}

/// The non-empty phrases of a text split at commas and semicolons outside brackets, trimmed.
pub open spec fn top_level_phrases(s: Seq<char>) -> Seq<Seq<char>> {
    let scan = phrase_scan(s);
    if outer_trimmed(scan.1).len() > 0 { scan.0.push(outer_trimmed(scan.1)) } else { scan.0 }
}

/// Splits a text into its phrases at commas and semicolons outside brackets.
pub fn split_top_level_phrases(source: &str) -> (r: Vec<String>)
    ensures
        strings_view(r@) == top_level_phrases(source@),
{
    let chars = chars_of(source);
    let mut phrases: Vec<String> = Vec::new();
    let mut current = String::new();
    let mut depth: usize = 0;
    for i in 0..chars.len()
        invariant
            chars@ == source@,
            depth <= i,
            (strings_view(phrases@), current@, depth as nat) == phrase_scan(chars@.take(i as int)),
    {
        let c = chars[i];
        assert(chars@.take(i + 1).drop_last() == chars@.take(i as int));
        assert(chars@.take(i + 1).last() == c);
        if c == '（' || c == '(' {
            depth += 1;
            push_char(&mut current, c);
        } else if c == '）' || c == ')' {
            depth = if depth > 0 { depth - 1 } else { 0 };
            push_char(&mut current, c);
        } else if (c == '，' || c == ',' || c == '；' || c == ';') && depth == 0 {
            let phrase = trim_outer_punctuation(current.as_str());
            if !phrase.as_str().is_empty() {
                let ghost before = strings_view(phrases@);
                phrases.push(phrase);
                assert(strings_view(phrases@) =~= before.push(phrase@));
            }
            current = String::new();
        } else {
            push_char(&mut current, c);
        }
    }
    assert(chars@.take(chars.len() as int) == chars@);
    let phrase = trim_outer_punctuation(current.as_str());
    if !phrase.as_str().is_empty() {
        let ghost before = strings_view(phrases@);
        phrases.push(phrase);
        assert(strings_view(phrases@) =~= before.push(phrase@));
    }
    phrases
}

/// The text with the first occurrence of `v` taken out.
pub open spec fn removed_once(s: Seq<char>, v: Seq<char>) -> Seq<char> {
    match find_seq(s, v) {
        Some(k) => s.take(k) + s.skip(k + v.len()),
        None => s,
    }
}

/// Takes the first occurrence of `value` out of `source` (`str::replacen` once with nothing).
pub fn remove_once(source: &str, value: &str) -> (r: String)
    ensures
        r@ == removed_once(source@, value@),
{
    let s = chars_of(source);
    let v = chars_of(value);
    match find_pattern(s.as_slice(), v.as_slice()) {
        Some(k) => {
            proof {
                crate::import::epub::lemma_find_seq_range_pub(s@, v@);
                assert(find_seq(s@, v@) == Some(k as int));
            }
            assert(k + v.len() <= s.len());
            let mut out = string_from_range(s.as_slice(), 0, k);
            let tail = string_from_range(s.as_slice(), k + v.len(), s.len());
            push_str(&mut out, tail.as_str());
            assert(s@.subrange(0, k as int) == s@.take(k as int));
            assert(s@.subrange(k + v.len(), s.len() as int) == s@.skip(k + v.len()));
            out
        },
        None => String::from_str(source),
    }
}

/// The part-of-speech labels of the dictionary.
pub open spec fn pos_label(l: Seq<char>) -> bool {
    l == "名"@ || l == "名詞"@ || l == "代"@ || l == "代名詞"@ || l == "動"@ || l == "自動"@ || l == "他動"@ || l == "形"@
        || l == "形動"@ || l == "副"@ || l == "連体"@ || l == "連体詞"@ || l == "接続"@ || l == "接続詞"@ || l == "感"@
        || l == "感動詞"@ || l == "助"@ || l == "助詞"@ || l == "助動"@ || l == "助動詞"@ || l == "接頭"@ || l == "接頭語"@
        || l == "接尾"@ || l == "接尾語"@
}

/// Whether a label names a part of speech.
pub fn is_pos_label(label: &str) -> (b: bool)
    ensures
        b == pos_label(label@),
{
    str_eq(label, "名") || str_eq(label, "名詞") || str_eq(label, "代") || str_eq(label, "代名詞") || str_eq(label, "動")
        || str_eq(label, "自動") || str_eq(label, "他動") || str_eq(label, "形") || str_eq(label, "形動") || str_eq(
        label,
        "副",
    ) || str_eq(label, "連体") || str_eq(label, "連体詞") || str_eq(label, "接続") || str_eq(label, "接続詞") || str_eq(
        label,
        "感",
    ) || str_eq(label, "感動詞") || str_eq(label, "助") || str_eq(label, "助詞") || str_eq(label, "助動") || str_eq(
        label,
        "助動詞",
    ) || str_eq(label, "接頭") || str_eq(label, "接頭語") || str_eq(label, "接尾") || str_eq(label, "接尾語")
}

/// The kind of an inline label: a part of speech, a register, or a usage.
pub open spec fn inline_kind(label: Seq<char>) -> Seq<char> {
    if pos_label(label) {
        "pos"@
    } else if label == "成語"@ || label == "書面語"@ || label == "口語"@ || label == "俗語"@ || label == "方言"@ {
        "register"@
    } else {
        "usage"@
    }
}

/// The kind of an inline label: a part of speech, a register, or a usage.
pub fn inline_tag_kind(label: &str) -> (r: &'static str)
    ensures
        r@ == inline_kind(label@),
{
    proof {
        reveal_strlit("pos");
        reveal_strlit("register");
        reveal_strlit("usage");
    }
    if is_pos_label(label) {
        "pos"
    } else if str_eq(label, "成語") || str_eq(label, "書面語") || str_eq(label, "口語") || str_eq(label, "俗語") || str_eq(
        label,
        "方言",
    ) {
        "register"
    } else {
        "usage"
    }
}

/// The kind of entry a reading marks: a bound morpheme between hyphens, a
/// suffix after one, a prefix before one, else a word.
pub open spec fn bound_kind_of(reading: Option<Seq<char>>) -> Seq<char> {
    match reading {
        Some(v) => if v.len() > 0 && v[0] == '-' && v.last() == '-' {
            "bound_morpheme"@
        } else if v.len() > 0 && v[0] == '-' {
            "suffix"@
        } else if v.len() > 0 && v.last() == '-' {
            "prefix"@
        } else {
            "lexical"@
        },
        None => "lexical"@,
    }
}

/// The kind of entry a reading marks.
pub fn bound_kind(reading: Option<&str>) -> (r: &'static str)
    ensures
        r@ == bound_kind_of(opt_str(reading)),
{
    proof {
        reveal_strlit("bound_morpheme");
        reveal_strlit("suffix");
        reveal_strlit("prefix");
        reveal_strlit("lexical");
    }
    match reading {
        Some(value) => {
            let v = chars_of(value);
            let starts = v.len() > 0 && v[0] == '-';
            let ends = v.len() > 0 && v[v.len() - 1] == '-';
            if starts && ends {
                "bound_morpheme"
            } else if starts {
                "suffix"
            } else if ends {
                "prefix"
            } else {
                "lexical"
            }
        },
        None => "lexical",
    }
}

pub open spec fn kana_or_space(c: char) -> bool {
    spec_is_whitespace(c) || ('\u{3040}' <= c && c <= '\u{30ff}') || ('\u{31f0}' <= c && c <= '\u{31ff}')
}

/// Whether a text is written in kana and spaces only.
pub open spec fn kana_word(v: Seq<char>) -> bool {
    forall|k: int| 0 <= k < v.len() ==> kana_or_space(#[trigger] v[k])
}

/// Whether a text is written in kana and spaces only.
pub fn is_kana_word(value: &str) -> (b: bool)
    ensures
        b == kana_word(value@),
{
    let v = chars_of(value);
    for i in 0..v.len()
        invariant
            v@ == value@,
            forall|k: int| 0 <= k < i ==> kana_or_space(#[trigger] v@[k]),
    {
        let c = v[i];
        if !(is_whitespace(c) || ('\u{3040}' <= c && c <= '\u{30ff}') || ('\u{31f0}' <= c && c <= '\u{31ff}')) {
            assert(!kana_or_space(v@[i as int]));
            return false;
        }
    }
    true
}

pub open spec fn foreign_pattern() -> Seq<char> {
    "^[\\[［]([^\\]］]+)[\\]］](.+)$"@
}

/// The language a bracketed code names, or the code itself.
pub open spec fn language_name(code: Seq<char>) -> Seq<char> {
    if code == "フ"@ || code == "仏"@ {
        "法语"@
    } else if code == "英"@ {
        "英语"@
    } else if code == "独"@ {
        "德语"@
    } else if code == "伊"@ {
        "意大利语"@
    } else {
        code
    }
}

pub open spec fn has_ascii_letter(w: Seq<char>) -> bool {
    exists|k: int| 0 <= k < w.len() && (('a' <= #[trigger] w[k] && w[k] <= 'z') || ('A' <= w[k] && w[k] <= 'Z'))
}

/// The foreign origin an annotation `［code］word` gives, when the word has a Latin letter.
pub open spec fn foreign_origin_of(value: Seq<char>) -> Option<Seq<char>> {
    match first_captures(foreign_pattern(), value) {
        None => None,
        Some(g) => match (group_at(g, 1), group_at(g, 2)) {
            (Some(c), Some(w)) => if spec_trim(w).len() == 0 || !has_ascii_letter(spec_trim(w)) {
                None
            } else {
                Some(language_name(spec_trim(c)) + seq![' '] + spec_trim(w))
            },
            _ => None,
        },
    }
}

fn has_ascii_letter_exec(w: &[char]) -> (b: bool)
    ensures
        b == has_ascii_letter(w@),
{
    for i in 0..w.len()
        invariant
            forall|k: int| 0 <= k < i ==> !(('a' <= #[trigger] w@[k] && w@[k] <= 'z') || ('A' <= w@[k] && w@[k] <= 'Z')),
    {
        let c = w[i];
        if ('a' <= c && c <= 'z') || ('A' <= c && c <= 'Z') {
            assert(('a' <= w@[i as int] && w@[i as int] <= 'z') || ('A' <= w@[i as int] && w@[i as int] <= 'Z'));
            return true;
        }
    }
    false
}

/// The foreign origin of a headword annotation such as `［英］paperwork`.
pub fn shogakukan_foreign_origin(value: &str) -> (r: Option<String>)
    ensures
        opt_view(r) == foreign_origin_of(value@),
{
    let groups = match first_groups("^[\\[［]([^\\]］]+)[\\]］](.+)$", value) {
        Some(g) => g,
        None => {
            return None;
        },
    };
    let code = group_string(&groups, 1);
    let word = group_string(&groups, 2);
    match (code, word) {
        (Some(c), Some(w)) => {
            let code = trim_chars(chars_of(c.as_str()).as_slice());
            let word = trim_chars(chars_of(w.as_str()).as_slice());
            if word.len() == 0 || !has_ascii_letter_exec(word.as_slice()) {
                return None;
            }
            let code_s = string_from_chars(code.as_slice());
            let language = if str_eq(code_s.as_str(), "フ") || str_eq(code_s.as_str(), "仏") {
                String::from_str("法语")
            } else if str_eq(code_s.as_str(), "英") {
                String::from_str("英语")
            } else if str_eq(code_s.as_str(), "独") {
                String::from_str("德语")
            } else if str_eq(code_s.as_str(), "伊") {
                String::from_str("意大利语")
            } else {
                code_s
            };
            let mut out = language;
            push_char(&mut out, ' ');
            push_str(&mut out, string_from_chars(word.as_slice()).as_str());
            Some(out)
        },
        _ => None,
    }
}

pub open spec fn ruby_pattern() -> Seq<char> {
    "([一-龯々〆ヵヶ]+)\\(([ぁ-ゖァ-ヺー]+)\\)"@
}

/// The pieces between the matches of a pattern; the whole text when the pattern does not compile.
pub open spec fn all_pieces(pattern: Seq<char>, haystack: Seq<char>) -> Seq<Seq<char>> {
    if regex_compiles(pattern) { regex_pieces(pattern, haystack) } else { seq![haystack] }
}

pub open spec fn piece_at(pieces: Seq<Seq<char>>, i: int) -> Seq<char> {
    if 0 <= i < pieces.len() { pieces[i] } else { seq![] }
}

pub open spec fn group_text(g: Seq<Option<Seq<char>>>, i: int) -> Seq<char> {
    match group_at(g, i) {
        Some(v) => v,
        None => seq![],
    }
}

/// The HTML and the plain text of the first `n` matches of a label with the
/// text before each: kanji followed by their reading in brackets become ruby
/// in the HTML and the kanji alone in the plain text.
pub open spec fn label_parts(pieces: Seq<Seq<char>>, caps: Seq<Seq<Option<Seq<char>>>>, n: int) -> (Seq<char>, Seq<char>)
    decreases n,
{
    if n <= 0 {
        (seq![], seq![])
    } else {
        let prev = label_parts(pieces, caps, n - 1);
        let piece = piece_at(pieces, n - 1);
        let base = group_text(caps[n - 1], 1);
        let reading = group_text(caps[n - 1], 2);
        (
            prev.0 + escaped(piece) + "<ruby>"@ + escaped(base) + "<rt>"@ + escaped(reading) + "</rt></ruby>"@,
            prev.1 + piece + base,
        )
    }
}

/// The plain label of a subheadword and, when it writes readings in
/// brackets, its HTML with those readings as ruby.
pub open spec fn subhead_label_of(value: Seq<char>) -> (Seq<char>, Option<Seq<char>>) {
    let v = normalized_visible(value);
    let caps = all_captures(ruby_pattern(), v);
    let pieces = all_pieces(ruby_pattern(), v);
    let parts = label_parts(pieces, caps, caps.len() as int);
    let last = piece_at(pieces, caps.len() as int);
    (parts.1 + last, if caps.len() > 0 { Some(sanitized_fallback(parts.0 + escaped(last))) } else { None })
}

fn piece_string(pieces: &Vec<String>, i: usize) -> (r: String)
    ensures
        r@ == piece_at(strings_view(pieces@), i as int),
{
    if i < pieces.len() {
        pieces[i].clone()
    } else {
        String::new()
    }
}

fn group_or_empty(groups: &Vec<Option<String>>, i: usize) -> (r: String)
    ensures
        r@ == group_text(groups_view(groups@), i as int),
{
    match group_string(groups, i) {
        Some(g) => g,
        None => String::new(),
    }
}

/// The plain label of a subheadword and its HTML with bracketed readings as ruby.
pub fn subhead_label(value: &str) -> (r: (String, Option<String>))
    ensures
        (r.0@, opt_view(r.1)) == subhead_label_of(value@),
{
    let v = normalize_visible_text(value);
    let pattern = "([一-龯々〆ヵヶ]+)\\(([ぁ-ゖァ-ヺー]+)\\)";
    let caps: Vec<Vec<Option<String>>> = match regex_captures_all(pattern, v.as_str()) {
        Some(c) => c,
        None => Vec::new(),
    };
    let pieces: Vec<String> = match regex_split(pattern, v.as_str()) {
        Some(p) => p,
        None => {
            let mut only: Vec<String> = Vec::new();
            only.push(v.clone());
            only
        },
    };
    let ghost cv = crate::text::matches_view(caps@);
    let ghost pv = strings_view(pieces@);
    assert(cv == all_captures(ruby_pattern(), v@));
    assert(pv =~= all_pieces(ruby_pattern(), v@));
    let mut html = String::new();
    let mut plain = String::new();
    for i in 0..caps.len()
        invariant
            cv == crate::text::matches_view(caps@),
            pv == strings_view(pieces@),
            (html@, plain@) == label_parts(pv, cv, i as int),
    {
        let piece = piece_string(&pieces, i);
        assert(cv[i as int] == groups_view(caps@[i as int]@));
        let base = group_or_empty(&caps[i], 1);
        let reading = group_or_empty(&caps[i], 2);
        push_str(&mut html, escape_html(piece.as_str()).as_str());
        push_str(&mut html, "<ruby>");
        push_str(&mut html, escape_html(base.as_str()).as_str());
        push_str(&mut html, "<rt>");
        push_str(&mut html, escape_html(reading.as_str()).as_str());
        push_str(&mut html, "</rt></ruby>");
        push_str(&mut plain, piece.as_str());
        push_str(&mut plain, base.as_str());
    }
    let last = piece_string(&pieces, caps.len());
    push_str(&mut html, escape_html(last.as_str()).as_str());
    push_str(&mut plain, last.as_str());
    let label_html = if caps.len() > 0 { Some(sanitize_fallback(html.as_str())) } else { None };
    (plain, label_html)
}

/// The tags with one of `kind` and `label` added, unless one is already there.
pub open spec fn unique_tag_added(tags: Seq<(Seq<char>, Seq<char>)>, kind: Seq<char>, label: Seq<char>) -> Seq<(Seq<char>, Seq<char>)> {
    if tags.contains((kind, label)) { tags } else { tags.push((kind, normalized_visible(label))) }
}

pub proof fn lemma_push_contains<T>(s: Seq<T>, x: T, w: T)
    ensures
        s.push(x).contains(w) == (s.contains(w) || x == w),
{
    if s.push(x).contains(w) {
        let k = choose|k: int| 0 <= k < s.push(x).len() && #[trigger] s.push(x)[k] == w;
        if k < s.len() {
            assert(s[k] == w);
        }
    }
    if s.contains(w) {
        let k = choose|k: int| 0 <= k < s.len() && #[trigger] s[k] == w;
        assert(s.push(x)[k] == w);
    }
    if x == w {
        assert(s.push(x)[s.len() as int] == w);
    }
}

/// Adds a tag unless one of the same kind and label is already there.
pub fn push_unique_tag(tags: &mut Vec<DictionaryTag>, kind: &str, label: &str)
    ensures
        tags_view(final(tags)@) == unique_tag_added(tags_view(old(tags)@), kind@, label@),
{
    let ghost tv = tags_view(tags@);
    let mut found = false;
    for i in 0..tags.len()
        invariant
            tv == tags_view(tags@),
            found == tv.take(i as int).contains((kind@, label@)),
    {
        proof {
            assert(tv.take(i + 1) == tv.take(i as int).push(tv[i as int]));
            lemma_push_contains(tv.take(i as int), tv[i as int], (kind@, label@));
        }
        found = found || (str_eq(tags[i].kind.as_str(), kind) && str_eq(tags[i].label.as_str(), label));
    }
    assert(tv.take(tags.len() as int) == tv);
    if !found {
        let t = tag(kind, label);
        tags.push(t);
        assert(tags_view(tags@) =~= tv.push((kind@, normalized_visible(label@))));
    }
}

/// The text left after each labelled element's label is taken out of it once,
/// and the register tags of the labels.
pub open spec fn square_labels(acc: (Seq<char>, Seq<(Seq<char>, Seq<char>)>), els: Seq<ElementView>) -> (Seq<char>, Seq<(Seq<char>, Seq<char>)>)
    decreases els.len(),
{
    if els.len() == 0 {
        acc
    } else {
        let prev = square_labels(acc, els.drop_last());
        let label = element_text(els.last());
        if label.len() == 0 { prev } else { (removed_once(prev.0, label), unique_tag_added(prev.1, "register"@, label)) }
    }
}

/// The non-empty labels the first groups of matches give, normalised.
pub open spec fn first_group_labels(caps: Seq<Seq<Option<Seq<char>>>>) -> Seq<Seq<char>>
    decreases caps.len(),
{
    if caps.len() == 0 {
        seq![]
    } else {
        let prev = first_group_labels(caps.drop_last());
        match group_at(caps.last(), 1) {
            Some(v) => if normalized_visible(v).len() > 0 { prev.push(normalized_visible(v)) } else { prev },
            None => prev,
        }
    }
}

/// The tags with a tag of `kind` for each label, each once.
pub open spec fn tags_with(tags: Seq<(Seq<char>, Seq<char>)>, kind: Seq<char>, labels: Seq<Seq<char>>) -> Seq<(Seq<char>, Seq<char>)>
    decreases labels.len(),
{
    if labels.len() == 0 { tags } else { unique_tag_added(tags_with(tags, kind, labels.drop_last()), kind, labels.last()) }
}

pub open spec fn angle_pattern() -> Seq<char> {
    "[〈<]([^〉>]{1,16})[〉>]"@
}

/// Every match of a pattern replaced; the text unchanged when the pattern does not compile.
pub open spec fn replaced_or_same(pattern: Seq<char>, haystack: Seq<char>, replacement: Seq<char>) -> Seq<char> {
    if regex_compiles(pattern) { regex_replaced(pattern, haystack, replacement) } else { haystack }
}

/// The Chinese content and the tags of a subheadword's meaning: its text
/// without its register labels and angle-bracketed domains, which become tags.
pub open spec fn subhead_parts(p: ElementView) -> (Option<TextView>, Seq<(Seq<char>, Seq<char>)>) {
    let white = square_labels((element_text(p), seq![]), by_class(p, "white-square"@));
    let black = square_labels(white, by_class(p, "black-square"@));
    let labels = first_group_labels(all_captures(angle_pattern(), black.0));
    let value = outer_trimmed(replaced_or_same(angle_pattern(), black.0, seq![]));
    (if value.len() > 0 { Some(zh_view(value)) } else { None }, tags_with(black.1, "domain"@, labels))
}

fn take_square_labels(paragraph: &HtmlElement, class: &str, value: &mut String, tags: &mut Vec<DictionaryTag>)
    ensures
        (final(value)@, tags_view(final(tags)@)) == square_labels(
            (old(value)@, tags_view(old(tags)@)),
            by_class(element_view(*paragraph), class@),
        ),
{
    let mut elements: Vec<&HtmlElement> = Vec::new();
    paragraph.all_by_class(class, &mut elements);
    let ghost ev = refs_view(elements@);
    let ghost start = (value@, tags_view(tags@));
    assert(ev =~= by_class(element_view(*paragraph), class@));
    for i in 0..elements.len()
        invariant
            ev == refs_view(elements@),
            (value@, tags_view(tags@)) == square_labels(start, ev.take(i as int)),
    {
        assert(ev.take(i + 1).drop_last() == ev.take(i as int));
        assert(ev.take(i + 1).last() == ev[i as int]);
        let t = elements[i].text();
        let label = normalize_visible_text(t.as_str());
        if !label.as_str().is_empty() {
            let next = remove_once(value.as_str(), label.as_str());
            *value = next;
            push_unique_tag(tags, "register", label.as_str());
        }
    }
    assert(ev.take(elements.len() as int) == ev);
}

/// The Chinese content and the tags of a subheadword's meaning paragraph.
pub fn subhead_content(paragraph: &HtmlElement) -> (r: (Option<DictionaryText>, Vec<DictionaryTag>))
    ensures
        (
            match r.0 {
                Some(t) => Some(text_view(t)),
                None => None,
            },
            tags_view(r.1@),
        ) == subhead_parts(element_view(*paragraph)),
{
    let t = paragraph.text();
    let mut value = normalize_visible_text(t.as_str());
    let mut tags: Vec<DictionaryTag> = Vec::new();
    assert(tags_view(tags@) =~= Seq::<(Seq<char>, Seq<char>)>::empty());
    take_square_labels(paragraph, "white-square", &mut value, &mut tags);
    take_square_labels(paragraph, "black-square", &mut value, &mut tags);
    let pattern = "[〈<]([^〉>]{1,16})[〉>]";
    let caps: Vec<Vec<Option<String>>> = match regex_captures_all(pattern, value.as_str()) {
        Some(c) => c,
        None => Vec::new(),
    };
    let ghost cv = crate::text::matches_view(caps@);
    assert(cv == all_captures(angle_pattern(), value@));
    let mut labels: Vec<String> = Vec::new();
    for i in 0..caps.len()
        invariant
            cv == crate::text::matches_view(caps@),
            strings_view(labels@) == first_group_labels(cv.take(i as int)),
    {
        assert(cv.take(i + 1).drop_last() == cv.take(i as int));
        assert(cv.take(i + 1).last() == cv[i as int]);
        assert(cv[i as int] == groups_view(caps@[i as int]@));
        match group_string(&caps[i], 1) {
            Some(g) => {
                let l = normalize_visible_text(g.as_str());
                if !l.as_str().is_empty() {
                    let ghost before = strings_view(labels@);
                    labels.push(l);
                    assert(strings_view(labels@) =~= before.push(l@));
                }
            },
            None => {},
        }
    }
    assert(cv.take(caps.len() as int) == cv);
    let stripped = match crate::text::regex_replace_all(pattern, value.as_str(), "") {
        Some(v) => v,
        None => value.clone(),
    };
    proof {
        reveal_strlit("");
        assert(""@ =~= Seq::<char>::empty());
    }
    assert(stripped@ == replaced_or_same(angle_pattern(), value@, seq![]));
    let ghost lv = strings_view(labels@);
    let ghost t0 = tags_view(tags@);
    for i in 0..labels.len()
        invariant
            lv == strings_view(labels@),
            tags_view(tags@) == tags_with(t0, "domain"@, lv.take(i as int)),
    {
        assert(lv.take(i + 1).drop_last() == lv.take(i as int));
        assert(lv.take(i + 1).last() == lv[i as int]);
        push_unique_tag(&mut tags, "domain", labels[i].as_str());
    }
    assert(lv.take(labels.len() as int) == lv);
    let trimmed = trim_outer_punctuation(stripped.as_str());
    let content = if trimmed.as_str().is_empty() { None } else { Some(text("zh-CN", trimmed.as_str())) };
    (content, tags)
}

} // verus!
