//! Scoring the occurrences a lookup found against what the reader asked for,
//! ordering them, and marking the one each dictionary prefers.
use vstd::prelude::*;
use crate::dictionary::adapters::daijirin::contains_seq;
use crate::dictionary::lookup_state::{char_from_u32, fold_variant, nfkc, nfkc_chars};
use crate::dictionary::model::{DictEntry, DictionarySense, DictionaryTag, PosTag};
use crate::import::epub::find_pattern;
use crate::text::{chars_of, is_whitespace, spec_is_whitespace, str_eq, string_from_chars};
use crate::token::strings_view;
use crate::sort::{lemma_sort_map_on, lemma_sort_props, rank_lt, sort_by, sort_stable, sorted_by, stable_sort, Ranked};

verus! {

/// Middle dots and dashes, which a lookup key leaves out.
pub open spec fn is_form_mark(c: char) -> bool {
    c == '・' || c == '･' || c == '-' || c == '‐' || c == '‑' || c == '‒' || c == '–' || c == '—'
        || c == '―'
}

/// The characters folded, without whitespace, middle dots and dashes.
pub open spec fn strip_form(s: Seq<char>) -> Seq<char>
    decreases s.len(),
{
    if s.len() == 0 {
        s
    } else {
        let p = strip_form(s.drop_last());
        let c = fold_variant(s.last());
        if spec_is_whitespace(c) || is_form_mark(c) { p } else { p.push(c) }
    }
}

/// The key a form is compared by.
pub open spec fn form_key(s: Seq<char>) -> Seq<char> {
    strip_form(nfkc(s))
}

/// Hiragana moved to the katakana block, 0x60 above it.
pub open spec fn hiragana_to_katakana(c: char) -> char {
    if 0x3041 <= c as u32 <= 0x3096 { ((c as u32) + 0x60) as char } else { c }
}

/// The key a reading is compared by: the form key in katakana.
pub open spec fn reading_key(s: Seq<char>) -> Seq<char> {
    form_key(s).map_values(|c: char| hiragana_to_katakana(c))
}

fn is_form_mark_exec(c: char) -> (b: bool)
    ensures
        b == is_form_mark(c),
{
    c == '・' || c == '･' || c == '-' || c == '‐' || c == '‑' || c == '‒' || c == '–' || c == '—'
        || c == '―'
}

/// NFKC, with `繋` folded, without whitespace, middle dots and dashes.
pub fn normalize_form(value: &str) -> (r: String)
    ensures
        r@ == form_key(value@),
{
    let n = nfkc_chars(value);
    let mut out: Vec<char> = Vec::new();
    for i in 0..n.len()
        invariant
            n@ == nfkc(value@),
            out@ == strip_form(n@.take(i as int)),
    {
        let c = if n[i] == '繋' { '繫' } else { n[i] };
        if !is_whitespace(c) && !is_form_mark_exec(c) {
            out.push(c);
        }
        assert(n@.take(i + 1).drop_last() == n@.take(i as int));
    }
    assert(n@.take(n.len() as int) == n@);
    string_from_chars(out.as_slice())
}

/// The normalised form with hiragana written in katakana.
pub fn normalize_reading(value: &str) -> (r: String)
    ensures
        r@ == reading_key(value@),
{
    let form = normalize_form(value);
    let chars = chars_of(form.as_str());
    let mut out: Vec<char> = Vec::new();
    for i in 0..chars.len()
        invariant
            chars@ == form_key(value@),
            out@.len() == i,
            forall|k: int| 0 <= k < i ==> #[trigger] out@[k] == hiragana_to_katakana(chars@[k]),
    {
        let c = chars[i];
        let u = c as u32;
        if 0x3041 <= u && u <= 0x3096 {
            match char_from_u32(u + 0x60) {
                Some(k) => out.push(k),
                None => out.push(c),
            }
        } else {
            out.push(c);
        }
    }
    assert(out@ =~= chars@.map_values(|c: char| hiragana_to_katakana(c)));
    string_from_chars(out.as_slice())
}

/// Whether `pat` occurs in `s`.
fn str_contains(s: &str, pat: &str) -> (b: bool)
    ensures
        b == contains_seq(s@, pat@),
{
    let sc = chars_of(s);
    let pc = chars_of(pat);
    find_pattern(sc.as_slice(), pc.as_slice()).is_some()
}

/// The labels of the part-of-speech tags among `tags`.
pub open spec fn tag_pos_labels(tags: Seq<DictionaryTag>) -> Seq<Seq<char>>
    decreases tags.len(),
{
    if tags.len() == 0 {
        seq![]
    } else {
        let rest = tag_pos_labels(tags.drop_last());
        if tags.last().kind@ == "pos"@ { rest.push(tags.last().label@) } else { rest }
    }
}

/// The part-of-speech labels of a sense and then of its children, depth first.
pub open spec fn sense_pos_labels(s: DictionarySense) -> Seq<Seq<char>>
    decreases s,
{
    tag_pos_labels(s.tags@) + senses_pos_labels(s.children@)
}

pub open spec fn senses_pos_labels(ss: Seq<DictionarySense>) -> Seq<Seq<char>>
    decreases ss,
{
    if ss.len() == 0 {
        seq![]
    } else {
        sense_pos_labels(ss[0]) + senses_pos_labels(ss.drop_first())
    }
}

/// The labels of all `tags`.
pub open spec fn tag_labels(tags: Seq<DictionaryTag>) -> Seq<Seq<char>> {
    tags.map_values(|t: DictionaryTag| t.label@)
}

/// The header's part-of-speech labels, then those of the senses.
pub open spec fn entry_pos_labels(e: DictEntry) -> Seq<Seq<char>> {
    tag_labels(e.header.pos_tags@) + senses_pos_labels(e.senses@)
}

pub open spec fn strs_view(v: Seq<&str>) -> Seq<Seq<char>> {
    v.map_values(|m: &str| m@)
}

fn push_tag_pos_labels(tags: &Vec<DictionaryTag>, out: &mut Vec<String>)
    ensures
        strings_view(final(out)@) == strings_view(old(out)@) + tag_pos_labels(tags@),
{
    let ghost start = strings_view(out@);
    for i in 0..tags.len()
        invariant
            strings_view(out@) == start + tag_pos_labels(tags@.take(i as int)),
    {
        assert(tags@.take(i + 1).drop_last() == tags@.take(i as int));
        assert(tags@.take(i + 1).last() == tags@[i as int]);
        let ghost before = out@;
        if str_eq(tags[i].kind.as_str(), "pos") {
            let label = tags[i].label.clone();
            out.push(label);
            assert(out@ == before.push(label));
            assert(strings_view(before.push(label)) =~= strings_view(before).push(label@));
            assert(tag_pos_labels(tags@.take(i + 1)) == tag_pos_labels(tags@.take(i as int)).push(tags@[i as int].label@));
            assert(strings_view(out@) =~= start + tag_pos_labels(tags@.take(i + 1)));
        } else {
            assert(tag_pos_labels(tags@.take(i + 1)) == tag_pos_labels(tags@.take(i as int)));
        }
    }
    assert(tags@.take(tags.len() as int) == tags@);
}

#[verifier::spinoff_prover]
#[verifier::rlimit(30)]
fn push_senses_pos_labels(senses: &Vec<DictionarySense>, out: &mut Vec<String>)
    ensures
        strings_view(final(out)@) == strings_view(old(out)@) + senses_pos_labels(senses@),
    decreases senses@,
{
    let ghost ss = senses@;
    let ghost start = strings_view(out@);
    assert(ss.skip(0) == ss);
    for i in 0..senses.len()
        invariant
            ss == senses@,
            start + senses_pos_labels(ss) == strings_view(out@) + senses_pos_labels(ss.skip(i as int)),
    {
        let ghost before = strings_view(out@);
        assert(ss.skip(i as int)[0] == ss[i as int]);
        assert(ss.skip(i as int).drop_first() == ss.skip(i + 1));
        assert(senses_pos_labels(ss.skip(i as int)) == sense_pos_labels(ss[i as int])
            + senses_pos_labels(ss.skip(i + 1)));
        assert(sense_pos_labels(ss[i as int]) == tag_pos_labels(senses@[i as int].tags@)
            + senses_pos_labels(senses@[i as int].children@));
        push_tag_pos_labels(&senses[i].tags, out);
        assert(decreases_to!(senses@ => senses@[i as int]));
        push_senses_pos_labels(&senses[i].children, out);
        assert(strings_view(out@) + senses_pos_labels(ss.skip(i + 1)) =~= before + senses_pos_labels(
            ss.skip(i as int),
        ));
    }
    assert(ss.skip(ss.len() as int) =~= Seq::<DictionarySense>::empty());
    assert(strings_view(out@) + Seq::<Seq<char>>::empty() =~= strings_view(out@));
}

/// The markers a part-of-speech label shows for a major part of speech.
pub open spec fn pos_markers(major: Seq<char>) -> Seq<Seq<char>> {
    if major == "動詞"@ {
        seq!["動"@]
    } else if major == "形容詞"@ {
        seq!["形"@]
    } else if major == "副詞"@ {
        seq!["副"@]
    } else if major == "連体詞"@ {
        seq!["連体"@]
    } else if major == "接続詞"@ {
        seq!["接続"@, "接"@]
    } else if major == "名詞"@ {
        seq!["名"@, "姓"@]
    } else if major == "助詞"@ {
        seq!["助詞"@]
    } else if major == "助動詞"@ {
        seq!["助動"@]
    } else if major == "感動詞"@ {
        seq!["感"@]
    } else {
        seq![]
    }
}

fn pos_markers_exec(major: &str) -> (r: Vec<&'static str>)
    ensures
        strs_view(r@) == pos_markers(major@),
{
    let mut r: Vec<&'static str> = Vec::new();
    if str_eq(major, "動詞") {
        r.push("動");
    } else if str_eq(major, "形容詞") {
        r.push("形");
    } else if str_eq(major, "副詞") {
        r.push("副");
    } else if str_eq(major, "連体詞") {
        r.push("連体");
    } else if str_eq(major, "接続詞") {
        r.push("接続");
        r.push("接");
    } else if str_eq(major, "名詞") {
        r.push("名");
        r.push("姓");
    } else if str_eq(major, "助詞") {
        r.push("助詞");
    } else if str_eq(major, "助動詞") {
        r.push("助動");
    } else if str_eq(major, "感動詞") {
        r.push("感");
    }
    assert(strs_view(r@) =~= pos_markers(major@));
    r
}

pub open spec fn is_bound_kind(kind: Seq<char>) -> bool {
    kind == "prefix"@ || kind == "suffix"@ || kind == "bound_morpheme"@
}

/// How an entry's parts of speech agree with the part of speech asked for.
pub open spec fn pos_match_of(requested: Option<PosTag>, e: DictEntry) -> Seq<char> {
    match requested {
        None => "unknown"@,
        Some(p) => {
            let labels = entry_pos_labels(e);
            let kind = e.entry_kind@;
            if labels.len() == 0 {
                if kind == "surname"@ && p.major@ == "名詞"@ {
                    "compatible"@
                } else if is_bound_kind(kind) && (contains_seq(p.sub1@, "接尾"@) || contains_seq(
                    p.sub1@,
                    "接頭"@,
                )) {
                    "compatible"@
                } else if kind == "surname"@ || kind == "kanji"@ || is_bound_kind(kind) {
                    "conflict"@
                } else {
                    "unknown"@
                }
            } else if forall|i: int| 0 <= i < labels.len() ==> contains_seq(#[trigger] labels[i], "連語"@) {
                "unknown"@
            } else {
                let markers = pos_markers(p.major@);
                if markers.len() == 0 {
                    "unknown"@
                } else if exists|i: int, j: int|
                    0 <= i < labels.len() && 0 <= j < markers.len() && contains_seq(
                        #[trigger] labels[i],
                        #[trigger] markers[j],
                    ) {
                    "exact"@
                } else {
                    "conflict"@
                }
            }
        },
    }
}

pub open spec fn pos_of(requested: Option<&PosTag>) -> Option<PosTag> {
    match requested {
        Some(p) => Some(*p),
        None => None,
    }
}

/// How an entry's parts of speech agree with the part of speech asked for:
/// `exact`, `compatible`, `conflict` or `unknown`.
pub fn pos_compatibility(requested: Option<&PosTag>, entry: &DictEntry) -> (r: &'static str)
    ensures
        r@ == pos_match_of(pos_of(requested), *entry),
{
    let p = match requested {
        None => {
            return "unknown";
        },
        Some(p) => p,
    };
    let mut labels: Vec<String> = Vec::new();
    for i in 0..entry.header.pos_tags.len()
        invariant
            strings_view(labels@) == tag_labels(entry.header.pos_tags@.take(i as int)),
    {
        let ghost before = labels@;
        let label = entry.header.pos_tags[i].label.clone();
        labels.push(label);
        assert(labels@ == before.push(label));
        assert(label == entry.header.pos_tags@[i as int].label);
        assert(strings_view(before.push(label)) =~= strings_view(before).push(label@));
        assert(entry.header.pos_tags@.take(i + 1) =~= entry.header.pos_tags@.take(i as int).push(
            entry.header.pos_tags@[i as int],
        ));
        assert(tag_labels(entry.header.pos_tags@.take(i as int).push(entry.header.pos_tags@[i as int]))
            =~= tag_labels(entry.header.pos_tags@.take(i as int)).push(label@));
        assert(strings_view(labels@) =~= tag_labels(entry.header.pos_tags@.take(i + 1)));
    }
    assert(entry.header.pos_tags@.take(entry.header.pos_tags.len() as int)
        == entry.header.pos_tags@);
    push_senses_pos_labels(&entry.senses, &mut labels);
    let ghost lv = strings_view(labels@);
    assert(lv == entry_pos_labels(*entry));
    let kind = entry.entry_kind.as_str();
    let bound = str_eq(kind, "prefix") || str_eq(kind, "suffix") || str_eq(kind, "bound_morpheme");
    if labels.len() == 0 {
        if str_eq(kind, "surname") && str_eq(p.major.as_str(), "名詞") {
            return "compatible";
        }
        if bound && (str_contains(p.sub1.as_str(), "接尾") || str_contains(p.sub1.as_str(), "接頭")) {
            return "compatible";
        }
        if str_eq(kind, "surname") || str_eq(kind, "kanji") || bound {
            return "conflict";
        }
        return "unknown";
    }
    let mut all_phrases = true;
    for i in 0..labels.len()
        invariant
            lv == strings_view(labels@),
            all_phrases == forall|k: int| 0 <= k < i ==> contains_seq(#[trigger] lv[k], "連語"@),
    {
        assert(lv[i as int] == labels@[i as int]@);
        if !str_contains(labels[i].as_str(), "連語") {
            all_phrases = false;
        }
    }
    if all_phrases {
        return "unknown";
    }
    let markers = pos_markers_exec(p.major.as_str());
    let ghost mv = strs_view(markers@);
    if markers.len() == 0 {
        return "unknown";
    }
    let ghost phrase_only = forall|k: int| 0 <= k < lv.len() ==> contains_seq(#[trigger] lv[k], "連語"@);
    assert(!phrase_only);
    for i in 0..labels.len()
        invariant
            lv == strings_view(labels@),
            lv == entry_pos_labels(*entry),
            lv.len() > 0,
            !phrase_only,
            phrase_only == forall|k: int| 0 <= k < lv.len() ==> contains_seq(#[trigger] lv[k], "連語"@),
            pos_of(requested) == Some(*p),
            mv == pos_markers(p.major@),
            mv.len() > 0,
            mv == strs_view(markers@),
            forall|a: int, b: int|
                0 <= a < i && 0 <= b < mv.len() ==> !contains_seq(#[trigger] lv[a], #[trigger] mv[b]),
    {
        for j in 0..markers.len()
            invariant
                lv == strings_view(labels@),
                lv == entry_pos_labels(*entry),
                lv.len() > 0,
                !phrase_only,
                phrase_only == forall|k: int| 0 <= k < lv.len() ==> contains_seq(#[trigger] lv[k], "連語"@),
                pos_of(requested) == Some(*p),
                mv == pos_markers(p.major@),
                mv.len() > 0,
                mv == strs_view(markers@),
                i < lv.len(),
                forall|a: int, b: int|
                    0 <= a < i && 0 <= b < mv.len() ==> !contains_seq(#[trigger] lv[a], #[trigger] mv[b]),
                forall|b: int| 0 <= b < j ==> !contains_seq(lv[i as int], #[trigger] mv[b]),
        {
            assert(lv[i as int] == labels@[i as int]@);
            assert(mv[j as int] == markers@[j as int]@);
            if str_contains(labels[i].as_str(), markers[j]) {
                assert(contains_seq(lv[i as int], mv[j as int]));
                return "exact";
            }
        }
    }
    "conflict"
}

/// The score a kind of match starts from.
pub open spec fn base_score(match_type: Seq<char>) -> int {
    if match_type == "exact_headword"@ {
        180
    } else if match_type == "exact_form"@ {
        160
    } else if match_type == "explicit_alias"@ {
        120
    } else if match_type == "compatibility_alias"@ {
        105
    } else if match_type == "reading_fallback"@ {
        55
    } else if match_type == "fuzzy"@ {
        10
    } else {
        80
    }
}

/// A hyphen at either end marks a bound morpheme.
pub open spec fn hyphen_bound(s: Seq<char>) -> bool {
    s.len() > 0 && (s[0] == '-' || s.last() == '-')
}

pub open spec fn opt_view(o: Option<String>) -> Option<Seq<char>> {
    match o {
        Some(s) => Some(s@),
        None => None,
    }
}

pub open spec fn opt_str_view(o: Option<&str>) -> Option<Seq<char>> {
    match o {
        Some(s) => Some(s@),
        None => None,
    }
}

/// How the entry's reading agrees with the reading asked for.
pub open spec fn reading_match_of(requested: Option<Seq<char>>, reading: Option<Seq<char>>) -> Seq<char> {
    match (requested, reading) {
        (Some(r), Some(x)) => if reading_key(x) == r { "exact"@ } else { "conflict"@ },
        _ => "absent"@,
    }
}

/// What the kind of entry costs, and the penalty it records.
pub open spec fn kind_penalty(kind: Seq<char>, query: Seq<char>) -> (int, Option<Seq<char>>) {
    if kind == "kanji"@ {
        (-80, Some("kanji_entry"@))
    } else if kind == "surname"@ {
        (-65, Some("surname"@))
    } else if is_bound_kind(kind) {
        if !hyphen_bound(query) { (-75, Some("bound_morpheme"@)) } else { (0, None) }
    } else if kind == "navigation"@ || kind == "redirect"@ {
        (-120, Some("navigation_only"@))
    } else {
        (0, None)
    }
}

/// A reading marked bound while the query is not.
pub open spec fn bound_reading(e: DictEntry, query: Seq<char>) -> bool {
    match opt_view(e.reading) {
        Some(r) => hyphen_bound(r) && !hyphen_bound(query),
        None => false,
    }
}

/// Whether the entry's display form or headword is the query, by form key.
pub open spec fn form_matches(e: DictEntry, query: Seq<char>) -> bool {
    form_key(e.header.display_form@) == form_key(query) || form_key(e.headword@) == form_key(query)
}

/// What the agreement of readings adds to the score.
pub open spec fn reading_delta(reading_match: Seq<char>) -> int {
    if reading_match == "exact"@ {
        30
    } else if reading_match == "conflict"@ {
        -45
    } else {
        0
    }
}

/// What the agreement of parts of speech adds to the score.
pub open spec fn pos_delta(pos_match: Seq<char>) -> int {
    if pos_match == "exact"@ {
        24
    } else if pos_match == "compatible"@ {
        12
    } else if pos_match == "conflict"@ {
        -20
    } else {
        0
    }
}

/// The score of an entry for a query, a reading and a part of speech.
pub open spec fn entry_score(e: DictEntry, query: Seq<char>, requested: Option<Seq<char>>, pos: Option<PosTag>) -> int {
    base_score(e.match_type@) + (if form_matches(e, query) { 45int } else { 0 }) + reading_delta(
        reading_match_of(requested, opt_view(e.reading)),
    ) + pos_delta(pos_match_of(pos, e)) + kind_penalty(e.entry_kind@, query).0 + (if bound_reading(
        e,
        query,
    ) {
        -60int
    } else {
        0
    })
}

/// The penalty an agreement records, if it is a conflict.
pub open spec fn conflict_penalty(found: Seq<char>, penalty: Seq<char>) -> Seq<Seq<char>> {
    if found == "conflict"@ { seq![penalty] } else { seq![] }
}

/// The penalties recorded for an entry, in the order they are found.
pub open spec fn entry_penalties(
    e: DictEntry,
    query: Seq<char>,
    requested: Option<Seq<char>>,
    pos: Option<PosTag>,
) -> Seq<Seq<char>> {
    let kind = kind_penalty(e.entry_kind@, query).1;
    conflict_penalty(reading_match_of(requested, opt_view(e.reading)), "reading_conflict"@)
        + conflict_penalty(pos_match_of(pos, e), "pos_conflict"@) + (match kind {
        Some(k) => seq![k],
        None => seq![],
    }) + (if bound_reading(e, query) && kind != Some("bound_morpheme"@) {
        seq!["bound_morpheme"@]
    } else {
        seq![]
    })
}

/// `after` is `before` scored: not preferred, and, where it carries match
/// evidence, that evidence records the query, the reading asked for, how the
/// reading and the part of speech agree, the penalties and the score.
pub open spec fn scored_as(
    before: DictEntry,
    after: DictEntry,
    query: Seq<char>,
    requested: Option<Seq<char>>,
    pos: Option<PosTag>,
) -> bool {
    &&& after == (DictEntry { is_preferred: false, match_evidence: after.match_evidence, ..before })
    &&& match before.match_evidence {
        None => after.match_evidence is None,
        Some(ev) => match after.match_evidence {
            None => false,
            Some(nv) => {
                &&& nv == (crate::dictionary::model::DictionaryMatchEvidence {
                    query_form: nv.query_form,
                    requested_reading: nv.requested_reading,
                    reading_match: nv.reading_match,
                    pos_match: nv.pos_match,
                    penalties: nv.penalties,
                    score: nv.score,
                    ..ev
                })
                &&& nv.query_form@ == query
                &&& opt_view(nv.requested_reading) == requested
                &&& nv.reading_match@ == reading_match_of(requested, opt_view(before.reading))
                &&& nv.pos_match@ == pos_match_of(pos, before)
                &&& strings_view(nv.penalties@) == entry_penalties(before, query, requested, pos)
                &&& nv.score == entry_score(before, query, requested, pos)
            },
        },
    }
}

fn hyphen_bound_exec(s: &str) -> (b: bool)
    ensures
        b == hyphen_bound(s@),
{
    let c = chars_of(s);
    c.len() > 0 && (c[0] == '-' || c[c.len() - 1] == '-')
}

fn base_score_exec(match_type: &str) -> (r: i32)
    ensures
        r == base_score(match_type@),
{
    if str_eq(match_type, "exact_headword") {
        180
    } else if str_eq(match_type, "exact_form") {
        160
    } else if str_eq(match_type, "explicit_alias") {
        120
    } else if str_eq(match_type, "compatibility_alias") {
        105
    } else if str_eq(match_type, "reading_fallback") {
        55
    } else if str_eq(match_type, "fuzzy") {
        10
    } else {
        80
    }
}

fn reading_match_exec(requested: Option<&str>, reading: &Option<String>) -> (r: &'static str)
    ensures
        r@ == reading_match_of(opt_str_view(requested), opt_view(*reading)),
{
    match (requested, reading) {
        (Some(r), Some(x)) => {
            let key = normalize_reading(x.as_str());
            if str_eq(key.as_str(), r) {
                "exact"
            } else {
                "conflict"
            }
        },
        _ => "absent",
    }
}

fn reading_delta_exec(m: &str) -> (r: i32)
    ensures
        r == reading_delta(m@),
{
    if str_eq(m, "exact") {
        30
    } else if str_eq(m, "conflict") {
        -45
    } else {
        0
    }
}

fn pos_delta_exec(m: &str) -> (r: i32)
    ensures
        r == pos_delta(m@),
{
    if str_eq(m, "exact") {
        24
    } else if str_eq(m, "compatible") {
        12
    } else if str_eq(m, "conflict") {
        -20
    } else {
        0
    }
}

fn push_conflict(penalties: &mut Vec<String>, found: &str, penalty: &str)
    ensures
        strings_view(final(penalties)@) == strings_view(old(penalties)@) + conflict_penalty(found@, penalty@),
{
    let ghost before = penalties@;
    if str_eq(found, "conflict") {
        let p = String::from_str(penalty);
        penalties.push(p);
        assert(strings_view(penalties@) =~= strings_view(before) + seq![penalty@]);
    } else {
        assert(strings_view(penalties@) =~= strings_view(before) + Seq::<Seq<char>>::empty());
    }
}

fn kind_penalty_exec(kind: &str, query: &str) -> (r: (i32, Option<&'static str>))
    ensures
        r.0 == kind_penalty(kind@, query@).0,
        opt_str_view(r.1) == kind_penalty(kind@, query@).1,
{
    if str_eq(kind, "kanji") {
        (-80, Some("kanji_entry"))
    } else if str_eq(kind, "surname") {
        (-65, Some("surname"))
    } else if str_eq(kind, "prefix") || str_eq(kind, "suffix") || str_eq(kind, "bound_morpheme") {
        if !hyphen_bound_exec(query) {
            (-75, Some("bound_morpheme"))
        } else {
            (0, None)
        }
    } else if str_eq(kind, "navigation") || str_eq(kind, "redirect") {
        (-120, Some("navigation_only"))
    } else {
        (0, None)
    }
}

fn bound_reading_exec(e: &DictEntry, query: &str) -> (b: bool)
    ensures
        b == bound_reading(*e, query@),
{
    match &e.reading {
        Some(reading) => hyphen_bound_exec(reading.as_str()) && !hyphen_bound_exec(query),
        None => false,
    }
}

/// The score and the penalties of an entry, with how its reading and its
/// part of speech agree.
fn score_parts(
    entry: &DictEntry,
    query: &str,
    normalized_query: &str,
    requested: Option<&str>,
    requested_pos: Option<&PosTag>,
) -> (r: (i32, Vec<String>, &'static str, &'static str))
    requires
        normalized_query@ == form_key(query@),
    ensures
        r.0 == entry_score(*entry, query@, opt_str_view(requested), pos_of(requested_pos)),
        strings_view(r.1@) == entry_penalties(*entry, query@, opt_str_view(requested), pos_of(requested_pos)),
        r.2@ == reading_match_of(opt_str_view(requested), opt_view(entry.reading)),
        r.3@ == pos_match_of(pos_of(requested_pos), *entry),
{
    let mut penalties: Vec<String> = Vec::new();
    let display_key = normalize_form(entry.header.display_form.as_str());
    let headword_key = normalize_form(entry.headword.as_str());
    let form_bonus: i32 = if str_eq(display_key.as_str(), normalized_query) || str_eq(
        headword_key.as_str(),
        normalized_query,
    ) {
        45
    } else {
        0
    };
    let reading_match = reading_match_exec(requested, &entry.reading);
    push_conflict(&mut penalties, reading_match, "reading_conflict");
    let pos_match = pos_compatibility(requested_pos, entry);
    push_conflict(&mut penalties, pos_match, "pos_conflict");
    let (kind_delta, kind_pen) = kind_penalty_exec(entry.entry_kind.as_str(), query);
    let ghost p2 = strings_view(penalties@);
    let mut kind_bound = false;
    match kind_pen {
        Some(k) => {
            penalties.push(String::from_str(k));
            kind_bound = str_eq(k, "bound_morpheme");
        },
        None => {},
    }
    let ghost kp = kind_penalty(entry.entry_kind@, query@).1;
    assert(strings_view(penalties@) =~= p2 + match kp {
        Some(k) => seq![k],
        None => seq![],
    });
    assert(kind_bound == (kp == Some("bound_morpheme"@)));
    let ghost p3 = strings_view(penalties@);
    let reading_bound = bound_reading_exec(entry, query);
    if reading_bound && !kind_bound {
        penalties.push(String::from_str("bound_morpheme"));
    }
    assert(strings_view(penalties@) =~= p3 + (if reading_bound && !kind_bound {
        seq!["bound_morpheme"@]
    } else {
        Seq::<Seq<char>>::empty()
    }));
    let score = base_score_exec(entry.match_type.as_str()) + form_bonus + reading_delta_exec(
        reading_match,
    ) + pos_delta_exec(pos_match) + kind_delta + if reading_bound {
        -60i32
    } else {
        0
    };
    (score, penalties, reading_match, pos_match)
}

/// Scores one entry against the query (with its form key already made), the
/// reading and the part of speech asked for.
pub fn score_entry(
    entry: DictEntry,
    query: &str,
    normalized_query: &str,
    requested: Option<&str>,
    requested_pos: Option<&PosTag>,
) -> (r: DictEntry)
    requires
        normalized_query@ == form_key(query@),
    ensures
        scored_as(entry, r, query@, opt_str_view(requested), pos_of(requested_pos)),
{
    let (score, penalties, reading_match, pos_match) = score_parts(
        &entry,
        query,
        normalized_query,
        requested,
        requested_pos,
    );
    let mut entry = entry;
    entry.is_preferred = false;
    let evidence = entry.match_evidence.take();
    entry.match_evidence = match evidence {
        Some(mut ev) => {
            ev.query_form = String::from_str(query);
            ev.requested_reading = match requested {
                Some(r) => Some(String::from_str(r)),
                None => None,
            };
            ev.reading_match = String::from_str(reading_match);
            ev.pos_match = String::from_str(pos_match);
            ev.penalties = penalties;
            ev.score = score;
            Some(ev)
        },
        None => None,
    };
    entry
}

/// The order of `str`: lexicographic by code point, a prefix first.
pub open spec fn str_lt(a: Seq<char>, b: Seq<char>) -> bool
    decreases a.len(),
{
    if a.len() == 0 {
        b.len() > 0
    } else if b.len() == 0 {
        false
    } else if a[0] != b[0] {
        (a[0] as u32) < (b[0] as u32)
    } else {
        str_lt(a.drop_first(), b.drop_first())
    }
}

/// Whether `a` orders before `b` as strings do.
pub fn str_less(a: &str, b: &str) -> (r: bool)
    ensures
        r == str_lt(a@, b@),
{
    let x = chars_of(a);
    let y = chars_of(b);
    let mut i: usize = 0;
    assert(x@.skip(0) == x@ && y@.skip(0) == y@);
    while i < x.len() && i < y.len()
        invariant
            i <= x.len() && i <= y.len(),
            x@ == a@ && y@ == b@,
            str_lt(x@, y@) == str_lt(x@.skip(i as int), y@.skip(i as int)),
        decreases x.len() - i,
    {
        assert(x@.skip(i as int)[0] == x@[i as int] && y@.skip(i as int)[0] == y@[i as int]);
        if x[i] != y[i] {
            return (x[i] as u32) < (y[i] as u32);
        }
        assert(x@.skip(i as int).drop_first() == x@.skip(i + 1));
        assert(y@.skip(i as int).drop_first() == y@.skip(i + 1));
        i += 1;
    }
    x.len() - i == 0 && y.len() - i > 0
}

/// How many of `names` order before `name`.
pub open spec fn count_less(names: Seq<Seq<char>>, name: Seq<char>) -> nat
    decreases names.len(),
{
    if names.len() == 0 {
        0
    } else {
        count_less(names.drop_last(), name) + if str_lt(names.last(), name) { 1nat } else { 0nat }
    }
}

pub open spec fn entry_names(s: Seq<DictEntry>) -> Seq<Seq<char>> {
    s.map_values(|e: DictEntry| e.dict_name@)
}

/// The score an entry sorts by: its evidence's score, or 0 without evidence.
pub open spec fn sort_score(e: DictEntry) -> int {
    match e.match_evidence {
        Some(ev) => ev.score as int,
        None => 0,
    }
}

/// The rank of an entry among entries from the dictionaries `names`: higher
/// scores first, then dictionary names in order, then the record index.
pub open spec fn entry_rank(names: Seq<Seq<char>>) -> spec_fn(DictEntry) -> (int, int) {
    |e: DictEntry|
        (
            (0 - sort_score(e)) * 0x1_0000_0000_0000_0000 + count_less(names, e.dict_name@),
            e.source_record_index as int,
        )
}

pub open spec fn is_nav(e: DictEntry) -> bool {
    e.entry_kind@ == "navigation"@ || e.entry_kind@ == "redirect"@
}

/// Whether the dictionary `name` has an entry in `s` that is not a mere pointer.
pub open spec fn has_substantive(s: Seq<DictEntry>, name: Seq<char>) -> bool {
    exists|j: int| 0 <= j < s.len() && #[trigger] s[j].dict_name@ == name && !is_nav(s[j])
}

/// Whether entry `j` competes for the preferred entry of the dictionary `name`:
/// entries that only point elsewhere compete only when nothing else does.
pub open spec fn is_candidate(s: Seq<DictEntry>, j: int, name: Seq<char>) -> bool {
    s[j].dict_name@ == name && (has_substantive(s, name) ==> !is_nav(s[j]))
}

/// The score that decides preference; an entry without evidence never wins.
pub open spec fn best_score(e: DictEntry) -> int {
    match e.match_evidence {
        Some(ev) => ev.score as int,
        None => i32::MIN as int,
    }
}

/// Whether `best` leads `second` by the margin a preference needs.
pub open spec fn clear_over(best: DictEntry, second: DictEntry) -> bool {
    match second.match_evidence {
        Some(ev) => best_score(best) - ev.score >= 16,
        None => true,
    }
}

/// Entry `i` is the first candidate of its dictionary, scores at least 80 and
/// leads the next candidate of the dictionary, if any, by 16.
pub open spec fn is_preferred_at(s: Seq<DictEntry>, i: int) -> bool {
    let name = s[i].dict_name@;
    &&& is_candidate(s, i, name)
    &&& forall|j: int| 0 <= j < i ==> !#[trigger] is_candidate(s, j, name)
    &&& best_score(s[i]) >= 80
    &&& forall|k: int|
        i < k < s.len() && #[trigger] is_candidate(s, k, name) && (forall|j: int|
            i < j < k ==> !#[trigger] is_candidate(s, j, name)) ==> clear_over(s[i], s[k])
}

/// The entries with each one's preference set.
pub open spec fn mark_preferred(s: Seq<DictEntry>) -> Seq<DictEntry> {
    Seq::new(s.len(), |i: int| DictEntry { is_preferred: is_preferred_at(s, i), ..s[i] })
}

/// Scored entries in rank order, with the preferred ones marked.
pub open spec fn ranked(s: Seq<DictEntry>) -> Seq<DictEntry> {
    mark_preferred(sort_by(s, entry_rank(entry_names(s))))
}

fn count_less_exec(entries: &Vec<DictEntry>, name: &str) -> (r: u64)
    ensures
        r == count_less(entry_names(entries@), name@),
{
    let ghost names = entry_names(entries@);
    let mut count: u64 = 0;
    for i in 0..entries.len()
        invariant
            names == entry_names(entries@),
            count <= i,
            count == count_less(names.take(i as int), name@),
    {
        assert(names.take(i + 1).drop_last() == names.take(i as int));
        assert(names.take(i + 1).last() == entries@[i as int].dict_name@);
        if str_less(entries[i].dict_name.as_str(), name) {
            count += 1;
        }
    }
    assert(names.take(entries.len() as int) == names);
    count
}

struct RankedEntry {
    primary: i128,
    secondary: i128,
    entry: DictEntry,
}

impl Ranked for RankedEntry {
    closed spec fn rank(&self) -> (int, int) {
        (self.primary as int, self.secondary as int)
    }

    fn rank_of(&self) -> (r: (i128, i128)) {
        (self.primary, self.secondary)
    }
}

fn is_nav_exec(e: &DictEntry) -> (b: bool)
    ensures
        b == is_nav(*e),
{
    str_eq(e.entry_kind.as_str(), "navigation") || str_eq(e.entry_kind.as_str(), "redirect")
}

fn has_substantive_exec(s: &Vec<DictEntry>, name: &str) -> (b: bool)
    ensures
        b == has_substantive(s@, name@),
{
    for j in 0..s.len()
        invariant
            forall|k: int| 0 <= k < j ==> !(#[trigger] s@[k].dict_name@ == name@ && !is_nav(s@[k])),
    {
        if str_eq(s[j].dict_name.as_str(), name) && !is_nav_exec(&s[j]) {
            return true;
        }
    }
    false
}

fn best_score_exec(e: &DictEntry) -> (r: i64)
    ensures
        r == best_score(*e),
{
    match &e.match_evidence {
        Some(ev) => ev.score as i64,
        None => i32::MIN as i64,
    }
}

fn preferred_at(s: &Vec<DictEntry>, i: usize) -> (b: bool)
    requires
        i < s.len(),
    ensures
        b == is_preferred_at(s@, i as int),
{
    let name = s[i].dict_name.as_str();
    let ghost nm = s@[i as int].dict_name@;
    let sub = has_substantive_exec(s, name);
    if is_nav_exec(&s[i]) && sub {
        return false;
    }
    assert(is_candidate(s@, i as int, nm));
    for j in 0..i
        invariant
            i < s.len(),
            nm == s@[i as int].dict_name@,
            name@ == nm,
            sub == has_substantive(s@, nm),
            forall|k: int| 0 <= k < j ==> !#[trigger] is_candidate(s@, k, nm),
    {
        if str_eq(s[j].dict_name.as_str(), name) && !(sub && is_nav_exec(&s[j])) {
            assert(is_candidate(s@, j as int, nm));
            return false;
        }
    }
    let best = best_score_exec(&s[i]);
    if best < 80 {
        return false;
    }
    let mut k: usize = i + 1;
    while k < s.len()
        invariant
            i < k <= s.len(),
            nm == s@[i as int].dict_name@,
            name@ == nm,
            sub == has_substantive(s@, nm),
            forall|j: int| i < j < k ==> !#[trigger] is_candidate(s@, j, nm),
        ensures
            i < k <= s.len(),
            forall|j: int| i < j < k ==> !#[trigger] is_candidate(s@, j, nm),
            k < s.len() ==> is_candidate(s@, k as int, nm),
        decreases s.len() - k,
    {
        if str_eq(s[k].dict_name.as_str(), name) && !(sub && is_nav_exec(&s[k])) {
            assert(is_candidate(s@, k as int, nm));
            break;
        }
        k += 1;
    }
    if k < s.len() {
        assert(is_candidate(s@, k as int, nm));
        assert forall|m: int|
            i < m < s.len() && #[trigger] is_candidate(s@, m, nm) && (forall|j: int|
                i < j < m ==> !#[trigger] is_candidate(s@, j, nm)) implies m == k by {
            if m < k {
            } else if m > k {
                assert(!is_candidate(s@, k as int, nm));
            }
        }
        match &s[k].match_evidence {
            Some(ev) => best - (ev.score as i64) >= 16,
            None => true,
        }
    } else {
        true
    }
}

/// Marks the entries each dictionary prefers.
fn mark_all(v: Vec<DictEntry>) -> (r: Vec<DictEntry>)
    ensures
        r@ == mark_preferred(v@),
{
    let mut flags: Vec<bool> = Vec::new();
    for i in 0..v.len()
        invariant
            flags@.len() == i,
            forall|k: int| 0 <= k < i ==> #[trigger] flags@[k] == is_preferred_at(v@, k),
    {
        flags.push(preferred_at(&v, i));
    }
    let ghost orig = v@;
    let mut rest = v;
    let mut back: Vec<DictEntry> = Vec::new();
    while rest.len() > 0
        invariant
            orig.len() == rest@.len() + back@.len(),
            flags@.len() == orig.len(),
            forall|k: int| 0 <= k < rest@.len() ==> #[trigger] rest@[k] == orig[k],
            forall|k: int| 0 <= k < back@.len() ==> #[trigger] back@[k] == (DictEntry {
                is_preferred: is_preferred_at(orig, orig.len() - 1 - k),
                ..orig[orig.len() - 1 - k]
            }),
            forall|k: int| 0 <= k < orig.len() ==> #[trigger] flags@[k] == is_preferred_at(orig, k),
        decreases rest.len(),
    {
        let mut e = rest.pop().unwrap();
        let n = rest.len();
        e.is_preferred = flags[n];
        back.push(e);
    }
    let mut out: Vec<DictEntry> = Vec::new();
    while back.len() > 0
        invariant
            orig.len() == out@.len() + back@.len(),
            forall|k: int| 0 <= k < out@.len() ==> #[trigger] out@[k] == (DictEntry {
                is_preferred: is_preferred_at(orig, k),
                ..orig[k]
            }),
            forall|k: int| 0 <= k < back@.len() ==> #[trigger] back@[k] == (DictEntry {
                is_preferred: is_preferred_at(orig, orig.len() - 1 - k),
                ..orig[orig.len() - 1 - k]
            }),
        decreases back.len(),
    {
        let e = back.pop().unwrap();
        out.push(e);
    }
    assert(out@ =~= mark_preferred(orig));
    out
}

fn score_all(
    v: Vec<DictEntry>,
    query: &str,
    requested: Option<&str>,
    requested_pos: Option<&PosTag>,
) -> (r: Vec<DictEntry>)
    ensures
        r@.len() == v@.len(),
        forall|i: int| 0 <= i < v@.len() ==> scored_as(v@[i], #[trigger] r@[i], query@, opt_str_view(requested), pos_of(requested_pos)),
{
    let normalized_query = normalize_form(query);
    let ghost orig = v@;
    let ghost q = query@;
    let ghost req = opt_str_view(requested);
    let ghost pos = pos_of(requested_pos);
    let mut rest = v;
    let mut back: Vec<DictEntry> = Vec::new();
    while rest.len() > 0
        invariant
            orig.len() == rest@.len() + back@.len(),
            normalized_query@ == form_key(query@),
            q == query@ && req == opt_str_view(requested) && pos == pos_of(requested_pos),
            forall|k: int| 0 <= k < rest@.len() ==> #[trigger] rest@[k] == orig[k],
            forall|k: int| 0 <= k < back@.len() ==> scored_as(orig[orig.len() - 1 - k], #[trigger] back@[k], q, req, pos),
        decreases rest.len(),
    {
        let e = rest.pop().unwrap();
        let scored = score_entry(e, query, normalized_query.as_str(), requested, requested_pos);
        back.push(scored);
    }
    let mut out: Vec<DictEntry> = Vec::new();
    while back.len() > 0
        invariant
            orig.len() == out@.len() + back@.len(),
            forall|k: int| 0 <= k < out@.len() ==> scored_as(orig[k], #[trigger] out@[k], q, req, pos),
            forall|k: int| 0 <= k < back@.len() ==> scored_as(orig[orig.len() - 1 - k], #[trigger] back@[k], q, req, pos),
        decreases back.len(),
    {
        let e = back.pop().unwrap();
        out.push(e);
    }
    out
}

fn sort_score_exec(e: &DictEntry) -> (r: i32)
    ensures
        r == sort_score(*e),
{
    match &e.match_evidence {
        Some(ev) => ev.score,
        None => 0,
    }
}

/// The entries in rank order.
fn order_entries(v: Vec<DictEntry>) -> (r: Vec<DictEntry>)
    ensures
        r@ == sort_by(v@, entry_rank(entry_names(v@))),
{
    let ghost orig = v@;
    let ghost names = entry_names(orig);
    let mut ranks: Vec<u64> = Vec::new();
    for i in 0..v.len()
        invariant
            orig == v@,
            names == entry_names(orig),
            ranks@.len() == i,
            forall|k: int| 0 <= k < i ==> #[trigger] ranks@[k] == count_less(names, orig[k].dict_name@),
    {
        ranks.push(count_less_exec(&v, v[i].dict_name.as_str()));
    }
    let ghost g = entry_rank(names);
    let mut rest = v;
    let mut back: Vec<RankedEntry> = Vec::new();
    while rest.len() > 0
        invariant
            orig.len() == rest@.len() + back@.len(),
            ranks@.len() == orig.len(),
            g == entry_rank(names),
            forall|k: int| 0 <= k < orig.len() ==> #[trigger] ranks@[k] == count_less(names, orig[k].dict_name@),
            forall|k: int| 0 <= k < rest@.len() ==> #[trigger] rest@[k] == orig[k],
            forall|k: int| 0 <= k < back@.len() ==> #[trigger] back@[k].entry == orig[orig.len() - 1 - k]
                && back@[k].rank() == g(back@[k].entry),
        decreases rest.len(),
    {
        let e = rest.pop().unwrap();
        let n = rest.len();
        let score = sort_score_exec(&e);
        let primary: i128 = (0 - (score as i128)) * 0x1_0000_0000_0000_0000i128 + (ranks[n] as i128);
        let secondary: i128 = e.source_record_index as i128;
        let w = RankedEntry { primary, secondary, entry: e };
        assert(w.rank() == g(w.entry));
        back.push(w);
    }
    let mut wrapped: Vec<RankedEntry> = Vec::new();
    while back.len() > 0
        invariant
            orig.len() == wrapped@.len() + back@.len(),
            g == entry_rank(names),
            forall|k: int| 0 <= k < wrapped@.len() ==> #[trigger] wrapped@[k].entry == orig[k]
                && wrapped@[k].rank() == g(wrapped@[k].entry),
            forall|k: int| 0 <= k < back@.len() ==> #[trigger] back@[k].entry == orig[orig.len() - 1 - k]
                && back@[k].rank() == g(back@[k].entry),
        decreases back.len(),
    {
        let w = back.pop().unwrap();
        wrapped.push(w);
    }
    let ghost wv = wrapped@;
    let sorted = sort_stable(wrapped);
    let ghost m = |w: RankedEntry| w.entry;
    let ghost f = |w: RankedEntry| w.rank();
    proof {
        assert forall|k: int| 0 <= k < wv.len() implies #[trigger] f(wv[k]) == g(m(wv[k])) by {
            assert(wv[k].rank() == g(wv[k].entry));
        }
        lemma_sort_map_on(wv, f, g, m);
        assert(wv.map_values(m) =~= orig);
        lemma_sort_props(wv, f);
    }
    let ghost sv = sorted@;
    let mut rest2 = sorted;
    let mut back2: Vec<DictEntry> = Vec::new();
    while rest2.len() > 0
        invariant
            sv.len() == rest2@.len() + back2@.len(),
            forall|k: int| 0 <= k < rest2@.len() ==> #[trigger] rest2@[k] == sv[k],
            forall|k: int| 0 <= k < back2@.len() ==> #[trigger] back2@[k] == sv[sv.len() - 1 - k].entry,
        decreases rest2.len(),
    {
        let w = rest2.pop().unwrap();
        back2.push(w.entry);
    }
    let mut result: Vec<DictEntry> = Vec::new();
    while back2.len() > 0
        invariant
            sv.len() == result@.len() + back2@.len(),
            forall|k: int| 0 <= k < result@.len() ==> #[trigger] result@[k] == sv[k].entry,
            forall|k: int| 0 <= k < back2@.len() ==> #[trigger] back2@[k] == sv[sv.len() - 1 - k].entry,
        decreases back2.len(),
    {
        let e = back2.pop().unwrap();
        result.push(e);
    }
    proof {
        assert(sv == stable_sort(wv));
        assert(result@ =~= sv.map_values(m));
    }
    result
}

/// Scores the entries found for `query` against the reading and the part of
/// speech asked for, orders them by score (then dictionary name, then record
/// index) and marks the entry each dictionary prefers.
pub fn rank_entries(
    entries: &mut Vec<DictEntry>,
    query: &str,
    requested: Option<&str>,
    requested_pos: Option<&PosTag>,
)
    ensures
        exists|sc: Seq<DictEntry>|
            {
                &&& sc.len() == old(entries)@.len()
                &&& forall|i: int|
                    0 <= i < sc.len() ==> scored_as(
                        old(entries)@[i],
                        #[trigger] sc[i],
                        query@,
                        opt_str_view(requested),
                        pos_of(requested_pos),
                    )
                &&& final(entries)@ == ranked(sc)
            },
{
    let mut taken: Vec<DictEntry> = Vec::new();
    std::mem::swap(entries, &mut taken);
    let scored = score_all(taken, query, requested, requested_pos);
    let ghost sc = scored@;
    let ordered = order_entries(scored);
    let marked = mark_all(ordered);
    *entries = marked;
    assert(entries@ == ranked(sc));
}

proof fn lemma_str_lt_irreflexive(a: Seq<char>)
    ensures
        !str_lt(a, a),
    decreases a.len(),
{
    if a.len() > 0 {
        lemma_str_lt_irreflexive(a.drop_first());
    }
}

proof fn lemma_str_lt_transitive(a: Seq<char>, b: Seq<char>, c: Seq<char>)
    requires
        str_lt(a, b),
        str_lt(b, c),
    ensures
        str_lt(a, c),
    decreases a.len(),
{
    if a.len() > 0 && a[0] == b[0] && b[0] == c[0] {
        lemma_str_lt_transitive(a.drop_first(), b.drop_first(), c.drop_first());
    }
}

proof fn lemma_count_less_bound(names: Seq<Seq<char>>, x: Seq<char>)
    ensures
        count_less(names, x) <= names.len(),
    decreases names.len(),
{
    if names.len() > 0 {
        lemma_count_less_bound(names.drop_last(), x);
    }
}

proof fn lemma_count_less_monotone(names: Seq<Seq<char>>, a: Seq<char>, b: Seq<char>)
    requires
        str_lt(a, b),
    ensures
        count_less(names, a) <= count_less(names, b),
        names.contains(a) ==> count_less(names, a) < count_less(names, b),
    decreases names.len(),
{
    if names.len() > 0 {
        let rest = names.drop_last();
        let y = names.last();
        lemma_count_less_monotone(rest, a, b);
        if str_lt(y, a) {
            lemma_str_lt_transitive(y, a, b);
        }
        if y == a {
            lemma_str_lt_irreflexive(a);
        }
        if names.contains(a) && !rest.contains(a) {
            let k = choose|k: int| 0 <= k < names.len() && names[k] == a;
            if k < rest.len() {
                assert(rest[k] == a);
            }
            assert(y == a);
        }
    }
}

/// The ranked entries come out with the highest score first; among equal
/// scores, dictionary names in order; within one dictionary, by record index.
/// Every entry comes out as many times as it went in, with only its
/// preference set.
pub proof fn lemma_ranked_order(s: Seq<DictEntry>)
    requires
        s.len() <= usize::MAX,
    ensures
        ranked(s).len() == s.len(),
        sort_by(s, entry_rank(entry_names(s))).to_multiset() == s.to_multiset(),
        forall|i: int|
            0 <= i < s.len() ==> #[trigger] ranked(s)[i] == (DictEntry {
                is_preferred: ranked(s)[i].is_preferred,
                ..sort_by(s, entry_rank(entry_names(s)))[i]
            }),
        forall|i: int, j: int|
            0 <= i < j < s.len() ==> {
                let a = #[trigger] ranked(s)[i];
                let b = #[trigger] ranked(s)[j];
                &&& sort_score(a) >= sort_score(b)
                &&& sort_score(a) == sort_score(b) ==> !str_lt(b.dict_name@, a.dict_name@)
                &&& (sort_score(a) == sort_score(b) && a.dict_name@ == b.dict_name@)
                    ==> a.source_record_index <= b.source_record_index
            },
{
    broadcast use vstd::seq_lib::group_to_multiset_ensures;
    let names = entry_names(s);
    let g = entry_rank(names);
    let r = sort_by(s, g);
    lemma_sort_props(s, g);
    let out = ranked(s);
    assert forall|i: int, j: int| 0 <= i < j < s.len() implies {
        let a = #[trigger] out[i];
        let b = #[trigger] out[j];
        &&& sort_score(a) >= sort_score(b)
        &&& sort_score(a) == sort_score(b) ==> !str_lt(b.dict_name@, a.dict_name@)
        &&& (sort_score(a) == sort_score(b) && a.dict_name@ == b.dict_name@)
            ==> a.source_record_index <= b.source_record_index
    } by {
        let a = r[i];
        let b = r[j];
        assert(out[i].dict_name == a.dict_name && out[j].dict_name == b.dict_name);
        assert(!rank_lt(g(r[j]), g(r[i])));
        lemma_count_less_bound(names, a.dict_name@);
        lemma_count_less_bound(names, b.dict_name@);
        let ca = count_less(names, a.dict_name@);
        let cb = count_less(names, b.dict_name@);
        assert(g(a) == ((0 - sort_score(a)) * 0x1_0000_0000_0000_0000 + ca, a.source_record_index as int));
        assert(g(b) == ((0 - sort_score(b)) * 0x1_0000_0000_0000_0000 + cb, b.source_record_index as int));
        if sort_score(a) == sort_score(b) && str_lt(b.dict_name@, a.dict_name@) {
            assert(r.contains(b));
            vstd::seq_lib::to_multiset_contains(r, b);
            vstd::seq_lib::to_multiset_contains(s, b);
            assert(s.contains(b));
            let k = choose|k: int| 0 <= k < s.len() && s[k] == b;
            assert(names[k] == b.dict_name@);
            lemma_count_less_monotone(names, b.dict_name@, a.dict_name@);
        }
    }
}

/// A dictionary has at most one preferred entry, and a preferred entry
/// carries evidence scoring at least 80.
pub proof fn lemma_one_preferred_per_dictionary(s: Seq<DictEntry>)
    ensures
        forall|i: int|
            0 <= i < ranked(s).len() && (#[trigger] ranked(s)[i]).is_preferred ==> match ranked(
                s,
            )[i].match_evidence {
                Some(ev) => ev.score >= 80,
                None => false,
            },
        forall|i: int, j: int|
            0 <= i < ranked(s).len() && 0 <= j < ranked(s).len() && i != j && (#[trigger] ranked(
                s,
            )[i]).is_preferred && (#[trigger] ranked(s)[j]).is_preferred ==> ranked(s)[i].dict_name@
                != ranked(s)[j].dict_name@,
{
    let r = sort_by(s, entry_rank(entry_names(s)));
    let out = ranked(s);
    assert forall|i: int, j: int|
        0 <= i < out.len() && 0 <= j < out.len() && i != j && (#[trigger] out[i]).is_preferred
            && (#[trigger] out[j]).is_preferred implies out[i].dict_name@ != out[j].dict_name@ by {
        if out[i].dict_name@ == out[j].dict_name@ {
            let name = r[i].dict_name@;
            assert(is_preferred_at(r, i) && is_preferred_at(r, j));
            if i < j {
                assert(is_candidate(r, i, name));
                assert(!is_candidate(r, i, r[j].dict_name@));
            } else {
                assert(is_candidate(r, j, r[j].dict_name@));
                assert(!is_candidate(r, j, name));
            }
        }
    }
}

} // verus!
