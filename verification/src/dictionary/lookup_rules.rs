//! Small rules of dictionary lookup: which entries say something, in which
//! order dictionaries are shown, which readings a headword may be found by.
use vstd::prelude::*;
use crate::dictionary::adapters::daijirin_senses::{lemma_senses_view_index, lemma_senses_view_len, sense_view, senses_view, SenseView};
use crate::dictionary::adapters::section_view::TagView;
use crate::dictionary::lookup::{form_key, normalize_form, normalize_reading, reading_key};
use crate::dictionary::model::{DictEntry, DictionaryLookupTiming, DictionarySense, DictionaryTag};
use crate::text::{chars_of, str_eq, string_from_chars};
use crate::token::strings_view;

verus! {

/// Whether an entry says something itself: it is not a navigation or a
/// redirect, and it has senses, sections or content.
pub open spec fn substantive_entry(e: DictEntry) -> bool {
    !(e.entry_kind@ == "navigation"@ || e.entry_kind@ == "redirect"@) && (e.senses@.len() > 0 || e.sections@.len() > 0
        || e.content_blocks@.len() > 0)
}

/// Whether an entry says something itself.
pub fn is_substantive(entry: &DictEntry) -> (b: bool)
    ensures
        b == substantive_entry(*entry),
{
    !(str_eq(entry.entry_kind.as_str(), "navigation") || str_eq(entry.entry_kind.as_str(), "redirect")) && (entry.senses.len()
        > 0 || entry.sections.len() > 0 || entry.content_blocks.len() > 0)
}

/// The names of `priority` that are available, in the order of `priority`.
pub open spec fn prioritized(priority: Seq<Seq<char>>, available: Seq<Seq<char>>) -> Seq<Seq<char>>
    decreases priority.len(),
{
    if priority.len() == 0 {
        seq![]
    } else {
        let prev = prioritized(priority.drop_last(), available);
        if available.contains(priority.last()) { prev.push(priority.last()) } else { prev }
    }
}

/// `names` appended to `ordered`, each name not already there once.
pub open spec fn appended_new(ordered: Seq<Seq<char>>, names: Seq<Seq<char>>) -> Seq<Seq<char>>
    decreases names.len(),
{
    if names.len() == 0 {
        ordered
    } else {
        let prev = appended_new(ordered, names.drop_last());
        if prev.contains(names.last()) { prev } else { prev.push(names.last()) }
    }
}

fn contains_name(names: &Vec<String>, name: &str) -> (b: bool)
    ensures
        b == strings_view(names@).contains(name@),
{
    for i in 0..names.len()
        invariant
            forall|k: int| 0 <= k < i ==> strings_view(names@)[k] != name@,
    {
        if str_eq(names[i].as_str(), name) {
            assert(strings_view(names@)[i as int] == name@);
            return true;
        }
    }
    false
}

/// The available dictionaries in the order of the priority list, then the
/// others in the order they are available, each once.
pub fn ordered_dictionary_names(available: Vec<String>, priority_list: &[String]) -> (r: Vec<String>)
    ensures
        strings_view(r@) == appended_new(
            prioritized(priority_list@.map_values(|s: String| s@), strings_view(available@)),
            strings_view(available@),
        ),
{
    let ghost pv = priority_list@.map_values(|s: String| s@);
    let ghost av = strings_view(available@);
    let mut ordered: Vec<String> = Vec::new();
    for i in 0..priority_list.len()
        invariant
            pv == priority_list@.map_values(|s: String| s@),
            av == strings_view(available@),
            strings_view(ordered@) == prioritized(pv.take(i as int), av),
    {
        assert(pv.take(i + 1).drop_last() == pv.take(i as int));
        assert(pv.take(i + 1).last() == pv[i as int]);
        if contains_name(&available, priority_list[i].as_str()) {
            let ghost before = strings_view(ordered@);
            ordered.push(priority_list[i].clone());
            assert(strings_view(ordered@) =~= before.push(pv[i as int]));
        }
    }
    assert(pv.take(priority_list.len() as int) == pv);
    let ghost start = strings_view(ordered@);
    for i in 0..available.len()
        invariant
            av == strings_view(available@),
            strings_view(ordered@) == appended_new(start, av.take(i as int)),
    {
        assert(av.take(i + 1).drop_last() == av.take(i as int));
        assert(av.take(i + 1).last() == av[i as int]);
        if !contains_name(&ordered, available[i].as_str()) {
            let ghost before = strings_view(ordered@);
            ordered.push(available[i].clone());
            assert(strings_view(ordered@) =~= before.push(av[i as int]));
        }
    }
    assert(av.take(available.len() as int) == av);
    ordered
}

/// Adds the lookup phases a redirect spent to the timings of the lookup it
/// served; its wait, service time and entry count are the lookup's own.
pub fn merge_timing(target: &mut DictionaryLookupTiming, source: DictionaryLookupTiming)
    requires
        old(target).redirect_ms + source.redirect_ms <= u64::MAX,
        old(target).sqlite_ms + source.sqlite_ms <= u64::MAX,
        old(target).definition_ms + source.definition_ms <= u64::MAX,
        old(target).presentation_ms + source.presentation_ms <= u64::MAX,
        old(target).definition_cache_hits + source.definition_cache_hits <= usize::MAX,
        old(target).definition_cache_misses + source.definition_cache_misses <= usize::MAX,
    ensures
        final(target).redirect_ms == old(target).redirect_ms + source.redirect_ms,
        final(target).sqlite_ms == old(target).sqlite_ms + source.sqlite_ms,
        final(target).definition_ms == old(target).definition_ms + source.definition_ms,
        final(target).presentation_ms == old(target).presentation_ms + source.presentation_ms,
        final(target).definition_cache_hits == old(target).definition_cache_hits + source.definition_cache_hits,
        final(target).definition_cache_misses == old(target).definition_cache_misses + source.definition_cache_misses,
        final(target).resource_wait_ms == old(target).resource_wait_ms,
        final(target).service_ms == old(target).service_ms,
        final(target).entries == old(target).entries,
{
    target.redirect_ms = target.redirect_ms + source.redirect_ms;
    target.sqlite_ms = target.sqlite_ms + source.sqlite_ms;
    target.definition_ms = target.definition_ms + source.definition_ms;
    target.presentation_ms = target.presentation_ms + source.presentation_ms;
    target.definition_cache_hits = target.definition_cache_hits + source.definition_cache_hits;
    target.definition_cache_misses = target.definition_cache_misses + source.definition_cache_misses;
}

/// The entry a colloquial spelling stands for, when there is one.
pub open spec fn compatibility_target(headword: Seq<char>) -> Option<Seq<char>> {
    if form_key(headword) == "だっせえ"@ { Some("ダサい"@) } else { None }
}

/// The entry a colloquial spelling stands for, when there is one.
pub fn compatibility_redirect_target(headword: &str) -> (r: Option<&'static str>)
    ensures
        match r {
            Some(t) => compatibility_target(headword@) == Some(t@),
            None => compatibility_target(headword@) is None,
        },
{
    let form = normalize_form(headword);
    if str_eq(form.as_str(), "だっせえ") {
        Some("ダサい")
    } else {
        None
    }
}

/// The tags of a sense and of the senses nested under it, in order.
pub open spec fn sense_tags(s: SenseView) -> Seq<TagView>
    decreases s,
{
    s.tags + senses_tags(s.children)
}

pub open spec fn senses_tags(ss: Seq<SenseView>) -> Seq<TagView>
    decreases ss,
{
    if ss.len() == 0 { seq![] } else { sense_tags(ss[0]) + senses_tags(ss.drop_first()) }
}

pub open spec fn tag_refs_view(v: Seq<&DictionaryTag>) -> Seq<TagView> {
    v.map_values(|t: &DictionaryTag| (t.kind@, t.label@))
}

fn push_sense_tags<'a>(sense: &'a DictionarySense, out: &mut Vec<&'a DictionaryTag>)
    ensures
        tag_refs_view(final(out)@) == tag_refs_view(old(out)@) + sense_tags(sense_view(*sense)),
    decreases sense,
{
    let ghost start = tag_refs_view(out@);
    for i in 0..sense.tags.len()
        invariant
            tag_refs_view(out@) == start + crate::dictionary::adapters::daijirin_text::tags_view(sense.tags@.take(i as int)),
    {
        let ghost before = tag_refs_view(out@);
        out.push(&sense.tags[i]);
        assert(tag_refs_view(out@) =~= before.push((sense.tags@[i as int].kind@, sense.tags@[i as int].label@)));
        assert(crate::dictionary::adapters::daijirin_text::tags_view(sense.tags@.take(i + 1)) =~= crate::dictionary::adapters::daijirin_text::tags_view(
            sense.tags@.take(i as int),
        ).push((sense.tags@[i as int].kind@, sense.tags@[i as int].label@)));
    }
    assert(sense.tags@.take(sense.tags.len() as int) == sense.tags@);
    let ghost mid = tag_refs_view(out@);
    let ghost cv = senses_view(sense.children@);
    proof {
        lemma_senses_view_len(sense.children@);
        assert(cv.skip(0) == cv);
    }
    for i in 0..sense.children.len()
        invariant
            cv == senses_view(sense.children@),
            cv.len() == sense.children@.len(),
            mid + senses_tags(cv) == tag_refs_view(out@) + senses_tags(cv.skip(i as int)),
    {
        proof {
            lemma_senses_view_index(sense.children@, i as int);
            assert(cv.skip(i as int)[0] == cv[i as int]);
            assert(cv.skip(i as int).drop_first() == cv.skip(i + 1));
        }
        let ghost before = tag_refs_view(out@);
        assert(decreases_to!(sense => sense.children));
        assert(decreases_to!(sense.children => sense.children@[i as int]));
        push_sense_tags(&sense.children[i], out);
        assert(tag_refs_view(out@) + senses_tags(cv.skip(i + 1)) =~= before + senses_tags(cv.skip(i as int)));
    }
    proof {
        assert(cv.skip(cv.len() as int) =~= Seq::<SenseView>::empty());
        assert(tag_refs_view(out@) + Seq::<TagView>::empty() =~= tag_refs_view(out@));
    }
}

/// The tags of a sense and of the senses nested under it, in order.
pub fn dictionary_sense_tags(sense: &DictionarySense) -> (r: Vec<&DictionaryTag>)
    ensures
        tag_refs_view(r@) == sense_tags(sense_view(*sense)),
{
    let mut out: Vec<&DictionaryTag> = Vec::new();
    assert(tag_refs_view(out@) =~= Seq::<TagView>::empty());
    push_sense_tags(sense, &mut out);
    assert(Seq::<TagView>::empty() + sense_tags(sense_view(*sense)) =~= sense_tags(sense_view(*sense)));
    out
}

pub open spec fn kana_or_bar(c: char) -> bool {
    ('\u{3041}' <= c && c <= '\u{30ff}') || c == 'ー'
}

/// Whether a query, as a form, is written in kana only.
pub open spec fn kana_query(value: Seq<char>) -> bool {
    let f = form_key(value);
    f.len() > 0 && forall|k: int| 0 <= k < f.len() ==> kana_or_bar(#[trigger] f[k])
}

/// Whether a query, as a form, is written in kana only.
pub fn is_kana_query(value: &str) -> (b: bool)
    ensures
        b == kana_query(value@),
{
    let form = chars_of(normalize_form(value).as_str());
    let mut has_kana = false;
    for i in 0..form.len()
        invariant
            form@ == form_key(value@),
            has_kana == (i > 0),
            forall|k: int| 0 <= k < i ==> kana_or_bar(#[trigger] form@[k]),
    {
        let c = form[i];
        if ('\u{3041}' <= c && c <= '\u{30ff}') || c == 'ー' {
            has_kana = true;
        } else {
            assert(!kana_or_bar(form@[i as int]));
            return false;
        }
    }
    has_kana
}

/// The katakana a conjugated ending may stand for in a reading, by the dictionary ending.
pub open spec fn inflection_row(ending: char) -> Seq<char> {
    if ending == 'ウ' {
        "ワイウエオッ"@
    } else if ending == 'ク' {
        "カキクケコイッ"@
    } else if ending == 'グ' {
        "ガギグゲゴイッ"@
    } else if ending == 'ス' {
        "サシスセソ"@
    } else if ending == 'ツ' {
        "タチツテトッ"@
    } else if ending == 'ヌ' {
        "ナニヌネノン"@
    } else if ending == 'ブ' {
        "バビブベボン"@
    } else if ending == 'ム' {
        "マミムメモン"@
    } else if ending == 'ル' {
        "ラリルレロッ"@
    } else {
        seq![]
    }
}

/// The readings a headword may be looked up by: the reading, and, when the
/// headword ends in kana that the reading's last katakana differs from, the
/// reading with that ending restored (in place of a conjugated form of it, else appended).
pub open spec fn reading_candidates_of(headword: Seq<char>, reading: Seq<char>) -> Seq<Seq<char>> {
    let normalized = reading_key(reading);
    if headword.len() == 0 || !('\u{3041}' <= headword.last() && headword.last() <= '\u{30ff}') {
        seq![normalized]
    } else {
        let ne = reading_key(seq![headword.last()]);
        if ne.len() == 0 || normalized.len() == 0 {
            seq![normalized]
        } else {
            let ending = ne[0];
            let last = normalized.last();
            if '\u{30a1}' <= last && last <= '\u{30ff}' && last != ending {
                if inflection_row(ending).contains(last) {
                    seq![normalized, normalized.update(normalized.len() - 1, ending)]
                } else {
                    seq![normalized, normalized.push(ending)]
                }
            } else {
                seq![normalized]
            }
        }
    }
}

fn row_contains(ending: char, c: char) -> (b: bool)
    ensures
        b == inflection_row(ending).contains(c),
{
    let row: &str = if ending == 'ウ' {
        "ワイウエオッ"
    } else if ending == 'ク' {
        "カキクケコイッ"
    } else if ending == 'グ' {
        "ガギグゲゴイッ"
    } else if ending == 'ス' {
        "サシスセソ"
    } else if ending == 'ツ' {
        "タチツテトッ"
    } else if ending == 'ヌ' {
        "ナニヌネノン"
    } else if ending == 'ブ' {
        "バビブベボン"
    } else if ending == 'ム' {
        "マミムメモン"
    } else if ending == 'ル' {
        "ラリルレロッ"
    } else {
        ""
    };
    proof {
        reveal_strlit("");
        assert(""@ =~= Seq::<char>::empty());
    }
    assert(row@ == inflection_row(ending));
    let v = chars_of(row);
    for i in 0..v.len()
        invariant
            v@ == inflection_row(ending),
            forall|k: int| 0 <= k < i ==> v@[k] != c,
    {
        if v[i] == c {
            assert(v@[i as int] == c);
            return true;
        }
    }
    false
}

/// The readings a headword may be looked up by.
pub fn reading_candidates(headword: &str, reading: &str) -> (r: Vec<String>)
    ensures
        strings_view(r@) == reading_candidates_of(headword@, reading@),
{
    let normalized = normalize_reading(reading);
    let mut candidates: Vec<String> = Vec::new();
    candidates.push(normalized.clone());
    assert(strings_view(candidates@) =~= seq![normalized@]);
    let h = chars_of(headword);
    if h.len() == 0 {
        return candidates;
    }
    let base = h[h.len() - 1];
    if !('\u{3041}' <= base && base <= '\u{30ff}') {
        return candidates;
    }
    let mut one = String::new();
    crate::text::push_char(&mut one, base);
    let ne = chars_of(normalize_reading(one.as_str()).as_str());
    assert(one@ =~= seq![headword@.last()]);
    let nc = chars_of(normalized.as_str());
    if ne.len() == 0 || nc.len() == 0 {
        return candidates;
    }
    let ending = ne[0];
    let last = nc[nc.len() - 1];
    if '\u{30a1}' <= last && last <= '\u{30ff}' && last != ending {
        let candidate = if row_contains(ending, last) {
            let mut changed = nc.clone();
            changed.set(nc.len() - 1, ending);
            string_from_chars(changed.as_slice())
        } else {
            let mut appended = normalized.clone();
            crate::text::push_char(&mut appended, ending);
            appended
        };
        candidates.push(candidate);
        assert(strings_view(candidates@) =~= seq![normalized@, candidate@]);
    }
    candidates
}

} // verus!
