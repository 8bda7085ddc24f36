//! Labels of the dictionary bubble: how an occurrence is named among its
//! peers, and the words shown for entry kinds, relations and match kinds.
use vstd::prelude::*;
use crate::dictionary::adapters::common::{escape_html, escaped};
use crate::dictionary::lookup_state::opt_view;
use crate::dictionary::model::{DictEntry, DictionaryTag};
use crate::text::{chars_of, decimal, push_decimal, push_str, str_eq, string_from_chars};

verus! {

/// The form an entry is shown under: its header's display form, else its headword.
pub open spec fn entry_form(e: DictEntry) -> Seq<char> {
    if e.header.display_form@.len() == 0 {
        e.headword@
    } else {
        e.header.display_form@
    }
}

/// The reading an entry is shown with: the header's, else the entry's.
pub open spec fn entry_reading(e: DictEntry) -> Option<Seq<char>> {
    match opt_view(e.header.reading) {
        Some(r) => Some(r),
        None => opt_view(e.reading),
    }
}

/// Two occurrences look alike: same form and same reading.
pub open spec fn same_identity(a: DictEntry, b: DictEntry) -> bool {
    entry_form(a) == entry_form(b) && entry_reading(a) == entry_reading(b)
}

/// The label of an entry kind.
pub open spec fn kind_label(kind: Seq<char>) -> Seq<char> {
    if kind == "phrase"@ {
        "短语"@
    } else if kind == "surname"@ {
        "姓氏"@
    } else if kind == "kanji"@ {
        "汉字条"@
    } else if kind == "prefix"@ {
        "接头成分"@
    } else if kind == "suffix"@ {
        "接尾成分"@
    } else if kind == "bound_morpheme"@ {
        "拘束成分"@
    } else if kind == "onomatopoeia"@ {
        "拟声拟态"@
    } else if kind == "navigation"@ {
        "导航"@
    } else if kind == "redirect"@ {
        "跳转"@
    } else {
        "词汇"@
    }
}

pub fn entry_kind_label(kind: &str) -> (r: &'static str)
    ensures
        r@ == kind_label(kind@),
{
    if str_eq(kind, "phrase") {
        "短语"
    } else if str_eq(kind, "surname") {
        "姓氏"
    } else if str_eq(kind, "kanji") {
        "汉字条"
    } else if str_eq(kind, "prefix") {
        "接头成分"
    } else if str_eq(kind, "suffix") {
        "接尾成分"
    } else if str_eq(kind, "bound_morpheme") {
        "拘束成分"
    } else if str_eq(kind, "onomatopoeia") {
        "拟声拟态"
    } else if str_eq(kind, "navigation") {
        "导航"
    } else if str_eq(kind, "redirect") {
        "跳转"
    } else {
        "词汇"
    }
}

/// The label of a relation between entries.
pub open spec fn relation_name(relation: Seq<char>) -> Seq<char> {
    if relation == "antonym"@ {
        "反义"@
    } else if relation == "synonym"@ {
        "近义"@
    } else if relation == "parent"@ {
        "亲项"@
    } else if relation == "child"@ {
        "子项"@
    } else if relation == "phrase"@ {
        "惯用"@
    } else if relation == "reference"@ || relation == "internal_reference"@ {
        "参照"@
    } else if relation == "redirect"@ {
        "转至"@
    } else {
        "关联"@
    }
}

pub fn relation_label(relation: &str) -> (r: &'static str)
    ensures
        r@ == relation_name(relation@),
{
    if str_eq(relation, "antonym") {
        "反义"
    } else if str_eq(relation, "synonym") {
        "近义"
    } else if str_eq(relation, "parent") {
        "亲项"
    } else if str_eq(relation, "child") {
        "子项"
    } else if str_eq(relation, "phrase") {
        "惯用"
    } else if str_eq(relation, "reference") || str_eq(relation, "internal_reference") {
        "参照"
    } else if str_eq(relation, "redirect") {
        "转至"
    } else {
        "关联"
    }
}

/// The hint shown for a match that is not exact.
pub open spec fn hint_of(kind: Seq<char>) -> Option<Seq<char>> {
    if kind == "explicit_alias"@ {
        Some("词典别名"@)
    } else if kind == "compatibility_alias"@ {
        Some("兼容表记"@)
    } else if kind == "reading_fallback"@ {
        Some("读音回退"@)
    } else if kind == "fuzzy"@ {
        Some("模糊命中"@)
    } else {
        None
    }
}

pub fn match_hint(kind: &str) -> (r: Option<&'static str>)
    ensures
        match r {
            Some(h) => hint_of(kind@) == Some(h@),
            None => hint_of(kind@) is None,
        },
{
    if str_eq(kind, "explicit_alias") {
        Some("词典别名")
    } else if str_eq(kind, "compatibility_alias") {
        Some("兼容表记")
    } else if str_eq(kind, "reading_fallback") {
        Some("读音回退")
    } else if str_eq(kind, "fuzzy") {
        Some("模糊命中")
    } else {
        None
    }
}

/// HTML escaping for attribute values, backticks included.
pub fn escape_attr(value: &str) -> (r: String)
    ensures
        r@ == crate::text::replace_all(escaped(value@), "`"@, "&#96;"@),
{
    let escaped_value = escape_html(value);
    let replaced = crate::text::replace_chars(
        chars_of(escaped_value.as_str()).as_slice(),
        chars_of("`").as_slice(),
        chars_of("&#96;").as_slice(),
    );
    string_from_chars(replaced.as_slice())
}

fn shown_form(e: &DictEntry) -> (r: &String)
    ensures
        r@ == entry_form(*e),
{
    if e.header.display_form.as_str().is_empty() {
        &e.headword
    } else {
        &e.header.display_form
    }
}

fn shown_reading(e: &DictEntry) -> (r: Option<&String>)
    ensures
        match r {
            Some(v) => entry_reading(*e) == Some(v@),
            None => entry_reading(*e) is None,
        },
{
    match &e.header.reading {
        Some(r) => Some(r),
        None => match &e.reading {
            Some(r) => Some(r),
            None => None,
        },
    }
}

pub fn same_occurrence_identity(left: &DictEntry, right: &DictEntry) -> (b: bool)
    ensures
        b == same_identity(*left, *right),
{
    let same_reading = match (shown_reading(left), shown_reading(right)) {
        (Some(a), Some(b)) => str_eq(a.as_str(), b.as_str()),
        (None, None) => true,
        _ => false,
    };
    str_eq(shown_form(left).as_str(), shown_form(right).as_str()) && same_reading
}

/// The non-empty labels of tags, in order.
pub open spec fn nonempty_labels(tags: Seq<DictionaryTag>) -> Seq<Seq<char>>
    decreases tags.len(),
{
    if tags.len() == 0 {
        seq![]
    } else {
        let prev = nonempty_labels(tags.drop_last());
        if tags.last().label@.len() > 0 { prev.push(tags.last().label@) } else { prev }
    }
}

/// Parts joined with a separator.
pub open spec fn joined(parts: Seq<Seq<char>>, sep: Seq<char>) -> Seq<char>
    decreases parts.len(),
{
    if parts.len() == 0 {
        seq![]
    } else if parts.len() == 1 {
        parts[0]
    } else {
        joined(parts.drop_last(), sep) + sep + parts.last()
    }
}

/// What tells an occurrence apart: its first two part-of-speech or usage
/// labels, or for a non-lexical entry without them its kind.
pub open spec fn discriminator(e: DictEntry) -> Option<Seq<char>> {
    let labels = nonempty_labels(e.header.pos_tags@ + e.header.usage_tags@);
    let taken = if labels.len() > 2 { labels.take(2) } else { labels };
    let parts = if taken.len() == 0 && e.entry_kind@ != "lexical"@ { seq![kind_label(e.entry_kind@)] } else { taken };
    if parts.len() > 0 { Some(joined(parts, " / "@)) } else { None }
}

fn collect_labels(tags: &Vec<DictionaryTag>, labels: &mut Vec<String>, limit: usize)
    requires
        old(labels).len() <= limit,
    ensures
        final(labels).len() <= limit,
        final(labels)@.map_values(|l: String| l@) == {
            let all = old(labels)@.map_values(|l: String| l@) + nonempty_labels(tags@);
            if all.len() > limit { all.take(limit as int) } else { all }
        },
{
    let ghost start = labels@.map_values(|l: String| l@);
    let mut i: usize = 0;
    while i < tags.len()
        invariant
            i <= tags.len(),
            labels.len() <= limit,
            ({
                let all = start + nonempty_labels(tags@.take(i as int));
                labels@.map_values(|l: String| l@) == if all.len() > limit { all.take(limit as int) } else { all }
            }),
        decreases tags.len() - i,
    {
        assert(tags@.take(i + 1).drop_last() == tags@.take(i as int));
        let ghost before = labels@.map_values(|l: String| l@);
        let ghost all_before = start + nonempty_labels(tags@.take(i as int));
        if !tags[i].label.as_str().is_empty() {
            assert(start + nonempty_labels(tags@.take(i + 1)) =~= all_before.push(tags@[i as int].label@));
            if labels.len() < limit {
                labels.push(tags[i].label.clone());
                assert(labels@.map_values(|l: String| l@) =~= before.push(tags@[i as int].label@));
            } else {
                assert(all_before.push(tags@[i as int].label@).take(limit as int) =~= all_before.take(limit as int));
            }
        }
        i += 1;
    }
    assert(tags@.take(tags.len() as int) == tags@);
}

proof fn lemma_nonempty_labels_append(a: Seq<DictionaryTag>, b: Seq<DictionaryTag>)
    ensures
        nonempty_labels(a + b) == nonempty_labels(a) + nonempty_labels(b),
    decreases b.len(),
{
    if b.len() == 0 {
        assert(a + b =~= a);
        assert(nonempty_labels(a) + nonempty_labels(b) =~= nonempty_labels(a));
    } else {
        lemma_nonempty_labels_append(a, b.drop_last());
        assert((a + b).drop_last() =~= a + b.drop_last());
        assert((a + b).last() == b.last());
    }
}

pub(crate) fn join_labels(parts: &Vec<String>, sep: &str) -> (r: String)
    ensures
        r@ == joined(parts@.map_values(|p: String| p@), sep@),
{
    let ghost pv = parts@.map_values(|p: String| p@);
    let mut out = String::new();
    let mut i: usize = 0;
    while i < parts.len()
        invariant
            i <= parts.len(),
            pv == parts@.map_values(|p: String| p@),
            out@ == joined(pv.take(i as int), sep@),
        decreases parts.len() - i,
    {
        assert(pv.take(i + 1).drop_last() == pv.take(i as int));
        assert(pv.take(i + 1).last() == parts@[i as int]@);
        if i > 0 {
            push_str(&mut out, sep);
        } else {
            assert(pv.take(i as int).len() == 0);
        }
        push_str(&mut out, parts[i].as_str());
        proof {
            if i == 0 {
                assert(out@ =~= parts@[0]@);
            }
        }
        i += 1;
    }
    assert(pv.take(parts.len() as int) == pv);
    out
}

pub fn occurrence_discriminator(entry: &DictEntry) -> (r: Option<String>)
    ensures
        match r {
            Some(d) => discriminator(*entry) == Some(d@),
            None => discriminator(*entry) is None,
        },
{
    let mut labels: Vec<String> = Vec::new();
    collect_labels(&entry.header.pos_tags, &mut labels, 2);
    collect_labels(&entry.header.usage_tags, &mut labels, 2);
    proof {
        lemma_nonempty_labels_append(entry.header.pos_tags@, entry.header.usage_tags@);
        let a = nonempty_labels(entry.header.pos_tags@);
        let b = nonempty_labels(entry.header.usage_tags@);
        let first = if a.len() > 2 { a.take(2) } else { a };
        let second = if (first + b).len() > 2 { (first + b).take(2) } else { first + b };
        let whole = a + b;
        let expected = if whole.len() > 2 { whole.take(2) } else { whole };
        assert(second =~= expected);
    }
    if labels.len() == 0 && !str_eq(entry.entry_kind.as_str(), "lexical") {
        labels.push(entry_kind_label(entry.entry_kind.as_str()).to_owned());
    }
    if labels.len() > 0 {
        Some(join_labels(&labels, " / "))
    } else {
        None
    }
}

/// The peers that look like `entry`, in order.
pub open spec fn same_peers(entry: DictEntry, peers: Seq<&DictEntry>) -> Seq<DictEntry>
    decreases peers.len(),
{
    if peers.len() == 0 {
        seq![]
    } else {
        let prev = same_peers(entry, peers.drop_last());
        if same_identity(entry, *peers.last()) { prev.push(*peers.last()) } else { prev }
    }
}

/// How many of the entries have the discriminator `d`.
pub open spec fn count_discriminated(entries: Seq<DictEntry>, d: Seq<char>) -> nat
    decreases entries.len(),
{
    if entries.len() == 0 {
        0
    } else {
        count_discriminated(entries.drop_last(), d) + if discriminator(entries.last()) == Some(d) { 1nat } else { 0nat }
    }
}

/// The position of the first entry with the occurrence id.
pub open spec fn position_of(entries: Seq<DictEntry>, id: Seq<char>) -> Option<int>
    decreases entries.len(),
{
    if entries.len() == 0 {
        None
    } else {
        match position_of(entries.drop_last(), id) {
            Some(k) => Some(k),
            None => if entries.last().occurrence_id@ == id { Some(entries.len() - 1) } else { None },
        }
    }
}

/// The label of an occurrence among its peers: alone, its form (with its
/// kind unless it is a word); among look-alikes, its form with its
/// discriminator when that is unique among them, else with its position
/// "同形条目 i/n" (the first when its id is not among them).
pub open spec fn label_of(entry: DictEntry, peers: Seq<&DictEntry>) -> Seq<char> {
    let form = entry_form(entry);
    let same = same_peers(entry, peers);
    if same.len() > 1 {
        if discriminator(entry) is Some && count_discriminated(same, discriminator(entry)->0) == 1 {
            form + " · "@ + discriminator(entry)->0
        } else {
            let position = match position_of(same, entry.occurrence_id@) {
                Some(k) => k,
                None => 0,
            };
            form + " · 同形条目 "@ + decimal((position + 1) as nat) + "/"@ + decimal(same.len())
        }
    } else if entry.entry_kind@ != "lexical"@ {
        form + " · "@ + kind_label(entry.entry_kind@)
    } else {
        form
    }
}

pub fn occurrence_label(entry: &DictEntry, peers: &[&DictEntry]) -> (r: String)
    ensures
        r@ == label_of(*entry, peers@),
{
    let ghost pv = peers@;
    let mut same: Vec<&DictEntry> = Vec::new();
    let mut i: usize = 0;
    while i < peers.len()
        invariant
            i <= peers.len(),
            pv == peers@,
            same@.map_values(|e: &DictEntry| *e) == same_peers(*entry, pv.take(i as int)),
        decreases peers.len() - i,
    {
        assert(pv.take(i + 1).drop_last() == pv.take(i as int));
        assert(pv.take(i + 1).last() == pv[i as int]);
        let ghost before = same@.map_values(|e: &DictEntry| *e);
        if same_occurrence_identity(entry, peers[i]) {
            same.push(peers[i]);
            assert(same@.map_values(|e: &DictEntry| *e) =~= before.push(*pv[i as int]));
        }
        i += 1;
    }
    assert(pv.take(peers.len() as int) == pv);
    let ghost sv = same@.map_values(|e: &DictEntry| *e);
    let mut out = shown_form(entry).clone();
    if same.len() > 1 {
        if let Some(discriminator) = occurrence_discriminator(entry) {
            let mut count: usize = 0;
            let mut k: usize = 0;
            while k < same.len()
                invariant
                    k <= same.len(),
                    sv == same@.map_values(|e: &DictEntry| *e),
                    count == count_discriminated(sv.take(k as int), discriminator@),
                    count <= k,
                decreases same.len() - k,
            {
                assert(sv.take(k + 1).drop_last() == sv.take(k as int));
                assert(sv.take(k + 1).last() == *same@[k as int]);
                match occurrence_discriminator(same[k]) {
                    Some(d) => {
                        if str_eq(d.as_str(), discriminator.as_str()) {
                            count += 1;
                        }
                    },
                    None => {},
                }
                k += 1;
            }
            assert(sv.take(same.len() as int) == sv);
            if count == 1 {
                push_str(&mut out, " · ");
                push_str(&mut out, discriminator.as_str());
                return out;
            }
        }
        let mut position: usize = 0;
        let mut found = false;
        let mut k: usize = 0;
        while k < same.len()
            invariant
                k <= same.len(),
                sv == same@.map_values(|e: &DictEntry| *e),
                found ==> position_of(sv.take(k as int), entry.occurrence_id@) == Some(position as int),
                !found ==> position_of(sv.take(k as int), entry.occurrence_id@) is None && position == 0,
                position < same.len(),
            decreases same.len() - k,
        {
            assert(sv.take(k + 1).drop_last() == sv.take(k as int));
            assert(sv.take(k + 1).last() == *same@[k as int]);
            if !found && str_eq(same[k].occurrence_id.as_str(), entry.occurrence_id.as_str()) {
                found = true;
                position = k;
            }
            k += 1;
        }
        assert(sv.take(same.len() as int) == sv);
        push_str(&mut out, " · 同形条目 ");
        push_decimal(&mut out, (position + 1) as u64);
        push_str(&mut out, "/");
        push_decimal(&mut out, same.len() as u64);
        return out;
    }
    if !str_eq(entry.entry_kind.as_str(), "lexical") {
        push_str(&mut out, " · ");
        push_str(&mut out, entry_kind_label(entry.entry_kind.as_str()));
    }
    out
}

} // verus!
