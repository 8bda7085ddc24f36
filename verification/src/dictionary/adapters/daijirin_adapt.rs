//! A 大辞林 definition read into one structured occurrence.
use vstd::prelude::*;
use crate::dictionary::adapters::common::{
    finish, finished, links_view, normalize_reading, normalize_visible_text, normalized_reading,
    normalized_visible, tag,
};
use crate::dictionary::adapters::daijirin::{
    choose_display_form, class_text, contains_seq, detect_kind, display_form, element_text, entry_kind_of,
    first_class_text, foreign_origin, headword_reading, marker_pair, origin_of, reading_from_headword,
    scoped_forms, scoped_forms_of, sense_has_substantive_content, substantive_any,
};
use crate::dictionary::adapters::daijirin_groups::{
    major_groups, parse_major_groups, parse_single_definition, pos_label_of, single_sense,
};
use crate::dictionary::adapters::daijirin_header::{
    bracket_note, conjugation_in, global_pos, global_pos_label, header_bracket_note, header_historical_reading,
    header_small_usage_labels, historical_conjugation, historical_reading, small_usage_labels,
};
use crate::dictionary::adapters::daijirin_links::{collect_top_pair_containers, structural_links, structural_links_of, top_pairs};
use crate::dictionary::adapters::daijirin_senses::{
    elem_size, lemma_senses_view_len, lemma_senses_view_push, lemma_top_pairs_bound, nested_senses, parse_containers, sense_view,
    senses_view, SenseView,
};
use crate::dictionary::adapters::daijirin_text::{
    collect_deco_sections, deco_sections_in, first_captures, group_at, opt_str, opt_view, placeholder_stem,
    sections_from, stem_of, tags_view,
};
use crate::dictionary::adapters::AdaptedOccurrence;
use crate::dictionary::lookup_state::{spec_trim, trim_chars};
use crate::dictionary::model::{
    DictionaryAdapterDiagnostics, DictionaryForm, DictionaryOccurrenceHeader, DictionaryPronunciation,
    DictionarySense, DictionaryTag,
};
use crate::html::{by_class, by_name, collect_text, element_view, refs_view, ElementView, HtmlElement};
use crate::import::epub::{find_char, first_index};
use crate::text::{chars_of, push_str, regex_captures, str_eq, string_from_chars, string_from_range};
use crate::token::strings_view;

verus! {

/// The indexed headword before any `〖`, trimmed, or the whole headword when that is empty.
pub open spec fn indexed_form_of(h: Seq<char>) -> Seq<char> {
    let first = match first_index(h, '〖') {
        Some(k) => h.take(k),
        None => h,
    };
    if spec_trim(first).len() > 0 { spec_trim(first) } else { h }
}

/// The forms an occurrence is written in: the indexed form for loanwords,
/// else the scoped forms of the headword.
pub open spec fn occurrence_forms(root: ElementView, indexed: Seq<char>, definition: Seq<char>) -> Seq<Seq<char>> {
    if origin_of(root, definition) is Some {
        seq![indexed]
    } else {
        scoped_forms_of(by_name(root, "hy"@))
    }
}

/// The form examples write the headword as.
pub open spec fn example_form_of(indexed: Seq<char>, display: Seq<char>) -> Seq<char> {
    if indexed.len() == 0 { display } else { indexed }
}

/// The reading of an occurrence: from the raw headword, else from the
/// reading element, normalised when that gives something, else the structured reading.
pub open spec fn occurrence_reading(root: ElementView, raw: Seq<char>, structured: Option<Seq<char>>) -> Option<Seq<char>> {
    let base = match headword_reading(raw) {
        Some(r) => Some(r),
        None => class_text(root, "bss"@),
    };
    let mapped = match base {
        Some(v) => if normalized_reading(v).len() > 0 { Some(normalized_reading(v)) } else { None },
        None => None,
    };
    match mapped {
        Some(v) => Some(v),
        None => match structured {
            Some(s) => Some(normalized_reading(s)),
            None => None,
        },
    }
}

pub open spec fn form_view(f: DictionaryForm) -> (Seq<char>, Option<Seq<char>>, Seq<char>) {
    (f.form@, opt_view(f.reading), f.kind@)
}

pub open spec fn forms_view(v: Seq<DictionaryForm>) -> Seq<(Seq<char>, Option<Seq<char>>, Seq<char>)> {
    v.map_values(|f: DictionaryForm| form_view(f))
}

pub open spec fn form_kind(f: Seq<char>, display: Seq<char>) -> (Seq<char>, Option<Seq<char>>, Seq<char>) {
    (f, None, if f == display { "canonical"@ } else { "variant"@ })
}

/// The forms of the header: each form, canonical or a variant, then the
/// indexed form when it is not among them.
pub open spec fn header_forms(forms: Seq<Seq<char>>, display: Seq<char>, indexed: Seq<char>) -> Seq<(Seq<char>, Option<Seq<char>>, Seq<char>)> {
    forms.map_values(|f: Seq<char>| form_kind(f, display)) + (if indexed.len() > 0 && !forms.contains(indexed) {
        seq![(indexed, None, "indexed"@)]
    } else {
        seq![]
    })
}

/// The distinct non-empty texts of accent annotations, in order.
pub open spec fn accent_values(annots: Seq<ElementView>) -> Seq<Seq<char>>
    decreases annots.len(),
{
    if annots.len() == 0 {
        seq![]
    } else {
        let prev = accent_values(annots.drop_last());
        let v = element_text(annots.last());
        if v.len() > 0 && !prev.contains(v) { prev.push(v) } else { prev }
    }
}

/// Values joined with ` / `.
pub open spec fn join_slashes(v: Seq<Seq<char>>) -> Seq<char>
    decreases v.len(),
{
    if v.len() == 0 {
        seq![]
    } else if v.len() == 1 {
        v[0]
    } else {
        join_slashes(v.drop_last()) + " / "@ + v.last()
    }
}

pub open spec fn pronunciation_view(p: DictionaryPronunciation) -> (Seq<char>, Seq<char>, Seq<char>) {
    (p.system@, p.label@, p.value@)
}

pub open spec fn pronunciations_view(v: Seq<DictionaryPronunciation>) -> Seq<(Seq<char>, Seq<char>, Seq<char>)> {
    v.map_values(|p: DictionaryPronunciation| pronunciation_view(p))
}

/// The accent of the headword, when the definition annotates one.
pub open spec fn occurrence_pronunciations(root: ElementView) -> Seq<(Seq<char>, Seq<char>, Seq<char>)> {
    let values = accent_values(by_class(root, "annot"@));
    if values.len() > 0 {
        seq![("dictionary_accent"@, "音调"@, join_slashes(values))]
    } else {
        seq![]
    }
}

pub open spec fn header_note_pattern() -> Seq<char> {
    "【[^】]+】〔([^〕]+)〕"@
}

/// A normalised group, when it took part and is not empty.
pub open spec fn nonempty_group(groups: Option<Seq<Option<Seq<char>>>>, i: int) -> Option<Seq<char>> {
    match groups {
        Some(g) => match group_at(g, i) {
            Some(v) => if normalized_visible(v).len() > 0 { Some(normalized_visible(v)) } else { None },
            None => None,
        },
        None => None,
    }
}

/// Whether a note says the word was made into a verb, an adjective or a noun.
pub open spec fn derivation_note(n: Seq<char>) -> bool {
    contains_seq(n, "動詞化"@) || contains_seq(n, "形容詞化"@) || contains_seq(n, "名詞化"@)
}

/// The short note and the origin of an occurrence: the note bracketed after
/// the headword's brackets, else the head paragraph's bracketed note, which
/// is the origin when it tells a derivation.
pub open spec fn occurrence_notes(root: ElementView, definition: Seq<char>) -> (Option<Seq<char>>, Option<Seq<char>>) {
    let origin = origin_of(root, definition);
    let visible = collect_text(root.children, seq![], seq![]);
    match nonempty_group(first_captures(header_note_pattern(), visible), 1) {
        Some(n) => (Some(n), origin),
        None => match bracket_note(root) {
            Some(n) => if derivation_note(n) { (None, Some(n)) } else { (Some(n), origin) },
            None => (None, origin),
        },
    }
}

pub open spec fn usage_label(l: Seq<char>) -> bool {
    l == "口語"@ || l == "古"@ || l == "俗"@ || l == "方言"@ || l == "専門"@
}

/// The usage tags that decorated labels give, each label once.
pub open spec fn deco_usage_tags(decos: Seq<ElementView>) -> Seq<(Seq<char>, Seq<char>)>
    decreases decos.len(),
{
    if decos.len() == 0 {
        seq![]
    } else {
        let prev = deco_usage_tags(decos.drop_last());
        let l = element_text(decos.last());
        if l.len() > 0 && usage_label(l) && !tag_labels_of(prev).contains(l) {
            prev.push(("usage"@, normalized_visible(l)))
        } else {
            prev
        }
    }
}

pub open spec fn tag_labels_of(tags: Seq<(Seq<char>, Seq<char>)>) -> Seq<Seq<char>> {
    tags.map_values(|t: (Seq<char>, Seq<char>)| t.1)
}

/// Grammar tags for labels no tag has yet.
pub open spec fn grammar_usage_added(tags: Seq<(Seq<char>, Seq<char>)>, labels: Seq<Seq<char>>) -> Seq<(Seq<char>, Seq<char>)>
    decreases labels.len(),
{
    if labels.len() == 0 {
        tags
    } else {
        let acc = grammar_usage_added(tags, labels.drop_last());
        let l = labels.last();
        if tag_labels_of(acc).contains(l) { acc } else { acc.push(("grammar"@, normalized_visible(l))) }
    }
}

pub open spec fn no_markers(senses: Seq<SenseView>) -> bool {
    forall|i: int| 0 <= i < senses.len() ==> (#[trigger] senses[i]).marker is None
}

/// The senses of a definition: its major groups; without them, the senses of
/// its pair containers; without those, its single definition.
pub open spec fn occurrence_senses(root: ElementView, form: Seq<char>, stem: Option<Seq<char>>) -> Seq<SenseView> {
    let major = major_groups(root, form, stem, 0);
    if major.0.len() > 0 {
        major.0
    } else {
        let pairs = nested_senses(top_pairs(root), 0, form, stem, major.1, elem_size(root) + 1);
        if pairs.0.len() > 0 {
            pairs.0
        } else {
            match single_sense(root, form, stem, pairs.1) {
                Some(v) => seq![v.0],
                None => seq![],
            }
        }
    }
}

/// The part-of-speech tags of the header.
pub open spec fn occurrence_pos_tags(root: ElementView, form: Seq<char>, stem: Option<Seq<char>>) -> Seq<(Seq<char>, Seq<char>)> {
    let global = match global_pos(root) {
        Some(l) => seq![("pos"@, normalized_visible(l))],
        None => seq![],
    };
    let tags = global + match conjugation_in(root.children) {
        Some((c, _)) => seq![("pos"@, normalized_visible("文語 "@ + c))],
        None => seq![],
    };
    if major_groups(root, form, stem, 0).0.len() == 0 && tags.len() == 0 {
        match first_captures(crate::dictionary::adapters::daijirin_groups::pos_pattern(), collect_text(root.children, seq![], seq![])) {
            Some(g) => match group_at(g, 1) {
                Some(v) => seq![("pos"@, normalized_visible(v))],
                None => seq![],
            },
            None => seq![],
        }
    } else {
        tags
    }
}

/// The usage tags of the header.
pub open spec fn occurrence_usage_tags(root: ElementView, form: Seq<char>, stem: Option<Seq<char>>) -> Seq<(Seq<char>, Seq<char>)> {
    let decos = deco_usage_tags(by_class(root, "deco"@));
    let with_classical = decos + match conjugation_in(root.children) {
        Some(_) => seq![("usage"@, normalized_visible("文語"@))],
        None => seq![],
    };
    if no_markers(major_groups(root, form, stem, 0).0) {
        grammar_usage_added(with_classical, small_usage_labels(root))
    } else {
        with_classical
    }
}

pub open spec fn relations_total(senses: Seq<DictionarySense>) -> nat
    decreases senses.len(),
{
    if senses.len() == 0 {
        0
    } else {
        relations_total(senses.drop_last()) + senses.last().relations@.len()
    }
}

/// A definition that only points elsewhere: a `⇒` with links and nothing of
/// substance in its senses.
pub open spec fn is_redirect(o: AdaptedOccurrence, definition: Seq<char>) -> bool {
    contains_seq(definition, "⇒"@) && !substantive_any(o.senses@) && o.links@.len() + relations_total(o.senses@) > 0
}

/// A definition without senses that offers `☞` candidates.
pub open spec fn is_navigation(o: AdaptedOccurrence, kind: Seq<char>, definition: Seq<char>) -> bool {
    o.senses@.len() == 0 && o.links@.len() > 0 && (kind == "lexical"@ || kind == "unknown"@) && definition.contains('☞')
}

pub open spec fn no_senses_warning() -> Seq<char> {
    "未识别大辞林义项容器，已保留安全降级内容"@
}

pub open spec fn placeholder_warning() -> Seq<char> {
    "原文含活用语干占位，但未能从词头读取可靠活用边界"@
}

/// `o` is the occurrence, before it is finished for display, that a 大辞林
/// definition with the tree `root` gives for the headwords and reading.
pub open spec fn adapted(
    root: ElementView,
    indexed_headword: Seq<char>,
    raw_headword: Seq<char>,
    structured: Option<Seq<char>>,
    definition: Seq<char>,
    o: AdaptedOccurrence,
) -> bool {
    let indexed = indexed_form_of(indexed_headword);
    let forms = occurrence_forms(root, indexed, definition);
    let display = display_form(indexed, forms);
    let form = example_form_of(indexed, display);
    let stem = stem_of(root, form);
    let notes = occurrence_notes(root, definition);
    let kind0 = entry_kind_of(root, definition);
    let redirect = is_redirect(o, definition);
    let kind1 = if redirect { "redirect"@ } else { kind0 };
    let navigation = is_navigation(o, kind1, definition);
    &&& o.source_record_index == 0
    &&& o.occurrence_suffix@.len() == 0
    &&& o.header.display_form@ == display
    &&& opt_view(o.header.canonical_form) == Some(display)
    &&& opt_view(o.header.reading) == occurrence_reading(root, raw_headword, structured)
    &&& opt_view(o.header.historical_reading) == match conjugation_in(root.children) {
        Some((_, r)) => Some(r),
        None => historical_reading(root),
    }
    &&& pronunciations_view(o.header.pronunciations@) == occurrence_pronunciations(root)
    &&& forms_view(o.header.scoped_forms@) == header_forms(forms, display, indexed)
    &&& tags_view(o.header.pos_tags@) == occurrence_pos_tags(root, form, stem)
    &&& tags_view(o.header.usage_tags@) == occurrence_usage_tags(root, form, stem)
    &&& opt_view(o.header.origin) == notes.1
    &&& opt_view(o.header.short_note) == notes.0
    &&& senses_view(o.senses@) == occurrence_senses(root, form, stem)
    &&& sections_from(o.sections@, 0, deco_sections_in(root.children, form, stem))
    &&& links_view(o.links@) == structural_links_of(by_name(root, "p"@))
    &&& o.definition_html@.len() == 0
    &&& o.style_profile@.len() == 0
    &&& o.content_blocks@.len() == 0
    &&& o.entry_kind@ == if navigation { "navigation"@ } else { kind1 }
    &&& o.diagnostics.coverage@ == if navigation {
        "navigation"@
    } else if o.senses@.len() == 0 {
        "partial"@
    } else if redirect {
        "navigation"@
    } else {
        "structured"@
    }
    &&& strings_view(o.diagnostics.warnings@) == (if !navigation && o.senses@.len() == 0 {
        seq![no_senses_warning()]
    } else {
        seq![]
    }) + (if (contains_seq(definition, "—・"@) || contains_seq(definition, "━・"@)) && stem is None {
        seq![placeholder_warning()]
    } else {
        seq![]
    })
    &&& o.diagnostics.omitted@.len() == 0
}

fn indexed_form_exec(h: &str) -> (r: String)
    ensures
        r@ == indexed_form_of(h@),
{
    let hc = chars_of(h);
    let first = match find_char(hc.as_slice(), '〖') {
        Some(k) => {
            proof {
                crate::import::epub::lemma_first_index_pub(hc@, '〖');
            }
            assert(hc@.subrange(0, k as int) == hc@.take(k as int));
            string_from_range(hc.as_slice(), 0, k)
        },
        None => string_from_chars(hc.as_slice()),
    };
    let trimmed = trim_chars(chars_of(first.as_str()).as_slice());
    if trimmed.len() > 0 {
        string_from_chars(trimmed.as_slice())
    } else {
        String::from_str(h)
    }
}

fn header_forms_exec(forms: &Vec<String>, display: &str, indexed: &str) -> (r: Vec<DictionaryForm>)
    ensures
        forms_view(r@) == header_forms(strings_view(forms@), display@, indexed@),
{
    let ghost fv = strings_view(forms@);
    let mut out: Vec<DictionaryForm> = Vec::new();
    let mut seen = false;
    for i in 0..forms.len()
        invariant
            fv == strings_view(forms@),
            forms_view(out@) == fv.take(i as int).map_values(|f: Seq<char>| form_kind(f, display@)),
            seen == fv.take(i as int).contains(indexed@),
    {
        let f = forms[i].as_str();
        let kind = if str_eq(f, display) { "canonical" } else { "variant" };
        let ghost before = out@;
        out.push(DictionaryForm { form: String::from_str(f), reading: None, kind: String::from_str(kind) });
        assert(forms_view(out@) =~= forms_view(before).push(form_kind(fv[i as int], display@)));
        assert(fv.take(i + 1) == fv.take(i as int).push(fv[i as int]));
        assert(fv.take(i + 1).map_values(|f: Seq<char>| form_kind(f, display@)) =~= fv.take(i as int).map_values(
            |f: Seq<char>| form_kind(f, display@),
        ).push(form_kind(fv[i as int], display@)));
        proof {
            crate::html::lemma_push_contains_pub(fv.take(i as int), fv[i as int], indexed@);
        }
        seen = seen || str_eq(f, indexed);
    }
    assert(fv.take(forms.len() as int) == fv);
    let ghost base = out@;
    if !indexed.is_empty() && !seen {
        out.push(DictionaryForm { form: String::from_str(indexed), reading: None, kind: String::from_str("indexed") });
        assert(forms_view(out@) =~= forms_view(base).push((indexed@, None, "indexed"@)));
    }
    assert(forms_view(out@) =~= header_forms(fv, display@, indexed@));
    out
}

fn pronunciations_exec(root: &HtmlElement) -> (r: Vec<DictionaryPronunciation>)
    ensures
        pronunciations_view(r@) == occurrence_pronunciations(element_view(*root)),
{
    let mut annotations: Vec<&HtmlElement> = Vec::new();
    root.all_by_class("annot", &mut annotations);
    let ghost av = refs_view(annotations@);
    assert(av =~= by_class(element_view(*root), "annot"@));
    let mut values: Vec<String> = Vec::new();
    for i in 0..annotations.len()
        invariant
            av == refs_view(annotations@),
            strings_view(values@) == accent_values(av.take(i as int)),
    {
        assert(av.take(i + 1).drop_last() == av.take(i as int));
        assert(av.take(i + 1).last() == av[i as int]);
        let t = annotations[i].text();
        let v = normalize_visible_text(t.as_str());
        if !v.as_str().is_empty() && !contains_string(&values, v.as_str()) {
            let ghost before = strings_view(values@);
            values.push(v);
            assert(strings_view(values@) =~= before.push(element_text(av[i as int])));
        }
    }
    assert(av.take(annotations.len() as int) == av);
    let ghost vv = strings_view(values@);
    let mut out: Vec<DictionaryPronunciation> = Vec::new();
    if values.len() > 0 {
        let mut joined = String::new();
        for i in 0..values.len()
            invariant
                vv == strings_view(values@),
                i <= values.len(),
                i > 0 || joined@.len() == 0,
                i > 0 ==> joined@ == join_slashes(vv.take(i as int)),
        {
            assert(vv.take(i + 1).drop_last() == vv.take(i as int));
            assert(vv.take(i + 1).last() == vv[i as int]);
            if i > 0 {
                push_str(&mut joined, " / ");
            } else {
                assert(vv.take(1) =~= seq![vv[0]]);
            }
            push_str(&mut joined, values[i].as_str());
        }
        assert(vv.take(values.len() as int) == vv);
        out.push(DictionaryPronunciation {
            system: String::from_str("dictionary_accent"),
            label: String::from_str("音调"),
            value: joined,
        });
    }
    assert(pronunciations_view(out@) =~= occurrence_pronunciations(element_view(*root)));
    out
}

fn contains_string(v: &Vec<String>, x: &str) -> (b: bool)
    ensures
        b == strings_view(v@).contains(x@),
{
    for i in 0..v.len()
        invariant
            forall|k: int| 0 <= k < i ==> strings_view(v@)[k] != x@,
    {
        if str_eq(v[i].as_str(), x) {
            assert(strings_view(v@)[i as int] == x@);
            return true;
        }
    }
    false
}

fn str_contains(s: &str, pat: &str) -> (b: bool)
    ensures
        b == contains_seq(s@, pat@),
{
    crate::import::epub::find_pattern(chars_of(s).as_slice(), chars_of(pat).as_slice()).is_some()
}

fn notes_exec(root: &HtmlElement, definition: &str) -> (r: (Option<String>, Option<String>))
    ensures
        (opt_view(r.0), opt_view(r.1)) == occurrence_notes(element_view(*root), definition@),
{
    let origin = foreign_origin(root, definition);
    let visible = root.text();
    let captured = match regex_captures("【[^】]+】〔([^〕]+)〕", visible.as_str()) {
        Some(c) => c,
        None => None,
    };
    let ghost caps = match &captured {
        Some(g) => Some(crate::text::groups_view(g@)),
        None => None,
    };
    assert(caps == first_captures(header_note_pattern(), collect_text(element_view(*root).children, seq![], seq![])));
    let note = match captured {
        Some(groups) => {
            if groups.len() > 1 {
                match &groups[1] {
                    Some(v) => {
                        let n = normalize_visible_text(v.as_str());
                        if n.as_str().is_empty() {
                            None
                        } else {
                            Some(n)
                        }
                    },
                    None => None,
                }
            } else {
                None
            }
        },
        None => None,
    };
    assert(opt_view(note) == nonempty_group(caps, 1));
    match note {
        Some(n) => (Some(n), origin),
        None => match header_bracket_note(root) {
            Some(n) => {
                if str_contains(n.as_str(), "動詞化") || str_contains(n.as_str(), "形容詞化") || str_contains(n.as_str(), "名詞化") {
                    (None, Some(n))
                } else {
                    (Some(n), origin)
                }
            },
            None => (None, origin),
        },
    }
}

fn deco_usage_exec(root: &HtmlElement) -> (r: Vec<DictionaryTag>)
    ensures
        tags_view(r@) == deco_usage_tags(by_class(element_view(*root), "deco"@)),
{
    let mut decos: Vec<&HtmlElement> = Vec::new();
    root.all_by_class("deco", &mut decos);
    let ghost dv = refs_view(decos@);
    assert(dv =~= by_class(element_view(*root), "deco"@));
    let mut tags: Vec<DictionaryTag> = Vec::new();
    for i in 0..decos.len()
        invariant
            dv == refs_view(decos@),
            tags_view(tags@) == deco_usage_tags(dv.take(i as int)),
    {
        assert(dv.take(i + 1).drop_last() == dv.take(i as int));
        assert(dv.take(i + 1).last() == dv[i as int]);
        let t = decos[i].text();
        let label = normalize_visible_text(t.as_str());
        let l = label.as_str();
        if !l.is_empty() && (str_eq(l, "口語") || str_eq(l, "古") || str_eq(l, "俗") || str_eq(l, "方言") || str_eq(l, "専門"))
            && !has_tag_label(&tags, l) {
            let ghost before = tags_view(tags@);
            tags.push(tag("usage", l));
            assert(tags_view(tags@) =~= before.push(("usage"@, normalized_visible(l@))));
        }
    }
    assert(dv.take(decos.len() as int) == dv);
    tags
}

fn has_tag_label(tags: &Vec<DictionaryTag>, label: &str) -> (b: bool)
    ensures
        b == tag_labels_of(tags_view(tags@)).contains(label@),
{
    let ghost tl = tag_labels_of(tags_view(tags@));
    for i in 0..tags.len()
        invariant
            tl == tag_labels_of(tags_view(tags@)),
            forall|k: int| 0 <= k < i ==> tl[k] != label@,
    {
        if str_eq(tags[i].label.as_str(), label) {
            assert(tl[i as int] == label@);
            return true;
        }
    }
    false
}

fn add_grammar_usage(tags: &mut Vec<DictionaryTag>, labels: &Vec<String>)
    ensures
        tags_view(final(tags)@) == grammar_usage_added(tags_view(old(tags)@), strings_view(labels@)),
{
    let ghost start = tags_view(tags@);
    let ghost lv = strings_view(labels@);
    for i in 0..labels.len()
        invariant
            lv == strings_view(labels@),
            tags_view(tags@) == grammar_usage_added(start, lv.take(i as int)),
    {
        assert(lv.take(i + 1).drop_last() == lv.take(i as int));
        assert(lv.take(i + 1).last() == lv[i as int]);
        let l = labels[i].as_str();
        if !has_tag_label(tags, l) {
            let ghost before = tags_view(tags@);
            tags.push(tag("grammar", l));
            assert(tags_view(tags@) =~= before.push(("grammar"@, normalized_visible(l@))));
        }
    }
    assert(lv.take(labels.len() as int) == lv);
}

fn reading_exec(root: &HtmlElement, raw_headword: &str, structured_reading: Option<&str>) -> (r: Option<String>)
    ensures
        opt_view(r) == occurrence_reading(element_view(*root), raw_headword@, opt_str(structured_reading)),
{
    let base = match reading_from_headword(raw_headword) {
        Some(r) => Some(r),
        None => first_class_text(root, "bss"),
    };
    let mapped = match base {
        Some(v) => {
            let n = normalize_reading(v.as_str());
            if n.as_str().is_empty() {
                None
            } else {
                Some(n)
            }
        },
        None => None,
    };
    match mapped {
        Some(v) => Some(v),
        None => match structured_reading {
            Some(s) => Some(normalize_reading(s)),
            None => None,
        },
    }
}

fn visible_pos_tag(root: &HtmlElement, tags: &mut Vec<DictionaryTag>)
    ensures
        tags_view(final(tags)@) == tags_view(old(tags)@) + match first_captures(
            crate::dictionary::adapters::daijirin_groups::pos_pattern(),
            collect_text(element_view(*root).children, seq![], seq![]),
        ) {
            Some(g) => match group_at(g, 1) {
                Some(v) => seq![("pos"@, normalized_visible(v))],
                None => seq![],
            },
            None => seq![],
        },
{
    let ghost before = tags_view(tags@);
    let visible = root.text();
    let groups = match regex_captures("[（(]((?:動|名|副|形|連|接|感|助|自|他|サ変)[^）)]{0,12})[）)]", visible.as_str()) {
        Some(Some(g)) => g,
        _ => {
            assert(tags_view(tags@) =~= before + Seq::<(Seq<char>, Seq<char>)>::empty());
            return;
        },
    };
    if groups.len() > 1 {
        match &groups[1] {
            Some(v) => {
                tags.push(tag("pos", v.as_str()));
                assert(tags_view(tags@) =~= before + seq![("pos"@, normalized_visible(v@))]);
                return;
            },
            None => {},
        }
    }
    assert(tags_view(tags@) =~= before + Seq::<(Seq<char>, Seq<char>)>::empty());
}

fn all_unmarked(senses: &Vec<DictionarySense>) -> (b: bool)
    ensures
        b == no_markers(senses_view(senses@)),
{
    proof {
        lemma_senses_view_len(senses@);
    }
    for i in 0..senses.len()
        invariant
            senses_view(senses@).len() == senses@.len(),
            forall|k: int| 0 <= k < i ==> (#[trigger] senses_view(senses@)[k]).marker is None,
    {
        proof {
            crate::dictionary::adapters::daijirin_senses::lemma_senses_view_index(senses@, i as int);
        }
        if senses[i].marker.is_some() {
            return false;
        }
    }
    true
}

fn relations_total_exec(senses: &Vec<DictionarySense>) -> (r: usize)
    ensures
        r as nat == relations_total(senses@) || r == usize::MAX,
        relations_total(senses@) > 0 <==> r > 0,
{
    let mut total: usize = 0;
    for i in 0..senses.len()
        invariant
            total as nat == relations_total(senses@.take(i as int)) || total == usize::MAX,
            relations_total(senses@.take(i as int)) > 0 <==> total > 0,
    {
        assert(senses@.take(i + 1).drop_last() == senses@.take(i as int));
        assert(senses@.take(i + 1).last() == senses@[i as int]);
        let n = senses[i].relations.len();
        total = if total > usize::MAX - n { usize::MAX } else { total + n };
    }
    assert(senses@.take(senses.len() as int) == senses@);
    total
}

fn substantive_exec(senses: &Vec<DictionarySense>) -> (b: bool)
    ensures
        b == substantive_any(senses@),
{
    let ghost ss = senses@;
    assert(ss.skip(0) == ss);
    for i in 0..senses.len()
        invariant
            ss == senses@,
            substantive_any(ss) == substantive_any(ss.skip(i as int)),
    {
        assert(ss.skip(i as int)[0] == ss[i as int]);
        assert(ss.skip(i as int).drop_first() == ss.skip(i + 1));
        if sense_has_substantive_content(&senses[i]) {
            return true;
        }
    }
    assert(ss.skip(senses.len() as int) =~= Seq::<DictionarySense>::empty());
    false
}

/// Reads a 大辞林 definition, already parsed into `root`, into one occurrence
/// finished for display.
#[verifier::spinoff_prover]
#[verifier::rlimit(80)]
pub fn adapt(
    root: &HtmlElement,
    indexed_headword: &str,
    raw_headword: &str,
    structured_reading: Option<&str>,
    definition: &str,
) -> (r: Vec<AdaptedOccurrence>)
    ensures
        r@.len() == 1,
        exists|o: AdaptedOccurrence|
            adapted(element_view(*root), indexed_headword@, raw_headword@, opt_str(structured_reading), definition@, o)
                && #[trigger] finished(o, "daijirin"@, definition@, r@[0]),
{
    let ghost rv = element_view(*root);
    let indexed_form = indexed_form_exec(indexed_headword);
    let origin = foreign_origin(root, definition);
    let forms: Vec<String> = if origin.is_some() {
        let mut v: Vec<String> = Vec::new();
        v.push(indexed_form.clone());
        v
    } else {
        let v = scoped_forms(root);
        assert(strings_view(v@) =~= v@.map_values(|f: String| f@));
        v
    };
    let ghost fv = strings_view(forms@);
    assert(fv =~= occurrence_forms(rv, indexed_form@, definition@));
    assert(forms@.map_values(|f: String| f@) =~= fv);
    let display = choose_display_form(indexed_form.as_str(), forms.as_slice());
    let example_form = if indexed_form.as_str().is_empty() { display.clone() } else { indexed_form.clone() };
    let stem = placeholder_stem(root, example_form.as_str());
    let stem_ref: Option<&str> = match &stem {
        Some(s) => Some(s.as_str()),
        None => None,
    };
    let ghost form = example_form@;
    let ghost stem_v = stem_of(rv, form);
    assert(opt_str(stem_ref) == stem_v);
    let reading = reading_exec(root, raw_headword, structured_reading);
    let kind0 = detect_kind(root, definition);
    let scoped = header_forms_exec(&forms, display.as_str(), indexed_form.as_str());
    let pronunciations = pronunciations_exec(root);
    let (short_note, origin2) = notes_exec(root, definition);
    let historical0 = header_historical_reading(root);
    let mut usage_tags = deco_usage_exec(root);
    let mut counter: usize = 0;
    let major = parse_major_groups(root, example_form.as_str(), stem_ref, &mut counter);
    let ghost major_v = senses_view(major@);
    let mut pos_tags: Vec<DictionaryTag> = Vec::new();
    match global_pos_label(root) {
        Some(label) => {
            pos_tags.push(tag("pos", label.as_str()));
        },
        None => {},
    }
    let ghost g0 = tags_view(pos_tags@);
    let ghost u0 = tags_view(usage_tags@);
    let mut historical = historical0;
    match historical_conjugation(root) {
        Some((conjugation, historical_reading)) => {
            usage_tags.push(tag("usage", "文語"));
            let mut label = String::from_str("文語 ");
            push_str(&mut label, conjugation.as_str());
            pos_tags.push(tag("pos", label.as_str()));
            historical = Some(historical_reading);
            assert(tags_view(usage_tags@) =~= u0 + seq![("usage"@, normalized_visible("文語"@))]);
            assert(tags_view(pos_tags@) =~= g0 + seq![("pos"@, normalized_visible("文語 "@ + conjugation@))]);
        },
        None => {
            assert(tags_view(usage_tags@) =~= u0 + Seq::<(Seq<char>, Seq<char>)>::empty());
            assert(tags_view(pos_tags@) =~= g0 + Seq::<(Seq<char>, Seq<char>)>::empty());
        },
    }
    if all_unmarked(&major) {
        let labels = header_small_usage_labels(root);
        add_grammar_usage(&mut usage_tags, &labels);
    }
    assert(tags_view(usage_tags@) == occurrence_usage_tags(rv, form, stem_v));
    let mut senses = major;
    if senses.len() == 0 {
        if pos_tags.len() == 0 {
            visible_pos_tag(root, &mut pos_tags);
        }
        let mut containers: Vec<&HtmlElement> = Vec::new();
        collect_top_pair_containers(root, &mut containers);
        assert(refs_view(containers@) =~= top_pairs(rv));
        proof {
            lemma_top_pairs_bound(rv);
        }
        let pairs = parse_containers(&containers, example_form.as_str(), stem_ref, &mut counter, Ghost(elem_size(rv) + 1));
        senses = pairs;
        if senses.len() == 0 {
            match parse_single_definition(root, example_form.as_str(), stem_ref, &mut counter) {
                Some(s) => {
                    let ghost before = senses@;
                    senses.push(s);
                    proof {
                        lemma_senses_view_push(before, s);
                        assert(senses_view(before) =~= Seq::<SenseView>::empty());
                    }
                },
                None => {},
            }
        }
    }
    proof {
        lemma_senses_view_len(senses@);
        lemma_senses_view_len(major@);
    }
    assert(tags_view(pos_tags@) == occurrence_pos_tags(rv, form, stem_v));
    assert(senses_view(senses@) == occurrence_senses(rv, form, stem_v));
    let sections = collect_deco_sections(root, example_form.as_str(), stem_ref);
    let links = structural_links(root);
    let redirect = str_contains(definition, "⇒") && !substantive_exec(&senses) && (links.len() > 0 || relations_total_exec(&senses) > 0);
    let kind1: &str = if redirect { "redirect" } else { kind0 };
    let navigation = senses.len() == 0 && links.len() > 0 && (str_eq(kind1, "lexical") || str_eq(kind1, "unknown"))
        && crate::dictionary::adapters::daijirin_text::contains_char_pub(chars_of(definition).as_slice(), '☞');
    let kind: &str = if navigation { "navigation" } else { kind1 };
    let coverage: &str = if navigation {
        "navigation"
    } else if senses.len() == 0 {
        "partial"
    } else if redirect {
        "navigation"
    } else {
        "structured"
    };
    let mut warnings: Vec<String> = Vec::new();
    if !navigation && senses.len() == 0 {
        warnings.push(String::from_str("未识别大辞林义项容器，已保留安全降级内容"));
    }
    let ghost w1 = strings_view(warnings@);
    if (str_contains(definition, "—・") || str_contains(definition, "━・")) && stem.is_none() {
        warnings.push(String::from_str("原文含活用语干占位，但未能从词头读取可靠活用边界"));
    }
    let occurrence = AdaptedOccurrence {
        source_record_index: 0,
        occurrence_suffix: String::new(),
        entry_kind: String::from_str(kind),
        header: DictionaryOccurrenceHeader {
            display_form: display.clone(),
            canonical_form: Some(display),
            reading,
            historical_reading: historical,
            pronunciations,
            scoped_forms: scoped,
            pos_tags,
            usage_tags,
            origin: origin2,
            short_note,
        },
        senses,
        sections,
        links,
        definition_html: String::new(),
        style_profile: String::new(),
        content_blocks: Vec::new(),
        diagnostics: DictionaryAdapterDiagnostics { coverage: String::from_str(coverage), warnings, omitted: Vec::new() },
    };
    proof {
        assert(strings_view(occurrence.diagnostics.warnings@) =~= (if !navigation && occurrence.senses@.len() == 0 {
            seq![no_senses_warning()]
        } else {
            Seq::<Seq<char>>::empty()
        }) + (if (contains_seq(definition@, "—・"@) || contains_seq(definition@, "━・"@)) && stem_v is None {
            seq![placeholder_warning()]
        } else {
            Seq::<Seq<char>>::empty()
        }));
        assert(adapted(rv, indexed_headword@, raw_headword@, opt_str(structured_reading), definition@, occurrence));
    }
    let ghost o = occurrence;
    let finished_occurrence = finish(occurrence, "daijirin", definition);
    let mut out: Vec<AdaptedOccurrence> = Vec::new();
    out.push(finished_occurrence);
    assert(finished(o, "daijirin"@, definition@, out@[0]));
    out
}

} // verus!
