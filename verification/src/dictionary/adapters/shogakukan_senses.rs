//! The senses of 小学館 meaning and example paragraphs.
use vstd::prelude::*;
use crate::cli::{parse_usize, parsed_usize};
use crate::dictionary::adapters::common::{
    escaped, example, extract_links, link_targets, links_from, links_view, normalize_visible_text, normalized_visible, text,
};
use crate::dictionary::adapters::crown::zh_view;
use crate::dictionary::adapters::daijirin::element_text;
use crate::dictionary::adapters::daijirin_senses::{
    examples_view, lemma_senses_view_push, sense_view, senses_view, text_view, texts_view, SenseView,
};
use crate::dictionary::adapters::daijirin_text::{opt_str, opt_view, tags_view};
use crate::dictionary::adapters::section_view::{
    clauses_view, group_view, groups_view, ClauseView, ExampleView, GroupView, LinkView, TagView, TextView,
};
use crate::dictionary::adapters::shogakukan_gloss::{
    collect_gloss_nodes, gloss_groups_of, judges, node_events, start_view, GlossGroupBuilder,
};
use crate::dictionary::adapters::shogakukan_tree::{build_sense_tree, drafts_view, sense_tree, SenseDraft};
use crate::dictionary::adapters::shogakukan_text::{
    outer_trimmed, remove_once, removed_once, split_top_level_phrases, top_level_phrases, trim_outer_punctuation,
    unique_tag_added, push_unique_tag,
};
use crate::dictionary::model::{DictionaryExample, DictionaryGlossGroup, DictionaryLink, DictionarySense, DictionaryTag, DictionaryText};
use crate::html::{
    attr_value, by_class, by_name, collect_text, descendants, element_view, find_by_class, refs_view, ElementView,
    HtmlElement,
};
use crate::text::{chars_of, decimal, push_char, push_decimal, regex_compiles, regex_found, regex_is_match, str_eq};
use crate::token::strings_view;

verus! {

pub open spec fn marker_pattern() -> Seq<char> {
    "^(?:\\d+|[①-⑳]|[一二三四五六七八九十]+|[㋐-㋾]|[A-Z])$"@
}

/// The sense marker a square label gives: the first black square, else the
/// first white square, when its text is a number, a circled number, a kanji
/// numeral, a circled katakana or a capital letter.
pub open spec fn square_marker(e: ElementView) -> Option<Seq<char>> {
    let found = match find_by_class(e, "black-square"@) {
        Some(x) => Some(x),
        None => find_by_class(e, "white-square"@),
    };
    match found {
        Some(x) => if regex_compiles(marker_pattern()) && regex_found(marker_pattern(), element_text(x)) {
            Some(element_text(x))
        } else {
            None
        },
        None => None,
    }
}

/// The sense marker of a paragraph's square labels.
pub fn first_marker(element: &HtmlElement) -> (r: Option<String>)
    ensures
        opt_view(r) == square_marker(element_view(*element)),
{
    let found = match element.first_by_class("black-square") {
        Some(x) => Some(x),
        None => element.first_by_class("white-square"),
    };
    match found {
        Some(x) => {
            let t = x.text();
            let v = normalize_visible_text(t.as_str());
            match regex_is_match("^(?:\\d+|[①-⑳]|[一二三四五六七八九十]+|[㋐-㋾]|[A-Z])$", v.as_str()) {
                Some(true) => Some(v),
                _ => None,
            }
        },
        None => None,
    }
}

/// The first element among `els` typed `t`.
pub open spec fn first_typed(els: Seq<ElementView>, t: Seq<char>) -> Option<ElementView>
    decreases els.len(),
{
    if els.len() == 0 {
        None
    } else if attr_value(els[0].attrs, "type"@) == Some(t) {
        Some(els[0])
    } else {
        first_typed(els.drop_first(), t)
    }
}

/// The text of the first element below `e` typed `t`, when not empty.
pub open spec fn typed_text(e: ElementView, t: Seq<char>) -> Option<Seq<char>> {
    match first_typed(descendants(e), t) {
        Some(x) => if element_text(x).len() > 0 { Some(element_text(x)) } else { None },
        None => None,
    }
}

/// The text of the first element below a paragraph typed `target_type`.
pub fn first_typed_text(element: &HtmlElement, target_type: &str) -> (r: Option<String>)
    ensures
        opt_view(r) == typed_text(element_view(*element), target_type@),
{
    let mut elements: Vec<&HtmlElement> = Vec::new();
    element.all_elements(&mut elements);
    let ghost ev = refs_view(elements@);
    assert(ev =~= descendants(element_view(*element)));
    assert(ev.skip(0) == ev);
    for i in 0..elements.len()
        invariant
            ev == refs_view(elements@),
            ev == descendants(element_view(*element)),
            ev.len() == elements@.len(),
            first_typed(ev, target_type@) == first_typed(ev.skip(i as int), target_type@),
    {
        assert(ev.skip(i as int)[0] == ev[i as int]);
        assert(ev.skip(i as int).drop_first() == ev.skip(i + 1));
        assert(ev[i as int] == element_view(*elements@[i as int]));
        let typed = match elements[i].attr("type") {
            Some(t) => str_eq(t, target_type),
            None => false,
        };
        if typed {
            assert(first_typed(ev.skip(i as int), target_type@) == Some(ev[i as int]));
            let t = elements[i].text();
            let v = normalize_visible_text(t.as_str());
            return if v.as_str().is_empty() { None } else { Some(v) };
        }
    }
    assert(ev.skip(elements.len() as int) =~= Seq::<ElementView>::empty());
    None
}

/// The text of the first element (the paragraph itself first) named `name`, when not empty.
pub open spec fn named_text(e: ElementView, name: Seq<char>) -> Option<Seq<char>> {
    let found = by_name(e, name);
    if found.len() > 0 && element_text(found[0]).len() > 0 { Some(element_text(found[0])) } else { None }
}

/// The text of the first element named `name`.
pub fn first_named_text(element: &HtmlElement, name: &str) -> (r: Option<String>)
    ensures
        opt_view(r) == named_text(element_view(*element), name@),
{
    let mut elements: Vec<&HtmlElement> = Vec::new();
    element.all_by_name(name, &mut elements);
    assert(refs_view(elements@) =~= by_name(element_view(*element), name@));
    if elements.len() == 0 {
        return None;
    }
    assert(refs_view(elements@)[0] == element_view(*elements@[0]));
    let t = elements[0].text();
    let v = normalize_visible_text(t.as_str());
    if v.as_str().is_empty() { None } else { Some(v) }
}

/// The example `common::example` makes of a source and a translation.
pub open spec fn plain_example(source: Seq<char>, translation: Option<Seq<char>>) -> Option<ExampleView> {
    if normalized_visible(source).len() == 0 {
        None
    } else {
        Some((
            ("ja"@, None, escaped(normalized_visible(normalized_visible(source)))),
            match translation {
                Some(t) => if normalized_visible(t).len() > 0 {
                    Some(("zh-CN"@, None, escaped(normalized_visible(normalized_visible(t)))))
                } else {
                    None
                },
                None => None,
            },
            None,
        ))
    }
}

pub(crate) fn example_of_pub(source: &str, translation: Option<&str>) -> (r: Option<DictionaryExample>)
    ensures
        match r {
            Some(x) => plain_example(source@, opt_str(translation)) == Some(crate::dictionary::adapters::daijirin_senses::example_view(x)),
            None => plain_example(source@, opt_str(translation)) is None,
        },
{
    let r = example(source, translation);
    match &r {
        Some(x) => {
            assert(crate::dictionary::adapters::daijirin_senses::opt_text_view(x.translation) == match opt_str(translation) {
                Some(t) => if normalized_visible(t).len() > 0 {
                    Some(("zh-CN"@, None::<Seq<char>>, escaped(normalized_visible(normalized_visible(t)))))
                } else {
                    None
                },
                None => None,
            });
        },
        None => {},
    }
    r
}

/// The tags with each of `more` added, each once, as they are.
pub open spec fn tags_merged(tags: Seq<TagView>, more: Seq<TagView>) -> Seq<TagView>
    decreases more.len(),
{
    if more.len() == 0 {
        tags
    } else {
        let prev = tags_merged(tags, more.drop_last());
        if prev.contains(more.last()) { prev } else { prev.push(more.last()) }
    }
}

/// The tags of each clause of each group, before and after its text, each once.
pub open spec fn clause_tags(acc: Seq<TagView>, clauses: Seq<ClauseView>) -> Seq<TagView>
    decreases clauses.len(),
{
    if clauses.len() == 0 {
        acc
    } else {
        let prev = clause_tags(acc, clauses.drop_last());
        let tags = clauses.last().leading + clauses.last().trailing;
        added_tags(prev, tags)
    }
}

/// The tags with each of `more` added by kind and label, each once.
pub open spec fn added_tags(acc: Seq<TagView>, more: Seq<TagView>) -> Seq<TagView>
    decreases more.len(),
{
    if more.len() == 0 {
        acc
    } else {
        unique_tag_added(added_tags(acc, more.drop_last()), more.last().0, more.last().1)
    }
}

pub open spec fn group_tags(groups: Seq<GroupView>) -> Seq<TagView>
    decreases groups.len(),
{
    if groups.len() == 0 {
        seq![]
    } else {
        clause_tags(group_tags(groups.drop_last()), groups.last().clauses)
    }
}

/// Whether some clause of some group has text.
pub open spec fn any_text(groups: Seq<GroupView>) -> bool {
    exists|g: int, k: int| 0 <= g < groups.len() && 0 <= k < groups[g].clauses.len() && #[trigger] groups[g].clauses[k].text.2.len() > 0
}

/// The text with each group heading taken out once.
pub open spec fn headings_removed(v: Seq<char>, groups: Seq<GroupView>) -> Seq<char>
    decreases groups.len(),
{
    if groups.len() == 0 {
        v
    } else {
        let prev = headings_removed(v, groups.drop_last());
        match groups.last().heading {
            Some(h) => removed_once(prev, h),
            None => prev,
        }
    }
}

/// What is left of a meaning when no clause has text: its text without the
/// marker and the group headings, trimmed; nothing otherwise.
pub open spec fn residual_of(e: ElementView, marker: Option<Seq<char>>, groups: Seq<GroupView>) -> Seq<char> {
    if any_text(groups) {
        seq![]
    } else {
        let v0 = element_text(e);
        let v1 = match marker {
            Some(m) => removed_once(v0, m),
            None => v0,
        };
        outer_trimmed(headings_removed(v1, groups))
    }
}

/// The gloss groups a meaning paragraph gives.
pub open spec fn payload_groups(e: ElementView, marker: Option<Seq<char>>, ja: spec_fn(Seq<char>) -> bool) -> Seq<GroupView> {
    gloss_groups_of(node_events(e.children, marker, ja), ja)
}

fn add_tags(tags: &mut Vec<DictionaryTag>, more: &Vec<DictionaryTag>)
    ensures
        tags_view(final(tags)@) == added_tags(tags_view(old(tags)@), tags_view(more@)),
{
    let ghost start = tags_view(tags@);
    let ghost mv = tags_view(more@);
    for i in 0..more.len()
        invariant
            mv == tags_view(more@),
            tags_view(tags@) == added_tags(start, mv.take(i as int)),
    {
        assert(mv.take(i + 1).drop_last() == mv.take(i as int));
        assert(mv.take(i + 1).last() == mv[i as int]);
        push_unique_tag(tags, more[i].kind.as_str(), more[i].label.as_str());
    }
    assert(mv.take(more.len() as int) == mv);
}

proof fn lemma_added_tags_concat(acc: Seq<TagView>, a: Seq<TagView>, b: Seq<TagView>)
    ensures
        added_tags(acc, a + b) == added_tags(added_tags(acc, a), b),
    decreases b.len(),
{
    if b.len() == 0 {
        assert(a + b =~= a);
    } else {
        lemma_added_tags_concat(acc, a, b.drop_last());
        assert((a + b).drop_last() =~= a + b.drop_last());
        assert((a + b).last() == b.last());
    }
}

fn payload_tags(groups: &Vec<DictionaryGlossGroup>) -> (r: Vec<DictionaryTag>)
    ensures
        tags_view(r@) == group_tags(groups_view(groups@)),
{
    let ghost gv = groups_view(groups@);
    let mut tags: Vec<DictionaryTag> = Vec::new();
    assert(tags_view(tags@) =~= Seq::<TagView>::empty());
    for i in 0..groups.len()
        invariant
            gv == groups_view(groups@),
            tags_view(tags@) == group_tags(gv.take(i as int)),
    {
        assert(gv.take(i + 1).drop_last() == gv.take(i as int));
        assert(gv.take(i + 1).last() == gv[i as int]);
        let clauses = &groups[i].clauses;
        let ghost cv = clauses_view(clauses@);
        assert(gv[i as int].clauses == cv);
        let ghost t0 = tags_view(tags@);
        for k in 0..clauses.len()
            invariant
                cv == clauses_view(clauses@),
                tags_view(tags@) == clause_tags(t0, cv.take(k as int)),
        {
            assert(cv.take(k + 1).drop_last() == cv.take(k as int));
            assert(cv.take(k + 1).last() == cv[k as int]);
            let ghost before = tags_view(tags@);
            add_tags(&mut tags, &clauses[k].leading_tags);
            add_tags(&mut tags, &clauses[k].trailing_tags);
            proof {
                lemma_added_tags_concat(before, cv[k as int].leading, cv[k as int].trailing);
            }
        }
        assert(cv.take(clauses.len() as int) == cv);
    }
    assert(gv.take(groups.len() as int) == gv);
    tags
}

fn has_clause_text(groups: &Vec<DictionaryGlossGroup>) -> (b: bool)
    ensures
        b == any_text(groups_view(groups@)),
{
    let ghost gv = groups_view(groups@);
    for i in 0..groups.len()
        invariant
            gv == groups_view(groups@),
            gv.len() == groups@.len(),
            forall|g: int, k: int| 0 <= g < i && 0 <= k < gv[g].clauses.len() ==> !(#[trigger] gv[g].clauses[k].text.2.len() > 0),
    {
        let clauses = &groups[i].clauses;
        let ghost cv = clauses_view(clauses@);
        assert(gv[i as int].clauses == cv);
        for k in 0..clauses.len()
            invariant
                cv == clauses_view(clauses@),
                cv.len() == clauses@.len(),
                gv == groups_view(groups@),
                gv.len() == groups@.len(),
                i < groups@.len(),
                gv[i as int].clauses == cv,
                forall|m: int| 0 <= m < k ==> !(#[trigger] cv[m].text.2.len() > 0),
                forall|g: int, m: int| 0 <= g < i && 0 <= m < gv[g].clauses.len() ==> !(#[trigger] gv[g].clauses[m].text.2.len() > 0),
        {
            assert(cv[k as int].text.2 == clauses@[k as int].text.html@);
            if !clauses[k].text.html.as_str().is_empty() {
                assert(gv[i as int].clauses[k as int].text.2.len() > 0);
                return true;
            }
        }
    }
    false
}

/// The gloss groups, the residual text and the tags of a meaning paragraph.
pub fn meaning_payload<F: Fn(&str) -> bool>(
    element: &HtmlElement,
    marker: Option<&str>,
    judge: &F,
    Ghost(ja): Ghost<spec_fn(Seq<char>) -> bool>,
) -> (r: (Vec<DictionaryGlossGroup>, String, Vec<DictionaryTag>))
    requires
        judges(judge, ja),
    ensures
        groups_view(r.0@) == payload_groups(element_view(*element), opt_str(marker), ja),
        r.1@ == residual_of(element_view(*element), opt_str(marker), groups_view(r.0@)),
        tags_view(r.2@) == group_tags(groups_view(r.0@)),
{
    let mut builder = GlossGroupBuilder::new();
    collect_gloss_nodes(element.children.as_slice(), marker, &mut builder, judge, Ghost(ja));
    let groups = builder.finish(judge, Ghost(ja));
    let tags = payload_tags(&groups);
    let ghost gv = groups_view(groups@);
    let residual = if has_clause_text(&groups) {
        String::new()
    } else {
        let t = element.text();
        let mut value = normalize_visible_text(t.as_str());
        match marker {
            Some(m) => {
                value = remove_once(value.as_str(), m);
            },
            None => {},
        }
        let ghost v1 = value@;
        for i in 0..groups.len()
            invariant
                gv == groups_view(groups@),
                value@ == headings_removed(v1, gv.take(i as int)),
        {
            assert(gv.take(i + 1).drop_last() == gv.take(i as int));
            assert(gv.take(i + 1).last() == gv[i as int]);
            match &groups[i].heading {
                Some(h) => {
                    value = remove_once(value.as_str(), h.as_str());
                },
                None => {},
            }
        }
        assert(gv.take(groups.len() as int) == gv);
        trim_outer_punctuation(value.as_str())
    };
    (groups, residual, tags)
}

/// The glosses of clauses with text, each with its clause's qualifier.
pub open spec fn clause_glosses(cs: Seq<ClauseView>) -> Seq<TextView>
    decreases cs.len(),
{
    if cs.len() == 0 {
        seq![]
    } else {
        let prev = clause_glosses(cs.drop_last());
        let c = cs.last();
        if c.text.2.len() > 0 { prev.push((c.text.0, c.qualifier, c.text.2)) } else { prev }
    }
}

/// The glosses of all clauses of all groups, in order.
pub open spec fn legacy_of(gs: Seq<GroupView>) -> Seq<TextView>
    decreases gs.len(),
{
    if gs.len() == 0 {
        seq![]
    } else {
        legacy_of(gs.drop_last()) + clause_glosses(gs.last().clauses)
    }
}

fn clone_opt(o: &Option<String>) -> (r: Option<String>)
    ensures
        opt_view(r) == opt_view(*o),
{
    match o {
        Some(s) => Some(s.clone()),
        None => None,
    }
}

/// The glosses of the gloss groups, each clause with text once, with its qualifier.
pub fn legacy_glosses(groups: &Vec<DictionaryGlossGroup>) -> (r: Vec<DictionaryText>)
    ensures
        texts_view(r@) == legacy_of(groups_view(groups@)),
{
    let ghost gv = groups_view(groups@);
    let mut out: Vec<DictionaryText> = Vec::new();
    for i in 0..groups.len()
        invariant
            gv == groups_view(groups@),
            texts_view(out@) == legacy_of(gv.take(i as int)),
    {
        assert(gv.take(i + 1).drop_last() == gv.take(i as int));
        assert(gv.take(i + 1).last() == gv[i as int]);
        let clauses = &groups[i].clauses;
        let ghost cv = clauses_view(clauses@);
        assert(gv[i as int].clauses == cv);
        let ghost base = texts_view(out@);
        for k in 0..clauses.len()
            invariant
                cv == clauses_view(clauses@),
                texts_view(out@) == base + clause_glosses(cv.take(k as int)),
        {
            assert(cv.take(k + 1).drop_last() == cv.take(k as int));
            assert(cv.take(k + 1).last() == cv[k as int]);
            let c = &clauses[k];
            if !c.text.html.as_str().is_empty() {
                let t = DictionaryText { lang: c.text.lang.clone(), qualifier: clone_opt(&c.qualifier), html: c.text.html.clone() };
                let ghost before = texts_view(out@);
                out.push(t);
                assert(texts_view(out@) =~= before.push(text_view(t)));
            }
        }
        assert(cv.take(clauses.len() as int) == cv);
    }
    assert(gv.take(groups.len() as int) == gv);
    out
}

/// The level a paragraph gives, one when it gives none or not a number.
pub open spec fn level_of(e: ElementView) -> int {
    match attr_value(e.attrs, "level"@) {
        Some(v) => match parsed_usize(v) {
            Some(n) => n as int,
            None => 1,
        },
        None => 1,
    }
}

/// The marker of a meaning paragraph: its `no`, else its square label.
pub open spec fn paragraph_marker(e: ElementView) -> Option<Seq<char>> {
    match attr_value(e.attrs, "no"@) {
        Some(n) => Some(n),
        None => square_marker(e),
    }
}

pub open spec fn arrow(c: char) -> bool {
    c == '⇒' || c == '→' || c == '☞'
}

/// The text without arrows.
pub open spec fn arrows_removed(s: Seq<char>) -> Seq<char>
    decreases s.len(),
{
    if s.len() == 0 {
        seq![]
    } else {
        let prev = arrows_removed(s.drop_last());
        if arrow(s.last()) { prev } else { prev.push(s.last()) }
    }
}

/// The text with each link's label taken out once.
pub open spec fn labels_removed(v: Seq<char>, links: Seq<LinkView>) -> Seq<char>
    decreases links.len(),
{
    if links.len() == 0 { v } else { removed_once(labels_removed(v, links.drop_last()), links.last().1) }
}

/// What is left of a meaning once its heading and its links' labels are taken
/// out; with links, also without arrows and trimmed.
pub open spec fn meaning_residual(
    e: ElementView,
    marker: Option<Seq<char>>,
    groups: Seq<GroupView>,
    heading: Option<Seq<char>>,
    relations: Seq<LinkView>,
) -> Seq<char> {
    let r0 = residual_of(e, marker, groups);
    let r1 = match heading {
        Some(h) => removed_once(r0, h),
        None => r0,
    };
    let r2 = labels_removed(r1, relations);
    if relations.len() > 0 { outer_trimmed(arrows_removed(r2)) } else { r2 }
}

pub open spec fn phrase_glosses(ps: Seq<Seq<char>>) -> Seq<TextView> {
    ps.map_values(|p: Seq<char>| zh_view(p))
}

/// The sense a meaning paragraph gives as the `index`-th: its marker, the
/// heading of its type `語義区分2`, its gloss groups with their glosses and
/// tags, its links, and what is left of its text, read as Chinese phrases
/// when there is no gloss and it is not Japanese, else as a Japanese definition.
pub open spec fn meaning_sense(e: ElementView, index: nat, ja: spec_fn(Seq<char>) -> bool) -> SenseView {
    let marker = paragraph_marker(e);
    let heading = typed_text(e, "語義区分2"@);
    let groups = payload_groups(e, marker, ja);
    let relations = links_from(by_name(e, "a"@), "reference"@);
    let residual = meaning_residual(e, marker, groups, heading, relations);
    let glosses = legacy_of(groups);
    let as_glosses = residual.len() > 0 && glosses.len() == 0 && !ja(residual);
    SenseView {
        sense_id: seq!['s'] + decimal(index + 1),
        marker,
        heading,
        glosses: if as_glosses { phrase_glosses(top_level_phrases(residual)) } else { glosses },
        gloss_groups: groups,
        definitions: if residual.len() > 0 && !as_glosses {
            seq![("ja"@, None, escaped(normalized_visible(residual)))]
        } else {
            seq![]
        },
        tags: group_tags(groups),
        examples: seq![],
        notes: seq![],
        relations,
        children: seq![],
    }
}

/// A sense with a repeated group's explanations appended.
pub open spec fn merged(t: SenseView, s: SenseView) -> SenseView {
    SenseView {
        gloss_groups: t.gloss_groups + s.gloss_groups,
        glosses: t.glosses + s.glosses,
        tags: tags_merged(t.tags, s.tags),
        definitions: t.definitions + s.definitions,
        examples: t.examples + s.examples,
        notes: t.notes + s.notes,
        relations: t.relations + s.relations,
        children: t.children + s.children,
        ..t
    }
}

pub open spec fn with_note(s: SenseView, note: TextView) -> SenseView {
    SenseView { notes: s.notes.push(note), ..s }
}

pub open spec fn with_example(s: SenseView, x: ExampleView) -> SenseView {
    SenseView { examples: s.examples.push(x), ..s }
}

/// The drafts and the loose notes after one more paragraph: a supplementary
/// or cautionary meaning is a note of the last sense (loose before any
/// sense); another meaning is a new sense, or is merged into the last one
/// when it repeats the last one's marker at the same level; an example
/// belongs to the last sense.
pub open spec fn read_paragraph(
    st: (Seq<(int, SenseView)>, Seq<TextView>),
    e: ElementView,
    ja: spec_fn(Seq<char>) -> bool,
) -> (Seq<(int, SenseView)>, Seq<TextView>) {
    let drafts = st.0;
    let n = drafts.len();
    let tag = attr_value(e.attrs, "data-orgtag"@);
    if tag == Some("meaning"@) {
        let mtype = match attr_value(e.attrs, "type"@) {
            Some(t) => t,
            None => seq![],
        };
        if mtype == "補足"@ || mtype == "注意"@ {
            let note = ("ja"@, None, escaped(normalized_visible(collect_text(e.children, seq![], seq![]))));
            if n > 0 {
                (drafts.update(n - 1, (drafts[n - 1].0, with_note(drafts[n - 1].1, note))), st.1)
            } else {
                (drafts, st.1.push(note))
            }
        } else {
            let level = level_of(e);
            let s = meaning_sense(e, n, ja);
            if s.marker is Some && n > 0 && drafts[n - 1].0 == level && drafts[n - 1].1.marker == s.marker {
                (drafts.update(n - 1, (level, merged(drafts[n - 1].1, s))), st.1)
            } else {
                (drafts.push((level, s)), st.1)
            }
        }
    } else if tag == Some("example"@) {
        match named_text(e, "jae"@) {
            Some(src) => match plain_example(src, named_text(e, "ja_cn"@)) {
                Some(x) => if n > 0 {
                    (drafts.update(n - 1, (drafts[n - 1].0, with_example(drafts[n - 1].1, x))), st.1)
                } else {
                    st
                },
                None => st,
            },
            None => st,
        }
    } else {
        st
    }
}

/// The drafts and loose notes of paragraphs read in order.
pub open spec fn paragraphs_read(ps: Seq<ElementView>, ja: spec_fn(Seq<char>) -> bool) -> (Seq<(int, SenseView)>, Seq<TextView>)
    decreases ps.len(),
{
    if ps.len() == 0 { (seq![], seq![]) } else { read_paragraph(paragraphs_read(ps.drop_last(), ja), ps.last(), ja) }
}

pub proof fn lemma_senses_view_concat(a: Seq<DictionarySense>, b: Seq<DictionarySense>)
    ensures
        senses_view(a + b) == senses_view(a) + senses_view(b),
    decreases b.len(),
{
    if b.len() == 0 {
        assert(a + b =~= a);
        assert(senses_view(b) =~= Seq::<SenseView>::empty());
        assert(senses_view(a) + senses_view(b) =~= senses_view(a));
    } else {
        lemma_senses_view_concat(a, b.drop_last());
        assert(a + b =~= (a + b.drop_last()).push(b.last()));
        assert(b =~= b.drop_last().push(b.last()));
        lemma_senses_view_push(a + b.drop_last(), b.last());
        lemma_senses_view_push(b.drop_last(), b.last());
        assert(senses_view(a + b) =~= senses_view(a) + senses_view(b));
    }
}

/// Appends a repeated group's explanations to the sense it repeats.
pub fn merge_repeated_sense_group(target: &mut DictionarySense, source: DictionarySense)
    ensures
        sense_view(*final(target)) == merged(sense_view(*old(target)), sense_view(source)),
{
    let ghost t0 = sense_view(*target);
    let ghost s0 = sense_view(source);
    let mut source = source;
    let ghost gg = target.gloss_groups@;
    target.gloss_groups.append(&mut source.gloss_groups);
    assert(groups_view(target.gloss_groups@) =~= groups_view(gg) + s0.gloss_groups);
    let ghost gl = target.glosses@;
    target.glosses.append(&mut source.glosses);
    assert(texts_view(target.glosses@) =~= texts_view(gl) + s0.glosses);
    let mut tags: Vec<DictionaryTag> = Vec::new();
    std::mem::swap(&mut tags, &mut target.tags);
    let more = source.tags;
    let ghost tv = tags_view(more@);
    let ghost tt = tags_view(tags@);
    for i in 0..more.len()
        invariant
            tv == tags_view(more@),
            tags_view(tags@) == tags_merged(tt, tv.take(i as int)),
    {
        assert(tv.take(i + 1).drop_last() == tv.take(i as int));
        assert(tv.take(i + 1).last() == tv[i as int]);
        let t = DictionaryTag { kind: more[i].kind.clone(), label: more[i].label.clone() };
        let mut found = false;
        let ghost cur = tags_view(tags@);
        for k in 0..tags.len()
            invariant
                cur == tags_view(tags@),
                found == cur.take(k as int).contains((t.kind@, t.label@)),
        {
            proof {
                assert(cur.take(k + 1) == cur.take(k as int).push(cur[k as int]));
                crate::dictionary::adapters::shogakukan_text::lemma_push_contains(cur.take(k as int), cur[k as int], (t.kind@, t.label@));
            }
            found = found || (str_eq(tags[k].kind.as_str(), t.kind.as_str()) && str_eq(tags[k].label.as_str(), t.label.as_str()));
        }
        assert(cur.take(tags.len() as int) == cur);
        if !found {
            tags.push(t);
            assert(tags_view(tags@) =~= cur.push((t.kind@, t.label@)));
        }
    }
    assert(tv.take(more.len() as int) == tv);
    target.tags = tags;
    let ghost df = target.definitions@;
    target.definitions.append(&mut source.definitions);
    assert(texts_view(target.definitions@) =~= texts_view(df) + s0.definitions);
    let ghost ex = target.examples@;
    target.examples.append(&mut source.examples);
    assert(examples_view(target.examples@) =~= examples_view(ex) + s0.examples);
    let ghost no = target.notes@;
    target.notes.append(&mut source.notes);
    assert(texts_view(target.notes@) =~= texts_view(no) + s0.notes);
    let ghost re = target.relations@;
    target.relations.append(&mut source.relations);
    assert(links_view(target.relations@) =~= links_view(re) + s0.relations);
    let ghost ch = target.children@;
    let ghost sch = source.children@;
    target.children.append(&mut source.children);
    proof {
        lemma_senses_view_concat(ch, sch);
    }
}

fn without_arrows(value: &str) -> (r: String)
    ensures
        r@ == arrows_removed(value@),
{
    let v = chars_of(value);
    let mut out = String::new();
    for i in 0..v.len()
        invariant
            v@ == value@,
            out@ == arrows_removed(v@.take(i as int)),
    {
        assert(v@.take(i + 1).drop_last() == v@.take(i as int));
        assert(v@.take(i + 1).last() == v@[i as int]);
        let c = v[i];
        if !(c == '⇒' || c == '→' || c == '☞') {
            push_char(&mut out, c);
        }
    }
    assert(v@.take(v.len() as int) == v@);
    out
}

fn level_exec(element: &HtmlElement) -> (r: usize)
    ensures
        r as int == level_of(element_view(*element)),
{
    match element.attr("level") {
        Some(v) => match parse_usize(chars_of(v).as_slice()) {
            Some(n) => n,
            None => 1,
        },
        None => 1,
    }
}

fn marker_exec(element: &HtmlElement) -> (r: Option<String>)
    ensures
        opt_view(r) == paragraph_marker(element_view(*element)),
{
    match element.attr("no") {
        Some(n) => Some(String::from_str(n)),
        None => first_marker(element),
    }
}

/// What is left of a meaning's text, with the heading and the links' labels taken out.
fn residual_exec(residual: String, heading: &Option<String>, relations: &Vec<DictionaryLink>) -> (r: String)
    ensures
        r@ == ({
            let r1 = match opt_view(*heading) {
                Some(h) => removed_once(residual@, h),
                None => residual@,
            };
            let r2 = labels_removed(r1, links_view(relations@));
            if relations@.len() > 0 { outer_trimmed(arrows_removed(r2)) } else { r2 }
        }),
{
    let mut value = residual;
    match heading {
        Some(h) => {
            value = remove_once(value.as_str(), h.as_str());
        },
        None => {},
    }
    let ghost r1 = value@;
    let ghost lv = links_view(relations@);
    for i in 0..relations.len()
        invariant
            lv == links_view(relations@),
            value@ == labels_removed(r1, lv.take(i as int)),
    {
        assert(lv.take(i + 1).drop_last() == lv.take(i as int));
        assert(lv.take(i + 1).last() == lv[i as int]);
        value = remove_once(value.as_str(), relations[i].label.as_str());
    }
    assert(lv.take(relations.len() as int) == lv);
    if relations.len() > 0 {
        let stripped = without_arrows(value.as_str());
        value = trim_outer_punctuation(stripped.as_str());
    }
    value
}

fn phrase_texts(residual: &str) -> (r: Vec<DictionaryText>)
    ensures
        texts_view(r@) == phrase_glosses(top_level_phrases(residual@)),
{
    let phrases = split_top_level_phrases(residual);
    let ghost pv = strings_view(phrases@);
    let mut out: Vec<DictionaryText> = Vec::new();
    for i in 0..phrases.len()
        invariant
            pv == strings_view(phrases@),
            texts_view(out@) == phrase_glosses(pv.take(i as int)),
    {
        let t = text("zh-CN", phrases[i].as_str());
        let ghost before = texts_view(out@);
        out.push(t);
        assert(texts_view(out@) =~= before.push(text_view(t)));
        assert(phrase_glosses(pv.take(i + 1)) =~= phrase_glosses(pv.take(i as int)).push(zh_view(pv[i as int])));
    }
    assert(pv.take(phrases.len() as int) == pv);
    out
}

/// The sense a meaning paragraph gives as the `index`-th.
#[verifier::spinoff_prover]
#[verifier::rlimit(30)]
fn meaning_sense_of<F: Fn(&str) -> bool>(
    element: &HtmlElement,
    index: usize,
    judge: &F,
    Ghost(ja): Ghost<spec_fn(Seq<char>) -> bool>,
) -> (r: DictionarySense)
    requires
        judges(judge, ja),
        index < usize::MAX,
    ensures
        sense_view(r) == meaning_sense(element_view(*element), index as nat, ja),
{
    let ghost e = element_view(*element);
    let marker = marker_exec(element);
    let marker_ref: Option<&str> = match &marker {
        Some(m) => Some(m.as_str()),
        None => None,
    };
    assert(opt_str(marker_ref) == paragraph_marker(e));
    let heading = first_typed_text(element, "語義区分2");
    let (groups, residual0, tags) = meaning_payload(element, marker_ref, judge, Ghost(ja));
    let mut glosses = legacy_glosses(&groups);
    let relations = extract_links(element, "reference");
    let residual = residual_exec(residual0, &heading, &relations);
    let ghost gv = groups_view(groups@);
    assert(residual@ == meaning_residual(e, paragraph_marker(e), gv, typed_text(e, "語義区分2"@), links_view(relations@)));
    proof {
        reveal_strlit("s");
        assert(texts_view(glosses@).len() == glosses@.len());
    }
    let mut sense_id = String::from_str("s");
    push_decimal(&mut sense_id, (index + 1) as u64);
    let mut definitions: Vec<DictionaryText> = Vec::new();
    let ghost as_glosses = residual@.len() > 0 && legacy_of(gv).len() == 0 && !ja(residual@);
    if !residual.as_str().is_empty() {
        if glosses.len() == 0 && !judge(residual.as_str()) {
            glosses = phrase_texts(residual.as_str());
        } else {
            definitions.push(text("ja", residual.as_str()));
        }
    }
    let r = DictionarySense {
        sense_id,
        marker,
        heading,
        glosses,
        gloss_groups: groups,
        definitions,
        tags,
        examples: Vec::new(),
        notes: Vec::new(),
        relations,
        children: Vec::new(),
    };
    proof {
        assert(examples_view(r.examples@) =~= Seq::<ExampleView>::empty());
        assert(texts_view(r.notes@) =~= Seq::<TextView>::empty());
        assert(senses_view(r.children@) =~= Seq::<SenseView>::empty());
        assert(texts_view(r.definitions@) =~= (if residual@.len() > 0 && !as_glosses {
            seq![("ja"@, None, escaped(normalized_visible(residual@)))]
        } else {
            Seq::<TextView>::empty()
        }));
        assert(sense_view(r).sense_id == seq!['s'] + decimal(index as nat + 1));
    }
    r
}

fn same_marker(a: &Option<String>, b: &Option<String>) -> (r: bool)
    ensures
        r == (opt_view(*a) == opt_view(*b)),
{
    match (a, b) {
        (Some(x), Some(y)) => str_eq(x.as_str(), y.as_str()),
        (None, None) => true,
        _ => false,
    }
}

fn attr_is(element: &HtmlElement, name: &str, value: &str) -> (b: bool)
    ensures
        b == (attr_value(element_view(*element).attrs, name@) == Some(value@)),
{
    match element.attr(name) {
        Some(v) => str_eq(v, value),
        None => false,
    }
}

/// Reads one paragraph into the drafts and the loose notes.
#[verifier::spinoff_prover]
#[verifier::rlimit(40)]
fn read_paragraph_exec<F: Fn(&str) -> bool>(
    element: &HtmlElement,
    drafts: &mut Vec<SenseDraft>,
    loose: &mut Vec<DictionaryText>,
    judge: &F,
    Ghost(ja): Ghost<spec_fn(Seq<char>) -> bool>,
)
    requires
        judges(judge, ja),
        old(drafts)@.len() < usize::MAX,
    ensures
        (drafts_view(final(drafts)@), texts_view(final(loose)@)) == read_paragraph(
            (drafts_view(old(drafts)@), texts_view(old(loose)@)),
            element_view(*element),
            ja,
        ),
        final(drafts)@.len() <= old(drafts)@.len() + 1,
{
    let ghost e = element_view(*element);
    let ghost d0 = drafts@;
    let ghost dv = drafts_view(d0);
    let ghost lv = texts_view(loose@);
    let ghost n = d0.len();
    assert(dv.len() == n);
    if attr_is(element, "data-orgtag", "meaning") {
        let is_note = attr_is(element, "type", "補足") || attr_is(element, "type", "注意");
        proof {
            let mtype = match attr_value(e.attrs, "type"@) {
                Some(t) => t,
                None => Seq::<char>::empty(),
            };
            reveal_strlit("補足");
            reveal_strlit("注意");
            assert(is_note == (mtype == "補足"@ || mtype == "注意"@));
        }
        if is_note {
            let t = element.text();
            let note = text("ja", t.as_str());
            if drafts.len() > 0 {
                let mut last = drafts.pop().unwrap();
                let ghost before = last.sense.notes@;
                last.sense.notes.push(note);
                assert(texts_view(last.sense.notes@) =~= texts_view(before).push(text_view(note)));
                drafts.push(last);
                assert(drafts_view(drafts@) =~= dv.update(n - 1, (dv[n - 1].0, with_note(dv[n - 1].1, text_view(note)))));
            } else {
                let ghost before = loose@;
                loose.push(note);
                assert(texts_view(loose@) =~= texts_view(before).push(text_view(note)));
            }
            return;
        }
        let level = level_exec(element);
        let sense = meaning_sense_of(element, drafts.len(), judge, Ghost(ja));
        let mergeable = sense.marker.is_some() && drafts.len() > 0 && drafts[drafts.len() - 1].level == level
            && same_marker(&drafts[drafts.len() - 1].sense.marker, &sense.marker);
        if mergeable {
            let mut last = drafts.pop().unwrap();
            merge_repeated_sense_group(&mut last.sense, sense);
            drafts.push(last);
            assert(drafts_view(drafts@) =~= dv.update(n - 1, (level as int, merged(dv[n - 1].1, sense_view(sense)))));
        } else {
            drafts.push(SenseDraft { level, sense });
            assert(drafts_view(drafts@) =~= dv.push((level as int, sense_view(sense))));
        }
        return;
    }
    if attr_is(element, "data-orgtag", "example") {
        proof {
            reveal_strlit("meaning");
            reveal_strlit("example");
        }
        let source = first_named_text(element, "jae");
        let translation = first_named_text(element, "ja_cn");
        match source {
            Some(src) => {
                let tr: Option<&str> = match &translation {
                    Some(t) => Some(t.as_str()),
                    None => None,
                };
                match example_of_pub(src.as_str(), tr) {
                    Some(x) => {
                        if drafts.len() > 0 {
                            let mut last = drafts.pop().unwrap();
                            let ghost before = last.sense.examples@;
                            last.sense.examples.push(x);
                            assert(examples_view(last.sense.examples@) =~= examples_view(before).push(
                                crate::dictionary::adapters::daijirin_senses::example_view(x),
                            ));
                            drafts.push(last);
                            assert(drafts_view(drafts@) =~= dv.update(
                                n - 1,
                                (dv[n - 1].0, with_example(dv[n - 1].1, crate::dictionary::adapters::daijirin_senses::example_view(x))),
                            ));
                        }
                    },
                    None => {},
                }
            },
            None => {},
        }
        return;
    }
}

/// Reads meaning and example paragraphs into senses nested by level, with
/// the notes that came before any sense.
pub fn parse_sense_paragraphs<F: Fn(&str) -> bool>(
    paragraphs: &Vec<&HtmlElement>,
    judge: &F,
    Ghost(ja): Ghost<spec_fn(Seq<char>) -> bool>,
) -> (r: (Vec<DictionarySense>, Vec<DictionaryText>))
    requires
        judges(judge, ja),
    ensures
        senses_view(r.0@) == sense_tree(paragraphs_read(refs_view(paragraphs@), ja).0),
        texts_view(r.1@) == paragraphs_read(refs_view(paragraphs@), ja).1,
{
    let ghost pv = refs_view(paragraphs@);
    let mut drafts: Vec<SenseDraft> = Vec::new();
    let mut loose: Vec<DictionaryText> = Vec::new();
    assert(drafts_view(drafts@) =~= Seq::<(int, SenseView)>::empty());
    assert(texts_view(loose@) =~= Seq::<TextView>::empty());
    for i in 0..paragraphs.len()
        invariant
            pv == refs_view(paragraphs@),
            judges(judge, ja),
            drafts@.len() <= i,
            (drafts_view(drafts@), texts_view(loose@)) == paragraphs_read(pv.take(i as int), ja),
    {
        assert(pv.take(i + 1).drop_last() == pv.take(i as int));
        assert(pv.take(i + 1).last() == pv[i as int]);
        assert(pv[i as int] == element_view(*paragraphs@[i as int]));
        read_paragraph_exec(paragraphs[i], &mut drafts, &mut loose, judge, Ghost(ja));
    }
    assert(pv.take(paragraphs.len() as int) == pv);
    let senses = build_sense_tree(drafts);
    (senses, loose)
}

} // verus!
