//! A 小学館 definition read into structured occurrences: one per headword
//! record, or one per standalone subheadword.
use vstd::prelude::*;
use crate::dictionary::adapters::common::{
    direct_child_elements, element_children, extract_links, fallback, finish, finished, link_targets, links_from, links_view,
    normalize_reading, normalize_visible_text, normalized_reading, normalized_visible, plain_header, tag,
};
use crate::dictionary::adapters::daijirin::{class_text, contains_seq, element_text};
use crate::dictionary::adapters::daijirin_adapt::forms_view;
use crate::dictionary::adapters::daijirin_senses::{
    examples_view, lemma_senses_view_index, lemma_senses_view_len, sense_view, senses_view, text_view, texts_view, SenseView,
};
use crate::dictionary::adapters::daijirin_text::{opt_str, opt_view, tags_view};
use crate::dictionary::adapters::section_view::{
    item_view, items_view, plain_item, section_view, sections_view, ExampleView, ItemView, LinkView, SectionView, TagView,
    TextView,
};
use crate::dictionary::adapters::shogakukan_gloss::judges;
use crate::dictionary::adapters::shogakukan_senses::{
    first_named_text, named_text, paragraphs_read, parse_sense_paragraphs, plain_example, tags_merged,
};
use crate::dictionary::adapters::shogakukan_text::{
    bound_kind, bound_kind_of, foreign_origin_of, is_kana_word, kana_word, shogakukan_foreign_origin, subhead_content,
    subhead_label, subhead_label_of, subhead_parts,
};
use crate::dictionary::adapters::shogakukan_tree::sense_tree;
use crate::dictionary::adapters::AdaptedOccurrence;
use crate::dictionary::model::{
    DictionaryAdapterDiagnostics, DictionaryExample, DictionaryForm, DictionaryLink, DictionaryOccurrenceHeader,
    DictionarySection, DictionarySectionItem, DictionarySense, DictionaryTag, DictionaryText,
};
use crate::html::{
    attr_value, by_name, collect_text, descendants, element_view, nodes_view, refs_view, spec_has_class, ElementView,
    HtmlElement, HtmlNode, NodeView,
};
use crate::text::{chars_of, decimal, push_decimal, push_str, str_eq};
use crate::token::strings_view;

verus! {

pub open spec fn orgtag(e: ElementView) -> Option<Seq<char>> {
    attr_value(e.attrs, "data-orgtag"@)
}

/// The first element, the element itself first and then down its element
/// children in order, tagged `tag`.
pub open spec fn by_orgtag(e: ElementView, tag: Seq<char>) -> Option<ElementView>
    decreases e,
{
    if orgtag(e) == Some(tag) { Some(e) } else { by_orgtag_in(e.children, tag) }
}

pub open spec fn by_orgtag_in(nodes: Seq<NodeView>, tag: Seq<char>) -> Option<ElementView>
    decreases nodes,
{
    if nodes.len() == 0 {
        None
    } else {
        match nodes[0] {
            NodeView::Element(c) => match by_orgtag(c, tag) {
                Some(x) => Some(x),
                None => by_orgtag_in(nodes.drop_first(), tag),
            },
            NodeView::Text(_) => by_orgtag_in(nodes.drop_first(), tag),
        }
    }
}

fn orgtag_is(element: &HtmlElement, tag: &str) -> (b: bool)
    ensures
        b == (orgtag(element_view(*element)) == Some(tag@)),
{
    match element.attr("data-orgtag") {
        Some(v) => str_eq(v, tag),
        None => false,
    }
}

fn by_orgtag_nodes<'a>(nodes: &'a [HtmlNode], tag: &str) -> (r: Option<&'a HtmlElement>)
    ensures
        match r {
            Some(x) => by_orgtag_in(nodes_view(nodes@), tag@) == Some(element_view(*x)),
            None => by_orgtag_in(nodes_view(nodes@), tag@) is None,
        },
    decreases nodes@,
{
    let ghost nv = nodes_view(nodes@);
    proof {
        crate::html::lemma_nodes_view_len(nodes@);
        assert(nv.skip(0) == nv);
    }
    for i in 0..nodes.len()
        invariant
            nv == nodes_view(nodes@),
            nv.len() == nodes@.len(),
            by_orgtag_in(nv, tag@) == by_orgtag_in(nv.skip(i as int), tag@),
    {
        proof {
            crate::html::lemma_nodes_view_index(nodes@, i as int);
            assert(nv.skip(i as int)[0] == nv[i as int]);
            assert(nv.skip(i as int).drop_first() == nv.skip(i + 1));
        }
        match &nodes[i] {
            HtmlNode::Element(element) => {
                let ghost ev = element_view(*element);
                assert(nv[i as int] == NodeView::Element(ev));
                assert(ev.children == nodes_view(element.children@));
                if orgtag_is(element, tag) {
                    return Some(element);
                }
                assert(by_orgtag(ev, tag@) == by_orgtag_in(ev.children, tag@));
                assert(decreases_to!(nodes@ => nodes@[i as int]));
                let inner = by_orgtag_nodes(element.children.as_slice(), tag);
                if inner.is_some() {
                    return inner;
                }
            },
            HtmlNode::Text(_) => {},
        }
    }
    proof {
        assert(nv.skip(nv.len() as int) =~= Seq::<NodeView>::empty());
    }
    None
}

/// The first element tagged `tag`, the element itself first.
pub fn first_by_orgtag<'a>(element: &'a HtmlElement, tag: &str) -> (r: Option<&'a HtmlElement>)
    ensures
        match r {
            Some(x) => by_orgtag(element_view(*element), tag@) == Some(element_view(*x)),
            None => by_orgtag(element_view(*element), tag@) is None,
        },
{
    if orgtag_is(element, tag) {
        return Some(element);
    }
    by_orgtag_nodes(element.children.as_slice(), tag)
}

/// The paragraphs of the main text, in order: paragraphs among the element
/// children, and those inside other children, leaving out subheadwords.
pub open spec fn main_paragraphs_in(nodes: Seq<NodeView>) -> Seq<ElementView>
    decreases nodes,
{
    if nodes.len() == 0 {
        seq![]
    } else {
        let rest = main_paragraphs_in(nodes.drop_first());
        match nodes[0] {
            NodeView::Element(c) => if orgtag(c) == Some("subhead"@) || orgtag(c) == Some("subheadword"@) {
                rest
            } else if c.name == "p"@ {
                seq![c] + rest
            } else {
                main_paragraphs_in(c.children) + rest
            },
            NodeView::Text(_) => rest,
        }
    }
}

fn main_paragraphs_nodes<'a>(nodes: &'a [HtmlNode], output: &mut Vec<&'a HtmlElement>)
    ensures
        refs_view(final(output)@) == refs_view(old(output)@) + main_paragraphs_in(nodes_view(nodes@)),
    decreases nodes@,
{
    let ghost nv = nodes_view(nodes@);
    let ghost start = refs_view(output@);
    proof {
        crate::html::lemma_nodes_view_len(nodes@);
        assert(nv.skip(0) == nv);
    }
    for i in 0..nodes.len()
        invariant
            nv == nodes_view(nodes@),
            nv.len() == nodes@.len(),
            start + main_paragraphs_in(nv) == refs_view(output@) + main_paragraphs_in(nv.skip(i as int)),
    {
        proof {
            crate::html::lemma_nodes_view_index(nodes@, i as int);
            assert(nv.skip(i as int)[0] == nv[i as int]);
            assert(nv.skip(i as int).drop_first() == nv.skip(i + 1));
        }
        let ghost before = refs_view(output@);
        match &nodes[i] {
            HtmlNode::Element(element) => {
                let ghost ev = element_view(*element);
                assert(ev.children == nodes_view(element.children@));
                if orgtag_is(element, "subhead") || orgtag_is(element, "subheadword") {
                } else if str_eq(element.name.as_str(), "p") {
                    output.push(element);
                    assert(refs_view(output@) =~= before.push(ev));
                    assert(refs_view(output@) + main_paragraphs_in(nv.skip(i + 1)) =~= before + (seq![ev] + main_paragraphs_in(nv.skip(i + 1))));
                } else {
                    assert(decreases_to!(nodes@ => nodes@[i as int]));
                    main_paragraphs_nodes(element.children.as_slice(), output);
                    assert(refs_view(output@) + main_paragraphs_in(nv.skip(i + 1)) =~= before + (main_paragraphs_in(ev.children) + main_paragraphs_in(nv.skip(i + 1))));
                }
            },
            HtmlNode::Text(_) => {},
        }
    }
    proof {
        assert(nv.skip(nv.len() as int) =~= Seq::<NodeView>::empty());
        assert(refs_view(output@) + Seq::<ElementView>::empty() =~= refs_view(output@));
    }
}

/// The paragraphs of an element's main text.
pub fn collect_main_paragraphs<'a>(element: &'a HtmlElement, output: &mut Vec<&'a HtmlElement>)
    ensures
        refs_view(final(output)@) == refs_view(old(output)@) + main_paragraphs_in(element_view(*element).children),
{
    main_paragraphs_nodes(element.children.as_slice(), output);
}

/// The first section element among `els` from position `from` on.
pub open spec fn next_section(els: Seq<ElementView>, from: int) -> Option<ElementView>
    decreases els.len() - from,
{
    if from < 0 || from >= els.len() {
        None
    } else if els[from].name == "section"@ {
        Some(els[from])
    } else {
        next_section(els, from + 1)
    }
}

/// Each `h3` heading among the first `n` elements with the first section after it.
pub open spec fn records_from(els: Seq<ElementView>, n: int) -> Seq<(ElementView, Option<ElementView>)>
    decreases n,
{
    if n <= 0 {
        seq![]
    } else {
        let prev = records_from(els, n - 1);
        if els[n - 1].name == "h3"@ { prev.push((els[n - 1], next_section(els, n))) } else { prev }
    }
}

/// The headword records of a definition: each top-level `h3` with the section after it.
pub open spec fn records_of(root: ElementView) -> Seq<(ElementView, Option<ElementView>)> {
    let els = element_children(root.children);
    records_from(els, els.len() as int)
}

pub open spec fn opt_element_view(o: Option<&HtmlElement>) -> Option<ElementView> {
    match o {
        Some(e) => Some(element_view(*e)),
        None => None,
    }
}

pub open spec fn records_view(v: Seq<(&HtmlElement, Option<&HtmlElement>)>) -> Seq<(ElementView, Option<ElementView>)> {
    v.map_values(|r: (&HtmlElement, Option<&HtmlElement>)| (element_view(*r.0), opt_element_view(r.1)))
}

fn next_section_exec<'a>(elements: &Vec<&'a HtmlElement>, from: usize) -> (r: Option<&'a HtmlElement>)
    ensures
        opt_element_view(r) == next_section(refs_view(elements@), from as int),
{
    let ghost ev = refs_view(elements@);
    if from >= elements.len() {
        return None;
    }
    let mut j = from;
    while j < elements.len()
        invariant
            ev == refs_view(elements@),
            ev.len() == elements@.len(),
            from <= j <= elements.len(),
            next_section(ev, from as int) == next_section(ev, j as int),
        decreases elements.len() - j,
    {
        assert(ev[j as int] == element_view(*elements@[j as int]));
        if str_eq(elements[j].name.as_str(), "section") {
            return Some(elements[j]);
        }
        j += 1;
    }
    None
}

/// The headword records of a definition.
pub fn split_records<'a>(root: &'a HtmlElement) -> (r: Vec<(&'a HtmlElement, Option<&'a HtmlElement>)>)
    ensures
        records_view(r@) == records_of(element_view(*root)),
{
    let elements = direct_child_elements(root);
    let ghost ev = refs_view(elements@);
    let mut records: Vec<(&'a HtmlElement, Option<&'a HtmlElement>)> = Vec::new();
    for i in 0..elements.len()
        invariant
            ev == refs_view(elements@),
            ev.len() == elements@.len(),
            records_view(records@) == records_from(ev, i as int),
    {
        assert(ev[i as int] == element_view(*elements@[i as int]));
        if str_eq(elements[i].name.as_str(), "h3") {
            let body = next_section_exec(&elements, i + 1);
            assert(opt_element_view(body) == next_section(ev, i + 1));
            let ghost before = records@;
            records.push((elements[i], body));
            assert(records_view(records@) =~= records_view(before).push((ev[i as int], next_section(ev, i + 1))));
        }
    }
    records
}

/// The targets of a sense's links and of those of the senses nested under it.
pub open spec fn relation_targets(s: SenseView) -> Seq<Seq<char>>
    decreases s,
{
    link_targets(s.relations) + children_targets(s.children)
}

pub open spec fn children_targets(cs: Seq<SenseView>) -> Seq<Seq<char>>
    decreases cs,
{
    if cs.len() == 0 { seq![] } else { relation_targets(cs[0]) + children_targets(cs.drop_first()) }
}

fn add_relation_targets(sense: &DictionarySense, out: &mut Vec<String>)
    ensures
        strings_view(final(out)@) == strings_view(old(out)@) + relation_targets(sense_view(*sense)),
    decreases sense,
{
    let ghost start = strings_view(out@);
    let ghost lv = links_view(sense.relations@);
    for i in 0..sense.relations.len()
        invariant
            lv == links_view(sense.relations@),
            strings_view(out@) == start + link_targets(lv.take(i as int)),
    {
        let ghost before = strings_view(out@);
        out.push(sense.relations[i].target.clone());
        assert(link_targets(lv.take(i + 1)) =~= link_targets(lv.take(i as int)).push(lv[i as int].0));
        assert(strings_view(out@) =~= before.push(lv[i as int].0));
    }
    assert(lv.take(sense.relations.len() as int) == lv);
    let ghost mid = strings_view(out@);
    let ghost cv = senses_view(sense.children@);
    proof {
        lemma_senses_view_len(sense.children@);
        assert(cv.skip(0) == cv);
    }
    for i in 0..sense.children.len()
        invariant
            cv == senses_view(sense.children@),
            cv.len() == sense.children@.len(),
            mid + children_targets(cv) == strings_view(out@) + children_targets(cv.skip(i as int)),
    {
        proof {
            lemma_senses_view_index(sense.children@, i as int);
            assert(cv.skip(i as int)[0] == cv[i as int]);
            assert(cv.skip(i as int).drop_first() == cv.skip(i + 1));
        }
        let ghost before = strings_view(out@);
        assert(decreases_to!(sense => sense.children));
        assert(decreases_to!(sense.children => sense.children@[i as int]));
        add_relation_targets(&sense.children[i], out);
        assert(strings_view(out@) + children_targets(cv.skip(i + 1)) =~= before + children_targets(cv.skip(i as int)));
    }
    proof {
        assert(cv.skip(cv.len() as int) =~= Seq::<SenseView>::empty());
        assert(strings_view(out@) + Seq::<Seq<char>>::empty() =~= strings_view(out@));
    }
}

/// The link targets of senses and of the senses nested under them.
pub fn nested_relation_targets(senses: &Vec<DictionarySense>) -> (r: Vec<String>)
    ensures
        strings_view(r@) == children_targets(senses_view(senses@)),
{
    let mut out: Vec<String> = Vec::new();
    let ghost cv = senses_view(senses@);
    proof {
        lemma_senses_view_len(senses@);
        assert(cv.skip(0) == cv);
        assert(strings_view(out@) =~= Seq::<Seq<char>>::empty());
    }
    for i in 0..senses.len()
        invariant
            cv == senses_view(senses@),
            cv.len() == senses@.len(),
            children_targets(cv) == strings_view(out@) + children_targets(cv.skip(i as int)),
    {
        proof {
            lemma_senses_view_index(senses@, i as int);
            assert(cv.skip(i as int)[0] == cv[i as int]);
            assert(cv.skip(i as int).drop_first() == cv.skip(i + 1));
        }
        let ghost before = strings_view(out@);
        add_relation_targets(&senses[i], &mut out);
        assert(strings_view(out@) + children_targets(cv.skip(i + 1)) =~= before + children_targets(cv.skip(i as int)));
    }
    proof {
        assert(cv.skip(cv.len() as int) =~= Seq::<SenseView>::empty());
        assert(strings_view(out@) + Seq::<Seq<char>>::empty() =~= strings_view(out@));
    }
    out
}

/// The links whose targets are not among `targets`.
pub open spec fn links_not_in(links: Seq<LinkView>, targets: Seq<Seq<char>>) -> Seq<LinkView>
    decreases links.len(),
{
    if links.len() == 0 {
        seq![]
    } else {
        let prev = links_not_in(links.drop_last(), targets);
        if targets.contains(links.last().0) { prev } else { prev.push(links.last()) }
    }
}

fn contains_string(v: &Vec<String>, x: &str) -> (b: bool)
    ensures
        b == strings_view(v@).contains(x@),
{
    for i in 0..v.len()
        invariant
            forall|k: int| 0 <= k < i ==> strings_view(v@)[k] != x@,
    {
        if str_eq(v[i].as_str(), x) {
            assert(strings_view(v@)[i as int] == x@);
            return true;
        }
    }
    false
}

fn links_without(links: Vec<DictionaryLink>, targets: &Vec<String>) -> (r: Vec<DictionaryLink>)
    ensures
        links_view(r@) == links_not_in(links_view(links@), strings_view(targets@)),
{
    let ghost lv = links_view(links@);
    let mut out: Vec<DictionaryLink> = Vec::new();
    let mut rest = links;
    let ghost all = rest@;
    let n = rest.len();
    let mut i: usize = 0;
    while i < n
        invariant
            i <= n,
            n == all.len(),
            lv == links_view(all),
            rest@ == all.skip(i as int),
            links_view(out@) == links_not_in(lv.take(i as int), strings_view(targets@)),
        decreases n - i,
    {
        let l = rest.remove(0);
        assert(l == all[i as int]);
        assert(rest@ =~= all.skip(i + 1));
        assert(lv.take(i + 1).drop_last() == lv.take(i as int));
        assert(lv.take(i + 1).last() == lv[i as int]);
        if !contains_string(targets, l.target.as_str()) {
            let ghost before = links_view(out@);
            out.push(l);
            assert(links_view(out@) =~= before.push(crate::dictionary::adapters::common::link_view(l)));
        }
        i += 1;
    }
    assert(lv.take(n as int) == lv);
    out
}

/// The examples of standalone example paragraphs, each with its source.
pub open spec fn standalone_examples_of(ps: Seq<ElementView>) -> Seq<ExampleView>
    decreases ps.len(),
{
    if ps.len() == 0 {
        seq![]
    } else {
        let prev = standalone_examples_of(ps.drop_last());
        let p = ps.last();
        if orgtag(p) == Some("example"@) {
            match named_text(p, "jae"@) {
                Some(src) => match plain_example(src, named_text(p, "ja_cn"@)) {
                    Some(x) => prev.push(x),
                    None => prev,
                },
                None => prev,
            }
        } else {
            prev
        }
    }
}

/// The examples of example paragraphs that stand outside any sense.
pub fn standalone_examples(paragraphs: &Vec<&HtmlElement>) -> (r: Vec<DictionaryExample>)
    ensures
        examples_view(r@) == standalone_examples_of(refs_view(paragraphs@)),
{
    let ghost pv = refs_view(paragraphs@);
    let mut out: Vec<DictionaryExample> = Vec::new();
    for i in 0..paragraphs.len()
        invariant
            pv == refs_view(paragraphs@),
            examples_view(out@) == standalone_examples_of(pv.take(i as int)),
    {
        assert(pv.take(i + 1).drop_last() == pv.take(i as int));
        assert(pv.take(i + 1).last() == pv[i as int]);
        assert(pv[i as int] == element_view(*paragraphs@[i as int]));
        let p = paragraphs[i];
        if orgtag_is(p, "example") {
            match first_named_text(p, "jae") {
                Some(src) => {
                    let translation = first_named_text(p, "ja_cn");
                    let tr: Option<&str> = match &translation {
                        Some(t) => Some(t.as_str()),
                        None => None,
                    };
                    match crate::dictionary::adapters::shogakukan_senses::example_of_pub(src.as_str(), tr) {
                        Some(x) => {
                            let ghost before = examples_view(out@);
                            out.push(x);
                            assert(examples_view(out@) =~= before.push(crate::dictionary::adapters::daijirin_senses::example_view(x)));
                        },
                        None => {},
                    }
                },
                None => {},
            }
        }
    }
    assert(pv.take(paragraphs.len() as int) == pv);
    out
}

/// The tag a subheadword's type (or its headword's) gives its item.
pub open spec fn type_tags(el: ElementView, hw: ElementView) -> Seq<TagView> {
    let t = match attr_value(el.attrs, "type"@) {
        Some(v) => Some(v),
        None => attr_value(hw.attrs, "type"@),
    };
    match t {
        Some(v) => seq![("section"@, normalized_visible(v))],
        None => seq![],
    }
}

/// The contents and tags of a subheadword's meaning paragraphs.
pub open spec fn meaning_parts(ps: Seq<ElementView>, tags0: Seq<TagView>) -> (Seq<TextView>, Seq<TagView>)
    decreases ps.len(),
{
    if ps.len() == 0 {
        (seq![], tags0)
    } else {
        let prev = meaning_parts(ps.drop_last(), tags0);
        let p = ps.last();
        if spec_has_class(p, "subhw_meaning"@) {
            let parts = subhead_parts(p);
            (
                match parts.0 {
                    Some(v) => prev.0.push(v),
                    None => prev.0,
                },
                tags_merged(prev.1, parts.1),
            )
        } else {
            prev
        }
    }
}

/// The paragraphs that are not a subheadword's meaning.
pub open spec fn structured_of(ps: Seq<ElementView>) -> Seq<ElementView>
    decreases ps.len(),
{
    if ps.len() == 0 {
        seq![]
    } else {
        let prev = structured_of(ps.drop_last());
        if spec_has_class(ps.last(), "subhw_meaning"@) { prev } else { prev.push(ps.last()) }
    }
}

/// The item a subheadword gives, when it has a non-empty label: its label
/// (with ruby), its meanings and tags, its senses (or, without senses, its
/// examples), and its links not already among its senses' links.
#[verifier::opaque]
pub open spec fn subhead_item(el: ElementView, ja: spec_fn(Seq<char>) -> bool) -> Option<ItemView> {
    match by_orgtag(el, "subheadword"@) {
        None => None,
        Some(hw) => {
            let lbl = subhead_label_of(collect_text(hw.children, seq![], seq![]));
            if lbl.0.len() == 0 {
                None
            } else {
                let ps = by_name(el, "p"@);
                let mp = meaning_parts(ps, type_tags(el, hw));
                let structured = structured_of(ps);
                let senses = sense_tree(paragraphs_read(structured, ja).0);
                Some(ItemView {
                    label: Some(lbl.0),
                    label_html: lbl.1,
                    reading: None,
                    content: mp.0,
                    tags: mp.1,
                    examples: if senses.len() == 0 { standalone_examples_of(structured) } else { seq![] },
                    senses,
                    relations: links_not_in(links_from(by_name(el, "a"@), "reference"@), children_targets(senses)),
                })
            }
        },
    }
}

/// The items of the subheadwords among elements, in order.
pub open spec fn subhead_items(els: Seq<ElementView>, ja: spec_fn(Seq<char>) -> bool) -> Seq<ItemView>
    decreases els.len(),
{
    if els.len() == 0 {
        seq![]
    } else {
        let prev = subhead_items(els.drop_last(), ja);
        if orgtag(els.last()) == Some("subhead"@) {
            match subhead_item(els.last(), ja) {
                Some(v) => prev.push(v),
                None => prev,
            }
        } else {
            prev
        }
    }
}

fn merge_tags(tags: &mut Vec<DictionaryTag>, more: &Vec<DictionaryTag>)
    ensures
        tags_view(final(tags)@) == tags_merged(tags_view(old(tags)@), tags_view(more@)),
{
    let ghost tv = tags_view(more@);
    let ghost tt = tags_view(tags@);
    for i in 0..more.len()
        invariant
            tv == tags_view(more@),
            tags_view(tags@) == tags_merged(tt, tv.take(i as int)),
    {
        assert(tv.take(i + 1).drop_last() == tv.take(i as int));
        assert(tv.take(i + 1).last() == tv[i as int]);
        let t = DictionaryTag { kind: more[i].kind.clone(), label: more[i].label.clone() };
        let mut found = false;
        let ghost cur = tags_view(tags@);
        for k in 0..tags.len()
            invariant
                cur == tags_view(tags@),
                found == cur.take(k as int).contains((t.kind@, t.label@)),
        {
            proof {
                assert(cur.take(k + 1) == cur.take(k as int).push(cur[k as int]));
                crate::dictionary::adapters::shogakukan_text::lemma_push_contains(cur.take(k as int), cur[k as int], (t.kind@, t.label@));
            }
            found = found || (str_eq(tags[k].kind.as_str(), t.kind.as_str()) && str_eq(tags[k].label.as_str(), t.label.as_str()));
        }
        assert(cur.take(tags.len() as int) == cur);
        if !found {
            tags.push(t);
            assert(tags_view(tags@) =~= cur.push((t.kind@, t.label@)));
        }
    }
    assert(tv.take(more.len() as int) == tv);
}

fn type_tags_exec(element: &HtmlElement, headword: &HtmlElement) -> (r: Vec<DictionaryTag>)
    ensures
        tags_view(r@) == type_tags(element_view(*element), element_view(*headword)),
{
    let t = match element.attr("type") {
        Some(v) => Some(v),
        None => headword.attr("type"),
    };
    let mut out: Vec<DictionaryTag> = Vec::new();
    match t {
        Some(v) => {
            out.push(tag("section", v));
            assert(tags_view(out@) =~= seq![("section"@, normalized_visible(v@))]);
        },
        None => {
            assert(tags_view(out@) =~= Seq::<TagView>::empty());
        },
    }
    out
}

/// The item of a subheadword.
#[verifier::spinoff_prover]
#[verifier::rlimit(40)]
fn subhead_item_of<F: Fn(&str) -> bool>(
    element: &HtmlElement,
    judge: &F,
    Ghost(ja): Ghost<spec_fn(Seq<char>) -> bool>,
) -> (r: Option<DictionarySectionItem>)
    requires
        judges(judge, ja),
    ensures
        match r {
            Some(x) => subhead_item(element_view(*element), ja) == Some(item_view(x)),
            None => subhead_item(element_view(*element), ja) is None,
        },
{
    proof {
        reveal(subhead_item);
    }
    let headword = match first_by_orgtag(element, "subheadword") {
        Some(h) => h,
        None => {
            return None;
        },
    };
    let t = headword.text();
    let (label, label_html) = subhead_label(t.as_str());
    if label.as_str().is_empty() {
        return None;
    }
    let mut tags = type_tags_exec(element, headword);
    let mut paragraphs: Vec<&HtmlElement> = Vec::new();
    element.all_by_name("p", &mut paragraphs);
    let ghost pv = refs_view(paragraphs@);
    assert(pv =~= by_name(element_view(*element), "p"@));
    let ghost t0 = tags_view(tags@);
    let mut content: Vec<DictionaryText> = Vec::new();
    let mut structured: Vec<&HtmlElement> = Vec::new();
    for i in 0..paragraphs.len()
        invariant
            pv == refs_view(paragraphs@),
            (texts_view(content@), tags_view(tags@)) == meaning_parts(pv.take(i as int), t0),
            refs_view(structured@) == structured_of(pv.take(i as int)),
    {
        assert(pv.take(i + 1).drop_last() == pv.take(i as int));
        assert(pv.take(i + 1).last() == pv[i as int]);
        assert(pv[i as int] == element_view(*paragraphs@[i as int]));
        let p = paragraphs[i];
        if p.has_class("subhw_meaning") {
            let (value, more) = subhead_content(p);
            match value {
                Some(v) => {
                    let ghost before = texts_view(content@);
                    content.push(v);
                    assert(texts_view(content@) =~= before.push(text_view(v)));
                },
                None => {},
            }
            merge_tags(&mut tags, &more);
        } else {
            let ghost before = refs_view(structured@);
            structured.push(p);
            assert(refs_view(structured@) =~= before.push(element_view(*p)));
        }
    }
    assert(pv.take(paragraphs.len() as int) == pv);
    let (senses, _) = parse_sense_paragraphs(&structured, judge, Ghost(ja));
    proof {
        lemma_senses_view_len(senses@);
    }
    let examples = if senses.len() == 0 { standalone_examples(&structured) } else { Vec::new() };
    assert(examples_view(examples@) =~= (if senses@.len() == 0 {
        standalone_examples_of(refs_view(structured@))
    } else {
        Seq::<ExampleView>::empty()
    }));
    let targets = nested_relation_targets(&senses);
    let links = extract_links(element, "reference");
    let relations = links_without(links, &targets);
    Some(DictionarySectionItem {
        label: Some(label),
        label_html,
        reading: None,
        content,
        tags,
        examples,
        senses,
        relations,
    })
}

/// The items of the subheadwords below an element.
fn subhead_items_of<F: Fn(&str) -> bool>(
    body: &HtmlElement,
    judge: &F,
    Ghost(ja): Ghost<spec_fn(Seq<char>) -> bool>,
) -> (r: Vec<DictionarySectionItem>)
    requires
        judges(judge, ja),
    ensures
        items_view(r@) == subhead_items(descendants(element_view(*body)), ja),
{
    let mut elements: Vec<&HtmlElement> = Vec::new();
    body.all_elements(&mut elements);
    let ghost ev = refs_view(elements@);
    assert(ev =~= descendants(element_view(*body)));
    let mut items: Vec<DictionarySectionItem> = Vec::new();
    for i in 0..elements.len()
        invariant
            ev == refs_view(elements@),
            judges(judge, ja),
            items_view(items@) == subhead_items(ev.take(i as int), ja),
    {
        assert(ev.take(i + 1).drop_last() == ev.take(i as int));
        assert(ev.take(i + 1).last() == ev[i as int]);
        assert(ev[i as int] == element_view(*elements@[i as int]));
        if orgtag_is(elements[i], "subhead") {
            match subhead_item_of(elements[i], judge, Ghost(ja)) {
                Some(x) => {
                    let ghost before = items_view(items@);
                    items.push(x);
                    assert(items_view(items@) =~= before.push(item_view(x)));
                },
                None => {},
            }
        }
    }
    assert(ev.take(elements.len() as int) == ev);
    items
}

/// The headword of a record: its visible text without the reading annotation.
pub open spec fn record_display(h: ElementView) -> Seq<char> {
    normalized_visible(collect_text(h.children, seq![], seq!["pinyin_h"@]))
}

/// The foreign origin the heading's reading annotation gives.
pub open spec fn record_origin(h: ElementView) -> Option<Seq<char>> {
    match class_text(h, "pinyin_h"@) {
        Some(a) => foreign_origin_of(a),
        None => None,
    }
}

/// The reading of a record: for a loanword, its headword when written in
/// kana; else its reading annotation, else the structured reading, normalised.
pub open spec fn record_reading(h: ElementView, structured: Option<Seq<char>>) -> Option<Seq<char>> {
    if record_origin(h) is Some {
        if kana_word(record_display(h)) { Some(normalized_reading(record_display(h))) } else { None }
    } else {
        match class_text(h, "pinyin_h"@) {
            Some(a) => Some(normalized_reading(a)),
            None => match structured {
                Some(s) => Some(normalized_reading(s)),
                None => None,
            },
        }
    }
}

pub open spec fn missing_section_warning() -> Seq<char> {
    "词头后没有找到对应 section"@
}

/// The notes section of loose notes, when there are any.
pub open spec fn notes_section(loose: Seq<TextView>) -> Seq<SectionView> {
    if loose.len() > 0 { seq![("notes"@, Some("说明"@), seq![plain_item(None, loose, seq![], seq![])])] } else { seq![] }
}

/// The sections of a record's body: its subheadwords, then its loose notes.
pub open spec fn record_sections(b: ElementView, ja: spec_fn(Seq<char>) -> bool) -> Seq<SectionView> {
    let items = subhead_items(descendants(b), ja);
    (if items.len() > 0 { seq![("subentries"@, Some("惯用与复合表达"@), items)] } else { seq![] })
        + notes_section(paragraphs_read(main_paragraphs_in(b.children), ja).1)
}

/// `o` is the occurrence, before it is finished for display, that the
/// `index`-th record, with its heading and body, gives.
#[verifier::opaque]
pub open spec fn record_adapted(
    index: nat,
    h: ElementView,
    body: Option<ElementView>,
    structured: Option<Seq<char>>,
    ja: spec_fn(Seq<char>) -> bool,
    o: AdaptedOccurrence,
) -> bool {
    let display = record_display(h);
    let reading = record_reading(h, structured);
    let kind0 = bound_kind_of(reading);
    &&& o.source_record_index == index
    &&& o.occurrence_suffix@ == "record-"@ + decimal(index)
    &&& o.header.display_form@ == display
    &&& opt_view(o.header.canonical_form) == Some(display)
    &&& opt_view(o.header.reading) == reading
    &&& opt_view(o.header.origin) == record_origin(h)
    &&& forms_view(o.header.scoped_forms@) == seq![(display, reading, "canonical"@)]
    &&& o.header.historical_reading is None
    &&& o.header.pronunciations@.len() == 0
    &&& o.header.pos_tags@.len() == 0
    &&& o.header.usage_tags@.len() == 0
    &&& o.header.short_note is None
    &&& o.definition_html@.len() == 0
    &&& o.style_profile@.len() == 0
    &&& o.content_blocks@.len() == 0
    &&& o.diagnostics.omitted@.len() == 0
    &&& match body {
        None => {
            &&& o.entry_kind@ == kind0
            &&& o.senses@.len() == 0
            &&& o.sections@.len() == 0
            &&& o.links@.len() == 0
            &&& o.diagnostics.coverage@ == "partial"@
            &&& strings_view(o.diagnostics.warnings@) == seq![missing_section_warning()]
        },
        Some(b) => {
            let senses = sense_tree(paragraphs_read(main_paragraphs_in(b.children), ja).0);
            let links = links_from(by_name(b, "a"@), "reference"@);
            let kind1 = if kind0 == "lexical"@ && contains_seq(collect_text(b.children, seq![], seq![]), "姓氏"@) {
                "surname"@
            } else {
                kind0
            };
            let navigation = senses.len() == 0 && links.len() > 0;
            &&& senses_view(o.senses@) == senses
            &&& sections_view(o.sections@) == record_sections(b, ja)
            &&& links_view(o.links@) == links
            &&& o.entry_kind@ == if navigation { "navigation"@ } else { kind1 }
            &&& o.diagnostics.coverage@ == if navigation { "navigation"@ } else { "structured"@ }
            &&& o.diagnostics.warnings@.len() == 0
        },
    }
}

fn notes_section_exec(loose: Vec<DictionaryText>) -> (r: Vec<DictionarySection>)
    ensures
        sections_view(r@) == notes_section(texts_view(loose@)),
{
    let mut out: Vec<DictionarySection> = Vec::new();
    if loose.len() > 0 {
        let ghost lv = texts_view(loose@);
        let item = DictionarySectionItem {
            label: None,
            label_html: None,
            reading: None,
            content: loose,
            tags: Vec::new(),
            examples: Vec::new(),
            senses: Vec::new(),
            relations: Vec::new(),
        };
        proof {
            assert(tags_view(item.tags@) =~= Seq::<TagView>::empty());
            assert(examples_view(item.examples@) =~= Seq::<ExampleView>::empty());
            assert(senses_view(item.senses@) =~= Seq::<SenseView>::empty());
            assert(links_view(item.relations@) =~= Seq::<LinkView>::empty());
            assert(item_view(item) == plain_item(None, lv, seq![], seq![]));
        }
        let mut items: Vec<DictionarySectionItem> = Vec::new();
        items.push(item);
        let section = DictionarySection { kind: String::from_str("notes"), label: Some(String::from_str("说明")), items };
        assert(items_view(section.items@) =~= seq![item_view(item)]);
        out.push(section);
        assert(sections_view(out@) =~= seq![section_view(section)]);
        assert(texts_view(loose@).len() == loose@.len());
    } else {
        assert(sections_view(out@) =~= Seq::<SectionView>::empty());
    }
    out
}

fn record_body<F: Fn(&str) -> bool>(
    body: &HtmlElement,
    judge: &F,
    Ghost(ja): Ghost<spec_fn(Seq<char>) -> bool>,
) -> (r: (Vec<DictionarySense>, Vec<DictionarySection>, Vec<DictionaryLink>))
    requires
        judges(judge, ja),
    ensures
        senses_view(r.0@) == sense_tree(paragraphs_read(main_paragraphs_in(element_view(*body).children), ja).0),
        sections_view(r.1@) == record_sections(element_view(*body), ja),
        links_view(r.2@) == links_from(by_name(element_view(*body), "a"@), "reference"@),
{
    let mut paragraphs: Vec<&HtmlElement> = Vec::new();
    collect_main_paragraphs(body, &mut paragraphs);
    assert(refs_view(paragraphs@) =~= main_paragraphs_in(element_view(*body).children));
    let (senses, loose) = parse_sense_paragraphs(&paragraphs, judge, Ghost(ja));
    let items = subhead_items_of(body, judge, Ghost(ja));
    let mut sections: Vec<DictionarySection> = Vec::new();
    if items.len() > 0 {
        let ghost iv = items_view(items@);
        let section = DictionarySection {
            kind: String::from_str("subentries"),
            label: Some(String::from_str("惯用与复合表达")),
            items,
        };
        sections.push(section);
        assert(sections_view(sections@) =~= seq![("subentries"@, Some("惯用与复合表达"@), iv)]);
    } else {
        assert(sections_view(sections@) =~= Seq::<SectionView>::empty());
    }
    let ghost first = sections_view(sections@);
    let mut notes = notes_section_exec(loose);
    sections.append(&mut notes);
    assert(sections_view(sections@) =~= first + notes_section(paragraphs_read(main_paragraphs_in(element_view(*body).children), ja).1));
    let links = extract_links(body, "reference");
    (senses, sections, links)
}

fn str_contains(s: &str, pat: &str) -> (b: bool)
    ensures
        b == contains_seq(s@, pat@),
{
    crate::import::epub::find_pattern(chars_of(s).as_slice(), chars_of(pat).as_slice()).is_some()
}

/// Reads the `index`-th headword record into an occurrence finished for display.
#[verifier::spinoff_prover]
#[verifier::rlimit(60)]
pub fn adapt_record<F: Fn(&str) -> bool>(
    index: usize,
    heading: &HtmlElement,
    body: Option<&HtmlElement>,
    structured_reading: Option<&str>,
    fallback_source: &str,
    judge: &F,
    Ghost(ja): Ghost<spec_fn(Seq<char>) -> bool>,
) -> (r: AdaptedOccurrence)
    requires
        judges(judge, ja),
    ensures
        exists|o: AdaptedOccurrence|
            record_adapted(index as nat, element_view(*heading), opt_element_view(body), opt_str(structured_reading), ja, o)
                && #[trigger] finished(o, "shogakukan"@, fallback_source@, r),
{
    let ghost h = element_view(*heading);
    let excluded: Vec<&str> = vec!["pinyin_h"];
    assert(excluded@.map_values(|s: &str| s@) =~= seq!["pinyin_h"@]);
    let raw = heading.text_excluding_classes(excluded.as_slice());
    let display = normalize_visible_text(raw.as_str());
    let annotation = crate::dictionary::adapters::daijirin::first_class_text(heading, "pinyin_h");
    let origin = match &annotation {
        Some(a) => shogakukan_foreign_origin(a.as_str()),
        None => None,
    };
    let reading = if origin.is_some() {
        if is_kana_word(display.as_str()) { Some(normalize_reading(display.as_str())) } else { None }
    } else {
        match &annotation {
            Some(a) => Some(normalize_reading(a.as_str())),
            None => match structured_reading {
                Some(s) => Some(normalize_reading(s)),
                None => None,
            },
        }
    };
    assert(opt_view(reading) == record_reading(h, opt_str(structured_reading)));
    let reading_ref: Option<&str> = match &reading {
        Some(v) => Some(v.as_str()),
        None => None,
    };
    let kind0 = bound_kind(reading_ref);
    proof {
        reveal_strlit("record-");
    }
    let mut suffix = String::from_str("record-");
    push_decimal(&mut suffix, index as u64);
    let reading_copy = match &reading {
        Some(v) => Some(v.clone()),
        None => None,
    };
    let mut forms: Vec<DictionaryForm> = Vec::new();
    forms.push(DictionaryForm { form: display.clone(), reading: reading_copy, kind: String::from_str("canonical") });
    assert(forms_view(forms@) =~= seq![(display@, opt_view(reading), "canonical"@)]);
    let header = DictionaryOccurrenceHeader {
        display_form: display.clone(),
        canonical_form: Some(display),
        reading,
        historical_reading: None,
        pronunciations: Vec::new(),
        scoped_forms: forms,
        pos_tags: Vec::new(),
        usage_tags: Vec::new(),
        origin,
        short_note: None,
    };
    let occurrence = match body {
        None => {
            let mut warnings: Vec<String> = Vec::new();
            warnings.push(String::from_str("词头后没有找到对应 section"));
            assert(strings_view(warnings@) =~= seq![missing_section_warning()]);
            AdaptedOccurrence {
                source_record_index: index,
                occurrence_suffix: suffix,
                entry_kind: String::from_str(kind0),
                header,
                senses: Vec::new(),
                sections: Vec::new(),
                links: Vec::new(),
                definition_html: String::new(),
                style_profile: String::new(),
                content_blocks: Vec::new(),
                diagnostics: DictionaryAdapterDiagnostics {
                    coverage: String::from_str("partial"),
                    warnings,
                    omitted: Vec::new(),
                },
            }
        },
        Some(b) => {
            let (senses, sections, links) = record_body(b, judge, Ghost(ja));
            let visible = b.text();
            let kind1: &str = if str_eq(kind0, "lexical") && str_contains(visible.as_str(), "姓氏") { "surname" } else { kind0 };
            proof {
                lemma_senses_view_len(senses@);
                assert(links_view(links@).len() == links@.len());
            }
            let navigation = senses.len() == 0 && links.len() > 0;
            AdaptedOccurrence {
                source_record_index: index,
                occurrence_suffix: suffix,
                entry_kind: String::from_str(if navigation { "navigation" } else { kind1 }),
                header,
                senses,
                sections,
                links,
                definition_html: String::new(),
                style_profile: String::new(),
                content_blocks: Vec::new(),
                diagnostics: DictionaryAdapterDiagnostics {
                    coverage: String::from_str(if navigation { "navigation" } else { "structured" }),
                    warnings: Vec::new(),
                    omitted: Vec::new(),
                },
            }
        },
    };
    proof {
        reveal(record_adapted);
    }
    assert(record_adapted(index as nat, h, opt_element_view(body), opt_str(structured_reading), ja, occurrence));
    let ghost o = occurrence;
    let r = finish(occurrence, "shogakukan", fallback_source);
    assert(finished(o, "shogakukan"@, fallback_source@, r));
    r
}

/// The headword of a standalone subheadword: its label, else the indexed headword.
pub open spec fn standalone_display(sub: ElementView, indexed: Seq<char>) -> Seq<char> {
    let d0 = match by_orgtag(sub, "subheadword"@) {
        Some(h) => subhead_label_of(collect_text(h.children, seq![], seq![])).0,
        None => indexed,
    };
    if d0.len() == 0 { indexed } else { d0 }
}

pub open spec fn form_names(forms: Seq<(Seq<char>, Option<Seq<char>>, Seq<char>)>) -> Seq<Seq<char>> {
    forms.map_values(|f: (Seq<char>, Option<Seq<char>>, Seq<char>)| f.0)
}

/// The forms with the original spellings among elements added: each
/// subheadword typed `複合語原綴` whose text is not the headword or a form already there.
pub open spec fn original_forms(
    forms: Seq<(Seq<char>, Option<Seq<char>>, Seq<char>)>,
    els: Seq<ElementView>,
    display: Seq<char>,
) -> Seq<(Seq<char>, Option<Seq<char>>, Seq<char>)>
    decreases els.len(),
{
    if els.len() == 0 {
        forms
    } else {
        let prev = original_forms(forms, els.drop_last(), display);
        let el = els.last();
        let v = element_text(el);
        if orgtag(el) == Some("subheadword"@) && attr_value(el.attrs, "type"@) == Some("複合語原綴"@) && v.len() > 0 && v
            != display && !form_names(prev).contains(v) {
            prev.push((v, None, "original"@))
        } else {
            prev
        }
    }
}

/// `o` is the occurrence, before it is finished for display, that the
/// `index`-th standalone subheadword of a definition gives.
#[verifier::opaque]
pub open spec fn standalone_adapted(
    index: nat,
    indexed: Seq<char>,
    sub: ElementView,
    root: ElementView,
    structured: Option<Seq<char>>,
    ja: spec_fn(Seq<char>) -> bool,
    o: AdaptedOccurrence,
) -> bool {
    let display = standalone_display(sub, indexed);
    let reading = match structured {
        Some(s) => Some(normalized_reading(s)),
        None => None,
    };
    let read = paragraphs_read(main_paragraphs_in(sub.children), ja);
    &&& o.source_record_index == index
    &&& o.occurrence_suffix@ == "standalone-subhead-"@ + decimal(index)
    &&& o.entry_kind@ == if attr_value(sub.attrs, "type"@) == Some("慣用句"@) { "phrase"@ } else { "lexical"@ }
    &&& o.header.display_form@ == display
    &&& opt_view(o.header.canonical_form) == Some(display)
    &&& opt_view(o.header.reading) == reading
    &&& forms_view(o.header.scoped_forms@) == original_forms(
        seq![(display, reading, "canonical"@)],
        element_children(sub.children),
        display,
    )
    &&& o.header.historical_reading is None
    &&& o.header.pronunciations@.len() == 0
    &&& o.header.pos_tags@.len() == 0
    &&& o.header.usage_tags@.len() == 0
    &&& o.header.origin is None
    &&& o.header.short_note is None
    &&& senses_view(o.senses@) == sense_tree(read.0)
    &&& sections_view(o.sections@) == notes_section(read.1)
    &&& links_view(o.links@) == links_from(by_name(root, "a"@), "reference"@)
    &&& o.definition_html@.len() == 0
    &&& o.style_profile@.len() == 0
    &&& o.content_blocks@.len() == 0
    &&& o.diagnostics.coverage@ == "structured"@
    &&& o.diagnostics.warnings@.len() == 0
    &&& o.diagnostics.omitted@.len() == 0
}

fn has_form(forms: &Vec<DictionaryForm>, v: &str) -> (b: bool)
    ensures
        b == form_names(forms_view(forms@)).contains(v@),
{
    let ghost names = form_names(forms_view(forms@));
    for i in 0..forms.len()
        invariant
            names == form_names(forms_view(forms@)),
            forall|k: int| 0 <= k < i ==> names[k] != v@,
    {
        if str_eq(forms[i].form.as_str(), v) {
            assert(names[i as int] == v@);
            return true;
        }
    }
    false
}

fn add_original_forms(forms: &mut Vec<DictionaryForm>, subhead: &HtmlElement, display: &str)
    ensures
        forms_view(final(forms)@) == original_forms(forms_view(old(forms)@), element_children(element_view(*subhead).children), display@),
{
    let children = direct_child_elements(subhead);
    let ghost cv = refs_view(children@);
    let ghost start = forms_view(forms@);
    for i in 0..children.len()
        invariant
            cv == refs_view(children@),
            cv == element_children(element_view(*subhead).children),
            forms_view(forms@) == original_forms(start, cv.take(i as int), display@),
    {
        assert(cv.take(i + 1).drop_last() == cv.take(i as int));
        assert(cv.take(i + 1).last() == cv[i as int]);
        assert(cv[i as int] == element_view(*children@[i as int]));
        let el = children[i];
        let typed = match el.attr("type") {
            Some(t) => str_eq(t, "複合語原綴"),
            None => false,
        };
        if orgtag_is(el, "subheadword") && typed {
            let t = el.text();
            let v = normalize_visible_text(t.as_str());
            if !v.as_str().is_empty() && !str_eq(v.as_str(), display) && !has_form(forms, v.as_str()) {
                let ghost before = forms_view(forms@);
                let f = DictionaryForm { form: v, reading: None, kind: String::from_str("original") };
                forms.push(f);
                assert(forms_view(forms@) =~= before.push(crate::dictionary::adapters::daijirin_adapt::form_view(f)));
            }
        }
    }
    assert(cv.take(children.len() as int) == cv);
}

/// Reads the `index`-th standalone subheadword of a definition into an
/// occurrence finished for display.
#[verifier::spinoff_prover]
#[verifier::rlimit(60)]
pub fn adapt_standalone_subhead<F: Fn(&str) -> bool>(
    index: usize,
    indexed_headword: &str,
    subhead: &HtmlElement,
    root: &HtmlElement,
    structured_reading: Option<&str>,
    fallback_source: &str,
    judge: &F,
    Ghost(ja): Ghost<spec_fn(Seq<char>) -> bool>,
) -> (r: AdaptedOccurrence)
    requires
        judges(judge, ja),
    ensures
        exists|o: AdaptedOccurrence|
            standalone_adapted(
                index as nat,
                indexed_headword@,
                element_view(*subhead),
                element_view(*root),
                opt_str(structured_reading),
                ja,
                o,
            ) && #[trigger] finished(o, "shogakukan"@, fallback_source@, r),
{
    let display0 = match first_by_orgtag(subhead, "subheadword") {
        Some(h) => {
            let t = h.text();
            let (label, _) = subhead_label(t.as_str());
            label
        },
        None => String::from_str(indexed_headword),
    };
    let display = if display0.as_str().is_empty() { String::from_str(indexed_headword) } else { display0 };
    let phrase = match subhead.attr("type") {
        Some(t) => str_eq(t, "慣用句"),
        None => false,
    };
    let reading = match structured_reading {
        Some(s) => Some(normalize_reading(s)),
        None => None,
    };
    let reading_copy = match &reading {
        Some(v) => Some(v.clone()),
        None => None,
    };
    let mut forms: Vec<DictionaryForm> = Vec::new();
    forms.push(DictionaryForm { form: display.clone(), reading: reading_copy, kind: String::from_str("canonical") });
    assert(forms_view(forms@) =~= seq![(display@, opt_view(reading), "canonical"@)]);
    add_original_forms(&mut forms, subhead, display.as_str());
    proof {
        reveal_strlit("standalone-subhead-");
    }
    let mut suffix = String::from_str("standalone-subhead-");
    push_decimal(&mut suffix, index as u64);
    let mut paragraphs: Vec<&HtmlElement> = Vec::new();
    collect_main_paragraphs(subhead, &mut paragraphs);
    assert(refs_view(paragraphs@) =~= main_paragraphs_in(element_view(*subhead).children));
    let (senses, loose) = parse_sense_paragraphs(&paragraphs, judge, Ghost(ja));
    let sections = notes_section_exec(loose);
    let links = extract_links(root, "reference");
    let occurrence = AdaptedOccurrence {
        source_record_index: index,
        occurrence_suffix: suffix,
        entry_kind: String::from_str(if phrase { "phrase" } else { "lexical" }),
        header: DictionaryOccurrenceHeader {
            display_form: display.clone(),
            canonical_form: Some(display),
            reading,
            historical_reading: None,
            pronunciations: Vec::new(),
            scoped_forms: forms,
            pos_tags: Vec::new(),
            usage_tags: Vec::new(),
            origin: None,
            short_note: None,
        },
        senses,
        sections,
        links,
        definition_html: String::new(),
        style_profile: String::new(),
        content_blocks: Vec::new(),
        diagnostics: DictionaryAdapterDiagnostics {
            coverage: String::from_str("structured"),
            warnings: Vec::new(),
            omitted: Vec::new(),
        },
    };
    proof {
        reveal(standalone_adapted);
    }
    assert(standalone_adapted(
        index as nat,
        indexed_headword@,
        element_view(*subhead),
        element_view(*root),
        opt_str(structured_reading),
        ja,
        occurrence,
    ));
    let ghost o = occurrence;
    let r = finish(occurrence, "shogakukan", fallback_source);
    assert(finished(o, "shogakukan"@, fallback_source@, r));
    r
}

/// The subheadwords among a definition's top-level elements.
pub open spec fn standalone_subheads(els: Seq<ElementView>) -> Seq<ElementView>
    decreases els.len(),
{
    if els.len() == 0 {
        seq![]
    } else {
        let prev = standalone_subheads(els.drop_last());
        if orgtag(els.last()) == Some("subhead"@) { prev.push(els.last()) } else { prev }
    }
}

/// A language judgement the caller's function answers by.
pub open spec fn judgement<F: Fn(&str) -> bool>(judge: &F) -> spec_fn(Seq<char>) -> bool {
    choose|ja: spec_fn(Seq<char>) -> bool| judges(judge, ja)
}

/// `r` is the fallback occurrence of a definition (as `common::fallback` makes it).
pub open spec fn is_fallback(
    r: AdaptedOccurrence,
    profile: Seq<char>,
    display: Seq<char>,
    reading: Option<Seq<char>>,
    definition: Seq<char>,
    kind: Seq<char>,
) -> bool {
    &&& r.source_record_index == 0
    &&& r.occurrence_suffix@.len() == 0
    &&& r.entry_kind@ == kind
    &&& plain_header(r.header, display, reading)
    &&& r.senses@.len() == 0
    &&& r.sections@.len() == 0
    &&& r.links@.len() == 0
    &&& r.definition_html@ == crate::dictionary::adapters::common::sanitized_fallback(definition)
    &&& r.style_profile@ == profile
    &&& crate::dictionary::adapters::common::rich_text_blocks(r.content_blocks@, r.definition_html@)
    &&& r.diagnostics.coverage@ == "fallback"@
    &&& strings_view(r.diagnostics.warnings@) == seq![crate::dictionary::adapters::common::fallback_warning()]
    &&& r.diagnostics.omitted@.len() == 0
}

/// The structured reading, which only a definition of one record shares with it.
pub open spec fn shared_reading(records: nat, structured: Option<Seq<char>>) -> Option<Seq<char>> {
    if records == 1 { structured } else { None }
}

/// `r` is the `index`-th record read and finished for display.
pub open spec fn record_read(
    index: nat,
    rec: (ElementView, Option<ElementView>),
    structured: Option<Seq<char>>,
    definition: Seq<char>,
    ja: spec_fn(Seq<char>) -> bool,
    r: AdaptedOccurrence,
) -> bool {
    exists|o: AdaptedOccurrence| record_adapted(index, rec.0, rec.1, structured, ja, o) && #[trigger] finished(o, "shogakukan"@, definition, r)
}

/// `r` is the `index`-th standalone subheadword read and finished for display.
pub open spec fn standalone_read(
    index: nat,
    indexed: Seq<char>,
    sub: ElementView,
    root: ElementView,
    structured: Option<Seq<char>>,
    definition: Seq<char>,
    ja: spec_fn(Seq<char>) -> bool,
    r: AdaptedOccurrence,
) -> bool {
    exists|o: AdaptedOccurrence| standalone_adapted(index, indexed, sub, root, structured, ja, o) && #[trigger] finished(o, "shogakukan"@, definition, r)
}

/// What a 小学館 definition, parsed into `root`, gives with the judgement `ja`:
/// one occurrence per headword record; without records, one per standalone
/// subheadword; without those, the fallback occurrence.
pub open spec fn shogakukan_adapted(
    root: ElementView,
    indexed: Seq<char>,
    structured: Option<Seq<char>>,
    definition: Seq<char>,
    ja: spec_fn(Seq<char>) -> bool,
    r: Seq<AdaptedOccurrence>,
) -> bool {
    let recs = records_of(root);
    let subs = standalone_subheads(element_children(root.children));
    if recs.len() > 0 {
        &&& r.len() == recs.len()
        &&& forall|i: int|
            0 <= i < recs.len() ==> #[trigger] record_read(i as nat, recs[i], shared_reading(recs.len(), structured), definition, ja, r[i])
    } else if subs.len() > 0 {
        &&& r.len() == subs.len()
        &&& forall|i: int| 0 <= i < subs.len() ==> #[trigger] standalone_read(i as nat, indexed, subs[i], root, structured, definition, ja, r[i])
    } else {
        r.len() == 1 && is_fallback(r[0], "shogakukan"@, indexed, structured, definition, "unknown"@)
    }
}

fn subheads_of<'a>(root: &'a HtmlElement) -> (r: Vec<&'a HtmlElement>)
    ensures
        refs_view(r@) == standalone_subheads(element_children(element_view(*root).children)),
{
    let children = direct_child_elements(root);
    let ghost cv = refs_view(children@);
    let mut out: Vec<&'a HtmlElement> = Vec::new();
    for i in 0..children.len()
        invariant
            cv == refs_view(children@),
            refs_view(out@) == standalone_subheads(cv.take(i as int)),
    {
        assert(cv.take(i + 1).drop_last() == cv.take(i as int));
        assert(cv.take(i + 1).last() == cv[i as int]);
        assert(cv[i as int] == element_view(*children@[i as int]));
        if orgtag_is(children[i], "subhead") {
            let ghost before = refs_view(out@);
            out.push(children[i]);
            assert(refs_view(out@) =~= before.push(cv[i as int]));
        }
    }
    assert(cv.take(children.len() as int) == cv);
    out
}

/// Reads a 小学館 definition, already parsed into `root`, into occurrences
/// finished for display; whether a text is Japanese is asked of `judge`.
pub fn adapt<F: Fn(&str) -> bool>(
    root: &HtmlElement,
    indexed_headword: &str,
    raw_headword: &str,
    structured_reading: Option<&str>,
    definition: &str,
    judge: &F,
) -> (r: Vec<AdaptedOccurrence>)
    requires
        exists|ja: spec_fn(Seq<char>) -> bool| judges(judge, ja),
    ensures
        shogakukan_adapted(element_view(*root), indexed_headword@, opt_str(structured_reading), definition@, judgement(judge), r@),
{
    let ghost ja = judgement(judge);
    let ghost rv = element_view(*root);
    let records = split_records(root);
    let ghost recs = records_of(rv);
    assert(records_view(records@) == recs);
    let mut out: Vec<AdaptedOccurrence> = Vec::new();
    if records.len() == 0 {
        let subheads = subheads_of(root);
        let ghost subs = refs_view(subheads@);
        if subheads.len() > 0 {
            let n = subheads.len();
            let mut i: usize = 0;
            while i < n
                invariant
                    n == subheads@.len(),
                    i <= n,
                    subs == refs_view(subheads@),
                    rv == element_view(*root),
                    judges(judge, ja),
                    out@.len() == i,
                    forall|k: int|
                        0 <= k < i ==> #[trigger] standalone_read(
                            k as nat,
                            indexed_headword@,
                            subs[k],
                            rv,
                            opt_str(structured_reading),
                            definition@,
                            ja,
                            out@[k],
                        ),
                decreases n - i,
            {
                assert(subs[i as int] == element_view(*subheads@[i as int]));
                let occurrence = adapt_standalone_subhead(i, indexed_headword, subheads[i], root, structured_reading, definition, judge, Ghost(ja));
                assert(standalone_read(i as nat, indexed_headword@, subs[i as int], rv, opt_str(structured_reading), definition@, ja, occurrence));
                let ghost before = out@;
                out.push(occurrence);
                assert forall|k: int| 0 <= k < i + 1 implies #[trigger] standalone_read(
                    k as nat,
                    indexed_headword@,
                    subs[k],
                    rv,
                    opt_str(structured_reading),
                    definition@,
                    ja,
                    out@[k],
                ) by {
                    if k < i {
                        assert(out@[k] == before[k]);
                    }
                }
                i += 1;
            }
            return out;
        }
        out.push(fallback("shogakukan", indexed_headword, structured_reading, definition, "unknown"));
        proof {
            assert(strings_view(out@[0].diagnostics.warnings@) =~= seq![crate::dictionary::adapters::common::fallback_warning()]);
        }
        return out;
    }
    let single = records.len() == 1;
    let reading: Option<&str> = if single { structured_reading } else { None };
    let n = records.len();
    let mut i: usize = 0;
    while i < n
        invariant
            n == records@.len(),
            i <= n,
            records_view(records@) == recs,
            recs.len() == records@.len(),
            judges(judge, ja),
            out@.len() == i,
            opt_str(reading) == shared_reading(recs.len(), opt_str(structured_reading)),
            forall|k: int| 0 <= k < i ==> #[trigger] record_read(k as nat, recs[k], opt_str(reading), definition@, ja, out@[k]),
        decreases n - i,
    {
        let (heading, body) = records[i];
        assert(recs[i as int] == (element_view(*heading), opt_element_view(body)));
        let occurrence = adapt_record(i, heading, body, reading, definition, judge, Ghost(ja));
        assert(record_read(i as nat, recs[i as int], opt_str(reading), definition@, ja, occurrence));
        let ghost before = out@;
        out.push(occurrence);
        assert forall|k: int| 0 <= k < i + 1 implies #[trigger] record_read(k as nat, recs[k], opt_str(reading), definition@, ja, out@[k]) by {
            if k < i {
                assert(out@[k] == before[k]);
            }
        }
        i += 1;
    }
    out
}

} // verus!
