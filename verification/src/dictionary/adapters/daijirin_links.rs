//! Links in 大辞林 definitions: those of a sense, those that point away from
//! the entry as a whole, and the containers of numbered senses.
use vstd::prelude::*;
use crate::dictionary::adapters::common::{
    anchor_label, entry_target, extract_links, link_targets, link_view, links_from, links_of_anchors,
    links_view, normalize_visible_text,
};
use crate::dictionary::adapters::daijirin::{contains_seq, has_direct_marker_pair, marker_pair};
use crate::dictionary::adapters::daijirin_text::contains_char_pub;
use crate::dictionary::model::DictionaryLink;
use crate::html::{
    attr_value, by_name, collect_text, element_view, lemma_nodes_view_index, lemma_nodes_view_len,
    nodes_view, refs_view, spec_has_class, ElementView, HtmlElement, HtmlNode, NodeView,
};
use crate::import::epub::find_pattern;
use crate::text::{chars_of, push_str, str_eq, string_from_chars, string_from_range};

verus! {

/// The relation links of a text take: antonyms, synonyms or plain references.
pub open spec fn relation_of(text: Seq<char>) -> Seq<char> {
    if text.contains('⇔') || contains_seq(text, "対義"@) {
        "antonym"@
    } else if contains_seq(text, "類語"@) || contains_seq(text, "同義"@) {
        "synonym"@
    } else {
        "reference"@
    }
}

fn str_contains(s: &[char], pat: &str) -> (b: bool)
    ensures
        b == contains_seq(s@, pat@),
{
    find_pattern(s, chars_of(pat).as_slice()).is_some()
}

fn relation_exec(text: &str) -> (r: &'static str)
    ensures
        r@ == relation_of(text@),
{
    let tc = chars_of(text);
    if contains_char_pub(tc.as_slice(), '⇔') || str_contains(tc.as_slice(), "対義") {
        "antonym"
    } else if str_contains(tc.as_slice(), "類語") || str_contains(tc.as_slice(), "同義") {
        "synonym"
    } else {
        "reference"
    }
}

/// The links of a sense body, related as its text says.
pub open spec fn sense_links_of(e: ElementView) -> Seq<(Seq<char>, Seq<char>, Seq<char>)> {
    links_from(by_name(e, "a"@), relation_of(collect_text(e.children, seq![], seq![])))
}

pub fn sense_links(element: &HtmlElement) -> (r: Vec<DictionaryLink>)
    ensures
        links_view(r@) == sense_links_of(element_view(*element)),
{
    let text = element.text();
    let relation = relation_exec(text.as_str());
    extract_links(element, relation)
}

/// The text of nodes outside nested numbered senses.
pub open spec fn scoped_text(nodes: Seq<NodeView>, out: Seq<char>) -> Seq<char>
    decreases nodes,
{
    if nodes.len() == 0 {
        out
    } else {
        let next = match nodes[0] {
            NodeView::Text(t) => out + t,
            NodeView::Element(e) => if marker_pair(e) { out } else { scoped_text(e.children, out) },
        };
        scoped_text(nodes.drop_first(), next)
    }
}

/// The anchors among nodes outside nested numbered senses, not looking inside anchors.
pub open spec fn scoped_anchors(nodes: Seq<NodeView>) -> Seq<ElementView>
    decreases nodes,
{
    if nodes.len() == 0 {
        seq![]
    } else {
        let rest = scoped_anchors(nodes.drop_first());
        match nodes[0] {
            NodeView::Text(_) => rest,
            NodeView::Element(e) => if marker_pair(e) {
                rest
            } else if e.name == "a"@ {
                seq![e] + rest
            } else {
                scoped_anchors(e.children) + rest
            },
        }
    }
}

/// The elements classed `class` among nodes outside nested numbered senses,
/// not looking inside the ones found.
pub open spec fn scoped_by_class(nodes: Seq<NodeView>, class: Seq<char>) -> Seq<ElementView>
    decreases nodes,
{
    if nodes.len() == 0 {
        seq![]
    } else {
        let rest = scoped_by_class(nodes.drop_first(), class);
        match nodes[0] {
            NodeView::Text(_) => rest,
            NodeView::Element(e) => if marker_pair(e) {
                rest
            } else if spec_has_class(e, class) {
                seq![e] + rest
            } else {
                scoped_by_class(e.children, class) + rest
            },
        }
    }
}

pub fn collect_scoped_text(nodes: &[HtmlNode], output: &mut String)
    ensures
        final(output)@ == scoped_text(nodes_view(nodes@), old(output)@),
    decreases nodes@,
{
    let ghost nv = nodes_view(nodes@);
    let ghost start = output@;
    proof {
        lemma_nodes_view_len(nodes@);
        assert(nv.skip(0) == nv);
    }
    for i in 0..nodes.len()
        invariant
            nv == nodes_view(nodes@),
            nv.len() == nodes@.len(),
            scoped_text(nv, start) == scoped_text(nv.skip(i as int), output@),
    {
        proof {
            lemma_nodes_view_index(nodes@, i as int);
            assert(nv.skip(i as int)[0] == nv[i as int]);
            assert(nv.skip(i as int).drop_first() == nv.skip(i + 1));
        }
        match &nodes[i] {
            HtmlNode::Text(text) => {
                push_str(output, text.as_str());
            },
            HtmlNode::Element(element) => {
                let ghost ev = element_view(*element);
                assert(nv[i as int] == NodeView::Element(ev));
                assert(ev.children == nodes_view(element.children@));
                if !has_direct_marker_pair(element) {
                    assert(decreases_to!(nodes@ => nodes@[i as int]));
                    collect_scoped_text(element.children.as_slice(), output);
                }
            },
        }
    }
    assert(nv.skip(nv.len() as int) =~= Seq::<NodeView>::empty());
}

pub fn collect_scoped_anchors<'a>(nodes: &'a [HtmlNode], output: &mut Vec<&'a HtmlElement>)
    ensures
        refs_view(final(output)@) == refs_view(old(output)@) + scoped_anchors(nodes_view(nodes@)),
    decreases nodes@,
{
    let ghost nv = nodes_view(nodes@);
    let ghost start = refs_view(output@);
    proof {
        lemma_nodes_view_len(nodes@);
        assert(nv.skip(0) == nv);
    }
    for i in 0..nodes.len()
        invariant
            nv == nodes_view(nodes@),
            nv.len() == nodes@.len(),
            start + scoped_anchors(nv) == refs_view(output@) + scoped_anchors(nv.skip(i as int)),
    {
        proof {
            lemma_nodes_view_index(nodes@, i as int);
            assert(nv.skip(i as int)[0] == nv[i as int]);
            assert(nv.skip(i as int).drop_first() == nv.skip(i + 1));
        }
        let ghost before = refs_view(output@);
        match &nodes[i] {
            HtmlNode::Text(_) => {},
            HtmlNode::Element(element) => {
                let ghost ev = element_view(*element);
                assert(nv[i as int] == NodeView::Element(ev));
                assert(ev.children == nodes_view(element.children@));
                if has_direct_marker_pair(element) {
                } else if str_eq(element.name.as_str(), "a") {
                    output.push(element);
                    assert(refs_view(output@) =~= before.push(ev));
                    assert(refs_view(output@) + scoped_anchors(nv.skip(i + 1)) =~= before + scoped_anchors(nv.skip(i as int)));
                } else {
                    assert(decreases_to!(nodes@ => nodes@[i as int]));
                    collect_scoped_anchors(element.children.as_slice(), output);
                    assert(refs_view(output@) + scoped_anchors(nv.skip(i + 1)) =~= before + scoped_anchors(nv.skip(i as int)));
                }
            },
        }
    }
    assert(nv.skip(nv.len() as int) =~= Seq::<NodeView>::empty());
    assert(refs_view(output@) + Seq::<ElementView>::empty() =~= refs_view(output@));
}

pub fn collect_scoped_by_class<'a>(nodes: &'a [HtmlNode], class: &str, output: &mut Vec<&'a HtmlElement>)
    ensures
        refs_view(final(output)@) == refs_view(old(output)@) + scoped_by_class(nodes_view(nodes@), class@),
    decreases nodes@,
{
    let ghost nv = nodes_view(nodes@);
    let ghost start = refs_view(output@);
    proof {
        lemma_nodes_view_len(nodes@);
        assert(nv.skip(0) == nv);
    }
    for i in 0..nodes.len()
        invariant
            nv == nodes_view(nodes@),
            nv.len() == nodes@.len(),
            start + scoped_by_class(nv, class@) == refs_view(output@) + scoped_by_class(nv.skip(i as int), class@),
    {
        proof {
            lemma_nodes_view_index(nodes@, i as int);
            assert(nv.skip(i as int)[0] == nv[i as int]);
            assert(nv.skip(i as int).drop_first() == nv.skip(i + 1));
        }
        let ghost before = refs_view(output@);
        match &nodes[i] {
            HtmlNode::Text(_) => {},
            HtmlNode::Element(element) => {
                let ghost ev = element_view(*element);
                assert(nv[i as int] == NodeView::Element(ev));
                assert(ev.children == nodes_view(element.children@));
                if has_direct_marker_pair(element) {
                } else if element.has_class(class) {
                    output.push(element);
                    assert(refs_view(output@) =~= before.push(ev));
                    assert(refs_view(output@) + scoped_by_class(nv.skip(i + 1), class@) =~= before
                        + scoped_by_class(nv.skip(i as int), class@));
                } else {
                    assert(decreases_to!(nodes@ => nodes@[i as int]));
                    collect_scoped_by_class(element.children.as_slice(), class, output);
                    assert(refs_view(output@) + scoped_by_class(nv.skip(i + 1), class@) =~= before
                        + scoped_by_class(nv.skip(i as int), class@));
                }
            },
        }
    }
    assert(nv.skip(nv.len() as int) =~= Seq::<NodeView>::empty());
    assert(refs_view(output@) + Seq::<ElementView>::empty() =~= refs_view(output@));
}

/// The links of a sense body outside its nested numbered senses.
pub open spec fn scoped_links_of(e: ElementView) -> Seq<(Seq<char>, Seq<char>, Seq<char>)> {
    links_from(scoped_anchors(e.children), relation_of(scoped_text(e.children, seq![])))
}

pub fn sense_links_scoped(element: &HtmlElement) -> (r: Vec<DictionaryLink>)
    ensures
        links_view(r@) == scoped_links_of(element_view(*element)),
{
    let mut text = String::new();
    collect_scoped_text(element.children.as_slice(), &mut text);
    let relation = relation_exec(text.as_str());
    let mut anchors: Vec<&HtmlElement> = Vec::new();
    collect_scoped_anchors(element.children.as_slice(), &mut anchors);
    assert(refs_view(anchors@) =~= scoped_anchors(element_view(*element).children));
    links_of_anchors(&anchors, relation)
}

/// The outermost elements that hold numbered senses, not looking into examples.
pub open spec fn top_pairs(e: ElementView) -> Seq<ElementView>
    decreases e,
{
    if marker_pair(e) { seq![e] } else { top_pairs_in(e.children) }
}

pub open spec fn top_pairs_in(nodes: Seq<NodeView>) -> Seq<ElementView>
    decreases nodes,
{
    if nodes.len() == 0 {
        seq![]
    } else {
        let rest = top_pairs_in(nodes.drop_first());
        match nodes[0] {
            NodeView::Text(_) => rest,
            NodeView::Element(c) => if spec_has_class(c, "rei"@) { rest } else { top_pairs(c) + rest },
        }
    }
}

fn collect_top_pairs_in<'a>(nodes: &'a [HtmlNode], output: &mut Vec<&'a HtmlElement>)
    ensures
        refs_view(final(output)@) == refs_view(old(output)@) + top_pairs_in(nodes_view(nodes@)),
    decreases nodes@,
{
    let ghost nv = nodes_view(nodes@);
    let ghost start = refs_view(output@);
    proof {
        lemma_nodes_view_len(nodes@);
        assert(nv.skip(0) == nv);
    }
    for i in 0..nodes.len()
        invariant
            nv == nodes_view(nodes@),
            nv.len() == nodes@.len(),
            start + top_pairs_in(nv) == refs_view(output@) + top_pairs_in(nv.skip(i as int)),
    {
        proof {
            lemma_nodes_view_index(nodes@, i as int);
            assert(nv.skip(i as int)[0] == nv[i as int]);
            assert(nv.skip(i as int).drop_first() == nv.skip(i + 1));
        }
        let ghost before = refs_view(output@);
        match &nodes[i] {
            HtmlNode::Text(_) => {},
            HtmlNode::Element(element) => {
                let ghost ev = element_view(*element);
                assert(nv[i as int] == NodeView::Element(ev));
                assert(ev.children == nodes_view(element.children@));
                if !element.has_class("rei") {
                    assert(top_pairs_in(nv.skip(i as int)) == top_pairs(ev) + top_pairs_in(nv.skip(i + 1)));
                    assert(top_pairs(ev) == if marker_pair(ev) { seq![ev] } else { top_pairs_in(ev.children) });
                    if has_direct_marker_pair(element) {
                        output.push(element);
                        assert(refs_view(output@) =~= before.push(ev));
                    } else {
                        assert(decreases_to!(nodes@ => nodes@[i as int]));
                        collect_top_pairs_in(element.children.as_slice(), output);
                    }
                    assert(refs_view(output@) + top_pairs_in(nv.skip(i + 1)) =~= before + top_pairs_in(nv.skip(i as int)));
                }
            },
        }
    }
    assert(nv.skip(nv.len() as int) =~= Seq::<NodeView>::empty());
    assert(refs_view(output@) + Seq::<ElementView>::empty() =~= refs_view(output@));
}

/// Appends the outermost containers of numbered senses at or below `element`.
pub fn collect_top_pair_containers<'a>(element: &'a HtmlElement, output: &mut Vec<&'a HtmlElement>)
    ensures
        refs_view(final(output)@) == refs_view(old(output)@) + top_pairs(element_view(*element)),
{
    let ghost before = refs_view(output@);
    if has_direct_marker_pair(element) {
        output.push(element);
        assert(refs_view(output@) =~= before.push(element_view(*element)));
        return;
    }
    collect_top_pairs_in(element.children.as_slice(), output);
}

/// The first `entry://` anchor after each `☞` on a line, as candidates.
pub open spec fn nav_candidates(nodes: Seq<NodeView>, nav: bool, seen: bool) -> Seq<(Seq<char>, Seq<char>, Seq<char>)>
    decreases nodes.len(),
{
    if nodes.len() == 0 {
        seq![]
    } else {
        let rest = nodes.drop_first();
        match nodes[0] {
            NodeView::Text(t) => if t.contains('☞') {
                nav_candidates(rest, true, false)
            } else {
                nav_candidates(rest, nav, seen)
            },
            NodeView::Element(e) => if e.name == "br"@ {
                nav_candidates(rest, false, false)
            } else if e.name == "a"@ && nav && !seen {
                match attr_value(e.attrs, "href"@) {
                    Some(h) => if h.len() >= 8 && h.take(8) == "entry://"@ {
                        seq![(h.skip(8), anchor_label(e), "candidate"@)] + nav_candidates(rest, nav, true)
                    } else {
                        nav_candidates(rest, nav, seen)
                    },
                    None => nav_candidates(rest, nav, seen),
                }
            } else {
                nav_candidates(rest, nav, seen)
            },
        }
    }
}

pub fn navigation_candidates(paragraph: &HtmlElement) -> (r: Vec<DictionaryLink>)
    ensures
        links_view(r@) == nav_candidates(element_view(*paragraph).children, false, false),
{
    let nodes = paragraph.children.as_slice();
    let ghost nv = nodes_view(nodes@);
    assert(nv == element_view(*paragraph).children);
    let prefix = chars_of("entry://");
    proof {
        lemma_nodes_view_len(nodes@);
        assert(nv.skip(0) == nv);
        reveal_strlit("entry://");
    }
    let mut links: Vec<DictionaryLink> = Vec::new();
    let mut nav = false;
    let mut seen = false;
    for i in 0..nodes.len()
        invariant
            nv == nodes_view(nodes@),
            nv.len() == nodes@.len(),
            prefix@ == "entry://"@,
            prefix@.len() == 8,
            nav_candidates(nv, false, false) == links_view(links@) + nav_candidates(nv.skip(i as int), nav, seen),
    {
        proof {
            lemma_nodes_view_index(nodes@, i as int);
            assert(nv.skip(i as int)[0] == nv[i as int]);
            assert(nv.skip(i as int).drop_first() == nv.skip(i + 1));
        }
        let ghost before = links_view(links@);
        match &nodes[i] {
            HtmlNode::Text(text) => {
                if contains_char_pub(chars_of(text.as_str()).as_slice(), '☞') {
                    nav = true;
                    seen = false;
                }
            },
            HtmlNode::Element(element) => {
                let ghost ev = element_view(*element);
                assert(nv[i as int] == NodeView::Element(ev));
                if str_eq(element.name.as_str(), "br") {
                    nav = false;
                    seen = false;
                } else if str_eq(element.name.as_str(), "a") && nav && !seen {
                    match element.attr("href") {
                        Some(href) => {
                            let hc = chars_of(href);
                            if hc.len() >= 8 && crate::text::matches_at(hc.as_slice(), 0, prefix.as_slice()) {
                                assert(hc@.subrange(0, 8) == hc@.take(8));
                                let target = string_from_range(hc.as_slice(), 8, hc.len());
                                assert(hc@.subrange(8, hc@.len() as int) == hc@.skip(8));
                                let text = element.text();
                                let label = normalize_visible_text(text.as_str());
                                links.push(DictionaryLink { target, label, relation: String::from_str("candidate") });
                                assert(links_view(links@) =~= before.push(link_view(links@.last())));
                                assert(links_view(links@) + nav_candidates(nv.skip(i + 1), true, true) =~= before
                                    + nav_candidates(nv.skip(i as int), nav, seen));
                                seen = true;
                            } else {
                                assert(hc@.len() >= 8 ==> hc@.subrange(0, 8) == hc@.take(8));
                            }
                        },
                        None => {},
                    }
                }
            },
        }
    }
    assert(nv.skip(nv.len() as int) =~= Seq::<NodeView>::empty());
    assert(links_view(links@) + Seq::<(Seq<char>, Seq<char>, Seq<char>)>::empty() =~= links_view(links@));
    links
}

/// Links not yet among `prev` by target, added in order.
pub open spec fn add_new_targets(prev: Seq<(Seq<char>, Seq<char>, Seq<char>)>, links: Seq<(Seq<char>, Seq<char>, Seq<char>)>) -> Seq<(Seq<char>, Seq<char>, Seq<char>)>
    decreases links.len(),
{
    if links.len() == 0 {
        prev
    } else {
        let acc = add_new_targets(prev, links.drop_last());
        let l = links.last();
        if link_targets(acc).contains(l.0) { acc } else { acc.push(l) }
    }
}

pub open spec fn target_relations(links: Seq<(Seq<char>, Seq<char>, Seq<char>)>) -> Seq<(Seq<char>, Seq<char>)> {
    links.map_values(|l: (Seq<char>, Seq<char>, Seq<char>)| (l.0, l.2))
}

/// Links not yet among `prev` by target and relation, added in order.
pub open spec fn add_new_pairs(prev: Seq<(Seq<char>, Seq<char>, Seq<char>)>, links: Seq<(Seq<char>, Seq<char>, Seq<char>)>) -> Seq<(Seq<char>, Seq<char>, Seq<char>)>
    decreases links.len(),
{
    if links.len() == 0 {
        prev
    } else {
        let acc = add_new_pairs(prev, links.drop_last());
        let l = links.last();
        if target_relations(acc).contains((l.0, l.2)) { acc } else { acc.push(l) }
    }
}

pub open spec fn structural_label(text: Seq<char>) -> bool {
    contains_seq(text, "〈親項目〉"@) || contains_seq(text, "〈子項目〉"@) || contains_seq(text, "〈句項目〉"@)
}

/// The relation of a paragraph's links to the entry.
pub open spec fn structural_relation(text: Seq<char>) -> Seq<char> {
    if contains_seq(text, "〈親項目〉"@) {
        "parent"@
    } else if contains_seq(text, "〈子項目〉"@) {
        "child"@
    } else if contains_seq(text, "〈句項目〉"@) {
        "phrase"@
    } else if text.contains('☞') {
        "candidate"@
    } else {
        "related"@
    }
}

/// The links of paragraphs in order: navigation candidates of `☞` paragraphs,
/// then the links of paragraphs that are not the head paragraph or that name
/// a parent, child or phrase entry.
pub open spec fn structural_links_of(ps: Seq<ElementView>) -> Seq<(Seq<char>, Seq<char>, Seq<char>)>
    decreases ps.len(),
{
    if ps.len() == 0 {
        seq![]
    } else {
        let prev = structural_links_of(ps.drop_last());
        let p = ps.last();
        let text = collect_text(p.children, seq![], seq![]);
        if text.contains('☞') {
            add_new_targets(prev, nav_candidates(p.children, false, false))
        } else if attr_value(p.attrs, "indent"@) == Some("0"@) && !structural_label(text) {
            prev
        } else {
            add_new_pairs(prev, links_from(by_name(p, "a"@), structural_relation(text)))
        }
    }
}

fn has_target(links: &Vec<DictionaryLink>, target: &str) -> (b: bool)
    ensures
        b == link_targets(links_view(links@)).contains(target@),
{
    let ghost lv = links_view(links@);
    for k in 0..links.len()
        invariant
            lv == links_view(links@),
            forall|m: int| 0 <= m < k ==> link_targets(lv)[m] != target@,
    {
        if str_eq(links[k].target.as_str(), target) {
            assert(link_targets(lv)[k as int] == target@);
            return true;
        }
    }
    false
}

fn has_target_relation(links: &Vec<DictionaryLink>, target: &str, relation: &str) -> (b: bool)
    ensures
        b == target_relations(links_view(links@)).contains((target@, relation@)),
{
    let ghost lv = links_view(links@);
    for k in 0..links.len()
        invariant
            lv == links_view(links@),
            forall|m: int| 0 <= m < k ==> target_relations(lv)[m] != (target@, relation@),
    {
        if str_eq(links[k].target.as_str(), target) && str_eq(links[k].relation.as_str(), relation) {
            assert(target_relations(lv)[k as int] == (target@, relation@));
            return true;
        }
    }
    false
}

fn push_new_targets(links: &mut Vec<DictionaryLink>, found: Vec<DictionaryLink>)
    ensures
        links_view(final(links)@) == add_new_targets(links_view(old(links)@), links_view(found@)),
{
    let ghost prev = links_view(links@);
    let ghost fv = links_view(found@);
    let total = found.len();
    assert(fv.len() == total);
    let mut rest = found;
    let mut back: Vec<DictionaryLink> = Vec::new();
    while rest.len() > 0
        invariant
            fv.len() == rest@.len() + back@.len(),
            fv.len() <= usize::MAX,
            forall|k: int| 0 <= k < rest@.len() ==> link_view(#[trigger] rest@[k]) == fv[k],
            forall|k: int| 0 <= k < back@.len() ==> link_view(#[trigger] back@[k]) == fv[fv.len() - 1 - k],
        decreases rest.len(),
    {
        let l = rest.pop().unwrap();
        back.push(l);
    }
    let mut n: usize = 0;
    while back.len() > 0
        invariant
            fv.len() == n + back@.len(),
            fv.len() <= usize::MAX,
            forall|k: int| 0 <= k < back@.len() ==> link_view(#[trigger] back@[k]) == fv[fv.len() - 1 - k],
            links_view(links@) == add_new_targets(prev, fv.take(n as int)),
        decreases back.len(),
    {
        let l = back.pop().unwrap();
        assert(link_view(l) == fv[n as int]);
        assert(fv.take(n + 1).drop_last() == fv.take(n as int));
        assert(fv.take(n + 1).last() == fv[n as int]);
        if !has_target(links, l.target.as_str()) {
            let ghost before = links_view(links@);
            links.push(l);
            assert(links_view(links@) =~= before.push(link_view(l)));
        }
        n += 1;
    }
    assert(fv.take(n as int) == fv);
}

fn push_new_pairs(links: &mut Vec<DictionaryLink>, found: Vec<DictionaryLink>)
    ensures
        links_view(final(links)@) == add_new_pairs(links_view(old(links)@), links_view(found@)),
{
    let ghost prev = links_view(links@);
    let ghost fv = links_view(found@);
    let total = found.len();
    assert(fv.len() == total);
    let mut rest = found;
    let mut back: Vec<DictionaryLink> = Vec::new();
    while rest.len() > 0
        invariant
            fv.len() == rest@.len() + back@.len(),
            fv.len() <= usize::MAX,
            forall|k: int| 0 <= k < rest@.len() ==> link_view(#[trigger] rest@[k]) == fv[k],
            forall|k: int| 0 <= k < back@.len() ==> link_view(#[trigger] back@[k]) == fv[fv.len() - 1 - k],
        decreases rest.len(),
    {
        let l = rest.pop().unwrap();
        back.push(l);
    }
    let mut n: usize = 0;
    while back.len() > 0
        invariant
            fv.len() == n + back@.len(),
            fv.len() <= usize::MAX,
            forall|k: int| 0 <= k < back@.len() ==> link_view(#[trigger] back@[k]) == fv[fv.len() - 1 - k],
            links_view(links@) == add_new_pairs(prev, fv.take(n as int)),
        decreases back.len(),
    {
        let l = back.pop().unwrap();
        assert(link_view(l) == fv[n as int]);
        assert(fv.take(n + 1).drop_last() == fv.take(n as int));
        assert(fv.take(n + 1).last() == fv[n as int]);
        if !has_target_relation(links, l.target.as_str(), l.relation.as_str()) {
            let ghost before = links_view(links@);
            links.push(l);
            assert(links_view(links@) =~= before.push(link_view(l)));
        }
        n += 1;
    }
    assert(fv.take(n as int) == fv);
}

fn structural_relation_exec(text: &str) -> (r: &'static str)
    ensures
        r@ == structural_relation(text@),
{
    let tc = chars_of(text);
    if str_contains(tc.as_slice(), "〈親項目〉") {
        "parent"
    } else if str_contains(tc.as_slice(), "〈子項目〉") {
        "child"
    } else if str_contains(tc.as_slice(), "〈句項目〉") {
        "phrase"
    } else if contains_char_pub(tc.as_slice(), '☞') {
        "candidate"
    } else {
        "related"
    }
}

/// The links that relate a definition as a whole to other entries.
pub fn structural_links(root: &HtmlElement) -> (r: Vec<DictionaryLink>)
    ensures
        links_view(r@) == structural_links_of(by_name(element_view(*root), "p"@)),
{
    let mut paragraphs: Vec<&HtmlElement> = Vec::new();
    root.all_by_name("p", &mut paragraphs);
    let ghost pv = refs_view(paragraphs@);
    assert(pv =~= by_name(element_view(*root), "p"@));
    let mut links: Vec<DictionaryLink> = Vec::new();
    for i in 0..paragraphs.len()
        invariant
            pv == refs_view(paragraphs@),
            links_view(links@) == structural_links_of(pv.take(i as int)),
    {
        let paragraph = paragraphs[i];
        let ghost p = element_view(*paragraph);
        assert(pv.take(i + 1).drop_last() == pv.take(i as int));
        assert(pv.take(i + 1).last() == p);
        let text = paragraph.text();
        let tc = chars_of(text.as_str());
        if contains_char_pub(tc.as_slice(), '☞') {
            let found = navigation_candidates(paragraph);
            push_new_targets(&mut links, found);
        } else {
            let tc2 = chars_of(text.as_str());
            let labelled = str_contains(tc2.as_slice(), "〈親項目〉") || str_contains(tc2.as_slice(), "〈子項目〉")
                || str_contains(tc2.as_slice(), "〈句項目〉");
            let head = match paragraph.attr("indent") {
                Some(v) => str_eq(v, "0"),
                None => false,
            };
            if !(head && !labelled) {
                let relation = structural_relation_exec(text.as_str());
                let found = extract_links(paragraph, relation);
                push_new_pairs(&mut links, found);
            }
        }
    }
    assert(pv.take(paragraphs.len() as int) == pv);
    links
}

} // verus!
