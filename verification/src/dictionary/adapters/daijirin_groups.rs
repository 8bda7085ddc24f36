//! The sense groups of 大辞林 definitions: groups under numeral headings, the
//! groups under boxed numerals inside them, and single definitions.
use vstd::prelude::*;
use crate::dictionary::adapters::common::{normalize_visible_text, normalized_visible};
use crate::dictionary::adapters::daijirin::{
    auxiliary_heading, element_text, is_auxiliary_section_deco, is_rect_deco, rect_deco,
};
use crate::dictionary::adapters::daijirin_notes::group_text_or_empty;
use crate::dictionary::adapters::daijirin_text::{first_captures, group_at, opt_view};
use crate::html::{
    clone_element, clone_nodes, collect_text, element_view, lemma_nodes_view_index, lemma_nodes_view_len,
    nodes_text, nodes_view, spec_has_class, ElementView, HtmlElement, HtmlNode, NodeView,
};
use crate::text::{groups_view, regex_captures, str_eq};
use crate::dictionary::adapters::common::{html_text, tag};
use crate::dictionary::adapters::daijirin::{
    local_grammar_labels, grammar_labels_of, normalize_sense_marker, sense_marker,
};
use crate::dictionary::adapters::daijirin_links::{
    collect_top_pair_containers, sense_links, sense_links_of, top_pairs,
};
use crate::dictionary::adapters::daijirin_notes::{
    clean_definition, definition_form_labels, definition_notes, extract_trailing_notes, form_tags,
    internal_reference_label, internal_sense_reference, promote_parenthetical_heading,
};
use crate::dictionary::adapters::daijirin_senses::{
    body_definition, elem_size, examples_view, group_examples, internal_link, ja_example_views, ja_view,
    ja_views, lemma_examples_view_pub, lemma_ja_texts_view_pub, lemma_promoted_view_pub, lemma_senses_view_append,
    lemma_senses_view_push, lemma_top_pairs_bound, nested_senses, next_counter, parse_containers,
    promote_view, sense_id_of, sense_id_string_pub, sense_view, senses_view, texts_view, SenseView,
};
use crate::dictionary::adapters::daijirin_text::{
    body_inline, body_inline_html, expand_placeholders, opt_str, parse_examples, tags_view,
};
use crate::dictionary::adapters::common::{link_view, links_view};
use crate::dictionary::model::{DictionaryExample, DictionaryLink, DictionarySense, DictionaryTag, DictionaryText};
use crate::html::{attr_value, by_class, by_name, refs_view};
use crate::dictionary::adapters::daijirin::{has_major_deco, is_major_deco, major_deco, marker_pair, has_direct_marker_pair};
use crate::dictionary::adapters::common::element_children;

verus! {

/// Where the first line break is among nodes.
pub open spec fn first_br(ns: Seq<NodeView>) -> Option<int>
    decreases ns.len(),
{
    if ns.len() == 0 {
        None
    } else if ns[0] matches NodeView::Element(e) && e.name == "br"@ {
        Some(0)
    } else {
        match first_br(ns.drop_first()) {
            Some(k) => Some(k + 1),
            None => None,
        }
    }
}

proof fn lemma_first_br(ns: Seq<NodeView>)
    ensures
        match first_br(ns) {
            Some(k) => 0 <= k < ns.len(),
            None => true,
        },
    decreases ns.len(),
{
    if ns.len() > 0 {
        lemma_first_br(ns.drop_first());
    }
}

fn first_br_exec(nodes: &[HtmlNode]) -> (r: Option<usize>)
    ensures
        match r {
            Some(k) => first_br(nodes_view(nodes@)) == Some(k as int) && k < nodes.len(),
            None => first_br(nodes_view(nodes@)) is None,
        },
{
    let ghost nv = nodes_view(nodes@);
    proof {
        lemma_nodes_view_len(nodes@);
        assert(nv.skip(0) == nv);
    }
    let mut i: usize = 0;
    while i < nodes.len()
        invariant
            i <= nodes.len(),
            nv == nodes_view(nodes@),
            nv.len() == nodes@.len(),
            first_br(nv) == match first_br(nv.skip(i as int)) {
                Some(k) => Some(k + i),
                None => None,
            },
        decreases nodes.len() - i,
    {
        proof {
            lemma_nodes_view_index(nodes@, i as int);
            assert(nv.skip(i as int)[0] == nv[i as int]);
            assert(nv.skip(i as int).drop_first() == nv.skip(i + 1));
        }
        match &nodes[i] {
            HtmlNode::Element(e) => {
                assert(nv[i as int] == NodeView::Element(element_view(*e)));
                if str_eq(e.name.as_str(), "br") {
                    return Some(i);
                }
            },
            HtmlNode::Text(_) => {},
        }
        i += 1;
    }
    assert(nv.skip(i as int).len() == 0);
    None
}

/// Where the first auxiliary section heading is among nodes, or their length.
pub open spec fn first_aux(ns: Seq<NodeView>) -> int
    decreases ns.len(),
{
    if ns.len() == 0 {
        0
    } else if ns[0] matches NodeView::Element(e) && spec_has_class(e, "deco"@) && auxiliary_heading(element_text(e)) {
        0
    } else {
        1 + first_aux(ns.drop_first())
    }
}

proof fn lemma_first_aux(ns: Seq<NodeView>)
    ensures
        0 <= first_aux(ns) <= ns.len(),
    decreases ns.len(),
{
    if ns.len() > 0 {
        lemma_first_aux(ns.drop_first());
    }
}

fn first_aux_exec(nodes: &[HtmlNode]) -> (r: usize)
    ensures
        r == first_aux(nodes_view(nodes@)),
        r <= nodes.len(),
{
    let ghost nv = nodes_view(nodes@);
    proof {
        lemma_nodes_view_len(nodes@);
        assert(nv.skip(0) == nv);
    }
    let mut i: usize = 0;
    while i < nodes.len()
        invariant
            i <= nodes.len(),
            nv == nodes_view(nodes@),
            nv.len() == nodes@.len(),
            first_aux(nv) == i + first_aux(nv.skip(i as int)),
        decreases nodes.len() - i,
    {
        proof {
            lemma_nodes_view_index(nodes@, i as int);
            assert(nv.skip(i as int)[0] == nv[i as int]);
            assert(nv.skip(i as int).drop_first() == nv.skip(i + 1));
        }
        match &nodes[i] {
            HtmlNode::Element(e) => {
                assert(nv[i as int] == NodeView::Element(element_view(*e)));
                if is_auxiliary_section_deco(e) {
                    return i;
                }
            },
            HtmlNode::Text(_) => {},
        }
        i += 1;
    }
    assert(nv.skip(i as int).len() == 0);
    i
}

pub open spec fn pos_pattern() -> Seq<char> {
    "[（(]((?:動|名|副|形|連|接|感|助|自|他|サ変)[^）)]{0,12})[）)]"@
}

/// The part of speech a text names in brackets, normalised, when there is one.
pub open spec fn pos_label_of(text: Seq<char>) -> Option<Seq<char>> {
    match first_captures(pos_pattern(), text) {
        Some(g) => match group_at(g, 1) {
            Some(v) => if normalized_visible(v).len() > 0 { Some(normalized_visible(v)) } else { None },
            None => None,
        },
        None => None,
    }
}

fn pos_label_exec(text: &str) -> (r: Option<String>)
    ensures
        opt_view(r) == pos_label_of(text@),
{
    let groups = match regex_captures("[（(]((?:動|名|副|形|連|接|感|助|自|他|サ変)[^）)]{0,12})[）)]", text) {
        Some(Some(g)) => g,
        _ => {
            return None;
        },
    };
    if groups.len() < 2 {
        return None;
    }
    match &groups[1] {
        Some(v) => {
            let n = normalize_visible_text(v.as_str());
            if n.as_str().is_empty() {
                None
            } else {
                Some(n)
            }
        },
        None => None,
    }
}

/// A segment without its first line when that line names a part of speech,
/// and the part of speech.
pub open spec fn stripped_pos_line(s: ElementView) -> (ElementView, Option<Seq<char>>) {
    match first_br(s.children) {
        None => (s, None),
        Some(k) => match pos_label_of(normalized_visible(collect_text(s.children.take(k), seq![], seq![]))) {
            Some(l) => (ElementView { children: s.children.skip(k + 1), ..s }, Some(l)),
            None => (s, None),
        },
    }
}

/// A segment cut before its first auxiliary section heading.
pub open spec fn truncated_aux(s: ElementView) -> ElementView {
    ElementView { children: s.children.take(first_aux(s.children)), ..s }
}

proof fn lemma_nodes_view_skip(ns: Seq<HtmlNode>, i: int)
    requires
        0 <= i <= ns.len(),
    ensures
        nodes_view(ns.skip(i)) == nodes_view(ns).skip(i),
{
    lemma_nodes_view_len(ns);
    lemma_nodes_view_len(ns.skip(i));
    assert forall|k: int| 0 <= k < ns.len() - i implies #[trigger] nodes_view(ns.skip(i))[k] == nodes_view(ns).skip(i)[k] by {
        lemma_nodes_view_index(ns.skip(i), k);
        lemma_nodes_view_index(ns, k + i);
    }
    assert(nodes_view(ns.skip(i)) =~= nodes_view(ns).skip(i));
}

proof fn lemma_nodes_view_take(ns: Seq<HtmlNode>, i: int)
    requires
        0 <= i <= ns.len(),
    ensures
        nodes_view(ns.take(i)) == nodes_view(ns).take(i),
{
    lemma_nodes_view_len(ns);
    lemma_nodes_view_len(ns.take(i));
    assert forall|k: int| 0 <= k < i implies #[trigger] nodes_view(ns.take(i))[k] == nodes_view(ns).take(i)[k] by {
        lemma_nodes_view_index(ns.take(i), k);
        lemma_nodes_view_index(ns, k);
    }
    assert(nodes_view(ns.take(i)) =~= nodes_view(ns).take(i));
}

pub proof fn lemma_nodes_view_subrange(ns: Seq<HtmlNode>, i: int, j: int)
    requires
        0 <= i <= j <= ns.len(),
    ensures
        nodes_view(ns.subrange(i, j)) == nodes_view(ns).subrange(i, j),
{
    lemma_nodes_view_len(ns);
    lemma_nodes_view_len(ns.subrange(i, j));
    assert forall|k: int| 0 <= k < j - i implies #[trigger] nodes_view(ns.subrange(i, j))[k] == nodes_view(ns).subrange(i, j)[k] by {
        lemma_nodes_view_index(ns.subrange(i, j), k);
        lemma_nodes_view_index(ns, k + i);
    }
    assert(nodes_view(ns.subrange(i, j)) =~= nodes_view(ns).subrange(i, j));
}

/// A copy of `segment` without a leading part-of-speech line, and the part of speech.
pub fn strip_leading_pos_line(segment: &HtmlElement) -> (r: (HtmlElement, Option<String>))
    ensures
        (element_view(r.0), opt_view(r.1)) == stripped_pos_line(element_view(*segment)),
{
    let ghost sv = element_view(*segment);
    let nodes = segment.children.as_slice();
    let line_end = match first_br_exec(nodes) {
        Some(k) => k,
        None => {
            return (clone_element(segment), None);
        },
    };
    let prefix = vstd::slice::slice_subrange(nodes, 0, line_end);
    proof {
        lemma_nodes_view_subrange(nodes@, 0, line_end as int);
        assert(nodes@.subrange(0, line_end as int) == prefix@);
        assert(sv.children.subrange(0, line_end as int) == sv.children.take(line_end as int));
    }
    let prefix_text = nodes_text(prefix);
    let normalized = normalize_visible_text(prefix_text.as_str());
    let label = match pos_label_exec(normalized.as_str()) {
        Some(l) => l,
        None => {
            return (clone_element(segment), None);
        },
    };
    let rest = vstd::slice::slice_subrange(nodes, line_end + 1, nodes.len());
    proof {
        lemma_nodes_view_subrange(nodes@, line_end + 1, nodes@.len() as int);
        assert(nodes@.subrange(line_end + 1, nodes@.len() as int) == rest@);
        lemma_nodes_view_len(nodes@);
        assert(sv.children.subrange(line_end + 1, sv.children.len() as int) == sv.children.skip(line_end + 1));
    }
    let stripped = HtmlElement {
        name: segment.name.clone(),
        attrs: crate::html::clone_attrs(&segment.attrs),
        children: clone_nodes(rest),
    };
    (stripped, Some(label))
}

/// A copy of `segment` cut before its first auxiliary section heading.
pub fn truncate_at_auxiliary_section(segment: &HtmlElement) -> (r: HtmlElement)
    ensures
        element_view(r) == truncated_aux(element_view(*segment)),
{
    let nodes = segment.children.as_slice();
    let end = first_aux_exec(nodes);
    let kept = vstd::slice::slice_subrange(nodes, 0, end);
    proof {
        lemma_nodes_view_subrange(nodes@, 0, end as int);
        assert(nodes@.subrange(0, end as int) == kept@);
        assert(nodes_view(nodes@).subrange(0, end as int) == nodes_view(nodes@).take(end as int));
    }
    HtmlElement { name: segment.name.clone(), attrs: crate::html::clone_attrs(&segment.attrs), children: clone_nodes(kept) }
}

/// Grammar tags for labels not yet tagged as grammar.
pub open spec fn grammar_tags_added(tags: Seq<(Seq<char>, Seq<char>)>, labels: Seq<Seq<char>>) -> Seq<(Seq<char>, Seq<char>)>
    decreases labels.len(),
{
    if labels.len() == 0 {
        tags
    } else {
        let acc = grammar_tags_added(tags, labels.drop_last());
        let l = labels.last();
        if acc.contains(("grammar"@, l)) { acc } else { acc.push(("grammar"@, normalized_visible(l))) }
    }
}

/// What a heading's definition segment gives: its definitions, the link of a
/// definition that only refers to another sense, its own links, notes and form tags.
pub ghost struct GroupParts {
    pub definitions: Seq<(Seq<char>, Option<Seq<char>>, Seq<char>)>,
    pub internal: Seq<(Seq<char>, Seq<char>, Seq<char>)>,
    pub rels: Seq<(Seq<char>, Seq<char>, Seq<char>)>,
    pub notes: Seq<(Seq<char>, Option<Seq<char>>, Seq<char>)>,
    pub form_tags: Seq<(Seq<char>, Seq<char>)>,
}

pub open spec fn group_parts(def_seg: ElementView, normalize_first: bool, form: Seq<char>, stem: Option<Seq<char>>) -> GroupParts {
    let raw = definition_notes(body_inline(def_seg));
    let rels = sense_links_of(def_seg);
    let raw2 = if normalize_first { normalized_visible(raw.0) } else { raw.0 };
    let def = body_definition(raw2, rels.len() > 0, form, stem);
    let internal = internal_reference_label(def);
    GroupParts {
        definitions: if internal is None && def.len() > 0 { seq![ja_view(def)] } else { seq![] },
        internal: match internal {
            Some(l) => seq![internal_link(l)],
            None => seq![],
        },
        rels,
        notes: ja_views(raw.1),
        form_tags: form_tags(definition_form_labels(raw2)),
    }
}

/// The sense a heading and its segment make: its definition, notes, form tags,
/// and, when it has no nested senses, its examples and links.
#[verifier::opaque]
pub open spec fn heading_group(
    id: usize,
    marker: Seq<char>,
    tags0: Seq<(Seq<char>, Seq<char>)>,
    kids: Seq<SenseView>,
    def_seg: ElementView,
    ex_seg: ElementView,
    normalize_first: bool,
    form: Seq<char>,
    stem: Option<Seq<char>>,
) -> SenseView {
    let p = group_parts(def_seg, normalize_first, form, stem);
    promote_view(SenseView {
        sense_id: sense_id_of(id),
        marker: Some(marker),
        heading: None,
        glosses: seq![],
        gloss_groups: seq![],
        definitions: p.definitions,
        tags: tags0 + p.form_tags,
        examples: if kids.len() == 0 {
            ja_example_views(group_examples(by_class(ex_seg, "rei"@), form, stem))
        } else {
            seq![]
        },
        notes: p.notes,
        relations: p.internal + (if kids.len() == 0 { p.rels } else { seq![] }),
        children: kids,
    })
}

proof fn lemma_push_contains_pair(s: Seq<(Seq<char>, Seq<char>)>, x: (Seq<char>, Seq<char>), w: (Seq<char>, Seq<char>))
    ensures
        s.push(x).contains(w) == (s.contains(w) || x == w),
{
    if s.push(x).contains(w) {
        let k = choose|k: int| 0 <= k < s.push(x).len() && s.push(x)[k] == w;
        if k < s.len() {
            assert(s[k] == w);
        }
    }
    if s.contains(w) {
        let k = choose|k: int| 0 <= k < s.len() && s[k] == w;
        assert(s.push(x)[k] == w);
    }
    if x == w {
        assert(s.push(x)[s.len() as int] == w);
    }
}

fn add_grammar_tags(tags: &mut Vec<DictionaryTag>, labels: &Vec<String>)
    ensures
        tags_view(final(tags)@) == grammar_tags_added(tags_view(old(tags)@), labels@.map_values(|f: String| f@)),
{
    let ghost start = tags_view(tags@);
    let ghost lv = labels@.map_values(|f: String| f@);
    for i in 0..labels.len()
        invariant
            lv == labels@.map_values(|f: String| f@),
            tags_view(tags@) == grammar_tags_added(start, lv.take(i as int)),
    {
        assert(lv.take(i + 1).drop_last() == lv.take(i as int));
        assert(lv.take(i + 1).last() == lv[i as int]);
        let label = labels[i].as_str();
        let ghost tv = tags_view(tags@);
        let mut seen = false;
        for k in 0..tags.len()
            invariant
                tv == tags_view(tags@),
                label@ == lv[i as int],
                seen == tv.take(k as int).contains(("grammar"@, label@)),
        {
            let same = str_eq(tags[k].kind.as_str(), "grammar") && str_eq(tags[k].label.as_str(), label);
            proof {
                assert(tv.take(k + 1) == tv.take(k as int).push(tv[k as int]));
                lemma_push_contains_pair(tv.take(k as int), tv[k as int], ("grammar"@, label@));
            }
            seen = seen || same;
        }
        assert(tv.take(tags.len() as int) == tv);
        if !seen {
            let t = tag("grammar", label);
            tags.push(t);
            assert(tags_view(tags@) =~= tv.push(("grammar"@, normalized_visible(label@))));
        }
    }
    assert(lv.take(labels.len() as int) == lv);
}

/// The parts a heading's definition segment gives (see `group_parts`).
fn build_group_parts(
    def_seg: &HtmlElement,
    normalize_first: bool,
    display_form: &str,
    placeholder_stem: Option<&str>,
) -> (r: (Vec<DictionaryText>, Vec<DictionaryLink>, Vec<DictionaryLink>, Vec<DictionaryText>, Vec<DictionaryTag>))
    ensures
        ({
            let p = group_parts(element_view(*def_seg), normalize_first, display_form@, opt_str(placeholder_stem));
            &&& texts_view(r.0@) == p.definitions
            &&& links_view(r.1@) == p.internal
            &&& links_view(r.2@) == p.rels
            &&& texts_view(r.3@) == p.notes
            &&& tags_view(r.4@) == p.form_tags
        }),
{
    let ghost dv = element_view(*def_seg);
    let ghost form = display_form@;
    let ghost stem = opt_str(placeholder_stem);
    let inline = body_inline_html(def_seg);
    let (raw, notes) = extract_trailing_notes(inline);
    let rels = sense_links(def_seg);
    let raw2 = if normalize_first { normalize_visible_text(raw.as_str()) } else { raw };
    let ghost raw2_view = raw2@;
    let (cleaned, form_tag_vec) = clean_definition(raw2, rels.len() > 0);
    let definition = expand_placeholders(cleaned.as_str(), display_form, placeholder_stem);
    assert(definition@ == body_definition(raw2_view, links_view(rels@).len() > 0, form, stem));
    let mut internal: Vec<DictionaryLink> = Vec::new();
    let mut definitions: Vec<DictionaryText> = Vec::new();
    match internal_sense_reference(definition.as_str()) {
        Some(link) => {
            internal.push(link);
            assert(links_view(internal@) =~= seq![link_view(link)]);
        },
        None => {
            if !definition.as_str().is_empty() {
                definitions.push(html_text("ja", definition.as_str()));
            }
        },
    }
    proof {
        lemma_ja_texts_view_pub(notes@, definition_notes(body_inline(dv)).1);
    }
    assert(texts_view(definitions@) =~= group_parts(dv, normalize_first, form, stem).definitions);
    assert(links_view(internal@) =~= group_parts(dv, normalize_first, form, stem).internal);
    (definitions, internal, rels, notes, form_tag_vec)
}

/// The examples of the example groups below a segment.
fn segment_examples(ex_seg: &HtmlElement, display_form: &str, placeholder_stem: Option<&str>) -> (r: Vec<DictionaryExample>)
    ensures
        examples_view(r@) == ja_example_views(group_examples(by_class(element_view(*ex_seg), "rei"@), display_form@, opt_str(placeholder_stem))),
{
    let ghost form = display_form@;
    let ghost stem = opt_str(placeholder_stem);
    let mut examples: Vec<DictionaryExample> = Vec::new();
    let mut groups: Vec<&HtmlElement> = Vec::new();
    ex_seg.all_by_class("rei", &mut groups);
    let ghost gv = refs_view(groups@);
    assert(gv =~= by_class(element_view(*ex_seg), "rei"@));
    for k in 0..groups.len()
        invariant
            gv == refs_view(groups@),
            form == display_form@ && stem == opt_str(placeholder_stem),
            examples_view(examples@) == ja_example_views(group_examples(gv.take(k as int), form, stem)),
    {
        let mut found = parse_examples(groups[k], display_form, placeholder_stem);
        let ghost src = crate::dictionary::adapters::daijirin_text::examples_of(gv[k as int], form, stem);
        proof {
            lemma_examples_view_pub(found@, src);
            assert(gv.take(k + 1).drop_last() == gv.take(k as int));
            assert(gv.take(k + 1).last() == gv[k as int]);
        }
        let ghost before = examples@;
        examples.append(&mut found);
        assert(examples_view(examples@) =~= examples_view(before) + ja_example_views(src));
        assert(ja_example_views(group_examples(gv.take(k + 1), form, stem)) =~= ja_example_views(group_examples(gv.take(k as int), form, stem))
            + ja_example_views(src));
    }
    assert(gv.take(groups.len() as int) == gv);
    examples
}

/// The sense a heading and its segment make (see `heading_group`).
fn build_heading_group(
    id: usize,
    marker: String,
    tags0: Vec<DictionaryTag>,
    kids: Vec<DictionarySense>,
    def_seg: &HtmlElement,
    ex_seg: &HtmlElement,
    normalize_first: bool,
    display_form: &str,
    placeholder_stem: Option<&str>,
) -> (r: DictionarySense)
    ensures
        sense_view(r) == heading_group(
            id,
            marker@,
            tags_view(tags0@),
            senses_view(kids@),
            element_view(*def_seg),
            element_view(*ex_seg),
            normalize_first,
            display_form@,
            opt_str(placeholder_stem),
        ),
{
    let ghost kv = senses_view(kids@);
    proof {
        crate::dictionary::adapters::daijirin_senses::lemma_senses_view_len(kids@);
    }
    let (definitions, internal, rels, notes, form_tag_vec) = build_group_parts(def_seg, normalize_first, display_form, placeholder_stem);
    let ghost p = group_parts(element_view(*def_seg), normalize_first, display_form@, opt_str(placeholder_stem));
    let no_kids = kids.len() == 0;
    let mut relations = internal;
    let ghost iv = relations@;
    let examples = if no_kids {
        let mut r = rels;
        let ghost rv = r@;
        relations.append(&mut r);
        assert(links_view(relations@) =~= links_view(iv) + links_view(rv));
        segment_examples(ex_seg, display_form, placeholder_stem)
    } else {
        Vec::new()
    };
    assert(links_view(relations@) == p.internal + (if kv.len() == 0 { p.rels } else { seq![] })) by {
        if !no_kids {
            assert(p.internal + Seq::<(Seq<char>, Seq<char>, Seq<char>)>::empty() =~= p.internal);
        }
    }
    let mut tags = tags0;
    let ghost t0v = tags@;
    let mut ft = form_tag_vec;
    let ghost ftv = ft@;
    tags.append(&mut ft);
    assert(tags_view(tags@) =~= tags_view(t0v) + tags_view(ftv));
    let sense_id = sense_id_string_pub(id);
    let mut sense = DictionarySense {
        sense_id,
        marker: Some(marker),
        heading: None,
        glosses: Vec::new(),
        gloss_groups: Vec::new(),
        definitions,
        tags,
        examples,
        notes,
        relations,
        children: kids,
    };
    let ghost unpromoted = sense;
    promote_parenthetical_heading(&mut sense);
    proof {
        lemma_promoted_view_pub(unpromoted, sense);
        reveal(heading_group);
        assert(texts_view(unpromoted.glosses@) =~= Seq::<(Seq<char>, Option<Seq<char>>, Seq<char>)>::empty());
        assert(crate::dictionary::adapters::section_view::groups_view(unpromoted.gloss_groups@) =~= Seq::<crate::dictionary::adapters::section_view::GroupView>::empty());
        if !no_kids {
            assert(examples_view(unpromoted.examples@) =~= Seq::empty());
        }
        assert(sense_view(unpromoted) =~= SenseView {
            sense_id: sense_id_of(id),
            marker: Some(marker@),
            heading: None,
            glosses: seq![],
            gloss_groups: seq![],
            definitions: sense_view(unpromoted).definitions,
            tags: sense_view(unpromoted).tags,
            examples: sense_view(unpromoted).examples,
            notes: sense_view(unpromoted).notes,
            relations: sense_view(unpromoted).relations,
            children: kv,
        });
    }
    sense
}

/// An element made to hold a run of nodes.
pub open spec fn seg(name: Seq<char>, children: Seq<NodeView>) -> ElementView {
    ElementView { name, attrs: seq![], children }
}

pub open spec fn usizes_view(v: Seq<usize>) -> Seq<int> {
    v.map_values(|u: usize| u as int)
}

/// Positions strictly increasing, each below `n`.
pub open spec fn valid_starts(starts: Seq<int>, n: int) -> bool {
    &&& forall|k: int| 0 <= k < starts.len() ==> 0 <= #[trigger] starts[k] < n
    &&& forall|k: int, l: int| 0 <= k < l < starts.len() ==> #[trigger] starts[k] < #[trigger] starts[l]
}

/// The groups under boxed numerals at `starts` among the nodes, from the `p`-th on.
pub open spec fn rect_groups(
    ns: Seq<NodeView>,
    starts: Seq<int>,
    p: nat,
    form: Seq<char>,
    stem: Option<Seq<char>>,
    counter: usize,
) -> (Seq<SenseView>, usize)
    decreases starts.len() - p,
{
    if p >= starts.len() {
        (seq![], counter)
    } else {
        let start = starts[p as int];
        let end = if p + 1 < starts.len() { starts[p + 1int] } else { ns.len() as int };
        match ns[start] {
            NodeView::Element(me) => {
                let id = next_counter(counter);
                let cseg = seg("rect-segment"@, ns.subrange(start + 1, end));
                let tags0 = grammar_tags_added(seq![], grammar_labels_of(by_class(cseg, "small"@)));
                let kids = nested_senses(top_pairs(cseg), 0, form, stem, id, elem_size(cseg) + 1);
                let g = heading_group(id, sense_marker(element_text(me)), tags0, kids.0, cseg, cseg, false, form, stem);
                let rest = rect_groups(ns, starts, p + 1, form, stem, kids.1);
                (seq![g] + rest.0, rest.1)
            },
            NodeView::Text(_) => rect_groups(ns, starts, p + 1, form, stem, counter),
        }
    }
}

fn marker_of_heading(me: &HtmlElement) -> (r: String)
    ensures
        r@ == sense_marker(element_text(element_view(*me))),
{
    let text = me.text();
    let n = normalize_visible_text(text.as_str());
    normalize_sense_marker(n.as_str())
}

/// The group under the boxed numeral at `start`, up to `end`.
fn rect_group(
    segment: &HtmlElement,
    start: usize,
    end: usize,
    me: &HtmlElement,
    display_form: &str,
    placeholder_stem: Option<&str>,
    counter: &mut usize,
) -> (r: DictionarySense)
    requires
        start + 1 <= end <= segment.children.len(),
    ensures
        ({
            let id = next_counter(*old(counter));
            let ns = element_view(*segment).children;
            let cseg = seg("rect-segment"@, ns.subrange(start + 1, end as int));
            let tags0 = grammar_tags_added(seq![], grammar_labels_of(by_class(cseg, "small"@)));
            let kids = nested_senses(top_pairs(cseg), 0, display_form@, opt_str(placeholder_stem), id, elem_size(cseg) + 1);
            &&& sense_view(r) == heading_group(id, sense_marker(element_text(element_view(*me))), tags0, kids.0, cseg, cseg, false, display_form@, opt_str(placeholder_stem))
            &&& *final(counter) == kids.1
        }),
{
    let id = crate::dictionary::adapters::daijirin_senses::next_counter_pub(*counter);
    *counter = id;
    let nodes = segment.children.as_slice();
    let part = vstd::slice::slice_subrange(nodes, start + 1, end);
    proof {
        lemma_nodes_view_subrange(nodes@, start + 1, end as int);
        assert(nodes@.subrange(start + 1, end as int) == part@);
    }
    let child_segment = HtmlElement { name: String::from_str("rect-segment"), attrs: Vec::new(), children: clone_nodes(part) };
    let ghost cseg = element_view(child_segment);
    assert(crate::html::attrs_view(child_segment.attrs@) =~= Seq::<(Seq<char>, Seq<char>)>::empty());
    let labels = local_grammar_labels(&child_segment);
    let mut tags: Vec<DictionaryTag> = Vec::new();
    assert(tags_view(tags@) =~= Seq::<(Seq<char>, Seq<char>)>::empty());
    add_grammar_tags(&mut tags, &labels);
    let mut containers: Vec<&HtmlElement> = Vec::new();
    collect_top_pair_containers(&child_segment, &mut containers);
    assert(refs_view(containers@) =~= top_pairs(cseg));
    proof {
        lemma_top_pairs_bound(cseg);
    }
    let kids = parse_containers(&containers, display_form, placeholder_stem, counter, Ghost(elem_size(cseg) + 1));
    let marker = marker_of_heading(me);
    build_heading_group(id, marker, tags, kids, &child_segment, &child_segment, false, display_form, placeholder_stem)
}

/// The groups under boxed numerals at `starts` in a segment.
#[verifier::spinoff_prover]
#[verifier::rlimit(30)]
pub fn parse_rect_groups(
    segment: &HtmlElement,
    starts: &[usize],
    display_form: &str,
    placeholder_stem: Option<&str>,
    counter: &mut usize,
) -> (r: Vec<DictionarySense>)
    requires
        valid_starts(usizes_view(starts@), segment.children@.len() as int),
    ensures
        (senses_view(r@), *final(counter)) == rect_groups(
            element_view(*segment).children,
            usizes_view(starts@),
            0,
            display_form@,
            opt_str(placeholder_stem),
            *old(counter),
        ),
{
    let ghost ns = element_view(*segment).children;
    let ghost sv = usizes_view(starts@);
    let ghost form = display_form@;
    let ghost stem = opt_str(placeholder_stem);
    let ghost c0 = *counter;
    proof {
        lemma_nodes_view_len(segment.children@);
    }
    let mut groups: Vec<DictionarySense> = Vec::new();
    for position in 0..starts.len()
        invariant
            ns == element_view(*segment).children,
            ns.len() == segment.children@.len(),
            sv == usizes_view(starts@),
            valid_starts(sv, ns.len() as int),
            form == display_form@ && stem == opt_str(placeholder_stem),
            rect_groups(ns, sv, 0, form, stem, c0).0 == senses_view(groups@) + rect_groups(ns, sv, position as nat, form, stem, *counter).0,
            rect_groups(ns, sv, 0, form, stem, c0).1 == rect_groups(ns, sv, position as nat, form, stem, *counter).1,
    {
        let start = starts[position];
        assert(sv[position as int] == start as int);
        let end = if position + 1 < starts.len() { starts[position + 1] } else { segment.children.len() };
        proof {
            if position + 1 < starts.len() {
                assert(sv[position + 1] == end as int);
                assert(sv[position as int] < sv[position + 1]);
            }
            lemma_nodes_view_index(segment.children@, start as int);
        }
        match &segment.children[start] {
            HtmlNode::Element(me) => {
                assert(ns[start as int] == NodeView::Element(element_view(*me)));
                let ghost before_counter = *counter;
                let g = rect_group(segment, start, end, me, display_form, placeholder_stem, counter);
                let ghost before = groups@;
                groups.push(g);
                proof {
                    lemma_senses_view_push(before, g);
                    let step = rect_groups(ns, sv, position as nat, form, stem, before_counter);
                    let rest = rect_groups(ns, sv, (position + 1) as nat, form, stem, *counter);
                    assert(step.0 == seq![sense_view(g)] + rest.0);
                    assert(senses_view(groups@) + rest.0 =~= senses_view(before) + step.0);
                }
            },
            HtmlNode::Text(_) => {
                assert(ns[start as int] is Text);
            },
        }
    }
    assert(rect_groups(ns, sv, starts.len() as nat, form, stem, *counter).0 =~= Seq::<SenseView>::empty());
    groups
}

/// The positions of the element nodes that `pick` accepts.
pub open spec fn element_positions(ns: Seq<NodeView>, pick: spec_fn(ElementView) -> bool) -> Seq<int>
    decreases ns.len(),
{
    if ns.len() == 0 {
        seq![]
    } else {
        let r = element_positions(ns.drop_last(), pick);
        match ns.last() {
            NodeView::Element(e) => if pick(e) { r.push(ns.len() - 1) } else { r },
            NodeView::Text(_) => r,
        }
    }
}

pub open spec fn is_invert_major(e: ElementView) -> bool {
    major_deco(e) && attr_value(e.attrs, "type"@) == Some("invert-rect"@)
}

pub open spec fn major_pick() -> spec_fn(ElementView) -> bool {
    |e: ElementView| major_deco(e)
}

pub open spec fn invert_pick() -> spec_fn(ElementView) -> bool {
    |e: ElementView| is_invert_major(e)
}

pub open spec fn rect_pick() -> spec_fn(ElementView) -> bool {
    |e: ElementView| rect_deco(e)
}

/// The numeral headings that open major groups: the inverted ones, when there are any.
pub open spec fn major_starts(ns: Seq<NodeView>) -> Seq<int> {
    if element_positions(ns, invert_pick()).len() > 0 {
        element_positions(ns, invert_pick())
    } else {
        element_positions(ns, major_pick())
    }
}

/// The positions of element nodes accepted by `pick`, and whether they are valid starts.
fn positions_exec(nodes: &[HtmlNode], which: u8) -> (r: Vec<usize>)
    requires
        which < 3,
    ensures
        usizes_view(r@) == element_positions(
            nodes_view(nodes@),
            if which == 0 { major_pick() } else if which == 1 { invert_pick() } else { rect_pick() },
        ),
        valid_starts(usizes_view(r@), nodes@.len() as int),
{
    let ghost pick = if which == 0 { major_pick() } else if which == 1 { invert_pick() } else { rect_pick() };
    let ghost nv = nodes_view(nodes@);
    proof {
        lemma_nodes_view_len(nodes@);
    }
    let mut out: Vec<usize> = Vec::new();
    for i in 0..nodes.len()
        invariant
            nv == nodes_view(nodes@),
            nv.len() == nodes@.len(),
            pick == (if which == 0 { major_pick() } else if which == 1 { invert_pick() } else { rect_pick() }),
            usizes_view(out@) == element_positions(nv.take(i as int), pick),
            forall|k: int| 0 <= k < out@.len() ==> #[trigger] out@[k] < i,
            forall|k: int, l: int| 0 <= k < l < out@.len() ==> #[trigger] out@[k] < #[trigger] out@[l],
    {
        proof {
            lemma_nodes_view_index(nodes@, i as int);
            assert(nv.take(i + 1).drop_last() == nv.take(i as int));
            assert(nv.take(i + 1).last() == nv[i as int]);
        }
        match &nodes[i] {
            HtmlNode::Element(e) => {
                let ghost ev = element_view(*e);
                assert(nv[i as int] == NodeView::Element(ev));
                let accept = if which == 0 {
                    is_major_deco(e)
                } else if which == 1 {
                    is_major_deco(e) && match e.attr("type") {
                        Some(t) => str_eq(t, "invert-rect"),
                        None => false,
                    }
                } else {
                    is_rect_deco(e)
                };
                assert(accept == pick(ev));
                if accept {
                    let ghost before = out@;
                    out.push(i);
                    assert(usizes_view(out@) =~= usizes_view(before).push(i as int));
                }
            },
            HtmlNode::Text(_) => {},
        }
    }
    assert(nv.take(nodes.len() as int) == nv);
    proof {
        let uv = usizes_view(out@);
        assert forall|k: int| 0 <= k < uv.len() implies 0 <= #[trigger] uv[k] < nodes@.len() as int by {
            assert(uv[k] == out@[k] as int);
        }
        assert forall|k: int, l: int| 0 <= k < l < uv.len() implies #[trigger] uv[k] < #[trigger] uv[l] by {
            assert(uv[k] == out@[k] as int && uv[l] == out@[l] as int);
        }
    }
    out
}

/// Whether a paragraph can hold major groups: the head paragraph, or one with a numeral heading.
pub open spec fn major_candidate(p: ElementView) -> bool {
    attr_value(p.attrs, "indent"@) == Some("0"@) || exists|k: int|
        0 <= k < element_children(p.children).len() && major_deco(#[trigger] element_children(p.children)[k])
}

pub open spec fn first_major_paragraph(ps: Seq<ElementView>) -> Option<ElementView>
    decreases ps.len(),
{
    if ps.len() == 0 {
        None
    } else if major_candidate(ps[0]) {
        Some(ps[0])
    } else {
        first_major_paragraph(ps.drop_first())
    }
}

/// The groups under the numeral headings at `starts`, from the `q`-th on.
pub open spec fn major_groups_from(
    ns: Seq<NodeView>,
    starts: Seq<int>,
    q: nat,
    form: Seq<char>,
    stem: Option<Seq<char>>,
    counter: usize,
) -> (Seq<SenseView>, usize)
    decreases starts.len() - q,
{
    if q >= starts.len() {
        (seq![], counter)
    } else {
        let start = starts[q as int];
        let end = if q + 1 < starts.len() { starts[q + 1int] } else { ns.len() as int };
        match ns[start] {
            NodeView::Element(me) => {
                let id = next_counter(counter);
                let st = stripped_pos_line(seg("segment"@, ns.subrange(start + 1, end)));
                let seg2 = truncated_aux(st.0);
                let pos_tags = match st.1 {
                    Some(l) => seq![("pos"@, normalized_visible(l))],
                    None => seq![],
                };
                let rects = element_positions(seg2.children, rect_pick());
                let kids = if rects.len() == 0 {
                    nested_senses(top_pairs(seg2), 0, form, stem, id, elem_size(seg2) + 1)
                } else {
                    rect_groups(seg2.children, rects, 0, form, stem, id)
                };
                let def_seg = if rects.len() == 0 { seg2 } else { seg("segment-prefix"@, seg2.children.take(rects[0])) };
                let tags0 = grammar_tags_added(pos_tags, grammar_labels_of(by_class(def_seg, "small"@)));
                let g = heading_group(id, sense_marker(element_text(me)), tags0, kids.0, def_seg, seg2, true, form, stem);
                let rest = major_groups_from(ns, starts, q + 1, form, stem, kids.1);
                (seq![g] + rest.0, rest.1)
            },
            NodeView::Text(_) => major_groups_from(ns, starts, q + 1, form, stem, counter),
        }
    }
}

/// The groups under numeral headings in the first paragraph that can hold them.
pub open spec fn major_groups(root: ElementView, form: Seq<char>, stem: Option<Seq<char>>, counter: usize) -> (Seq<SenseView>, usize) {
    match first_major_paragraph(by_name(root, "p"@)) {
        None => (seq![], counter),
        Some(p) => major_groups_from(p.children, major_starts(p.children), 0, form, stem, counter),
    }
}

/// The group under the numeral heading at `start`, up to `end`.
fn major_group(
    paragraph: &HtmlElement,
    start: usize,
    end: usize,
    me: &HtmlElement,
    display_form: &str,
    placeholder_stem: Option<&str>,
    counter: &mut usize,
) -> (r: DictionarySense)
    requires
        start + 1 <= end <= paragraph.children.len(),
    ensures
        ({
            let form = display_form@;
            let stem = opt_str(placeholder_stem);
            let id = next_counter(*old(counter));
            let ns = element_view(*paragraph).children;
            let st = stripped_pos_line(seg("segment"@, ns.subrange(start + 1, end as int)));
            let seg2 = truncated_aux(st.0);
            let pos_tags = match st.1 {
                Some(l) => seq![("pos"@, normalized_visible(l))],
                None => seq![],
            };
            let rects = element_positions(seg2.children, rect_pick());
            let kids = if rects.len() == 0 {
                nested_senses(top_pairs(seg2), 0, form, stem, id, elem_size(seg2) + 1)
            } else {
                rect_groups(seg2.children, rects, 0, form, stem, id)
            };
            let def_seg = if rects.len() == 0 { seg2 } else { seg("segment-prefix"@, seg2.children.take(rects[0])) };
            let tags0 = grammar_tags_added(pos_tags, grammar_labels_of(by_class(def_seg, "small"@)));
            &&& sense_view(r) == heading_group(id, sense_marker(element_text(element_view(*me))), tags0, kids.0, def_seg, seg2, true, form, stem)
            &&& *final(counter) == kids.1
        }),
{
    let id = crate::dictionary::adapters::daijirin_senses::next_counter_pub(*counter);
    *counter = id;
    let nodes = paragraph.children.as_slice();
    let part = vstd::slice::slice_subrange(nodes, start + 1, end);
    proof {
        lemma_nodes_view_subrange(nodes@, start + 1, end as int);
        assert(nodes@.subrange(start + 1, end as int) == part@);
    }
    let raw_segment = HtmlElement { name: String::from_str("segment"), attrs: Vec::new(), children: clone_nodes(part) };
    assert(crate::html::attrs_view(raw_segment.attrs@) =~= Seq::<(Seq<char>, Seq<char>)>::empty());
    let (segment1, pos_label) = strip_leading_pos_line(&raw_segment);
    let segment2 = truncate_at_auxiliary_section(&segment1);
    let ghost seg2 = element_view(segment2);
    let mut tags: Vec<DictionaryTag> = Vec::new();
    let ghost st1 = opt_view(pos_label);
    match pos_label {
        Some(l) => {
            let t = tag("pos", l.as_str());
            tags.push(t);
            assert(tags_view(tags@) =~= seq![("pos"@, normalized_visible(l@))]);
        },
        None => {
            assert(tags_view(tags@) =~= Seq::<(Seq<char>, Seq<char>)>::empty());
        },
    }
    let ghost pos_tags = tags_view(tags@);
    assert(pos_tags == match st1 {
        Some(l) => seq![("pos"@, normalized_visible(l))],
        None => Seq::<(Seq<char>, Seq<char>)>::empty(),
    });
    let marker = marker_of_heading(me);
    let rects = positions_exec(segment2.children.as_slice(), 2);
    if rects.len() == 0 {
        let labels = local_grammar_labels(&segment2);
        add_grammar_tags(&mut tags, &labels);
        let mut containers: Vec<&HtmlElement> = Vec::new();
        collect_top_pair_containers(&segment2, &mut containers);
        assert(refs_view(containers@) =~= top_pairs(seg2));
        proof {
            lemma_top_pairs_bound(seg2);
        }
        let kids = parse_containers(&containers, display_form, placeholder_stem, counter, Ghost(elem_size(seg2) + 1));
        build_heading_group(id, marker, tags, kids, &segment2, &segment2, true, display_form, placeholder_stem)
    } else {
        let kids = parse_rect_groups(&segment2, rects.as_slice(), display_form, placeholder_stem, counter);
        let snodes = segment2.children.as_slice();
        let first = rects[0];
        proof {
            assert(usizes_view(rects@)[0] == first as int);
        }
        let head = vstd::slice::slice_subrange(snodes, 0, first);
        proof {
            lemma_nodes_view_subrange(snodes@, 0, first as int);
            assert(snodes@.subrange(0, first as int) == head@);
            assert(nodes_view(snodes@).subrange(0, first as int) == nodes_view(snodes@).take(first as int));
        }
        let prefix = HtmlElement { name: String::from_str("segment-prefix"), attrs: Vec::new(), children: clone_nodes(head) };
        assert(crate::html::attrs_view(prefix.attrs@) =~= Seq::<(Seq<char>, Seq<char>)>::empty());
        let labels = local_grammar_labels(&prefix);
        add_grammar_tags(&mut tags, &labels);
        build_heading_group(id, marker, tags, kids, &prefix, &segment2, true, display_form, placeholder_stem)
    }
}

fn find_major_paragraph<'a>(paragraphs: &Vec<&'a HtmlElement>) -> (r: Option<&'a HtmlElement>)
    ensures
        match r {
            Some(p) => first_major_paragraph(refs_view(paragraphs@)) == Some(element_view(*p)),
            None => first_major_paragraph(refs_view(paragraphs@)) is None,
        },
{
    let ghost pv = refs_view(paragraphs@);
    let mut i: usize = 0;
    assert(pv.skip(0) == pv);
    while i < paragraphs.len()
        invariant
            i <= paragraphs.len(),
            pv == refs_view(paragraphs@),
            first_major_paragraph(pv) == first_major_paragraph(pv.skip(i as int)),
        decreases paragraphs.len() - i,
    {
        let p = paragraphs[i];
        assert(pv.skip(i as int)[0] == element_view(*p));
        assert(pv.skip(i as int).drop_first() == pv.skip(i + 1));
        let head = match p.attr("indent") {
            Some(v) => str_eq(v, "0"),
            None => false,
        };
        if head || has_major_deco(p) {
            return Some(p);
        }
        i += 1;
    }
    assert(pv.skip(i as int).len() == 0);
    None
}

/// The senses under numeral headings in the first paragraph that can hold them.
#[verifier::spinoff_prover]
#[verifier::rlimit(60)]
pub fn parse_major_groups(
    root: &HtmlElement,
    display_form: &str,
    placeholder_stem: Option<&str>,
    counter: &mut usize,
) -> (r: Vec<DictionarySense>)
    ensures
        (senses_view(r@), *final(counter)) == major_groups(element_view(*root), display_form@, opt_str(placeholder_stem), *old(counter)),
{
    let ghost form = display_form@;
    let ghost stem = opt_str(placeholder_stem);
    let mut paragraphs: Vec<&HtmlElement> = Vec::new();
    root.all_by_name("p", &mut paragraphs);
    let ghost pv = refs_view(paragraphs@);
    assert(pv =~= by_name(element_view(*root), "p"@));
    let found = find_major_paragraph(&paragraphs);
    let paragraph = match found {
        Some(p) => p,
        None => {
            return Vec::new();
        },
    };
    let ghost ns = element_view(*paragraph).children;
    let nodes = paragraph.children.as_slice();
    let inverted = positions_exec(nodes, 1);
    let starts = if inverted.len() > 0 { inverted } else { positions_exec(nodes, 0) };
    let ghost sv = usizes_view(starts@);
    assert(sv == major_starts(ns));
    let ghost c0 = *counter;
    proof {
        lemma_nodes_view_len(paragraph.children@);
    }
    let mut groups: Vec<DictionarySense> = Vec::new();
    for position in 0..starts.len()
        invariant
            ns == element_view(*paragraph).children,
            ns.len() == paragraph.children@.len(),
            sv == usizes_view(starts@),
            valid_starts(sv, ns.len() as int),
            form == display_form@ && stem == opt_str(placeholder_stem),
            major_groups_from(ns, sv, 0, form, stem, c0).0 == senses_view(groups@) + major_groups_from(ns, sv, position as nat, form, stem, *counter).0,
            major_groups_from(ns, sv, 0, form, stem, c0).1 == major_groups_from(ns, sv, position as nat, form, stem, *counter).1,
    {
        let start = starts[position];
        assert(sv[position as int] == start as int);
        let end = if position + 1 < starts.len() { starts[position + 1] } else { paragraph.children.len() };
        proof {
            if position + 1 < starts.len() {
                assert(sv[position + 1] == end as int);
                assert(sv[position as int] < sv[position + 1]);
            }
            lemma_nodes_view_index(paragraph.children@, start as int);
        }
        match &paragraph.children[start] {
            HtmlNode::Element(me) => {
                assert(ns[start as int] == NodeView::Element(element_view(*me)));
                let ghost before_counter = *counter;
                let g = major_group(paragraph, start, end, me, display_form, placeholder_stem, counter);
                let ghost before = groups@;
                groups.push(g);
                proof {
                    lemma_senses_view_push(before, g);
                    let step = major_groups_from(ns, sv, position as nat, form, stem, before_counter);
                    let rest = major_groups_from(ns, sv, (position + 1) as nat, form, stem, *counter);
                    assert(step.0 == seq![sense_view(g)] + rest.0);
                    assert(senses_view(groups@) + rest.0 =~= senses_view(before) + step.0);
                }
            },
            HtmlNode::Text(_) => {
                assert(ns[start as int] is Text);
            },
        }
    }
    assert(major_groups_from(ns, sv, starts.len() as nat, form, stem, *counter).0 =~= Seq::<SenseView>::empty());
    groups
}

/// The first paragraph marked as the head paragraph.
pub open spec fn head_paragraph(ps: Seq<ElementView>) -> Option<ElementView>
    decreases ps.len(),
{
    if ps.len() == 0 {
        None
    } else if attr_value(ps[0].attrs, "indent"@) == Some("0"@) {
        Some(ps[0])
    } else {
        head_paragraph(ps.drop_first())
    }
}

pub fn find_head_paragraph<'a>(paragraphs: &Vec<&'a HtmlElement>) -> (r: Option<&'a HtmlElement>)
    ensures
        match r {
            Some(p) => head_paragraph(refs_view(paragraphs@)) == Some(element_view(*p)),
            None => head_paragraph(refs_view(paragraphs@)) is None,
        },
{
    let ghost pv = refs_view(paragraphs@);
    let mut i: usize = 0;
    assert(pv.skip(0) == pv);
    while i < paragraphs.len()
        invariant
            i <= paragraphs.len(),
            pv == refs_view(paragraphs@),
            head_paragraph(pv) == head_paragraph(pv.skip(i as int)),
        decreases paragraphs.len() - i,
    {
        let p = paragraphs[i];
        assert(pv.skip(i as int)[0] == element_view(*p));
        assert(pv.skip(i as int).drop_first() == pv.skip(i + 1));
        let head = match p.attr("indent") {
            Some(v) => str_eq(v, "0"),
            None => false,
        };
        if head {
            return Some(p);
        }
        i += 1;
    }
    assert(pv.skip(i as int).len() == 0);
    None
}

/// The sense of a definition without numbered senses: the text after the
/// headword line, when it has anything to show; it takes the next number.
pub open spec fn single_sense(root: ElementView, form: Seq<char>, stem: Option<Seq<char>>, counter: usize) -> Option<(SenseView, usize)> {
    match head_paragraph(by_name(root, "p"@)) {
        None => None,
        Some(p) => match first_br(p.children) {
            None => None,
            Some(k) => {
                let st = stripped_pos_line(seg("segment"@, p.children.skip(k + 1)));
                let seg2 = truncated_aux(st.0);
                let has_major = exists|m: int|
                    0 <= m < element_children(seg2.children).len() && major_deco(#[trigger] element_children(seg2.children)[m]);
                if has_major || marker_pair(seg2) {
                    None
                } else {
                    let parts = group_parts(seg2, true, form, stem);
                    let examples = group_examples(by_class(seg2, "rei"@), form, stem);
                    if parts.internal.len() == 0 && parts.definitions.len() == 0 && examples.len() == 0 && parts.rels.len() == 0 {
                        None
                    } else {
                        let id = next_counter(counter);
                        let pos_tags = match st.1 {
                            Some(l) => seq![("pos"@, normalized_visible(l))],
                            None => seq![],
                        };
                        Some((
                            SenseView {
                                sense_id: sense_id_of(id),
                                marker: None,
                                heading: None,
                                glosses: seq![],
                                gloss_groups: seq![],
                                definitions: parts.definitions,
                                tags: pos_tags + parts.form_tags,
                                examples: ja_example_views(examples),
                                notes: parts.notes,
                                relations: parts.rels + parts.internal,
                                children: seq![],
                            },
                            id,
                        ))
                    }
                }
            },
        },
    }
}

/// The sense of a definition without numbered senses, if it shows anything.
#[verifier::spinoff_prover]
#[verifier::rlimit(40)]
pub fn parse_single_definition(
    root: &HtmlElement,
    display_form: &str,
    placeholder_stem: Option<&str>,
    counter: &mut usize,
) -> (r: Option<DictionarySense>)
    ensures
        match (r, single_sense(element_view(*root), display_form@, opt_str(placeholder_stem), *old(counter))) {
            (Some(s), Some(v)) => sense_view(s) == v.0 && *final(counter) == v.1,
            (None, None) => *final(counter) == *old(counter),
            _ => false,
        },
{
    let ghost form = display_form@;
    let ghost stem = opt_str(placeholder_stem);
    let mut paragraphs: Vec<&HtmlElement> = Vec::new();
    root.all_by_name("p", &mut paragraphs);
    assert(refs_view(paragraphs@) =~= by_name(element_view(*root), "p"@));
    let paragraph = match find_head_paragraph(&paragraphs) {
        Some(p) => p,
        None => {
            return None;
        },
    };
    let nodes = paragraph.children.as_slice();
    let k = match first_br_exec(nodes) {
        Some(k) => k,
        None => {
            return None;
        },
    };
    let part = vstd::slice::slice_subrange(nodes, k + 1, nodes.len());
    proof {
        lemma_nodes_view_subrange(nodes@, k + 1, nodes@.len() as int);
        assert(nodes@.subrange(k + 1, nodes@.len() as int) == part@);
        lemma_nodes_view_len(nodes@);
        assert(nodes_view(nodes@).subrange(k + 1, nodes@.len() as int) == nodes_view(nodes@).skip(k + 1));
    }
    let raw_segment = HtmlElement { name: String::from_str("segment"), attrs: Vec::new(), children: clone_nodes(part) };
    assert(crate::html::attrs_view(raw_segment.attrs@) =~= Seq::<(Seq<char>, Seq<char>)>::empty());
    let (segment1, pos_label) = strip_leading_pos_line(&raw_segment);
    let segment2 = truncate_at_auxiliary_section(&segment1);
    let ghost seg2 = element_view(segment2);
    if has_major_deco(&segment2) || has_direct_marker_pair(&segment2) {
        return None;
    }
    let (definitions, internal, rels, notes, form_tag_vec) = build_group_parts(&segment2, true, display_form, placeholder_stem);
    let examples = segment_examples(&segment2, display_form, placeholder_stem);
    proof {
        crate::dictionary::adapters::daijirin_senses::lemma_examples_len(
            group_examples(by_class(seg2, "rei"@), form, stem),
        );
    }
    if internal.len() == 0 && definitions.len() == 0 && examples.len() == 0 && rels.len() == 0 {
        return None;
    }
    let id = crate::dictionary::adapters::daijirin_senses::next_counter_pub(*counter);
    *counter = id;
    let mut tags: Vec<DictionaryTag> = Vec::new();
    match pos_label {
        Some(l) => {
            let t = tag("pos", l.as_str());
            tags.push(t);
        },
        None => {},
    }
    let ghost t0 = tags@;
    let mut ft = form_tag_vec;
    let ghost ftv = ft@;
    tags.append(&mut ft);
    assert(tags_view(tags@) =~= tags_view(t0) + tags_view(ftv));
    let mut relations = rels;
    let ghost rv = relations@;
    let mut iv = internal;
    let ghost ivv = iv@;
    relations.append(&mut iv);
    assert(links_view(relations@) =~= links_view(rv) + links_view(ivv));
    let sense = DictionarySense {
        sense_id: sense_id_string_pub(id),
        marker: None,
        heading: None,
        glosses: Vec::new(),
        gloss_groups: Vec::new(),
        definitions,
        tags,
        examples,
        notes,
        relations,
        children: Vec::new(),
    };
    proof {
        assert(texts_view(sense.glosses@) =~= Seq::<(Seq<char>, Option<Seq<char>>, Seq<char>)>::empty());
        assert(crate::dictionary::adapters::section_view::groups_view(sense.gloss_groups@) =~= Seq::<crate::dictionary::adapters::section_view::GroupView>::empty());
        assert(senses_view(sense.children@) =~= Seq::<SenseView>::empty());
        if t0.len() > 0 {
            assert(tags_view(t0) =~= seq![("pos"@, tags_view(t0)[0].1)]);
        } else {
            assert(tags_view(t0) =~= Seq::<(Seq<char>, Seq<char>)>::empty());
        }
    }
    Some(sense)
}

pub fn pos_label_exec_pub(text: &str) -> (r: Option<String>)
    ensures
        opt_view(r) == pos_label_of(text@),
{
    pos_label_exec(text)
}

} // verus!
