//! The numbered senses of 大辞林 definitions, read from marker and body pairs.
use vstd::prelude::*;
use crate::dictionary::adapters::common::{
    direct_child_elements, element_children, html_text, link_view, links_view, sanitized_fallback,
};
use crate::dictionary::adapters::daijirin::{marker_body, marker_of, marker_pair, marker_text};
use crate::dictionary::adapters::daijirin_links::{
    collect_scoped_by_class, collect_top_pair_containers, scoped_by_class, scoped_links_of,
    sense_links_scoped, top_pairs, top_pairs_in,
};
use crate::dictionary::adapters::daijirin_notes::{
    clean_definition, cleaned_definition, definition_form_labels, definition_notes, extract_trailing_notes,
    form_tags, internal_reference_label, internal_sense_reference, ja_texts, promote_parenthetical_heading,
    promoted, promotes_heading,
};
use crate::dictionary::adapters::section_view::{groups_view, GroupView};
use crate::dictionary::adapters::daijirin_text::{
    body_inline, body_inline_html, example_matches, examples_match, examples_of, expand_placeholders,
    ja_html, opt_str, opt_view, parse_examples, placeholders_expanded, stem_or_form, tags_view,
};
use crate::dictionary::lookup_state::{spec_trim, trim_chars};
use crate::dictionary::model::{DictionaryExample, DictionaryLink, DictionarySense, DictionaryText};
use crate::html::{element_view, nodes_view, refs_view, spec_has_class, ElementView, HtmlElement, NodeView};
use crate::text::{chars_of, decimal, push_decimal, str_eq};

verus! {

/// The number of nodes in an element, the element included.
pub open spec fn elem_size(e: ElementView) -> nat
    decreases e,
{
    1 + nodes_size(e.children)
}

pub open spec fn nodes_size(ns: Seq<NodeView>) -> nat
    decreases ns,
{
    if ns.len() == 0 {
        0
    } else {
        node_size(ns[0]) + nodes_size(ns.drop_first())
    }
}

pub open spec fn node_size(n: NodeView) -> nat
    decreases n,
{
    match n {
        NodeView::Element(e) => elem_size(e),
        NodeView::Text(_) => 1,
    }
}

proof fn lemma_nodes_size_last(ns: Seq<NodeView>)
    requires
        ns.len() > 0,
    ensures
        nodes_size(ns) == nodes_size(ns.drop_last()) + node_size(ns.last()),
    decreases ns.len(),
{
    if ns.len() > 1 {
        lemma_nodes_size_last(ns.drop_first());
        assert(ns.drop_first().drop_last() == ns.drop_last().drop_first());
        assert(ns.drop_last()[0] == ns[0]);
    } else {
        assert(ns.drop_last() =~= Seq::<NodeView>::empty());
        assert(ns.drop_first() =~= Seq::<NodeView>::empty());
    }
}

/// An element child is no larger than the nodes it is among.
proof fn lemma_element_children_size(ns: Seq<NodeView>)
    ensures
        forall|k: int| 0 <= k < element_children(ns).len() ==> elem_size(#[trigger] element_children(ns)[k]) <= nodes_size(ns),
    decreases ns.len(),
{
    if ns.len() > 0 {
        lemma_element_children_size(ns.drop_last());
        lemma_nodes_size_last(ns);
        let rest = element_children(ns.drop_last());
        match ns.last() {
            NodeView::Element(e) => {
                assert(element_children(ns) == rest.push(e));
                assert forall|k: int| 0 <= k < rest.push(e).len() implies elem_size(#[trigger] rest.push(e)[k]) <= nodes_size(ns) by {
                    if k < rest.len() {
                        assert(rest.push(e)[k] == rest[k]);
                    }
                }
            },
            NodeView::Text(_) => {
                assert(element_children(ns) == rest);
            },
        }
    }
}

/// The containers found at or below an element are no larger than it.
proof fn lemma_top_pairs_size(e: ElementView)
    ensures
        forall|k: int| 0 <= k < top_pairs(e).len() ==> elem_size(#[trigger] top_pairs(e)[k]) <= elem_size(e),
    decreases e,
{
    if !marker_pair(e) {
        lemma_top_pairs_in_size(e.children);
        assert(top_pairs(e) == top_pairs_in(e.children));
    } else {
        assert(top_pairs(e) == seq![e]);
    }
}

proof fn lemma_top_pairs_in_size(ns: Seq<NodeView>)
    ensures
        forall|k: int| 0 <= k < top_pairs_in(ns).len() ==> elem_size(#[trigger] top_pairs_in(ns)[k]) <= nodes_size(ns),
    decreases ns,
{
    if ns.len() > 0 {
        lemma_top_pairs_in_size(ns.drop_first());
        match ns[0] {
            NodeView::Text(_) => {
                assert(top_pairs_in(ns) == top_pairs_in(ns.drop_first()));
            },
            NodeView::Element(c) => {
                if spec_has_class(c, "rei"@) {
                    assert(top_pairs_in(ns) == top_pairs_in(ns.drop_first()));
                } else {
                    lemma_top_pairs_size(c);
                    let a = top_pairs(c);
                    let b = top_pairs_in(ns.drop_first());
                    assert(top_pairs_in(ns) == a + b);
                    assert(ns[0] == NodeView::Element(c));
                    assert(node_size(ns[0]) == elem_size(c));
                    assert(nodes_size(ns) == elem_size(c) + nodes_size(ns.drop_first()));
                    assert forall|k: int| 0 <= k < (a + b).len() implies elem_size(#[trigger] (a + b)[k]) <= nodes_size(ns) by {
                        if k < a.len() {
                            assert((a + b)[k] == a[k]);
                        } else {
                            assert((a + b)[k] == b[k - a.len()]);
                        }
                    }
                }
            },
        }
    }
}

/// The containers of numbered senses below the element children, in order.
pub open spec fn nested_containers(cs: Seq<ElementView>) -> Seq<ElementView>
    decreases cs.len(),
{
    if cs.len() == 0 {
        seq![]
    } else {
        nested_containers(cs.drop_last()) + top_pairs(cs.last())
    }
}

proof fn lemma_nested_containers_size(cs: Seq<ElementView>, bound: nat)
    requires
        forall|k: int| 0 <= k < cs.len() ==> elem_size(#[trigger] cs[k]) <= bound,
    ensures
        forall|k: int| 0 <= k < nested_containers(cs).len() ==> elem_size(#[trigger] nested_containers(cs)[k]) <= bound,
    decreases cs.len(),
{
    if cs.len() > 0 {
        assert forall|k: int| 0 <= k < cs.drop_last().len() implies elem_size(#[trigger] cs.drop_last()[k]) <= bound by {
            assert(cs.drop_last()[k] == cs[k]);
        }
        lemma_nested_containers_size(cs.drop_last(), bound);
        lemma_top_pairs_size(cs.last());
        let a = nested_containers(cs.drop_last());
        let b = top_pairs(cs.last());
        assert forall|k: int| 0 <= k < (a + b).len() implies elem_size(#[trigger] (a + b)[k]) <= bound by {
            if k < a.len() {
                assert((a + b)[k] == a[k]);
            } else {
                assert((a + b)[k] == b[k - a.len()]);
            }
        }
    }
}

pub open spec fn text_view(t: DictionaryText) -> (Seq<char>, Option<Seq<char>>, Seq<char>) {
    (t.lang@, opt_view(t.qualifier), t.html@)
}

pub open spec fn opt_text_view(t: Option<DictionaryText>) -> Option<(Seq<char>, Option<Seq<char>>, Seq<char>)> {
    match t {
        Some(x) => Some(text_view(x)),
        None => None,
    }
}

pub open spec fn example_view(e: DictionaryExample) -> (
    (Seq<char>, Option<Seq<char>>, Seq<char>),
    Option<(Seq<char>, Option<Seq<char>>, Seq<char>)>,
    Option<(Seq<char>, Option<Seq<char>>, Seq<char>)>,
) {
    (text_view(e.source), opt_text_view(e.translation), opt_text_view(e.note))
}

/// The view of Japanese rich text made from `source`.
pub open spec fn ja_view(source: Seq<char>) -> (Seq<char>, Option<Seq<char>>, Seq<char>) {
    ("ja"@, None, spec_trim(sanitized_fallback(source)))
}

/// The mathematical value of a sense.
pub ghost struct SenseView {
    pub sense_id: Seq<char>,
    pub marker: Option<Seq<char>>,
    pub heading: Option<Seq<char>>,
    pub glosses: Seq<(Seq<char>, Option<Seq<char>>, Seq<char>)>,
    pub gloss_groups: Seq<GroupView>,
    pub definitions: Seq<(Seq<char>, Option<Seq<char>>, Seq<char>)>,
    pub tags: Seq<(Seq<char>, Seq<char>)>,
    pub examples: Seq<(
        (Seq<char>, Option<Seq<char>>, Seq<char>),
        Option<(Seq<char>, Option<Seq<char>>, Seq<char>)>,
        Option<(Seq<char>, Option<Seq<char>>, Seq<char>)>,
    )>,
    pub notes: Seq<(Seq<char>, Option<Seq<char>>, Seq<char>)>,
    pub relations: Seq<(Seq<char>, Seq<char>, Seq<char>)>,
    pub children: Seq<SenseView>,
}

pub open spec fn texts_view(v: Seq<DictionaryText>) -> Seq<(Seq<char>, Option<Seq<char>>, Seq<char>)> {
    v.map_values(|t: DictionaryText| text_view(t))
}

pub open spec fn examples_view(v: Seq<DictionaryExample>) -> Seq<(
    (Seq<char>, Option<Seq<char>>, Seq<char>),
    Option<(Seq<char>, Option<Seq<char>>, Seq<char>)>,
    Option<(Seq<char>, Option<Seq<char>>, Seq<char>)>,
)> {
    v.map_values(|e: DictionaryExample| example_view(e))
}

pub open spec fn sense_view(s: DictionarySense) -> SenseView
    decreases s,
{
    SenseView {
        sense_id: s.sense_id@,
        marker: opt_view(s.marker),
        heading: opt_view(s.heading),
        glosses: texts_view(s.glosses@),
        gloss_groups: groups_view(s.gloss_groups@),
        definitions: texts_view(s.definitions@),
        tags: tags_view(s.tags@),
        examples: examples_view(s.examples@),
        notes: texts_view(s.notes@),
        relations: links_view(s.relations@),
        children: senses_view(s.children@),
    }
}

pub open spec fn senses_view(ss: Seq<DictionarySense>) -> Seq<SenseView>
    decreases ss,
{
    if ss.len() == 0 {
        seq![]
    } else {
        seq![sense_view(ss[0])] + senses_view(ss.drop_first())
    }
}

pub proof fn lemma_senses_view_len(ss: Seq<DictionarySense>)
    ensures
        senses_view(ss).len() == ss.len(),
    decreases ss.len(),
{
    if ss.len() > 0 {
        lemma_senses_view_len(ss.drop_first());
    }
}

pub proof fn lemma_senses_view_push(ss: Seq<DictionarySense>, s: DictionarySense)
    ensures
        senses_view(ss.push(s)) == senses_view(ss).push(sense_view(s)),
    decreases ss.len(),
{
    if ss.len() == 0 {
        assert(ss.push(s).drop_first() =~= Seq::<DictionarySense>::empty());
        assert(senses_view(Seq::<DictionarySense>::empty()) == Seq::<SenseView>::empty());
        assert(senses_view(ss.push(s)) =~= seq![sense_view(s)]);
    } else {
        lemma_senses_view_push(ss.drop_first(), s);
        assert(ss.push(s).drop_first() =~= ss.drop_first().push(s));
        assert(senses_view(ss.push(s)) =~= senses_view(ss).push(sense_view(s)));
    }
}

pub proof fn lemma_senses_view_append(a: Seq<DictionarySense>, b: Seq<DictionarySense>)
    ensures
        senses_view(a + b) == senses_view(a) + senses_view(b),
    decreases b.len(),
{
    if b.len() == 0 {
        assert(a + b =~= a);
        assert(senses_view(a) + senses_view(b) =~= senses_view(a));
    } else {
        lemma_senses_view_append(a, b.drop_last());
        assert(a + b =~= (a + b.drop_last()).push(b.last()));
        assert(b =~= b.drop_last().push(b.last()));
        lemma_senses_view_push(a + b.drop_last(), b.last());
        lemma_senses_view_push(b.drop_last(), b.last());
    }
}

/// The counter after one more sense, wrapping as `usize` does without overflow checks.
pub open spec fn next_counter(c: usize) -> usize {
    if c == usize::MAX { 0 } else { (c + 1) as usize }
}

/// The id of the sense numbered `c`.
pub open spec fn sense_id_of(c: usize) -> Seq<char> {
    "s"@ + decimal(c as nat)
}

/// A sense whose heading a parenthetical definition becomes, where it applies.
pub open spec fn promote_view(v: SenseView) -> SenseView {
    if v.children.len() > 0 && v.definitions.len() == 1 && v.heading is None && {
        let t = spec_trim(v.definitions[0].2);
        ((t.len() > 0 && t[0] == '（' && t.last() == '）') || (t.len() > 0 && t[0] == '(' && t.last() == ')'))
            && !t.contains('。')
    } {
        SenseView { heading: Some(spec_trim(v.definitions[0].2)), definitions: seq![], ..v }
    } else {
        v
    }
}

proof fn lemma_promoted_view(before: DictionarySense, after: DictionarySense)
    requires
        promoted(before, after),
    ensures
        sense_view(after) == promote_view(sense_view(before)),
{
    let v = sense_view(before);
    if promotes_heading(before) {
        assert(v.definitions[0].2 == before.definitions@[0].html@);
        assert(texts_view(after.definitions@) =~= Seq::<(Seq<char>, Option<Seq<char>>, Seq<char>)>::empty());
        assert(sense_view(after) =~= promote_view(v));
    } else {
        if v.children.len() > 0 && v.definitions.len() == 1 && v.heading is None {
            assert(v.definitions[0].2 == before.definitions@[0].html@);
        }
    }
}

/// The examples of the example groups, in order.
pub open spec fn group_examples(groups: Seq<ElementView>, form: Seq<char>, stem: Option<Seq<char>>) -> Seq<Seq<char>>
    decreases groups.len(),
{
    if groups.len() == 0 {
        seq![]
    } else {
        group_examples(groups.drop_last(), form, stem) + examples_of(groups.last(), form, stem)
    }
}

pub open spec fn ja_views(sources: Seq<Seq<char>>) -> Seq<(Seq<char>, Option<Seq<char>>, Seq<char>)> {
    sources.map_values(|s: Seq<char>| ja_view(s))
}

pub open spec fn ja_example_views(sources: Seq<Seq<char>>) -> Seq<(
    (Seq<char>, Option<Seq<char>>, Seq<char>),
    Option<(Seq<char>, Option<Seq<char>>, Seq<char>)>,
    Option<(Seq<char>, Option<Seq<char>>, Seq<char>)>,
)> {
    sources.map_values(|s: Seq<char>| (ja_view(s), None, None))
}

/// The definition of a body, placeholders written out.
pub open spec fn body_definition(raw: Seq<char>, has_relations: bool, form: Seq<char>, stem: Option<Seq<char>>) -> Seq<char> {
    placeholders_expanded(cleaned_definition(raw, has_relations), form, stem_or_form(form, stem))
}

/// The link a definition that only refers to another sense gives.
pub open spec fn internal_link(label: Seq<char>) -> (Seq<char>, Seq<char>, Seq<char>) {
    ("sense-marker:"@ + label, label, "internal_reference"@)
}

/// The definitions and relations of a sense: a definition that only refers to
/// another sense becomes a relation, an empty one is dropped.
pub open spec fn definition_parts(
    def: Seq<char>,
    relations: Seq<(Seq<char>, Seq<char>, Seq<char>)>,
) -> (Seq<(Seq<char>, Option<Seq<char>>, Seq<char>)>, Seq<(Seq<char>, Seq<char>, Seq<char>)>) {
    match internal_reference_label(def) {
        Some(l) => (seq![], relations.push(internal_link(l))),
        None => (if spec_trim(def).len() > 0 { seq![ja_view(def)] } else { seq![] }, relations),
    }
}

/// The sense a marker and its body make, without its nested senses.
#[verifier::opaque]
pub open spec fn pair_sense_base(marker: Seq<char>, body: ElementView, form: Seq<char>, stem: Option<Seq<char>>, id: usize) -> SenseView {
    let rel0 = scoped_links_of(body);
    let raw = definition_notes(body_inline(body));
    let def = body_definition(raw.0, rel0.len() > 0, form, stem);
    let parts = definition_parts(def, rel0);
    SenseView {
        sense_id: sense_id_of(id),
        marker: Some(marker),
        heading: None,
        glosses: seq![],
        gloss_groups: seq![],
        definitions: parts.0,
        tags: form_tags(definition_form_labels(raw.0)),
        examples: ja_example_views(group_examples(scoped_by_class(body.children, "rei"@), form, stem)),
        notes: ja_views(raw.1),
        relations: parts.1,
        children: seq![],
    }
}

/// The senses of a container of marker and body pairs, numbered on from `counter`.
pub open spec fn pair_senses(c: ElementView, form: Seq<char>, stem: Option<Seq<char>>, counter: usize) -> (Seq<SenseView>, usize)
    decreases elem_size(c), 3nat, 0nat,
{
    pairs_from(element_children(c.children), 0, form, stem, counter, elem_size(c))
}

/// The senses of the pairs from position `i` on.
pub open spec fn pairs_from(
    cs: Seq<ElementView>,
    i: nat,
    form: Seq<char>,
    stem: Option<Seq<char>>,
    counter: usize,
    bound: nat,
) -> (Seq<SenseView>, usize)
    decreases bound, 2nat, cs.len() - i,
{
    if i + 1 >= cs.len() {
        (seq![], counter)
    } else {
        match marker_of(cs[i as int]) {
            None => pairs_from(cs, i + 1, form, stem, counter, bound),
            Some(m) => if !marker_body(cs[i + 1int]) {
                pairs_from(cs, i + 1, form, stem, counter, bound)
            } else {
                let id = next_counter(counter);
                let body = cs[i + 1int];
                let kids = nested_senses(nested_containers(element_children(body.children)), 0, form, stem, id, bound);
                let s = promote_view(SenseView { children: kids.0, ..pair_sense_base(m, body, form, stem, id) });
                let rest = pairs_from(cs, i + 2, form, stem, kids.1, bound);
                (seq![s] + rest.0, rest.1)
            },
        }
    }
}

/// The senses of nested containers from position `j` on; only containers
/// smaller than `bound` are read.
pub open spec fn nested_senses(
    conts: Seq<ElementView>,
    j: nat,
    form: Seq<char>,
    stem: Option<Seq<char>>,
    counter: usize,
    bound: nat,
) -> (Seq<SenseView>, usize)
    decreases bound, 1nat, conts.len() - j,
{
    if j >= conts.len() {
        (seq![], counter)
    } else {
        let a = if elem_size(conts[j as int]) < bound {
            pair_senses(conts[j as int], form, stem, counter)
        } else {
            (seq![], counter)
        };
        let b = nested_senses(conts, j + 1, form, stem, a.1, bound);
        (a.0 + b.0, b.1)
    }
}

proof fn lemma_ja_texts_view(v: Seq<DictionaryText>, sources: Seq<Seq<char>>)
    requires
        ja_texts(v, sources),
    ensures
        texts_view(v) == ja_views(sources),
{
    assert forall|i: int| 0 <= i < v.len() implies #[trigger] texts_view(v)[i] == ja_views(sources)[i] by {
        assert(ja_html(v[i], sources[i]));
    }
    assert(texts_view(v) =~= ja_views(sources));
}

proof fn lemma_examples_view(v: Seq<DictionaryExample>, sources: Seq<Seq<char>>)
    requires
        examples_match(v, sources),
    ensures
        examples_view(v) == ja_example_views(sources),
{
    assert forall|i: int| 0 <= i < v.len() implies #[trigger] examples_view(v)[i] == ja_example_views(sources)[i] by {
        assert(example_matches(v[i], sources[i]));
    }
    assert(examples_view(v) =~= ja_example_views(sources));
}

fn sense_id_string(id: usize) -> (r: String)
    ensures
        r@ == sense_id_of(id),
{
    let mut r = String::from_str("s");
    push_decimal(&mut r, id as u64);
    r
}

fn trimmed_is_empty(s: &str) -> (b: bool)
    ensures
        b == (spec_trim(s@).len() == 0),
{
    trim_chars(chars_of(s).as_slice()).len() == 0
}

/// The sense a marker and its body make, without its nested senses.
fn pair_sense(
    body: &HtmlElement,
    marker: String,
    id: usize,
    display_form: &str,
    placeholder_stem: Option<&str>,
) -> (r: DictionarySense)
    ensures
        sense_view(r) == pair_sense_base(marker@, element_view(*body), display_form@, opt_str(placeholder_stem), id),
{
    let ghost bv = element_view(*body);
    let ghost form = display_form@;
    let ghost stem = opt_str(placeholder_stem);
    let sense_id = sense_id_string(id);
    let relations0 = sense_links_scoped(body);
    let inline = body_inline_html(body);
    let (raw, notes) = extract_trailing_notes(inline);
    let ghost raw_view = raw@;
    let has_relations = relations0.len() > 0;
    let (cleaned, tags) = clean_definition(raw, has_relations);
    let definition = expand_placeholders(cleaned.as_str(), display_form, placeholder_stem);
    assert(definition@ == body_definition(raw_view, links_view(relations0@).len() > 0, form, stem));
    let mut relations = relations0;
    let mut definitions: Vec<DictionaryText> = Vec::new();
    let ghost rel0 = links_view(relations@);
    match internal_sense_reference(definition.as_str()) {
        Some(link) => {
            relations.push(link);
            assert(links_view(relations@) =~= rel0.push(link_view(link)));
        },
        None => {
            if !trimmed_is_empty(definition.as_str()) {
                definitions.push(html_text("ja", definition.as_str()));
            }
        },
    }
    assert(texts_view(definitions@) =~= definition_parts(definition@, rel0).0);
    assert(links_view(relations@) == definition_parts(definition@, rel0).1);
    let mut groups: Vec<&HtmlElement> = Vec::new();
    collect_scoped_by_class(body.children.as_slice(), "rei", &mut groups);
    let ghost gv = refs_view(groups@);
    assert(gv =~= scoped_by_class(bv.children, "rei"@));
    let mut examples: Vec<DictionaryExample> = Vec::new();
    for k in 0..groups.len()
        invariant
            gv == refs_view(groups@),
            form == display_form@ && stem == opt_str(placeholder_stem),
            examples_view(examples@) == ja_example_views(group_examples(gv.take(k as int), form, stem)),
    {
        let mut found = parse_examples(groups[k], display_form, placeholder_stem);
        proof {
            lemma_examples_view(found@, examples_of(gv[k as int], form, stem));
            assert(gv.take(k + 1).drop_last() == gv.take(k as int));
            assert(gv.take(k + 1).last() == gv[k as int]);
        }
        let ghost before = examples@;
        examples.append(&mut found);
        assert(examples_view(examples@) =~= examples_view(before) + ja_example_views(examples_of(gv[k as int], form, stem)));
        assert(ja_example_views(group_examples(gv.take(k + 1), form, stem)) =~= ja_example_views(group_examples(gv.take(k as int), form, stem))
            + ja_example_views(examples_of(gv[k as int], form, stem)));
    }
    assert(gv.take(groups.len() as int) == gv);
    proof {
        lemma_ja_texts_view(notes@, definition_notes(body_inline(bv)).1);
    }
    let r = DictionarySense {
        sense_id,
        marker: Some(marker),
        heading: None,
        glosses: Vec::new(),
        gloss_groups: Vec::new(),
        definitions,
        tags,
        examples,
        notes,
        relations,
        children: Vec::new(),
    };
    assert(texts_view(r.glosses@) =~= Seq::<(Seq<char>, Option<Seq<char>>, Seq<char>)>::empty());
    assert(groups_view(r.gloss_groups@) =~= Seq::<GroupView>::empty());
    assert(senses_view(r.children@) =~= Seq::<SenseView>::empty());
    proof {
        reveal(pair_sense_base);
    }
    assert(sense_view(r) =~= pair_sense_base(marker@, bv, form, stem, id));
    r
}

fn next_counter_exec(c: usize) -> (r: usize)
    ensures
        r == next_counter(c),
{
    if c == usize::MAX {
        0
    } else {
        c + 1
    }
}

fn is_marker_body(e: &HtmlElement) -> (b: bool)
    ensures
        b == marker_body(element_view(*e)),
{
    e.has_class("lefta") || e.has_class("leftb") || str_eq(e.name.as_str(), "div")
}

/// The senses nested in a pair's body: those of the outermost containers below
/// its element children, numbered on from `counter`.
fn pair_children(
    body: &HtmlElement,
    display_form: &str,
    placeholder_stem: Option<&str>,
    counter: &mut usize,
    Ghost(bound): Ghost<nat>,
) -> (r: Vec<DictionarySense>)
    requires
        elem_size(element_view(*body)) < bound,
    ensures
        (senses_view(r@), *final(counter)) == nested_senses(
            nested_containers(element_children(element_view(*body).children)),
            0,
            display_form@,
            opt_str(placeholder_stem),
            *old(counter),
            bound,
        ),
    decreases elem_size(element_view(*body)), 0nat,
{
    let ghost bv = element_view(*body);
    let ghost form = display_form@;
    let ghost stem = opt_str(placeholder_stem);
    let body_children = direct_child_elements(body);
    let ghost bcs = refs_view(body_children@);
    let mut nested: Vec<&HtmlElement> = Vec::new();
    for k in 0..body_children.len()
        invariant
            bcs == refs_view(body_children@),
            refs_view(nested@) == nested_containers(bcs.take(k as int)),
    {
        collect_top_pair_containers(body_children[k], &mut nested);
        assert(bcs.take(k + 1).drop_last() == bcs.take(k as int));
        assert(bcs.take(k + 1).last() == bcs[k as int]);
    }
    assert(bcs.take(body_children.len() as int) == bcs);
    let ghost nv = refs_view(nested@);
    proof {
        lemma_element_children_size(bv.children);
        assert forall|k: int| 0 <= k < bcs.len() implies elem_size(#[trigger] bcs[k]) < elem_size(bv) by {}
        lemma_nested_containers_size(bcs, (elem_size(bv) - 1) as nat);
    }
    let ghost k0 = *counter;
    let mut kids: Vec<DictionarySense> = Vec::new();
    for j in 0..nested.len()
        invariant
            nv == refs_view(nested@),
            bv == element_view(*body),
            elem_size(bv) < bound,
            form == display_form@ && stem == opt_str(placeholder_stem),
            forall|m: int| 0 <= m < nv.len() ==> elem_size(#[trigger] nv[m]) < elem_size(bv),
            nested_senses(nv, 0, form, stem, k0, bound).0 == senses_view(kids@) + nested_senses(nv, j as nat, form, stem, *counter, bound).0,
            nested_senses(nv, 0, form, stem, k0, bound).1 == nested_senses(nv, j as nat, form, stem, *counter, bound).1,
    {
        assert(elem_size(nv[j as int]) < elem_size(bv));
        assert(nv[j as int] == element_view(*nested[j as int]));
        let mut found = parse_pairs(nested[j], display_form, placeholder_stem, counter);
        let ghost before = kids@;
        proof {
            lemma_senses_view_append(before, found@);
        }
        kids.append(&mut found);
    }
    assert(nested_senses(nv, nested.len() as nat, form, stem, *counter, bound).0 =~= Seq::<SenseView>::empty());
    kids
}

/// The senses of a container of marker and body pairs; each pair is one
/// sense, numbered on from `counter`, with the pairs nested in its body as
/// its children.
#[verifier::spinoff_prover]
#[verifier::rlimit(60)]
pub fn parse_pairs(
    container: &HtmlElement,
    display_form: &str,
    placeholder_stem: Option<&str>,
    counter: &mut usize,
) -> (r: Vec<DictionarySense>)
    ensures
        (senses_view(r@), *final(counter)) == pair_senses(
            element_view(*container),
            display_form@,
            opt_str(placeholder_stem),
            *old(counter),
        ),
    decreases elem_size(element_view(*container)), 1nat,
{
    let ghost cv = element_view(*container);
    let ghost form = display_form@;
    let ghost stem = opt_str(placeholder_stem);
    let ghost bound = elem_size(cv);
    let ghost c0 = *counter;
    let children = direct_child_elements(container);
    let ghost cs = refs_view(children@);
    proof {
        lemma_element_children_size(cv.children);
    }
    let mut senses: Vec<DictionarySense> = Vec::new();
    let mut index: usize = 0;
    while children.len() - index > 1
        invariant
            cs == refs_view(children@),
            cs == element_children(cv.children),
            cv == element_view(*container),
            bound == elem_size(cv),
            form == display_form@ && stem == opt_str(placeholder_stem),
            index <= children.len(),
            forall|k: int| 0 <= k < cs.len() ==> elem_size(#[trigger] cs[k]) < bound,
            pairs_from(cs, 0, form, stem, c0, bound).0 == senses_view(senses@) + pairs_from(cs, index as nat, form, stem, *counter, bound).0,
            pairs_from(cs, 0, form, stem, c0, bound).1 == pairs_from(cs, index as nat, form, stem, *counter, bound).1,
        decreases children.len() - index,
    {
        let marker = match marker_text(children[index]) {
            Some(m) => m,
            None => {
                assert(pairs_from(cs, index as nat, form, stem, *counter, bound) == pairs_from(cs, (index + 1) as nat, form, stem, *counter, bound));
                index += 1;
                continue;
            },
        };
        let body = children[index + 1];
        if !is_marker_body(body) {
            assert(pairs_from(cs, index as nat, form, stem, *counter, bound) == pairs_from(cs, (index + 1) as nat, form, stem, *counter, bound));
            index += 1;
            continue;
        }
        let ghost bv = element_view(*body);
        assert(cs[index + 1] == bv);
        assert(elem_size(bv) < bound);
        let ghost before_counter = *counter;
        let id = next_counter_exec(*counter);
        *counter = id;
        let mut sense = pair_sense(body, marker, id, display_form, placeholder_stem);
        let kids = pair_children(body, display_form, placeholder_stem, counter, Ghost(bound));
        let ghost kv = senses_view(kids@);
        sense.children = kids;
        let ghost unpromoted = sense;
        promote_parenthetical_heading(&mut sense);
        proof {
            lemma_promoted_view(unpromoted, sense);
            assert(sense_view(unpromoted) =~= SenseView { children: kv, ..pair_sense_base(marker@, bv, form, stem, id) });
        }
        let ghost before = senses@;
        let ghost step = pairs_from(cs, index as nat, form, stem, before_counter, bound);
        let ghost rest = pairs_from(cs, (index + 2) as nat, form, stem, *counter, bound);
        assert(step.0 == seq![sense_view(sense)] + rest.0 && step.1 == rest.1);
        senses.push(sense);
        proof {
            lemma_senses_view_push(before, sense);
            assert(senses_view(senses@) + rest.0 =~= senses_view(before) + step.0);
        }
        index += 2;
    }
    senses
}

/// The senses of containers of pairs, one container after the other, numbered on
/// from `counter`.
pub fn parse_containers(
    containers: &Vec<&HtmlElement>,
    display_form: &str,
    placeholder_stem: Option<&str>,
    counter: &mut usize,
    Ghost(bound): Ghost<nat>,
) -> (r: Vec<DictionarySense>)
    requires
        forall|m: int| 0 <= m < containers@.len() ==> elem_size(#[trigger] refs_view(containers@)[m]) < bound,
    ensures
        (senses_view(r@), *final(counter)) == nested_senses(
            refs_view(containers@),
            0,
            display_form@,
            opt_str(placeholder_stem),
            *old(counter),
            bound,
        ),
{
    let ghost nv = refs_view(containers@);
    let ghost form = display_form@;
    let ghost stem = opt_str(placeholder_stem);
    let ghost k0 = *counter;
    let mut kids: Vec<DictionarySense> = Vec::new();
    for j in 0..containers.len()
        invariant
            nv == refs_view(containers@),
            form == display_form@ && stem == opt_str(placeholder_stem),
            forall|m: int| 0 <= m < nv.len() ==> elem_size(#[trigger] nv[m]) < bound,
            nested_senses(nv, 0, form, stem, k0, bound).0 == senses_view(kids@) + nested_senses(nv, j as nat, form, stem, *counter, bound).0,
            nested_senses(nv, 0, form, stem, k0, bound).1 == nested_senses(nv, j as nat, form, stem, *counter, bound).1,
    {
        assert(elem_size(nv[j as int]) < bound);
        assert(nv[j as int] == element_view(*containers@[j as int]));
        let mut found = parse_pairs(containers[j], display_form, placeholder_stem, counter);
        let ghost before = kids@;
        proof {
            lemma_senses_view_append(before, found@);
        }
        kids.append(&mut found);
    }
    assert(nested_senses(nv, containers.len() as nat, form, stem, *counter, bound).0 =~= Seq::<SenseView>::empty());
    kids
}

pub proof fn lemma_top_pairs_bound(e: ElementView)
    ensures
        forall|k: int| 0 <= k < top_pairs(e).len() ==> elem_size(#[trigger] top_pairs(e)[k]) < elem_size(e) + 1,
{
    lemma_top_pairs_size(e);
}

pub proof fn lemma_ja_texts_view_pub(v: Seq<DictionaryText>, sources: Seq<Seq<char>>)
    requires
        ja_texts(v, sources),
    ensures
        texts_view(v) == ja_views(sources),
{
    lemma_ja_texts_view(v, sources);
}

pub proof fn lemma_examples_view_pub(v: Seq<DictionaryExample>, sources: Seq<Seq<char>>)
    requires
        examples_match(v, sources),
    ensures
        examples_view(v) == ja_example_views(sources),
{
    lemma_examples_view(v, sources);
}

pub proof fn lemma_promoted_view_pub(before: DictionarySense, after: DictionarySense)
    requires
        promoted(before, after),
    ensures
        sense_view(after) == promote_view(sense_view(before)),
{
    lemma_promoted_view(before, after);
}

pub fn sense_id_string_pub(id: usize) -> (r: String)
    ensures
        r@ == sense_id_of(id),
{
    sense_id_string(id)
}

pub fn next_counter_pub(c: usize) -> (r: usize)
    ensures
        r == next_counter(c),
{
    next_counter_exec(c)
}

pub proof fn lemma_examples_len(sources: Seq<Seq<char>>)
    ensures
        ja_example_views(sources).len() == sources.len(),
{
}

pub proof fn lemma_senses_view_index(ss: Seq<DictionarySense>, i: int)
    requires
        0 <= i < ss.len(),
    ensures
        senses_view(ss)[i] == sense_view(ss[i]),
        senses_view(ss).len() == ss.len(),
    decreases ss.len(),
{
    lemma_senses_view_len(ss);
    if i > 0 {
        lemma_senses_view_index(ss.drop_first(), i - 1);
    }
}

} // verus!
