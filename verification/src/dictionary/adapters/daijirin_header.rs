//! The header fields of 大辞林 definitions: the global part of speech, the
//! bracketed note, the historical reading and the classical conjugation.
use vstd::prelude::*;
use crate::dictionary::adapters::common::{
    element_children, normalize_reading, normalize_visible_text, normalized_reading, normalized_visible,
};
use crate::dictionary::adapters::daijirin::{
    element_text, grammar_labels_of, has_direct_marker_pair, is_major_deco, local_grammar_labels, major_deco,
    marker_pair,
};
use crate::dictionary::adapters::daijirin_groups::{find_head_paragraph, head_paragraph, pos_label_of};
use crate::dictionary::adapters::daijirin_text::{first_captures, group_at, opt_view};
use crate::html::{
    by_class, by_name, collect_text, element_view, lemma_nodes_view_index, lemma_nodes_view_len, nodes_text,
    nodes_view, refs_view, spec_has_class, ElementView, HtmlElement, HtmlNode, NodeView,
};
use crate::text::{chars_of, is_whitespace, push_char, push_str, regex_captures, spec_is_whitespace, str_eq, string_from_chars};
use crate::token::strings_view;

verus! {

/// Where the first numeral heading or nested sense container is among nodes, or their length.
pub open spec fn first_group_start(ns: Seq<NodeView>, with_major: bool) -> int
    decreases ns.len(),
{
    if ns.len() == 0 {
        0
    } else if ns[0] matches NodeView::Element(e) && ((with_major && major_deco(e)) || marker_pair(e)) {
        0
    } else {
        1 + first_group_start(ns.drop_first(), with_major)
    }
}

fn first_group_start_exec(nodes: &[HtmlNode], with_major: bool) -> (r: usize)
    ensures
        r == first_group_start(nodes_view(nodes@), with_major),
        r <= nodes.len(),
{
    let ghost nv = nodes_view(nodes@);
    proof {
        lemma_nodes_view_len(nodes@);
        assert(nv.skip(0) == nv);
    }
    let mut i: usize = 0;
    while i < nodes.len()
        invariant
            i <= nodes.len(),
            nv == nodes_view(nodes@),
            nv.len() == nodes@.len(),
            first_group_start(nv, with_major) == i + first_group_start(nv.skip(i as int), with_major),
        decreases nodes.len() - i,
    {
        proof {
            lemma_nodes_view_index(nodes@, i as int);
            assert(nv.skip(i as int)[0] == nv[i as int]);
            assert(nv.skip(i as int).drop_first() == nv.skip(i + 1));
        }
        match &nodes[i] {
            HtmlNode::Element(e) => {
                assert(nv[i as int] == NodeView::Element(element_view(*e)));
                if (with_major && is_major_deco(e)) || has_direct_marker_pair(e) {
                    return i;
                }
            },
            HtmlNode::Text(_) => {},
        }
        i += 1;
    }
    assert(nv.skip(i as int).len() == 0);
    i
}

/// The normalised text of the head paragraph's nodes before its first group.
pub open spec fn head_prefix_text(p: ElementView, with_major: bool) -> Seq<char> {
    normalized_visible(collect_text(p.children.take(first_group_start(p.children, with_major)), seq![], seq![]))
}

fn head_prefix_text_exec(p: &HtmlElement, with_major: bool) -> (r: String)
    ensures
        r@ == head_prefix_text(element_view(*p), with_major),
{
    let nodes = p.children.as_slice();
    let end = first_group_start_exec(nodes, with_major);
    let prefix = vstd::slice::slice_subrange(nodes, 0, end);
    proof {
        crate::dictionary::adapters::daijirin_groups::lemma_nodes_view_subrange(nodes@, 0, end as int);
        assert(nodes@.subrange(0, end as int) == prefix@);
        assert(nodes_view(nodes@).subrange(0, end as int) == nodes_view(nodes@).take(end as int));
    }
    let text = nodes_text(prefix);
    normalize_visible_text(text.as_str())
}

/// The part of speech the head paragraph names before its first group.
pub open spec fn global_pos(root: ElementView) -> Option<Seq<char>> {
    match head_paragraph(by_name(root, "p"@)) {
        None => None,
        Some(p) => pos_label_of(head_prefix_text(p, true)),
    }
}

fn head_of(root: &HtmlElement) -> (r: Option<&HtmlElement>)
    ensures
        match r {
            Some(p) => head_paragraph(by_name(element_view(*root), "p"@)) == Some(element_view(*p)),
            None => head_paragraph(by_name(element_view(*root), "p"@)) is None,
        },
{
    let mut paragraphs: Vec<&HtmlElement> = Vec::new();
    root.all_by_name("p", &mut paragraphs);
    assert(refs_view(paragraphs@) =~= by_name(element_view(*root), "p"@));
    find_head_paragraph(&paragraphs)
}

pub fn global_pos_label(root: &HtmlElement) -> (r: Option<String>)
    ensures
        opt_view(r) == global_pos(element_view(*root)),
{
    let paragraph = match head_of(root) {
        Some(p) => p,
        None => {
            return None;
        },
    };
    let text = head_prefix_text_exec(paragraph, true);
    crate::dictionary::adapters::daijirin_groups::pos_label_exec_pub(text.as_str())
}

pub open spec fn bracket_note_pattern() -> Seq<char> {
    "〔([^〕]+)〕"@
}

/// The bracketed note of the head paragraph before its nested senses.
pub open spec fn bracket_note(root: ElementView) -> Option<Seq<char>> {
    match head_paragraph(by_name(root, "p"@)) {
        None => None,
        Some(p) => match first_captures(bracket_note_pattern(), head_prefix_text(p, false)) {
            Some(g) => match group_at(g, 1) {
                Some(v) => if normalized_visible(v).len() > 0 { Some(normalized_visible(v)) } else { None },
                None => None,
            },
            None => None,
        },
    }
}

pub fn header_bracket_note(root: &HtmlElement) -> (r: Option<String>)
    ensures
        opt_view(r) == bracket_note(element_view(*root)),
{
    let paragraph = match head_of(root) {
        Some(p) => p,
        None => {
            return None;
        },
    };
    let text = head_prefix_text_exec(paragraph, false);
    let groups = match regex_captures("〔([^〕]+)〕", text.as_str()) {
        Some(Some(g)) => g,
        _ => {
            return None;
        },
    };
    if groups.len() < 2 {
        return None;
    }
    match &groups[1] {
        Some(v) => {
            let n = normalize_visible_text(v.as_str());
            if n.as_str().is_empty() {
                None
            } else {
                Some(n)
            }
        },
        None => None,
    }
}

/// The reading in ruby right after the reading of the headword, when it reads as something.
pub open spec fn historical_reading_in(ns: Seq<NodeView>) -> Option<Seq<char>>
    decreases ns.len(),
{
    if ns.len() < 2 {
        None
    } else {
        match (ns[0], ns[1]) {
            (NodeView::Element(a), NodeView::Element(b)) => if spec_has_class(a, "bss"@) && spec_has_class(b, "ruby"@)
                && normalized_reading(collect_text(b.children, seq![], seq![])).len() > 0 {
                Some(normalized_reading(collect_text(b.children, seq![], seq![])))
            } else {
                historical_reading_in(ns.drop_first())
            },
            _ => historical_reading_in(ns.drop_first()),
        }
    }
}

pub open spec fn historical_reading(root: ElementView) -> Option<Seq<char>> {
    match head_paragraph(by_name(root, "p"@)) {
        None => None,
        Some(p) => historical_reading_in(p.children),
    }
}

pub fn header_historical_reading(root: &HtmlElement) -> (r: Option<String>)
    ensures
        opt_view(r) == historical_reading(element_view(*root)),
{
    let paragraph = match head_of(root) {
        Some(p) => p,
        None => {
            return None;
        },
    };
    let nodes = paragraph.children.as_slice();
    let ghost nv = nodes_view(nodes@);
    proof {
        lemma_nodes_view_len(nodes@);
        assert(nv.skip(0) == nv);
    }
    let mut i: usize = 0;
    assert(historical_reading(element_view(*root)) == historical_reading_in(nv));
    while nodes.len() - i > 1
        invariant
            i <= nodes.len(),
            historical_reading(element_view(*root)) == historical_reading_in(nv),
            nv == nodes_view(nodes@),
            nv.len() == nodes@.len(),
            historical_reading_in(nv) == historical_reading_in(nv.skip(i as int)),
        decreases nodes.len() - i,
    {
        proof {
            lemma_nodes_view_index(nodes@, i as int);
            lemma_nodes_view_index(nodes@, i + 1);
            assert(nv.skip(i as int)[0] == nv[i as int]);
            assert(nv.skip(i as int)[1] == nv[i + 1]);
            assert(nv.skip(i as int).drop_first() == nv.skip(i + 1));
        }
        match (&nodes[i], &nodes[i + 1]) {
            (HtmlNode::Element(a), HtmlNode::Element(b)) => {
                assert(nv[i as int] == NodeView::Element(element_view(*a)));
                assert(nv[i + 1] == NodeView::Element(element_view(*b)));
                if a.has_class("bss") && b.has_class("ruby") {
                    let text = b.text();
                    let value = normalize_reading(text.as_str());
                    if !value.as_str().is_empty() {
                        return Some(value);
                    }
                }
            },
            _ => {},
        }
        i += 1;
    }
    assert(nv.skip(i as int).len() < 2);
    None
}

/// The labels of local grammar in the head paragraph's small print.
pub open spec fn small_usage_labels(root: ElementView) -> Seq<Seq<char>> {
    match head_paragraph(by_name(root, "p"@)) {
        None => seq![],
        Some(p) => grammar_labels_of(by_class(p, "small"@)),
    }
}

pub fn header_small_usage_labels(root: &HtmlElement) -> (r: Vec<String>)
    ensures
        strings_view(r@) == small_usage_labels(element_view(*root)),
{
    match head_of(root) {
        Some(p) => {
            let labels = local_grammar_labels(p);
            assert(strings_view(labels@) =~= labels@.map_values(|f: String| f@));
            labels
        },
        None => {
            let v: Vec<String> = Vec::new();
            assert(strings_view(v@) =~= Seq::<Seq<char>>::empty());
            v
        },
    }
}

/// The text of the siblings after a heading, up to a line break or the next decoration.
pub open spec fn sibling_detail(ns: Seq<NodeView>, out: Seq<char>) -> Seq<char>
    decreases ns.len(),
{
    if ns.len() == 0 {
        out
    } else {
        match ns[0] {
            NodeView::Element(e) => if e.name == "br"@ || spec_has_class(e, "deco"@) {
                out
            } else {
                sibling_detail(ns.drop_first(), out + collect_text(e.children, seq![], seq![]))
            },
            NodeView::Text(t) => sibling_detail(ns.drop_first(), out + t),
        }
    }
}

/// The words of a text scanned so far, and the word being read.
pub open spec fn words_scan(s: Seq<char>) -> (Seq<Seq<char>>, Seq<char>)
    decreases s.len(),
{
    if s.len() == 0 {
        (seq![], seq![])
    } else {
        let (w, cur) = words_scan(s.drop_last());
        let c = s.last();
        if spec_is_whitespace(c) {
            if cur.len() > 0 { (w.push(cur), seq![]) } else { (w, seq![]) }
        } else {
            (w, cur.push(c))
        }
    }
}

/// The words of a text, split at runs of whitespace (`str::split_whitespace`).
pub open spec fn words(s: Seq<char>) -> Seq<Seq<char>> {
    let (w, cur) = words_scan(s);
    if cur.len() > 0 { w.push(cur) } else { w }
}

/// Parts joined with single spaces.
pub open spec fn join_space(parts: Seq<Seq<char>>) -> Seq<char>
    decreases parts.len(),
{
    if parts.len() == 0 {
        seq![]
    } else if parts.len() == 1 {
        parts[0]
    } else {
        join_space(parts.drop_last()) + seq![' '] + parts.last()
    }
}

/// The conjugation and the reading a classical-form note gives: the last word
/// is the reading, the words before it the conjugation.
pub open spec fn conjugation_of(detail: Seq<char>) -> Option<(Seq<char>, Seq<char>)> {
    let parts = words(normalized_visible(detail));
    let reading = if parts.len() > 0 { normalized_reading(parts.last()) } else { seq![] };
    let conj = normalized_visible(join_space(if parts.len() > 0 { parts.drop_last() } else { parts }));
    if conj.len() > 0 && reading.len() > 0 { Some((conj, reading)) } else { None }
}

/// The first classical-form note (`文`) in document order that gives both a
/// conjugation and a reading.
pub open spec fn conjugation_in(ns: Seq<NodeView>) -> Option<(Seq<char>, Seq<char>)>
    decreases ns,
{
    if ns.len() == 0 {
        None
    } else {
        let rest = ns.drop_first();
        match ns[0] {
            NodeView::Text(_) => conjugation_in(rest),
            NodeView::Element(c) => {
                let here = if spec_has_class(c, "deco"@) && element_text(c) == "文"@ {
                    conjugation_of(sibling_detail(rest, seq![]))
                } else {
                    None
                };
                match here {
                    Some(v) => Some(v),
                    None => match conjugation_in(c.children) {
                        Some(v) => Some(v),
                        None => conjugation_in(rest),
                    },
                }
            },
        }
    }
}

fn sibling_detail_exec(nodes: &[HtmlNode], from: usize) -> (r: String)
    requires
        from <= nodes.len(),
    ensures
        r@ == sibling_detail(nodes_view(nodes@).skip(from as int), seq![]),
{
    let ghost nv = nodes_view(nodes@);
    proof {
        lemma_nodes_view_len(nodes@);
    }
    let mut out = String::new();
    let mut i: usize = from;
    while i < nodes.len()
        invariant
            from <= i <= nodes.len(),
            nv == nodes_view(nodes@),
            nv.len() == nodes@.len(),
            sibling_detail(nv.skip(from as int), seq![]) == sibling_detail(nv.skip(i as int), out@),
        decreases nodes.len() - i,
    {
        proof {
            lemma_nodes_view_index(nodes@, i as int);
            assert(nv.skip(i as int)[0] == nv[i as int]);
            assert(nv.skip(i as int).drop_first() == nv.skip(i + 1));
        }
        match &nodes[i] {
            HtmlNode::Element(e) => {
                assert(nv[i as int] == NodeView::Element(element_view(*e)));
                if str_eq(e.name.as_str(), "br") || e.has_class("deco") {
                    return out;
                }
                let t = e.text();
                push_str(&mut out, t.as_str());
            },
            HtmlNode::Text(t) => {
                push_str(&mut out, t.as_str());
            },
        }
        i += 1;
    }
    assert(nv.skip(i as int).len() == 0);
    out
}

fn words_exec(s: &[char]) -> (r: Vec<String>)
    ensures
        strings_view(r@) == words(s@),
{
    let mut out: Vec<String> = Vec::new();
    let mut cur: Vec<char> = Vec::new();
    for i in 0..s.len()
        invariant
            words_scan(s@.take(i as int)) == (strings_view(out@), cur@),
    {
        assert(s@.take(i + 1).drop_last() == s@.take(i as int));
        assert(s@.take(i + 1).last() == s@[i as int]);
        let c = s[i];
        if is_whitespace(c) {
            if cur.len() > 0 {
                let ghost before = strings_view(out@);
                let ghost cv = cur@;
                out.push(string_from_chars(cur.as_slice()));
                assert(strings_view(out@) =~= before.push(cv));
            }
            cur = Vec::new();
        } else {
            cur.push(c);
        }
    }
    assert(s@.take(s.len() as int) == s@);
    if cur.len() > 0 {
        let ghost before = strings_view(out@);
        let ghost cv = cur@;
        out.push(string_from_chars(cur.as_slice()));
        assert(strings_view(out@) =~= before.push(cv));
    }
    out
}

fn join_space_exec(parts: &[String], n: usize) -> (r: String)
    requires
        n <= parts.len(),
    ensures
        r@ == join_space(strings_view(parts@).take(n as int)),
{
    let ghost pv = strings_view(parts@);
    let mut out = String::new();
    for i in 0..n
        invariant
            n <= parts.len(),
            pv == strings_view(parts@),
            out@ == join_space(pv.take(i as int)),
    {
        assert(pv.take(i + 1).drop_last() == pv.take(i as int));
        assert(pv.take(i + 1).last() == pv[i as int]);
        if i > 0 {
            push_char(&mut out, ' ');
        } else {
            assert(pv.take(i + 1) =~= seq![pv[0]]);
        }
        push_str(&mut out, parts[i].as_str());
    }
    out
}

fn conjugation_exec(detail: &str) -> (r: Option<(String, String)>)
    ensures
        match r {
            Some((c, d)) => conjugation_of(detail@) == Some((c@, d@)),
            None => conjugation_of(detail@) is None,
        },
{
    let normalized = normalize_visible_text(detail);
    let parts = words_exec(chars_of(normalized.as_str()).as_slice());
    let ghost pv = strings_view(parts@);
    let n = parts.len();
    let reading = if n > 0 { normalize_reading(parts[n - 1].as_str()) } else { String::new() };
    let keep = if n > 0 { n - 1 } else { 0 };
    let joined = join_space_exec(parts.as_slice(), keep);
    proof {
        if n > 0 {
            assert(pv.take(keep as int) == pv.drop_last());
            assert(pv.last() == parts@[n - 1]@);
        } else {
            assert(pv.take(0) =~= pv);
        }
    }
    let conjugation = normalize_visible_text(joined.as_str());
    if !conjugation.as_str().is_empty() && !reading.as_str().is_empty() {
        Some((conjugation, reading))
    } else {
        None
    }
}

fn conjugation_in_exec(nodes: &[HtmlNode]) -> (r: Option<(String, String)>)
    ensures
        match r {
            Some((c, d)) => conjugation_in(nodes_view(nodes@)) == Some((c@, d@)),
            None => conjugation_in(nodes_view(nodes@)) is None,
        },
    decreases nodes@,
{
    let ghost nv = nodes_view(nodes@);
    proof {
        lemma_nodes_view_len(nodes@);
        assert(nv.skip(0) == nv);
    }
    for i in 0..nodes.len()
        invariant
            nv == nodes_view(nodes@),
            nv.len() == nodes@.len(),
            conjugation_in(nv) == conjugation_in(nv.skip(i as int)),
    {
        proof {
            lemma_nodes_view_index(nodes@, i as int);
            assert(nv.skip(i as int)[0] == nv[i as int]);
            assert(nv.skip(i as int).drop_first() == nv.skip(i + 1));
        }
        match &nodes[i] {
            HtmlNode::Element(c) => {
                let ghost cv = element_view(*c);
                assert(nv[i as int] == NodeView::Element(cv));
                assert(cv.children == nodes_view(c.children@));
                if c.has_class("deco") {
                    let t = c.text();
                    let label = normalize_visible_text(t.as_str());
                    if str_eq(label.as_str(), "文") {
                        let detail = sibling_detail_exec(nodes, i + 1);
                        match conjugation_exec(detail.as_str()) {
                            Some(v) => {
                                return Some(v);
                            },
                            None => {},
                        }
                    }
                }
                assert(decreases_to!(nodes@ => nodes@[i as int]));
                match conjugation_in_exec(c.children.as_slice()) {
                    Some(v) => {
                        return Some(v);
                    },
                    None => {},
                }
            },
            HtmlNode::Text(_) => {},
        }
    }
    assert(nv.skip(nv.len() as int) =~= Seq::<NodeView>::empty());
    None
}

/// The classical conjugation and reading a definition notes after `文`.
pub fn historical_conjugation(root: &HtmlElement) -> (r: Option<(String, String)>)
    ensures
        match r {
            Some((c, d)) => conjugation_in(element_view(*root).children) == Some((c@, d@)),
            None => conjugation_in(element_view(*root).children) is None,
        },
{
    conjugation_in_exec(root.children.as_slice())
}

} // verus!
