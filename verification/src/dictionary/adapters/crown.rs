//! A CROWN definition read into one structured occurrence.
use vstd::prelude::*;
use crate::dictionary::adapters::common::{
    escape_html, escaped, html_text, normalize_visible_text, normalized_visible, sanitized_fallback, text,
};
use crate::dictionary::adapters::daijirin::class_text;
use crate::dictionary::adapters::common::{extract_links, finish, finished, links_from, links_view, normalize_reading, normalized_reading, tag};
use crate::dictionary::adapters::daijirin::{contains_seq, element_text};
use crate::dictionary::adapters::daijirin_adapt::forms_view;
use crate::dictionary::adapters::daijirin_text::tags_view;
use crate::dictionary::adapters::AdaptedOccurrence;
use crate::token::strings_view;
use crate::dictionary::adapters::daijirin_senses::{examples_view, sense_view, senses_view, text_view, texts_view, SenseView};
use crate::dictionary::adapters::daijirin_text::{opt_str, opt_view};
use crate::dictionary::adapters::section_view::{
    item_view, items_view, plain_item, section_view, sections_view, ExampleView, ItemView, LinkView, SectionView, TextView,
};
use crate::dictionary::lookup_state::{spec_trim, trim_chars};
use crate::dictionary::model::{
    DictionaryAdapterDiagnostics, DictionaryExample, DictionaryForm, DictionaryOccurrenceHeader, DictionarySection,
    DictionarySectionItem, DictionarySense, DictionaryTag, DictionaryText,
};
use crate::html::{
    by_class, by_name, collect_text, element_view, find_by_class, nodes_view, refs_view, spec_has_class, ElementView,
    HtmlElement, HtmlNode, NodeView,
};
use crate::import::epub::{find_char, first_index};
use crate::text::{chars_of, decimal, push_decimal, push_str, string_from_chars, string_from_range};

verus! {

/// The trimmed text between the first `〖` of a headword and the `〗` after it, when not empty.
pub open spec fn bracketed_origin(raw: Seq<char>) -> Option<Seq<char>> {
    match first_index(raw, '〖') {
        None => None,
        Some(s) => {
            let rest = raw.skip(s + 1);
            match first_index(rest, '〗') {
                None => None,
                Some(e) => if spec_trim(rest.take(e)).len() > 0 { Some(spec_trim(rest.take(e))) } else { None },
            }
        },
    }
}

/// The foreign word a headword names in `〖…〗`.
pub fn foreign_origin(raw_headword: &str) -> (r: Option<String>)
    ensures
        opt_view(r) == bracketed_origin(raw_headword@),
{
    let chars = chars_of(raw_headword);
    let start = match find_char(chars.as_slice(), '〖') {
        Some(s) => s,
        None => {
            return None;
        },
    };
    proof {
        crate::import::epub::lemma_first_index_pub(chars@, '〖');
    }
    let rest = string_from_range(chars.as_slice(), start + 1, chars.len());
    assert(rest@ == chars@.skip(start + 1));
    let rest_chars = chars_of(rest.as_str());
    let end = match find_char(rest_chars.as_slice(), '〗') {
        Some(e) => e,
        None => {
            return None;
        },
    };
    proof {
        crate::import::epub::lemma_first_index_pub(rest_chars@, '〗');
    }
    let inner = string_from_range(rest_chars.as_slice(), 0, end);
    assert(inner@ == rest_chars@.take(end as int));
    let trimmed = trim_chars(chars_of(inner.as_str()).as_slice());
    if trimmed.len() > 0 {
        Some(string_from_chars(trimmed.as_slice()))
    } else {
        None
    }
}

/// The brackets a qualifier may stand in.
pub open spec fn qualifier_bracket(c: char) -> bool {
    c == '｟' || c == '｠' || c == '（' || c == '）'
}

pub open spec fn strip_leading_brackets(s: Seq<char>) -> Seq<char>
    decreases s.len(),
{
    if s.len() > 0 && qualifier_bracket(s[0]) { strip_leading_brackets(s.drop_first()) } else { s }
}

pub open spec fn strip_trailing_brackets(s: Seq<char>) -> Seq<char>
    decreases s.len(),
{
    if s.len() > 0 && qualifier_bracket(s.last()) { strip_trailing_brackets(s.drop_last()) } else { s }
}

/// The text without qualifier brackets at either end.
pub open spec fn trim_brackets(s: Seq<char>) -> Seq<char> {
    strip_trailing_brackets(strip_leading_brackets(s))
}

fn is_qualifier_bracket(c: char) -> (b: bool)
    ensures
        b == qualifier_bracket(c),
{
    c == '｟' || c == '｠' || c == '（' || c == '）'
}

fn trim_brackets_exec(s: &str) -> (r: String)
    ensures
        r@ == trim_brackets(s@),
{
    let v = chars_of(s);
    let mut i: usize = 0;
    assert(v@.skip(0) == v@);
    while i < v.len() && is_qualifier_bracket(v[i])
        invariant
            i <= v.len(),
            strip_leading_brackets(v@) == strip_leading_brackets(v@.skip(i as int)),
        decreases v.len() - i,
    {
        assert(v@.skip(i as int).drop_first() == v@.skip(i + 1));
        assert(v@.skip(i as int)[0] == v@[i as int]);
        i += 1;
    }
    proof {
        if i < v.len() {
            assert(v@.skip(i as int)[0] == v@[i as int]);
        }
    }
    assert(strip_leading_brackets(v@) == v@.skip(i as int));
    let mut j: usize = v.len();
    while j > i && is_qualifier_bracket(v[j - 1])
        invariant
            i <= j <= v.len(),
            strip_trailing_brackets(v@.skip(i as int)) == strip_trailing_brackets(v@.subrange(i as int, j as int)),
        decreases j,
    {
        assert(v@.subrange(i as int, j as int).drop_last() == v@.subrange(i as int, j - 1));
        assert(v@.subrange(i as int, j as int).last() == v@[j - 1]);
        j -= 1;
    }
    proof {
        assert(v@.subrange(i as int, v.len() as int) == v@.skip(i as int));
        if j > i {
            assert(v@.subrange(i as int, j as int).last() == v@[j - 1]);
        }
    }
    string_from_range(v.as_slice(), i, j)
}

/// The inline HTML of a CROWN example: text escaped, ruby boxes with a base
/// and a reading written as ruby (others read through), pinyin left out.
pub open spec fn crown_inline(nodes: Seq<NodeView>, out: Seq<char>) -> Seq<char>
    decreases nodes,
{
    if nodes.len() == 0 {
        out
    } else {
        let next = match nodes[0] {
            NodeView::Text(t) => out + escaped(t),
            NodeView::Element(e) => if spec_has_class(e, "ruby_box"@) {
                match (class_text(e, "mj_rb"@), class_text(e, "mj_rt"@)) {
                    (Some(base), Some(reading)) => out + "<ruby>"@ + escaped(base) + "<rt>"@ + escaped(reading)
                        + "</rt></ruby>"@,
                    _ => crown_inline(e.children, out),
                }
            } else if spec_has_class(e, "pinyin_box"@) {
                out
            } else {
                crown_inline(e.children, out)
            },
        };
        crown_inline(nodes.drop_first(), next)
    }
}

fn render_crown_inline(nodes: &[HtmlNode], output: &mut String)
    ensures
        final(output)@ == crown_inline(nodes_view(nodes@), old(output)@),
    decreases nodes@,
{
    let ghost start = output@;
    proof {
        crate::html::lemma_nodes_view_len(nodes@);
        assert(nodes_view(nodes@).skip(0) == nodes_view(nodes@));
    }
    for i in 0..nodes.len()
        invariant
            crown_inline(nodes_view(nodes@), start) == crown_inline(nodes_view(nodes@).skip(i as int), output@),
            nodes_view(nodes@).len() == nodes@.len(),
    {
        let ghost nv = nodes_view(nodes@);
        proof {
            crate::html::lemma_nodes_view_index(nodes@, i as int);
            assert(nv.skip(i as int)[0] == nv[i as int]);
            assert(nv.skip(i as int).drop_first() == nv.skip(i + 1));
        }
        match &nodes[i] {
            HtmlNode::Text(t) => {
                let escaped_text = escape_html(t.as_str());
                push_str(output, escaped_text.as_str());
            },
            HtmlNode::Element(element) => {
                if element.has_class("ruby_box") {
                    let base = crate::dictionary::adapters::daijirin::first_class_text(element, "mj_rb");
                    let reading = crate::dictionary::adapters::daijirin::first_class_text(element, "mj_rt");
                    match (base, reading) {
                        (Some(b), Some(r)) => {
                            push_str(output, "<ruby>");
                            push_str(output, escape_html(b.as_str()).as_str());
                            push_str(output, "<rt>");
                            push_str(output, escape_html(r.as_str()).as_str());
                            push_str(output, "</rt></ruby>");
                        },
                        _ => {
                            assert(decreases_to!(nodes@ => nodes@[i as int]));
                            render_crown_inline(element.children.as_slice(), output);
                        },
                    }
                } else if element.has_class("pinyin_box") {
                } else {
                    assert(decreases_to!(nodes@ => nodes@[i as int]));
                    render_crown_inline(element.children.as_slice(), output);
                }
            },
        }
    }
}

/// Simplified Chinese text made from `value`.
pub open spec fn zh_view(value: Seq<char>) -> TextView {
    ("zh-CN"@, None, escaped(normalized_visible(value)))
}

/// An element's text without its pinyin, normalised.
pub open spec fn unpinyin_text(e: ElementView) -> Seq<char> {
    normalized_visible(collect_text(e.children, seq![], seq!["pinyin_box"@]))
}

/// The translation an example pair gives, when not empty.
pub open spec fn translation_of(pair: ElementView) -> Option<Seq<char>> {
    match find_by_class(pair, "mean_reiyaku"@) {
        Some(t) => if unpinyin_text(t).len() > 0 { Some(unpinyin_text(t)) } else { None },
        None => None,
    }
}

/// The example an example source gives with a translation, when its inline HTML is not blank.
pub open spec fn example_of(source: ElementView, translation: Option<Seq<char>>) -> Option<ExampleView> {
    let html = normalized_visible(crown_inline(source.children, seq![]));
    if html.len() == 0 {
        None
    } else {
        Some((
            ("ja"@, None, spec_trim(sanitized_fallback(html))),
            match translation {
                Some(t) => if normalized_visible(t).len() > 0 { Some(zh_view(normalized_visible(t))) } else { None },
                None => None,
            },
            None,
        ))
    }
}

/// The examples of example pairs, in order.
pub open spec fn examples_in(pairs: Seq<ElementView>) -> Seq<ExampleView>
    decreases pairs.len(),
{
    if pairs.len() == 0 {
        seq![]
    } else {
        let prev = examples_in(pairs.drop_last());
        match find_by_class(pairs.last(), "mean_yorei"@) {
            Some(s) => match example_of(s, translation_of(pairs.last())) {
                Some(x) => prev.push(x),
                None => prev,
            },
            None => prev,
        }
    }
}

fn unpinyin(element: &HtmlElement) -> (r: String)
    ensures
        r@ == unpinyin_text(element_view(*element)),
{
    let excluded: Vec<&str> = vec!["pinyin_box"];
    let raw = element.text_excluding_classes(excluded.as_slice());
    assert(excluded@.map_values(|s: &str| s@) =~= seq!["pinyin_box"@]);
    normalize_visible_text(raw.as_str())
}

/// The example of a source element, with its translation.
pub fn crown_example(source: &HtmlElement, translation: Option<&str>) -> (r: Option<DictionaryExample>)
    ensures
        match r {
            Some(x) => example_of(element_view(*source), opt_str(translation)) == Some(examples_view(seq![x])[0]),
            None => example_of(element_view(*source), opt_str(translation)) is None,
        },
{
    let mut inline = String::new();
    render_crown_inline(source.children.as_slice(), &mut inline);
    let source_html = normalize_visible_text(inline.as_str());
    if source_html.as_str().is_empty() {
        return None;
    }
    let translated = match translation {
        Some(t) => {
            let n = normalize_visible_text(t);
            if n.as_str().is_empty() {
                None
            } else {
                Some(text("zh-CN", n.as_str()))
            }
        },
        None => None,
    };
    let x = DictionaryExample { source: html_text("ja", source_html.as_str()), translation: translated, note: None };
    assert(examples_view(seq![x])[0] == crate::dictionary::adapters::daijirin_senses::example_view(x));
    Some(x)
}

/// The examples of an element's example pairs.
fn element_examples(element: &HtmlElement) -> (r: Vec<DictionaryExample>)
    ensures
        examples_view(r@) == examples_in(by_class(element_view(*element), "mean_yoreiyaku"@)),
{
    let mut pairs: Vec<&HtmlElement> = Vec::new();
    element.all_by_class("mean_yoreiyaku", &mut pairs);
    let ghost pv = refs_view(pairs@);
    assert(pv =~= by_class(element_view(*element), "mean_yoreiyaku"@));
    let mut out: Vec<DictionaryExample> = Vec::new();
    for i in 0..pairs.len()
        invariant
            pv == refs_view(pairs@),
            examples_view(out@) == examples_in(pv.take(i as int)),
    {
        assert(pv.take(i + 1).drop_last() == pv.take(i as int));
        assert(pv.take(i + 1).last() == pv[i as int]);
        let pair = pairs[i];
        let translation = match pair.first_by_class("mean_reiyaku") {
            Some(t) => {
                let v = unpinyin(t);
                if v.as_str().is_empty() {
                    None
                } else {
                    Some(v)
                }
            },
            None => None,
        };
        let tr: Option<&str> = match &translation {
            Some(v) => Some(v.as_str()),
            None => None,
        };
        assert(opt_str(tr) == translation_of(pv[i as int]));
        match pair.first_by_class("mean_yorei") {
            Some(source) => match crown_example(source, tr) {
                Some(x) => {
                    let ghost before = out@;
                    out.push(x);
                    assert(examples_view(out@) =~= examples_view(before).push(examples_view(seq![x])[0]));
                },
                None => {},
            },
            None => {},
        }
    }
    assert(pv.take(pairs.len() as int) == pv);
    out
}


/// The qualifier of a gloss box, without its brackets, when not empty.
pub open spec fn qualifier_of(b: ElementView) -> Option<Seq<char>> {
    match class_text(b, "mean_shokubun"@) {
        Some(v) => if trim_brackets(v).len() > 0 { Some(trim_brackets(v)) } else { None },
        None => None,
    }
}

/// A Chinese gloss under a qualifier, when there is one.
pub open spec fn gloss_item(q: Option<Seq<char>>, value: Seq<char>) -> TextView {
    match q {
        Some(q) => (
            "zh-CN"@,
            if normalized_visible(q).len() > 0 { Some(normalized_visible(q)) } else { None },
            escaped(normalized_visible(value)),
        ),
        None => zh_view(value),
    }
}

/// The qualifier and HTML of each text.
pub open spec fn qualified_htmls(v: Seq<TextView>) -> Seq<(Option<Seq<char>>, Seq<char>)> {
    v.map_values(|t: TextView| (t.1, t.2))
}

/// The glosses of a box's values added to `prev`, skipping blank values and
/// any gloss with the qualifier and HTML of one already there.
pub open spec fn box_glosses(prev: Seq<TextView>, q: Option<Seq<char>>, values: Seq<ElementView>) -> Seq<TextView>
    decreases values.len(),
{
    if values.len() == 0 {
        prev
    } else {
        let acc = box_glosses(prev, q, values.drop_last());
        let v = unpinyin_text(values.last());
        if v.len() == 0 {
            acc
        } else if qualified_htmls(acc).contains((gloss_item(q, v).1, gloss_item(q, v).2)) {
            acc
        } else {
            acc.push(gloss_item(q, v))
        }
    }
}

/// The glosses of gloss boxes, in order.
pub open spec fn boxes_glosses(boxes: Seq<ElementView>) -> Seq<TextView>
    decreases boxes.len(),
{
    if boxes.len() == 0 {
        seq![]
    } else {
        box_glosses(boxes_glosses(boxes.drop_last()), qualifier_of(boxes.last()), by_class(boxes.last(), "mean_yakugo"@))
    }
}

/// The non-blank texts of elements as Chinese texts.
pub open spec fn plain_glosses(values: Seq<ElementView>) -> Seq<TextView>
    decreases values.len(),
{
    if values.len() == 0 {
        seq![]
    } else {
        let prev = plain_glosses(values.drop_last());
        if unpinyin_text(values.last()).len() > 0 { prev.push(zh_view(unpinyin_text(values.last()))) } else { prev }
    }
}

/// The glosses of a sense: those of its gloss boxes, else its plain translations.
pub open spec fn glosses_of(e: ElementView) -> Seq<TextView> {
    let boxed = boxes_glosses(by_class(e, "yakugo_sub_box"@));
    if boxed.len() > 0 { boxed } else { plain_glosses(by_class(e, "mean_yakugo"@)) }
}

fn opt_string_eq(a: &Option<String>, b: &Option<String>) -> (r: bool)
    ensures
        r == (opt_view(*a) == opt_view(*b)),
{
    match (a, b) {
        (Some(x), Some(y)) => crate::text::str_eq(x.as_str(), y.as_str()),
        (None, None) => true,
        _ => false,
    }
}

fn has_gloss(glosses: &Vec<DictionaryText>, item: &DictionaryText) -> (b: bool)
    ensures
        b == qualified_htmls(texts_view(glosses@)).contains((opt_view(item.qualifier), item.html@)),
{
    let ghost q = qualified_htmls(texts_view(glosses@));
    for i in 0..glosses.len()
        invariant
            q == qualified_htmls(texts_view(glosses@)),
            forall|k: int| 0 <= k < i ==> q[k] != (opt_view(item.qualifier), item.html@),
    {
        if opt_string_eq(&glosses[i].qualifier, &item.qualifier)
            && crate::text::str_eq(glosses[i].html.as_str(), item.html.as_str()) {
            assert(q[i as int] == (opt_view(item.qualifier), item.html@));
            return true;
        }
    }
    false
}

fn add_box_glosses(glosses: &mut Vec<DictionaryText>, qualifier: &Option<String>, values: &Vec<&HtmlElement>)
    ensures
        texts_view(final(glosses)@) == box_glosses(texts_view(old(glosses)@), opt_view(*qualifier), refs_view(values@)),
{
    let ghost start = texts_view(glosses@);
    let ghost vv = refs_view(values@);
    for i in 0..values.len()
        invariant
            vv == refs_view(values@),
            texts_view(glosses@) == box_glosses(start, opt_view(*qualifier), vv.take(i as int)),
    {
        assert(vv.take(i + 1).drop_last() == vv.take(i as int));
        assert(vv.take(i + 1).last() == vv[i as int]);
        let value = unpinyin(values[i]);
        if !value.as_str().is_empty() {
            let item = match qualifier {
                Some(q) => crate::dictionary::adapters::common::qualified_text("zh-CN", q.as_str(), value.as_str()),
                None => text("zh-CN", value.as_str()),
            };
            assert(text_view(item) == gloss_item(opt_view(*qualifier), value@));
            if !has_gloss(glosses, &item) {
                let ghost before = texts_view(glosses@);
                glosses.push(item);
                assert(texts_view(glosses@) =~= before.push(text_view(item)));
            }
        }
    }
    assert(vv.take(values.len() as int) == vv);
}

fn plain_glosses_exec(values: &Vec<&HtmlElement>) -> (r: Vec<DictionaryText>)
    ensures
        texts_view(r@) == plain_glosses(refs_view(values@)),
{
    let ghost vv = refs_view(values@);
    let mut out: Vec<DictionaryText> = Vec::new();
    for i in 0..values.len()
        invariant
            vv == refs_view(values@),
            texts_view(out@) == plain_glosses(vv.take(i as int)),
    {
        assert(vv.take(i + 1).drop_last() == vv.take(i as int));
        assert(vv.take(i + 1).last() == vv[i as int]);
        let value = unpinyin(values[i]);
        if !value.as_str().is_empty() {
            let ghost before = texts_view(out@);
            let item = text("zh-CN", value.as_str());
            out.push(item);
            assert(texts_view(out@) =~= before.push(text_view(item)));
        }
    }
    assert(vv.take(values.len() as int) == vv);
    out
}

/// The glosses of a sense element.
pub fn crown_glosses(element: &HtmlElement) -> (r: Vec<DictionaryText>)
    ensures
        texts_view(r@) == glosses_of(element_view(*element)),
{
    let mut boxes: Vec<&HtmlElement> = Vec::new();
    element.all_by_class("yakugo_sub_box", &mut boxes);
    let ghost bv = refs_view(boxes@);
    assert(bv =~= by_class(element_view(*element), "yakugo_sub_box"@));
    let mut glosses: Vec<DictionaryText> = Vec::new();
    for i in 0..boxes.len()
        invariant
            bv == refs_view(boxes@),
            texts_view(glosses@) == boxes_glosses(bv.take(i as int)),
    {
        assert(bv.take(i + 1).drop_last() == bv.take(i as int));
        assert(bv.take(i + 1).last() == bv[i as int]);
        let b = boxes[i];
        let qualifier = match crate::dictionary::adapters::daijirin::first_class_text(b, "mean_shokubun") {
            Some(v) => {
                let t = trim_brackets_exec(v.as_str());
                if t.as_str().is_empty() {
                    None
                } else {
                    Some(t)
                }
            },
            None => None,
        };
        assert(opt_view(qualifier) == qualifier_of(bv[i as int]));
        let mut values: Vec<&HtmlElement> = Vec::new();
        b.all_by_class("mean_yakugo", &mut values);
        assert(refs_view(values@) =~= by_class(bv[i as int], "mean_yakugo"@));
        add_box_glosses(&mut glosses, &qualifier, &values);
    }
    assert(bv.take(boxes.len() as int) == bv);
    if glosses.len() == 0 {
        let mut values: Vec<&HtmlElement> = Vec::new();
        element.all_by_class("mean_yakugo", &mut values);
        assert(refs_view(values@) =~= by_class(element_view(*element), "mean_yakugo"@));
        glosses = plain_glosses_exec(&values);
    }
    glosses
}

/// The classes a sense's residual text leaves out.
pub open spec fn residual_excluded() -> Seq<Seq<char>> {
    seq!["kg_gogi"@, "group_yoreiyaku"@, "pinyin_box"@, "eiyaku_box"@, "mean_kubun"@, "mean_eiyaku_kubun"@]
}

/// The heading of a sense: its division, else its English division.
pub open spec fn heading_of(e: ElementView) -> Option<Seq<char>> {
    match class_text(e, "mean_kubun"@) {
        Some(h) => Some(h),
        None => class_text(e, "mean_eiyaku_kubun"@),
    }
}

/// The sense the `index`-th sense element gives: numbered from one, its
/// marker, heading, glosses, examples and links, and, when it has no
/// glosses, its remaining text as a Japanese definition.
pub open spec fn crown_sense(e: ElementView, index: nat) -> SenseView {
    let glosses = glosses_of(e);
    let residual = normalized_visible(collect_text(e.children, seq![], residual_excluded()));
    SenseView {
        sense_id: seq!['s'] + decimal(index + 1),
        marker: class_text(e, "kg_gogi"@),
        heading: heading_of(e),
        glosses,
        gloss_groups: seq![],
        definitions: if glosses.len() == 0 && residual.len() > 0 {
            seq![("ja"@, None, escaped(normalized_visible(residual)))]
        } else {
            seq![]
        },
        tags: seq![],
        examples: examples_in(by_class(e, "mean_yoreiyaku"@)),
        notes: seq![],
        relations: links_from(by_name(e, "a"@), "reference"@),
        children: seq![],
    }
}

/// The senses of sense elements, numbered in order.
pub open spec fn crown_senses(els: Seq<ElementView>) -> Seq<SenseView>
    decreases els.len(),
{
    if els.len() == 0 {
        seq![]
    } else {
        crown_senses(els.drop_last()).push(crown_sense(els.last(), (els.len() - 1) as nat))
    }
}

proof fn lemma_crown_senses_len(els: Seq<ElementView>)
    ensures
        crown_senses(els).len() == els.len(),
    decreases els.len(),
{
    if els.len() > 0 {
        lemma_crown_senses_len(els.drop_last());
    }
}

/// Reads the `index`-th sense element.
fn sense_of(element: &HtmlElement, index: usize) -> (r: DictionarySense)
    requires
        index < usize::MAX,
    ensures
        sense_view(r) == crown_sense(element_view(*element), index as nat),
{
    proof {
        reveal_strlit("s");
    }
    let mut sense_id = String::from_str("s");
    push_decimal(&mut sense_id, (index + 1) as u64);
    assert(sense_id@ == seq!['s'] + decimal(index as nat + 1));
    let marker = crate::dictionary::adapters::daijirin::first_class_text(element, "kg_gogi");
    let heading = match crate::dictionary::adapters::daijirin::first_class_text(element, "mean_kubun") {
        Some(h) => Some(h),
        None => crate::dictionary::adapters::daijirin::first_class_text(element, "mean_eiyaku_kubun"),
    };
    let glosses = crown_glosses(element);
    let examples = element_examples(element);
    let relations = extract_links(element, "reference");
    let mut definitions: Vec<DictionaryText> = Vec::new();
    if glosses.len() == 0 {
        let excluded: Vec<&str> = vec!["kg_gogi", "group_yoreiyaku", "pinyin_box", "eiyaku_box", "mean_kubun", "mean_eiyaku_kubun"];
        assert(excluded@.map_values(|s: &str| s@) =~= residual_excluded());
        let raw = element.text_excluding_classes(excluded.as_slice());
        let residual = normalize_visible_text(raw.as_str());
        if !residual.as_str().is_empty() {
            definitions.push(text("ja", residual.as_str()));
        }
    }
    proof {
        lemma_texts_len(glosses@);
    }
    let r = DictionarySense {
        sense_id,
        marker,
        heading,
        glosses,
        gloss_groups: Vec::new(),
        definitions,
        tags: Vec::new(),
        examples,
        notes: Vec::new(),
        relations,
        children: Vec::new(),
    };
    proof {
        assert(texts_view(r.definitions@) =~= crown_sense(element_view(*element), index as nat).definitions);
        assert(texts_view(r.notes@) =~= Seq::<TextView>::empty());
        assert(crate::dictionary::adapters::daijirin_text::tags_view(r.tags@) =~= Seq::<(Seq<char>, Seq<char>)>::empty());
        assert(senses_view(r.children@) =~= Seq::<SenseView>::empty());
        assert(crate::dictionary::adapters::section_view::groups_view(r.gloss_groups@) =~= Seq::<crate::dictionary::adapters::section_view::GroupView>::empty());
        assert(sense_view(r).sense_id == crown_sense(element_view(*element), index as nat).sense_id);
        assert(sense_view(r).definitions == crown_sense(element_view(*element), index as nat).definitions);
        assert(sense_view(r).glosses == crown_sense(element_view(*element), index as nat).glosses);
        assert(sense_view(r).heading == crown_sense(element_view(*element), index as nat).heading);
        assert(sense_view(r).relations == crown_sense(element_view(*element), index as nat).relations);
    }
    r
}

proof fn lemma_texts_len(v: Seq<DictionaryText>)
    ensures
        texts_view(v).len() == v.len(),
{
}

/// The item an item element gives: its label, its translations (else its
/// remaining text when it has no translation and no example), its examples
/// and its links; nothing when all of these are missing.
pub open spec fn crown_item(item: ElementView, label_class: Seq<char>) -> Option<ItemView> {
    let label = class_text(item, label_class);
    let content = plain_glosses(by_class(item, "mean_yakugo"@));
    let examples = examples_in(by_class(item, "mean_yoreiyaku"@));
    let rest = normalized_visible(collect_text(item.children, seq![], seq![label_class, "pinyin_box"@, "eiyaku_box"@]));
    let fallback = if content.len() == 0 && examples.len() == 0 && rest.len() > 0 { seq![zh_view(rest)] } else { seq![] };
    if label is None && content.len() == 0 && fallback.len() == 0 && examples.len() == 0 {
        None
    } else {
        Some(plain_item(
            label,
            if content.len() == 0 { fallback } else { content },
            examples,
            links_from(by_name(item, "a"@), "reference"@),
        ))
    }
}

/// The items of item elements, in order.
pub open spec fn crown_items(items: Seq<ElementView>, label_class: Seq<char>) -> Seq<ItemView>
    decreases items.len(),
{
    if items.len() == 0 {
        seq![]
    } else {
        let prev = crown_items(items.drop_last(), label_class);
        match crown_item(items.last(), label_class) {
            Some(v) => prev.push(v),
            None => prev,
        }
    }
}

/// The item elements of a group: those classed `item_class`, else the group itself.
pub open spec fn group_items(group: ElementView, item_class: Seq<char>) -> Seq<ElementView> {
    if by_class(group, item_class).len() == 0 { seq![group] } else { by_class(group, item_class) }
}

/// The items of groups, in order.
pub open spec fn groups_items(groups: Seq<ElementView>, item_class: Seq<char>, label_class: Seq<char>) -> Seq<ItemView>
    decreases groups.len(),
{
    if groups.len() == 0 {
        seq![]
    } else {
        groups_items(groups.drop_last(), item_class, label_class) + crown_items(group_items(groups.last(), item_class), label_class)
    }
}

/// The section a group class gives, when it has items.
pub open spec fn crown_section(
    root: ElementView,
    class: Seq<char>,
    kind: Seq<char>,
    label: Seq<char>,
    item_class: Seq<char>,
    label_class: Seq<char>,
) -> Seq<SectionView> {
    let items = groups_items(by_class(root, class), item_class, label_class);
    if items.len() > 0 { seq![(kind, Some(label), items)] } else { seq![] }
}

fn item_of(item: &HtmlElement, label_class: &str) -> (r: Option<DictionarySectionItem>)
    ensures
        match r {
            Some(x) => crown_item(element_view(*item), label_class@) == Some(item_view(x)),
            None => crown_item(element_view(*item), label_class@) is None,
        },
{
    let label = crate::dictionary::adapters::daijirin::first_class_text(item, label_class);
    let mut values: Vec<&HtmlElement> = Vec::new();
    item.all_by_class("mean_yakugo", &mut values);
    assert(refs_view(values@) =~= by_class(element_view(*item), "mean_yakugo"@));
    let content = plain_glosses_exec(&values);
    let examples = element_examples(item);
    let mut fallback: Vec<DictionaryText> = Vec::new();
    if content.len() == 0 && examples.len() == 0 {
        let excluded: Vec<&str> = vec![label_class, "pinyin_box", "eiyaku_box"];
        assert(excluded@.map_values(|s: &str| s@) =~= seq![label_class@, "pinyin_box"@, "eiyaku_box"@]);
        let raw = item.text_excluding_classes(excluded.as_slice());
        let rest = normalize_visible_text(raw.as_str());
        if !rest.as_str().is_empty() {
            fallback.push(text("zh-CN", rest.as_str()));
        }
    }
    proof {
        lemma_texts_len(content@);
        lemma_texts_len(fallback@);
        assert(examples_view(examples@).len() == examples@.len());
    }
    if label.is_none() && content.len() == 0 && fallback.len() == 0 && examples.len() == 0 {
        return None;
    }
    let relations = extract_links(item, "reference");
    let x = DictionarySectionItem {
        label,
        label_html: None,
        reading: None,
        content: if content.len() == 0 { fallback } else { content },
        tags: Vec::new(),
        examples,
        senses: Vec::new(),
        relations,
    };
    proof {
        assert(crate::dictionary::adapters::daijirin_text::tags_view(x.tags@) =~= Seq::<(Seq<char>, Seq<char>)>::empty());
        assert(senses_view(x.senses@) =~= Seq::<SenseView>::empty());
        if content@.len() == 0 {
            assert(texts_view(fallback@) =~= (if content@.len() == 0 && examples@.len() == 0
                && normalized_visible(collect_text(element_view(*item).children, seq![], seq![label_class@, "pinyin_box"@, "eiyaku_box"@])).len() > 0 {
                seq![zh_view(normalized_visible(collect_text(element_view(*item).children, seq![], seq![label_class@, "pinyin_box"@, "eiyaku_box"@])))]
            } else {
                Seq::<TextView>::empty()
            }));
        }
    }
    Some(x)
}

fn items_of(items: &Vec<&HtmlElement>, label_class: &str, out: &mut Vec<DictionarySectionItem>)
    ensures
        items_view(final(out)@) == items_view(old(out)@) + crown_items(refs_view(items@), label_class@),
{
    let ghost start = items_view(out@);
    let ghost iv = refs_view(items@);
    assert(start + crown_items(iv.take(0), label_class@) =~= start);
    for i in 0..items.len()
        invariant
            iv == refs_view(items@),
            items_view(out@) == start + crown_items(iv.take(i as int), label_class@),
    {
        assert(iv.take(i + 1).drop_last() == iv.take(i as int));
        assert(iv.take(i + 1).last() == iv[i as int]);
        match item_of(items[i], label_class) {
            Some(x) => {
                let ghost before = out@;
                out.push(x);
                assert(items_view(out@) =~= items_view(before).push(item_view(x)));
                assert(items_view(out@) =~= start + crown_items(iv.take(i + 1), label_class@));
            },
            None => {},
        }
    }
    assert(iv.take(items.len() as int) == iv);
}

/// Reads the items of the groups classed `class` into a section.
pub fn parse_section(
    root: &HtmlElement,
    class: &str,
    kind: &str,
    label: &str,
    item_class: &str,
    label_class: &str,
) -> (r: Option<DictionarySection>)
    ensures
        crown_section(element_view(*root), class@, kind@, label@, item_class@, label_class@) == match r {
            Some(x) => seq![section_view(x)],
            None => Seq::<SectionView>::empty(),
        },
{
    let mut groups: Vec<&HtmlElement> = Vec::new();
    root.all_by_class(class, &mut groups);
    let ghost gv = refs_view(groups@);
    assert(gv =~= by_class(element_view(*root), class@));
    let mut items: Vec<DictionarySectionItem> = Vec::new();
    for i in 0..groups.len()
        invariant
            gv == refs_view(groups@),
            items_view(items@) == groups_items(gv.take(i as int), item_class@, label_class@),
    {
        assert(gv.take(i + 1).drop_last() == gv.take(i as int));
        assert(gv.take(i + 1).last() == gv[i as int]);
        let group = groups[i];
        let mut item_elements: Vec<&HtmlElement> = Vec::new();
        group.all_by_class(item_class, &mut item_elements);
        assert(refs_view(item_elements@) =~= by_class(gv[i as int], item_class@));
        if item_elements.len() == 0 {
            item_elements.push(group);
            assert(refs_view(item_elements@) =~= seq![gv[i as int]]);
        }
        items_of(&item_elements, label_class, &mut items);
    }
    assert(gv.take(groups.len() as int) == gv);
    if items.len() == 0 {
        return None;
    }
    let x = DictionarySection { kind: String::from_str(kind), label: Some(String::from_str(label)), items };
    Some(x)
}

/// The items of supplementary columns: each column's non-blank text.
pub open spec fn column_items(columns: Seq<ElementView>) -> Seq<ItemView>
    decreases columns.len(),
{
    if columns.len() == 0 {
        seq![]
    } else {
        let prev = column_items(columns.drop_last());
        let c = unpinyin_text(columns.last());
        if c.len() > 0 { prev.push(plain_item(None, seq![zh_view(c)], seq![], seq![])) } else { prev }
    }
}

/// The section of supplementary columns, when there are columns.
pub open spec fn column_section(root: ElementView) -> Seq<SectionView> {
    let columns = by_class(root, "item_sub_column"@);
    if columns.len() > 0 { seq![("notes"@, Some("补充说明"@), column_items(columns))] } else { seq![] }
}

fn columns_of(root: &HtmlElement) -> (r: Option<DictionarySection>)
    ensures
        column_section(element_view(*root)) == match r {
            Some(x) => seq![section_view(x)],
            None => Seq::<SectionView>::empty(),
        },
{
    let mut columns: Vec<&HtmlElement> = Vec::new();
    root.all_by_class("item_sub_column", &mut columns);
    let ghost cv = refs_view(columns@);
    assert(cv =~= by_class(element_view(*root), "item_sub_column"@));
    if columns.len() == 0 {
        return None;
    }
    let mut items: Vec<DictionarySectionItem> = Vec::new();
    for i in 0..columns.len()
        invariant
            cv == refs_view(columns@),
            items_view(items@) == column_items(cv.take(i as int)),
    {
        assert(cv.take(i + 1).drop_last() == cv.take(i as int));
        assert(cv.take(i + 1).last() == cv[i as int]);
        let content = unpinyin(columns[i]);
        if !content.as_str().is_empty() {
            let ghost before = items_view(items@);
            let t = text("zh-CN", content.as_str());
            let mut texts: Vec<DictionaryText> = Vec::new();
            texts.push(t);
            let x = DictionarySectionItem {
                label: None,
                label_html: None,
                reading: None,
                content: texts,
                tags: Vec::new(),
                examples: Vec::new(),
                senses: Vec::new(),
                relations: Vec::new(),
            };
            proof {
                assert(texts_view(x.content@) =~= seq![zh_view(content@)]);
                assert(crate::dictionary::adapters::daijirin_text::tags_view(x.tags@) =~= Seq::<(Seq<char>, Seq<char>)>::empty());
                assert(examples_view(x.examples@) =~= Seq::<ExampleView>::empty());
                assert(senses_view(x.senses@) =~= Seq::<SenseView>::empty());
                assert(crate::dictionary::adapters::common::links_view(x.relations@) =~= Seq::<LinkView>::empty());
                assert(item_view(x) == plain_item(None, seq![zh_view(content@)], seq![], seq![]));
            }
            items.push(x);
            assert(items_view(items@) =~= before.push(item_view(x)));
        }
    }
    assert(cv.take(columns.len() as int) == cv);
    Some(DictionarySection { kind: String::from_str("notes"), label: Some(String::from_str("补充说明")), items })
}

/// Whether `s` ends with `m`.
pub open spec fn ends_with_seq(s: Seq<char>, m: Seq<char>) -> bool {
    m.len() <= s.len() && s.skip(s.len() - m.len()) == m
}

/// The form an entry is written in: its written form, else the indexed headword.
pub open spec fn crown_display(root: ElementView, indexed: Seq<char>) -> Seq<char> {
    match class_text(root, "hw_hyoki"@) {
        Some(d) => d,
        None => indexed,
    }
}

/// The reading of the headword element, normalised, when not empty; else the structured reading.
pub open spec fn base_reading(root: ElementView, structured: Option<Seq<char>>) -> Option<Seq<char>> {
    let from_midashi = match find_by_class(root, "hw_midashi"@) {
        Some(x) => if normalized_reading(collect_text(x.children, seq![], seq![])).len() > 0 {
            Some(normalized_reading(collect_text(x.children, seq![], seq![])))
        } else {
            None
        },
        None => None,
    };
    match from_midashi {
        Some(r) => Some(r),
        None => match structured {
            Some(s) => Some(normalized_reading(s)),
            None => None,
        },
    }
}

/// The reading with the conjugated ending the written form ends with and the reading lacks.
pub open spec fn full_reading(base: Option<Seq<char>>, suffix: Option<Seq<char>>, display: Seq<char>) -> Option<Seq<char>> {
    match (base, suffix) {
        (Some(r), Some(s)) => if ends_with_seq(display, s) && !ends_with_seq(r, s) { Some(r + s) } else { Some(r) },
        _ => base,
    }
}

/// The forms of the header: the written form, then its stem before the
/// conjugated ending when that is not empty; all marked as a prefix for a prefix entry.
pub open spec fn crown_forms(display: Seq<char>, base: Option<Seq<char>>, suffix: Option<Seq<char>>, prefix: bool) -> Seq<(Seq<char>, Option<Seq<char>>, Seq<char>)> {
    seq![(display, full_reading(base, suffix, display), if prefix { "prefix"@ } else { "canonical"@ })] + match suffix {
        Some(s) => if ends_with_seq(display, s) && display.len() > s.len() {
            seq![(display.take(display.len() - s.len()), base, if prefix { "prefix"@ } else { "stem"@ })]
        } else {
            seq![]
        },
        None => seq![],
    }
}

/// Whether some sense is headed as an animal's cry.
pub open spec fn onomatopoeic(senses: Seq<SenseView>) -> bool {
    exists|k: int| 0 <= k < senses.len() && match #[trigger] senses[k].heading {
        Some(h) => contains_seq(h, "牛の声"@) || contains_seq(h, "鳴き声"@),
        None => false,
    }
}

/// Whether some English equivalent ends with a hyphen.
pub open spec fn english_dash(els: Seq<ElementView>) -> bool {
    exists|k: int| 0 <= k < els.len() && element_text(#[trigger] els[k]).len() > 0 && element_text(els[k]).last() == '-'
}

/// Whether no sense has a gloss or a definition.
pub open spec fn without_glosses(senses: Seq<SenseView>) -> bool {
    forall|k: int| 0 <= k < senses.len() ==> (#[trigger] senses[k]).glosses.len() == 0 && senses[k].definitions.len() == 0
}

/// A sense headed as a prefix when it has no heading and the entry is a prefix.
pub open spec fn prefix_heading(s: SenseView, prefix: bool) -> SenseView {
    if prefix && s.heading is None { SenseView { heading: Some("接头成分"@), ..s } } else { s }
}

pub open spec fn with_prefix_headings(senses: Seq<SenseView>, prefix: bool) -> Seq<SenseView> {
    senses.map_values(|s: SenseView| prefix_heading(s, prefix))
}

/// The sections of a CROWN entry: compounds, idioms, proverbs, then supplementary notes.
pub open spec fn crown_sections(root: ElementView) -> Seq<SectionView> {
    crown_section(root, "group_hukugo"@, "compounds"@, "复合词"@, "item_sub_hukugo"@, "shw_hukugo"@)
        + crown_section(root, "group_kanyo"@, "idioms"@, "惯用语"@, "item_sub_kanyo"@, "midashi_sub_kanyo"@)
        + crown_section(root, "group_kotowaza"@, "proverbs"@, "谚语"@, "item_sub_kotowaza"@, "shw_kotowaza"@)
        + column_section(root)
}

pub open spec fn crown_omitted() -> Seq<char> {
    "拼音与英文对应默认从主释义及例句省略"@
}

pub open spec fn crown_warning() -> Seq<char> {
    "未识别 Crown 主义项结构，已保留安全降级内容"@
}

/// `o` is the occurrence, before it is finished for display, that a CROWN
/// definition with the tree `root` gives for the headwords and reading.
pub open spec fn adapted(
    root: ElementView,
    indexed: Seq<char>,
    raw: Seq<char>,
    structured: Option<Seq<char>>,
    o: AdaptedOccurrence,
) -> bool {
    let display = crown_display(root, indexed);
    let suffix = class_text(root, "mj_katsuyogobi"@);
    let base = base_reading(root, structured);
    let senses = crown_senses(by_class(root, "mean_gogi"@));
    let ono = onomatopoeic(senses);
    let prefix = english_dash(by_class(root, "mean_eiyaku"@)) && without_glosses(senses);
    let visible = collect_text(root.children, seq![], seq![]);
    let surname = contains_seq(visible, "姓氏"@) || contains_seq(visible, "姓の一"@);
    let sections = crown_sections(root);
    let empty = senses.len() == 0 && sections.len() == 0;
    &&& o.source_record_index == 0
    &&& o.occurrence_suffix@.len() == 0
    &&& o.entry_kind@ == if surname {
        "surname"@
    } else if prefix {
        "prefix"@
    } else if ono {
        "onomatopoeia"@
    } else {
        "lexical"@
    }
    &&& o.header.display_form@ == display
    &&& opt_view(o.header.canonical_form) == Some(display)
    &&& opt_view(o.header.reading) == full_reading(base, suffix, display)
    &&& o.header.historical_reading is None
    &&& o.header.pronunciations@.len() == 0
    &&& forms_view(o.header.scoped_forms@) == crown_forms(display, base, suffix, prefix)
    &&& o.header.pos_tags@.len() == 0
    &&& tags_view(o.header.usage_tags@) == (if ono { seq![("usage"@, normalized_visible("拟声"@))] } else { seq![] })
        + (if prefix { seq![("grammar"@, normalized_visible("接头成分"@))] } else { seq![] })
        + (if surname { seq![("proper"@, normalized_visible("姓氏"@))] } else { seq![] })
    &&& opt_view(o.header.origin) == bracketed_origin(raw)
    &&& o.header.short_note is None
    &&& senses_view(o.senses@) == with_prefix_headings(senses, prefix)
    &&& sections_view(o.sections@) == sections
    &&& links_view(o.links@) == links_from(by_name(root, "a"@), "reference"@)
    &&& o.definition_html@.len() == 0
    &&& o.style_profile@.len() == 0
    &&& o.content_blocks@.len() == 0
    &&& o.diagnostics.coverage@ == if empty { "partial"@ } else { "structured"@ }
    &&& strings_view(o.diagnostics.warnings@) == if empty { seq![crown_warning()] } else { seq![] }
    &&& strings_view(o.diagnostics.omitted@) == seq![crown_omitted()]
}

fn senses_of(root: &HtmlElement) -> (r: Vec<DictionarySense>)
    ensures
        senses_view(r@) == crown_senses(by_class(element_view(*root), "mean_gogi"@)),
{
    let mut elements: Vec<&HtmlElement> = Vec::new();
    root.all_by_class("mean_gogi", &mut elements);
    let ghost ev = refs_view(elements@);
    assert(ev =~= by_class(element_view(*root), "mean_gogi"@));
    let mut senses: Vec<DictionarySense> = Vec::new();
    for i in 0..elements.len()
        invariant
            ev == refs_view(elements@),
            senses_view(senses@) == crown_senses(ev.take(i as int)),
            i <= elements.len(),
    {
        assert(ev.take(i + 1).drop_last() == ev.take(i as int));
        assert(ev.take(i + 1).last() == ev[i as int]);
        let s = sense_of(elements[i], i);
        let ghost before = senses@;
        senses.push(s);
        proof {
            crate::dictionary::adapters::daijirin_senses::lemma_senses_view_push(before, s);
        }
    }
    assert(ev.take(elements.len() as int) == ev);
    senses
}

fn is_onomatopoeic(senses: &Vec<DictionarySense>) -> (b: bool)
    ensures
        b == onomatopoeic(senses_view(senses@)),
{
    let ghost sv = senses_view(senses@);
    proof {
        crate::dictionary::adapters::daijirin_senses::lemma_senses_view_len(senses@);
    }
    for i in 0..senses.len()
        invariant
            sv == senses_view(senses@),
            sv.len() == senses@.len(),
            forall|k: int| 0 <= k < i ==> match #[trigger] sv[k].heading {
                Some(h) => !(contains_seq(h, "牛の声"@) || contains_seq(h, "鳴き声"@)),
                None => true,
            },
    {
        proof {
            crate::dictionary::adapters::daijirin_senses::lemma_senses_view_index(senses@, i as int);
        }
        assert(sv[i as int].heading == opt_view(senses@[i as int].heading));
        match &senses[i].heading {
            Some(h) => {
                if str_contains(h.as_str(), "牛の声") || str_contains(h.as_str(), "鳴き声") {
                    assert(match sv[i as int].heading {
                        Some(h) => contains_seq(h, "牛の声"@) || contains_seq(h, "鳴き声"@),
                        None => false,
                    });
                    return true;
                }
            },
            None => {},
        }
    }
    false
}

fn has_english_dash(root: &HtmlElement) -> (b: bool)
    ensures
        b == english_dash(by_class(element_view(*root), "mean_eiyaku"@)),
{
    let mut english: Vec<&HtmlElement> = Vec::new();
    root.all_by_class("mean_eiyaku", &mut english);
    let ghost ev = refs_view(english@);
    assert(ev =~= by_class(element_view(*root), "mean_eiyaku"@));
    for i in 0..english.len()
        invariant
            ev == refs_view(english@),
            ev == by_class(element_view(*root), "mean_eiyaku"@),
            ev.len() == english@.len(),
            forall|k: int| 0 <= k < i ==> !(element_text(#[trigger] ev[k]).len() > 0 && element_text(ev[k]).last() == '-'),
    {
        assert(ev[i as int] == element_view(*english@[i as int]));
        let t = english[i].text();
        let v = chars_of(normalize_visible_text(t.as_str()).as_str());
        if v.len() > 0 && v[v.len() - 1] == '-' {
            assert(element_text(ev[i as int]).len() > 0 && element_text(ev[i as int]).last() == '-');
            return true;
        }
    }
    false
}

fn all_without_glosses(senses: &Vec<DictionarySense>) -> (b: bool)
    ensures
        b == without_glosses(senses_view(senses@)),
{
    let ghost sv = senses_view(senses@);
    proof {
        crate::dictionary::adapters::daijirin_senses::lemma_senses_view_len(senses@);
    }
    for i in 0..senses.len()
        invariant
            sv == senses_view(senses@),
            sv.len() == senses@.len(),
            forall|k: int| 0 <= k < i ==> (#[trigger] sv[k]).glosses.len() == 0 && sv[k].definitions.len() == 0,
    {
        proof {
            crate::dictionary::adapters::daijirin_senses::lemma_senses_view_index(senses@, i as int);
            lemma_texts_len(senses@[i as int].glosses@);
            lemma_texts_len(senses@[i as int].definitions@);
        }
        if senses[i].glosses.len() > 0 || senses[i].definitions.len() > 0 {
            return false;
        }
    }
    true
}

fn head_prefix_senses(senses: &mut Vec<DictionarySense>)
    ensures
        senses_view(final(senses)@) == with_prefix_headings(senses_view(old(senses)@), true),
{
    let ghost before = senses@;
    proof {
        crate::dictionary::adapters::daijirin_senses::lemma_senses_view_len(before);
    }
    let n = senses.len();
    for i in 0..n
        invariant
            n == senses@.len(),
            senses@.len() == before.len(),
            forall|k: int| 0 <= k < i ==> sense_view(#[trigger] senses@[k]) == prefix_heading(sense_view(before[k]), true),
            forall|k: int| i <= k < senses@.len() ==> #[trigger] senses@[k] == before[k],
    {
        if senses[i].heading.is_none() {
            senses[i].heading = Some(String::from_str("接头成分"));
        }
        assert(sense_view(senses@[i as int]) == prefix_heading(sense_view(before[i as int]), true));
    }
    proof {
        crate::dictionary::adapters::daijirin_senses::lemma_senses_view_len(senses@);
        assert forall|k: int| 0 <= k < senses@.len() implies senses_view(senses@)[k] == with_prefix_headings(senses_view(before), true)[k] by {
            crate::dictionary::adapters::daijirin_senses::lemma_senses_view_index(senses@, k);
            crate::dictionary::adapters::daijirin_senses::lemma_senses_view_index(before, k);
        }
        assert(senses_view(senses@) =~= with_prefix_headings(senses_view(before), true));
    }
}

fn str_contains(s: &str, pat: &str) -> (b: bool)
    ensures
        b == contains_seq(s@, pat@),
{
    crate::import::epub::find_pattern(chars_of(s).as_slice(), chars_of(pat).as_slice()).is_some()
}

fn reading_of(root: &HtmlElement, structured_reading: Option<&str>) -> (r: Option<String>)
    ensures
        opt_view(r) == base_reading(element_view(*root), opt_str(structured_reading)),
{
    let from_midashi = match root.first_by_class("hw_midashi") {
        Some(x) => {
            let t = x.text();
            let r = normalize_reading(t.as_str());
            if r.as_str().is_empty() {
                None
            } else {
                Some(r)
            }
        },
        None => None,
    };
    match from_midashi {
        Some(r) => Some(r),
        None => match structured_reading {
            Some(s) => Some(normalize_reading(s)),
            None => None,
        },
    }
}

fn ends_with_str(s: &str, m: &str) -> (b: bool)
    ensures
        b == ends_with_seq(s@, m@),
{
    crate::dictionary::adapters::daijirin_notes::ends_with_chars(chars_of(s).as_slice(), chars_of(m).as_slice())
}

fn forms_of(display: &String, base: &Option<String>, suffix: &Option<String>, prefix: bool) -> (r: Vec<DictionaryForm>)
    ensures
        forms_view(r@) == crown_forms(display@, opt_view(*base), opt_view(*suffix), prefix),
        r@.len() >= 1,
        opt_view(r@[0].reading) == full_reading(opt_view(*base), opt_view(*suffix), display@),
{
    let reading = match (base, suffix) {
        (Some(r), Some(s)) => {
            if ends_with_str(display.as_str(), s.as_str()) && !ends_with_str(r.as_str(), s.as_str()) {
                let mut joined = r.clone();
                push_str(&mut joined, s.as_str());
                Some(joined)
            } else {
                Some(r.clone())
            }
        },
        (Some(r), None) => Some(r.clone()),
        (None, _) => None,
    };
    assert(opt_view(reading) == full_reading(opt_view(*base), opt_view(*suffix), display@));
    let mut forms: Vec<DictionaryForm> = Vec::new();
    forms.push(DictionaryForm {
        form: display.clone(),
        reading,
        kind: String::from_str(if prefix { "prefix" } else { "canonical" }),
    });
    let ghost first = forms_view(forms@);
    match suffix {
        Some(s) => {
            if ends_with_str(display.as_str(), s.as_str()) {
                let dc = chars_of(display.as_str());
                let sl = chars_of(s.as_str()).len();
                if dc.len() > sl {
                    let stem = string_from_range(dc.as_slice(), 0, dc.len() - sl);
                    assert(stem@ == display@.take(display@.len() - s@.len()));
                    let base_copy = match base {
                        Some(b) => Some(b.clone()),
                        None => None,
                    };
                    forms.push(DictionaryForm {
                        form: stem,
                        reading: base_copy,
                        kind: String::from_str(if prefix { "prefix" } else { "stem" }),
                    });
                    assert(forms_view(forms@) =~= first.push(forms_view(forms@).last()));
                }
            }
        },
        None => {},
    }
    assert(forms_view(forms@) =~= crown_forms(display@, opt_view(*base), opt_view(*suffix), prefix));
    assert(forms_view(forms@)[0] == crate::dictionary::adapters::daijirin_adapt::form_view(forms@[0]));
    forms
}

fn sections_of(root: &HtmlElement) -> (r: Vec<DictionarySection>)
    ensures
        sections_view(r@) == crown_sections(element_view(*root)),
{
    let ghost rv = element_view(*root);
    let mut sections: Vec<DictionarySection> = Vec::new();
    let a = parse_section(root, "group_hukugo", "compounds", "复合词", "item_sub_hukugo", "shw_hukugo");
    let b = parse_section(root, "group_kanyo", "idioms", "惯用语", "item_sub_kanyo", "midashi_sub_kanyo");
    let c = parse_section(root, "group_kotowaza", "proverbs", "谚语", "item_sub_kotowaza", "shw_kotowaza");
    let d = columns_of(root);
    match a {
        Some(x) => { sections.push(x); },
        None => {},
    }
    let ghost s1 = sections_view(sections@);
    match b {
        Some(x) => { sections.push(x); },
        None => {},
    }
    let ghost s2 = sections_view(sections@);
    match c {
        Some(x) => { sections.push(x); },
        None => {},
    }
    let ghost s3 = sections_view(sections@);
    match d {
        Some(x) => { sections.push(x); },
        None => {},
    }
    proof {
        assert(s1 =~= crown_section(rv, "group_hukugo"@, "compounds"@, "复合词"@, "item_sub_hukugo"@, "shw_hukugo"@));
        assert(s2 =~= s1 + crown_section(rv, "group_kanyo"@, "idioms"@, "惯用语"@, "item_sub_kanyo"@, "midashi_sub_kanyo"@));
        assert(s3 =~= s2 + crown_section(rv, "group_kotowaza"@, "proverbs"@, "谚语"@, "item_sub_kotowaza"@, "shw_kotowaza"@));
        assert(sections_view(sections@) =~= s3 + column_section(rv));
    }
    sections
}

fn usage_tags_of(ono: bool, prefix: bool, surname: bool) -> (r: Vec<DictionaryTag>)
    ensures
        tags_view(r@) == (if ono { seq![("usage"@, normalized_visible("拟声"@))] } else { seq![] })
            + (if prefix { seq![("grammar"@, normalized_visible("接头成分"@))] } else { seq![] })
            + (if surname { seq![("proper"@, normalized_visible("姓氏"@))] } else { seq![] }),
{
    let mut usage_tags: Vec<DictionaryTag> = Vec::new();
    if ono {
        usage_tags.push(tag("usage", "拟声"));
    }
    let ghost u1 = tags_view(usage_tags@);
    if prefix {
        usage_tags.push(tag("grammar", "接头成分"));
    }
    let ghost u2 = tags_view(usage_tags@);
    if surname {
        usage_tags.push(tag("proper", "姓氏"));
    }
    proof {
        assert(u1 =~= (if ono { seq![("usage"@, normalized_visible("拟声"@))] } else { Seq::<(Seq<char>, Seq<char>)>::empty() }));
        assert(u2 =~= u1 + (if prefix { seq![("grammar"@, normalized_visible("接头成分"@))] } else { Seq::<(Seq<char>, Seq<char>)>::empty() }));
        assert(tags_view(usage_tags@) =~= u2 + (if surname { seq![("proper"@, normalized_visible("姓氏"@))] } else { Seq::<(Seq<char>, Seq<char>)>::empty() }));
    }
    usage_tags
}

/// Reads a CROWN definition, already parsed into `root`, into one occurrence
/// finished for display.
#[verifier::spinoff_prover]
#[verifier::rlimit(40)]
pub fn adapt(
    root: &HtmlElement,
    indexed_headword: &str,
    raw_headword: &str,
    structured_reading: Option<&str>,
    definition: &str,
) -> (r: Vec<AdaptedOccurrence>)
    ensures
        r@.len() == 1,
        exists|o: AdaptedOccurrence|
            adapted(element_view(*root), indexed_headword@, raw_headword@, opt_str(structured_reading), o)
                && #[trigger] finished(o, "crown"@, definition@, r@[0]),
{
    let ghost rv = element_view(*root);
    let display = match crate::dictionary::adapters::daijirin::first_class_text(root, "hw_hyoki") {
        Some(d) => d,
        None => String::from_str(indexed_headword),
    };
    let suffix = crate::dictionary::adapters::daijirin::first_class_text(root, "mj_katsuyogobi");
    let base = reading_of(root, structured_reading);
    let mut senses = senses_of(root);
    let ghost senses0 = senses_view(senses@);
    let ono = is_onomatopoeic(&senses);
    let prefix = has_english_dash(root) && all_without_glosses(&senses);
    if prefix {
        head_prefix_senses(&mut senses);
    } else {
        proof {
            assert(senses_view(senses@) =~= with_prefix_headings(senses0, false));
        }
    }
    let scoped = forms_of(&display, &base, &suffix, prefix);
    let reading = match &scoped[0].reading {
        Some(r) => Some(r.clone()),
        None => None,
    };
    let visible = root.text();
    let surname = str_contains(visible.as_str(), "姓氏") || str_contains(visible.as_str(), "姓の一");
    let usage_tags = usage_tags_of(ono, prefix, surname);
    let kind: &str = if surname {
        "surname"
    } else if prefix {
        "prefix"
    } else if ono {
        "onomatopoeia"
    } else {
        "lexical"
    };
    let sections = sections_of(root);
    proof {
        crate::dictionary::adapters::daijirin_senses::lemma_senses_view_len(senses@);
        lemma_crown_senses_len(by_class(rv, "mean_gogi"@));
        assert(sections_view(sections@).len() == sections@.len());
    }
    let links = extract_links(root, "reference");
    let empty = senses.len() == 0 && sections.len() == 0;
    let mut warnings: Vec<String> = Vec::new();
    if empty {
        warnings.push(String::from_str("未识别 Crown 主义项结构，已保留安全降级内容"));
    }
    let mut omitted: Vec<String> = Vec::new();
    omitted.push(String::from_str("拼音与英文对应默认从主释义及例句省略"));
    let occurrence = AdaptedOccurrence {
        source_record_index: 0,
        occurrence_suffix: String::new(),
        entry_kind: String::from_str(kind),
        header: DictionaryOccurrenceHeader {
            display_form: display.clone(),
            canonical_form: Some(display),
            reading,
            historical_reading: None,
            pronunciations: Vec::new(),
            scoped_forms: scoped,
            pos_tags: Vec::new(),
            usage_tags,
            origin: foreign_origin(raw_headword),
            short_note: None,
        },
        senses,
        sections,
        links,
        definition_html: String::new(),
        style_profile: String::new(),
        content_blocks: Vec::new(),
        diagnostics: DictionaryAdapterDiagnostics {
            coverage: String::from_str(if empty { "partial" } else { "structured" }),
            warnings,
            omitted,
        },
    };
    proof {
        assert(strings_view(occurrence.diagnostics.omitted@) =~= seq![crown_omitted()]);
        assert(strings_view(occurrence.diagnostics.warnings@) =~= if empty {
            seq![crown_warning()]
        } else {
            Seq::<Seq<char>>::empty()
        });
        assert(adapted(rv, indexed_headword@, raw_headword@, opt_str(structured_reading), occurrence));
    }
    let ghost o = occurrence;
    let finished_occurrence = finish(occurrence, "crown", definition);
    let mut out: Vec<AdaptedOccurrence> = Vec::new();
    out.push(finished_occurrence);
    assert(finished(o, "crown"@, definition@, out@[0]));
    out
}

} // verus!
