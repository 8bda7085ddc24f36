//! The inline text of 大辞林 definitions: ruby readings, headword
//! placeholders, and the lines of the auxiliary sections.
use vstd::prelude::*;
use crate::dictionary::adapters::common::{escape_html, escaped, normalize_visible_text, normalized_visible};
use crate::dictionary::adapters::daijirin::{class_text, first_class_text};
use crate::dictionary::adapters::daijirin::{
    auxiliary_heading, element_text, has_direct_marker_pair, is_auxiliary_section_deco,
    is_local_grammar_label, local_grammar_label, marker_pair,
};
use crate::dictionary::model::DictionaryExample;
use crate::import::epub::{find_char, first_index};
use crate::html::{
    element_view, lemma_nodes_view_index, lemma_nodes_view_len, nodes_view, spec_has_class,
    ElementView, HtmlElement, HtmlNode, NodeView,
};
use crate::token::strings_view;
use crate::dictionary::adapters::common::{html_text, sanitized_fallback, tag};
use crate::dictionary::lookup_state::spec_trim;
use crate::dictionary::model::{DictionarySection, DictionarySectionItem, DictionaryTag, DictionaryText};
use crate::text::{
    regex_captured, regex_captured_all, regex_captures, regex_captures_all, regex_compiles,
    remove_char, remove_chars,
};
use crate::text::{
    chars_of, push_str, replace_all, replace_chars, spec_is_han, string_from_chars, string_from_range,
};

verus! {

/// Where the run of ideographs that ends `s` starts.
pub open spec fn kanji_run_start(s: Seq<char>) -> int
    decreases s.len(),
{
    if s.len() > 0 && spec_is_han(s.last()) {
        kanji_run_start(s.drop_last())
    } else {
        s.len() as int
    }
}

proof fn lemma_kanji_run_start(s: Seq<char>)
    ensures
        0 <= kanji_run_start(s) <= s.len(),
    decreases s.len(),
{
    if s.len() > 0 && spec_is_han(s.last()) {
        lemma_kanji_run_start(s.drop_last());
    }
}

/// `out` with a reading attached: as ruby over the ideographs that end it,
/// or in brackets when it does not end in ideographs.
pub open spec fn with_reading(out: Seq<char>, reading: Seq<char>) -> Seq<char> {
    let k = kanji_run_start(out);
    if reading.len() == 0 {
        out
    } else if k == out.len() {
        out + "（"@ + escaped(reading) + "）"@
    } else {
        out.take(k) + "<ruby>"@ + out.skip(k) + "<rt>"@ + escaped(reading) + "</rt></ruby>"@
    }
}

/// Attaches `reading` to the ideographs at the end of `output`.
pub fn wrap_trailing_kanji(output: &mut String, reading: &str)
    ensures
        final(output)@ == with_reading(old(output)@, reading@),
{
    let chars = chars_of(reading);
    if chars.len() == 0 {
        return;
    }
    let out = chars_of(output.as_str());
    let mut start: usize = out.len();
    proof {
        lemma_kanji_run_start(out@);
        assert(out@.take(start as int) == out@);
    }
    while start > 0 && crate::text::is_han(out[start - 1])
        invariant
            start <= out.len(),
            kanji_run_start(out@) == kanji_run_start(out@.take(start as int)),
        decreases start,
    {
        assert(out@.take(start as int).drop_last() == out@.take(start - 1));
        start -= 1;
    }
    proof {
        if start > 0 {
            assert(out@.take(start as int).last() == out@[start - 1]);
        }
    }
    let escaped_reading = escape_html(reading);
    if start == out.len() {
        push_str(output, "（");
        push_str(output, escaped_reading.as_str());
        push_str(output, "）");
        return;
    }
    let mut result = string_from_range(out.as_slice(), 0, start);
    let base = string_from_range(out.as_slice(), start, out.len());
    assert(out@.subrange(0, start as int) == out@.take(start as int));
    assert(out@.subrange(start as int, out@.len() as int) == out@.skip(start as int));
    push_str(&mut result, "<ruby>");
    push_str(&mut result, base.as_str());
    push_str(&mut result, "<rt>");
    push_str(&mut result, escaped_reading.as_str());
    push_str(&mut result, "</rt></ruby>");
    *output = result;
}

/// The headword placeholders of a text written out: a dash with a dot stands
/// for the stem, a bare dash for the whole form.
pub open spec fn placeholders_expanded(value: Seq<char>, form: Seq<char>, stem: Seq<char>) -> Seq<char> {
    let a = replace_all(value, "━・"@, stem);
    let b = replace_all(a, "—・"@, stem);
    let c = replace_all(b, "―・"@, stem);
    let d = replace_all(c, "━"@, form);
    let e = replace_all(d, "—"@, form);
    replace_all(e, "―"@, form)
}

pub open spec fn stem_or_form(form: Seq<char>, stem: Option<Seq<char>>) -> Seq<char> {
    match stem {
        Some(s) => s,
        None => form,
    }
}

pub open spec fn opt_str(o: Option<&str>) -> Option<Seq<char>> {
    match o {
        Some(s) => Some(s@),
        None => None,
    }
}

/// Writes out the headword placeholders of `value`.
pub fn expand_placeholders(value: &str, display_form: &str, placeholder_stem: Option<&str>) -> (r: String)
    ensures
        r@ == placeholders_expanded(value@, display_form@, stem_or_form(display_form@, opt_str(placeholder_stem))),
{
    let stem = match placeholder_stem {
        Some(s) => s,
        None => display_form,
    };
    let v = chars_of(value);
    let st = chars_of(stem);
    let form = chars_of(display_form);
    let a = replace_chars(v.as_slice(), chars_of("━・").as_slice(), st.as_slice());
    let b = replace_chars(a.as_slice(), chars_of("—・").as_slice(), st.as_slice());
    let c = replace_chars(b.as_slice(), chars_of("―・").as_slice(), st.as_slice());
    let d = replace_chars(c.as_slice(), chars_of("━").as_slice(), form.as_slice());
    let e = replace_chars(d.as_slice(), chars_of("—").as_slice(), form.as_slice());
    let f = replace_chars(e.as_slice(), chars_of("―").as_slice(), form.as_slice());
    string_from_chars(f.as_slice())
}

/// The position of the last `c` in `s`.
pub open spec fn last_position(s: Seq<char>, c: char) -> Option<int>
    decreases s.len(),
{
    if s.len() == 0 {
        None
    } else if s.last() == c {
        Some(s.len() - 1)
    } else {
        last_position(s.drop_last(), c)
    }
}

proof fn lemma_last_position(s: Seq<char>, c: char)
    ensures
        match last_position(s, c) {
            Some(k) => 0 <= k < s.len(),
            None => true,
        },
    decreases s.len(),
{
    if s.len() > 0 && s.last() != c {
        lemma_last_position(s.drop_last(), c);
    }
}

/// The stem the placeholders stand for: the display form without the
/// inflected tail that the reading marks after its last `・`.
pub open spec fn stem_of(root: ElementView, display_form: Seq<char>) -> Option<Seq<char>> {
    match class_text(root, "bss"@) {
        None => None,
        Some(source) => match last_position(source, '・') {
            None => None,
            Some(k) => {
                let tail = normalized_visible(source.skip(k + 1));
                if tail.len() == 0 || tail.len() >= display_form.len() || display_form.skip(
                    display_form.len() - tail.len(),
                ) != tail {
                    None
                } else {
                    Some(display_form.take(display_form.len() - tail.len()))
                }
            },
        },
    }
}

/// Whether `s` from `cut` on is `tail`.
fn suffix_at(s: &[char], cut: usize, tail: &[char]) -> (b: bool)
    requires
        cut + tail.len() == s.len(),
    ensures
        b == (s@.skip(cut as int) == tail@),
{
    let mut k: usize = 0;
    while k < tail.len()
        invariant
            k <= tail.len(),
            cut + tail.len() == s.len(),
            forall|m: int| 0 <= m < k ==> s@[cut + m] == tail@[m],
        decreases tail.len() - k,
    {
        if s[cut + k] != tail[k] {
            assert(s@.skip(cut as int)[k as int] != tail@[k as int]);
            return false;
        }
        k += 1;
    }
    assert(s@.skip(cut as int) =~= tail@);
    true
}

pub fn placeholder_stem(root: &HtmlElement, display_form: &str) -> (r: Option<String>)
    ensures
        opt_view(r) == stem_of(element_view(*root), display_form@),
{
    let source = match first_class_text(root, "bss") {
        Some(s) => s,
        None => {
            return None;
        },
    };
    let sc = chars_of(source.as_str());
    let mut i: usize = sc.len();
    proof {
        assert(sc@.take(i as int) == sc@);
    }
    while i > 0 && sc[i - 1] != '・'
        invariant
            i <= sc.len(),
            last_position(sc@, '・') == last_position(sc@.take(i as int), '・'),
        decreases i,
    {
        assert(sc@.take(i as int).drop_last() == sc@.take(i - 1));
        i -= 1;
    }
    if i == 0 {
        assert(sc@.take(0) =~= Seq::<char>::empty());
        return None;
    }
    assert(sc@.take(i as int).last() == sc@[i - 1]);
    let tail_raw = string_from_range(sc.as_slice(), i, sc.len());
    assert(sc@.subrange(i as int, sc@.len() as int) == sc@.skip(i as int));
    let tail = normalize_visible_text(tail_raw.as_str());
    let tc = chars_of(tail.as_str());
    let form = chars_of(display_form);
    if tc.len() == 0 || tc.len() >= form.len() {
        return None;
    }
    let cut = form.len() - tc.len();
    if !suffix_at(form.as_slice(), cut, tc.as_slice()) {
        return None;
    }
    assert(form@.subrange(0, cut as int) == form@.take(cut as int));
    Some(string_from_range(form.as_slice(), 0, cut))
}

pub open spec fn opt_view(o: Option<String>) -> Option<Seq<char>> {
    match o {
        Some(s) => Some(s@),
        None => None,
    }
}

/// The text of nodes in an auxiliary section, escaped, with line breaks,
/// ruby readings and small print kept, appended to `out`.
pub open spec fn section_text(nodes: Seq<NodeView>, out: Seq<char>) -> Seq<char>
    decreases nodes,
{
    if nodes.len() == 0 {
        out
    } else {
        let next = match nodes[0] {
            NodeView::Text(t) => out + escaped(t),
            NodeView::Element(e) => if e.name == "br"@ {
                out.push('\n')
            } else if spec_has_class(e, "ruby"@) {
                with_reading(out, element_text(e))
            } else if e.name == "small"@ || spec_has_class(e, "small"@) {
                section_text(e.children, out + "<small>"@) + "</small>"@
            } else {
                section_text(e.children, out)
            },
        };
        section_text(nodes.drop_first(), next)
    }
}

fn is_small(element: &HtmlElement) -> (b: bool)
    ensures
        b == (element_view(*element).name == "small"@ || spec_has_class(element_view(*element), "small"@)),
{
    crate::text::str_eq(element.name.as_str(), "small") || element.has_class("small")
}

pub fn render_section_nodes(nodes: &[HtmlNode], output: &mut String)
    ensures
        final(output)@ == section_text(nodes_view(nodes@), old(output)@),
    decreases nodes@,
{
    let ghost nv = nodes_view(nodes@);
    let ghost start = output@;
    proof {
        lemma_nodes_view_len(nodes@);
        assert(nv.skip(0) == nv);
    }
    for i in 0..nodes.len()
        invariant
            nv == nodes_view(nodes@),
            nv.len() == nodes@.len(),
            section_text(nv, start) == section_text(nv.skip(i as int), output@),
    {
        proof {
            lemma_nodes_view_index(nodes@, i as int);
            assert(nv.skip(i as int)[0] == nv[i as int]);
            assert(nv.skip(i as int).drop_first() == nv.skip(i + 1));
        }
        match &nodes[i] {
            HtmlNode::Text(text) => {
                let escaped_text = escape_html(text.as_str());
                push_str(output, escaped_text.as_str());
            },
            HtmlNode::Element(element) => {
                let ghost ev = element_view(*element);
                assert(nv[i as int] == NodeView::Element(ev));
                assert(ev.children == nodes_view(element.children@));
                if crate::text::str_eq(element.name.as_str(), "br") {
                    crate::text::push_char(output, '\n');
                } else if element.has_class("ruby") {
                    let text = element.text();
                    let reading = normalize_visible_text(text.as_str());
                    wrap_trailing_kanji(output, reading.as_str());
                } else if is_small(element) {
                    push_str(output, "<small>");
                    assert(decreases_to!(nodes@ => nodes@[i as int]));
                    render_section_nodes(element.children.as_slice(), output);
                    push_str(output, "</small>");
                } else {
                    assert(decreases_to!(nodes@ => nodes@[i as int]));
                    render_section_nodes(element.children.as_slice(), output);
                }
            },
        }
    }
    assert(nv.skip(nv.len() as int) =~= Seq::<NodeView>::empty());
}

/// The markup that escaping turned into entities, turned back.
pub open spec fn entities_restored(s: Seq<char>) -> Seq<char> {
    let a = replace_all(s, "&lt;ruby&gt;"@, "<ruby>"@);
    let b = replace_all(a, "&lt;/ruby&gt;"@, "</ruby>"@);
    let c = replace_all(b, "&lt;rt&gt;"@, "<rt>"@);
    let d = replace_all(c, "&lt;/rt&gt;"@, "</rt>"@);
    let e = replace_all(d, "&lt;small&gt;"@, "<small>"@);
    let f = replace_all(e, "&lt;/small&gt;"@, "</small>"@);
    replace_all(f, "&amp;"@, "&"@)
}

fn restore_entities(s: &[char]) -> (r: Vec<char>)
    ensures
        r@ == entities_restored(s@),
{
    let a = replace_chars(s, chars_of("&lt;ruby&gt;").as_slice(), chars_of("<ruby>").as_slice());
    let b = replace_chars(a.as_slice(), chars_of("&lt;/ruby&gt;").as_slice(), chars_of("</ruby>").as_slice());
    let c = replace_chars(b.as_slice(), chars_of("&lt;rt&gt;").as_slice(), chars_of("<rt>").as_slice());
    let d = replace_chars(c.as_slice(), chars_of("&lt;/rt&gt;").as_slice(), chars_of("</rt>").as_slice());
    let e = replace_chars(d.as_slice(), chars_of("&lt;small&gt;").as_slice(), chars_of("<small>").as_slice());
    let f = replace_chars(e.as_slice(), chars_of("&lt;/small&gt;").as_slice(), chars_of("</small>").as_slice());
    replace_chars(f.as_slice(), chars_of("&amp;").as_slice(), chars_of("&").as_slice())
}

/// The pieces of `s` between the occurrences of `c` (`str::split`).
pub open spec fn split_on(s: Seq<char>, c: char) -> Seq<Seq<char>>
    decreases s.len(),
{
    if s.len() == 0 {
        seq![seq![]]
    } else {
        let p = split_on(s.drop_last(), c);
        if s.last() == c {
            p.push(seq![])
        } else {
            p.update(p.len() - 1, p.last().push(s.last()))
        }
    }
}

pub proof fn lemma_split_on_len(s: Seq<char>, c: char)
    ensures
        split_on(s, c).len() >= 1,
    decreases s.len(),
{
    if s.len() > 0 {
        lemma_split_on_len(s.drop_last(), c);
    }
}

/// The pieces normalised, the empty ones left out.
pub open spec fn visible_lines(pieces: Seq<Seq<char>>) -> Seq<Seq<char>>
    decreases pieces.len(),
{
    if pieces.len() == 0 {
        seq![]
    } else {
        let r = visible_lines(pieces.drop_last());
        let n = normalized_visible(pieces.last());
        if n.len() > 0 { r.push(n) } else { r }
    }
}

/// The visible lines of an auxiliary section.
pub open spec fn section_lines(nodes: Seq<NodeView>) -> Seq<Seq<char>> {
    visible_lines(split_on(entities_restored(section_text(nodes, seq![])), '\n'))
}

/// Splits `s` at each `c` and keeps the pieces that normalise to something.
pub fn visible_pieces(s: &[char], c: char) -> (r: Vec<String>)
    ensures
        strings_view(r@) == visible_lines(split_on(s@, c)),
{
    let mut out: Vec<String> = Vec::new();
    let mut current: Vec<char> = Vec::new();
    let ghost mut done: Seq<Seq<char>> = seq![];
    for i in 0..s.len()
        invariant
            split_on(s@.take(i as int), c) == done.push(current@),
            strings_view(out@) == visible_lines(done),
    {
        assert(s@.take(i + 1).drop_last() == s@.take(i as int));
        assert(s@.take(i + 1).last() == s@[i as int]);
        if s[i] == c {
            let piece = string_from_chars(current.as_slice());
            let n = normalize_visible_text(piece.as_str());
            let ghost before = out@;
            assert(done.push(current@).drop_last() == done);
            assert(done.push(current@).last() == current@);
            if !n.as_str().is_empty() {
                out.push(n);
                assert(strings_view(out@) =~= strings_view(before).push(normalized_visible(current@)));
            }
            assert(strings_view(out@) == visible_lines(done.push(current@)));
            proof {
                assert(done.push(current@).drop_last() == done);
                done = done.push(current@);
            }
            current = Vec::new();
            assert(split_on(s@.take(i + 1), c) =~= done.push(current@));
        } else {
            let ghost old_cur = current@;
            current.push(s[i]);
            assert(split_on(s@.take(i + 1), c) =~= done.push(current@));
        }
    }
    assert(s@.take(s.len() as int) == s@);
    let piece = string_from_chars(current.as_slice());
    let n = normalize_visible_text(piece.as_str());
    let ghost before = out@;
    assert(done.push(current@).drop_last() == done);
    assert(done.push(current@).last() == current@);
    if !n.as_str().is_empty() {
        out.push(n);
        assert(strings_view(out@) =~= strings_view(before).push(normalized_visible(current@)));
    }
    assert(strings_view(out@) == visible_lines(done.push(current@)));
    out
}

/// The visible lines of auxiliary section nodes.
pub fn render_section_lines(nodes: &[HtmlNode]) -> (r: Vec<String>)
    ensures
        strings_view(r@) == section_lines(nodes_view(nodes@)),
{
    let mut rendered = String::new();
    render_section_nodes(nodes, &mut rendered);
    let chars = chars_of(rendered.as_str());
    let restored = restore_entities(chars.as_slice());
    visible_pieces(restored.as_slice(), '\n')
}

/// Rich Japanese text made from `value` (as `common::html_text` makes it).
pub open spec fn ja_html(t: DictionaryText, value: Seq<char>) -> bool {
    t.lang@ == "ja"@ && t.qualifier is None && t.html@ == spec_trim(sanitized_fallback(value))
}

pub open spec fn tags_view(tags: Seq<DictionaryTag>) -> Seq<(Seq<char>, Seq<char>)> {
    tags.map_values(|t: DictionaryTag| (t.kind@, t.label@))
}

/// What a section item holds: a label, the sources of its Japanese texts and its tags.
pub ghost struct ItemSpec {
    pub label: Option<Seq<char>>,
    pub content: Seq<Seq<char>>,
    pub tags: Seq<(Seq<char>, Seq<char>)>,
}

/// What a section holds: its kind, its label and its items.
pub ghost struct SectionSpec {
    pub kind: Seq<char>,
    pub label: Seq<char>,
    pub items: Seq<ItemSpec>,
}

pub open spec fn item_matches(item: DictionarySectionItem, spec: ItemSpec) -> bool {
    &&& opt_view(item.label) == spec.label
    &&& item.label_html is None
    &&& item.reading is None
    &&& item.content@.len() == spec.content.len()
    &&& forall|i: int| 0 <= i < spec.content.len() ==> ja_html(#[trigger] item.content@[i], spec.content[i])
    &&& tags_view(item.tags@) == spec.tags
    &&& item.examples@.len() == 0
    &&& item.senses@.len() == 0
    &&& item.relations@.len() == 0
}

pub open spec fn items_match(items: Seq<DictionarySectionItem>, specs: Seq<ItemSpec>) -> bool {
    items.len() == specs.len() && forall|i: int| 0 <= i < specs.len() ==> item_matches(#[trigger] items[i], specs[i])
}

pub open spec fn section_matches(section: DictionarySection, spec: SectionSpec) -> bool {
    section.kind@ == spec.kind && opt_view(section.label) == Some(spec.label) && items_match(section.items@, spec.items)
}

/// The item of a line that is shown as it is.
pub open spec fn line_item(line: Seq<char>) -> ItemSpec {
    ItemSpec { label: None, content: seq![line], tags: seq![] }
}

pub open spec fn plain_items(lines: Seq<Seq<char>>) -> Seq<ItemSpec> {
    lines.map_values(|l: Seq<char>| line_item(l))
}

/// An idiom with its headword dashes written out, normalised.
pub open spec fn idiom_phrase(piece: Seq<char>, form: Seq<char>) -> Seq<char> {
    normalized_visible(replace_all(replace_all(piece, "━"@, form), "—"@, form))
}

pub open spec fn idiom_items(pieces: Seq<Seq<char>>, form: Seq<char>) -> Seq<ItemSpec>
    decreases pieces.len(),
{
    if pieces.len() == 0 {
        seq![]
    } else {
        let r = idiom_items(pieces.drop_last(), form);
        let p = idiom_phrase(pieces.last(), form);
        if p.len() > 0 { r.push(line_item(p)) } else { r }
    }
}

/// The idioms of the lines, separated by `・`.
pub open spec fn lines_idiom_items(lines: Seq<Seq<char>>, form: Seq<char>) -> Seq<ItemSpec>
    decreases lines.len(),
{
    if lines.len() == 0 {
        seq![]
    } else {
        lines_idiom_items(lines.drop_last(), form) + idiom_items(split_on(lines.last(), '・'), form)
    }
}

pub open spec fn ortho_pattern() -> Seq<char> {
    "^「([^」]+)」は(.+)$"@
}

pub open spec fn derivation_pattern() -> Seq<char> {
    "━\\s*([^（]+?)（([^）]+)）"@
}

/// Group `i` of a match, when it took part.
pub open spec fn group_at(groups: Seq<Option<Seq<char>>>, i: int) -> Option<Seq<char>> {
    if 0 <= i < groups.len() { groups[i] } else { None }
}

/// The first match of a pattern, none when the pattern does not compile.
pub open spec fn first_captures(pattern: Seq<char>, haystack: Seq<char>) -> Option<Seq<Option<Seq<char>>>> {
    if regex_compiles(pattern) { regex_captured(pattern, haystack) } else { None }
}

/// All matches of a pattern, none when the pattern does not compile.
pub open spec fn all_captures(pattern: Seq<char>, haystack: Seq<char>) -> Seq<Seq<Option<Seq<char>>>> {
    if regex_compiles(pattern) { regex_captured_all(pattern, haystack) } else { seq![] }
}

/// The item of an orthography line: a quoted form with what is said of it,
/// or the line itself; a parenthetical line without a quote is left out.
pub open spec fn orthography_line(line: Seq<char>) -> Seq<ItemSpec> {
    if !line.contains('「') && (line.contains('（') || line.contains('(')) {
        seq![]
    } else {
        match first_captures(ortho_pattern(), line) {
            Some(groups) => {
                let form = match group_at(groups, 1) {
                    Some(f) => Some(normalized_visible(f)),
                    None => None,
                };
                let detail = match group_at(groups, 2) {
                    Some(d) => normalized_visible(d),
                    None => seq![],
                };
                seq![ItemSpec { label: form, content: if detail.len() > 0 { seq![detail] } else { seq![] }, tags: seq![] }]
            },
            None => seq![line_item(line)],
        }
    }
}

pub open spec fn orthography_items(lines: Seq<Seq<char>>) -> Seq<ItemSpec>
    decreases lines.len(),
{
    if lines.len() == 0 {
        seq![]
    } else {
        orthography_items(lines.drop_last()) + orthography_line(lines.last())
    }
}

/// The suffix a derivation adds, without dots and spaces.
pub open spec fn derivation_suffix(groups: Seq<Option<Seq<char>>>) -> Seq<char> {
    match group_at(groups, 1) {
        Some(v) => remove_char(remove_char(normalized_visible(v), '・'), ' '),
        None => seq![],
    }
}

/// The part of speech of a derivation, without small print.
pub open spec fn derivation_pos(groups: Seq<Option<Seq<char>>>) -> Seq<char> {
    match group_at(groups, 2) {
        Some(v) => replace_all(replace_all(normalized_visible(v), "<small>"@, seq![]), "</small>"@, seq![]),
        None => seq![],
    }
}

pub open spec fn derivation_items(matches: Seq<Seq<Option<Seq<char>>>>, stem: Seq<char>) -> Seq<ItemSpec>
    decreases matches.len(),
{
    if matches.len() == 0 {
        seq![]
    } else {
        let r = derivation_items(matches.drop_last(), stem);
        let g = matches.last();
        let suffix = derivation_suffix(g);
        let pos = derivation_pos(g);
        if suffix.len() == 0 {
            r
        } else {
            r.push(ItemSpec {
                label: Some(stem + suffix),
                content: seq![],
                tags: if pos.len() > 0 { seq![("pos"@, normalized_visible(pos))] } else { seq![] },
            })
        }
    }
}

pub open spec fn lines_derivation_items(lines: Seq<Seq<char>>, stem: Seq<char>) -> Seq<ItemSpec>
    decreases lines.len(),
{
    if lines.len() == 0 {
        seq![]
    } else {
        lines_derivation_items(lines.drop_last(), stem) + derivation_items(
            all_captures(derivation_pattern(), lines.last()),
            stem,
        )
    }
}

/// The section an auxiliary heading and its lines make, none when it has no items.
pub open spec fn deco_section(label: Seq<char>, lines: Seq<Seq<char>>, form: Seq<char>, stem: Option<Seq<char>>) -> Option<SectionSpec> {
    let (kind, title, items) = if label == "慣用"@ {
        ("idioms"@, "惯用表达"@, lines_idiom_items(lines, form))
    } else if label == "表記"@ {
        ("orthography"@, "表记用法"@, orthography_items(lines))
    } else if label == "可能"@ {
        ("conjugation"@, "可能形"@, plain_items(lines))
    } else if label == "派生"@ {
        ("derivations"@, "派生词"@, lines_derivation_items(lines, stem_or_form(form, stem)))
    } else {
        ("notes"@, label, plain_items(lines))
    };
    if items.len() == 0 {
        None
    } else {
        Some(SectionSpec { kind, label: title, items })
    }
}

/// The pieces of `s` between the occurrences of `c`.
pub fn split_chars(s: &[char], c: char) -> (r: Vec<String>)
    ensures
        strings_view(r@) == split_on(s@, c),
{
    let mut out: Vec<String> = Vec::new();
    let mut current: Vec<char> = Vec::new();
    for i in 0..s.len()
        invariant
            split_on(s@.take(i as int), c) == strings_view(out@).push(current@),
    {
        assert(s@.take(i + 1).drop_last() == s@.take(i as int));
        assert(s@.take(i + 1).last() == s@[i as int]);
        let ghost before = strings_view(out@);
        if s[i] == c {
            let piece = string_from_chars(current.as_slice());
            let ghost old_current = current@;
            out.push(piece);
            current = Vec::new();
            assert(strings_view(out@) =~= before.push(old_current));
        } else {
            current.push(s[i]);
        }
        assert(split_on(s@.take(i + 1), c) =~= strings_view(out@).push(current@));
    }
    assert(s@.take(s.len() as int) == s@);
    let ghost before = strings_view(out@);
    let piece = string_from_chars(current.as_slice());
    out.push(piece);
    assert(strings_view(out@) =~= before.push(current@));
    out
}

fn section_item(label: Option<String>, content: Vec<DictionaryText>, tags: Vec<DictionaryTag>) -> (r: DictionarySectionItem)
    ensures
        r.label == label && r.content == content && r.tags == tags,
        r.label_html is None && r.reading is None,
        r.examples@.len() == 0 && r.senses@.len() == 0 && r.relations@.len() == 0,
{
    DictionarySectionItem {
        label,
        label_html: None,
        reading: None,
        content,
        tags,
        examples: Vec::new(),
        senses: Vec::new(),
        relations: Vec::new(),
    }
}

/// An item of one Japanese text.
fn text_item(value: &str) -> (r: DictionarySectionItem)
    ensures
        item_matches(r, line_item(value@)),
{
    let mut content: Vec<DictionaryText> = Vec::new();
    content.push(html_text("ja", value));
    let r = section_item(None, content, Vec::new());
    assert(tags_view(r.tags@) =~= Seq::<(Seq<char>, Seq<char>)>::empty());
    r
}

proof fn lemma_items_push(items: Seq<DictionarySectionItem>, specs: Seq<ItemSpec>, x: DictionarySectionItem, sx: ItemSpec)
    requires
        items_match(items, specs),
        item_matches(x, sx),
    ensures
        items_match(items.push(x), specs.push(sx)),
{
    assert forall|i: int| 0 <= i < specs.push(sx).len() implies item_matches(#[trigger] items.push(x)[i], specs.push(sx)[i]) by {
        if i < specs.len() {
            assert(items.push(x)[i] == items[i]);
        }
    }
}

fn plain_items_exec(lines: &[String]) -> (r: Vec<DictionarySectionItem>)
    ensures
        items_match(r@, plain_items(strings_view(lines@))),
{
    let ghost lv = strings_view(lines@);
    let mut out: Vec<DictionarySectionItem> = Vec::new();
    for i in 0..lines.len()
        invariant
            lv == strings_view(lines@),
            items_match(out@, plain_items(lv.take(i as int))),
    {
        let item = text_item(lines[i].as_str());
        proof {
            lemma_items_push(out@, plain_items(lv.take(i as int)), item, line_item(lv[i as int]));
            assert(plain_items(lv.take(i + 1)) =~= plain_items(lv.take(i as int)).push(line_item(lv[i as int])));
        }
        out.push(item);
    }
    assert(lv.take(lines.len() as int) == lv);
    out
}

fn idiom_items_exec(lines: &[String], form: &str) -> (r: Vec<DictionarySectionItem>)
    ensures
        items_match(r@, lines_idiom_items(strings_view(lines@), form@)),
{
    let ghost lv = strings_view(lines@);
    let fc = chars_of(form);
    let mut out: Vec<DictionarySectionItem> = Vec::new();
    for i in 0..lines.len()
        invariant
            lv == strings_view(lines@),
            fc@ == form@,
            items_match(out@, lines_idiom_items(lv.take(i as int), form@)),
    {
        let line = chars_of(lines[i].as_str());
        let pieces = split_chars(line.as_slice(), '・');
        let ghost pv = strings_view(pieces@);
        let ghost base = lines_idiom_items(lv.take(i as int), form@);
        assert(pv.take(0) =~= Seq::<Seq<char>>::empty());
        for j in 0..pieces.len()
            invariant
                pv == strings_view(pieces@),
                fc@ == form@,
                items_match(out@, base + idiom_items(pv.take(j as int), form@)),
        {
            let pc = chars_of(pieces[j].as_str());
            let a = replace_chars(pc.as_slice(), chars_of("━").as_slice(), fc.as_slice());
            let b = replace_chars(a.as_slice(), chars_of("—").as_slice(), fc.as_slice());
            let phrase_raw = string_from_chars(b.as_slice());
            let phrase = normalize_visible_text(phrase_raw.as_str());
            assert(pv.take(j + 1).drop_last() == pv.take(j as int));
            assert(pv.take(j + 1).last() == pv[j as int]);
            if !phrase.as_str().is_empty() {
                let item = text_item(phrase.as_str());
                proof {
                    lemma_items_push(out@, base + idiom_items(pv.take(j as int), form@), item, line_item(phrase@));
                    assert(base + idiom_items(pv.take(j + 1), form@) =~= (base + idiom_items(pv.take(j as int), form@)).push(line_item(phrase@)));
                }
                out.push(item);
            } else {
                assert(base + idiom_items(pv.take(j + 1), form@) =~= base + idiom_items(pv.take(j as int), form@));
            }
        }
        assert(pv.take(pieces.len() as int) == pv);
        assert(lv.take(i + 1).drop_last() == lv.take(i as int));
        assert(lv.take(i + 1).last() == lv[i as int]);
    }
    assert(lv.take(lines.len() as int) == lv);
    out
}

pub fn contains_char_pub(s: &[char], c: char) -> (b: bool)
    ensures
        b == s@.contains(c),
{
    contains_char(s, c)
}

fn contains_char(s: &[char], c: char) -> (b: bool)
    ensures
        b == s@.contains(c),
{
    for i in 0..s.len()
        invariant
            forall|m: int| 0 <= m < i ==> s@[m] != c,
    {
        if s[i] == c {
            assert(s@[i as int] == c);
            return true;
        }
    }
    false
}

fn group_text(groups: &Vec<Option<String>>, i: usize) -> (r: Option<String>)
    ensures
        opt_view(r) == group_at(crate::text::groups_view(groups@), i as int),
{
    if i < groups.len() {
        match &groups[i] {
            Some(g) => Some(g.clone()),
            None => None,
        }
    } else {
        None
    }
}

fn orthography_line_exec(line: &str, out: &mut Vec<DictionarySectionItem>)
    ensures
        forall|specs: Seq<ItemSpec>| items_match(old(out)@, specs) ==> items_match(final(out)@, specs + orthography_line(line@)),
{
    let lc = chars_of(line);
    if !contains_char(lc.as_slice(), '「') && (contains_char(lc.as_slice(), '（') || contains_char(lc.as_slice(), '(')) {
        assert forall|specs: Seq<ItemSpec>| items_match(old(out)@, specs) implies items_match(out@, specs + orthography_line(line@)) by {
            assert(specs + orthography_line(line@) =~= specs);
        }
        return;
    }
    let captured = match regex_captures("^「([^」]+)」は(.+)$", line) {
        Some(c) => c,
        None => None,
    };
    let ghost before = out@;
    match captured {
        Some(groups) => {
            let form = match group_text(&groups, 1) {
                Some(f) => Some(normalize_visible_text(f.as_str())),
                None => None,
            };
            let detail = match group_text(&groups, 2) {
                Some(d) => normalize_visible_text(d.as_str()),
                None => String::new(),
            };
            let mut content: Vec<DictionaryText> = Vec::new();
            if !detail.as_str().is_empty() {
                content.push(html_text("ja", detail.as_str()));
            }
            let item = section_item(form, content, Vec::new());
            let ghost sx = orthography_line(line@)[0];
            assert(tags_view(item.tags@) =~= Seq::<(Seq<char>, Seq<char>)>::empty());
            assert(item_matches(item, sx));
            out.push(item);
            assert forall|specs: Seq<ItemSpec>| items_match(before, specs) implies items_match(out@, specs + orthography_line(line@)) by {
                lemma_items_push(before, specs, item, sx);
                assert(specs + orthography_line(line@) =~= specs.push(sx));
            }
        },
        None => {
            let item = text_item(line);
            out.push(item);
            assert forall|specs: Seq<ItemSpec>| items_match(before, specs) implies items_match(out@, specs + orthography_line(line@)) by {
                lemma_items_push(before, specs, item, line_item(line@));
                assert(specs + orthography_line(line@) =~= specs.push(line_item(line@)));
            }
        },
    }
}

fn orthography_items_exec(lines: &[String]) -> (r: Vec<DictionarySectionItem>)
    ensures
        items_match(r@, orthography_items(strings_view(lines@))),
{
    let ghost lv = strings_view(lines@);
    let mut out: Vec<DictionarySectionItem> = Vec::new();
    for i in 0..lines.len()
        invariant
            lv == strings_view(lines@),
            items_match(out@, orthography_items(lv.take(i as int))),
    {
        orthography_line_exec(lines[i].as_str(), &mut out);
        assert(lv.take(i + 1).drop_last() == lv.take(i as int));
        assert(lv.take(i + 1).last() == lv[i as int]);
    }
    assert(lv.take(lines.len() as int) == lv);
    out
}

fn derivation_line_exec(line: &str, stem: &str, out: &mut Vec<DictionarySectionItem>)
    ensures
        forall|specs: Seq<ItemSpec>| items_match(old(out)@, specs) ==> items_match(
            final(out)@,
            specs + derivation_items(all_captures(derivation_pattern(), line@), stem@),
        ),
{
    let all = match regex_captures_all("━\\s*([^（]+?)（([^）]+)）", line) {
        Some(v) => v,
        None => Vec::new(),
    };
    let ghost mv = crate::text::matches_view(all@);
    assert(mv =~= all_captures(derivation_pattern(), line@));
    let ghost start = out@;
    for k in 0..all.len()
        invariant
            mv == crate::text::matches_view(all@),
            forall|specs: Seq<ItemSpec>| items_match(start, specs) ==> items_match(
                out@,
                specs + derivation_items(mv.take(k as int), stem@),
            ),
    {
        let groups = &all[k];
        assert(mv[k as int] == crate::text::groups_view(groups@));
        assert(mv.take(k + 1).drop_last() == mv.take(k as int));
        assert(mv.take(k + 1).last() == mv[k as int]);
        let suffix = match group_text(groups, 1) {
            Some(v) => {
                let n = normalize_visible_text(v.as_str());
                let nc = chars_of(n.as_str());
                let a = remove_chars(nc.as_slice(), '・');
                let b = remove_chars(a.as_slice(), ' ');
                string_from_chars(b.as_slice())
            },
            None => String::new(),
        };
        let pos = match group_text(groups, 2) {
            Some(v) => {
                let n = normalize_visible_text(v.as_str());
                let nc = chars_of(n.as_str());
                let nothing: Vec<char> = Vec::new();
                let a = replace_chars(nc.as_slice(), chars_of("<small>").as_slice(), nothing.as_slice());
                let b = replace_chars(a.as_slice(), chars_of("</small>").as_slice(), nothing.as_slice());
                string_from_chars(b.as_slice())
            },
            None => String::new(),
        };
        let ghost g = mv[k as int];
        assert(suffix@ == derivation_suffix(g));
        assert(pos@ == derivation_pos(g));
        let ghost before = out@;
        if !suffix.as_str().is_empty() {
            let mut label = String::from_str(stem);
            push_str(&mut label, suffix.as_str());
            let mut tags: Vec<DictionaryTag> = Vec::new();
            if !pos.as_str().is_empty() {
                tags.push(tag("pos", pos.as_str()));
            }
            let item = section_item(Some(label), Vec::new(), tags);
            let ghost sx = ItemSpec {
                label: Some(stem@ + derivation_suffix(g)),
                content: seq![],
                tags: if derivation_pos(g).len() > 0 { seq![("pos"@, normalized_visible(derivation_pos(g)))] } else { seq![] },
            };
            assert(tags_view(item.tags@) =~= sx.tags);
            assert(item_matches(item, sx));
            out.push(item);
            assert forall|specs: Seq<ItemSpec>| items_match(start, specs) implies items_match(
                out@,
                specs + derivation_items(mv.take(k + 1), stem@),
            ) by {
                lemma_items_push(before, specs + derivation_items(mv.take(k as int), stem@), item, sx);
                assert(specs + derivation_items(mv.take(k + 1), stem@) =~= (specs + derivation_items(mv.take(k as int), stem@)).push(sx));
            }
        } else {
            assert forall|specs: Seq<ItemSpec>| items_match(start, specs) implies items_match(
                out@,
                specs + derivation_items(mv.take(k + 1), stem@),
            ) by {
                assert(derivation_items(mv.take(k + 1), stem@) == derivation_items(mv.take(k as int), stem@));
            }
        }
    }
    assert(mv.take(all.len() as int) == mv);
}

fn derivation_items_exec(lines: &[String], stem: &str) -> (r: Vec<DictionarySectionItem>)
    ensures
        items_match(r@, lines_derivation_items(strings_view(lines@), stem@)),
{
    let ghost lv = strings_view(lines@);
    let mut out: Vec<DictionarySectionItem> = Vec::new();
    for i in 0..lines.len()
        invariant
            lv == strings_view(lines@),
            items_match(out@, lines_derivation_items(lv.take(i as int), stem@)),
    {
        derivation_line_exec(lines[i].as_str(), stem, &mut out);
        assert(lv.take(i + 1).drop_last() == lv.take(i as int));
        assert(lv.take(i + 1).last() == lv[i as int]);
    }
    assert(lv.take(lines.len() as int) == lv);
    out
}

/// The section an auxiliary heading and its lines make: idioms, orthography,
/// the potential form, derivations or notes; none when it has no items.
pub fn build_deco_section(
    label: &str,
    lines: &[String],
    example_form: &str,
    placeholder_stem: Option<&str>,
) -> (r: Option<DictionarySection>)
    ensures
        match (r, deco_section(label@, strings_view(lines@), example_form@, opt_str(placeholder_stem))) {
            (Some(section), Some(spec)) => section_matches(section, spec),
            (None, None) => true,
            _ => false,
        },
{
    let (kind, title, items): (&str, String, Vec<DictionarySectionItem>) = if crate::text::str_eq(label, "慣用") {
        ("idioms", String::from_str("惯用表达"), idiom_items_exec(lines, example_form))
    } else if crate::text::str_eq(label, "表記") {
        ("orthography", String::from_str("表记用法"), orthography_items_exec(lines))
    } else if crate::text::str_eq(label, "可能") {
        ("conjugation", String::from_str("可能形"), plain_items_exec(lines))
    } else if crate::text::str_eq(label, "派生") {
        let stem = match placeholder_stem {
            Some(s) => s,
            None => example_form,
        };
        ("derivations", String::from_str("派生词"), derivation_items_exec(lines, stem))
    } else {
        ("notes", String::from_str(label), plain_items_exec(lines))
    };
    if items.len() == 0 {
        return None;
    }
    Some(DictionarySection { kind: String::from_str(kind), label: Some(title), items })
}

/// Where the next element classed `deco` is among `nodes`, or their length.
pub open spec fn next_deco(nodes: Seq<NodeView>) -> int
    decreases nodes.len(),
{
    if nodes.len() == 0 {
        0
    } else if nodes[0] matches NodeView::Element(e) && spec_has_class(e, "deco"@) {
        0
    } else {
        1 + next_deco(nodes.drop_first())
    }
}

proof fn lemma_next_deco(nodes: Seq<NodeView>)
    ensures
        0 <= next_deco(nodes) <= nodes.len(),
    decreases nodes.len(),
{
    if nodes.len() > 0 {
        lemma_next_deco(nodes.drop_first());
    }
}

/// The sections that auxiliary headings among `nodes` and below them open,
/// in document order; each takes the lines up to the next `deco` sibling.
pub open spec fn deco_sections_in(nodes: Seq<NodeView>, form: Seq<char>, stem: Option<Seq<char>>) -> Seq<SectionSpec>
    decreases nodes,
{
    if nodes.len() == 0 {
        seq![]
    } else {
        let rest = nodes.drop_first();
        match nodes[0] {
            NodeView::Text(_) => deco_sections_in(rest, form, stem),
            NodeView::Element(d) => {
                let here = if spec_has_class(d, "deco"@) && auxiliary_heading(element_text(d)) {
                    match deco_section(element_text(d), section_lines(rest.take(next_deco(rest))), form, stem) {
                        Some(sec) => seq![sec],
                        None => seq![],
                    }
                } else {
                    seq![]
                };
                here + deco_sections_in(d.children, form, stem) + deco_sections_in(rest, form, stem)
            },
        }
    }
}

/// `v` ends with sections matching `specs`, after its first `n` elements.
pub open spec fn sections_from(v: Seq<DictionarySection>, n: int, specs: Seq<SectionSpec>) -> bool {
    &&& v.len() == n + specs.len()
    &&& forall|i: int| 0 <= i < specs.len() ==> section_matches(#[trigger] v[n + i], specs[i])
}

proof fn lemma_nodes_view_skip(ns: Seq<HtmlNode>, i: int)
    requires
        0 <= i <= ns.len(),
    ensures
        nodes_view(ns.skip(i)) == nodes_view(ns).skip(i),
{
    lemma_nodes_view_len(ns);
    lemma_nodes_view_len(ns.skip(i));
    assert forall|k: int| 0 <= k < ns.len() - i implies #[trigger] nodes_view(ns.skip(i))[k] == nodes_view(ns).skip(i)[k] by {
        lemma_nodes_view_index(ns.skip(i), k);
        lemma_nodes_view_index(ns, k + i);
    }
    assert(nodes_view(ns.skip(i)) =~= nodes_view(ns).skip(i));
}

proof fn lemma_nodes_view_subrange(ns: Seq<HtmlNode>, i: int, j: int)
    requires
        0 <= i <= j <= ns.len(),
    ensures
        nodes_view(ns.subrange(i, j)) == nodes_view(ns).subrange(i, j),
{
    lemma_nodes_view_len(ns);
    lemma_nodes_view_len(ns.subrange(i, j));
    assert forall|k: int| 0 <= k < j - i implies #[trigger] nodes_view(ns.subrange(i, j))[k] == nodes_view(ns).subrange(i, j)[k] by {
        lemma_nodes_view_index(ns.subrange(i, j), k);
        lemma_nodes_view_index(ns, k + i);
    }
    assert(nodes_view(ns.subrange(i, j)) =~= nodes_view(ns).subrange(i, j));
}

fn next_deco_exec(nodes: &[HtmlNode], from: usize) -> (r: usize)
    requires
        from <= nodes.len(),
    ensures
        r == from + next_deco(nodes_view(nodes@).skip(from as int)),
        from <= r <= nodes.len(),
{
    let ghost nv = nodes_view(nodes@);
    proof {
        lemma_nodes_view_len(nodes@);
    }
    let mut k: usize = from;
    while k < nodes.len()
        invariant
            from <= k <= nodes.len(),
            nv == nodes_view(nodes@),
            nv.len() == nodes@.len(),
            next_deco(nv.skip(from as int)) == (k - from) + next_deco(nv.skip(k as int)),
        decreases nodes.len() - k,
    {
        proof {
            lemma_nodes_view_index(nodes@, k as int);
            assert(nv.skip(k as int)[0] == nv[k as int]);
            assert(nv.skip(k as int).drop_first() == nv.skip(k + 1));
        }
        match &nodes[k] {
            HtmlNode::Element(e) => {
                assert(nv[k as int] == NodeView::Element(element_view(*e)));
                if e.has_class("deco") {
                    proof {
                        lemma_next_deco(nv.skip(from as int));
                    }
                    return k;
                }
            },
            HtmlNode::Text(_) => {},
        }
        k += 1;
    }
    assert(nv.skip(k as int).len() == 0);
    k
}

/// Appends the sections that auxiliary headings among `nodes` and below open.
#[verifier::spinoff_prover]
#[verifier::rlimit(60)]
pub fn collect_deco_sections_in(
    nodes: &[HtmlNode],
    example_form: &str,
    placeholder_stem: Option<&str>,
    output: &mut Vec<DictionarySection>,
)
    ensures
        final(output)@.take(old(output)@.len() as int) == old(output)@,
        sections_from(
            final(output)@,
            old(output)@.len() as int,
            deco_sections_in(nodes_view(nodes@), example_form@, opt_str(placeholder_stem)),
        ),
    decreases nodes@,
{
    let ghost nv = nodes_view(nodes@);
    let ghost form = example_form@;
    let ghost stem = opt_str(placeholder_stem);
    let ghost start = output@;
    proof {
        lemma_nodes_view_len(nodes@);
        assert(nv.skip(0) == nv);
        assert(output@.take(start.len() as int) == start);
        let e = Seq::<SectionSpec>::empty();
        assert(sections_from(output@, start.len() as int, e));
        assert(e + deco_sections_in(nv.skip(0), form, stem) =~= deco_sections_in(nv, form, stem));
    }
    for i in 0..nodes.len()
        invariant
            nv == nodes_view(nodes@),
            nv.len() == nodes@.len(),
            form == example_form@ && stem == opt_str(placeholder_stem),
            output@.take(start.len() as int) == start,
            exists|done: Seq<SectionSpec>|
                {
                    &&& #[trigger] sections_from(output@, start.len() as int, done)
                    &&& done + deco_sections_in(nv.skip(i as int), form, stem) == deco_sections_in(nv, form, stem)
                },
    {
        let ghost done = choose|done: Seq<SectionSpec>|
            {
                &&& #[trigger] sections_from(output@, start.len() as int, done)
                &&& done + deco_sections_in(nv.skip(i as int), form, stem) == deco_sections_in(nv, form, stem)
            };
        proof {
            lemma_nodes_view_index(nodes@, i as int);
            assert(nv.skip(i as int)[0] == nv[i as int]);
            assert(nv.skip(i as int).drop_first() == nv.skip(i + 1));
        }
        match &nodes[i] {
            HtmlNode::Text(_) => {
                assert(deco_sections_in(nv.skip(i as int), form, stem) == deco_sections_in(nv.skip(i + 1), form, stem));
                assert(sections_from(output@, start.len() as int, done));
            },
            HtmlNode::Element(deco) => {
                let ghost dv = element_view(*deco);
                assert(nv[i as int] == NodeView::Element(dv));
                assert(dv.children == nodes_view(deco.children@));
                let ghost rest = nv.skip(i + 1);
                let ghost mid = output@;
                if is_auxiliary_section_deco(deco) {
                    let text = deco.text();
                    let label = normalize_visible_text(text.as_str());
                    let end = next_deco_exec(nodes, i + 1);
                    let siblings = vstd::slice::slice_subrange(nodes, i + 1, end);
                    proof {
                        lemma_nodes_view_subrange(nodes@, i + 1, end as int);
                        assert(nodes@.subrange(i + 1, end as int) == siblings@);
                        assert(nv.subrange(i + 1, end as int) =~= rest.take(next_deco(rest)));
                    }
                    let lines = render_section_lines(siblings);
                    match build_deco_section(label.as_str(), lines.as_slice(), example_form, placeholder_stem) {
                        Some(section) => {
                            output.push(section);
                        },
                        None => {},
                    }
                }
                let ghost here = if spec_has_class(dv, "deco"@) && auxiliary_heading(element_text(dv)) {
                    match deco_section(element_text(dv), section_lines(rest.take(next_deco(rest))), form, stem) {
                        Some(sec) => seq![sec],
                        None => seq![],
                    }
                } else {
                    seq![]
                };
                assert(sections_from(output@, start.len() as int, done + here)) by {
                    assert forall|k: int| 0 <= k < (done + here).len() implies section_matches(
                        #[trigger] output@[start.len() + k],
                        (done + here)[k],
                    ) by {
                        if k < done.len() {
                            assert(output@[start.len() + k] == mid[start.len() + k]);
                        }
                    }
                }
                let ghost mid2 = output@;
                assert(decreases_to!(nodes@ => nodes@[i as int]));
                collect_deco_sections_in(deco.children.as_slice(), example_form, placeholder_stem, output);
                let ghost inner = deco_sections_in(dv.children, form, stem);
                assert(sections_from(output@, start.len() as int, done + here + inner)) by {
                    assert forall|k: int| 0 <= k < (done + here + inner).len() implies section_matches(
                        #[trigger] output@[start.len() + k],
                        (done + here + inner)[k],
                    ) by {
                        if k < (done + here).len() {
                            assert(output@.take(mid2.len() as int) == mid2);
                            assert(output@[start.len() + k] == mid2[start.len() + k]);
                        } else {
                            assert(output@[mid2.len() + (k - (done + here).len())] == output@[start.len() + k]);
                        }
                    }
                }
                assert(deco_sections_in(nv.skip(i as int), form, stem) == here + inner + deco_sections_in(rest, form, stem));
                assert(done + here + inner + deco_sections_in(rest, form, stem) =~= done + deco_sections_in(nv.skip(i as int), form, stem));
                assert(output@.take(start.len() as int) =~= start) by {
                    assert(output@.take(mid2.len() as int) == mid2);
                    assert(mid2.take(start.len() as int) == start);
                }
            },
        }
    }
    proof {
        let done = choose|done: Seq<SectionSpec>|
            {
                &&& #[trigger] sections_from(output@, start.len() as int, done)
                &&& done + deco_sections_in(nv.skip(nv.len() as int), form, stem) == deco_sections_in(nv, form, stem)
            };
        assert(nv.skip(nv.len() as int) =~= Seq::<NodeView>::empty());
        assert(done + Seq::<SectionSpec>::empty() =~= done);
    }
}

/// The sections that the auxiliary headings of a definition open.
pub fn collect_deco_sections(root: &HtmlElement, example_form: &str, placeholder_stem: Option<&str>) -> (r: Vec<DictionarySection>)
    ensures
        sections_from(r@, 0, deco_sections_in(element_view(*root).children, example_form@, opt_str(placeholder_stem))),
{
    let mut sections: Vec<DictionarySection> = Vec::new();
    collect_deco_sections_in(root.children.as_slice(), example_form, placeholder_stem, &mut sections);
    sections
}

/// The text of example nodes, escaped, with ruby readings and small print kept.
pub open spec fn example_text(nodes: Seq<NodeView>, out: Seq<char>) -> Seq<char>
    decreases nodes,
{
    if nodes.len() == 0 {
        out
    } else {
        let next = match nodes[0] {
            NodeView::Text(t) => out + escaped(t),
            NodeView::Element(e) => if spec_has_class(e, "ruby"@) {
                with_reading(out, element_text(e))
            } else if e.name == "small"@ || spec_has_class(e, "small"@) {
                example_text(e.children, out + "<small>"@) + "</small>"@
            } else {
                example_text(e.children, out)
            },
        };
        example_text(nodes.drop_first(), next)
    }
}

pub fn render_example_nodes(nodes: &[HtmlNode], output: &mut String)
    ensures
        final(output)@ == example_text(nodes_view(nodes@), old(output)@),
    decreases nodes@,
{
    let ghost nv = nodes_view(nodes@);
    let ghost start = output@;
    proof {
        lemma_nodes_view_len(nodes@);
        assert(nv.skip(0) == nv);
    }
    for i in 0..nodes.len()
        invariant
            nv == nodes_view(nodes@),
            nv.len() == nodes@.len(),
            example_text(nv, start) == example_text(nv.skip(i as int), output@),
    {
        proof {
            lemma_nodes_view_index(nodes@, i as int);
            assert(nv.skip(i as int)[0] == nv[i as int]);
            assert(nv.skip(i as int).drop_first() == nv.skip(i + 1));
        }
        match &nodes[i] {
            HtmlNode::Text(text) => {
                let escaped_text = escape_html(text.as_str());
                push_str(output, escaped_text.as_str());
            },
            HtmlNode::Element(element) => {
                let ghost ev = element_view(*element);
                assert(nv[i as int] == NodeView::Element(ev));
                assert(ev.children == nodes_view(element.children@));
                if element.has_class("ruby") {
                    let text = element.text();
                    let reading = normalize_visible_text(text.as_str());
                    wrap_trailing_kanji(output, reading.as_str());
                } else if is_small(element) {
                    push_str(output, "<small>");
                    assert(decreases_to!(nodes@ => nodes@[i as int]));
                    render_example_nodes(element.children.as_slice(), output);
                    push_str(output, "</small>");
                } else {
                    assert(decreases_to!(nodes@ => nodes@[i as int]));
                    render_example_nodes(element.children.as_slice(), output);
                }
            },
        }
    }
    assert(nv.skip(nv.len() as int) =~= Seq::<NodeView>::empty());
}

/// The texts between `「` and the next `」`, left to right.
pub open spec fn quoted_values(s: Seq<char>) -> Seq<Seq<char>>
    decreases s.len(),
{
    match first_index(s, '「') {
        None => seq![],
        Some(a) => {
            let after = s.skip(a + 1);
            match first_index(after, '」') {
                None => seq![],
                Some(b) => if 0 <= a < s.len() && 0 <= b < after.len() {
                    seq![after.take(b)] + quoted_values(after.skip(b + 1))
                } else {
                    seq![]
                },
            }
        },
    }
}

/// The quoted examples, placeholders written out, normalised, the empty ones left out.
pub open spec fn example_values(quoted: Seq<Seq<char>>, form: Seq<char>, stem: Option<Seq<char>>) -> Seq<Seq<char>>
    decreases quoted.len(),
{
    if quoted.len() == 0 {
        seq![]
    } else {
        let r = example_values(quoted.drop_last(), form, stem);
        let v = normalized_visible(placeholders_expanded(quoted.last(), form, stem_or_form(form, stem)));
        if v.len() > 0 { r.push(v) } else { r }
    }
}

/// The example group's text as it is shown.
pub open spec fn example_group_text(e: ElementView) -> Seq<char> {
    entities_restored(normalized_visible(example_text(e.children, seq![])))
}

/// The sources of the examples an example group holds: each quoted example,
/// or, with none quoted, the whole text when there is any.
pub open spec fn examples_of(e: ElementView, form: Seq<char>, stem: Option<Seq<char>>) -> Seq<Seq<char>> {
    let text = example_group_text(e);
    let values = example_values(quoted_values(text), form, stem);
    if values.len() == 0 && text.len() > 0 {
        seq![placeholders_expanded(text, form, stem_or_form(form, stem))]
    } else {
        values
    }
}

/// A Japanese example made from `source`, without translation or note.
pub open spec fn example_matches(ex: DictionaryExample, source: Seq<char>) -> bool {
    ja_html(ex.source, source) && ex.translation is None && ex.note is None
}

pub open spec fn examples_match(v: Seq<DictionaryExample>, sources: Seq<Seq<char>>) -> bool {
    v.len() == sources.len() && forall|i: int| 0 <= i < sources.len() ==> example_matches(#[trigger] v[i], sources[i])
}

fn plain_example(source: &str) -> (r: DictionaryExample)
    ensures
        example_matches(r, source@),
{
    DictionaryExample { source: html_text("ja", source), translation: None, note: None }
}

proof fn lemma_examples_push(v: Seq<DictionaryExample>, s: Seq<Seq<char>>, x: DictionaryExample, sx: Seq<char>)
    requires
        examples_match(v, s),
        example_matches(x, sx),
    ensures
        examples_match(v.push(x), s.push(sx)),
{
    assert forall|i: int| 0 <= i < s.push(sx).len() implies example_matches(#[trigger] v.push(x)[i], s.push(sx)[i]) by {
        if i < s.len() {
            assert(v.push(x)[i] == v[i]);
        }
    }
}

fn quoted_values_exec(s: &[char]) -> (r: Vec<String>)
    ensures
        strings_view(r@) == quoted_values(s@),
{
    let mut out: Vec<String> = Vec::new();
    let mut pos: usize = 0;
    assert(s@.skip(0) == s@);
    while pos < s.len()
        invariant
            pos <= s.len(),
            quoted_values(s@) == strings_view(out@) + quoted_values(s@.skip(pos as int)),
        decreases s.len() - pos,
    {
        let rest = vstd::slice::slice_subrange(s, pos, s.len());
        assert(rest@ == s@.skip(pos as int));
        let a = match find_char(rest, '「') {
            Some(a) => a,
            None => {
                assert(quoted_values(s@.skip(pos as int)) =~= Seq::<Seq<char>>::empty());
                assert(strings_view(out@) + Seq::<Seq<char>>::empty() =~= strings_view(out@));
                return out;
            },
        };
        proof {
            crate::import::epub::lemma_first_index_pub(rest@, '「');
        }
        let after = vstd::slice::slice_subrange(rest, a + 1, rest.len());
        assert(after@ == rest@.skip(a + 1));
        let b = match find_char(after, '」') {
            Some(b) => b,
            None => {
                assert(quoted_values(s@.skip(pos as int)) =~= Seq::<Seq<char>>::empty());
                assert(strings_view(out@) + Seq::<Seq<char>>::empty() =~= strings_view(out@));
                return out;
            },
        };
        proof {
            crate::import::epub::lemma_first_index_pub(after@, '」');
        }
        let value = string_from_range(after, 0, b);
        assert(after@.subrange(0, b as int) == after@.take(b as int));
        let ghost before = strings_view(out@);
        out.push(value);
        assert(strings_view(out@) =~= before.push(after@.take(b as int)));
        assert(after@.skip(b + 1) =~= s@.skip(pos + a + 1 + b + 1));
        assert(quoted_values(s@.skip(pos as int)) == seq![after@.take(b as int)] + quoted_values(after@.skip(b + 1)));
        assert(strings_view(out@) + quoted_values(s@.skip(pos + a + 1 + b + 1)) =~= before + quoted_values(s@.skip(pos as int)));
        pos = pos + a + 1 + b + 1;
    }
    assert(s@.skip(pos as int) =~= Seq::<char>::empty());
    assert(quoted_values(Seq::<char>::empty()) =~= Seq::<Seq<char>>::empty());
    assert(strings_view(out@) + Seq::<Seq<char>>::empty() =~= strings_view(out@));
    out
}

/// The examples an example group holds.
pub fn parse_examples(element: &HtmlElement, display_form: &str, placeholder_stem: Option<&str>) -> (r: Vec<DictionaryExample>)
    ensures
        examples_match(r@, examples_of(element_view(*element), display_form@, opt_str(placeholder_stem))),
{
    let ghost ev = element_view(*element);
    let ghost form = display_form@;
    let ghost stem = opt_str(placeholder_stem);
    let mut rendered = String::new();
    render_example_nodes(element.children.as_slice(), &mut rendered);
    let normalized_raw = normalize_visible_text(rendered.as_str());
    let nc = chars_of(normalized_raw.as_str());
    let restored = restore_entities(nc.as_slice());
    let normalized = string_from_chars(restored.as_slice());
    assert(normalized@ == example_group_text(ev));
    let quoted = quoted_values_exec(restored.as_slice());
    let ghost qv = strings_view(quoted@);
    let mut values: Vec<DictionaryExample> = Vec::new();
    for i in 0..quoted.len()
        invariant
            qv == strings_view(quoted@),
            form == display_form@ && stem == opt_str(placeholder_stem),
            examples_match(values@, example_values(qv.take(i as int), form, stem)),
    {
        let expanded = expand_placeholders(quoted[i].as_str(), display_form, placeholder_stem);
        let value = normalize_visible_text(expanded.as_str());
        assert(qv.take(i + 1).drop_last() == qv.take(i as int));
        assert(qv.take(i + 1).last() == qv[i as int]);
        if !value.as_str().is_empty() {
            let ex = plain_example(value.as_str());
            proof {
                lemma_examples_push(values@, example_values(qv.take(i as int), form, stem), ex, value@);
            }
            values.push(ex);
        }
    }
    assert(qv.take(quoted.len() as int) == qv);
    if values.len() == 0 && !normalized.as_str().is_empty() {
        let expanded = expand_placeholders(normalized.as_str(), display_form, placeholder_stem);
        let ex = plain_example(expanded.as_str());
        values.push(ex);
        assert(examples_match(values@, seq![expanded@]));
    }
    values
}

/// The inline text of a definition body: examples, links, accents and nested
/// senses left out, ruby and small print kept, line breaks as spaces.
pub open spec fn body_text(nodes: Seq<NodeView>, out: Seq<char>) -> Seq<char>
    decreases nodes,
{
    if nodes.len() == 0 {
        out
    } else {
        let next = match nodes[0] {
            NodeView::Text(t) => out + escaped(t),
            NodeView::Element(e) => if spec_has_class(e, "rei"@) || e.name == "a"@ || spec_has_class(e, "annot"@)
                || marker_pair(e) {
                out
            } else if spec_has_class(e, "ruby"@) {
                with_reading(out, element_text(e))
            } else if e.name == "br"@ {
                out.push(' ')
            } else if e.name == "small"@ || spec_has_class(e, "small"@) {
                if local_grammar_label(element_text(e)) {
                    out
                } else {
                    body_text(e.children, out + "<small>"@) + "</small>"@
                }
            } else {
                body_text(e.children, out)
            },
        };
        body_text(nodes.drop_first(), next)
    }
}

pub fn render_body_nodes(nodes: &[HtmlNode], output: &mut String)
    ensures
        final(output)@ == body_text(nodes_view(nodes@), old(output)@),
    decreases nodes@,
{
    let ghost nv = nodes_view(nodes@);
    let ghost start = output@;
    proof {
        lemma_nodes_view_len(nodes@);
        assert(nv.skip(0) == nv);
    }
    for i in 0..nodes.len()
        invariant
            nv == nodes_view(nodes@),
            nv.len() == nodes@.len(),
            body_text(nv, start) == body_text(nv.skip(i as int), output@),
    {
        proof {
            lemma_nodes_view_index(nodes@, i as int);
            assert(nv.skip(i as int)[0] == nv[i as int]);
            assert(nv.skip(i as int).drop_first() == nv.skip(i + 1));
        }
        match &nodes[i] {
            HtmlNode::Text(text) => {
                let escaped_text = escape_html(text.as_str());
                push_str(output, escaped_text.as_str());
            },
            HtmlNode::Element(element) => {
                let ghost ev = element_view(*element);
                assert(nv[i as int] == NodeView::Element(ev));
                assert(ev.children == nodes_view(element.children@));
                if element.has_class("rei") || crate::text::str_eq(element.name.as_str(), "a")
                    || element.has_class("annot") || has_direct_marker_pair(element) {
                } else if element.has_class("ruby") {
                    let text = element.text();
                    let reading = normalize_visible_text(text.as_str());
                    wrap_trailing_kanji(output, reading.as_str());
                } else if crate::text::str_eq(element.name.as_str(), "br") {
                    crate::text::push_char(output, ' ');
                } else if is_small(element) {
                    let text = element.text();
                    let label = normalize_visible_text(text.as_str());
                    if !is_local_grammar_label(label.as_str()) {
                        push_str(output, "<small>");
                        assert(decreases_to!(nodes@ => nodes@[i as int]));
                        render_body_nodes(element.children.as_slice(), output);
                        push_str(output, "</small>");
                    }
                } else {
                    assert(decreases_to!(nodes@ => nodes@[i as int]));
                    render_body_nodes(element.children.as_slice(), output);
                }
            },
        }
    }
    assert(nv.skip(nv.len() as int) =~= Seq::<NodeView>::empty());
}

/// Ruby markup that escaping turned into entities, turned back.
pub open spec fn ruby_restored(s: Seq<char>) -> Seq<char> {
    let a = replace_all(s, "&lt;ruby&gt;"@, "<ruby>"@);
    let b = replace_all(a, "&lt;/ruby&gt;"@, "</ruby>"@);
    let c = replace_all(b, "&lt;rt&gt;"@, "<rt>"@);
    let d = replace_all(c, "&lt;/rt&gt;"@, "</rt>"@);
    replace_all(d, "&amp;"@, "&"@)
}

/// The inline definition text of an element's body.
pub open spec fn body_inline(e: ElementView) -> Seq<char> {
    ruby_restored(normalized_visible(replace_all(body_text(e.children, seq![]), "<br>"@, " "@)))
}

pub fn body_inline_html(element: &HtmlElement) -> (r: String)
    ensures
        r@ == body_inline(element_view(*element)),
{
    let mut output = String::new();
    render_body_nodes(element.children.as_slice(), &mut output);
    let oc = chars_of(output.as_str());
    let spaced = replace_chars(oc.as_slice(), chars_of("<br>").as_slice(), chars_of(" ").as_slice());
    let spaced_s = string_from_chars(spaced.as_slice());
    let normalized = normalize_visible_text(spaced_s.as_str());
    let nc = chars_of(normalized.as_str());
    let a = replace_chars(nc.as_slice(), chars_of("&lt;ruby&gt;").as_slice(), chars_of("<ruby>").as_slice());
    let b = replace_chars(a.as_slice(), chars_of("&lt;/ruby&gt;").as_slice(), chars_of("</ruby>").as_slice());
    let c = replace_chars(b.as_slice(), chars_of("&lt;rt&gt;").as_slice(), chars_of("<rt>").as_slice());
    let d = replace_chars(c.as_slice(), chars_of("&lt;/rt&gt;").as_slice(), chars_of("</rt>").as_slice());
    let e = replace_chars(d.as_slice(), chars_of("&amp;").as_slice(), chars_of("&").as_slice());
    string_from_chars(e.as_slice())
}

} // verus!
