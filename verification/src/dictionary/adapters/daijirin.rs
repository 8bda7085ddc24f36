//! Reading the structure of 大辞林 definitions: sense markers, decorated
//! section heads and the header fields.
use vstd::prelude::*;
pub use crate::dictionary::adapters::daijirin_adapt::adapt;
use crate::dictionary::adapters::common::{
    direct_child_elements, element_children, normalize_visible_text, normalized_visible,
};
use crate::dictionary::lookup_state::{spec_trim, trim_chars};
use crate::dictionary::model::DictionarySense;
use crate::html::{
    attr_value, collect_text, element_view, refs_view, spec_has_class, ElementView, HtmlElement,
    HtmlNode, NodeView,
};
use crate::dictionary::adapters::common::{normalize_reading, normalized_reading};
use crate::dictionary::lookup_state::trim_start;
use crate::html::{by_class, by_name, descendants, find_by_class, nodes_view};
use crate::import::epub::{find_pattern, find_seq, starts_with};
use crate::text::{chars_of, push_decimal, decimal, remove_char, remove_chars, str_eq, string_from_chars};

verus! {

/// The visible text of an element, normalised.
pub open spec fn element_text(e: ElementView) -> Seq<char> {
    normalized_visible(collect_text(e.children, seq![], seq![]))
}

pub open spec fn in_range(c: char, lo: u32, hi: u32) -> bool {
    lo <= c as u32 <= hi
}

/// The number an enclosed numeral (①–⑳, ㉑–㉟, ㊱–㊿) stands for.
pub open spec fn enclosed_number(c: char) -> Option<nat> {
    if in_range(c, 0x2460, 0x2473) {
        Some((c as u32 - 0x2460 + 1) as nat)
    } else if in_range(c, 0x3251, 0x325f) {
        Some((c as u32 - 0x3251 + 21) as nat)
    } else if in_range(c, 0x32b1, 0x32bf) {
        Some((c as u32 - 0x32b1 + 36) as nat)
    } else {
        None
    }
}

/// A sense marker as shown: a single enclosed numeral becomes its number in
/// decimal, every other marker stays as it is.
pub open spec fn sense_marker(value: Seq<char>) -> Seq<char> {
    if value.len() == 1 && enclosed_number(value[0]) is Some {
        decimal(enclosed_number(value[0])->0)
    } else {
        value
    }
}

pub fn normalize_sense_marker(value: &str) -> (r: String)
    ensures
        r@ == sense_marker(value@),
{
    let chars = chars_of(value);
    if chars.len() != 1 {
        return value.to_owned();
    }
    let c = chars[0];
    let u = c as u32;
    let number: u64 = if 0x2460 <= u && u <= 0x2473 {
        (u - 0x2460 + 1) as u64
    } else if 0x3251 <= u && u <= 0x325f {
        (u - 0x3251 + 21) as u64
    } else if 0x32b1 <= u && u <= 0x32bf {
        (u - 0x32b1 + 36) as u64
    } else {
        return value.to_owned();
    };
    let mut out = String::new();
    push_decimal(&mut out, number);
    assert(out@ =~= decimal(number as nat));
    out
}

/// A single character that marks a sense: an enclosed numeral, an enclosed
/// katakana (㋐–㋾) or a character from 一 to 十.
pub open spec fn marker_char(value: Seq<char>) -> bool {
    value.len() == 1 && (in_range(value[0], 0x2460, 0x2473) || in_range(value[0], 0x3251, 0x325f)
        || in_range(value[0], 0x32b1, 0x32bf) || in_range(value[0], 0x32d0, 0x32fe) || in_range(
        value[0],
        0x4e00,
        0x5341,
    ))
}

pub fn is_marker(value: &str) -> (b: bool)
    ensures
        b == marker_char(value@),
{
    let chars = chars_of(value);
    if chars.len() != 1 {
        return false;
    }
    let u = chars[0] as u32;
    (0x2460 <= u && u <= 0x2473) || (0x3251 <= u && u <= 0x325f) || (0x32b1 <= u && u <= 0x32bf)
        || (0x32d0 <= u && u <= 0x32fe) || (0x4e00 <= u && u <= 0x5341)
}

/// `s` without trailing `.` or `．`.
pub open spec fn trim_end_dots(s: Seq<char>) -> Seq<char>
    decreases s.len(),
{
    if s.len() > 0 && (s.last() == '.' || s.last() == '．') {
        trim_end_dots(s.drop_last())
    } else {
        s
    }
}

fn trim_end_dots_exec(s: &[char]) -> (r: Vec<char>)
    ensures
        r@ == trim_end_dots(s@),
{
    let mut j: usize = s.len();
    assert(s@.take(j as int) == s@);
    while j > 0 && (s[j - 1] == '.' || s[j - 1] == '．')
        invariant
            j <= s.len(),
            trim_end_dots(s@) == trim_end_dots(s@.take(j as int)),
        decreases j,
    {
        assert(s@.take(j as int).drop_last() == s@.take(j - 1));
        j -= 1;
    }
    let kept = crate::text::string_from_range(s, 0, j);
    assert(kept@ == s@.take(j as int));
    chars_of(kept.as_str())
}

/// The marker an element shows: its normalised text without trailing
/// periods, when it is not a decoration and either is classed `no` or reads as a marker.
pub open spec fn marker_of(e: ElementView) -> Option<Seq<char>> {
    let value = spec_trim(trim_end_dots(spec_trim(element_text(e))));
    if spec_has_class(e, "deco"@) {
        None
    } else if spec_has_class(e, "no"@) || marker_char(value) {
        Some(sense_marker(value))
    } else {
        None
    }
}

pub fn marker_text(element: &HtmlElement) -> (r: Option<String>)
    ensures
        match r {
            Some(m) => marker_of(element_view(*element)) == Some(m@),
            None => marker_of(element_view(*element)) is None,
        },
{
    if element.has_class("deco") {
        return None;
    }
    let text = element.text();
    let normalized = normalize_visible_text(text.as_str());
    let first = trim_chars(chars_of(normalized.as_str()).as_slice());
    let dotless = trim_end_dots_exec(first.as_slice());
    let value_chars = trim_chars(dotless.as_slice());
    let value = string_from_chars(value_chars.as_slice());
    if element.has_class("no") || is_marker(value.as_str()) {
        Some(normalize_sense_marker(value.as_str()))
    } else {
        None
    }
}

/// Whether a character is a CJK ideograph.
pub fn is_kanji(character: char) -> (b: bool)
    ensures
        b == crate::text::spec_is_han(character),
{
    crate::text::is_han(character)
}

/// A decorated numeral 一–十 heading a major sense group (not a round-rect label).
pub open spec fn major_deco(e: ElementView) -> bool {
    spec_has_class(e, "deco"@) && attr_value(e.attrs, "type"@) != Some("round-rect"@)
        && element_text(e).len() == 1 && in_range(element_text(e)[0], 0x4e00, 0x5341)
}

/// A decorated numeral 一–十 in a rectangle.
pub open spec fn rect_deco(e: ElementView) -> bool {
    spec_has_class(e, "deco"@) && attr_value(e.attrs, "type"@) == Some("rect"@)
        && element_text(e).len() == 1 && in_range(element_text(e)[0], 0x4e00, 0x5341)
}

fn single_numeral_text(element: &HtmlElement) -> (b: bool)
    ensures
        b == (element_text(element_view(*element)).len() == 1 && in_range(
            element_text(element_view(*element))[0],
            0x4e00,
            0x5341,
        )),
{
    let text = element.text();
    let marker = chars_of(normalize_visible_text(text.as_str()).as_str());
    marker.len() == 1 && 0x4e00 <= (marker[0] as u32) && (marker[0] as u32) <= 0x5341
}

fn attr_is(element: &HtmlElement, name: &str, value: &str) -> (b: bool)
    ensures
        b == (attr_value(element_view(*element).attrs, name@) == Some(value@)),
{
    match element.attr(name) {
        Some(v) => str_eq(v, value),
        None => false,
    }
}

pub fn is_major_deco(element: &HtmlElement) -> (b: bool)
    ensures
        b == major_deco(element_view(*element)),
{
    if !element.has_class("deco") || attr_is(element, "type", "round-rect") {
        return false;
    }
    single_numeral_text(element)
}

pub fn is_rect_deco(element: &HtmlElement) -> (b: bool)
    ensures
        b == rect_deco(element_view(*element)),
{
    if !element.has_class("deco") || !attr_is(element, "type", "rect") {
        return false;
    }
    single_numeral_text(element)
}

/// Whether some element child heads a major sense group.
pub fn has_major_deco(element: &HtmlElement) -> (b: bool)
    ensures
        b == exists|k: int| 0 <= k < element_children(element_view(*element).children).len()
            && major_deco(#[trigger] element_children(element_view(*element).children)[k]),
{
    let children = direct_child_elements(element);
    let ghost cv = refs_view(children@);
    let mut i: usize = 0;
    while i < children.len()
        invariant
            i <= children.len(),
            cv == refs_view(children@),
            cv == element_children(element_view(*element).children),
            forall|m: int| 0 <= m < i ==> !major_deco(#[trigger] cv[m]),
        decreases children.len() - i,
    {
        if is_major_deco(children[i]) {
            assert(major_deco(cv[i as int]));
            return true;
        }
        i += 1;
    }
    false
}

/// The section heads that end the definition proper.
pub open spec fn auxiliary_heading(t: Seq<char>) -> bool {
    t == "表記"@ || t == "慣用"@ || t == "派生"@ || t == "可能"@ || t == "補足"@ || t == "注意"@
}

pub fn is_auxiliary_section_deco(element: &HtmlElement) -> (b: bool)
    ensures
        b == (spec_has_class(element_view(*element), "deco"@) && auxiliary_heading(element_text(element_view(*element)))),
{
    if !element.has_class("deco") {
        return false;
    }
    let text = element.text();
    let t = normalize_visible_text(text.as_str());
    let v = t.as_str();
    str_eq(v, "表記") || str_eq(v, "慣用") || str_eq(v, "派生") || str_eq(v, "可能") || str_eq(v, "補足")
        || str_eq(v, "注意")
}

/// An element whose content may follow a marker: classed `lefta` or `leftb`, or a `div`.
pub open spec fn marker_body(e: ElementView) -> bool {
    spec_has_class(e, "lefta"@) || spec_has_class(e, "leftb"@) || e.name == "div"@
}

/// Some element child reads as a marker and the next one as its content.
pub open spec fn marker_pair(e: ElementView) -> bool {
    let c = element_children(e.children);
    exists|k: int| 0 <= k && k + 1 < c.len() && #[trigger] marker_of(c[k]) is Some && marker_body(c[k + 1])
}

pub fn has_direct_marker_pair(element: &HtmlElement) -> (b: bool)
    ensures
        b == marker_pair(element_view(*element)),
{
    let children = direct_child_elements(element);
    let ghost cv = refs_view(children@);
    if children.len() < 2 {
        return false;
    }
    let mut i: usize = 0;
    while i + 1 < children.len()
        invariant
            i + 1 <= children.len(),
            cv == refs_view(children@),
            cv == element_children(element_view(*element).children),
            forall|m: int| 0 <= m < i && m + 1 < cv.len() ==> !(#[trigger] marker_of(cv[m]) is Some && marker_body(cv[m + 1])),
        decreases children.len() - i,
    {
        let next = children[i + 1];
        if marker_text(children[i]).is_some() && (next.has_class("lefta") || next.has_class("leftb")
            || str_eq(next.name.as_str(), "div")) {
            assert(marker_of(cv[i as int]) is Some && marker_body(cv[i + 1]));
            return true;
        }
        i += 1;
    }
    assert forall|m: int| 0 <= m && m + 1 < cv.len() implies !(#[trigger] marker_of(cv[m]) is Some && marker_body(cv[m + 1])) by {
        assert(m < i);
    }
    false
}

/// The headword up to its first bracket, trimmed, as the reading.
pub open spec fn headword_reading(raw: Seq<char>) -> Option<Seq<char>> {
    let end = match bracket_index(raw) {
        Some(k) => k,
        None => raw.len() as int,
    };
    let reading = spec_trim(raw.take(end));
    if reading.len() > 0 { Some(reading) } else { None }
}

pub open spec fn opening_bracket(c: char) -> bool {
    c == '【' || c == '〖' || c == '（' || c == '('
}

/// The position of the first opening bracket.
pub open spec fn bracket_index(s: Seq<char>) -> Option<int>
    decreases s.len(),
{
    if s.len() == 0 {
        None
    } else if opening_bracket(s[0]) {
        Some(0)
    } else {
        match bracket_index(s.drop_first()) {
            Some(k) => Some(k + 1),
            None => None,
        }
    }
}

proof fn lemma_bracket_index(s: Seq<char>)
    ensures
        match bracket_index(s) {
            Some(k) => 0 <= k < s.len(),
            None => true,
        },
    decreases s.len(),
{
    if s.len() > 0 && !opening_bracket(s[0]) {
        lemma_bracket_index(s.drop_first());
    }
}

pub fn reading_from_headword(raw_headword: &str) -> (r: Option<String>)
    ensures
        match r {
            Some(v) => headword_reading(raw_headword@) == Some(v@),
            None => headword_reading(raw_headword@) is None,
        },
{
    let chars = chars_of(raw_headword);
    let mut i: usize = 0;
    assert(chars@.skip(0) == chars@);
    while i < chars.len() && !(chars[i] == '【' || chars[i] == '〖' || chars[i] == '（' || chars[i] == '(')
        invariant
            i <= chars.len(),
            bracket_index(chars@) == match bracket_index(chars@.skip(i as int)) {
                Some(k) => Some(k + i),
                None => None,
            },
        decreases chars.len() - i,
    {
        assert(chars@.skip(i as int).drop_first() == chars@.skip(i + 1));
        i += 1;
    }
    proof {
        if i < chars.len() {
            assert(chars@.skip(i as int)[0] == chars@[i as int]);
        } else {
            assert(chars@.skip(i as int).len() == 0);
        }
    }
    let head = crate::text::string_from_range(chars.as_slice(), 0, i);
    assert(head@ == chars@.take(i as int));
    let reading = trim_chars(chars_of(head.as_str()).as_slice());
    if reading.len() > 0 {
        Some(string_from_chars(reading.as_slice()))
    } else {
        None
    }
}

/// The form to display: the indexed headword when it is among the forms,
/// else the first form, else the indexed headword.
pub open spec fn display_form(indexed: Seq<char>, forms: Seq<Seq<char>>) -> Seq<char> {
    if forms.contains(indexed) {
        indexed
    } else if forms.len() > 0 {
        forms[0]
    } else {
        indexed
    }
}

pub fn choose_display_form(indexed_headword: &str, forms: &[String]) -> (r: String)
    ensures
        r@ == display_form(indexed_headword@, forms@.map_values(|f: String| f@)),
{
    let ghost fv = forms@.map_values(|f: String| f@);
    let mut i: usize = 0;
    while i < forms.len()
        invariant
            i <= forms.len(),
            fv == forms@.map_values(|f: String| f@),
            forall|m: int| 0 <= m < i ==> fv[m] != indexed_headword@,
        decreases forms.len() - i,
    {
        if str_eq(forms[i].as_str(), indexed_headword) {
            assert(fv[i as int] == indexed_headword@);
            return forms[i].clone();
        }
        i += 1;
    }
    if forms.len() > 0 {
        forms[0].clone()
    } else {
        indexed_headword.to_owned()
    }
}

/// Whether a sense, or any sense below it, has definitions, glosses or examples.
pub open spec fn substantive(s: DictionarySense) -> bool
    decreases s,
{
    s.definitions@.len() > 0 || s.glosses@.len() > 0 || s.gloss_groups@.len() > 0
        || s.examples@.len() > 0 || substantive_any(s.children@)
}

pub open spec fn substantive_any(senses: Seq<DictionarySense>) -> bool
    decreases senses,
{
    if senses.len() == 0 {
        false
    } else {
        substantive(senses[0]) || substantive_any(senses.drop_first())
    }
}

pub fn sense_has_substantive_content(sense: &DictionarySense) -> (b: bool)
    ensures
        b == substantive(*sense),
    decreases sense,
{
    if sense.definitions.len() > 0 || sense.glosses.len() > 0 || sense.gloss_groups.len() > 0
        || sense.examples.len() > 0 {
        return true;
    }
    let ghost children = sense.children@;
    let mut i: usize = 0;
    assert(children.skip(0) == children);
    while i < sense.children.len()
        invariant
            i <= sense.children.len(),
            children == sense.children@,
            substantive_any(children) == substantive_any(children.skip(i as int)),
        decreases sense.children.len() - i,
    {
        assert(children.skip(i as int)[0] == children[i as int]);
        assert(children.skip(i as int).drop_first() == children.skip(i + 1));
        assert(decreases_to!(sense => sense.children));
        assert(decreases_to!(sense.children => sense.children@[i as int]));
        if sense_has_substantive_content(&sense.children[i]) {
            return true;
        }
        i += 1;
    }
    assert(children.skip(children.len() as int) =~= Seq::<DictionarySense>::empty());
    false
}


/// The normalised text of the first element (this one first) classed `class`, when not empty.
pub open spec fn class_text(e: ElementView, class: Seq<char>) -> Option<Seq<char>> {
    match find_by_class(e, class) {
        Some(x) => if element_text(x).len() > 0 { Some(element_text(x)) } else { None },
        None => None,
    }
}

pub fn first_class_text(element: &HtmlElement, class: &str) -> (r: Option<String>)
    ensures
        match r {
            Some(v) => class_text(element_view(*element), class@) == Some(v@),
            None => class_text(element_view(*element), class@) is None,
        },
{
    match element.first_by_class(class) {
        Some(found) => {
            let text = found.text();
            let value = normalize_visible_text(text.as_str());
            if value.as_str().is_empty() {
                None
            } else {
                Some(value)
            }
        },
        None => None,
    }
}

/// The foreign word a loanword comes from, with its language when given,
/// for definitions that mark an origin with `〖`.
pub open spec fn origin_of(root: ElementView, definition: Seq<char>) -> Option<Seq<char>> {
    if !definition.contains('〖') {
        None
    } else {
        match class_text(root, "nk"@) {
            None => None,
            Some(word) => match class_text(root, "small"@) {
                Some(language) => Some(language + seq![' '] + word),
                None => Some(word),
            },
        }
    }
}

fn contains_char(s: &[char], c: char) -> (b: bool)
    ensures
        b == s@.contains(c),
{
    let mut i: usize = 0;
    while i < s.len()
        invariant
            i <= s.len(),
            forall|m: int| 0 <= m < i ==> s@[m] != c,
        decreases s.len() - i,
    {
        if s[i] == c {
            assert(s@[i as int] == c);
            return true;
        }
        i += 1;
    }
    false
}

pub fn foreign_origin(root: &HtmlElement, definition: &str) -> (r: Option<String>)
    ensures
        match r {
            Some(v) => origin_of(element_view(*root), definition@) == Some(v@),
            None => origin_of(element_view(*root), definition@) is None,
        },
{
    if !contains_char(chars_of(definition).as_slice(), '〖') {
        return None;
    }
    let word = match first_class_text(root, "nk") {
        Some(w) => w,
        None => {
            return None;
        },
    };
    match first_class_text(root, "small") {
        Some(language) => {
            let mut out = language;
            crate::text::push_char(&mut out, ' ');
            crate::text::push_str(&mut out, word.as_str());
            Some(out)
        },
        None => Some(word),
    }
}

pub open spec fn contains_seq(s: Seq<char>, pat: Seq<char>) -> bool {
    find_seq(s, pat) is Some
}

/// Whether some element below the root is typed `漢字`.
pub open spec fn has_kanji_type(root: ElementView) -> bool {
    let all = descendants(root);
    exists|k: int| 0 <= k < all.len() && attr_value(#[trigger] all[k].attrs, "type"@) == Some("漢字"@)
}

/// The kind of entry a definition is: a kanji entry, a surname, a redirect or a word.
pub open spec fn entry_kind_of(root: ElementView, definition: Seq<char>) -> Seq<char> {
    let text = collect_text(root.children, seq![], seq![]);
    if has_kanji_type(root) {
        "kanji"@
    } else if contains_seq(text, "姓氏の一"@) || contains_seq(text, "姓氏"@) {
        "surname"@
    } else if starts_with(trim_start(definition), "@@@LINK="@) {
        "redirect"@
    } else {
        "lexical"@
    }
}

pub fn detect_kind(root: &HtmlElement, definition: &str) -> (r: &'static str)
    ensures
        r@ == entry_kind_of(element_view(*root), definition@),
{
    let mut elements: Vec<&HtmlElement> = Vec::new();
    root.all_elements(&mut elements);
    let ghost all = refs_view(elements@);
    assert(all =~= descendants(element_view(*root)));
    let mut i: usize = 0;
    while i < elements.len()
        invariant
            i <= elements.len(),
            all == refs_view(elements@),
            all == descendants(element_view(*root)),
            forall|m: int| 0 <= m < i ==> attr_value(#[trigger] all[m].attrs, "type"@) != Some("漢字"@),
        decreases elements.len() - i,
    {
        if attr_is(elements[i], "type", "漢字") {
            assert(attr_value(all[i as int].attrs, "type"@) == Some("漢字"@));
            return "kanji";
        }
        i += 1;
    }
    let text = chars_of(root.text().as_str());
    if find_pattern(text.as_slice(), chars_of("姓氏の一").as_slice()).is_some()
        || find_pattern(text.as_slice(), chars_of("姓氏").as_slice()).is_some() {
        return "surname";
    }
    let defn = chars_of(definition);
    let mut k: usize = 0;
    assert(defn@.skip(0) == defn@);
    while k < defn.len() && crate::text::is_whitespace(defn[k])
        invariant
            k <= defn.len(),
            trim_start(defn@) == trim_start(defn@.skip(k as int)),
        decreases defn.len() - k,
    {
        assert(defn@.skip(k as int).drop_first() == defn@.skip(k + 1));
        k += 1;
    }
    let rest = crate::text::string_from_range(defn.as_slice(), k, defn.len());
    assert(rest@ == defn@.skip(k as int));
    let rest_chars = chars_of(rest.as_str());
    let prefix = chars_of("@@@LINK=");
    let starts = crate::text::matches_at(rest_chars.as_slice(), 0, prefix.as_slice());
    assert(prefix@.len() <= rest_chars@.len() ==> rest_chars@.subrange(0, prefix@.len() as int) == rest_chars@.take(prefix@.len() as int));
    if starts {
        "redirect"
    } else {
        "lexical"
    }
}

/// A scoped form as shown: its text normalised, the form markers removed.
pub open spec fn scoped_form_text(e: ElementView) -> Seq<char> {
    remove_char(remove_char(remove_char(remove_char(remove_char(remove_char(element_text(e), '▽'), '△'), '▼'), '▲'), '〈'), '〉')
}

/// The distinct non-empty scoped forms of the `hy` elements, in order.
pub open spec fn scoped_forms_of(hy: Seq<ElementView>) -> Seq<Seq<char>>
    decreases hy.len(),
{
    if hy.len() == 0 {
        seq![]
    } else {
        let prev = scoped_forms_of(hy.drop_last());
        let v = scoped_form_text(hy.last());
        if v.len() > 0 && !prev.contains(v) { prev.push(v) } else { prev }
    }
}

pub fn scoped_forms(root: &HtmlElement) -> (r: Vec<String>)
    ensures
        r@.map_values(|f: String| f@) == scoped_forms_of(by_name(element_view(*root), "hy"@)),
{
    let mut elements: Vec<&HtmlElement> = Vec::new();
    root.all_by_name("hy", &mut elements);
    let ghost hv = refs_view(elements@);
    assert(hv =~= by_name(element_view(*root), "hy"@));
    let mut forms: Vec<String> = Vec::new();
    let mut i: usize = 0;
    while i < elements.len()
        invariant
            i <= elements.len(),
            hv == refs_view(elements@),
            forms@.map_values(|f: String| f@) == scoped_forms_of(hv.take(i as int)),
        decreases elements.len() - i,
    {
        assert(hv.take(i + 1).drop_last() == hv.take(i as int));
        assert(hv.take(i + 1).last() == element_view(*elements@[i as int]));
        let ghost fv = forms@.map_values(|f: String| f@);
        let text = elements[i].text();
        let mut v = chars_of(normalize_visible_text(text.as_str()).as_str());
        v = remove_chars(v.as_slice(), '▽');
        v = remove_chars(v.as_slice(), '△');
        v = remove_chars(v.as_slice(), '▼');
        v = remove_chars(v.as_slice(), '▲');
        v = remove_chars(v.as_slice(), '〈');
        v = remove_chars(v.as_slice(), '〉');
        if v.len() > 0 {
            let value = string_from_chars(v.as_slice());
            let mut seen = false;
            let mut k: usize = 0;
            while k < forms.len()
                invariant
                    k <= forms.len(),
                    fv == forms@.map_values(|f: String| f@),
                    seen == fv.take(k as int).contains(value@),
                decreases forms.len() - k,
            {
                let same = str_eq(forms[k].as_str(), value.as_str());
                proof {
                    assert(fv.take(k + 1) == fv.take(k as int).push(fv[k as int]));
                    crate::html::lemma_push_contains_pub(fv.take(k as int), fv[k as int], value@);
                }
                seen = seen || same;
                k += 1;
            }
            assert(fv.take(forms.len() as int) == fv);
            if !seen {
                forms.push(value);
                assert(forms@.map_values(|f: String| f@) =~= fv.push(value@));
            }
        }
        i += 1;
    }
    assert(hv.take(elements.len() as int) == hv);
    forms
}

/// Labels of local grammar (`スル`, `タリ`).
pub open spec fn local_grammar_label(v: Seq<char>) -> bool {
    v == "スル"@ || v == "タリ"@
}

pub fn is_local_grammar_label(value: &str) -> (b: bool)
    ensures
        b == local_grammar_label(value@),
{
    str_eq(value, "スル") || str_eq(value, "タリ")
}

/// The distinct local grammar labels among the texts, in order.
pub open spec fn grammar_labels_of(smalls: Seq<ElementView>) -> Seq<Seq<char>>
    decreases smalls.len(),
{
    if smalls.len() == 0 {
        seq![]
    } else {
        let prev = grammar_labels_of(smalls.drop_last());
        let v = element_text(smalls.last());
        if local_grammar_label(v) && !prev.contains(v) { prev.push(v) } else { prev }
    }
}

pub fn local_grammar_labels(element: &HtmlElement) -> (r: Vec<String>)
    ensures
        r@.map_values(|f: String| f@) == grammar_labels_of(by_class(element_view(*element), "small"@)),
{
    let mut small: Vec<&HtmlElement> = Vec::new();
    element.all_by_class("small", &mut small);
    let ghost sv = refs_view(small@);
    assert(sv =~= by_class(element_view(*element), "small"@));
    let mut labels: Vec<String> = Vec::new();
    let mut i: usize = 0;
    while i < small.len()
        invariant
            i <= small.len(),
            sv == refs_view(small@),
            labels@.map_values(|f: String| f@) == grammar_labels_of(sv.take(i as int)),
        decreases small.len() - i,
    {
        assert(sv.take(i + 1).drop_last() == sv.take(i as int));
        assert(sv.take(i + 1).last() == element_view(*small@[i as int]));
        let ghost lv = labels@.map_values(|f: String| f@);
        let text = small[i].text();
        let label = normalize_visible_text(text.as_str());
        if is_local_grammar_label(label.as_str()) {
            let mut seen = false;
            let mut k: usize = 0;
            while k < labels.len()
                invariant
                    k <= labels.len(),
                    lv == labels@.map_values(|f: String| f@),
                    seen == lv.take(k as int).contains(label@),
                decreases labels.len() - k,
            {
                let same = str_eq(labels[k].as_str(), label.as_str());
                proof {
                    assert(lv.take(k + 1) == lv.take(k as int).push(lv[k as int]));
                    crate::html::lemma_push_contains_pub(lv.take(k as int), lv[k as int], label@);
                }
                seen = seen || same;
                k += 1;
            }
            assert(lv.take(labels.len() as int) == lv);
            if !seen {
                labels.push(label);
                assert(labels@.map_values(|f: String| f@) =~= lv.push(label@));
            }
        }
        i += 1;
    }
    assert(sv.take(small.len() as int) == sv);
    labels
}

} // verus!
