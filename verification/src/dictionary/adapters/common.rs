//! Building blocks shared by the dictionary adapters: visible-text
//! normalisation, escaping, sanitising and the fallback occurrence.
use vstd::prelude::*;
use crate::dictionary::lookup_state::{spec_trim, trim_chars};
use crate::dictionary::adapters::AdaptedOccurrence;
use crate::dictionary::lookup_state::opt_view;
use crate::dictionary::model::{
    DictionaryAdapterDiagnostics, DictionaryContentBlock, DictionaryExample, DictionaryGlossClause,
    DictionaryGlossGroup, DictionaryLink, DictionaryOccurrenceHeader, DictionarySection,
    DictionarySectionItem, DictionarySense, DictionaryTag, DictionaryText,
};
use crate::html::{
    attr_value, by_name, collect_text, element_view, nodes_view, refs_view, select, ElementView,
    HtmlElement, HtmlNode, NodeView,
};
use crate::text::{
    chars_of, collapse_chars, collapse_run, is_whitespace, push_char, push_str, remove_char,
    remove_chars, replace_all, replace_chars, spec_is_whitespace, string_from_chars,
};

verus! {

/// Typographic spaces read as a plain space, a full-width period as `。`.
pub open spec fn visible_char(c: char) -> char {
    let u = c as u32;
    if u == 0xa0 || (0x2002 <= u <= 0x200a) || u == 0x3000 {
        ' '
    } else if c == '．' {
        '。'
    } else {
        c
    }
}

/// Scanning left to right: each run of whitespace becomes one space, none
/// before the first visible character; the flag says the last character read was whitespace.
pub open spec fn squash(s: Seq<char>) -> (Seq<char>, bool)
    decreases s.len(),
{
    if s.len() == 0 {
        (seq![], false)
    } else {
        let (o, prev) = squash(s.drop_last());
        let c = visible_char(s.last());
        if spec_is_whitespace(c) {
            if !prev && o.len() > 0 {
                (o.push(' '), true)
            } else {
                (o, true)
            }
        } else {
            (o.push(c), false)
        }
    }
}

/// Runs of the doubled punctuation marks reduced to one mark.
pub open spec fn collapse_marks(s: Seq<char>) -> Seq<char> {
    collapse_run(collapse_run(collapse_run(collapse_run(collapse_run(s, '。'), '；'), '，'), '、'), '⇒')
}

/// Spaced duplicates joined, the empty bracket pair and the box corners removed.
pub open spec fn strip_marks(s: Seq<char>) -> Seq<char> {
    let a = replace_all(s, "。 。"@, "。"@);
    let b = replace_all(a, "， ，"@, "，"@);
    let c = replace_all(b, "【・】"@, seq![]);
    remove_char(remove_char(remove_char(remove_char(c, '┏'), '┓'), '┗'), '┛')
}

/// Dictionary text as a reader sees it: spacing squashed, doubled marks and
/// layout characters removed, trimmed.
pub open spec fn normalized_visible(v: Seq<char>) -> Seq<char> {
    spec_trim(strip_marks(collapse_marks(spec_trim(squash(v).0))))
}

/// A reading without the middle dots that separate its parts.
pub open spec fn normalized_reading(v: Seq<char>) -> Seq<char> {
    remove_char(remove_char(normalized_visible(v), '・'), '･')
}

/// The HTML escape of one character.
pub open spec fn escape_char(c: char) -> Seq<char> {
    if c == '&' {
        "&amp;"@
    } else if c == '<' {
        "&lt;"@
    } else if c == '>' {
        "&gt;"@
    } else if c == '"' {
        "&quot;"@
    } else if c == '\'' {
        "&#39;"@
    } else {
        seq![c]
    }
}

/// The HTML escape of a text: each of `& < > " '` replaced by its entity.
pub open spec fn escaped(s: Seq<char>) -> Seq<char>
    decreases s.len(),
{
    if s.len() == 0 {
        seq![]
    } else {
        escaped(s.drop_last()) + escape_char(s.last())
    }
}

fn visible_char_exec(c: char) -> (r: char)
    ensures
        r == visible_char(c),
{
    if c == '\u{a0}' || ('\u{2002}' <= c && c <= '\u{200a}') || c == '\u{3000}' {
        ' '
    } else if c == '．' {
        '。'
    } else {
        c
    }
}

/// Normalises dictionary text for display.
pub fn normalize_visible_text(value: &str) -> (r: String)
    ensures
        r@ == normalized_visible(value@),
{
    let input = chars_of(value);
    let mut output: Vec<char> = Vec::new();
    let mut previous_space = false;
    let mut i: usize = 0;
    while i < input.len()
        invariant
            i <= input.len(),
            (output@, previous_space) == squash(input@.take(i as int)),
        decreases input.len() - i,
    {
        assert(input@.take(i + 1).drop_last() == input@.take(i as int));
        let character = visible_char_exec(input[i]);
        if is_whitespace(character) {
            if !previous_space && output.len() > 0 {
                output.push(' ');
            }
            previous_space = true;
        } else {
            output.push(character);
            previous_space = false;
        }
        i += 1;
    }
    assert(input@.take(input.len() as int) == input@);
    let trimmed = trim_chars(output.as_slice());
    let mut collapsed = collapse_chars(trimmed.as_slice(), '。');
    collapsed = collapse_chars(collapsed.as_slice(), '；');
    collapsed = collapse_chars(collapsed.as_slice(), '，');
    collapsed = collapse_chars(collapsed.as_slice(), '、');
    collapsed = collapse_chars(collapsed.as_slice(), '⇒');
    let p1 = chars_of("。 。");
    let r1 = chars_of("。");
    let p2 = chars_of("， ，");
    let r2 = chars_of("，");
    let p3 = chars_of("【・】");
    let empty: Vec<char> = Vec::new();
    let mut stripped = replace_chars(collapsed.as_slice(), p1.as_slice(), r1.as_slice());
    stripped = replace_chars(stripped.as_slice(), p2.as_slice(), r2.as_slice());
    stripped = replace_chars(stripped.as_slice(), p3.as_slice(), empty.as_slice());
    assert(empty@ =~= Seq::<char>::empty());
    stripped = remove_chars(stripped.as_slice(), '┏');
    stripped = remove_chars(stripped.as_slice(), '┓');
    stripped = remove_chars(stripped.as_slice(), '┗');
    stripped = remove_chars(stripped.as_slice(), '┛');
    let result = trim_chars(stripped.as_slice());
    string_from_chars(result.as_slice())
}

/// Normalises a reading: visible-text normalisation, then the middle dots removed.
pub fn normalize_reading(value: &str) -> (r: String)
    ensures
        r@ == normalized_reading(value@),
{
    let normalized = normalize_visible_text(value);
    let chars = chars_of(normalized.as_str());
    let without_dot = remove_chars(chars.as_slice(), '・');
    let without_half_dot = remove_chars(without_dot.as_slice(), '･');
    string_from_chars(without_half_dot.as_slice())
}

/// Escapes the characters that HTML gives a meaning.
pub fn escape_html(value: &str) -> (r: String)
    ensures
        r@ == escaped(value@),
{
    let input = chars_of(value);
    let mut output = String::new();
    let mut i: usize = 0;
    while i < input.len()
        invariant
            i <= input.len(),
            output@ == escaped(input@.take(i as int)),
        decreases input.len() - i,
    {
        assert(input@.take(i + 1).drop_last() == input@.take(i as int));
        let c = input[i];
        if c == '&' {
            push_str(&mut output, "&amp;");
        } else if c == '<' {
            push_str(&mut output, "&lt;");
        } else if c == '>' {
            push_str(&mut output, "&gt;");
        } else if c == '"' {
            push_str(&mut output, "&quot;");
        } else if c == '\'' {
            push_str(&mut output, "&#39;");
        } else {
            push_char(&mut output, c);
            assert(output@ =~= escaped(input@.take(i as int)) + seq![c]);
        }
        i += 1;
    }
    assert(input@.take(input.len() as int) == input@);
    output
}

/// Plain text in a language, normalised and escaped.
pub fn text(lang: &str, value: &str) -> (r: DictionaryText)
    ensures
        r.lang@ == lang@,
        r.qualifier is None,
        r.html@ == escaped(normalized_visible(value@)),
{
    let normalized = normalize_visible_text(value);
    DictionaryText { lang: lang.to_owned(), qualifier: None, html: escape_html(normalized.as_str()) }
}

/// Plain text with a qualifier, kept only when it is not empty after normalisation.
pub fn qualified_text(lang: &str, qualifier: &str, value: &str) -> (r: DictionaryText)
    ensures
        r.lang@ == lang@,
        match r.qualifier {
            Some(q) => normalized_visible(qualifier@).len() > 0 && q@ == normalized_visible(qualifier@),
            None => normalized_visible(qualifier@).len() == 0,
        },
        r.html@ == escaped(normalized_visible(value@)),
{
    let normalized_qualifier = normalize_visible_text(qualifier);
    let normalized = normalize_visible_text(value);
    let qualifier = if normalized_qualifier.as_str().is_empty() {
        None
    } else {
        Some(normalized_qualifier)
    };
    DictionaryText { lang: lang.to_owned(), qualifier, html: escape_html(normalized.as_str()) }
}

/// A tag with its label normalised.
pub fn tag(kind: &str, label: &str) -> (r: DictionaryTag)
    ensures
        r.kind@ == kind@,
        r.label@ == normalized_visible(label@),
{
    DictionaryTag { kind: kind.to_owned(), label: normalize_visible_text(label) }
}

/// A Japanese example with its Chinese translation, if the source has visible text;
/// a translation that normalises to nothing is dropped.
pub fn example(source: &str, translation: Option<&str>) -> (r: Option<DictionaryExample>)
    ensures
        match r {
            None => normalized_visible(source@).len() == 0,
            Some(e) => {
                &&& normalized_visible(source@).len() > 0
                &&& e.source.lang@ == "ja"@
                &&& e.source.qualifier is None
                &&& e.source.html@ == escaped(normalized_visible(normalized_visible(source@)))
                &&& e.note is None
                &&& match e.translation {
                    None => translation is None || normalized_visible(translation->0@).len() == 0,
                    Some(t) => {
                        &&& translation is Some
                        &&& normalized_visible(translation->0@).len() > 0
                        &&& t.lang@ == "zh-CN"@
                        &&& t.qualifier is None
                        &&& t.html@ == escaped(normalized_visible(normalized_visible(translation->0@)))
                    },
                }
            },
        },
{
    let source = normalize_visible_text(source);
    if source.as_str().is_empty() {
        return None;
    }
    let translated = match translation {
        Some(value) => {
            let normalized = normalize_visible_text(value);
            if normalized.as_str().is_empty() {
                None
            } else {
                Some(text("zh-CN", normalized.as_str()))
            }
        },
        None => None,
    };
    Some(DictionaryExample { source: text("ja", source.as_str()), translation: translated, note: None })
}


/// What `ammonia::Builder::clean` gives for `source` under an allow-list of
/// tags and of attributes per tag (the rest of the builder at its defaults).
pub uninterp spec fn sanitized_html(
    source: Seq<char>,
    tags: Seq<Seq<char>>,
    attributes: Seq<(Seq<char>, Seq<Seq<char>>)>,
) -> Seq<char>;

pub open spec fn strs_view(v: Seq<&str>) -> Seq<Seq<char>> {
    v.map_values(|t: &str| t@)
}

pub open spec fn tag_attrs_view(v: Seq<(&str, &[&str])>) -> Seq<(Seq<char>, Seq<Seq<char>>)> {
    v.map_values(|a: (&str, &[&str])| (a.0@, strs_view(a.1@)))
}

/// Allow-lists on which `Builder::clean` runs to the end: the default builder
/// strips the content of `script` and `style` and sets `rel` on links itself, and
/// `clean` asserts that neither tag is allowed or given attributes and that `a`
/// is not given `rel`.
pub open spec fn ammonia_accepts(tags: Seq<Seq<char>>, attributes: Seq<(Seq<char>, Seq<Seq<char>>)>) -> bool {
    &&& !tags.contains("script"@)
    &&& !tags.contains("style"@)
    &&& forall|i: int|
        0 <= i < attributes.len() ==> {
            &&& #[trigger] attributes[i].0 != "script"@
            &&& attributes[i].0 != "style"@
            &&& (attributes[i].0 == "a"@ ==> !attributes[i].1.contains("rel"@))
        }
}

/// `ammonia::Builder::default()` with the allowed tags replaced by `tags`
/// (`Builder::tags`), the attributes of `attributes` added per tag
/// (`Builder::add_tag_attributes`), then `Builder::clean` on `source`, rendered to a string.
#[verifier::external_body]
fn ammonia_clean<'a>(source: &str, tags: &[&'a str], attributes: &[(&'a str, &'a [&'a str])]) -> (r: String)
    requires
        ammonia_accepts(strs_view(tags@), tag_attrs_view(attributes@)),
    ensures
        r@ == sanitized_html(source@, strs_view(tags@), tag_attrs_view(attributes@)),
{
    let mut builder = ammonia::Builder::default();
    builder.tags(tags.iter().copied().collect());
    for (tag, names) in attributes {
        builder.add_tag_attributes(*tag, names.iter());
    }
    builder.clean(source).to_string()
}

/// The tags a fallback definition keeps.
pub open spec fn fallback_tags() -> Seq<Seq<char>> {
    seq![
        "p"@, "div"@, "span"@, "br"@, "ruby"@, "rt"@, "rp"@, "b"@, "strong"@, "i"@, "em"@,
        "ul"@, "ol"@, "li"@, "dl"@, "dt"@, "dd"@, "table"@, "thead"@, "tbody"@, "tr"@, "th"@,
        "td"@, "sup"@, "sub"@, "small"@, "blockquote"@, "section"@, "jae"@, "ja_cn"@,
    ]
}

/// The attributes a fallback definition keeps, per tag.
pub open spec fn fallback_attributes() -> Seq<(Seq<char>, Seq<Seq<char>>)> {
    seq![
        ("span"@, seq!["class"@, "type"@]),
        ("div"@, seq!["class"@, "id"@, "type"@, "delimiter"@, "data-orgtag"@]),
        ("p"@, seq!["class"@, "level"@, "no"@, "type"@, "delimiter"@, "data-orgtag"@]),
        ("section"@, seq!["class"@]),
    ]
}

/// The most bytes a rendered definition keeps.
pub const MAX_DEFINITION_BYTES: u64 = 524288;

/// The number of bytes of a character in UTF-8.
pub open spec fn char_width(c: char) -> nat {
    let u = c as u32;
    if u < 0x80 {
        1
    } else if u < 0x800 {
        2
    } else if u < 0x10000 {
        3
    } else {
        4
    }
}

/// The number of bytes of a text in UTF-8.
pub open spec fn utf8_width(s: Seq<char>) -> nat
    decreases s.len(),
{
    if s.len() == 0 {
        0
    } else {
        utf8_width(s.drop_last()) + char_width(s.last())
    }
}

/// How many leading characters of `s` fit in `budget` bytes.
pub open spec fn fitting_prefix(s: Seq<char>, budget: int) -> nat
    decreases s.len(),
{
    if s.len() == 0 || char_width(s[0]) > budget {
        0
    } else {
        1 + fitting_prefix(s.drop_first(), budget - char_width(s[0]))
    }
}

/// A definition cut at the last character boundary within the byte limit, with a mark.
pub open spec fn truncated(s: Seq<char>) -> Seq<char> {
    if utf8_width(s) <= MAX_DEFINITION_BYTES {
        s
    } else {
        s.take(fitting_prefix(s, MAX_DEFINITION_BYTES as int) as int) + "… [内容已截断]"@
    }
}

/// A definition run through the fallback allow-list and the size limit.
pub open spec fn sanitized_fallback(source: Seq<char>) -> Seq<char> {
    truncated(sanitized_html(source, fallback_tags(), fallback_attributes()))
}

fn char_width_exec(c: char) -> (w: u64)
    ensures
        w == char_width(c),
{
    let u = c as u32;
    if u < 0x80 {
        1
    } else if u < 0x800 {
        2
    } else if u < 0x10000 {
        3
    } else {
        4
    }
}

proof fn lemma_fitting_prefix_step(s: Seq<char>, budget: int, i: int)
    requires
        0 <= i < s.len(),
        fitting_prefix(s, budget) == i + fitting_prefix(s.skip(i), budget - utf8_width(s.take(i))),
    ensures
        char_width(s[i]) > budget - utf8_width(s.take(i)) ==> fitting_prefix(s, budget) == i,
        char_width(s[i]) <= budget - utf8_width(s.take(i)) ==> fitting_prefix(s, budget) == i + 1
            + fitting_prefix(s.skip(i + 1), budget - utf8_width(s.take(i + 1))),
{
    assert(s.skip(i)[0] == s[i]);
    assert(s.skip(i).drop_first() == s.skip(i + 1));
    assert(s.take(i + 1).drop_last() == s.take(i));
}

proof fn lemma_fitting_prefix_all(s: Seq<char>, budget: int)
    requires
        utf8_width(s) <= budget,
    ensures
        fitting_prefix(s, budget) == s.len(),
    decreases s.len(),
{
    if s.len() > 0 {
        lemma_utf8_width_first(s);
        lemma_fitting_prefix_all(s.drop_first(), budget - char_width(s[0]));
    }
}

proof fn lemma_utf8_width_first(s: Seq<char>)
    requires
        s.len() > 0,
    ensures
        utf8_width(s) == char_width(s[0]) + utf8_width(s.drop_first()),
    decreases s.len(),
{
    if s.len() > 1 {
        lemma_utf8_width_first(s.drop_last());
        assert(s.drop_last().drop_first() == s.drop_first().drop_last());
        assert(s.drop_first().last() == s.last());
        assert(s.drop_last()[0] == s[0]);
    } else {
        assert(s.drop_first().len() == 0);
        assert(s.drop_last().len() == 0);
        assert(utf8_width(s.drop_last()) == 0);
        assert(utf8_width(s.drop_first()) == 0);
    }
}

/// Cuts a definition that exceeds the byte limit.
fn truncate(clean: String) -> (r: String)
    ensures
        r@ == truncated(clean@),
{
    let chars = chars_of(clean.as_str());
    let mut width: u64 = 0;
    let mut i: usize = 0;
    let mut keep: usize = 0;
    let mut fits = true;
    assert(chars@.take(0) =~= Seq::<char>::empty());
    assert(chars@.skip(0) == chars@);
    while i < chars.len()
        invariant
            keep <= i <= chars.len(),
            fits ==> keep == i && width == utf8_width(chars@.take(i as int)) && width <= MAX_DEFINITION_BYTES
                && fitting_prefix(chars@, MAX_DEFINITION_BYTES as int) == i + fitting_prefix(chars@.skip(i as int), MAX_DEFINITION_BYTES - width),
            !fits ==> fitting_prefix(chars@, MAX_DEFINITION_BYTES as int) == keep
                && utf8_width(chars@.take(i as int)) > MAX_DEFINITION_BYTES,
        decreases chars.len() - i,
    {
        proof {
            if fits {
                lemma_fitting_prefix_step(chars@, MAX_DEFINITION_BYTES as int, i as int);
            }
            assert(chars@.take(i + 1).drop_last() == chars@.take(i as int));
        }
        if fits {
            let w = char_width_exec(chars[i]);
            if width + w > MAX_DEFINITION_BYTES {
                fits = false;
            } else {
                width = width + w;
                keep = i + 1;
            }
        }
        i += 1;
    }
    assert(chars@.take(chars.len() as int) == chars@);
    if fits {
        return clean;
    }
    let mut out = crate::text::string_from_range(chars.as_slice(), 0, keep);
    assert(chars@.subrange(0, keep as int) == chars@.take(keep as int));
    push_str(&mut out, "… [内容已截断]");
    out
}

proof fn lemma_fallback_lists_accepted()
    ensures
        ammonia_accepts(fallback_tags(), fallback_attributes()),
{
    reveal_strlit("script");
    reveal_strlit("style");
    reveal_strlit("a");
    reveal_strlit("p");
    reveal_strlit("div");
    reveal_strlit("span");
    reveal_strlit("br");
    reveal_strlit("ruby");
    reveal_strlit("rt");
    reveal_strlit("rp");
    reveal_strlit("b");
    reveal_strlit("strong");
    reveal_strlit("i");
    reveal_strlit("em");
    reveal_strlit("ul");
    reveal_strlit("ol");
    reveal_strlit("li");
    reveal_strlit("dl");
    reveal_strlit("dt");
    reveal_strlit("dd");
    reveal_strlit("table");
    reveal_strlit("thead");
    reveal_strlit("tbody");
    reveal_strlit("tr");
    reveal_strlit("th");
    reveal_strlit("td");
    reveal_strlit("sup");
    reveal_strlit("sub");
    reveal_strlit("small");
    reveal_strlit("blockquote");
    reveal_strlit("section");
    reveal_strlit("jae");
    reveal_strlit("ja_cn");
    let tags = fallback_tags();
    assert forall|i: int| 0 <= i < tags.len() implies tags[i] != "script"@ && tags[i] != "style"@ by {
        assert(tags[i].len() != 6 || tags[i][0] != 's' || tags[i][1] != 'c');
        assert(tags[i].len() != 5 || tags[i][0] != 's' || tags[i][1] != 't' || tags[i][2] != 'y');
    }
    assert(!tags.contains("script"@));
    assert(!tags.contains("style"@));
    let attributes = fallback_attributes();
    assert forall|i: int| 0 <= i < attributes.len() implies {
        &&& #[trigger] attributes[i].0 != "script"@
        &&& attributes[i].0 != "style"@
        &&& attributes[i].0 != "a"@
    } by {
        assert(attributes[i].0.len() != 6 || attributes[i].0[1] != 'c');
        assert(attributes[i].0.len() != 5 || attributes[i].0[0] != 's' || attributes[i].0[1] != 't');
        assert(attributes[i].0.len() != 1 || attributes[i].0[0] != 'a');
    }
}

/// Sanitises a definition with the fallback allow-list and applies the size limit.
pub fn sanitize_fallback(source: &str) -> (r: String)
    ensures
        r@ == sanitized_fallback(source@),
{
    let tags: Vec<&str> = vec![
        "p", "div", "span", "br", "ruby", "rt", "rp", "b", "strong", "i", "em", "ul", "ol", "li",
        "dl", "dt", "dd", "table", "thead", "tbody", "tr", "th", "td", "sup", "sub", "small",
        "blockquote", "section", "jae", "ja_cn",
    ];
    let span: Vec<&str> = vec!["class", "type"];
    let div: Vec<&str> = vec!["class", "id", "type", "delimiter", "data-orgtag"];
    let paragraph: Vec<&str> = vec!["class", "level", "no", "type", "delimiter", "data-orgtag"];
    let section: Vec<&str> = vec!["class"];
    let attributes: Vec<(&str, &[&str])> = vec![
        ("span", span.as_slice()),
        ("div", div.as_slice()),
        ("p", paragraph.as_slice()),
        ("section", section.as_slice()),
    ];
    assert(strs_view(tags@) =~= fallback_tags());
    assert(strs_view(span@) =~= seq!["class"@, "type"@]);
    assert(strs_view(div@) =~= seq!["class"@, "id"@, "type"@, "delimiter"@, "data-orgtag"@]);
    assert(strs_view(paragraph@) =~= seq!["class"@, "level"@, "no"@, "type"@, "delimiter"@, "data-orgtag"@]);
    assert(strs_view(section@) =~= seq!["class"@]);
    assert(tag_attrs_view(attributes@) =~= fallback_attributes());
    proof {
        lemma_fallback_lists_accepted();
    }
    let clean = ammonia_clean(source, tags.as_slice(), attributes.as_slice());
    truncate(clean)
}

/// Rich text in a language: sanitised, limited and trimmed.
pub fn html_text(lang: &str, value: &str) -> (r: DictionaryText)
    ensures
        r.lang@ == lang@,
        r.qualifier is None,
        r.html@ == spec_trim(sanitized_fallback(value@)),
{
    let clean = sanitize_fallback(value);
    let chars = chars_of(clean.as_str());
    let trimmed = trim_chars(chars.as_slice());
    DictionaryText { lang: lang.to_owned(), qualifier: None, html: string_from_chars(trimmed.as_slice()) }
}


/// The warning a fallback occurrence carries.
pub open spec fn fallback_warning() -> Seq<char> {
    "词典专用结构未完整解析，当前显示安全降级内容"@
}

pub open spec fn opt_str_view(r: Option<&str>) -> Option<Seq<char>> {
    match r {
        Some(v) => Some(v@),
        None => None,
    }
}

/// A header that names only the display form (also as canonical form) and the reading.
pub open spec fn plain_header(h: DictionaryOccurrenceHeader, display_form: Seq<char>, reading: Option<Seq<char>>) -> bool {
    &&& h.display_form@ == display_form
    &&& opt_view(h.canonical_form) == Some(display_form)
    &&& opt_view(h.reading) == reading
    &&& h.historical_reading is None
    &&& h.pronunciations@.len() == 0
    &&& h.scoped_forms@.len() == 0
    &&& h.pos_tags@.len() == 0
    &&& h.usage_tags@.len() == 0
    &&& h.origin is None
    &&& h.short_note is None
}

/// The definition shown as one rich-text block, unless it is blank.
pub open spec fn rich_text_blocks(blocks: Seq<DictionaryContentBlock>, html: Seq<char>) -> bool {
    if spec_trim(html).len() == 0 {
        blocks.len() == 0
    } else {
        &&& blocks.len() == 1
        &&& blocks[0].kind@ == "rich_text"@
        &&& blocks[0].label is None
        &&& blocks[0].html@ == html
    }
}

/// The occurrence shown when a dictionary's structure cannot be read: the
/// definition sanitised as rich text, flagged as a fallback.
pub fn fallback(
    profile: &str,
    display_form: &str,
    reading: Option<&str>,
    definition: &str,
    entry_kind: &str,
) -> (r: AdaptedOccurrence)
    ensures
        r.source_record_index == 0,
        r.occurrence_suffix@.len() == 0,
        r.entry_kind@ == entry_kind@,
        plain_header(r.header, display_form@, opt_str_view(reading)),
        r.senses@.len() == 0,
        r.sections@.len() == 0,
        r.links@.len() == 0,
        r.definition_html@ == sanitized_fallback(definition@),
        r.style_profile@ == profile@,
        rich_text_blocks(r.content_blocks@, r.definition_html@),
        r.diagnostics.coverage@ == "fallback"@,
        r.diagnostics.warnings@.len() == 1,
        r.diagnostics.warnings@[0]@ == fallback_warning(),
        r.diagnostics.omitted@.len() == 0,
{
    let definition_html = sanitize_fallback(definition);
    let chars = chars_of(definition_html.as_str());
    let trimmed = trim_chars(chars.as_slice());
    let mut content_blocks: Vec<DictionaryContentBlock> = Vec::new();
    if trimmed.len() > 0 {
        content_blocks.push(DictionaryContentBlock {
            kind: "rich_text".to_owned(),
            label: None,
            html: definition_html.clone(),
        });
    }
    let reading_value = match reading {
        Some(value) => Some(value.to_owned()),
        None => None,
    };
    let mut warnings: Vec<String> = Vec::new();
    warnings.push("词典专用结构未完整解析，当前显示安全降级内容".to_owned());
    AdaptedOccurrence {
        source_record_index: 0,
        occurrence_suffix: String::new(),
        entry_kind: entry_kind.to_owned(),
        header: DictionaryOccurrenceHeader {
            display_form: display_form.to_owned(),
            canonical_form: Some(display_form.to_owned()),
            reading: reading_value,
            historical_reading: None,
            pronunciations: Vec::new(),
            scoped_forms: Vec::new(),
            pos_tags: Vec::new(),
            usage_tags: Vec::new(),
            origin: None,
            short_note: None,
        },
        senses: Vec::new(),
        sections: Vec::new(),
        links: Vec::new(),
        definition_html,
        style_profile: profile.to_owned(),
        content_blocks,
        diagnostics: DictionaryAdapterDiagnostics {
            coverage: "fallback".to_owned(),
            warnings,
            omitted: Vec::new(),
        },
    }
}

/// The element children of nodes, in order.
pub open spec fn element_children(nodes: Seq<NodeView>) -> Seq<ElementView>
    decreases nodes.len(),
{
    if nodes.len() == 0 {
        seq![]
    } else {
        let rest = element_children(nodes.drop_last());
        match nodes.last() {
            NodeView::Element(e) => rest.push(e),
            NodeView::Text(_) => rest,
        }
    }
}

proof fn lemma_nodes_view_take(ns: Seq<HtmlNode>, i: int)
    requires
        0 <= i <= ns.len(),
    ensures
        nodes_view(ns.take(i)) == nodes_view(ns).take(i),
        nodes_view(ns).len() == ns.len(),
    decreases ns.len(),
{
    crate::html::lemma_nodes_view_len(ns);
    crate::html::lemma_nodes_view_len(ns.take(i));
    assert forall|k: int| 0 <= k < i implies #[trigger] nodes_view(ns.take(i))[k] == nodes_view(ns)[k] by {
        crate::html::lemma_nodes_view_index(ns.take(i), k);
        crate::html::lemma_nodes_view_index(ns, k);
    }
    assert(nodes_view(ns.take(i)) =~= nodes_view(ns).take(i));
}

/// The element children of an element, in order.
pub fn direct_child_elements(element: &HtmlElement) -> (r: Vec<&HtmlElement>)
    ensures
        refs_view(r@) == element_children(element_view(*element).children),
{
    let ghost nv = nodes_view(element.children@);
    let mut out: Vec<&HtmlElement> = Vec::new();
    let mut i: usize = 0;
    proof {
        lemma_nodes_view_take(element.children@, 0);
    }
    while i < element.children.len()
        invariant
            i <= element.children.len(),
            nv == nodes_view(element.children@),
            nv.len() == element.children@.len(),
            refs_view(out@) == element_children(nv.take(i as int)),
        decreases element.children.len() - i,
    {
        proof {
            crate::html::lemma_nodes_view_index(element.children@, i as int);
            assert(nv.take(i + 1).drop_last() == nv.take(i as int));
            assert(nv.take(i + 1).last() == nv[i as int]);
        }
        match &element.children[i] {
            HtmlNode::Element(child) => {
                out.push(child);
                assert(refs_view(out@) =~= refs_view(out@.drop_last()).push(element_view(*child)));
            },
            HtmlNode::Text(_) => {},
        }
        i += 1;
    }
    assert(nv.take(nv.len() as int) == nv);
    out
}


/// The entry an `entry://` link points to, trimmed.
pub open spec fn entry_target(href: Seq<char>) -> Option<Seq<char>> {
    if href.len() >= 8 && href.take(8) == "entry://"@ {
        Some(spec_trim(href.skip(8)))
    } else {
        None
    }
}

/// An anchor's visible text, normalised.
pub open spec fn anchor_label(a: ElementView) -> Seq<char> {
    normalized_visible(collect_text(a.children, seq![], seq![]))
}

pub open spec fn link_view(l: DictionaryLink) -> (Seq<char>, Seq<char>, Seq<char>) {
    (l.target@, l.label@, l.relation@)
}

pub open spec fn links_view(v: Seq<DictionaryLink>) -> Seq<(Seq<char>, Seq<char>, Seq<char>)> {
    v.map_values(|l: DictionaryLink| link_view(l))
}

pub open spec fn link_targets(links: Seq<(Seq<char>, Seq<char>, Seq<char>)>) -> Seq<Seq<char>> {
    links.map_values(|l: (Seq<char>, Seq<char>, Seq<char>)| l.0)
}

/// The links of anchors in order: each anchor whose `href` is an `entry://`
/// link to a non-empty target not linked before gives one link, labelled by
/// its text or, when that is empty, by its target.
pub open spec fn links_from(anchors: Seq<ElementView>, relation: Seq<char>) -> Seq<(Seq<char>, Seq<char>, Seq<char>)>
    decreases anchors.len(),
{
    if anchors.len() == 0 {
        seq![]
    } else {
        let prev = links_from(anchors.drop_last(), relation);
        let a = anchors.last();
        match attr_value(a.attrs, "href"@) {
            Some(href) => match entry_target(href) {
                Some(t) => if t.len() > 0 && !link_targets(prev).contains(t) {
                    let label = if anchor_label(a).len() == 0 { t } else { anchor_label(a) };
                    prev.push((t, label, relation))
                } else {
                    prev
                },
                None => prev,
            },
            None => prev,
        }
    }
}

/// The `entry://` links of an element's anchors (the element included), each target once.
pub fn extract_links(element: &HtmlElement, default_relation: &str) -> (r: Vec<DictionaryLink>)
    ensures
        links_view(r@) == links_from(by_name(element_view(*element), "a"@), default_relation@),
{
    let mut anchors: Vec<&HtmlElement> = Vec::new();
    element.all_by_name("a", &mut anchors);
    assert(refs_view(anchors@) =~= Seq::<ElementView>::empty() + by_name(element_view(*element), "a"@));
    links_of_anchors(&anchors, default_relation)
}

/// The `entry://` links of anchors, each target once.
pub fn links_of_anchors(anchors: &Vec<&HtmlElement>, default_relation: &str) -> (r: Vec<DictionaryLink>)
    ensures
        links_view(r@) == links_from(refs_view(anchors@), default_relation@),
{
    let ghost av = refs_view(anchors@);
    let prefix = chars_of("entry://");
    proof {
        reveal_strlit("entry://");
    }
    let mut out: Vec<DictionaryLink> = Vec::new();
    let mut i: usize = 0;
    while i < anchors.len()
        invariant
            i <= anchors.len(),
            av == refs_view(anchors@),
            prefix@ == "entry://"@,
            prefix@.len() == 8,
            links_view(out@) == links_from(av.take(i as int), default_relation@),
        decreases anchors.len() - i,
    {
        let anchor = anchors[i];
        let ghost a = element_view(*anchor);
        proof {
            assert(av.take(i + 1).drop_last() == av.take(i as int));
            assert(av.take(i + 1).last() == a);
        }
        let ghost prev = links_view(out@);
        if let Some(href) = anchor.attr("href") {
            let href_chars = chars_of(href);
            if matches_at_start(href_chars.as_slice(), prefix.as_slice()) {
                let rest = crate::text::string_from_range(href_chars.as_slice(), 8, href_chars.len());
                let rest_chars = chars_of(rest.as_str());
                let target = trim_chars(rest_chars.as_slice());
                proof {
                    assert(href_chars@.take(8) == prefix@);
                    assert(rest@ == href@.skip(8));
                }
                if target.len() > 0 {
                    let mut seen = false;
                    let mut k: usize = 0;
                    while k < out.len()
                        invariant
                            k <= out.len(),
                            prev == links_view(out@),
                            seen == link_targets(prev).take(k as int).contains(target@),
                        decreases out.len() - k,
                    {
                        let same = crate::dictionary::lookup_state::chars_equal_pub(&chars_of(out[k].target.as_str()), &target);
                        proof {
                            assert(link_targets(prev).take(k + 1) == link_targets(prev).take(k as int).push(out@[k as int].target@));
                            crate::html::lemma_push_contains_pub(link_targets(prev).take(k as int), out@[k as int].target@, target@);
                        }
                        seen = seen || same;
                        k += 1;
                    }
                    assert(link_targets(prev).take(out.len() as int) == link_targets(prev));
                    if !seen {
                        let text = anchor.text();
                        let label = normalize_visible_text(text.as_str());
                        let target_string = string_from_chars(target.as_slice());
                        let label = if label.as_str().is_empty() { target_string.clone() } else { label };
                        out.push(DictionaryLink { target: target_string, label, relation: default_relation.to_owned() });
                        assert(links_view(out@) =~= prev.push(link_view(out@.last())));
                    }
                }
            }
        }
        i += 1;
    }
    assert(av.take(anchors.len() as int) == av);
    out
}

/// Whether `s` starts with `prefix`.
fn matches_at_start(s: &[char], prefix: &[char]) -> (b: bool)
    ensures
        b == (prefix.len() <= s.len() && s@.take(prefix.len() as int) == prefix@),
{
    let b = crate::text::matches_at(s, 0, prefix);
    assert(s@.subrange(0, prefix.len() as int) == s@.take(prefix.len() as int));
    b
}


/// ` lang="…"` for a non-empty language, nothing otherwise.
pub open spec fn lang_attr(lang: Seq<char>) -> Seq<char> {
    if lang.len() == 0 {
        seq![]
    } else {
        " lang=\""@ + escaped(lang) + "\""@
    }
}

fn push_lang_attr(output: &mut String, lang: &String)
    ensures
        final(output)@ == old(output)@ + lang_attr(lang@),
{
    if !lang.as_str().is_empty() {
        push_str(output, " lang=\"");
        push_str(output, escape_html(lang.as_str()).as_str());
        push_str(output, "\"");
        assert(final(output)@ =~= old(output)@ + lang_attr(lang@));
    } else {
        assert(old(output)@ + lang_attr(lang@) =~= old(output)@);
    }
}

/// Tags as labelled spans.
pub open spec fn tags_html(tags: Seq<DictionaryTag>) -> Seq<char>
    decreases tags.len(),
{
    if tags.len() == 0 {
        seq![]
    } else {
        tags_html(tags.drop_last()) + "<span class=\"dictionary-tag\" data-kind=\""@ + escaped(tags.last().kind@)
            + "\">"@ + escaped(tags.last().label@) + "</span>"@
    }
}

fn render_tags(tags: &Vec<DictionaryTag>, output: &mut String)
    ensures
        final(output)@ == old(output)@ + tags_html(tags@),
{
    let ghost start = output@;
    let mut i: usize = 0;
    while i < tags.len()
        invariant
            i <= tags.len(),
            output@ == start + tags_html(tags@.take(i as int)),
        decreases tags.len() - i,
    {
        assert(tags@.take(i + 1).drop_last() == tags@.take(i as int));
        let tag = &tags[i];
        push_str(output, "<span class=\"dictionary-tag\" data-kind=\"");
        push_str(output, escape_html(tag.kind.as_str()).as_str());
        push_str(output, "\">");
        push_str(output, escape_html(tag.label.as_str()).as_str());
        push_str(output, "</span>");
        assert(output@ =~= start + tags_html(tags@.take(i + 1)));
        i += 1;
    }
    assert(tags@.take(tags.len() as int) == tags@);
}

/// A text block of class `class` in its language.
pub open spec fn text_block(class: Seq<char>, t: DictionaryText) -> Seq<char> {
    "<div class=\""@ + class + "\""@ + lang_attr(t.lang@) + ">"@ + t.html@ + "</div>"@
}

fn render_text_block(class: &str, t: &DictionaryText, output: &mut String)
    ensures
        final(output)@ == old(output)@ + text_block(class@, *t),
{
    push_str(output, "<div class=\"");
    push_str(output, class);
    push_str(output, "\"");
    push_lang_attr(output, &t.lang);
    push_str(output, ">");
    push_str(output, t.html.as_str());
    push_str(output, "</div>");
    assert(final(output)@ =~= old(output)@ + text_block(class@, *t));
}

/// Text blocks of class `class`, in order.
pub open spec fn text_blocks(class: Seq<char>, ts: Seq<DictionaryText>) -> Seq<char>
    decreases ts.len(),
{
    if ts.len() == 0 {
        seq![]
    } else {
        text_blocks(class, ts.drop_last()) + text_block(class, ts.last())
    }
}

fn render_text_blocks(class: &str, ts: &Vec<DictionaryText>, output: &mut String)
    ensures
        final(output)@ == old(output)@ + text_blocks(class@, ts@),
{
    let ghost start = output@;
    let mut i: usize = 0;
    while i < ts.len()
        invariant
            i <= ts.len(),
            output@ == start + text_blocks(class@, ts@.take(i as int)),
        decreases ts.len() - i,
    {
        assert(ts@.take(i + 1).drop_last() == ts@.take(i as int));
        render_text_block(class, &ts[i], output);
        assert(output@ =~= start + text_blocks(class@, ts@.take(i + 1)));
        i += 1;
    }
    assert(ts@.take(ts.len() as int) == ts@);
}

/// An example: its source, then its translation and note when present.
pub open spec fn example_html(e: DictionaryExample) -> Seq<char> {
    "<blockquote class=\"example-pair\">"@ + text_block("example-source"@, e.source) + match e.translation {
        Some(t) => text_block("example-translation"@, t),
        None => seq![],
    } + match e.note {
        Some(n) => text_block("example-note"@, n),
        None => seq![],
    } + "</blockquote>"@
}

fn render_example(example: &DictionaryExample, output: &mut String)
    ensures
        final(output)@ == old(output)@ + example_html(*example),
{
    push_str(output, "<blockquote class=\"example-pair\">");
    render_text_block("example-source", &example.source, output);
    if let Some(translation) = &example.translation {
        render_text_block("example-translation", translation, output);
    }
    if let Some(note) = &example.note {
        render_text_block("example-note", note, output);
    }
    push_str(output, "</blockquote>");
    assert(final(output)@ =~= old(output)@ + example_html(*example));
}

/// The examples, each in a block carrying its index.
pub open spec fn indexed_examples(examples: Seq<DictionaryExample>) -> Seq<char>
    decreases examples.len(),
{
    if examples.len() == 0 {
        seq![]
    } else {
        indexed_examples(examples.drop_last()) + "<div data-example-index=\""@ + crate::text::decimal(
            (examples.len() - 1) as nat,
        ) + "\">"@ + example_html(examples.last()) + "</div>"@
    }
}

pub open spec fn browser_status() -> Seq<char> {
    "<div class=\"example-browser__status\" aria-live=\"polite\"><span data-example-counter></span><span data-example-total hidden></span></div>"@
}

pub open spec fn browser_navigation() -> Seq<char> {
    "<button type=\"button\" class=\"example-browser__nav example-browser__nav--previous\" data-example-previous aria-label=\"上一页例句\">‹</button><button type=\"button\" class=\"example-browser__nav example-browser__nav--next\" data-example-next aria-label=\"下一页例句\">›</button>"@
}

pub open spec fn browser_controls() -> Seq<char> {
    "<footer class=\"example-browser__controls\"><button type=\"button\" class=\"example-browser__toggle\" data-example-toggle aria-expanded=\"false\">展开</button></footer>"@
}

/// The example browser: nothing without examples; paging controls from three examples on.
pub open spec fn examples_html(examples: Seq<DictionaryExample>) -> Seq<char> {
    if examples.len() == 0 {
        seq![]
    } else {
        let many = examples.len() > 2;
        "<section class=\"example-browser preview-example-browser"@ + "\" data-example-browser>"@ + (if many {
            browser_status()
        } else {
            seq![]
        }) + "<div class=\"example-browser__viewport\"><div class=\"example-browser__page\">"@
            + indexed_examples(examples) + "</div>"@ + (if many { browser_navigation() } else { seq![] })
            + "</div>"@ + (if many { browser_controls() } else { seq![] }) + "</section>"@
    }
}

fn render_examples(examples: &Vec<DictionaryExample>, output: &mut String)
    ensures
        final(output)@ == old(output)@ + examples_html(examples@),
{
    if examples.len() == 0 {
        assert(old(output)@ + examples_html(examples@) =~= old(output)@);
        return;
    }
    let ghost start = output@;
    let many = examples.len() > 2;
    push_str(output, "<section class=\"example-browser preview-example-browser");
    push_str(output, "\" data-example-browser>");
    if many {
        push_str(
            output,
            "<div class=\"example-browser__status\" aria-live=\"polite\"><span data-example-counter></span><span data-example-total hidden></span></div>",
        );
    }
    push_str(output, "<div class=\"example-browser__viewport\"><div class=\"example-browser__page\">");
    let ghost base = output@;
    let mut i: usize = 0;
    while i < examples.len()
        invariant
            i <= examples.len(),
            output@ == base + indexed_examples(examples@.take(i as int)),
        decreases examples.len() - i,
    {
        assert(examples@.take(i + 1).drop_last() == examples@.take(i as int));
        push_str(output, "<div data-example-index=\"");
        crate::text::push_decimal(output, i as u64);
        push_str(output, "\">");
        render_example(&examples[i], output);
        push_str(output, "</div>");
        assert(output@ =~= base + indexed_examples(examples@.take(i + 1)));
        i += 1;
    }
    assert(examples@.take(examples.len() as int) == examples@);
    push_str(output, "</div>");
    if many {
        push_str(
            output,
            "<button type=\"button\" class=\"example-browser__nav example-browser__nav--previous\" data-example-previous aria-label=\"上一页例句\">‹</button><button type=\"button\" class=\"example-browser__nav example-browser__nav--next\" data-example-next aria-label=\"下一页例句\">›</button>",
        );
    }
    push_str(output, "</div>");
    if many {
        push_str(
            output,
            "<footer class=\"example-browser__controls\"><button type=\"button\" class=\"example-browser__toggle\" data-example-toggle aria-expanded=\"false\">展开</button></footer>",
        );
    }
    push_str(output, "</section>");
    assert(final(output)@ =~= start + examples_html(examples@));
}

/// A relation: its label, or its target when unlabelled.
pub open spec fn relation_html(r: DictionaryLink) -> Seq<char> {
    "<span class=\"sense-relation-static\" data-relation=\""@ + escaped(r.relation@) + "\">"@ + escaped(
        if r.label@.len() == 0 { r.target@ } else { r.label@ },
    ) + "</span>"@
}

pub open spec fn relation_items(rs: Seq<DictionaryLink>) -> Seq<char>
    decreases rs.len(),
{
    if rs.len() == 0 {
        seq![]
    } else {
        relation_items(rs.drop_last()) + relation_html(rs.last())
    }
}

/// The relations of a sense or item, when it has any.
pub open spec fn relations_html(rs: Seq<DictionaryLink>) -> Seq<char> {
    if rs.len() == 0 {
        seq![]
    } else {
        "<div class=\"sense-relations\">"@ + relation_items(rs) + "</div>"@
    }
}

fn render_relations(relations: &Vec<DictionaryLink>, output: &mut String)
    ensures
        final(output)@ == old(output)@ + relations_html(relations@),
{
    if relations.len() == 0 {
        assert(old(output)@ + relations_html(relations@) =~= old(output)@);
        return;
    }
    let ghost start = output@;
    push_str(output, "<div class=\"sense-relations\">");
    let ghost base = output@;
    let mut i: usize = 0;
    while i < relations.len()
        invariant
            i <= relations.len(),
            output@ == base + relation_items(relations@.take(i as int)),
        decreases relations.len() - i,
    {
        assert(relations@.take(i + 1).drop_last() == relations@.take(i as int));
        let relation = &relations[i];
        push_str(output, "<span class=\"sense-relation-static\" data-relation=\"");
        push_str(output, escape_html(relation.relation.as_str()).as_str());
        push_str(output, "\">");
        let shown = if relation.label.as_str().is_empty() { &relation.target } else { &relation.label };
        push_str(output, escape_html(shown.as_str()).as_str());
        push_str(output, "</span>");
        assert(output@ =~= base + relation_items(relations@.take(i + 1)));
        i += 1;
    }
    assert(relations@.take(relations.len() as int) == relations@);
    push_str(output, "</div>");
    assert(final(output)@ =~= start + relations_html(relations@));
}

/// A Japanese heading span, when there is a heading.
pub open spec fn heading_span(h: Option<String>) -> Seq<char> {
    match h {
        Some(x) => "<span class=\"sense-heading\" lang=\"ja\">"@ + escaped(x@) + "</span>"@,
        None => seq![],
    }
}

fn render_heading(heading: &Option<String>, output: &mut String)
    ensures
        final(output)@ == old(output)@ + heading_span(*heading),
{
    if let Some(h) = heading {
        push_str(output, "<span class=\"sense-heading\" lang=\"ja\">");
        push_str(output, escape_html(h.as_str()).as_str());
        push_str(output, "</span>");
        assert(final(output)@ =~= old(output)@ + heading_span(*heading));
    } else {
        assert(old(output)@ + heading_span(*heading) =~= old(output)@);
    }
}

/// A qualifier span.
pub open spec fn qualifier_span(q: Seq<char>) -> Seq<char> {
    "<span class=\"sense-gloss__qualifier\" lang=\"ja\">"@ + escaped(q) + "</span>"@
}

/// A clause of a gloss group.
pub open spec fn clause_html(c: DictionaryGlossClause) -> Seq<char> {
    separator_part(c.separator) + "<span class=\"sense-gloss-clause\""@ + lang_attr(c.text.lang@) + ">"@
        + qualifier_part(c.qualifier) + tags_html(c.leading_tags@) + c.text.html@ + tags_html(c.trailing_tags@)
        + "</span>"@
}

pub open spec fn clauses_html(cs: Seq<DictionaryGlossClause>) -> Seq<char>
    decreases cs.len(),
{
    if cs.len() == 0 {
        seq![]
    } else {
        clauses_html(cs.drop_last()) + clause_html(cs.last())
    }
}

/// A gloss group: its heading and its clauses.
pub open spec fn gloss_group_html(g: DictionaryGlossGroup) -> Seq<char> {
    "<div class=\"sense-gloss-group\">"@ + heading_span(g.heading) + "<span class=\"sense-gloss-clauses\">"@
        + clauses_html(g.clauses@) + "</span></div>"@
}

fn lang_attr_string(lang: &String) -> (r: String)
    ensures
        r@ == lang_attr(lang@),
{
    let mut out = String::new();
    push_lang_attr(&mut out, lang);
    assert(out@ =~= lang_attr(lang@));
    out
}

/// The separator part of a clause.
pub open spec fn separator_part(sep: Option<String>) -> Seq<char> {
    match sep {
        Some(s) => "<span class=\"sense-gloss-separator\">"@ + escaped(s@) + "</span>"@,
        None => seq![],
    }
}

fn separator_string(sep: &Option<String>) -> (r: String)
    ensures
        r@ == separator_part(*sep),
{
    let mut out = String::new();
    if let Some(separator) = sep {
        push_str(&mut out, "<span class=\"sense-gloss-separator\">");
        push_str(&mut out, escape_html(separator.as_str()).as_str());
        push_str(&mut out, "</span>");
    }
    assert(out@ =~= separator_part(*sep));
    out
}

/// The qualifier part of a clause.
pub open spec fn qualifier_part(q: Option<String>) -> Seq<char> {
    match q {
        Some(x) => qualifier_span(x@),
        None => seq![],
    }
}

fn qualifier_string(q: &Option<String>) -> (r: String)
    ensures
        r@ == qualifier_part(*q),
{
    let mut out = String::new();
    if let Some(qualifier) = q {
        push_str(&mut out, "<span class=\"sense-gloss__qualifier\" lang=\"ja\">");
        push_str(&mut out, escape_html(qualifier.as_str()).as_str());
        push_str(&mut out, "</span>");
    }
    assert(out@ =~= qualifier_part(*q));
    out
}

fn render_clause(clause: &DictionaryGlossClause, output: &mut String)
    ensures
        final(output)@ == old(output)@ + clause_html(*clause),
{
    let mut piece = separator_string(&clause.separator);
    push_str(&mut piece, "<span class=\"sense-gloss-clause\"");
    push_str(&mut piece, lang_attr_string(&clause.text.lang).as_str());
    push_str(&mut piece, ">");
    push_str(&mut piece, qualifier_string(&clause.qualifier).as_str());
    render_tags(&clause.leading_tags, &mut piece);
    push_str(&mut piece, clause.text.html.as_str());
    render_tags(&clause.trailing_tags, &mut piece);
    push_str(&mut piece, "</span>");
    push_str(output, piece.as_str());
}

fn render_gloss_group(group: &DictionaryGlossGroup, output: &mut String)
    ensures
        final(output)@ == old(output)@ + gloss_group_html(*group),
{
    let ghost start = output@;
    push_str(output, "<div class=\"sense-gloss-group\">");
    render_heading(&group.heading, output);
    push_str(output, "<span class=\"sense-gloss-clauses\">");
    let ghost base = output@;
    let mut i: usize = 0;
    while i < group.clauses.len()
        invariant
            i <= group.clauses.len(),
            output@ == base + clauses_html(group.clauses@.take(i as int)),
        decreases group.clauses.len() - i,
    {
        assert(group.clauses@.take(i + 1).drop_last() == group.clauses@.take(i as int));
        render_clause(&group.clauses[i], output);
        assert(output@ =~= base + clauses_html(group.clauses@.take(i + 1)));
        i += 1;
    }
    assert(group.clauses@.take(group.clauses.len() as int) == group.clauses@);
    push_str(output, "</span></div>");
    assert(final(output)@ =~= start + gloss_group_html(*group));
}

pub open spec fn gloss_groups_html(gs: Seq<DictionaryGlossGroup>) -> Seq<char>
    decreases gs.len(),
{
    if gs.len() == 0 {
        seq![]
    } else {
        gloss_groups_html(gs.drop_last()) + gloss_group_html(gs.last())
    }
}

/// The gloss at `i`, with a separator after the first and its qualifier
/// unless the previous gloss had the same one.
pub open spec fn gloss_html(g: Seq<DictionaryText>, i: int) -> Seq<char> {
    gloss_separator(i) + "<span class=\"sense-gloss-clause\""@ + lang_attr(g[i].lang@) + ">"@
        + gloss_qualifier(g, i) + g[i].html@ + "</span>"@
}

pub open spec fn gloss_separator(i: int) -> Seq<char> {
    if i > 0 { "<span class=\"sense-gloss-separator\">，</span>"@ } else { seq![] }
}

/// The qualifier of the gloss at `i`, unless the previous gloss had the same one.
pub open spec fn gloss_qualifier(g: Seq<DictionaryText>, i: int) -> Seq<char> {
    match g[i].qualifier {
        Some(q) => if i > 0 && opt_view(g[i - 1].qualifier) == Some(q@) { seq![] } else { qualifier_span(q@) },
        None => seq![],
    }
}

fn gloss_string(glosses: &Vec<DictionaryText>, i: usize) -> (r: String)
    requires
        i < glosses.len(),
    ensures
        r@ == gloss_html(glosses@, i as int),
{
    let gloss = &glosses[i];
    let mut sep = String::new();
    if i > 0 {
        push_str(&mut sep, "<span class=\"sense-gloss-separator\">，</span>");
    }
    assert(sep@ =~= gloss_separator(i as int));
    let mut qual = String::new();
    if let Some(qualifier) = &gloss.qualifier {
        let repeated = if i > 0 {
            match &glosses[i - 1].qualifier {
                Some(previous) => crate::text::str_eq(previous.as_str(), qualifier.as_str()),
                None => false,
            }
        } else {
            false
        };
        if !repeated {
            push_str(&mut qual, "<span class=\"sense-gloss__qualifier\" lang=\"ja\">");
            push_str(&mut qual, escape_html(qualifier.as_str()).as_str());
            push_str(&mut qual, "</span>");
        }
    }
    assert(qual@ =~= gloss_qualifier(glosses@, i as int));
    let mut piece = sep;
    push_str(&mut piece, "<span class=\"sense-gloss-clause\"");
    push_str(&mut piece, lang_attr_string(&gloss.lang).as_str());
    push_str(&mut piece, ">");
    push_str(&mut piece, qual.as_str());
    push_str(&mut piece, gloss.html.as_str());
    push_str(&mut piece, "</span>");
    piece
}

pub open spec fn glosses_html(g: Seq<DictionaryText>, n: int) -> Seq<char>
    decreases n,
{
    if n <= 0 {
        seq![]
    } else {
        glosses_html(g, n - 1) + gloss_html(g, n - 1)
    }
}

/// The gloss part of a sense: its groups, or its heading, tags and glosses.
pub open spec fn sense_gloss_part(s: DictionarySense) -> Seq<char> {
    if s.gloss_groups@.len() > 0 {
        "<div class=\"sense-gloss-groups\">"@ + gloss_groups_html(s.gloss_groups@) + "</div>"@
    } else if s.heading is Some || s.tags@.len() > 0 || s.glosses@.len() > 0 {
        "<div class=\"sense-gloss-group\">"@ + heading_span(s.heading) + tags_html(s.tags@)
            + "<span class=\"sense-gloss-clauses\">"@ + glosses_html(s.glosses@, s.glosses@.len() as int)
            + "</span></div>"@
    } else {
        seq![]
    }
}

fn render_gloss_part(sense: &DictionarySense, output: &mut String)
    ensures
        final(output)@ == old(output)@ + sense_gloss_part(*sense),
{
    let ghost start = output@;
    if sense.gloss_groups.len() > 0 {
        push_str(output, "<div class=\"sense-gloss-groups\">");
        let ghost base = output@;
        let mut i: usize = 0;
        while i < sense.gloss_groups.len()
            invariant
                i <= sense.gloss_groups.len(),
                output@ == base + gloss_groups_html(sense.gloss_groups@.take(i as int)),
            decreases sense.gloss_groups.len() - i,
        {
            assert(sense.gloss_groups@.take(i + 1).drop_last() == sense.gloss_groups@.take(i as int));
            render_gloss_group(&sense.gloss_groups[i], output);
            assert(output@ =~= base + gloss_groups_html(sense.gloss_groups@.take(i + 1)));
            i += 1;
        }
        assert(sense.gloss_groups@.take(sense.gloss_groups.len() as int) == sense.gloss_groups@);
        push_str(output, "</div>");
        assert(final(output)@ =~= start + sense_gloss_part(*sense));
    } else if sense.heading.is_some() || sense.tags.len() > 0 || sense.glosses.len() > 0 {
        push_str(output, "<div class=\"sense-gloss-group\">");
        render_heading(&sense.heading, output);
        render_tags(&sense.tags, output);
        push_str(output, "<span class=\"sense-gloss-clauses\">");
        let ghost base = output@;
        let ghost g = sense.glosses@;
        let mut i: usize = 0;
        while i < sense.glosses.len()
            invariant
                i <= sense.glosses.len(),
                g == sense.glosses@,
                output@ == base + glosses_html(g, i as int),
            decreases sense.glosses.len() - i,
        {
            let piece = gloss_string(&sense.glosses, i);
            push_str(output, piece.as_str());

            i += 1;
        }
        push_str(output, "</span></div>");
        assert(final(output)@ =~= start + sense_gloss_part(*sense));
    } else {
        assert(start + sense_gloss_part(*sense) =~= start);
    }
}

/// The opening of a sense list at a nesting depth (capped at 2).
pub open spec fn sense_list_open(depth: nat) -> Seq<char> {
    "<ol class=\"sense-tree sense-tree--depth-"@ + crate::text::decimal(if depth < 2 { depth } else { 2 })
        + "\">"@
}

/// The opening of a sense node with its marker, or marked as unmarked.
pub open spec fn sense_head(marker: Option<String>) -> Seq<char> {
    match marker {
        Some(m) => "<li class=\"sense-node\"><div class=\"sense-main"@ + "\">"@ + "<span class=\"sense-marker\">"@
            + escaped(m@) + "</span>"@,
        None => "<li class=\"sense-node\"><div class=\"sense-main"@ + " sense-main--unmarked"@ + "\">"@,
    }
}

fn sense_head_string(marker: &Option<String>) -> (r: String)
    ensures
        r@ == sense_head(*marker),
{
    let mut out = String::new();
    push_str(&mut out, "<li class=\"sense-node\"><div class=\"sense-main");
    match marker {
        Some(m) => {
            push_str(&mut out, "\">");
            push_str(&mut out, "<span class=\"sense-marker\">");
            push_str(&mut out, escape_html(m.as_str()).as_str());
            push_str(&mut out, "</span>");
        },
        None => {
            push_str(&mut out, " sense-main--unmarked");
            push_str(&mut out, "\">");
        },
    }
    assert(out@ =~= sense_head(*marker));
    out
}

/// The content of a sense: glosses, definitions, examples, notes, relations.
pub open spec fn sense_body(s: DictionarySense) -> Seq<char> {
    sense_gloss_part(s) + text_blocks("sense-definition"@, s.definitions@) + examples_html(s.examples@)
        + text_blocks("sense-note"@, s.notes@) + relations_html(s.relations@)
}

fn render_sense_body(sense: &DictionarySense, output: &mut String)
    ensures
        final(output)@ == old(output)@ + sense_body(*sense),
{
    let ghost start = output@;
    render_gloss_part(sense, output);
    let ghost a = output@;
    render_text_blocks("sense-definition", &sense.definitions, output);
    let ghost b = output@;
    render_examples(&sense.examples, output);
    let ghost c = output@;
    render_text_blocks("sense-note", &sense.notes, output);
    let ghost d = output@;
    render_relations(&sense.relations, output);
    assert(final(output)@ =~= start + sense_body(*sense));
}

/// The depth of sub-senses: one level deeper, where depths from 2 on all render as 2.
pub open spec fn deeper(depth: nat) -> nat {
    if depth < 2 { depth + 1 } else { 2 }
}

/// A sense with its marker, glosses, definitions, examples, notes and
/// relations, and its sub-senses one level deeper.
pub open spec fn sense_html(s: DictionarySense, depth: nat) -> Seq<char>
    decreases s,
{
    sense_head(s.marker) + "<div class=\"sense-content\">"@ + sense_body(s) + "</div></div>"@ + (if s.children@.len()
        > 0 {
        sense_list_open(deeper(depth)) + senses_html(s.children@, deeper(depth)) + "</ol>"@
    } else {
        seq![]
    }) + "</li>"@
}

/// Senses in order at a depth.
pub open spec fn senses_html(senses: Seq<DictionarySense>, depth: nat) -> Seq<char>
    decreases senses,
{
    if senses.len() == 0 {
        seq![]
    } else {
        sense_html(senses[0], depth) + senses_html(senses.drop_first(), depth)
    }
}

/// A list of senses at a depth.
pub open spec fn sense_list_html(senses: Seq<DictionarySense>, depth: nat) -> Seq<char> {
    sense_list_open(depth) + senses_html(senses, depth) + "</ol>"@
}

fn render_sense_list(senses: &Vec<DictionarySense>, depth: usize, output: &mut String)
    requires
        depth <= 2,
    ensures
        final(output)@ == old(output)@ + sense_list_html(senses@, depth as nat),
    decreases senses@, 1nat,
{
    let ghost start = output@;
    push_str(output, "<ol class=\"sense-tree sense-tree--depth-");
    crate::text::push_decimal(output, if depth < 2 { depth as u64 } else { 2 });
    push_str(output, "\">");
    let ghost base = output@;
    let mut i: usize = 0;
    assert(senses@.skip(0) == senses@);
    while i < senses.len()
        invariant
            i <= senses.len(),
            depth <= 2,
            base + senses_html(senses@, depth as nat) == output@ + senses_html(senses@.skip(i as int), depth as nat),
        decreases senses.len() - i,
    {
        let ghost before = output@;
        assert(senses@.skip(i as int)[0] == senses@[i as int]);
        assert(senses@.skip(i as int).drop_first() == senses@.skip(i + 1));
        assert(decreases_to!(senses@ => senses@[i as int]));
        render_sense(&senses[i], depth, output);
        assert(output@ + senses_html(senses@.skip(i + 1), depth as nat) =~= before + senses_html(senses@.skip(i as int), depth as nat));
        i += 1;
    }
    assert(senses@.skip(senses.len() as int) =~= Seq::<DictionarySense>::empty());
    push_str(output, "</ol>");
    assert(final(output)@ =~= start + sense_list_html(senses@, depth as nat));
}

fn render_sense(sense: &DictionarySense, depth: usize, output: &mut String)
    requires
        depth <= 2,
    ensures
        final(output)@ == old(output)@ + sense_html(*sense, depth as nat),
    decreases sense, 0nat,
{
    let mut piece = sense_head_string(&sense.marker);
    push_str(&mut piece, "<div class=\"sense-content\">");
    render_sense_body(sense, &mut piece);
    push_str(&mut piece, "</div></div>");
    let ghost head = piece@;
    if sense.children.len() > 0 {
        assert(decreases_to!(sense => sense.children));
        assert(decreases_to!(sense.children => sense.children@));
        let next = if depth < 2 { depth + 1 } else { 2 };
        render_sense_list(&sense.children, next, &mut piece);
    } else {
        assert(head + Seq::<char>::empty() =~= head);
    }
    push_str(&mut piece, "</li>");
    push_str(output, piece.as_str());
}



/// The header of a section item: its label (as given HTML, else escaped),
/// its reading and its tags, when it has any of them.
pub open spec fn item_header(item: DictionarySectionItem) -> Seq<char> {
    if item.label is Some || item.reading is Some || item.tags@.len() > 0 {
        "<header class=\"dictionary-section__header\">"@ + item_label(item) + match item.reading {
            Some(r) => "<span class=\"dictionary-section__reading\" lang=\"ja\">【"@ + escaped(r@) + "】</span>"@,
            None => seq![],
        } + tags_html(item.tags@) + "</header>"@
    } else {
        seq![]
    }
}

pub open spec fn item_label(item: DictionarySectionItem) -> Seq<char> {
    match item.label_html {
        Some(h) => "<strong lang=\"ja\">"@ + h@ + "</strong>"@,
        None => match item.label {
            Some(l) => "<strong lang=\"ja\">"@ + escaped(l@) + "</strong>"@,
            None => seq![],
        },
    }
}

fn item_header_string(item: &DictionarySectionItem) -> (r: String)
    ensures
        r@ == item_header(*item),
{
    let mut out = String::new();
    if item.label.is_some() || item.reading.is_some() || item.tags.len() > 0 {
        push_str(&mut out, "<header class=\"dictionary-section__header\">");
        let ghost a = out@;
        if let Some(label_html) = &item.label_html {
            push_str(&mut out, "<strong lang=\"ja\">");
            push_str(&mut out, label_html.as_str());
            push_str(&mut out, "</strong>");
        } else if let Some(label) = &item.label {
            push_str(&mut out, "<strong lang=\"ja\">");
            push_str(&mut out, escape_html(label.as_str()).as_str());
            push_str(&mut out, "</strong>");
        }
        assert(out@ =~= a + item_label(*item));
        let ghost b = out@;
        if let Some(reading) = &item.reading {
            push_str(&mut out, "<span class=\"dictionary-section__reading\" lang=\"ja\">【");
            push_str(&mut out, escape_html(reading.as_str()).as_str());
            push_str(&mut out, "】</span>");
        }
        let ghost c = out@;
        render_tags(&item.tags, &mut out);
        push_str(&mut out, "</header>");
        assert(out@ =~= item_header(*item));
    } else {
        assert(out@ =~= item_header(*item));
    }
    out
}

/// A section item: header, contents, senses, examples and relations.
pub open spec fn item_html(item: DictionarySectionItem) -> Seq<char> {
    "<article class=\"dictionary-section__item\">"@ + item_header(item) + text_blocks(
        "dictionary-section__content"@,
        item.content@,
    ) + (if item.senses@.len() > 0 { sense_list_html(item.senses@, 0) } else { seq![] }) + examples_html(
        item.examples@,
    ) + relations_html(item.relations@) + "</article>"@
}

fn render_item(item: &DictionarySectionItem, output: &mut String)
    ensures
        final(output)@ == old(output)@ + item_html(*item),
{
    let mut piece = String::new();
    push_str(&mut piece, "<article class=\"dictionary-section__item\">");
    assert(piece@ =~= "<article class=\"dictionary-section__item\">"@);
    push_str(&mut piece, item_header_string(item).as_str());
    render_text_blocks("dictionary-section__content", &item.content, &mut piece);
    let ghost before = piece@;
    if item.senses.len() > 0 {
        render_sense_list(&item.senses, 0, &mut piece);
    } else {
        assert(before + Seq::<char>::empty() =~= before);
    }
    render_examples(&item.examples, &mut piece);
    render_relations(&item.relations, &mut piece);
    push_str(&mut piece, "</article>");
    push_str(output, piece.as_str());
}

pub open spec fn items_html(items: Seq<DictionarySectionItem>) -> Seq<char>
    decreases items.len(),
{
    if items.len() == 0 {
        seq![]
    } else {
        items_html(items.drop_last()) + item_html(items.last())
    }
}

/// A section with its kind, its title when it has one, and its items.
pub open spec fn section_html(section: DictionarySection) -> Seq<char> {
    "<section class=\"dictionary-section\" data-kind=\""@ + escaped(section.kind@) + "\">"@ + match section.label {
        Some(l) => "<h4 class=\"dictionary-section__title\">"@ + escaped(l@) + "</h4>"@,
        None => seq![],
    } + items_html(section.items@) + "</section>"@
}

fn render_section(section: &DictionarySection, output: &mut String)
    ensures
        final(output)@ == old(output)@ + section_html(*section),
{
    let mut piece = String::new();
    push_str(&mut piece, "<section class=\"dictionary-section\" data-kind=\"");
    push_str(&mut piece, escape_html(section.kind.as_str()).as_str());
    push_str(&mut piece, "\">");
    let ghost a = piece@;
    if let Some(label) = &section.label {
        push_str(&mut piece, "<h4 class=\"dictionary-section__title\">");
        push_str(&mut piece, escape_html(label.as_str()).as_str());
        push_str(&mut piece, "</h4>");
    }
    let ghost b = piece@;
    let mut i: usize = 0;
    while i < section.items.len()
        invariant
            i <= section.items.len(),
            piece@ == b + items_html(section.items@.take(i as int)),
        decreases section.items.len() - i,
    {
        assert(section.items@.take(i + 1).drop_last() == section.items@.take(i as int));
        render_item(&section.items[i], &mut piece);
        assert(piece@ =~= b + items_html(section.items@.take(i + 1)));
        i += 1;
    }
    assert(section.items@.take(section.items.len() as int) == section.items@);
    push_str(&mut piece, "</section>");
    assert(piece@ =~= section_html(*section));
    push_str(output, piece.as_str());
}

pub open spec fn sections_html(sections: Seq<DictionarySection>) -> Seq<char>
    decreases sections.len(),
{
    if sections.len() == 0 {
        seq![]
    } else {
        sections_html(sections.drop_last()) + section_html(sections.last())
    }
}

/// The structured preview of senses and sections, within the size limit.
pub open spec fn structured_html(senses: Seq<DictionarySense>, sections: Seq<DictionarySection>) -> Seq<char> {
    truncated((if senses.len() > 0 { sense_list_html(senses, 0) } else { seq![] }) + sections_html(sections))
}

#[verifier::spinoff_prover]
#[verifier::rlimit(40)]
fn render_structured_html(senses: &Vec<DictionarySense>, sections: &Vec<DictionarySection>) -> (r: String)
    ensures
        r@ == structured_html(senses@, sections@),
{
    let mut output = String::new();
    if senses.len() > 0 {
        render_sense_list(senses, 0, &mut output);
        assert(output@ =~= sense_list_html(senses@, 0));
    }
    let ghost a = output@;
    let mut i: usize = 0;
    while i < sections.len()
        invariant
            i <= sections.len(),
            output@ == a + sections_html(sections@.take(i as int)),
        decreases sections.len() - i,
    {
        assert(sections@.take(i + 1).drop_last() == sections@.take(i as int));
        render_section(&sections[i], &mut output);
        assert(output@ =~= a + sections_html(sections@.take(i + 1)));
        i += 1;
    }
    assert(sections@.take(sections.len() as int) == sections@);
    truncate(output)
}

/// A finished occurrence: its profile set, an unknown kind and an
/// unrecognised headword named, its structured preview (or the sanitised
/// source when the preview is blank) as definition and content block, and
/// its coverage filled in when the adapter left it empty.
pub open spec fn finished(o: AdaptedOccurrence, profile: Seq<char>, fallback_source: Seq<char>, r: AdaptedOccurrence) -> bool {
    let structured = structured_html(o.senses@, o.sections@);
    let html = if spec_trim(structured).len() == 0 { sanitized_fallback(fallback_source) } else { structured };
    &&& r.style_profile@ == profile
    &&& r.entry_kind@ == if o.entry_kind@.len() == 0 { "unknown"@ } else { o.entry_kind@ }
    &&& r.header.display_form@ == if o.header.display_form@.len() == 0 { "未识别词头"@ } else { o.header.display_form@ }
    &&& r.definition_html@ == html
    &&& if spec_trim(html).len() == 0 {
        r.content_blocks@.len() == 0
    } else {
        &&& r.content_blocks@.len() == 1
        &&& r.content_blocks@[0].kind@ == if o.senses@.len() == 0 && o.sections@.len() == 0 {
            "rich_text"@
        } else {
            "structured_preview"@
        }
        &&& r.content_blocks@[0].label is None
        &&& r.content_blocks@[0].html@ == html
    }
    &&& r.diagnostics.coverage@ == if o.diagnostics.coverage@.len() > 0 {
        o.diagnostics.coverage@
    } else if o.senses@.len() == 0 {
        "partial"@
    } else {
        "structured"@
    }
    &&& r.diagnostics.warnings == o.diagnostics.warnings
    &&& r.diagnostics.omitted == o.diagnostics.omitted
    &&& r.source_record_index == o.source_record_index
    &&& r.occurrence_suffix == o.occurrence_suffix
    &&& r.senses == o.senses
    &&& r.sections == o.sections
    &&& r.links == o.links
    &&& r.header.canonical_form == o.header.canonical_form
    &&& r.header.reading == o.header.reading
    &&& r.header.historical_reading == o.header.historical_reading
    &&& r.header.pronunciations == o.header.pronunciations
    &&& r.header.scoped_forms == o.header.scoped_forms
    &&& r.header.pos_tags == o.header.pos_tags
    &&& r.header.usage_tags == o.header.usage_tags
    &&& r.header.origin == o.header.origin
    &&& r.header.short_note == o.header.short_note
}

/// Completes an adapted occurrence for display.
pub fn finish(occurrence: AdaptedOccurrence, profile: &str, fallback_source: &str) -> (r: AdaptedOccurrence)
    ensures
        finished(occurrence, profile@, fallback_source@, r),
{
    let mut occurrence = occurrence;
    let ghost original = occurrence;
    occurrence.style_profile = profile.to_owned();
    if occurrence.entry_kind.as_str().is_empty() {
        occurrence.entry_kind = "unknown".to_owned();
    }
    if occurrence.header.display_form.as_str().is_empty() {
        occurrence.header.display_form = "未识别词头".to_owned();
    }
    let structured = render_structured_html(&occurrence.senses, &occurrence.sections);
    let structured_trimmed = trim_chars(chars_of(structured.as_str()).as_slice());
    occurrence.definition_html = if structured_trimmed.len() == 0 {
        sanitize_fallback(fallback_source)
    } else {
        structured
    };
    let html_trimmed = trim_chars(chars_of(occurrence.definition_html.as_str()).as_slice());
    let mut blocks: Vec<DictionaryContentBlock> = Vec::new();
    if html_trimmed.len() > 0 {
        let kind = if occurrence.senses.len() == 0 && occurrence.sections.len() == 0 {
            "rich_text"
        } else {
            "structured_preview"
        };
        blocks.push(DictionaryContentBlock {
            kind: kind.to_owned(),
            label: None,
            html: occurrence.definition_html.clone(),
        });
    }
    occurrence.content_blocks = blocks;
    if occurrence.diagnostics.coverage.as_str().is_empty() {
        occurrence.diagnostics.coverage = if occurrence.senses.len() == 0 {
            "partial".to_owned()
        } else {
            "structured".to_owned()
        };
    }
    occurrence
}

} // verus!
