//! The self-contained research preview of a dictionary lookup: the same
//! layout as the reader's bubble (candidates, dictionaries, occurrences and
//! each occurrence's entry) as one HTML page.
use vstd::prelude::*;
use crate::dictionary::adapters::common::{escape_html, escaped};
use crate::dictionary::bubble_html::{
    entry_form, entry_kind_label, entry_reading, escape_attr, hint_of, kind_label, label_of,
    match_hint, occurrence_label, relation_label, relation_name,
};
use crate::dictionary::lookup_state::{opt_view, spec_trim, trim_chars};
use crate::dictionary::model::{
    DictEntry, DictionaryContentBlock, DictionaryForm, DictionaryLink, DictionaryLookup,
    DictionaryPronunciation, DictionaryTag,
};
use crate::dictionary::bubble_html::{join_labels, joined};
use crate::dictionary::preview_assets::{PREVIEW_CSS, PREVIEW_SCRIPT};
use crate::text::{chars_of, decimal, push_decimal, push_str, str_eq};

verus! {

/// Text escaped for HTML.
pub open spec fn h(s: Seq<char>) -> Seq<char> {
    escaped(s)
}

/// Text escaped for an attribute value.
pub open spec fn at(s: Seq<char>) -> Seq<char> {
    crate::text::replace_all(escaped(s), "`"@, "&#96;"@)
}

/// An integer in decimal, with a minus sign when negative.
pub open spec fn signed(n: int) -> Seq<char> {
    if n < 0 {
        "-"@ + decimal((-n) as nat)
    } else {
        decimal(n as nat)
    }
}

pub open spec fn when(c: bool, s: Seq<char>) -> Seq<char> {
    if c { s } else { seq![] }
}

pub open spec fn opt_piece(o: Option<Seq<char>>, before: Seq<char>, after: Seq<char>) -> Seq<char> {
    match o {
        Some(v) => before + v + after,
        None => seq![],
    }
}

fn push_signed(out: &mut String, n: i32)
    ensures
        final(out)@ == old(out)@ + signed(n as int),
{
    if n < 0 {
        push_str(out, "-");
        let m: u64 = (0i64 - (n as i64)) as u64;
        push_decimal(out, m);
    } else {
        push_decimal(out, n as u64);
    }
}

fn push_html(out: &mut String, s: &str)
    ensures
        final(out)@ == old(out)@ + h(s@),
{
    let e = escape_html(s);
    push_str(out, e.as_str());
}

fn push_attr(out: &mut String, s: &str)
    ensures
        final(out)@ == old(out)@ + at(s@),
{
    let e = escape_attr(s);
    push_str(out, e.as_str());
}

/// `before`, `s` escaped, `after`.
fn push_wrapped(out: &mut String, before: &str, s: &str, after: &str)
    ensures
        final(out)@ == old(out)@ + (before@ + h(s@) + after@),
{
    let ghost start = out@;
    push_str(out, before);
    push_html(out, s);
    push_str(out, after);
    assert(out@ =~= start + (before@ + h(s@) + after@));
}

pub open spec fn tag_html(t: DictionaryTag) -> Seq<char> {
    "<span class=\"preview-tag\" data-kind=\""@ + at(t.kind@) + "\">"@ + h(t.label@) + "</span>"@
}

pub open spec fn tags_html(tags: Seq<DictionaryTag>) -> Seq<char>
    decreases tags.len(),
{
    if tags.len() == 0 { seq![] } else { tags_html(tags.drop_last()) + tag_html(tags.last()) }
}

proof fn lemma_tags_append(x: Seq<DictionaryTag>, y: Seq<DictionaryTag>)
    ensures
        tags_html(x + y) == tags_html(x) + tags_html(y),
    decreases y.len(),
{
    if y.len() == 0 {
        assert(x + y =~= x);
    } else {
        lemma_tags_append(x, y.drop_last());
        assert((x + y).drop_last() =~= x + y.drop_last());
    }
}

fn push_tags(out: &mut String, tags: &Vec<DictionaryTag>)
    ensures
        final(out)@ == old(out)@ + tags_html(tags@),
{
    let ghost start = out@;
    for i in 0..tags.len()
        invariant
            out@ == start + tags_html(tags@.take(i as int)),
    {
        assert(tags@.take(i + 1).drop_last() =~= tags@.take(i as int));
        let ghost s0 = out@;
        push_str(out, "<span class=\"preview-tag\" data-kind=\"");
        push_attr(out, tags[i].kind.as_str());
        push_wrapped(out, "\">", tags[i].label.as_str(), "</span>");
        assert(out@ =~= s0 + tag_html(tags@[i as int]));
    }
    assert(tags@.take(tags.len() as int) =~= tags@);
}

pub open spec fn fact_div(s: Seq<char>) -> Seq<char> {
    "<div>"@ + h(s) + "</div>"@
}

pub open spec fn pronunciations_html(ps: Seq<DictionaryPronunciation>) -> Seq<char>
    decreases ps.len(),
{
    if ps.len() == 0 {
        seq![]
    } else {
        pronunciations_html(ps.drop_last()) + fact_div(ps.last().label@ + " "@ + ps.last().value@)
    }
}

pub open spec fn form_fact(f: DictionaryForm, display: Seq<char>) -> Seq<char> {
    when(f.form@ != display, fact_div("异表记 "@ + f.form@ + opt_piece(opt_view(f.reading), "【"@, "】"@)))
}

pub open spec fn forms_html(fs: Seq<DictionaryForm>, display: Seq<char>) -> Seq<char>
    decreases fs.len(),
{
    if fs.len() == 0 { seq![] } else { forms_html(fs.drop_last(), display) + form_fact(fs.last(), display) }
}

pub open spec fn evidence_fact(e: DictEntry) -> Seq<char> {
    match e.match_evidence {
        Some(ev) => fact_div("证据 "@ + ev.kind@ + " · 读音 "@ + ev.reading_match@ + " · POS "@ + ev.pos_match@ + " · "@ + signed(ev.score as int)),
        None => seq![],
    }
}

/// The facts beside the headword, each in its own `<div>`: pronunciations,
/// origin, historical reading, other spellings, a short note and the match evidence.
pub open spec fn facts_html(e: DictEntry) -> Seq<char> {
    let hd = e.header;
    pronunciations_html(hd.pronunciations@)
        + match opt_view(hd.origin) { Some(o) => fact_div("词源 "@ + o), None => seq![] }
        + match opt_view(hd.historical_reading) { Some(r) => fact_div("历史读音 "@ + r), None => seq![] }
        + forms_html(hd.scoped_forms@, hd.display_form@)
        + match opt_view(hd.short_note) { Some(n) => fact_div(n), None => seq![] }
        + evidence_fact(e)
}

fn push_fact(out: &mut String, fact: &str)
    ensures
        final(out)@ == old(out)@ + fact_div(fact@),
{
    push_wrapped(out, "<div>", fact, "</div>");
}

fn push_pronunciations(out: &mut String, ps: &Vec<DictionaryPronunciation>)
    ensures
        final(out)@ == old(out)@ + pronunciations_html(ps@),
{
    let ghost start = out@;
    for i in 0..ps.len()
        invariant
            out@ == start + pronunciations_html(ps@.take(i as int)),
    {
        assert(ps@.take(i + 1).drop_last() =~= ps@.take(i as int));
        let mut fact = String::new();
        push_str(&mut fact, ps[i].label.as_str());
        push_str(&mut fact, " ");
        push_str(&mut fact, ps[i].value.as_str());
        let ghost s0 = out@;
        push_fact(out, fact.as_str());
        assert(out@ =~= s0 + fact_div(ps@[i as int].label@ + " "@ + ps@[i as int].value@));
    }
    assert(ps@.take(ps.len() as int) =~= ps@);
}

fn push_forms(out: &mut String, fs: &Vec<DictionaryForm>, display: &String)
    ensures
        final(out)@ == old(out)@ + forms_html(fs@, display@),
{
    let ghost start = out@;
    for i in 0..fs.len()
        invariant
            out@ == start + forms_html(fs@.take(i as int), display@),
    {
        assert(fs@.take(i + 1).drop_last() =~= fs@.take(i as int));
        let ghost s0 = out@;
        let f = &fs[i];
        if !str_eq(f.form.as_str(), display.as_str()) {
            let mut fact = String::new();
            push_str(&mut fact, "异表记 ");
            push_str(&mut fact, f.form.as_str());
            let ghost base = fact@;
            if let Some(r) = &f.reading {
                push_str(&mut fact, "【");
                push_str(&mut fact, r.as_str());
                push_str(&mut fact, "】");
            }
            assert(fact@ =~= "异表记 "@ + f.form@ + opt_piece(opt_view(f.reading), "【"@, "】"@));
            push_fact(out, fact.as_str());
        }
        assert(out@ =~= s0 + form_fact(fs@[i as int], display@));
    }
    assert(fs@.take(fs.len() as int) =~= fs@);
}

fn push_evidence(out: &mut String, e: &DictEntry)
    ensures
        final(out)@ == old(out)@ + evidence_fact(*e),
{
    if let Some(ev) = &e.match_evidence {
        let mut fact = String::new();
        push_str(&mut fact, "证据 ");
        push_str(&mut fact, ev.kind.as_str());
        push_str(&mut fact, " · 读音 ");
        push_str(&mut fact, ev.reading_match.as_str());
        push_str(&mut fact, " · POS ");
        push_str(&mut fact, ev.pos_match.as_str());
        push_str(&mut fact, " · ");
        push_signed(&mut fact, ev.score);
        assert(fact@ =~= "证据 "@ + ev.kind@ + " · 读音 "@ + ev.reading_match@ + " · POS "@ + ev.pos_match@ + " · "@ + signed(ev.score as int));
        push_fact(out, fact.as_str());
    }
}

fn push_prefixed_fact(out: &mut String, prefix: &str, value: &Option<String>)
    ensures
        final(out)@ == old(out)@ + match opt_view(*value) { Some(v) => fact_div(prefix@ + v), None => seq![] },
{
    if let Some(v) = value {
        let mut fact = String::new();
        push_str(&mut fact, prefix);
        push_str(&mut fact, v.as_str());
        push_fact(out, fact.as_str());
    } else {
        assert(out@ =~= old(out)@ + seq![]);
    }
}

fn facts_of(e: &DictEntry) -> (r: String)
    ensures
        r@ == facts_html(*e),
{
    let hd = &e.header;
    let mut out = String::new();
    push_pronunciations(&mut out, &hd.pronunciations);
    let ghost p1 = out@;
    push_prefixed_fact(&mut out, "词源 ", &hd.origin);
    let ghost p2 = out@;
    push_prefixed_fact(&mut out, "历史读音 ", &hd.historical_reading);
    let ghost p3 = out@;
    push_forms(&mut out, &hd.scoped_forms, &hd.display_form);
    let ghost p4 = out@;
    push_prefixed_fact(&mut out, "", &hd.short_note);
    proof {
        reveal_strlit("");
        assert(forall|n: Seq<char>| ""@ + n =~= n);
    }
    push_evidence(&mut out, e);
    assert(out@ =~= facts_html(*e));
    out
}

pub open spec fn headword_line_html(e: DictEntry) -> Seq<char> {
    "<header class=\"preview-entry-header\"><div class=\"preview-headword-block\"><div class=\"preview-headword-line\"><span class=\"preview-headword\">"@
        + h(entry_form(e)) + "</span>"@
        + match entry_reading(e) { Some(r) => "<span class=\"preview-reading\">【"@ + h(r) + "】</span>"@, None => seq![] }
        + "</div>"@
}

pub open spec fn header_tags_html(e: DictEntry, unresolved: bool) -> Seq<char> {
    "<div class=\"preview-header-tags\">"@ + tags_html(e.header.pos_tags@ + e.header.usage_tags@) + marks_html(e, unresolved)
}

/// An entry's header: headword and reading, tags, and its facts when it has any.
#[verifier::opaque]
pub open spec fn header_html(e: DictEntry, unresolved: bool) -> Seq<char> {
    headword_line_html(e) + header_tags_html(e, unresolved)
        + when(facts_html(e).len() > 0, "<div class=\"preview-header-facts\">"@ + facts_html(e) + "</div>"@)
        + "</header>"@
}

fn push_headword_line(out: &mut String, e: &DictEntry)
    ensures
        final(out)@ == old(out)@ + headword_line_html(*e),
{
    let ghost start = out@;
    let form = if e.header.display_form.as_str().is_empty() { &e.headword } else { &e.header.display_form };
    push_wrapped(out, "<header class=\"preview-entry-header\"><div class=\"preview-headword-block\"><div class=\"preview-headword-line\"><span class=\"preview-headword\">", form.as_str(), "</span>");
    let ghost s1 = out@;
    let reading = match &e.header.reading {
        Some(r) => Some(r),
        None => match &e.reading {
            Some(r) => Some(r),
            None => None,
        },
    };
    if let Some(r) = reading {
        push_wrapped(out, "<span class=\"preview-reading\">【", r.as_str(), "】</span>");
    }
    let ghost s2 = out@;
    push_str(out, "</div>");
    assert(out@ =~= start + headword_line_html(*e));
}

fn push_header_tags(out: &mut String, e: &DictEntry, unresolved: bool)
    ensures
        final(out)@ == old(out)@ + header_tags_html(*e, unresolved),
{
    let ghost start = out@;
    push_str(out, "<div class=\"preview-header-tags\">");
    push_tags(out, &e.header.pos_tags);
    push_tags(out, &e.header.usage_tags);
    proof {
        lemma_tags_append(e.header.pos_tags@, e.header.usage_tags@);
    }
    let ghost s1 = out@;
    assert(s1 =~= start + ("<div class=\"preview-header-tags\">"@ + tags_html(e.header.pos_tags@ + e.header.usage_tags@)));
    push_marks(out, e, unresolved);
    assert(out@ =~= start + header_tags_html(*e, unresolved));
}

pub open spec fn marks_html(e: DictEntry, unresolved: bool) -> Seq<char> {
    when(e.entry_kind@ != "lexical"@, "<span class=\"preview-tag\" data-kind=\"entry-kind\">"@ + kind_label(e.entry_kind@) + "</span>"@)
        + match e.match_evidence {
            Some(ev) => match hint_of(ev.kind@) {
                Some(hint) => "<span class=\"preview-tag\" data-kind=\"match\">"@ + hint + "</span>"@,
                None => seq![],
            },
            None => seq![],
        }
        + when(unresolved, "<span class=\"preview-tag ambiguity-badge\">候选未消歧</span>"@)
        + "</div></div>"@
}

fn push_marks(out: &mut String, e: &DictEntry, unresolved: bool)
    ensures
        final(out)@ == old(out)@ + marks_html(*e, unresolved),
{
    let ghost start = out@;
    if !str_eq(e.entry_kind.as_str(), "lexical") {
        push_str(out, "<span class=\"preview-tag\" data-kind=\"entry-kind\">");
        push_str(out, entry_kind_label(e.entry_kind.as_str()));
        push_str(out, "</span>");
    }
    let ghost s2 = out@;
    assert(s2 =~= start + when(e.entry_kind@ != "lexical"@, "<span class=\"preview-tag\" data-kind=\"entry-kind\">"@ + kind_label(e.entry_kind@) + "</span>"@));
    if let Some(ev) = &e.match_evidence {
        if let Some(hint) = match_hint(ev.kind.as_str()) {
            push_str(out, "<span class=\"preview-tag\" data-kind=\"match\">");
            push_str(out, hint);
            push_str(out, "</span>");
        }
    }
    let ghost s3 = out@;
    if unresolved {
        push_str(out, "<span class=\"preview-tag ambiguity-badge\">候选未消歧</span>");
    }
    push_str(out, "</div></div>");
    assert(out@ =~= start + marks_html(*e, unresolved));
}

fn push_header(out: &mut String, e: &DictEntry, unresolved: bool)
    ensures
        final(out)@ == old(out)@ + header_html(*e, unresolved),
{
    let ghost start = out@;
    push_headword_line(out, e);
    push_header_tags(out, e, unresolved);
    let ghost s1 = out@;
    let facts = facts_of(e);
    if facts.as_str().is_empty() {
        assert(facts@.len() == 0);
    } else {
        push_str(out, "<div class=\"preview-header-facts\">");
        push_str(out, facts.as_str());
        push_str(out, "</div>");
    }
    push_str(out, "</header>");
    reveal(header_html);
    assert(out@ =~= start + header_html(*e, unresolved));
}

pub open spec fn block_html(b: DictionaryContentBlock) -> Seq<char> {
    "<section class=\"dictionary-module dictionary-module--"@ + at(b.kind@) + "\">"@
        + match opt_view(b.label) { Some(l) => "<h4 class=\"dictionary-module__label\">"@ + h(l) + "</h4>"@, None => seq![] }
        + "<div class=\"dictionary-module__body\">"@ + b.html@ + "</div></section>"@
}

pub open spec fn blocks_html(bs: Seq<DictionaryContentBlock>) -> Seq<char>
    decreases bs.len(),
{
    if bs.len() == 0 { seq![] } else { blocks_html(bs.drop_last()) + block_html(bs.last()) }
}

/// The definition as given, or when it is blank, its content blocks.
#[verifier::opaque]
pub open spec fn body_html(e: DictEntry) -> Seq<char> {
    if spec_trim(e.definition_html@).len() > 0 { e.definition_html@ } else { blocks_html(e.content_blocks@) }
}

fn push_body(out: &mut String, e: &DictEntry)
    ensures
        final(out)@ == old(out)@ + body_html(*e),
{
    reveal(body_html);
    let ghost start = out@;
    if trim_chars(chars_of(e.definition_html.as_str()).as_slice()).len() > 0 {
        push_str(out, e.definition_html.as_str());
        return;
    }
    let bs = &e.content_blocks;
    for i in 0..bs.len()
        invariant
            out@ == start + blocks_html(bs@.take(i as int)),
    {
        assert(bs@.take(i + 1).drop_last() =~= bs@.take(i as int));
        let ghost s0 = out@;
        let b = &bs[i];
        push_str(out, "<section class=\"dictionary-module dictionary-module--");
        push_attr(out, b.kind.as_str());
        push_str(out, "\">");
        let ghost s1 = out@;
        if let Some(l) = &b.label {
            push_wrapped(out, "<h4 class=\"dictionary-module__label\">", l.as_str(), "</h4>");
        }
        let ghost s2 = out@;
        push_str(out, "<div class=\"dictionary-module__body\">");
        push_str(out, b.html.as_str());
        push_str(out, "</div></section>");
        assert(out@ =~= s0 + block_html(bs@[i as int]));
    }
    assert(bs@.take(bs.len() as int) =~= bs@);
}

pub open spec fn relation_html(l: DictionaryLink) -> Seq<char> {
    "<span class=\"preview-relation\" data-relation=\""@ + at(l.relation@) + "\"><small>"@ + relation_name(l.relation@)
        + "</small>"@ + h(if l.label@.len() == 0 { l.target@ } else { l.label@ }) + "</span>"@
}

/// The links shown as relations (all but candidates).
pub open spec fn shown_links(ls: Seq<DictionaryLink>) -> Seq<DictionaryLink>
    decreases ls.len(),
{
    if ls.len() == 0 {
        seq![]
    } else if ls.last().relation@ != "candidate"@ {
        shown_links(ls.drop_last()).push(ls.last())
    } else {
        shown_links(ls.drop_last())
    }
}

pub open spec fn relations_list(ls: Seq<DictionaryLink>) -> Seq<char>
    decreases ls.len(),
{
    if ls.len() == 0 { seq![] } else { relations_list(ls.drop_last()) + relation_html(ls.last()) }
}

pub open spec fn relations_html(e: DictEntry) -> Seq<char> {
    let shown = shown_links(e.links@);
    when(shown.len() > 0, "<div class=\"preview-relations\">"@ + relations_list(shown) + "</div>"@)
}

fn push_relations(out: &mut String, e: &DictEntry)
    ensures
        final(out)@ == old(out)@ + relations_html(*e),
{
    let ghost start = out@;
    let ls = &e.links;
    let mut list = String::new();
    let mut count: usize = 0;
    for i in 0..ls.len()
        invariant
            list@ == relations_list(shown_links(ls@.take(i as int))),
            count == shown_links(ls@.take(i as int)).len(),
            count <= i,
    {
        assert(ls@.take(i + 1).drop_last() =~= ls@.take(i as int));
        assert(ls@.take(i + 1).last() == ls@[i as int]);
        let l = &ls[i];
        if !str_eq(l.relation.as_str(), "candidate") {
            let ghost sh = shown_links(ls@.take(i as int));
            assert(shown_links(ls@.take(i + 1)) == sh.push(ls@[i as int]));
            assert(sh.push(ls@[i as int]).drop_last() =~= sh);
            let ghost s0 = list@;
            push_str(&mut list, "<span class=\"preview-relation\" data-relation=\"");
            push_attr(&mut list, l.relation.as_str());
            push_str(&mut list, "\"><small>");
            push_str(&mut list, relation_label(l.relation.as_str()));
            push_str(&mut list, "</small>");
            if l.label.as_str().is_empty() {
                push_html(&mut list, l.target.as_str());
            } else {
                push_html(&mut list, l.label.as_str());
            }
            push_str(&mut list, "</span>");
            assert(list@ =~= s0 + relation_html(ls@[i as int]));
            count += 1;
        }
    }
    assert(ls@.take(ls.len() as int) =~= ls@);
    if count > 0 {
        push_str(out, "<div class=\"preview-relations\">");
        push_str(out, list.as_str());
        push_str(out, "</div>");
    }
    assert(out@ =~= start + relations_html(*e));
}

pub open spec fn items_html(items: Seq<String>, before: Seq<char>) -> Seq<char>
    decreases items.len(),
{
    if items.len() == 0 { seq![] } else { items_html(items.drop_last(), before) + before + h(items.last()@) + "</li>"@ }
}

/// The adapter's warnings and omissions, when it has any.
pub open spec fn diagnostics_html(e: DictEntry) -> Seq<char> {
    let d = e.adapter_diagnostics;
    when(d.warnings@.len() > 0 || d.omitted@.len() > 0,
        "<details class=\"preview-diagnostics\"><summary>适配诊断 · "@ + h(d.coverage@) + "</summary><ul>"@
            + items_html(d.warnings@, "<li class=\"warning\">"@) + items_html(d.omitted@, "<li>省略："@) + "</ul></details>"@)
}

fn push_items(out: &mut String, items: &Vec<String>, before: &str)
    ensures
        final(out)@ == old(out)@ + items_html(items@, before@),
{
    let ghost start = out@;
    for i in 0..items.len()
        invariant
            out@ == start + items_html(items@.take(i as int), before@),
    {
        assert(items@.take(i + 1).drop_last() =~= items@.take(i as int));
        let ghost s0 = out@;
        push_wrapped(out, before, items[i].as_str(), "</li>");
        assert(out@ =~= s0 + (before@ + h(items@[i as int]@) + "</li>"@));
    }
    assert(items@.take(items.len() as int) =~= items@);
}

fn push_diagnostics(out: &mut String, e: &DictEntry)
    ensures
        final(out)@ == old(out)@ + diagnostics_html(*e),
{
    let d = &e.adapter_diagnostics;
    if d.warnings.len() == 0 && d.omitted.len() == 0 {
        return;
    }
    let ghost start = out@;
    push_wrapped(out, "<details class=\"preview-diagnostics\"><summary>适配诊断 · ", d.coverage.as_str(), "</summary><ul>");
    push_items(out, &d.warnings, "<li class=\"warning\">");
    push_items(out, &d.omitted, "<li>省略：");
    push_str(out, "</ul></details>");
    assert(out@ =~= start + diagnostics_html(*e));
}

pub open spec fn entry_head_html(e: DictEntry, unresolved: bool, active: bool) -> Seq<char> {
    "<article class=\"preview-entry"@ + when(active, " active"@) + "\" data-occurrence-pane=\""@ + at(e.occurrence_id@) + "\">"@
        + header_html(e, unresolved)
        + "<div class=\"preview-entry-body\"><div class=\"dictionary-content dictionary-content--"@ + at(e.style_profile@) + "\">"@
        + body_html(e) + "</div>"@
}

/// An occurrence's article: header, body, relations, diagnostics and raw definition.
pub open spec fn entry_html(e: DictEntry, unresolved: bool, active: bool) -> Seq<char> {
    entry_head_html(e, unresolved, active) + entry_tail_html(e)
}

fn push_entry(out: &mut String, e: &DictEntry, unresolved: bool, active: bool)
    ensures
        final(out)@ == old(out)@ + entry_html(*e, unresolved, active),
{
    let ghost start = out@;
    push_str(out, "<article class=\"preview-entry");
    if active {
        push_str(out, " active");
    }
    push_str(out, "\" data-occurrence-pane=\"");
    push_attr(out, e.occurrence_id.as_str());
    push_str(out, "\">");
    let ghost s1 = out@;
    push_header(out, e, unresolved);
    let ghost s2 = out@;
    push_str(out, "<div class=\"preview-entry-body\"><div class=\"dictionary-content dictionary-content--");
    push_attr(out, e.style_profile.as_str());
    push_str(out, "\">");
    push_body(out, e);
    push_str(out, "</div>");
    let ghost s3 = out@;
    assert(s3 =~= start + entry_head_html(*e, unresolved, active));
    push_entry_tail(out, e);
    assert(out@ =~= start + entry_html(*e, unresolved, active));
}

#[verifier::opaque]
pub open spec fn entry_tail_html(e: DictEntry) -> Seq<char> {
    relations_html(e) + diagnostics_html(e)
        + match opt_view(e.raw_definition) {
            Some(r) => "<details class=\"preview-raw\"><summary>原始 HTML</summary><pre><code>"@ + h(r) + "</code></pre></details>"@,
            None => seq![],
        }
        + "</div></article>"@
}

fn push_entry_tail(out: &mut String, e: &DictEntry)
    ensures
        final(out)@ == old(out)@ + entry_tail_html(*e),
{
    let ghost start = out@;
    push_relations(out, e);
    push_diagnostics(out, e);
    let ghost s4 = out@;
    if let Some(raw) = &e.raw_definition {
        push_wrapped(out, "<details class=\"preview-raw\"><summary>原始 HTML</summary><pre><code>", raw.as_str(), "</code></pre></details>");
    }
    push_str(out, "</div></article>");
    reveal(entry_tail_html);
    assert(out@ =~= start + entry_tail_html(*e));
}

/// The dictionaries shown: the lookup's own, then each other dictionary an
/// entry comes from, in entry order, once.
pub open spec fn group_names(base: Seq<Seq<char>>, entries: Seq<DictEntry>, n: int) -> Seq<Seq<char>>
    decreases n,
{
    if n <= 0 {
        base
    } else {
        let prev = group_names(base, entries, n - 1);
        if prev.contains(entries[n - 1].dict_name@) { prev } else { prev.push(entries[n - 1].dict_name@) }
    }
}

/// The entries of one dictionary, in order.
pub open spec fn entries_of(entries: Seq<DictEntry>, name: Seq<char>, n: int) -> Seq<DictEntry>
    decreases n,
{
    if n <= 0 {
        seq![]
    } else {
        let prev = entries_of(entries, name, n - 1);
        if entries[n - 1].dict_name@ == name { prev.push(entries[n - 1]) } else { prev }
    }
}

pub open spec fn deref_entries(v: Seq<&DictEntry>) -> Seq<DictEntry> {
    v.map_values(|e: &DictEntry| *e)
}

fn contains_name(names: &Vec<String>, name: &String) -> (b: bool)
    ensures
        b == names@.map_values(|n: String| n@).contains(name@),
{
    let ghost nv = names@.map_values(|n: String| n@);
    for j in 0..names.len()
        invariant
            nv == names@.map_values(|n: String| n@),
            forall|k: int| 0 <= k < j ==> nv[k] != name@,
    {
        if str_eq(names[j].as_str(), name.as_str()) {
            assert(nv[j as int] == name@);
            return true;
        }
    }
    false
}

/// Each shown dictionary with its entries.
fn dictionary_groups<'a>(lookup: &'a DictionaryLookup) -> (r: Vec<(String, Vec<&'a DictEntry>)>)
    ensures
        ({
            let names = group_names(lookup.dictionary_names@.map_values(|n: String| n@), lookup.entries@, lookup.entries@.len() as int);
            &&& r@.len() == names.len()
            &&& forall|k: int| 0 <= k < r@.len() ==> (#[trigger] r@[k]).0@ == names[k]
                && deref_entries(r@[k].1@) == entries_of(lookup.entries@, names[k], lookup.entries@.len() as int)
        }),
{
    let es = &lookup.entries;
    let ghost base = lookup.dictionary_names@.map_values(|n: String| n@);
    let mut names: Vec<String> = Vec::new();
    for j in 0..lookup.dictionary_names.len()
        invariant
            names@.map_values(|n: String| n@) == base.take(j as int),
            base == lookup.dictionary_names@.map_values(|n: String| n@),
    {
        let ghost before = names@.map_values(|n: String| n@);
        let name = lookup.dictionary_names[j].clone();
        assert(name@ == base[j as int]);
        names.push(name);
        assert(base.take(j + 1) =~= base.take(j as int).push(base[j as int]));
        assert(names@.map_values(|n: String| n@) =~= before.push(base[j as int]));
    }
    assert(base.take(lookup.dictionary_names.len() as int) =~= base);
    for i in 0..es.len()
        invariant
            names@.map_values(|n: String| n@) == group_names(base, es@, i as int),
    {
        if !contains_name(&names, &es[i].dict_name) {
            let ghost before = names@.map_values(|n: String| n@);
            names.push(es[i].dict_name.clone());
            assert(names@.map_values(|n: String| n@) =~= before.push(es@[i as int].dict_name@));
        }
    }
    let ghost nv = names@.map_values(|n: String| n@);
    let mut groups: Vec<(String, Vec<&DictEntry>)> = Vec::new();
    for k in 0..names.len()
        invariant
            nv == names@.map_values(|n: String| n@),
            groups@.len() == k,
            forall|m: int| 0 <= m < k ==> (#[trigger] groups@[m]).0@ == nv[m]
                && deref_entries(groups@[m].1@) == entries_of(es@, nv[m], es@.len() as int),
    {
        let mut members: Vec<&DictEntry> = Vec::new();
        for i in 0..es.len()
            invariant
                nv == names@.map_values(|n: String| n@),
                k < nv.len(),
                deref_entries(members@) == entries_of(es@, nv[k as int], i as int),
        {
            if str_eq(es[i].dict_name.as_str(), names[k].as_str()) {
                let ghost before = deref_entries(members@);
                members.push(&es[i]);
                assert(deref_entries(members@) =~= before.push(es@[i as int]));
            }
        }
        let name = names[k].clone();
        assert(name@ == nv[k as int]);
        groups.push((name, members));
    }
    groups
}

/// The entry shown first: the selected occurrence when it is among them, else
/// the only preferred entry, else the first.
pub open spec fn default_index(entries: Seq<DictEntry>, selected: Option<Seq<char>>) -> int {
    let found = match selected {
        Some(s) => first_with_id(entries, s, 0),
        None => -1,
    };
    if found >= 0 {
        found
    } else if count_preferred(entries, entries.len() as int) == 1 {
        first_preferred(entries, 0)
    } else if entries.len() > 0 {
        0
    } else {
        -1
    }
}

pub open spec fn first_with_id(entries: Seq<DictEntry>, id: Seq<char>, i: int) -> int
    decreases entries.len() - i,
{
    if i < 0 || i >= entries.len() { -1 } else if entries[i].occurrence_id@ == id { i } else { first_with_id(entries, id, i + 1) }
}

pub open spec fn first_preferred(entries: Seq<DictEntry>, i: int) -> int
    decreases entries.len() - i,
{
    if i < 0 || i >= entries.len() { -1 } else if entries[i].is_preferred { i } else { first_preferred(entries, i + 1) }
}

pub open spec fn count_preferred(entries: Seq<DictEntry>, n: int) -> nat
    decreases n,
{
    if n <= 0 { 0 } else { count_preferred(entries, n - 1) + if entries[n - 1].is_preferred { 1nat } else { 0nat } }
}

fn default_entry_index(entries: &Vec<&DictEntry>, selected: Option<&str>) -> (r: Option<usize>)
    ensures
        match r {
            Some(i) => i == default_index(deref_entries(entries@), opt_str(selected)) && i < entries@.len(),
            None => default_index(deref_entries(entries@), opt_str(selected)) == -1,
        },
{
    let ghost es = deref_entries(entries@);
    if let Some(s) = selected {
        let mut i: usize = 0;
        while i < entries.len()
            invariant
                es == deref_entries(entries@),
                selected == Some(s),
                i <= entries@.len(),
                first_with_id(es, s@, 0) == first_with_id(es, s@, i as int),
            decreases entries@.len() - i,
        {
            assert(es[i as int] == *entries@[i as int]);
            if str_eq(entries[i].occurrence_id.as_str(), s) {
                assert(first_with_id(es, s@, i as int) == i);
                assert(opt_str(selected) == Some(s@));
                assert(default_index(es, Some(s@)) == i);
                return Some(i);
            }
            i += 1;
        }
        assert(first_with_id(es, s@, 0) == -1);
    }
    assert(match opt_str(selected) { Some(v) => first_with_id(es, v, 0) == -1, None => true });
    let mut count: usize = 0;
    let mut first: Option<usize> = None;
    for i in 0..entries.len()
        invariant
            es == deref_entries(entries@),
            count == count_preferred(es, i as int),
            count <= i,
            first is None ==> count == 0,
            match first {
                Some(f) => f == first_preferred(es, 0) && f < i,
                None => forall|k: int| 0 <= k < i ==> !es[k].is_preferred,
            },
    {
        assert(es[i as int] == *entries@[i as int]);
        if entries[i].is_preferred {
            count += 1;
            if first.is_none() {
                proof { lemma_first_preferred_at(es, i as int); }
                first = Some(i);
            }
        }
    }
    if count == 1 {
        assert(count_preferred(es, es.len() as int) == 1);
        assert(default_index(es, opt_str(selected)) == first_preferred(es, 0));
        return first;
    }
    if entries.len() > 0 { Some(0) } else { None }
}

proof fn lemma_first_preferred_at(es: Seq<DictEntry>, i: int)
    requires
        0 <= i < es.len(),
        es[i].is_preferred,
        forall|k: int| 0 <= k < i ==> !es[k].is_preferred,
    ensures
        first_preferred(es, 0) == i,
{
    assert forall|j: int| 0 <= j <= i implies first_preferred(es, j) == i by {
        lemma_first_preferred_from(es, i, j);
    }
}

proof fn lemma_first_preferred_from(es: Seq<DictEntry>, i: int, j: int)
    requires
        0 <= j <= i < es.len(),
        es[i].is_preferred,
        forall|k: int| 0 <= k < i ==> !es[k].is_preferred,
    ensures
        first_preferred(es, j) == i,
    decreases i - j,
{
    if j < i {
        lemma_first_preferred_from(es, i, j + 1);
    }
}

pub open spec fn opt_str(s: Option<&str>) -> Option<Seq<char>> {
    match s {
        Some(v) => Some(v@),
        None => None,
    }
}

/// The tooltip of an occurrence button: its reading, its kind and how it matched.
pub open spec fn title_of(e: DictEntry) -> Seq<char> {
    opt_piece(entry_reading(e), "读音："@, "；"@) + kind_label(e.entry_kind@)
        + match e.match_evidence {
            Some(ev) => "；命中："@ + ev.kind@ + " / POS："@ + ev.pos_match@ + " / 分数："@ + signed(ev.score as int),
            None => seq![],
        }
}

fn occurrence_title(e: &DictEntry) -> (r: String)
    ensures
        r@ == title_of(*e),
{
    let mut out = String::new();
    let reading = match &e.header.reading {
        Some(r) => Some(r),
        None => match &e.reading {
            Some(r) => Some(r),
            None => None,
        },
    };
    if let Some(r) = reading {
        push_str(&mut out, "读音：");
        push_str(&mut out, r.as_str());
        push_str(&mut out, "；");
    }
    let ghost s1 = out@;
    push_str(&mut out, entry_kind_label(e.entry_kind.as_str()));
    let ghost s2 = out@;
    if let Some(ev) = &e.match_evidence {
        push_str(&mut out, "；命中：");
        push_str(&mut out, ev.kind.as_str());
        push_str(&mut out, " / POS：");
        push_str(&mut out, ev.pos_match.as_str());
        push_str(&mut out, " / 分数：");
        push_signed(&mut out, ev.score);
    }
    assert(out@ =~= title_of(*e));
    out
}

#[verifier::opaque]
pub open spec fn occurrence_button(e: DictEntry, peers: Seq<&DictEntry>, active: bool) -> Seq<char> {
    "<button type=\"button\" class=\"preview-choice occurrence-choice"@ + when(active, " active"@)
        + "\" data-occurrence=\""@ + at(e.occurrence_id@) + "\" title=\""@ + at(title_of(e)) + "\">"@
        + when(e.is_preferred, "★ "@) + h(label_of(e, peers)) + "</button>"@
}

/// Whether the entry's occurrence is the one shown first.
pub open spec fn is_shown(e: DictEntry, entries: Seq<DictEntry>, selected: Option<Seq<char>>) -> bool {
    let d = default_index(entries, selected);
    d >= 0 && entries[d].occurrence_id@ == e.occurrence_id@
}

pub open spec fn buttons_html(es: Seq<&DictEntry>, peers: Seq<&DictEntry>, selected: Option<Seq<char>>) -> Seq<char>
    decreases es.len(),
{
    if es.len() == 0 {
        seq![]
    } else {
        buttons_html(es.drop_last(), peers, selected)
            + occurrence_button(*es.last(), peers, is_shown(*es.last(), deref_entries(peers), selected))
    }
}

pub open spec fn articles_html(es: Seq<&DictEntry>, peers: Seq<&DictEntry>, selected: Option<Seq<char>>, unresolved: bool) -> Seq<char>
    decreases es.len(),
{
    if es.len() == 0 {
        seq![]
    } else {
        articles_html(es.drop_last(), peers, selected, unresolved)
            + entry_html(*es.last(), unresolved, is_shown(*es.last(), deref_entries(peers), selected))
    }
}

/// More than one entry and none preferred.
pub open spec fn unresolved_of(entries: Seq<DictEntry>) -> bool {
    entries.len() > 1 && count_preferred(entries, entries.len() as int) == 0
}

/// One dictionary's pane: the occurrence choices when there are several, then every entry.
#[verifier::opaque]
pub open spec fn pane_html(name: Seq<char>, entries: Seq<&DictEntry>, active: bool, selected: Option<Seq<char>>) -> Seq<char> {
    let es = deref_entries(entries);
    let unresolved = unresolved_of(es);
    "<section class=\"preview-dictionary-pane"@ + when(active, " active"@) + "\" data-dictionary-pane=\""@ + at(name) + "\">"@
        + occurrence_bar_html(entries, selected)
        + articles_html(entries, entries, selected, unresolved)
        + "</section>"@
}

fn shown_flag(e: &DictEntry, default_id: &Option<&String>, Ghost(entries): Ghost<Seq<DictEntry>>, Ghost(selected): Ghost<Option<Seq<char>>>) -> (b: bool)
    requires
        match default_id {
            Some(d) => default_index(entries, selected) >= 0 && d@ == entries[default_index(entries, selected)].occurrence_id@,
            None => default_index(entries, selected) < 0,
        },
    ensures
        b == is_shown(*e, entries, selected),
{
    match default_id {
        Some(d) => str_eq(d.as_str(), e.occurrence_id.as_str()),
        None => false,
    }
}

fn push_button(out: &mut String, e: &DictEntry, entries: &Vec<&DictEntry>, active: bool)
    ensures
        final(out)@ == old(out)@ + occurrence_button(*e, entries@, active),
{
    let ghost s0 = out@;
    push_str(out, "<button type=\"button\" class=\"preview-choice occurrence-choice");
    if active {
        push_str(out, " active");
    }
    push_str(out, "\" data-occurrence=\"");
    push_attr(out, e.occurrence_id.as_str());
    push_str(out, "\" title=\"");
    let title = occurrence_title(e);
    push_attr(out, title.as_str());
    push_str(out, "\">");
    let ghost s1 = out@;
    if e.is_preferred {
        push_str(out, "★ ");
    }
    let label = occurrence_label(e, entries.as_slice());
    push_html(out, label.as_str());
    push_str(out, "</button>");
    reveal(occurrence_button);
    assert(out@ =~= s0 + occurrence_button(*e, entries@, active));
}

fn push_buttons(out: &mut String, entries: &Vec<&DictEntry>, default_id: &Option<&String>, Ghost(selected): Ghost<Option<Seq<char>>>)
    requires
        match default_id {
            Some(d) => default_index(deref_entries(entries@), selected) >= 0
                && d@ == deref_entries(entries@)[default_index(deref_entries(entries@), selected)].occurrence_id@,
            None => default_index(deref_entries(entries@), selected) < 0,
        },
    ensures
        final(out)@ == old(out)@ + buttons_html(entries@, entries@, selected),
{
    let ghost start = out@;
    let ghost es = deref_entries(entries@);
    for i in 0..entries.len()
        invariant
            es == deref_entries(entries@),
            match default_id {
                Some(d) => default_index(es, selected) >= 0 && d@ == es[default_index(es, selected)].occurrence_id@,
                None => default_index(es, selected) < 0,
            },
            out@ == start + buttons_html(entries@.take(i as int), entries@, selected),
    {
        assert(entries@.take(i + 1).drop_last() =~= entries@.take(i as int));
        let e = entries[i];
        let active = shown_flag(e, default_id, Ghost(es), Ghost(selected));
        push_button(out, e, entries, active);
    }
    assert(entries@.take(entries.len() as int) =~= entries@);
}

fn push_articles(out: &mut String, entries: &Vec<&DictEntry>, default_id: &Option<&String>, unresolved: bool, Ghost(selected): Ghost<Option<Seq<char>>>)
    requires
        match default_id {
            Some(d) => default_index(deref_entries(entries@), selected) >= 0
                && d@ == deref_entries(entries@)[default_index(deref_entries(entries@), selected)].occurrence_id@,
            None => default_index(deref_entries(entries@), selected) < 0,
        },
    ensures
        final(out)@ == old(out)@ + articles_html(entries@, entries@, selected, unresolved),
{
    let ghost start = out@;
    let ghost es = deref_entries(entries@);
    for i in 0..entries.len()
        invariant
            es == deref_entries(entries@),
            match default_id {
                Some(d) => default_index(es, selected) >= 0 && d@ == es[default_index(es, selected)].occurrence_id@,
                None => default_index(es, selected) < 0,
            },
            out@ == start + articles_html(entries@.take(i as int), entries@, selected, unresolved),
    {
        assert(entries@.take(i + 1).drop_last() =~= entries@.take(i as int));
        let e = entries[i];
        let active = shown_flag(e, default_id, Ghost(es), Ghost(selected));
        push_entry(out, e, unresolved, active);
    }
    assert(entries@.take(entries.len() as int) =~= entries@);
}

fn default_id_of<'a>(entries: &Vec<&'a DictEntry>, selected: Option<&str>) -> (r: Option<&'a String>)
    ensures
        match r {
            Some(d) => default_index(deref_entries(entries@), opt_str(selected)) >= 0
                && d@ == deref_entries(entries@)[default_index(deref_entries(entries@), opt_str(selected))].occurrence_id@,
            None => default_index(deref_entries(entries@), opt_str(selected)) < 0,
        },
{
    let ghost es = deref_entries(entries@);
    match default_entry_index(entries, selected) {
        Some(i) => {
            assert(es[i as int] == *entries@[i as int]);
            Some(&entries[i].occurrence_id)
        },
        None => None,
    }
}

fn is_unresolved(entries: &Vec<&DictEntry>) -> (b: bool)
    ensures
        b == unresolved_of(deref_entries(entries@)),
{
    let ghost es = deref_entries(entries@);
    let mut preferred: usize = 0;
    for i in 0..entries.len()
        invariant
            es == deref_entries(entries@),
            preferred == count_preferred(es, i as int),
            preferred <= i,
    {
        assert(es[i as int] == *entries@[i as int]);
        if entries[i].is_preferred {
            preferred += 1;
        }
    }
    entries.len() > 1 && preferred == 0
}

pub open spec fn occurrence_bar_html(entries: Seq<&DictEntry>, selected: Option<Seq<char>>) -> Seq<char> {
    when(entries.len() > 1,
        "<section class=\"preview-choice-bar occurrence-bar\"><div class=\"preview-choice-label\">词条"@
            + when(unresolved_of(deref_entries(entries)), "<span class=\"ambiguity-badge\">未消歧</span>"@)
            + "</div><div class=\"preview-choice-options\">"@ + buttons_html(entries, entries, selected) + "</div></section>"@)
}

fn push_occurrence_bar(out: &mut String, entries: &Vec<&DictEntry>, default_id: &Option<&String>, unresolved: bool, Ghost(selected): Ghost<Option<Seq<char>>>)
    requires
        unresolved == unresolved_of(deref_entries(entries@)),
        match default_id {
            Some(d) => default_index(deref_entries(entries@), selected) >= 0
                && d@ == deref_entries(entries@)[default_index(deref_entries(entries@), selected)].occurrence_id@,
            None => default_index(deref_entries(entries@), selected) < 0,
        },
    ensures
        final(out)@ == old(out)@ + occurrence_bar_html(entries@, selected),
{
    let ghost start = out@;
    if entries.len() > 1 {
        push_str(out, "<section class=\"preview-choice-bar occurrence-bar\"><div class=\"preview-choice-label\">词条");
        if unresolved {
            push_str(out, "<span class=\"ambiguity-badge\">未消歧</span>");
        }
        push_str(out, "</div><div class=\"preview-choice-options\">");
        push_buttons(out, entries, default_id, Ghost(selected));
        push_str(out, "</div></section>");
    }
    assert(out@ =~= start + occurrence_bar_html(entries@, selected));
}

fn push_pane(out: &mut String, name: &String, entries: &Vec<&DictEntry>, active: bool, selected: Option<&str>)
    ensures
        final(out)@ == old(out)@ + pane_html(name@, entries@, active, opt_str(selected)),
{
    let ghost start = out@;
    let ghost sel = opt_str(selected);
    let default_id = default_id_of(entries, selected);
    let unresolved = is_unresolved(entries);
    push_str(out, "<section class=\"preview-dictionary-pane");
    if active {
        push_str(out, " active");
    }
    push_str(out, "\" data-dictionary-pane=\"");
    push_attr(out, name.as_str());
    push_str(out, "\">");
    let ghost s1 = out@;
    push_occurrence_bar(out, entries, &default_id, unresolved, Ghost(sel));
    let ghost s2 = out@;
    push_articles(out, entries, &default_id, unresolved, Ghost(sel));
    let ghost s3 = out@;
    push_str(out, "</section>");
    reveal(pane_html);
    assert(out@ =~= start + pane_html(name@, entries@, active, sel));
}

/// A spelling the lookup could switch to, and the dictionaries that have it.
pub struct LookupCandidate {
    pub target: String,
    pub label: String,
    pub dictionary_names: Vec<String>,
}

pub open spec fn names_view(v: Seq<String>) -> Seq<Seq<char>> {
    v.map_values(|n: String| n@)
}

pub open spec fn candidate_button(c: LookupCandidate, selected: Option<Seq<char>>) -> Seq<char> {
    "<button type=\"button\" class=\"preview-choice candidate-choice"@ + when(selected == Some(c.target@), " active"@)
        + "\" data-target=\""@ + at(c.target@) + "\" data-dictionaries=\""@ + at(joined(names_view(c.dictionary_names@), "\u{1f}"@))
        + "\" title=\""@ + at(c.target@) + "\">"@ + h(if c.label@.len() == 0 { c.target@ } else { c.label@ }) + "</button>"@
}

pub open spec fn candidate_buttons(cs: Seq<LookupCandidate>, selected: Option<Seq<char>>) -> Seq<char>
    decreases cs.len(),
{
    if cs.len() == 0 { seq![] } else { candidate_buttons(cs.drop_last(), selected) + candidate_button(cs.last(), selected) }
}

/// The spellings to switch to, with the one chosen, when there are any.
pub open spec fn candidate_bar_html(cs: Seq<LookupCandidate>, selected: Option<Seq<char>>) -> Seq<char> {
    when(cs.len() > 0,
        "<section class=\"preview-choice-bar\"><div class=\"preview-choice-label\">表记候选</div><div class=\"preview-choice-options\">"@
            + candidate_buttons(cs, selected) + "</div><div class=\"candidate-target\">"@
            + match selected { Some(t) => "当前："@ + h(t), None => "未选择候选；保持原查询 occurrence"@ }
            + "</div></section>"@)
}

fn push_candidate(out: &mut String, c: &LookupCandidate, selected: Option<&str>)
    ensures
        final(out)@ == old(out)@ + candidate_button(*c, opt_str(selected)),
{
    let ghost start = out@;
    let active = match selected {
        Some(t) => str_eq(t, c.target.as_str()),
        None => false,
    };
    push_str(out, "<button type=\"button\" class=\"preview-choice candidate-choice");
    if active {
        push_str(out, " active");
    }
    push_str(out, "\" data-target=\"");
    push_attr(out, c.target.as_str());
    push_str(out, "\" data-dictionaries=\"");
    let names = join_labels(&c.dictionary_names, "\u{1f}");
    push_attr(out, names.as_str());
    push_str(out, "\" title=\"");
    push_attr(out, c.target.as_str());
    push_str(out, "\">");
    if c.label.as_str().is_empty() {
        push_html(out, c.target.as_str());
    } else {
        push_html(out, c.label.as_str());
    }
    push_str(out, "</button>");
    assert(out@ =~= start + candidate_button(*c, opt_str(selected)));
}

fn push_candidate_bar(out: &mut String, cs: &[LookupCandidate], selected: Option<&str>)
    ensures
        final(out)@ == old(out)@ + candidate_bar_html(cs@, opt_str(selected)),
{
    let ghost start = out@;
    if cs.len() == 0 {
        return;
    }
    push_str(out, "<section class=\"preview-choice-bar\"><div class=\"preview-choice-label\">表记候选</div><div class=\"preview-choice-options\">");
    let ghost s1 = out@;
    for i in 0..cs.len()
        invariant
            out@ == s1 + candidate_buttons(cs@.take(i as int), opt_str(selected)),
    {
        assert(cs@.take(i + 1).drop_last() =~= cs@.take(i as int));
        push_candidate(out, &cs[i], selected);
    }
    assert(cs@.take(cs.len() as int) =~= cs@);
    push_str(out, "</div><div class=\"candidate-target\">");
    match selected {
        Some(t) => {
            push_str(out, "当前：");
            push_html(out, t);
        },
        None => {
            push_str(out, "未选择候选；保持原查询 occurrence");
        },
    }
    push_str(out, "</div></section>");
    assert(out@ =~= start + candidate_bar_html(cs@, opt_str(selected)));
}

pub open spec fn timing_html(l: DictionaryLookup) -> Seq<char> {
    match l.timing {
        Some(t) => "<div class=\"preview-timing\"><strong>"@ + decimal(t.service_ms as nat) + " ms</strong><span>SQLite "@
            + decimal(t.sqlite_ms as nat) + " · 释义 "@ + decimal(t.definition_ms as nat) + " · 适配 "@
            + decimal(t.presentation_ms as nat) + "</span></div>"@,
        None => seq![],
    }
}

pub open spec fn counts_html(l: DictionaryLookup) -> Seq<char> {
    "<span>模式 "@ + h(l.mode@) + "</span><span>"@ + decimal(l.entries@.len()) + " 个 occurrence</span><span>"@
        + decimal(l.dictionary_names@.len()) + " 本词典</span></div></div>"@
}

/// The query, the requested reading, mode and counts, and the timings when measured.
pub open spec fn summary_html(l: DictionaryLookup) -> Seq<char> {
    "<header class=\"preview-query\"><div><h1>"@ + h(l.query@) + "</h1><div class=\"preview-query-meta\">"@
        + match opt_view(l.reading) { Some(r) => "<span>请求读音 "@ + h(r) + "</span>"@, None => seq![] }
        + counts_html(l) + timing_html(l) + "</header>"@
}

fn push_timing(out: &mut String, l: &DictionaryLookup)
    ensures
        final(out)@ == old(out)@ + timing_html(*l),
{
    let ghost start = out@;
    if let Some(t) = &l.timing {
        push_str(out, "<div class=\"preview-timing\"><strong>");
        push_decimal(out, t.service_ms);
        push_str(out, " ms</strong><span>SQLite ");
        let ghost s1 = out@;
        push_decimal(out, t.sqlite_ms);
        push_str(out, " · 释义 ");
        let ghost s2 = out@;
        push_decimal(out, t.definition_ms);
        push_str(out, " · 适配 ");
        let ghost s3 = out@;
        push_decimal(out, t.presentation_ms);
        push_str(out, "</span></div>");
    }
    assert(out@ =~= start + timing_html(*l));
}

fn push_counts(out: &mut String, l: &DictionaryLookup)
    ensures
        final(out)@ == old(out)@ + counts_html(*l),
{
    let ghost start = out@;
    push_wrapped(out, "<span>模式 ", l.mode.as_str(), "</span><span>");
    push_decimal(out, l.entries.len() as u64);
    push_str(out, " 个 occurrence</span><span>");
    let ghost s1 = out@;
    push_decimal(out, l.dictionary_names.len() as u64);
    push_str(out, " 本词典</span></div></div>");
    assert(out@ =~= start + counts_html(*l));
}

fn push_summary(out: &mut String, l: &DictionaryLookup)
    ensures
        final(out)@ == old(out)@ + summary_html(*l),
{
    let ghost start = out@;
    push_wrapped(out, "<header class=\"preview-query\"><div><h1>", l.query.as_str(), "</h1><div class=\"preview-query-meta\">");
    if let Some(r) = &l.reading {
        push_wrapped(out, "<span>请求读音 ", r.as_str(), "</span>");
    }
    let ghost s1 = out@;
    push_counts(out, l);
    push_timing(out, l);
    push_str(out, "</header>");
    assert(out@ =~= start + summary_html(*l));
}

pub open spec fn as_refs<'a>(s: Seq<DictEntry>) -> Seq<&'a DictEntry> {
    s.map_values(|e: DictEntry| &e)
}

/// The entries of the named dictionary in the lookup.
pub open spec fn group_of(entries: Seq<DictEntry>, name: Seq<char>) -> Seq<DictEntry> {
    entries_of(entries, name, entries.len() as int)
}

/// The first of the names, from `i` on, whose dictionary has entries.
pub open spec fn active_from(names: Seq<Seq<char>>, entries: Seq<DictEntry>, i: int) -> Option<Seq<char>>
    decreases names.len() - i,
{
    if i < 0 || i >= names.len() {
        None
    } else if group_of(entries, names[i]).len() > 0 {
        Some(names[i])
    } else {
        active_from(names, entries, i + 1)
    }
}

pub open spec fn dictionary_button(name: Seq<char>, count: nat, active: Option<Seq<char>>) -> Seq<char> {
    "<button type=\"button\" class=\"preview-choice dictionary-choice"@ + when(active == Some(name), " active"@)
        + when(count == 0, " unavailable"@) + "\" data-dictionary=\""@ + at(name) + "\">"@ + h(name)
        + when(count == 0, " · 无当前释义"@) + "</button>"@
}

pub open spec fn dictionary_buttons(names: Seq<Seq<char>>, entries: Seq<DictEntry>, active: Option<Seq<char>>) -> Seq<char>
    decreases names.len(),
{
    if names.len() == 0 {
        seq![]
    } else {
        dictionary_buttons(names.drop_last(), entries, active)
            + dictionary_button(names.last(), group_of(entries, names.last()).len(), active)
    }
}

pub open spec fn panes_html(names: Seq<Seq<char>>, entries: Seq<DictEntry>, active: Option<Seq<char>>, selected: Option<Seq<char>>) -> Seq<char>
    decreases names.len(),
{
    if names.len() == 0 {
        seq![]
    } else {
        let g = group_of(entries, names.last());
        panes_html(names.drop_last(), entries, active, selected)
            + when(g.len() > 0, pane_html(names.last(), as_refs(g), active == Some(names.last()), selected))
    }
}

/// The page: head with the style sheets, the query summary, then the bubble:
/// candidates, dictionaries and each dictionary's pane, or a note when
/// nothing was found; then the page script.
pub open spec fn page_head_html(query: Seq<char>, stylesheets: Seq<char>) -> Seq<char> {
    "<!doctype html><html lang=\"ja\"><head><meta charset=\"utf-8\">"@
        + "<meta name=\"viewport\" content=\"width=device-width,initial-scale=1\">"@
        + "<title>Kotoclip 词典 Lookup 预览 - "@ + h(query) + "</title><style>"@
        + PREVIEW_CSS@ + stylesheets + "</style></head><body><main class=\"preview-shell\">"@
}

/// The bubble's content: candidates, dictionaries and each dictionary's pane,
/// or a note when nothing was found.
#[verifier::opaque]
pub open spec fn bubble_html(
    l: DictionaryLookup,
    candidates: Seq<LookupCandidate>,
    selected_target: Option<Seq<char>>,
    selected_occurrence: Option<Seq<char>>,
) -> Seq<char> {
    let names = group_names(names_view(l.dictionary_names@), l.entries@, l.entries@.len() as int);
    let active = active_from(names, l.entries@, 0);
    if l.entries@.len() == 0 {
        "<div class=\"empty-state\">未找到满足当前质量门的词条。</div>"@
    } else {
        candidate_bar_html(candidates, selected_target)
            + "<section class=\"preview-choice-bar dictionary-bar\"><div class=\"preview-choice-label\">词典</div><div class=\"preview-choice-options\">"@
            + dictionary_buttons(names, l.entries@, active) + "</div></section>"@
            + "<div class=\"preview-dictionary-stage\">"@ + panes_html(names, l.entries@, active, selected_occurrence) + "</div>"@
    }
}

/// The page: head with the style sheets, the query summary, the bubble, then the page script.
pub open spec fn preview_html(
    l: DictionaryLookup,
    candidates: Seq<LookupCandidate>,
    selected_target: Option<Seq<char>>,
    selected_occurrence: Option<Seq<char>>,
    stylesheets: Seq<char>,
) -> Seq<char> {
    page_head_html(l.query@, stylesheets) + summary_html(l)
        + "<section class=\"tooltip-panel-mock\" aria-label=\"词典气泡预览\">"@
        + bubble_html(l, candidates, selected_target, selected_occurrence)
        + "</section></main>"@ + PREVIEW_SCRIPT@ + "</body></html>"@
}

fn same_name(a: &Option<&String>, b: &String) -> (r: bool)
    ensures
        r == (match a { Some(x) => Some(x@), None => None::<Seq<char>> } == Some(b@)),
{
    match a {
        Some(x) => str_eq(x.as_str(), b.as_str()),
        None => false,
    }
}

fn push_dictionary_button(out: &mut String, name: &String, count: usize, active: &Option<&String>)
    ensures
        final(out)@ == old(out)@ + dictionary_button(name@, count as nat, match active { Some(x) => Some(x@), None => None }),
{
    let ghost s0 = out@;
    push_str(out, "<button type=\"button\" class=\"preview-choice dictionary-choice");
    if same_name(active, name) {
        push_str(out, " active");
    }
    if count == 0 {
        push_str(out, " unavailable");
    }
    push_str(out, "\" data-dictionary=\"");
    push_attr(out, name.as_str());
    push_str(out, "\">");
    push_html(out, name.as_str());
    if count == 0 {
        push_str(out, " · 无当前释义");
    }
    push_str(out, "</button>");
    assert(out@ =~= s0 + dictionary_button(name@, count as nat, match active { Some(x) => Some(x@), None => None }));
}

fn push_dictionary_bar(out: &mut String, groups: &Vec<(String, Vec<&DictEntry>)>, active: &Option<&String>,
    Ghost(names): Ghost<Seq<Seq<char>>>, Ghost(entries): Ghost<Seq<DictEntry>>)
    requires
        groups@.len() == names.len(),
        forall|k: int| 0 <= k < groups@.len() ==> (#[trigger] groups@[k]).0@ == names[k]
            && deref_entries(groups@[k].1@) == group_of(entries, names[k]),
    ensures
        final(out)@ == old(out)@ + "<section class=\"preview-choice-bar dictionary-bar\"><div class=\"preview-choice-label\">词典</div><div class=\"preview-choice-options\">"@
            + dictionary_buttons(names, entries, match active { Some(x) => Some(x@), None => None }) + "</div></section>"@,
{
    let ghost start = out@;
    let ghost act = match active { Some(x) => Some(x@), None => None::<Seq<char>> };
    push_str(out, "<section class=\"preview-choice-bar dictionary-bar\"><div class=\"preview-choice-label\">词典</div><div class=\"preview-choice-options\">");
    let ghost s1 = out@;
    for k in 0..groups.len()
        invariant
            groups@.len() == names.len(),
            forall|m: int| 0 <= m < groups@.len() ==> (#[trigger] groups@[m]).0@ == names[m]
                && deref_entries(groups@[m].1@) == group_of(entries, names[m]),
            act == match active { Some(x) => Some(x@), None => None::<Seq<char>> },
            out@ == s1 + dictionary_buttons(names.take(k as int), entries, act),
    {
        assert(names.take(k + 1).drop_last() =~= names.take(k as int));
        let (name, members) = (&groups[k].0, &groups[k].1);
        assert(deref_entries(members@).len() == members@.len());
        push_dictionary_button(out, name, members.len(), active);
    }
    assert(names.take(groups.len() as int) =~= names);
    push_str(out, "</div></section>");
    assert(out@ =~= start + ("<section class=\"preview-choice-bar dictionary-bar\"><div class=\"preview-choice-label\">词典</div><div class=\"preview-choice-options\">"@
        + dictionary_buttons(names, entries, act) + "</div></section>"@));
}

fn push_panes(out: &mut String, groups: &Vec<(String, Vec<&DictEntry>)>, active: &Option<&String>, selected: Option<&str>,
    Ghost(names): Ghost<Seq<Seq<char>>>, Ghost(entries): Ghost<Seq<DictEntry>>)
    requires
        groups@.len() == names.len(),
        forall|k: int| 0 <= k < groups@.len() ==> (#[trigger] groups@[k]).0@ == names[k]
            && deref_entries(groups@[k].1@) == group_of(entries, names[k]),
    ensures
        final(out)@ == old(out)@ + panes_html(names, entries, match active { Some(x) => Some(x@), None => None }, opt_str(selected)),
{
    let ghost start = out@;
    let ghost act = match active { Some(x) => Some(x@), None => None::<Seq<char>> };
    for k in 0..groups.len()
        invariant
            groups@.len() == names.len(),
            forall|m: int| 0 <= m < groups@.len() ==> (#[trigger] groups@[m]).0@ == names[m]
                && deref_entries(groups@[m].1@) == group_of(entries, names[m]),
            act == match active { Some(x) => Some(x@), None => None::<Seq<char>> },
            out@ == start + panes_html(names.take(k as int), entries, act, opt_str(selected)),
    {
        assert(names.take(k + 1).drop_last() =~= names.take(k as int));
        let (name, members) = (&groups[k].0, &groups[k].1);
        assert(members@ =~= as_refs(deref_entries(members@)));
        if members.len() > 0 {
            let is_active = same_name(active, name);
            push_pane(out, name, members, is_active, selected);
        }
    }
    assert(names.take(groups.len() as int) =~= names);
}

/// The first dictionary with entries.
fn active_dictionary<'a>(groups: &'a Vec<(String, Vec<&DictEntry>)>, Ghost(names): Ghost<Seq<Seq<char>>>, Ghost(entries): Ghost<Seq<DictEntry>>) -> (r: Option<&'a String>)
    requires
        groups@.len() == names.len(),
        forall|k: int| 0 <= k < groups@.len() ==> (#[trigger] groups@[k]).0@ == names[k]
            && deref_entries(groups@[k].1@) == group_of(entries, names[k]),
    ensures
        match r { Some(x) => Some(x@), None => None::<Seq<char>> } == active_from(names, entries, 0),
{
    let mut k: usize = 0;
    while k < groups.len()
        invariant
            k <= groups@.len() == names.len(),
            forall|m: int| 0 <= m < groups@.len() ==> (#[trigger] groups@[m]).0@ == names[m]
                && deref_entries(groups@[m].1@) == group_of(entries, names[m]),
            active_from(names, entries, 0) == active_from(names, entries, k as int),
        decreases groups@.len() - k,
    {
        assert(deref_entries(groups@[k as int].1@).len() == groups@[k as int].1@.len());
        if groups[k].1.len() > 0 {
            return Some(&groups[k].0);
        }
        k += 1;
    }
    None
}

fn push_bubble(out: &mut String, lookup: &DictionaryLookup, candidates: &[LookupCandidate], selected_target: Option<&str>, selected_occurrence_id: Option<&str>)
    ensures
        final(out)@ == old(out)@ + bubble_html(*lookup, candidates@, opt_str(selected_target), opt_str(selected_occurrence_id)),
{
    let ghost start = out@;
    reveal(bubble_html);
    if lookup.entries.len() == 0 {
        push_str(out, "<div class=\"empty-state\">未找到满足当前质量门的词条。</div>");
        return;
    }
    let groups = dictionary_groups(lookup);
    let ghost names = group_names(names_view(lookup.dictionary_names@), lookup.entries@, lookup.entries@.len() as int);
    assert(names_view(lookup.dictionary_names@) =~= lookup.dictionary_names@.map_values(|n: String| n@));
    let active = active_dictionary(&groups, Ghost(names), Ghost(lookup.entries@));
    push_candidate_bar(out, candidates, selected_target);
    let ghost s1 = out@;
    push_dictionary_bar(out, &groups, &active, Ghost(names), Ghost(lookup.entries@));
    let ghost s2 = out@;
    push_str(out, "<div class=\"preview-dictionary-stage\">");
    push_panes(out, &groups, &active, selected_occurrence_id, Ghost(names), Ghost(lookup.entries@));
    push_str(out, "</div>");
    assert(out@ =~= start + bubble_html(*lookup, candidates@, opt_str(selected_target), opt_str(selected_occurrence_id)));
}

/// The preview page of a lookup. `candidates`, `selected_target` and
/// `selected_occurrence_id` are the spellings offered and what was chosen;
/// `stylesheets` are the dictionaries' own style sheets, joined.
pub fn generate_bubble_preview_html(
    lookup: &DictionaryLookup,
    candidates: &[LookupCandidate],
    selected_target: Option<&str>,
    selected_occurrence_id: Option<&str>,
    stylesheets: &str,
) -> (r: String)
    ensures
        r@ == preview_html(*lookup, candidates@, opt_str(selected_target), opt_str(selected_occurrence_id), stylesheets@),
{
    let mut html = String::new();
    push_str(&mut html, "<!doctype html><html lang=\"ja\"><head><meta charset=\"utf-8\">");
    push_str(&mut html, "<meta name=\"viewport\" content=\"width=device-width,initial-scale=1\">");
    push_wrapped(&mut html, "<title>Kotoclip 词典 Lookup 预览 - ", lookup.query.as_str(), "</title><style>");
    push_str(&mut html, PREVIEW_CSS);
    push_str(&mut html, stylesheets);
    push_str(&mut html, "</style></head><body><main class=\"preview-shell\">");
    assert(html@ =~= page_head_html(lookup.query@, stylesheets@));
    let ghost s1 = html@;
    push_summary(&mut html, lookup);
    push_str(&mut html, "<section class=\"tooltip-panel-mock\" aria-label=\"词典气泡预览\">");
    let ghost s2 = html@;
    push_bubble(&mut html, lookup, candidates, selected_target, selected_occurrence_id);
    let ghost s3 = html@;
    push_str(&mut html, "</section></main>");
    push_str(&mut html, PREVIEW_SCRIPT);
    push_str(&mut html, "</body></html>");
    assert(html@ =~= preview_html(*lookup, candidates@, opt_str(selected_target), opt_str(selected_occurrence_id), stylesheets@));
    html
}

} // verus!
