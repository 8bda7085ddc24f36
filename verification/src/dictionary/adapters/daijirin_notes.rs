//! Notes, form scopes and internal references inside 大辞林 definitions.
use vstd::prelude::*;
use crate::dictionary::adapters::common::{html_text, normalize_visible_text, normalized_visible, tag};
use crate::dictionary::adapters::daijirin_text::{
    all_captures, first_captures, group_at, ja_html, opt_view, split_chars, split_on, tags_view,
};
use crate::dictionary::lookup_state::{trim_end, trim_start};
use crate::dictionary::model::{DictionaryLink, DictionarySense, DictionaryTag, DictionaryText};
use crate::dictionary::lookup_state::spec_trim;
use crate::text::{
    chars_of, groups_view, is_whitespace, regex_captures, regex_captures_all, regex_replace_all,
    regex_compiles, regex_replaced, remove_char, remove_chars, replace_all, replace_chars,
    spec_is_whitespace, string_from_chars, string_from_range,
};
use crate::token::strings_view;

verus! {

pub open spec fn trailing_note_pattern() -> Seq<char> {
    "〔([^〕]+)〕\\s*$"@
}

pub open spec fn leading_note_pattern() -> Seq<char> {
    "^\\s*〔([^〕]+)〕"@
}

/// Japanese texts made from `sources`.
pub open spec fn ja_texts(v: Seq<DictionaryText>, sources: Seq<Seq<char>>) -> bool {
    v.len() == sources.len() && forall|i: int| 0 <= i < sources.len() ==> ja_html(#[trigger] v[i], sources[i])
}

/// A group's normalised text, or nothing.
pub open spec fn group_text_or_empty(groups: Seq<Option<Seq<char>>>, i: int) -> Seq<char> {
    match group_at(groups, i) {
        Some(v) => normalized_visible(v),
        None => seq![],
    }
}

/// The bracketed notes that end a definition, taken off one by one from the
/// end; each taken note goes before the ones already taken.
pub open spec fn strip_trailing_notes(def: Seq<char>, notes: Seq<Seq<char>>) -> (Seq<char>, Seq<Seq<char>>)
    decreases def.len(),
{
    match first_captures(trailing_note_pattern(), def) {
        Some(g) => match group_at(g, 0) {
            Some(m) => if 0 < m.len() <= def.len() && def.skip(def.len() - m.len()) == m {
                let note = group_text_or_empty(g, 1);
                let rest = trim_end(def.take(def.len() - m.len()));
                proof {
                    lemma_trim_end_len(def.take(def.len() - m.len()));
                }
                strip_trailing_notes(rest, if note.len() > 0 { seq![note] + notes } else { notes })
            } else {
                (def, notes)
            },
            None => (def, notes),
        },
        None => (def, notes),
    }
}

pub proof fn lemma_trim_end_len(s: Seq<char>)
    ensures
        trim_end(s).len() <= s.len(),
    decreases s.len(),
{
    if s.len() > 0 && spec_is_whitespace(s.last()) {
        lemma_trim_end_len(s.drop_last());
    }
}

/// A definition without its bracketed notes, and the notes: those at the end,
/// then one at the start goes first.
pub open spec fn definition_notes(def: Seq<char>) -> (Seq<char>, Seq<Seq<char>>) {
    let (d, notes) = strip_trailing_notes(def, seq![]);
    match first_captures(leading_note_pattern(), d) {
        Some(g) => match (group_at(g, 0), group_at(g, 1)) {
            (Some(m), Some(n)) => if m.len() <= d.len() && d.take(m.len() as int) == m {
                let note = normalized_visible(n);
                (trim_start(d.skip(m.len() as int)), if note.len() > 0 { seq![note] + notes } else { notes })
            } else {
                (d, notes)
            },
            _ => (d, notes),
        },
        None => (d, notes),
    }
}

fn trim_end_chars(v: &[char]) -> (r: Vec<char>)
    ensures
        r@ == trim_end(v@),
{
    let mut j: usize = v.len();
    assert(v@.take(j as int) == v@);
    while j > 0 && is_whitespace(v[j - 1])
        invariant
            j <= v.len(),
            trim_end(v@) == trim_end(v@.take(j as int)),
        decreases j,
    {
        assert(v@.take(j as int).drop_last() == v@.take(j - 1));
        assert(v@.take(j as int).last() == v@[j - 1]);
        j -= 1;
    }
    proof {
        if j > 0 {
            assert(v@.take(j as int).last() == v@[j - 1]);
        }
    }
    let r = vstd::slice::slice_subrange(v, 0, j);
    assert(r@ == v@.take(j as int));
    vstd::slice::slice_to_vec(r)
}

fn trim_start_chars(v: &[char]) -> (r: Vec<char>)
    ensures
        r@ == trim_start(v@),
{
    let mut i: usize = 0;
    assert(v@.skip(0) == v@);
    while i < v.len() && is_whitespace(v[i])
        invariant
            i <= v.len(),
            trim_start(v@) == trim_start(v@.skip(i as int)),
        decreases v.len() - i,
    {
        assert(v@.skip(i as int).drop_first() == v@.skip(i + 1));
        assert(v@.skip(i as int)[0] == v@[i as int]);
        i += 1;
    }
    proof {
        if i < v.len() {
            assert(v@.skip(i as int)[0] == v@[i as int]);
        }
    }
    let r = vstd::slice::slice_subrange(v, i, v.len());
    assert(r@ == v@.skip(i as int));
    vstd::slice::slice_to_vec(r)
}

pub(crate) fn group_string(groups: &Vec<Option<String>>, i: usize) -> (r: Option<String>)
    ensures
        opt_view(r) == group_at(groups_view(groups@), i as int),
{
    if i < groups.len() {
        match &groups[i] {
            Some(g) => Some(g.clone()),
            None => None,
        }
    } else {
        None
    }
}

pub(crate) fn first_groups(pattern: &str, haystack: &str) -> (r: Option<Vec<Option<String>>>)
    ensures
        match r {
            Some(g) => first_captures(pattern@, haystack@) == Some(groups_view(g@)),
            None => first_captures(pattern@, haystack@) is None,
        },
{
    match regex_captures(pattern, haystack) {
        Some(c) => c,
        None => None,
    }
}

/// Whether `s` ends with `m`.
pub(crate) fn ends_with_chars(s: &[char], m: &[char]) -> (b: bool)
    ensures
        b == (m.len() <= s.len() && s@.skip(s.len() - m.len()) == m@),
{
    if m.len() > s.len() {
        return false;
    }
    let cut = s.len() - m.len();
    let mut k: usize = 0;
    while k < m.len()
        invariant
            k <= m.len(),
            cut + m.len() == s.len(),
            forall|j: int| 0 <= j < k ==> s@[cut + j] == m@[j],
        decreases m.len() - k,
    {
        if s[cut + k] != m[k] {
            assert(s@.skip(cut as int)[k as int] != m@[k as int]);
            return false;
        }
        k += 1;
    }
    assert(s@.skip(cut as int) =~= m@);
    true
}

/// Whether `s` starts with `m`.
fn starts_with_chars(s: &[char], m: &[char]) -> (b: bool)
    ensures
        b == (m.len() <= s.len() && s@.take(m.len() as int) == m@),
{
    if m.len() > s.len() {
        return false;
    }
    let r = crate::text::matches_at(s, 0, m);
    assert(s@.subrange(0, m@.len() as int) == s@.take(m@.len() as int));
    r
}

/// Takes the bracketed notes off a definition.
pub fn extract_trailing_notes(definition: String) -> (r: (String, Vec<DictionaryText>))
    ensures
        r.0@ == definition_notes(definition@).0,
        ja_texts(r.1@, definition_notes(definition@).1),
{
    let mut def = chars_of(definition.as_str());
    let ghost mut notes: Seq<Seq<char>> = seq![];
    let mut found: Vec<String> = Vec::new();
    loop
        invariant
            strip_trailing_notes(definition@, seq![]) == strip_trailing_notes(def@, notes),
            strings_view(found@) == notes,
        ensures
            strip_trailing_notes(definition@, seq![]) == strip_trailing_notes(def@, notes),
            strings_view(found@) == notes,
            strip_trailing_notes(def@, notes) == (def@, notes),
        decreases def.len(),
    {
        let text = string_from_chars(def.as_slice());
        let groups = match first_groups("〔([^〕]+)〕\\s*$", text.as_str()) {
            Some(g) => g,
            None => {
                break;
            },
        };
        let whole = match group_string(&groups, 0) {
            Some(w) => w,
            None => {
                break;
            },
        };
        let wc = chars_of(whole.as_str());
        if wc.len() == 0 || !ends_with_chars(def.as_slice(), wc.as_slice()) {
            break;
        }
        let note = match group_string(&groups, 1) {
            Some(n) => normalize_visible_text(n.as_str()),
            None => String::new(),
        };
        let cut = def.len() - wc.len();
        let head = vstd::slice::slice_subrange(def.as_slice(), 0, cut);
        assert(head@ == def@.take(cut as int));
        let trimmed = trim_end_chars(head);
        proof {
            lemma_trim_end_len(head@);
        }
        if !note.as_str().is_empty() {
            let ghost before = strings_view(found@);
            found.insert(0, note);
            proof {
                assert(strings_view(found@) =~= seq![note@] + before);
                notes = seq![note@] + notes;
            }
        }
        def = trimmed;
    }
    let text = string_from_chars(def.as_slice());
    let ghost d = def@;
    let ghost trailing = notes;
    assert(strip_trailing_notes(definition@, seq![]) == (d, trailing));
    let mut result_def = def;
    match first_groups("^\\s*〔([^〕]+)〕", text.as_str()) {
        Some(groups) => {
            match (group_string(&groups, 0), group_string(&groups, 1)) {
                (Some(whole), Some(n)) => {
                    let wc = chars_of(whole.as_str());
                    if starts_with_chars(result_def.as_slice(), wc.as_slice()) {
                        let tail = vstd::slice::slice_subrange(result_def.as_slice(), wc.len(), result_def.len());
                        assert(tail@ == d.skip(wc@.len() as int));
                        let rest = trim_start_chars(tail);
                        let note = normalize_visible_text(n.as_str());
                        if !note.as_str().is_empty() {
                            let ghost before = strings_view(found@);
                            found.insert(0, note);
                            assert(strings_view(found@) =~= seq![note@] + before);
                        }
                        result_def = rest;
                    }
                },
                _ => {},
            }
        },
        None => {},
    }
    let mut texts: Vec<DictionaryText> = Vec::new();
    let ghost fv = strings_view(found@);
    for i in 0..found.len()
        invariant
            fv == strings_view(found@),
            ja_texts(texts@, fv.take(i as int)),
    {
        let t = html_text("ja", found[i].as_str());
        let ghost before = texts@;
        texts.push(t);
        assert forall|k: int| 0 <= k < i + 1 implies ja_html(#[trigger] texts@[k], fv.take(i + 1)[k]) by {
            if k < i {
                assert(texts@[k] == before[k]);
            }
        }
    }
    assert(fv.take(found.len() as int) == fv);
    (string_from_chars(result_def.as_slice()), texts)
}

pub open spec fn form_scope_pattern() -> Seq<char> {
    "《([^》]+)》"@
}

/// The non-empty form scopes among the matches.
pub open spec fn scopes_of(matches: Seq<Seq<Option<Seq<char>>>>) -> Seq<Seq<char>>
    decreases matches.len(),
{
    if matches.len() == 0 {
        seq![]
    } else {
        let r = scopes_of(matches.drop_last());
        match group_at(matches.last(), 1) {
            Some(v) => if normalized_visible(v).len() > 0 { r.push(normalized_visible(v)) } else { r },
            None => r,
        }
    }
}

pub open spec fn is_form_separator(c: char) -> bool {
    c == '・' || c == '／' || c == '/'
}

/// The pieces of `s` between form separators.
pub open spec fn split_forms(s: Seq<char>) -> Seq<Seq<char>>
    decreases s.len(),
{
    if s.len() == 0 {
        seq![seq![]]
    } else {
        let p = split_forms(s.drop_last());
        if is_form_separator(s.last()) {
            p.push(seq![])
        } else {
            p.update(p.len() - 1, p.last().push(s.last()))
        }
    }
}

pub open spec fn scope_pieces(scopes: Seq<Seq<char>>) -> Seq<Seq<char>>
    decreases scopes.len(),
{
    if scopes.len() == 0 {
        seq![]
    } else {
        scope_pieces(scopes.drop_last()) + split_forms(scopes.last())
    }
}

/// The labels of the form tags the pieces give, first occurrences only.
pub open spec fn form_labels(pieces: Seq<Seq<char>>) -> Seq<Seq<char>>
    decreases pieces.len(),
{
    if pieces.len() == 0 {
        seq![]
    } else {
        let r = form_labels(pieces.drop_last());
        let f = normalized_visible(pieces.last());
        if f.len() > 0 && !r.contains(f) { r.push(normalized_visible(f)) } else { r }
    }
}

/// The relation arrows a definition with links loses.
pub open spec fn without_arrows(s: Seq<char>) -> Seq<char> {
    remove_char(remove_char(remove_char(remove_char(s, '⇔'), '⇒'), '→'), '☞')
}

/// A definition without its form scopes (and arrows, when it has links), normalised.
pub open spec fn cleaned_definition(def: Seq<char>, has_relations: bool) -> Seq<char> {
    let stripped = if regex_compiles(form_scope_pattern()) {
        regex_replaced(form_scope_pattern(), def, ""@)
    } else {
        def
    };
    normalized_visible(if has_relations { without_arrows(stripped) } else { stripped })
}

/// The form tags of a definition's scopes.
pub open spec fn definition_form_labels(def: Seq<char>) -> Seq<Seq<char>> {
    form_labels(scope_pieces(scopes_of(all_captures(form_scope_pattern(), def))))
}

pub open spec fn form_tags(labels: Seq<Seq<char>>) -> Seq<(Seq<char>, Seq<char>)> {
    labels.map_values(|l: Seq<char>| ("form"@, l))
}

fn split_forms_exec(s: &[char]) -> (r: Vec<String>)
    ensures
        strings_view(r@) == split_forms(s@),
{
    let mut out: Vec<String> = Vec::new();
    let mut current: Vec<char> = Vec::new();
    for i in 0..s.len()
        invariant
            split_forms(s@.take(i as int)) == strings_view(out@).push(current@),
    {
        assert(s@.take(i + 1).drop_last() == s@.take(i as int));
        assert(s@.take(i + 1).last() == s@[i as int]);
        let ghost before = strings_view(out@);
        let c = s[i];
        if c == '・' || c == '／' || c == '/' {
            let piece = string_from_chars(current.as_slice());
            let ghost old_current = current@;
            out.push(piece);
            current = Vec::new();
            assert(strings_view(out@) =~= before.push(old_current));
        } else {
            current.push(c);
        }
        assert(split_forms(s@.take(i + 1)) =~= strings_view(out@).push(current@));
    }
    assert(s@.take(s.len() as int) == s@);
    let ghost before = strings_view(out@);
    let piece = string_from_chars(current.as_slice());
    out.push(piece);
    assert(strings_view(out@) =~= before.push(current@));
    out
}

fn contains_string(v: &Vec<String>, x: &str) -> (b: bool)
    ensures
        b == strings_view(v@).contains(x@),
{
    for i in 0..v.len()
        invariant
            forall|k: int| 0 <= k < i ==> strings_view(v@)[k] != x@,
    {
        if crate::text::str_eq(v[i].as_str(), x) {
            assert(strings_view(v@)[i as int] == x@);
            return true;
        }
    }
    false
}

/// A definition with its form scopes taken out as form tags.
pub fn clean_definition(definition: String, has_relations: bool) -> (r: (String, Vec<DictionaryTag>))
    ensures
        r.0@ == cleaned_definition(definition@, has_relations),
        tags_view(r.1@) == form_tags(definition_form_labels(definition@)),
{
    let all = match regex_captures_all("《([^》]+)》", definition.as_str()) {
        Some(v) => v,
        None => Vec::new(),
    };
    let ghost mv = crate::text::matches_view(all@);
    assert(mv =~= all_captures(form_scope_pattern(), definition@));
    let mut scopes: Vec<String> = Vec::new();
    for k in 0..all.len()
        invariant
            mv == crate::text::matches_view(all@),
            strings_view(scopes@) == scopes_of(mv.take(k as int)),
    {
        assert(mv[k as int] == groups_view(all@[k as int]@));
        assert(mv.take(k + 1).drop_last() == mv.take(k as int));
        assert(mv.take(k + 1).last() == mv[k as int]);
        match group_string(&all[k], 1) {
            Some(v) => {
                let n = normalize_visible_text(v.as_str());
                if !n.as_str().is_empty() {
                    let ghost before = strings_view(scopes@);
                    scopes.push(n);
                    assert(strings_view(scopes@) =~= before.push(n@));
                }
            },
            None => {},
        }
    }
    assert(mv.take(all.len() as int) == mv);
    let stripped = match regex_replace_all("《([^》]+)》", definition.as_str(), "") {
        Some(v) => v,
        None => definition,
    };
    let ghost st = if regex_compiles(form_scope_pattern()) {
        regex_replaced(form_scope_pattern(), definition@, ""@)
    } else {
        definition@
    };
    assert(stripped@ == st);
    let cleaned = if has_relations {
        let sc = chars_of(stripped.as_str());
        let a = remove_chars(sc.as_slice(), '⇔');
        let b = remove_chars(a.as_slice(), '⇒');
        let c = remove_chars(b.as_slice(), '→');
        let d = remove_chars(c.as_slice(), '☞');
        normalize_visible_text(string_from_chars(d.as_slice()).as_str())
    } else {
        normalize_visible_text(stripped.as_str())
    };
    let ghost sv = strings_view(scopes@);
    let mut labels: Vec<String> = Vec::new();
    let mut tags: Vec<DictionaryTag> = Vec::new();
    let ghost mut done: Seq<Seq<char>> = seq![];
    for i in 0..scopes.len()
        invariant
            sv == strings_view(scopes@),
            done == scope_pieces(sv.take(i as int)),
            strings_view(labels@) == form_labels(done),
            tags_view(tags@) == form_tags(form_labels(done)),
    {
        let pieces = split_forms_exec(chars_of(scopes[i].as_str()).as_slice());
        let ghost pv = strings_view(pieces@);
        assert(sv.take(i + 1).drop_last() == sv.take(i as int));
        assert(sv.take(i + 1).last() == sv[i as int]);
        let ghost base = done;
        for j in 0..pieces.len()
            invariant
                pv == strings_view(pieces@),
                done == base + pv.take(j as int),
                strings_view(labels@) == form_labels(done),
                tags_view(tags@) == form_tags(form_labels(done)),
        {
            let form = normalize_visible_text(pieces[j].as_str());
            let ghost next = done.push(pv[j as int]);
            assert(next.drop_last() == done);
            assert(next.last() == pv[j as int]);
            if !form.as_str().is_empty() && !contains_string(&labels, form.as_str()) {
                let t = tag("form", form.as_str());
                let ghost lb = strings_view(labels@);
                let ghost tb = tags_view(tags@);
                labels.push(t.label.clone());
                tags.push(t);
                assert(strings_view(labels@) =~= lb.push(t.label@));
                assert(tags_view(tags@) =~= tb.push(("form"@, t.label@)));
                assert(form_tags(form_labels(next)) =~= form_tags(form_labels(done)).push(("form"@, t.label@)));
            }
            proof {
                assert(base + pv.take(j + 1) =~= next);
                done = next;
            }
        }
        assert(pv.take(pieces.len() as int) == pv);
    }
    assert(sv.take(scopes.len() as int) == sv);
    assert(cleaned@ == cleaned_definition(definition@, has_relations));
    assert(sv == scopes_of(all_captures(form_scope_pattern(), definition@)));
    (cleaned, tags)
}

pub open spec fn internal_reference_pattern() -> Seq<char> {
    "^([一二三四五六七八九十]+(?:[①-⑳㋐-㋾])?)に同じ[。．]?$"@
}

/// A definition's plain text: small markup dropped, normalised, without whitespace.
pub open spec fn plain_reference_text(def: Seq<char>) -> Seq<char> {
    crate::import::epub::without_whitespace(
        normalized_visible(replace_all(replace_all(def, "<small>"@, seq![]), "</small>"@, seq![])),
    )
}

/// The sense a definition that only says "same as sense N" points to.
pub open spec fn internal_reference_label(def: Seq<char>) -> Option<Seq<char>> {
    match first_captures(internal_reference_pattern(), plain_reference_text(def)) {
        Some(g) => group_at(g, 1),
        None => None,
    }
}

/// A link to another sense of the entry, for a definition that only refers to it.
pub fn internal_sense_reference(definition: &str) -> (r: Option<DictionaryLink>)
    ensures
        match (r, internal_reference_label(definition@)) {
            (Some(link), Some(label)) => link.label@ == label && link.target@ == "sense-marker:"@ + label
                && link.relation@ == "internal_reference"@,
            (None, None) => true,
            _ => false,
        },
{
    let dc = chars_of(definition);
    let nothing: Vec<char> = Vec::new();
    let a = replace_chars(dc.as_slice(), chars_of("<small>").as_slice(), nothing.as_slice());
    let b = replace_chars(a.as_slice(), chars_of("</small>").as_slice(), nothing.as_slice());
    let normalized = normalize_visible_text(string_from_chars(b.as_slice()).as_str());
    let nc = chars_of(normalized.as_str());
    let mut plain_chars: Vec<char> = Vec::new();
    for i in 0..nc.len()
        invariant
            plain_chars@ == crate::import::epub::without_whitespace(nc@.take(i as int)),
    {
        assert(nc@.take(i + 1).drop_last() == nc@.take(i as int));
        assert(nc@.take(i + 1).last() == nc@[i as int]);
        if !is_whitespace(nc[i]) {
            plain_chars.push(nc[i]);
        }
    }
    assert(nc@.take(nc.len() as int) == nc@);
    let plain = string_from_chars(plain_chars.as_slice());
    let groups = match first_groups("^([一二三四五六七八九十]+(?:[①-⑳㋐-㋾])?)に同じ[。．]?$", plain.as_str()) {
        Some(g) => g,
        None => {
            return None;
        },
    };
    let label = match group_string(&groups, 1) {
        Some(l) => l,
        None => {
            return None;
        },
    };
    let mut target = String::from_str("sense-marker:");
    crate::text::push_str(&mut target, label.as_str());
    Some(DictionaryLink { target, label, relation: String::from_str("internal_reference") })
}

/// A sense with nested senses whose only definition is a parenthetical
/// without a full stop shows that text as its heading instead.
pub open spec fn promotes_heading(s: DictionarySense) -> bool {
    s.children@.len() > 0 && s.definitions@.len() == 1 && s.heading is None && {
        let v = spec_trim(s.definitions@[0].html@);
        ((v.len() > 0 && v[0] == '（' && v.last() == '）') || (v.len() > 0 && v[0] == '(' && v.last() == ')'))
            && !v.contains('。')
    }
}

/// `after` is `before` with its parenthetical definition promoted to the heading, where it applies.
pub open spec fn promoted(before: DictionarySense, after: DictionarySense) -> bool {
    if promotes_heading(before) {
        &&& after == (DictionarySense { heading: after.heading, definitions: after.definitions, ..before })
        &&& opt_view(after.heading) == Some(spec_trim(before.definitions@[0].html@))
        &&& after.definitions@.len() == 0
    } else {
        after == before
    }
}

pub fn promote_parenthetical_heading(sense: &mut DictionarySense)
    ensures
        promoted(*old(sense), *final(sense)),
{
    if sense.children.len() == 0 || sense.definitions.len() != 1 || sense.heading.is_some() {
        return;
    }
    let vc = chars_of(sense.definitions[0].html.as_str());
    let trimmed = crate::dictionary::lookup_state::trim_chars(vc.as_slice());
    let n = trimmed.len();
    let parenthetical = n > 0 && ((trimmed[0] == '（' && trimmed[n - 1] == '）') || (trimmed[0] == '(' && trimmed[n - 1] == ')'));
    if parenthetical && !crate::dictionary::adapters::daijirin_text::contains_char_pub(trimmed.as_slice(), '。') {
        sense.heading = Some(string_from_chars(trimmed.as_slice()));
        sense.definitions = Vec::new();
    }
}

} // verus!
