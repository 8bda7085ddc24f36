//! Queries over the compiled grammar catalog: which concepts a search keeps.
use vstd::prelude::*;
use crate::dictionary::lookup_state::{spec_trim, trim_chars};
use crate::import::epub::{find_pattern, find_seq};
use crate::text::{chars_of, lowercased, str_eq, string_from_chars, to_lowercase};

verus! {

/// A grammar concept of the catalog.
#[derive(Debug)]
pub struct GrammarConcept {
    pub concept_id: String,
    pub kind: String,
    pub canonical_label: String,
    pub aliases: Vec<String>,
    pub semantic_domains: Vec<String>,
    pub function_tags: Vec<String>,
    pub jlpt_level: Option<u8>,
    pub register: Vec<String>,
    pub related_concept_ids: Vec<String>,
    pub contrast_concept_ids: Vec<String>,
    pub default_explanation_id: String,
    pub source_refs: Vec<String>,
    pub audit_status: String,
    pub concept_version: u32,
    pub enabled: bool,
}

/// A block of an explanation's source text.
#[derive(Debug)]
pub struct GrammarExplanationSourceBlock {
    pub kind: String,
    pub label: Option<String>,
    pub text: String,
}

/// Who wrote an explanation, when, and in which version.
#[derive(Debug)]
pub struct GrammarProvenance {
    pub origin: String,
    pub author: String,
    pub date: String,
    pub version: String,
}

/// An explanation of a concept (or of one of its senses).
#[derive(Debug)]
pub struct GrammarExplanationDocument {
    pub explanation_id: String,
    pub concept_id: String,
    pub sense_id: Option<String>,
    pub language: String,
    pub title: String,
    pub compact_summary: String,
    pub function_summary: String,
    pub connection: String,
    pub formation: String,
    pub usage_notes: Vec<String>,
    pub semantic_constraints: Vec<String>,
    pub pragmatic_notes: Vec<String>,
    pub examples: Vec<String>,
    pub counter_examples: Vec<String>,
    pub source_refs: Vec<String>,
    pub authoring_status: String,
    pub content_version: u32,
    pub provenance: Option<GrammarProvenance>,
    pub review_status: String,
    pub body_blocks: Vec<GrammarExplanationSourceBlock>,
}

pub open spec fn strings_view(v: Seq<String>) -> Seq<Seq<char>> {
    v.map_values(|s: String| s@)
}

/// A filter value that counts: present and not blank.
pub open spec fn active(v: Option<Seq<char>>) -> Option<Seq<char>> {
    match v {
        Some(x) => if spec_trim(x).len() > 0 { Some(x) } else { None },
        None => None,
    }
}

/// Whether `field`, lowercased, contains the (lowercased, trimmed) query.
pub open spec fn field_matches(field: Seq<char>, query: Seq<char>) -> bool {
    find_seq(lowercased(field), query) is Some
}

/// Whether a concept passes the search: enabled; of the family (its kind
/// or one of its domains, ignoring case); at the level; with the audit
/// status; citing the source; and, for a non-empty query, with the query in
/// its id, label or an alias, ignoring case.
pub open spec fn concept_kept(
    c: GrammarConcept,
    query: Seq<char>,
    family: Option<Seq<char>>,
    jlpt_level: Option<u8>,
    audit_status: Option<Seq<char>>,
    source_ref: Option<Seq<char>>,
) -> bool {
    &&& c.enabled
    &&& match active(family) {
        Some(f) => lowercased(c.kind@) == lowercased(f) || strings_view(c.semantic_domains@).map_values(
            |d: Seq<char>| lowercased(d),
        ).contains(lowercased(f)),
        None => true,
    }
    &&& match jlpt_level {
        Some(level) => c.jlpt_level == Some(level),
        None => true,
    }
    &&& match active(audit_status) {
        Some(s) => c.audit_status@ == s,
        None => true,
    }
    &&& match active(source_ref) {
        Some(s) => strings_view(c.source_refs@).contains(s),
        None => true,
    }
    &&& (query.len() == 0 || field_matches(c.concept_id@, query) || field_matches(c.canonical_label@, query)
        || exists|k: int| 0 <= k < c.aliases@.len() && field_matches(#[trigger] c.aliases@[k]@, query))
}

/// The query as searched: trimmed and lowercased.
pub open spec fn search_query(query: Option<Seq<char>>) -> Seq<char> {
    lowercased(spec_trim(match query {
        Some(q) => q,
        None => seq![],
    }))
}

/// The concepts a search keeps, in catalog order.
pub open spec fn searched(
    concepts: Seq<GrammarConcept>,
    query: Seq<char>,
    family: Option<Seq<char>>,
    jlpt_level: Option<u8>,
    audit_status: Option<Seq<char>>,
    source_ref: Option<Seq<char>>,
) -> Seq<GrammarConcept>
    decreases concepts.len(),
{
    if concepts.len() == 0 {
        seq![]
    } else {
        let prev = searched(concepts.drop_last(), query, family, jlpt_level, audit_status, source_ref);
        if concept_kept(concepts.last(), query, family, jlpt_level, audit_status, source_ref) {
            prev.push(concepts.last())
        } else {
            prev
        }
    }
}

/// Every concept a search gives back comes from the catalog, is enabled, is
/// at the requested JLPT level when one is given, has the requested audit
/// status and cites the requested source when these are given, and is of the
/// requested family (its kind or one of its domains, ignoring case) when one
/// is given.
pub proof fn law_search_results_pass_filters(
    concepts: Seq<GrammarConcept>,
    query: Seq<char>,
    family: Option<Seq<char>>,
    jlpt_level: Option<u8>,
    audit_status: Option<Seq<char>>,
    source_ref: Option<Seq<char>>,
)
    ensures
        forall|k: int| 0 <= k < searched(concepts, query, family, jlpt_level, audit_status, source_ref).len() ==> {
            let c = #[trigger] searched(concepts, query, family, jlpt_level, audit_status, source_ref)[k];
            &&& concepts.contains(c)
            &&& c.enabled
            &&& (jlpt_level matches Some(l) ==> c.jlpt_level == Some(l))
            &&& (active(audit_status) matches Some(s) ==> c.audit_status@ == s)
            &&& (active(source_ref) matches Some(s) ==> exists|i: int|
                0 <= i < c.source_refs@.len() && (#[trigger] c.source_refs@[i])@ == s)
            &&& (active(family) matches Some(f) ==> lowercased(c.kind@) == lowercased(f) || exists|i: int|
                0 <= i < c.semantic_domains@.len() && lowercased((#[trigger] c.semantic_domains@[i])@) == lowercased(f))
        },
    decreases concepts.len(),
{
    if concepts.len() > 0 {
        let init = concepts.drop_last();
        law_search_results_pass_filters(init, query, family, jlpt_level, audit_status, source_ref);
        let prev = searched(init, query, family, jlpt_level, audit_status, source_ref);
        let r = searched(concepts, query, family, jlpt_level, audit_status, source_ref);
        assert forall|k: int| 0 <= k < r.len() implies concepts.contains(#[trigger] r[k]) by {
            if k < prev.len() {
                assert(r[k] == prev[k]);
                let w = choose|w: int| 0 <= w < init.len() && init[w] == prev[k];
                assert(concepts[w] == init[w]);
            } else {
                assert(r[k] == concepts[concepts.len() - 1]);
            }
        }
        assert forall|k: int| 0 <= k < r.len() && k < prev.len() implies #[trigger] r[k] == prev[k] by {}
        let c = concepts.last();
        if concept_kept(c, query, family, jlpt_level, audit_status, source_ref) {
            if let Some(s) = active(source_ref) {
                let i = choose|i: int| 0 <= i < strings_view(c.source_refs@).len() && strings_view(c.source_refs@)[i] == s;
                assert(c.source_refs@[i]@ == s);
            }
            if let Some(f) = active(family) {
                if lowercased(c.kind@) != lowercased(f) {
                    let ds = strings_view(c.semantic_domains@).map_values(|d: Seq<char>| lowercased(d));
                    let i = choose|i: int| 0 <= i < ds.len() && ds[i] == lowercased(f);
                    assert(lowercased(c.semantic_domains@[i]@) == lowercased(f));
                }
            }
        }
    }
}

/// With no query and the level as the only filter, a search gives back
/// exactly the enabled concepts at that level, in catalog order.
pub proof fn law_level_filter_alone(concepts: Seq<GrammarConcept>, query: Seq<char>, level: u8)
    requires
        query.len() == 0,
    ensures
        searched(concepts, query, None, Some(level), None, None) == concepts.filter(
            |c: GrammarConcept| c.enabled && c.jlpt_level == Some(level),
        ),
    decreases concepts.len(),
{
    reveal(Seq::filter);
    if concepts.len() > 0 {
        law_level_filter_alone(concepts.drop_last(), query, level);
    }
}

fn is_active(v: Option<&str>) -> (r: Option<&str>)
    ensures
        crate::import::epub::opt_str(r) == active(crate::import::epub::opt_str(v)),
        r matches Some(x) ==> v == Some(x),
{
    match v {
        Some(x) => {
            let t = trim_chars(chars_of(x).as_slice());
            if t.len() > 0 {
                Some(x)
            } else {
                None
            }
        },
        None => None,
    }
}

fn contains_lowered(field: &str, query: &Vec<char>) -> (b: bool)
    ensures
        b == field_matches(field@, query@),
{
    let lowered = to_lowercase(field);
    find_pattern(chars_of(lowered.as_str()).as_slice(), query.as_slice()).is_some()
}

fn family_matches(c: &GrammarConcept, family: &str) -> (b: bool)
    ensures
        b == (lowercased(c.kind@) == lowercased(family@) || strings_view(c.semantic_domains@).map_values(
            |d: Seq<char>| lowercased(d),
        ).contains(lowercased(family@))),
{
    let wanted = to_lowercase(family);
    let kind = to_lowercase(c.kind.as_str());
    if str_eq(kind.as_str(), wanted.as_str()) {
        return true;
    }
    let ghost lv = strings_view(c.semantic_domains@).map_values(|d: Seq<char>| lowercased(d));
    let mut i: usize = 0;
    while i < c.semantic_domains.len()
        invariant
            i <= c.semantic_domains.len(),
            lv == strings_view(c.semantic_domains@).map_values(|d: Seq<char>| lowercased(d)),
            wanted@ == lowercased(family@),
            forall|m: int| 0 <= m < i ==> lv[m] != wanted@,
        decreases c.semantic_domains.len() - i,
    {
        let domain = to_lowercase(c.semantic_domains[i].as_str());
        if str_eq(domain.as_str(), wanted.as_str()) {
            assert(lv[i as int] == wanted@);
            return true;
        }
        i += 1;
    }
    false
}

fn cites(c: &GrammarConcept, source: &str) -> (b: bool)
    ensures
        b == strings_view(c.source_refs@).contains(source@),
{
    let ghost sv = strings_view(c.source_refs@);
    let mut i: usize = 0;
    while i < c.source_refs.len()
        invariant
            i <= c.source_refs.len(),
            sv == strings_view(c.source_refs@),
            forall|m: int| 0 <= m < i ==> sv[m] != source@,
        decreases c.source_refs.len() - i,
    {
        if str_eq(c.source_refs[i].as_str(), source) {
            assert(sv[i as int] == source@);
            return true;
        }
        i += 1;
    }
    false
}

fn keeps(
    c: &GrammarConcept,
    query: &Vec<char>,
    family: Option<&str>,
    jlpt_level: Option<u8>,
    audit_status: Option<&str>,
    source_ref: Option<&str>,
) -> (b: bool)
    ensures
        b == concept_kept(
            *c,
            query@,
            crate::import::epub::opt_str(family),
            jlpt_level,
            crate::import::epub::opt_str(audit_status),
            crate::import::epub::opt_str(source_ref),
        ),
{
    if !c.enabled {
        return false;
    }
    if let Some(f) = is_active(family) {
        if !family_matches(c, f) {
            return false;
        }
    }
    if let Some(level) = jlpt_level {
        match c.jlpt_level {
            Some(l) => {
                if l != level {
                    return false;
                }
            },
            None => {
                return false;
            },
        }
    }
    if let Some(status) = is_active(audit_status) {
        if !str_eq(c.audit_status.as_str(), status) {
            return false;
        }
    }
    if let Some(source) = is_active(source_ref) {
        if !cites(c, source) {
            return false;
        }
    }
    if query.len() == 0 {
        return true;
    }
    if contains_lowered(c.concept_id.as_str(), query) || contains_lowered(c.canonical_label.as_str(), query) {
        return true;
    }
    any_alias_matches(c, query)
}

fn any_alias_matches(c: &GrammarConcept, query: &Vec<char>) -> (b: bool)
    ensures
        b == exists|k: int| 0 <= k < c.aliases@.len() && field_matches(#[trigger] c.aliases@[k]@, query@),
{
    let mut i: usize = 0;
    while i < c.aliases.len()
        invariant
            i <= c.aliases.len(),
            forall|m: int| 0 <= m < i ==> !field_matches(#[trigger] c.aliases@[m]@, query@),
        decreases c.aliases.len() - i,
    {
        if contains_lowered(c.aliases[i].as_str(), query) {
            return true;
        }
        i += 1;
    }
    false
}

/// The enabled concepts of the catalog that pass the filters, in catalog order.
pub fn search(
    catalog: Vec<GrammarConcept>,
    query: Option<&str>,
    family: Option<&str>,
    jlpt_level: Option<u8>,
    audit_status: Option<&str>,
    source_ref: Option<&str>,
) -> (r: Vec<GrammarConcept>)
    ensures
        r@ == searched(
            catalog@,
            search_query(crate::import::epub::opt_str(query)),
            crate::import::epub::opt_str(family),
            jlpt_level,
            crate::import::epub::opt_str(audit_status),
            crate::import::epub::opt_str(source_ref),
        ),
        forall|k: int| 0 <= k < r@.len() ==> {
            &&& catalog@.contains(#[trigger] r@[k])
            &&& r@[k].enabled
            &&& (jlpt_level matches Some(l) ==> r@[k].jlpt_level == Some(l))
        },
{
    proof {
        law_search_results_pass_filters(
            catalog@,
            search_query(crate::import::epub::opt_str(query)),
            crate::import::epub::opt_str(family),
            jlpt_level,
            crate::import::epub::opt_str(audit_status),
            crate::import::epub::opt_str(source_ref),
        );
    }
    let raw = match query {
        Some(q) => chars_of(q),
        None => Vec::new(),
    };
    let trimmed = trim_chars(raw.as_slice());
    let lowered = to_lowercase(string_from_chars(trimmed.as_slice()).as_str());
    let q = chars_of(lowered.as_str());
    assert(raw@ == match crate::import::epub::opt_str(query) { Some(x) => x, None => Seq::<char>::empty() });
    let ghost all = catalog@;
    let mut pending = catalog;
    let mut reversed: Vec<GrammarConcept> = Vec::new();
    while pending.len() > 0
        invariant
            all == pending@ + reversed@.reverse(),
        decreases pending.len(),
    {
        let c = pending.pop().unwrap();
        reversed.push(c);
        assert(reversed@.reverse() =~= seq![c] + reversed@.drop_last().reverse());
    }
    assert(all =~= reversed@.reverse());
    let mut kept: Vec<GrammarConcept> = Vec::new();
    let ghost mut done: int = 0;
    assert(all.take(0) =~= Seq::<GrammarConcept>::empty());
    while reversed.len() > 0
        invariant
            0 <= done <= all.len(),
            done + reversed.len() == all.len(),
            all.skip(done) =~= reversed@.reverse(),
            q@ == search_query(crate::import::epub::opt_str(query)),
            kept@ == searched(
                all.take(done),
                q@,
                crate::import::epub::opt_str(family),
                jlpt_level,
                crate::import::epub::opt_str(audit_status),
                crate::import::epub::opt_str(source_ref),
            ),
        decreases reversed.len(),
    {
        let ghost rev_before = reversed@;
        let c = reversed.pop().unwrap();
        proof {
            assert(rev_before.reverse() =~= seq![c] + reversed@.reverse());
            assert(all[done] == c) by {
                assert(all.skip(done)[0] == c);
            }
            assert(all.skip(done + 1) =~= all.skip(done).drop_first());
            assert(all.take(done + 1).drop_last() =~= all.take(done));
            assert(all.take(done + 1).last() == c);
        }
        if keeps(&c, &q, family, jlpt_level, audit_status, source_ref) {
            kept.push(c);
        }
        proof {
            done = done + 1;
        }
    }
    assert(all.take(done) =~= all);
    kept
}

/// A sense of a grammar concept. `semantic_features` is the JSON text of its
/// semantic features.
#[derive(Debug)]
pub struct GrammarSense {
    pub sense_id: String,
    pub concept_id: String,
    pub label: String,
    pub function_summary: String,
    pub semantic_features: String,
    pub context_requirements: Vec<String>,
    pub exclusion_conditions: Vec<String>,
    pub related_sense_ids: Vec<String>,
    pub contrast_sense_ids: Vec<String>,
    pub explanation_id: String,
    pub sense_version: u32,
    pub audit_status: String,
}

/// The compiled catalog: its concepts and their senses.
#[derive(Debug)]
pub struct GrammarCatalog {
    pub concepts: Vec<GrammarConcept>,
    pub senses: Vec<GrammarSense>,
}

/// A concept with its senses, the explanation shown for it and all its explanations.
#[derive(Debug)]
pub struct GrammarConceptBundle {
    pub concept: GrammarConcept,
    pub senses: Vec<GrammarSense>,
    pub explanation: GrammarExplanationDocument,
    pub explanations: Vec<GrammarExplanationDocument>,
}

/// The index of the first concept with this id; -1 when there is none.
pub open spec fn concept_position(concepts: Seq<GrammarConcept>, id: Seq<char>, i: int) -> int
    decreases concepts.len() - i,
{
    if i < 0 || i >= concepts.len() {
        -1
    } else if concepts[i].concept_id@ == id {
        i
    } else {
        concept_position(concepts, id, i + 1)
    }
}

/// The senses of a concept, in catalog order.
pub open spec fn senses_of(senses: Seq<GrammarSense>, id: Seq<char>) -> Seq<GrammarSense>
    decreases senses.len(),
{
    if senses.len() == 0 {
        seq![]
    } else {
        let rest = senses_of(senses.drop_last(), id);
        if senses.last().concept_id@ == id { rest.push(senses.last()) } else { rest }
    }
}

/// The explanations of a concept, in library order.
pub open spec fn explanations_of(docs: Seq<GrammarExplanationDocument>, id: Seq<char>) -> Seq<GrammarExplanationDocument>
    decreases docs.len(),
{
    if docs.len() == 0 {
        seq![]
    } else {
        let rest = explanations_of(docs.drop_last(), id);
        if docs.last().concept_id@ == id { rest.push(docs.last()) } else { rest }
    }
}

/// The explanation shown: the one with the default id, else the first.
pub open spec fn shown_explanation(related: Seq<GrammarExplanationDocument>, default_id: Seq<char>, i: int) -> int
    decreases related.len() - i,
{
    if i < 0 || i >= related.len() {
        0
    } else if related[i].explanation_id@ == default_id {
        i
    } else {
        shown_explanation(related, default_id, i + 1)
    }
}

pub open spec fn opt_text(o: Option<String>) -> Option<Seq<char>> {
    match o {
        Some(v) => Some(v@),
        None => None,
    }
}

pub open spec fn same_provenance(a: Option<GrammarProvenance>, b: Option<GrammarProvenance>) -> bool {
    match (a, b) {
        (Some(x), Some(y)) => x.origin@ == y.origin@ && x.author@ == y.author@ && x.date@ == y.date@ && x.version@ == y.version@,
        (None, None) => true,
        _ => false,
    }
}

pub open spec fn same_blocks(a: Seq<GrammarExplanationSourceBlock>, b: Seq<GrammarExplanationSourceBlock>) -> bool {
    &&& a.len() == b.len()
    &&& forall|k: int| 0 <= k < a.len() ==> (#[trigger] a[k]).kind@ == b[k].kind@ && opt_text(a[k].label) == opt_text(b[k].label)
        && a[k].text@ == b[k].text@
}

/// Two explanation documents say the same, field by field.
pub open spec fn same_document(a: GrammarExplanationDocument, b: GrammarExplanationDocument) -> bool {
    &&& a.explanation_id@ == b.explanation_id@
    &&& a.concept_id@ == b.concept_id@
    &&& opt_text(a.sense_id) == opt_text(b.sense_id)
    &&& a.language@ == b.language@
    &&& a.title@ == b.title@
    &&& a.compact_summary@ == b.compact_summary@
    &&& a.function_summary@ == b.function_summary@
    &&& a.connection@ == b.connection@
    &&& a.formation@ == b.formation@
    &&& strings_view(a.usage_notes@) == strings_view(b.usage_notes@)
    &&& strings_view(a.semantic_constraints@) == strings_view(b.semantic_constraints@)
    &&& strings_view(a.pragmatic_notes@) == strings_view(b.pragmatic_notes@)
    &&& strings_view(a.examples@) == strings_view(b.examples@)
    &&& strings_view(a.counter_examples@) == strings_view(b.counter_examples@)
    &&& strings_view(a.source_refs@) == strings_view(b.source_refs@)
    &&& a.authoring_status@ == b.authoring_status@
    &&& a.content_version == b.content_version
    &&& same_provenance(a.provenance, b.provenance)
    &&& a.review_status@ == b.review_status@
    &&& same_blocks(a.body_blocks@, b.body_blocks@)
}

fn copy_text(s: &String) -> (r: String)
    ensures
        r@ == s@,
{
    s.clone()
}

fn copy_opt(o: &Option<String>) -> (r: Option<String>)
    ensures
        opt_text(r) == opt_text(*o),
{
    match o {
        Some(v) => Some(copy_text(v)),
        None => None,
    }
}

fn copy_list(v: &Vec<String>) -> (r: Vec<String>)
    ensures
        strings_view(r@) == strings_view(v@),
{
    let mut r: Vec<String> = Vec::new();
    for i in 0..v.len()
        invariant
            strings_view(r@) == strings_view(v@.take(i as int)),
    {
        let ghost before = strings_view(r@);
        r.push(copy_text(&v[i]));
        assert(strings_view(r@) =~= before.push(v@[i as int]@));
        assert(strings_view(v@.take(i + 1)) =~= strings_view(v@.take(i as int)).push(v@[i as int]@));
    }
    assert(v@.take(v.len() as int) =~= v@);
    r
}

fn copy_document(d: &GrammarExplanationDocument) -> (r: GrammarExplanationDocument)
    ensures
        same_document(r, *d),
{
    let provenance = match &d.provenance {
        Some(p) => Some(GrammarProvenance {
            origin: copy_text(&p.origin),
            author: copy_text(&p.author),
            date: copy_text(&p.date),
            version: copy_text(&p.version),
        }),
        None => None,
    };
    let mut blocks: Vec<GrammarExplanationSourceBlock> = Vec::new();
    for i in 0..d.body_blocks.len()
        invariant
            blocks@.len() == i,
            i <= d.body_blocks@.len(),
            forall|k: int| 0 <= k < i ==> (#[trigger] blocks@[k]).kind@ == d.body_blocks@[k].kind@
                && opt_text(blocks@[k].label) == opt_text(d.body_blocks@[k].label) && blocks@[k].text@ == d.body_blocks@[k].text@,
    {
        let b = &d.body_blocks[i];
        blocks.push(GrammarExplanationSourceBlock { kind: copy_text(&b.kind), label: copy_opt(&b.label), text: copy_text(&b.text) });
    }
    GrammarExplanationDocument {
        explanation_id: copy_text(&d.explanation_id),
        concept_id: copy_text(&d.concept_id),
        sense_id: copy_opt(&d.sense_id),
        language: copy_text(&d.language),
        title: copy_text(&d.title),
        compact_summary: copy_text(&d.compact_summary),
        function_summary: copy_text(&d.function_summary),
        connection: copy_text(&d.connection),
        formation: copy_text(&d.formation),
        usage_notes: copy_list(&d.usage_notes),
        semantic_constraints: copy_list(&d.semantic_constraints),
        pragmatic_notes: copy_list(&d.pragmatic_notes),
        examples: copy_list(&d.examples),
        counter_examples: copy_list(&d.counter_examples),
        source_refs: copy_list(&d.source_refs),
        authoring_status: copy_text(&d.authoring_status),
        content_version: d.content_version,
        provenance,
        review_status: copy_text(&d.review_status),
        body_blocks: blocks,
    }
}

/// A concept of the catalog with its senses and explanations: the first
/// concept with the id; its senses in catalog order; its explanations in
/// library order; and the one shown, the explanation with the concept's
/// default id or else the first. It is an error when no concept has the id,
/// or when the concept has no explanation.
pub fn get(catalog: GrammarCatalog, explanations: Vec<GrammarExplanationDocument>, concept_id: &str) -> (r: Result<GrammarConceptBundle, String>)
    ensures
        ({
            let i = concept_position(catalog.concepts@, concept_id@, 0);
            let related = explanations_of(explanations@, concept_id@);
            if i < 0 {
                r matches Err(e) && e@ == "语法 concept 不存在："@ + concept_id@
            } else if related.len() == 0 {
                r matches Err(e) && e@ == "语法 concept 缺少讲解："@ + concept_id@
            } else {
                r matches Ok(b) && {
                    &&& b.concept == catalog.concepts@[i]
                    &&& b.senses@ == senses_of(catalog.senses@, concept_id@)
                    &&& b.explanations@ == related
                    &&& same_document(b.explanation,
                        related[shown_explanation(related, catalog.concepts@[i].default_explanation_id@, 0)])
                }
            }
        }),
{
    let ghost cs = catalog.concepts@;
    let GrammarCatalog { concepts, senses } = catalog;
    let mut i: usize = 0;
    while i < concepts.len() && !str_eq(concepts[i].concept_id.as_str(), concept_id)
        invariant
            cs == concepts@,
            i <= cs.len(),
            concept_position(cs, concept_id@, 0) == concept_position(cs, concept_id@, i as int),
        decreases cs.len() - i,
    {
        i += 1;
    }
    if i == concepts.len() {
        let mut message = String::new();
        crate::text::push_str(&mut message, "语法 concept 不存在：");
        crate::text::push_str(&mut message, concept_id);
        return Err(message);
    }
    let p = i;
    assert(p == concept_position(cs, concept_id@, 0));
    let mut concepts = concepts;
    let concept = concepts.remove(p);
    let ghost ss = senses@;
    let mut senses = senses;
    let mut kept: Vec<GrammarSense> = Vec::new();
    let n = senses.len();
    let mut k: usize = 0;
    while k < n
        invariant
            k <= n == ss.len(),
            senses@ == ss.skip(k as int),
            kept@ == senses_of(ss.take(k as int), concept_id@),
        decreases n - k,
    {
        assert(ss.take(k + 1).drop_last() =~= ss.take(k as int));
        assert(senses@[0] == ss[k as int]);
        let s = senses.remove(0);
        assert(senses@ =~= ss.skip(k + 1));
        if str_eq(s.concept_id.as_str(), concept_id) {
            kept.push(s);
        }
        k += 1;
    }
    assert(ss.take(n as int) =~= ss);
    let ghost es = explanations@;
    let mut explanations = explanations;
    let mut related: Vec<GrammarExplanationDocument> = Vec::new();
    let m = explanations.len();
    let mut k: usize = 0;
    while k < m
        invariant
            k <= m == es.len(),
            explanations@ == es.skip(k as int),
            related@ == explanations_of(es.take(k as int), concept_id@),
        decreases m - k,
    {
        assert(es.take(k + 1).drop_last() =~= es.take(k as int));
        assert(explanations@[0] == es[k as int]);
        let d = explanations.remove(0);
        assert(explanations@ =~= es.skip(k + 1));
        if str_eq(d.concept_id.as_str(), concept_id) {
            related.push(d);
        }
        k += 1;
    }
    assert(es.take(m as int) =~= es);
    if related.len() == 0 {
        let mut message = String::new();
        crate::text::push_str(&mut message, "语法 concept 缺少讲解：");
        crate::text::push_str(&mut message, concept_id);
        return Err(message);
    }
    let ghost rv = related@;
    let mut j: usize = 0;
    while j < related.len() && !str_eq(related[j].explanation_id.as_str(), concept.default_explanation_id.as_str())
        invariant
            rv == related@,
            j <= rv.len(),
            shown_explanation(rv, concept.default_explanation_id@, 0) == shown_explanation(rv, concept.default_explanation_id@, j as int),
        decreases rv.len() - j,
    {
        j += 1;
    }
    let chosen = if j == related.len() { 0 } else { j };
    assert(chosen == shown_explanation(rv, concept.default_explanation_id@, 0));
    let explanation = copy_document(&related[chosen]);
    Ok(GrammarConceptBundle { concept, senses: kept, explanation, explanations: related })
}

} // verus!
