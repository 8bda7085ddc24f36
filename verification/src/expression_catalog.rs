//! Candidate expressions from the built-in expression catalog: each pattern
//! is a run of atoms matched against consecutive morphemes.
use vstd::prelude::*;
use crate::text::{chars_of, decimal, push_decimal, push_str, str_eq};

verus! {

/// What one morpheme of a pattern must be: one of the lemmas (or surfaces
/// standing for them), one of the surfaces, and of the part of speech, each
/// only where given.
pub struct Atom {
    pub lemmas: Vec<String>,
    pub surfaces: Vec<String>,
    pub pos: Option<String>,
}

/// A pattern of the catalog.
pub struct Pattern {
    pub id: String,
    pub expression_type: Option<String>,
    pub label: String,
    pub description: String,
    pub category: String,
    pub atoms: Vec<Atom>,
}

/// A morpheme as the scan reads it: its surface, range, the levels of its
/// part of speech and its lemma.
pub struct CatalogMorpheme {
    pub surface: String,
    pub char_range: (usize, usize),
    pub pos: Vec<Option<String>>,
    pub lemma: Option<String>,
}

/// An expression found in the text; every catalog match is a candidate.
pub struct ExpressionOccurrence {
    pub id: String,
    pub rule_id: Option<String>,
    pub char_range: (usize, usize),
    pub morpheme_indices: Vec<usize>,
    pub provider: String,
    pub source_id: Option<String>,
    pub expression_type: String,
    pub labels: Vec<String>,
    pub evidence: Vec<String>,
}

pub ghost struct OccurrenceView {
    pub id: Seq<char>,
    pub rule_id: Option<Seq<char>>,
    pub char_range: (usize, usize),
    pub morpheme_indices: Seq<usize>,
    pub provider: Seq<char>,
    pub source_id: Option<Seq<char>>,
    pub expression_type: Seq<char>,
    pub labels: Seq<Seq<char>>,
    pub evidence: Seq<Seq<char>>,
}

pub open spec fn texts(v: Seq<String>) -> Seq<Seq<char>> {
    v.map_values(|s: String| s@)
}

pub open spec fn opt_text(o: Option<String>) -> Option<Seq<char>> {
    match o {
        Some(v) => Some(v@),
        None => None,
    }
}

pub open spec fn occurrence_view(o: ExpressionOccurrence) -> OccurrenceView {
    OccurrenceView {
        id: o.id@,
        rule_id: opt_text(o.rule_id),
        char_range: o.char_range,
        morpheme_indices: o.morpheme_indices@,
        provider: o.provider@,
        source_id: opt_text(o.source_id),
        expression_type: o.expression_type@,
        labels: texts(o.labels@),
        evidence: texts(o.evidence@),
    }
}

pub open spec fn has_text(v: Seq<String>, s: Seq<char>) -> bool {
    exists|k: int| 0 <= k < v.len() && (#[trigger] v[k])@ == s
}

/// Whether a morpheme fits an atom.
pub open spec fn atom_matches(a: Atom, m: CatalogMorpheme) -> bool {
    let lemma = match opt_text(m.lemma) { Some(l) => l, None => seq![] };
    &&& (a.lemmas@.len() == 0 || has_text(a.lemmas@, lemma) || has_text(a.lemmas@, m.surface@))
    &&& (a.surfaces@.len() == 0 || has_text(a.surfaces@, m.surface@))
    &&& match a.pos {
        None => true,
        Some(p) => exists|k: int| 0 <= k < m.pos@.len() && opt_text(#[trigger] m.pos@[k]) == Some(p@),
    }
}

/// The pattern's atoms fit the morphemes from `start` on.
pub open spec fn fits_at(p: Pattern, ms: Seq<CatalogMorpheme>, start: int) -> bool {
    forall|i: int| 0 <= i < p.atoms@.len() ==> atom_matches(#[trigger] p.atoms@[i], ms[start + i])
}

/// The starts a pattern is tried at: every place its atoms fit in the text.
pub open spec fn start_count(p: Pattern, ms: Seq<CatalogMorpheme>) -> int {
    if p.atoms@.len() == 0 || p.atoms@.len() > ms.len() { 0 } else { ms.len() - p.atoms@.len() + 1 }
}

/// The occurrence the pattern gives at `start`.
pub open spec fn occurrence_at(p: Pattern, ms: Seq<CatalogMorpheme>, start: int) -> OccurrenceView {
    let end = start + p.atoms@.len();
    OccurrenceView {
        id: "expression:"@ + p.id@ + ":"@ + decimal(start as nat),
        rule_id: Some(p.id@),
        char_range: (ms[start].char_range.0, ms[end - 1].char_range.1),
        morpheme_indices: Seq::new(p.atoms@.len(), |i: int| (start + i) as usize),
        provider: "builtin-expression-catalog"@,
        source_id: Some(p.id@),
        expression_type: match opt_text(p.expression_type) { Some(t) => t, None => "grammar_construction"@ },
        labels: (if p.label@.len() > 0 { seq![p.label@] } else { seq![] })
            + (if p.category@.len() > 0 { seq!["category:"@ + p.category@] } else { seq![] }),
        evidence: seq!["catalog:expression_patterns.json"@, "description:"@ + p.description@],
    }
}

/// Scanning the starts below `n`: the occurrences, or the error of the first
/// match that reaches past the text.
pub open spec fn pattern_scan(p: Pattern, ms: Seq<CatalogMorpheme>, text_len: nat, n: int) -> Result<Seq<OccurrenceView>, Seq<char>>
    decreases n,
{
    if n <= 0 {
        Ok(seq![])
    } else {
        match pattern_scan(p, ms, text_len, n - 1) {
            Err(e) => Err(e),
            Ok(v) => if !fits_at(p, ms, n - 1) {
                Ok(v)
            } else if ms[n - 1 + p.atoms@.len() - 1].char_range.1 > text_len {
                Err("表达 "@ + p.id@ + " 范围超出文本"@)
            } else {
                Ok(v.push(occurrence_at(p, ms, n - 1)))
            },
        }
    }
}

/// Every pattern in order, each over every start in order.
pub open spec fn catalog_scan(ps: Seq<Pattern>, ms: Seq<CatalogMorpheme>, text_len: nat) -> Result<Seq<OccurrenceView>, Seq<char>>
    decreases ps.len(),
{
    if ps.len() == 0 {
        Ok(seq![])
    } else {
        match catalog_scan(ps.drop_last(), ms, text_len) {
            Err(e) => Err(e),
            Ok(v) => match pattern_scan(ps.last(), ms, text_len, start_count(ps.last(), ms)) {
                Err(e) => Err(e),
                Ok(w) => Ok(v + w),
            },
        }
    }
}

fn has_str(v: &Vec<String>, s: &str) -> (b: bool)
    ensures
        b == has_text(v@, s@),
{
    for k in 0..v.len()
        invariant
            forall|j: int| 0 <= j < k ==> (#[trigger] v@[j])@ != s@,
    {
        if str_eq(v[k].as_str(), s) {
            assert(v@[k as int]@ == s@);
            return true;
        }
    }
    false
}

fn matches_atom(a: &Atom, m: &CatalogMorpheme) -> (b: bool)
    ensures
        b == atom_matches(*a, *m),
{
    let lemma: &str = match &m.lemma {
        Some(l) => l.as_str(),
        None => "",
    };
    proof {
        reveal_strlit("");
        assert(""@ =~= Seq::<char>::empty());
    }
    assert(lemma@ == match opt_text(m.lemma) { Some(l) => l, None => seq![] });
    let lemma_ok = a.lemmas.len() == 0 || has_str(&a.lemmas, lemma) || has_str(&a.lemmas, m.surface.as_str());
    let surface_ok = a.surfaces.len() == 0 || has_str(&a.surfaces, m.surface.as_str());
    let pos_ok = match &a.pos {
        None => true,
        Some(p) => {
            let mut found = false;
            for k in 0..m.pos.len()
                invariant
                    !found ==> forall|j: int| 0 <= j < k ==> opt_text(#[trigger] m.pos@[j]) != Some(p@),
                    found ==> exists|j: int| 0 <= j < m.pos@.len() && opt_text(#[trigger] m.pos@[j]) == Some(p@),
            {
                let hit = match &m.pos[k] {
                    Some(x) => str_eq(x.as_str(), p.as_str()),
                    None => false,
                };
                if hit {
                    assert(opt_text(m.pos@[k as int]) == Some(p@));
                    found = true;
                }
            }
            found
        },
    };
    lemma_ok && surface_ok && pos_ok
}

fn fits(p: &Pattern, ms: &[CatalogMorpheme], start: usize) -> (b: bool)
    requires
        start + p.atoms@.len() <= ms@.len(),
    ensures
        b == fits_at(*p, ms@, start as int),
{
    for i in 0..p.atoms.len()
        invariant
            start + p.atoms@.len() <= ms@.len(),
            forall|j: int| 0 <= j < i ==> atom_matches(#[trigger] p.atoms@[j], ms@[start + j]),
    {
        assert(start + i < ms.len());
        if !matches_atom(&p.atoms[i], &ms[start + i]) {
            return false;
        }
    }
    true
}

fn text_copy(s: &String) -> (r: String)
    ensures
        r@ == s@,
{
    s.clone()
}

fn occurrence(p: &Pattern, ms: &[CatalogMorpheme], start: usize) -> (r: ExpressionOccurrence)
    requires
        p.atoms@.len() > 0,
        start + p.atoms@.len() <= ms@.len(),
    ensures
        occurrence_view(r) == occurrence_at(*p, ms@, start as int),
{
    assert(ms@.len() == ms.len());
    let end = start + p.atoms.len();
    let mut id = String::new();
    push_str(&mut id, "expression:");
    push_str(&mut id, p.id.as_str());
    push_str(&mut id, ":");
    push_decimal(&mut id, start as u64);
    let mut indices: Vec<usize> = Vec::new();
    for i in start..end
        invariant
            start <= i <= end,
            indices@ == Seq::new((i - start) as nat, |j: int| (start + j) as usize),
    {
        indices.push(i);
        assert(indices@ =~= Seq::new((i + 1 - start) as nat, |j: int| (start + j) as usize));
    }
    let mut expression_type = String::new();
    match &p.expression_type {
        Some(t) => push_str(&mut expression_type, t.as_str()),
        None => push_str(&mut expression_type, "grammar_construction"),
    }
    let mut labels: Vec<String> = Vec::new();
    if !p.label.as_str().is_empty() {
        labels.push(text_copy(&p.label));
    }
    if !p.category.as_str().is_empty() {
        let mut c = String::new();
        push_str(&mut c, "category:");
        push_str(&mut c, p.category.as_str());
        labels.push(c);
    }
    let mut provider = String::new();
    push_str(&mut provider, "builtin-expression-catalog");
    let mut catalog = String::new();
    push_str(&mut catalog, "catalog:expression_patterns.json");
    let mut description = String::new();
    push_str(&mut description, "description:");
    push_str(&mut description, p.description.as_str());
    let evidence = vec![catalog, description];
    let r = ExpressionOccurrence {
        id,
        rule_id: Some(text_copy(&p.id)),
        char_range: (ms[start].char_range.0, ms[end - 1].char_range.1),
        morpheme_indices: indices,
        provider,
        source_id: Some(text_copy(&p.id)),
        expression_type,
        labels,
        evidence,
    };
    assert(texts(r.labels@) =~= occurrence_at(*p, ms@, start as int).labels);
    assert(texts(r.evidence@) =~= occurrence_at(*p, ms@, start as int).evidence);
    r
}

/// The candidate expressions of a text's morphemes: every pattern in
/// catalog order, at every start where its atoms fit consecutive morphemes;
/// an error names the first pattern whose match reaches past the text.
pub fn collect(patterns: &[Pattern], text: &str, morphemes: &[CatalogMorpheme]) -> (r: Result<Vec<ExpressionOccurrence>, String>)
    ensures
        match catalog_scan(patterns@, morphemes@, text@.len()) {
            Ok(v) => r matches Ok(w) && w@.map_values(|o: ExpressionOccurrence| occurrence_view(o)) == v,
            Err(e) => r matches Err(m) && m@ == e,
        },
{
    let text_len = chars_of(text).len();
    let ghost ms = morphemes@;
    let mut out: Vec<ExpressionOccurrence> = Vec::new();
    assert(patterns@.take(0) =~= Seq::<Pattern>::empty());
    assert(out@.map_values(|o: ExpressionOccurrence| occurrence_view(o)) =~= Seq::<OccurrenceView>::empty());
    for q in 0..patterns.len()
        invariant
            text_len == text@.len(),
            ms == morphemes@,
            catalog_scan(patterns@.take(q as int), ms, text_len as nat) == Ok::<Seq<OccurrenceView>, Seq<char>>(
                out@.map_values(|o: ExpressionOccurrence| occurrence_view(o))),
    {
        assert(patterns@.take(q + 1).drop_last() =~= patterns@.take(q as int));
        assert(patterns@.take(q + 1).last() == patterns@[q as int]);
        let p = &patterns[q];
        let n = p.atoms.len();
        let ghost before = out@.map_values(|o: ExpressionOccurrence| occurrence_view(o));
        let count = if n == 0 || n > morphemes.len() { 0 } else { morphemes.len() - n + 1 };
        let mut start: usize = 0;
        while start < count
            invariant
                text_len == text@.len(),
                ms == morphemes@,
                n == p.atoms@.len(),
                q < patterns@.len(),
                *p == patterns@[q as int],
                catalog_scan(patterns@.take(q as int), ms, text_len as nat) == Ok::<Seq<OccurrenceView>, Seq<char>>(before),
                count == start_count(*p, ms),
                count == 0 || (0 < n <= ms.len() && count == ms.len() - n + 1),
                start <= count,
                pattern_scan(*p, ms, text_len as nat, start as int) matches Ok(w)
                    && out@.map_values(|o: ExpressionOccurrence| occurrence_view(o)) == before + w,
            decreases count - start,
        {
            assert(morphemes@.len() == morphemes.len());
            if fits(p, morphemes, start) {
                if morphemes[start + n - 1].char_range.1 > text_len {
                    let mut message = String::new();
                    push_str(&mut message, "表达 ");
                    push_str(&mut message, p.id.as_str());
                    push_str(&mut message, " 范围超出文本");
                    proof {
                        lemma_scan_error_stays(*p, ms, text_len as nat, start as int + 1, count as int);
                        lemma_catalog_error(patterns@, ms, text_len as nat, q as int + 1, message@);
                    }
                    return Err(message);
                }
                let ghost prev = out@.map_values(|o: ExpressionOccurrence| occurrence_view(o));
                let o = occurrence(p, morphemes, start);
                out.push(o);
                assert(out@.map_values(|o: ExpressionOccurrence| occurrence_view(o)) =~= prev.push(occurrence_view(o)));
                let ghost w = pattern_scan(*p, ms, text_len as nat, start as int)->Ok_0;
                assert(before + w.push(occurrence_view(o)) =~= (before + w).push(occurrence_view(o)));
            }
            start += 1;
        }
        let ghost w = pattern_scan(*p, ms, text_len as nat, count as int)->Ok_0;
        assert(catalog_scan(patterns@.take(q + 1), ms, text_len as nat) == Ok::<Seq<OccurrenceView>, Seq<char>>(before + w));
    }
    assert(patterns@.take(patterns.len() as int) =~= patterns@);
    Ok(out)
}

proof fn lemma_scan_error_stays(p: Pattern, ms: Seq<CatalogMorpheme>, text_len: nat, n: int, m: int)
    requires
        1 <= n <= m,
        pattern_scan(p, ms, text_len, n) is Err,
    ensures
        pattern_scan(p, ms, text_len, m) == pattern_scan(p, ms, text_len, n),
    decreases m - n,
{
    if m > n {
        lemma_scan_error_stays(p, ms, text_len, n, m - 1);
    }
}

proof fn lemma_catalog_error(ps: Seq<Pattern>, ms: Seq<CatalogMorpheme>, text_len: nat, q: int, e: Seq<char>)
    requires
        1 <= q <= ps.len(),
        catalog_scan(ps.take(q - 1), ms, text_len) is Ok,
        pattern_scan(ps[q - 1], ms, text_len, start_count(ps[q - 1], ms)) == Err::<Seq<OccurrenceView>, Seq<char>>(e),
    ensures
        catalog_scan(ps, ms, text_len) == Err::<Seq<OccurrenceView>, Seq<char>>(e),
    decreases ps.len(),
{
    if ps.len() == q {
        assert(ps.drop_last() =~= ps.take(q - 1));
    } else {
        assert(ps.drop_last().take(q - 1) =~= ps.take(q - 1));
        lemma_catalog_error(ps.drop_last(), ms, text_len, q, e);
    }
}

} // verus!
