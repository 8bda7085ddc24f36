//! Review sheets for the grammar analysis: the grammar occurrences and
//! functional residuals of a text grouped by line, each line scored by how
//! much in it needs a look, and the sheets cut into batches.
use vstd::prelude::*;
use crate::cli::{parse_usize, parsed_usize};
use crate::dictionary::lookup_state::{spec_trim, split_char, split_pieces, trim_chars};
use crate::grammar_catalog::GrammarConcept;
use crate::sort::{Ranked, sort_stable, stable_sort};
use crate::text::{chars_of, decimal, push_decimal, push_str, str_eq, string_from_chars};

verus! {

#[derive(Debug, Clone, Copy, PartialEq, Eq, Structural)]
pub enum OccurrenceStatus {
    Accepted,
    Pending,
    Rejected,
    Unknown,
}

/// A line of the text: its number from 1, its character range in the
/// prepared text, and its text without the line break.
pub struct ReviewLine {
    pub number: usize,
    pub start: usize,
    pub end: usize,
    pub text: String,
}

/// A grammar occurrence as the analysis reports it.
pub struct GrammarOccurrence {
    pub occurrence_id: String,
    pub concept_id: String,
    pub rule_id: String,
    pub status: OccurrenceStatus,
    pub anchor_range: (usize, usize),
    pub capture_surfaces: Vec<String>,
    pub show_badge: bool,
}

/// An occurrence on a review sheet.
pub struct ReviewOccurrence {
    pub occurrence_id: String,
    pub concept_id: String,
    pub rule_id: String,
    pub status: OccurrenceStatus,
    pub char_range: (usize, usize),
    pub actual_form: String,
    pub explanation_ready: bool,
}

/// What a review keeps: only occurrences of a family (a concept kind, semantic
/// domain or function tag) when one is given; accepted occurrences without a
/// badge only when atoms are asked for; morphemes only when asked for.
pub struct ReviewOptions {
    pub family: Option<String>,
    pub include_atoms: bool,
    pub include_morphemes: bool,
}

/// The review sheet of one line; residuals and morphemes are given by their
/// index in the input lists.
pub struct GrammarReviewItem {
    pub review_id: String,
    pub line_number: usize,
    pub text: String,
    pub issue_score: usize,
    pub accepted: Vec<ReviewOccurrence>,
    pub pending: Vec<ReviewOccurrence>,
    pub rejected: Vec<ReviewOccurrence>,
    pub residuals: Vec<usize>,
    pub morphemes: Vec<usize>,
}

/// The index of the first line whose range holds `pos`, from `i` on; -1 when none does.
pub open spec fn line_from(lines: Seq<ReviewLine>, pos: usize, i: int) -> int
    decreases lines.len() - i,
{
    if i < 0 || i >= lines.len() {
        -1
    } else if lines[i].start <= pos < lines[i].end {
        i
    } else {
        line_from(lines, pos, i + 1)
    }
}

pub open spec fn line_of(lines: Seq<ReviewLine>, pos: usize) -> int {
    line_from(lines, pos, 0)
}

/// The index of the first concept with this id; -1 when there is none.
pub open spec fn concept_from(catalog: Seq<GrammarConcept>, id: Seq<char>, i: int) -> int
    decreases catalog.len() - i,
{
    if i < 0 || i >= catalog.len() {
        -1
    } else if catalog[i].concept_id@ == id {
        i
    } else {
        concept_from(catalog, id, i + 1)
    }
}

pub open spec fn has_string(v: Seq<String>, s: Seq<char>) -> bool {
    exists|j: int| 0 <= j < v.len() && (#[trigger] v[j])@ == s
}

/// The concept belongs to the requested family, or no family is requested.
pub open spec fn in_family(catalog: Seq<GrammarConcept>, family: Option<String>, id: Seq<char>) -> bool {
    match family {
        None => true,
        Some(f) => {
            let k = concept_from(catalog, id, 0);
            k >= 0 && (catalog[k].kind@ == f@ || has_string(catalog[k].semantic_domains@, f@)
                || has_string(catalog[k].function_tags@, f@))
        },
    }
}

/// The concept exists and its default explanation is among `explanations`.
pub open spec fn explanation_ready(catalog: Seq<GrammarConcept>, explanations: Seq<String>, id: Seq<char>) -> bool {
    let k = concept_from(catalog, id, 0);
    k >= 0 && has_string(explanations, catalog[k].default_explanation_id@)
}

pub open spec fn kept(o: GrammarOccurrence, catalog: Seq<GrammarConcept>, options: ReviewOptions) -> bool {
    &&& !(o.status == OccurrenceStatus::Accepted && !o.show_badge && !options.include_atoms)
    &&& in_family(catalog, options.family, o.concept_id@)
}

/// The captured surfaces, joined.
pub open spec fn joined(parts: Seq<String>) -> Seq<char>
    decreases parts.len(),
{
    if parts.len() == 0 {
        seq![]
    } else {
        joined(parts.drop_last()) + parts.last()@
    }
}

/// `r` shows occurrence `o` on a sheet.
pub open spec fn shows(r: ReviewOccurrence, o: GrammarOccurrence, catalog: Seq<GrammarConcept>, explanations: Seq<String>) -> bool {
    &&& r.occurrence_id@ == o.occurrence_id@
    &&& r.concept_id@ == o.concept_id@
    &&& r.rule_id@ == o.rule_id@
    &&& r.status == o.status
    &&& r.char_range == o.anchor_range
    &&& r.actual_form@ == joined(o.capture_surfaces@)
    &&& r.explanation_ready == explanation_ready(catalog, explanations, o.concept_id@)
}

/// The indices, below `n`, of kept occurrences on line `l` whose status `pick` takes.
pub open spec fn line_occurrences(
    os: Seq<GrammarOccurrence>,
    lines: Seq<ReviewLine>,
    catalog: Seq<GrammarConcept>,
    options: ReviewOptions,
    l: int,
    pick: spec_fn(OccurrenceStatus) -> bool,
    n: int,
) -> Seq<int>
    decreases n,
{
    if n <= 0 {
        seq![]
    } else {
        let rest = line_occurrences(os, lines, catalog, options, l, pick, n - 1);
        let o = os[n - 1];
        if kept(o, catalog, options) && line_of(lines, o.anchor_range.0) == l && pick(o.status) {
            rest.push(n - 1)
        } else {
            rest
        }
    }
}

/// The indices, below `n`, of the positions that fall on line `l`.
pub open spec fn line_positions(starts: Seq<usize>, lines: Seq<ReviewLine>, l: int, n: int) -> Seq<usize>
    decreases n,
{
    if n <= 0 {
        seq![]
    } else {
        let rest = line_positions(starts, lines, l, n - 1);
        if line_of(lines, starts[n - 1]) == l {
            rest.push((n - 1) as usize)
        } else {
            rest
        }
    }
}

pub open spec fn any_status() -> spec_fn(OccurrenceStatus) -> bool {
    |s: OccurrenceStatus| true
}

pub open spec fn is_status(t: OccurrenceStatus) -> spec_fn(OccurrenceStatus) -> bool {
    |s: OccurrenceStatus| s == t
}

pub open spec fn needs_decision() -> spec_fn(OccurrenceStatus) -> bool {
    |s: OccurrenceStatus| s == OccurrenceStatus::Pending || s == OccurrenceStatus::Unknown
}

/// Pending occurrences count 3, rejected 1, unknown 4 and residuals 5.
pub open spec fn issue_score(
    os: Seq<GrammarOccurrence>,
    lines: Seq<ReviewLine>,
    catalog: Seq<GrammarConcept>,
    options: ReviewOptions,
    residual_starts: Seq<usize>,
    l: int,
) -> nat {
    let count = |t: OccurrenceStatus| line_occurrences(os, lines, catalog, options, l, is_status(t), os.len() as int).len();
    3 * count(OccurrenceStatus::Pending) + count(OccurrenceStatus::Rejected) + 4 * count(OccurrenceStatus::Unknown)
        + 5 * line_positions(residual_starts, lines, l, residual_starts.len() as int).len()
}

/// Line `l` has a sheet: a kept occurrence or a residual falls on it.
pub open spec fn has_sheet(
    os: Seq<GrammarOccurrence>,
    lines: Seq<ReviewLine>,
    catalog: Seq<GrammarConcept>,
    options: ReviewOptions,
    residual_starts: Seq<usize>,
    l: int,
) -> bool {
    line_occurrences(os, lines, catalog, options, l, any_status(), os.len() as int).len() > 0
        || line_positions(residual_starts, lines, l, residual_starts.len() as int).len() > 0
}

/// The lines below `n` that have a sheet, in order.
pub open spec fn sheet_lines(
    os: Seq<GrammarOccurrence>,
    lines: Seq<ReviewLine>,
    catalog: Seq<GrammarConcept>,
    options: ReviewOptions,
    residual_starts: Seq<usize>,
    n: int,
) -> Seq<int>
    decreases n,
{
    if n <= 0 {
        seq![]
    } else {
        let rest = sheet_lines(os, lines, catalog, options, residual_starts, n - 1);
        if has_sheet(os, lines, catalog, options, residual_starts, n - 1) {
            rest.push(n - 1)
        } else {
            rest
        }
    }
}

pub open spec fn shows_all(
    rs: Seq<ReviewOccurrence>,
    idx: Seq<int>,
    os: Seq<GrammarOccurrence>,
    catalog: Seq<GrammarConcept>,
    explanations: Seq<String>,
) -> bool {
    &&& rs.len() == idx.len()
    &&& forall|k: int| 0 <= k < rs.len() ==> shows(#[trigger] rs[k], os[idx[k]], catalog, explanations)
}

/// `item` is the sheet of line `l`.
pub open spec fn sheet_of(
    item: GrammarReviewItem,
    os: Seq<GrammarOccurrence>,
    lines: Seq<ReviewLine>,
    catalog: Seq<GrammarConcept>,
    explanations: Seq<String>,
    options: ReviewOptions,
    residual_starts: Seq<usize>,
    morpheme_starts: Seq<usize>,
    l: int,
) -> bool {
    let pick = |p: spec_fn(OccurrenceStatus) -> bool| line_occurrences(os, lines, catalog, options, l, p, os.len() as int);
    &&& item.line_number == lines[l].number
    &&& item.text@ == lines[l].text@
    &&& item.review_id@ == "line-"@ + decimal(lines[l].number as nat)
    &&& item.issue_score == issue_score(os, lines, catalog, options, residual_starts, l)
    &&& shows_all(item.accepted@, pick(is_status(OccurrenceStatus::Accepted)), os, catalog, explanations)
    &&& shows_all(item.pending@, pick(needs_decision()), os, catalog, explanations)
    &&& shows_all(item.rejected@, pick(is_status(OccurrenceStatus::Rejected)), os, catalog, explanations)
    &&& item.residuals@ == line_positions(residual_starts, lines, l, residual_starts.len() as int)
    &&& item.morphemes@ == if options.include_morphemes {
        line_positions(morpheme_starts, lines, l, morpheme_starts.len() as int)
    } else {
        seq![]
    }
}

fn find_line(lines: &[ReviewLine], pos: usize) -> (r: Option<usize>)
    ensures
        match r {
            Some(i) => i == line_of(lines@, pos) && i < lines@.len(),
            None => line_of(lines@, pos) == -1,
        },
{
    let mut i: usize = 0;
    while i < lines.len()
        invariant
            i <= lines@.len(),
            line_of(lines@, pos) == line_from(lines@, pos, i as int),
        decreases lines@.len() - i,
    {
        if lines[i].start <= pos && pos < lines[i].end {
            return Some(i);
        }
        i += 1;
    }
    None
}

fn find_concept(catalog: &[GrammarConcept], id: &str) -> (r: Option<usize>)
    ensures
        match r {
            Some(i) => i == concept_from(catalog@, id@, 0) && i < catalog@.len(),
            None => concept_from(catalog@, id@, 0) == -1,
        },
{
    let mut i: usize = 0;
    while i < catalog.len()
        invariant
            i <= catalog@.len(),
            concept_from(catalog@, id@, 0) == concept_from(catalog@, id@, i as int),
        decreases catalog@.len() - i,
    {
        if str_eq(catalog[i].concept_id.as_str(), id) {
            return Some(i);
        }
        i += 1;
    }
    None
}

fn has_str(v: &[String], s: &str) -> (b: bool)
    ensures
        b == has_string(v@, s@),
{
    for j in 0..v.len()
        invariant
            forall|k: int| 0 <= k < j ==> (#[trigger] v@[k])@ != s@,
    {
        if str_eq(v[j].as_str(), s) {
            assert(v@[j as int]@ == s@);
            return true;
        }
    }
    false
}

fn is_kept(o: &GrammarOccurrence, catalog: &[GrammarConcept], options: &ReviewOptions) -> (b: bool)
    ensures
        b == kept(*o, catalog@, *options),
{
    if o.status == OccurrenceStatus::Accepted && !o.show_badge && !options.include_atoms {
        return false;
    }
    match &options.family {
        None => true,
        Some(f) => match find_concept(catalog, o.concept_id.as_str()) {
            None => false,
            Some(k) => {
                let c = &catalog[k];
                str_eq(c.kind.as_str(), f.as_str()) || has_str(c.semantic_domains.as_slice(), f.as_str())
                    || has_str(c.function_tags.as_slice(), f.as_str())
            },
        },
    }
}

fn join_surfaces(parts: &Vec<String>) -> (r: String)
    ensures
        r@ == joined(parts@),
{
    let mut r = String::new();
    for i in 0..parts.len()
        invariant
            r@ == joined(parts@.take(i as int)),
    {
        assert(parts@.take(i + 1).drop_last() =~= parts@.take(i as int));
        push_str(&mut r, parts[i].as_str());
    }
    assert(parts@.take(parts.len() as int) =~= parts@);
    r
}

fn review_occurrence(o: &GrammarOccurrence, catalog: &[GrammarConcept], explanations: &[String]) -> (r: ReviewOccurrence)
    ensures
        shows(r, *o, catalog@, explanations@),
{
    let ready = match find_concept(catalog, o.concept_id.as_str()) {
        None => false,
        Some(k) => has_str(explanations, catalog[k].default_explanation_id.as_str()),
    };
    ReviewOccurrence {
        occurrence_id: o.occurrence_id.clone(),
        concept_id: o.concept_id.clone(),
        rule_id: o.rule_id.clone(),
        status: o.status,
        char_range: o.anchor_range,
        actual_form: join_surfaces(&o.capture_surfaces),
        explanation_ready: ready,
    }
}

/// The line each position falls on.
fn lines_of(starts: &[usize], lines: &[ReviewLine]) -> (r: Vec<Option<usize>>)
    ensures
        r@.len() == starts@.len(),
        forall|j: int| 0 <= j < starts@.len() ==> match #[trigger] r@[j] {
            Some(i) => i == line_of(lines@, starts@[j]),
            None => line_of(lines@, starts@[j]) == -1,
        },
{
    let mut r: Vec<Option<usize>> = Vec::new();
    for j in 0..starts.len()
        invariant
            r@.len() == j,
            forall|k: int| 0 <= k < j ==> match #[trigger] r@[k] {
                Some(i) => i == line_of(lines@, starts@[k]),
                None => line_of(lines@, starts@[k]) == -1,
            },
    {
        r.push(find_line(lines, starts[j]));
    }
    r
}

/// The positions that fall on line `l`, by index.
fn positions_on(placed: &Vec<Option<usize>>, l: usize, Ghost(starts): Ghost<Seq<usize>>, Ghost(lines): Ghost<Seq<ReviewLine>>) -> (r: Vec<usize>)
    requires
        placed@.len() == starts.len(),
        forall|j: int| 0 <= j < starts.len() ==> match #[trigger] placed@[j] {
            Some(i) => i == line_of(lines, starts[j]),
            None => line_of(lines, starts[j]) == -1,
        },
    ensures
        r@ == line_positions(starts, lines, l as int, starts.len() as int),
{
    let mut r: Vec<usize> = Vec::new();
    for j in 0..placed.len()
        invariant
            placed@.len() == starts.len(),
            forall|k: int| 0 <= k < starts.len() ==> match #[trigger] placed@[k] {
                Some(i) => i == line_of(lines, starts[k]),
                None => line_of(lines, starts[k]) == -1,
            },
            r@ == line_positions(starts, lines, l as int, j as int),
    {
        let hit = match placed[j] {
            Some(i) => i == l,
            None => false,
        };
        if hit {
            r.push(j);
        }
    }
    r
}

/// The review sheets of a text, one per line that has a kept occurrence or a
/// residual, in line order. `residual_starts` and `morpheme_starts` are where
/// each functional residual and each morpheme begins; `explanations` are the
/// ids of the catalog's explanations.
pub fn review_sheets(
    occurrences: &[GrammarOccurrence],
    residual_starts: &[usize],
    morpheme_starts: &[usize],
    lines: &[ReviewLine],
    catalog: &[GrammarConcept],
    explanations: &[String],
    options: &ReviewOptions,
) -> (r: Vec<GrammarReviewItem>)
    requires
        5 * (occurrences@.len() + residual_starts@.len()) <= usize::MAX,
    ensures
        ({
            let sl = sheet_lines(occurrences@, lines@, catalog@, *options, residual_starts@, lines@.len() as int);
            &&& r@.len() == sl.len()
            &&& forall|k: int| 0 <= k < r@.len() ==> sheet_of(#[trigger] r@[k], occurrences@, lines@, catalog@, explanations@,
                *options, residual_starts@, morpheme_starts@, sl[k])
        }),
{
    let ghost os = occurrences@;
    let ghost ls = lines@;
    let ghost cs = catalog@;
    let ghost opts = *options;
    let ghost rs = residual_starts@;
    let ghost ms = morpheme_starts@;
    let mut placed: Vec<Option<usize>> = Vec::new();
    for j in 0..occurrences.len()
        invariant
            os == occurrences@, ls == lines@, cs == catalog@, opts == *options,
            placed@.len() == j,
            forall|k: int| 0 <= k < j ==> match #[trigger] placed@[k] {
                Some(i) => kept(os[k], cs, opts) && i == line_of(ls, os[k].anchor_range.0),
                None => !kept(os[k], cs, opts) || line_of(ls, os[k].anchor_range.0) == -1,
            },
    {
        let keep = is_kept(&occurrences[j], catalog, options);
        assert(keep == kept(os[j as int], cs, opts));
        let at = if keep {
            find_line(lines, occurrences[j].anchor_range.0)
        } else {
            None
        };
        let ghost prev = placed@;
        placed.push(at);
        assert forall|k: int| 0 <= k < j + 1 implies match #[trigger] placed@[k] {
            Some(i) => kept(os[k], cs, opts) && i == line_of(ls, os[k].anchor_range.0),
            None => !kept(os[k], cs, opts) || line_of(ls, os[k].anchor_range.0) == -1,
        } by {
            if k < j {
                assert(placed@[k] == prev[k]);
            } else {
                assert(placed@[k] == at);
            }
        }
    }
    let residual_lines = lines_of(residual_starts, lines);
    let morpheme_lines = lines_of(morpheme_starts, lines);
    let mut items: Vec<GrammarReviewItem> = Vec::new();
    for l in 0..lines.len()
        invariant
            os == occurrences@, ls == lines@, cs == catalog@, opts == *options, rs == residual_starts@, ms == morpheme_starts@,
            5 * (os.len() + rs.len()) <= usize::MAX,
            placed@.len() == os.len(),
            forall|k: int| 0 <= k < os.len() ==> match #[trigger] placed@[k] {
                Some(i) => kept(os[k], cs, opts) && i == line_of(ls, os[k].anchor_range.0),
                None => !kept(os[k], cs, opts) || line_of(ls, os[k].anchor_range.0) == -1,
            },
            residual_lines@.len() == rs.len(),
            forall|j: int| 0 <= j < rs.len() ==> match #[trigger] residual_lines@[j] {
                Some(i) => i == line_of(ls, rs[j]),
                None => line_of(ls, rs[j]) == -1,
            },
            morpheme_lines@.len() == ms.len(),
            forall|j: int| 0 <= j < ms.len() ==> match #[trigger] morpheme_lines@[j] {
                Some(i) => i == line_of(ls, ms[j]),
                None => line_of(ls, ms[j]) == -1,
            },
            items@.len() == sheet_lines(os, ls, cs, opts, rs, l as int).len(),
            forall|k: int| 0 <= k < items@.len() ==> sheet_of(#[trigger] items@[k], os, ls, cs, explanations@, opts, rs, ms,
                sheet_lines(os, ls, cs, opts, rs, l as int)[k]),
    {
        let ghost lo = |p: spec_fn(OccurrenceStatus) -> bool, n: int| line_occurrences(os, ls, cs, opts, l as int, p, n);
        let mut accepted: Vec<ReviewOccurrence> = Vec::new();
        let mut pending: Vec<ReviewOccurrence> = Vec::new();
        let mut rejected: Vec<ReviewOccurrence> = Vec::new();
        let mut any = false;
        let mut score: usize = 0;
        for j in 0..occurrences.len()
            invariant
                os == occurrences@, ls == lines@, cs == catalog@, opts == *options,
                5 * (os.len() + rs.len()) <= usize::MAX,
                placed@.len() == os.len(),
                forall|k: int| 0 <= k < os.len() ==> match #[trigger] placed@[k] {
                    Some(i) => kept(os[k], cs, opts) && i == line_of(ls, os[k].anchor_range.0),
                    None => !kept(os[k], cs, opts) || line_of(ls, os[k].anchor_range.0) == -1,
                },
                lo == (|p: spec_fn(OccurrenceStatus) -> bool, n: int| line_occurrences(os, ls, cs, opts, l as int, p, n)),
                shows_all(accepted@, lo(is_status(OccurrenceStatus::Accepted), j as int), os, cs, explanations@),
                shows_all(pending@, lo(needs_decision(), j as int), os, cs, explanations@),
                shows_all(rejected@, lo(is_status(OccurrenceStatus::Rejected), j as int), os, cs, explanations@),
                any == (lo(any_status(), j as int).len() > 0),
                score == 3 * lo(is_status(OccurrenceStatus::Pending), j as int).len() + lo(is_status(OccurrenceStatus::Rejected), j as int).len()
                    + 4 * lo(is_status(OccurrenceStatus::Unknown), j as int).len(),
                score <= 5 * j,
        {
            let on_line = match placed[j] {
                Some(i) => i == l,
                None => false,
            };
            proof {
                assert(on_line == (kept(os[j as int], cs, opts) && line_of(ls, os[j as int].anchor_range.0) == l as int));
            }
            if on_line {
                let o = &occurrences[j];
                let shown = review_occurrence(o, catalog, explanations);
                any = true;
                match o.status {
                    OccurrenceStatus::Accepted => {
                        accepted.push(shown);
                    },
                    OccurrenceStatus::Pending => {
                        score = score + 3;
                        pending.push(shown);
                    },
                    OccurrenceStatus::Rejected => {
                        score = score + 1;
                        rejected.push(shown);
                    },
                    OccurrenceStatus::Unknown => {
                        score = score + 4;
                        pending.push(shown);
                    },
                }
            }
        }
        let residuals = positions_on(&residual_lines, l, Ghost(rs), Ghost(ls));
        assert(residuals@.len() <= rs.len()) by {
            lemma_positions_len(rs, ls, l as int, rs.len() as int);
        }
        assert(score + 5 * residuals@.len() <= usize::MAX) by (nonlinear_arith)
            requires score <= 5 * os.len(), residuals@.len() <= rs.len(), 5 * (os.len() + rs.len()) <= usize::MAX;
        score = score + 5 * residuals.len();
        if any || residuals.len() > 0 {
            let morphemes = if options.include_morphemes {
                positions_on(&morpheme_lines, l, Ghost(ms), Ghost(ls))
            } else {
                Vec::new()
            };
            let mut review_id = String::new();
            push_str(&mut review_id, "line-");
            push_decimal(&mut review_id, lines[l].number as u64);
            let item = GrammarReviewItem {
                review_id,
                line_number: lines[l].number,
                text: lines[l].text.clone(),
                issue_score: score,
                accepted,
                pending,
                rejected,
                residuals,
                morphemes,
            };
            proof {
                assert(sheet_of(item, os, ls, cs, explanations@, opts, rs, ms, l as int));
            }
            items.push(item);
        }
    }
    items
}

proof fn lemma_positions_len(starts: Seq<usize>, lines: Seq<ReviewLine>, l: int, n: int)
    requires
        0 <= n <= starts.len(),
    ensures
        line_positions(starts, lines, l, n).len() <= n,
    decreases n,
{
    if n > 0 {
        lemma_positions_len(starts, lines, l, n - 1);
    }
}

/// Sheets with more issues first, then by line.
impl Ranked for GrammarReviewItem {
    open spec fn rank(&self) -> (int, int) {
        (-(self.issue_score as int), self.line_number as int)
    }

    fn rank_of(&self) -> (r: (i128, i128)) {
        (-(self.issue_score as i128), self.line_number as i128)
    }
}

/// A batch of review sheets, numbered from 1.
pub struct GrammarReviewBatch {
    pub batch: usize,
    pub batch_size: usize,
    pub total_items: usize,
    pub total_batches: usize,
    pub family: Option<String>,
    pub items: Vec<GrammarReviewItem>,
}

/// The line numbers of a comma-separated list, each item trimmed; the first
/// item that is not a number (an empty one too) is the error, untrimmed.
pub open spec fn line_selection(parts: Seq<Seq<char>>) -> Result<Seq<usize>, Seq<char>>
    decreases parts.len(),
{
    if parts.len() == 0 {
        Ok(seq![])
    } else {
        match line_selection(parts.drop_last()) {
            Err(e) => Err(e),
            Ok(v) => match parsed_usize(spec_trim(parts.last())) {
                Some(n) => Ok(v.push(n)),
                None => Err(parts.last()),
            },
        }
    }
}

/// The sheets whose line is selected, in order.
pub open spec fn selected_sheets(items: Seq<GrammarReviewItem>, selected: Seq<usize>) -> Seq<GrammarReviewItem>
    decreases items.len(),
{
    if items.len() == 0 {
        seq![]
    } else {
        let rest = selected_sheets(items.drop_last(), selected);
        if selected.contains(items.last().line_number) {
            rest.push(items.last())
        } else {
            rest
        }
    }
}

/// The sheets a line list keeps, or the error that names its bad item.
pub open spec fn filtered_sheets(items: Seq<GrammarReviewItem>, lines: Option<Seq<char>>) -> Result<Seq<GrammarReviewItem>, Seq<char>> {
    match lines {
        None => Ok(items),
        Some(v) => match line_selection(split_pieces(v, ',')) {
            Err(item) => Err("--lines 含非法行号："@ + item),
            Ok(selected) => Ok(selected_sheets(items, selected)),
        },
    }
}

/// The number of batches: at least one.
pub open spec fn batch_count(total: int, size: int) -> int {
    let c = (total + size - 1) / size;
    if c >= 1 { c } else { 1 }
}

/// Where batch `batch` (from 1) begins and ends among `total` sheets.
pub open spec fn batch_bounds(batch: int, size: int, total: int) -> (int, int) {
    let s = (batch - 1) * size;
    let start = if s < total { s } else { total };
    (start, if start + size < total { start + size } else { total })
}

fn selection_of(value: &str) -> (r: Result<Vec<usize>, String>)
    ensures
        match line_selection(split_pieces(value@, ',')) {
            Ok(v) => r matches Ok(w) && w@ == v,
            Err(item) => r matches Err(e) && e@ == item,
        },
{
    let chars = chars_of(value);
    let parts = split_char(&chars, ',');
    let ghost pv = parts@.map_values(|p: Vec<char>| p@);
    assert(pv =~= split_pieces(value@, ','));
    let mut out: Vec<usize> = Vec::new();
    let mut i: usize = 0;
    while i < parts.len()
        invariant
            i <= parts.len(),
            pv == parts@.map_values(|p: Vec<char>| p@),
            pv == split_pieces(value@, ','),
            line_selection(pv.take(i as int)) == Ok::<Seq<usize>, Seq<char>>(out@),
        decreases parts.len() - i,
    {
        assert(pv.take(i + 1).drop_last() == pv.take(i as int));
        assert(pv.take(i + 1).last() == parts@[i as int]@);
        let trimmed = trim_chars(parts[i].as_slice());
        match parse_usize(trimmed.as_slice()) {
            Some(n) => {
                out.push(n);
            },
            None => {
                proof {
                    lemma_selection_error(pv, i as int + 1);
                }
                return Err(string_from_chars(parts[i].as_slice()));
            },
        }
        i += 1;
    }
    assert(pv.take(parts.len() as int) == pv);
    Ok(out)
}

proof fn lemma_selection_error(parts: Seq<Seq<char>>, n: int)
    requires
        1 <= n <= parts.len(),
        line_selection(parts.take(n - 1)) is Ok,
        parsed_usize(spec_trim(parts[n - 1])) is None,
    ensures
        line_selection(parts) == Err::<Seq<usize>, Seq<char>>(parts[n - 1]),
    decreases parts.len(),
{
    if parts.len() == n {
        assert(parts.drop_last() =~= parts.take(n - 1));
    } else {
        assert(parts.drop_last().take(n - 1) =~= parts.take(n - 1));
        lemma_selection_error(parts.drop_last(), n);
    }
}

fn contains_usize(v: &Vec<usize>, x: usize) -> (b: bool)
    ensures
        b == v@.contains(x),
{
    for j in 0..v.len()
        invariant
            forall|k: int| 0 <= k < j ==> v@[k] != x,
    {
        if v[j] == x {
            return true;
        }
    }
    false
}

/// Cuts the review sheets into a batch: keeps the sheets of the `lines` list
/// when one is given, puts the sheets with more issues first when asked, and
/// takes batch `batch` (at least 1) of `batch_size` sheets, which must be
/// between 20 and 50.
pub fn review_batch(
    items: Vec<GrammarReviewItem>,
    lines: Option<&str>,
    issues_first: bool,
    batch_size: usize,
    batch: usize,
    family: Option<String>,
) -> (r: Result<GrammarReviewBatch, String>)
    ensures
        ({
            let lv = match lines { Some(v) => Some(v@), None => None };
            match filtered_sheets(items@, lv) {
                Err(e) => r matches Err(m) && m@ == e,
                Ok(kept) => {
                    let ordered = if issues_first { stable_sort(kept) } else { kept };
                    let b = if batch >= 1 { batch as int } else { 1 };
                    let (start, end) = batch_bounds(b, batch_size as int, ordered.len() as int);
                    if !(20 <= batch_size <= 50) {
                        r matches Err(m) && m@ == "--batch-size 必须在 20 到 50 之间"@
                    } else {
                        r matches Ok(out) && {
                            &&& out.batch == b
                            &&& out.batch_size == batch_size
                            &&& out.total_items == ordered.len()
                            &&& out.total_batches == batch_count(ordered.len() as int, batch_size as int)
                            &&& out.family == family
                            &&& out.items@ == ordered.subrange(start, end)
                        }
                    }
                },
            }
        }),
{
    let mut items = items;
    let ghost all = items@;
    let mut kept: Vec<GrammarReviewItem> = Vec::new();
    match lines {
        None => {
            kept = items;
        },
        Some(v) => {
            let selected = match selection_of(v) {
                Ok(s) => s,
                Err(item) => {
                    let mut message = String::new();
                    push_str(&mut message, "--lines 含非法行号：");
                    push_str(&mut message, item.as_str());
                    return Err(message);
                },
            };
            let n = items.len();
            let mut k: usize = 0;
            while k < n
                invariant
                    k <= n == all.len(),
                    items@ == all.skip(k as int),
                    kept@ == selected_sheets(all.take(k as int), selected@),
                decreases n - k,
            {
                assert(all.take(k + 1).drop_last() =~= all.take(k as int));
                assert(items@[0] == all[k as int]);
                let item = items.remove(0);
                assert(items@ =~= all.skip(k + 1));
                if contains_usize(&selected, item.line_number) {
                    kept.push(item);
                }
                k += 1;
            }
            assert(all.take(n as int) =~= all);
        },
    }
    let ghost kv = kept@;
    let ordered = if issues_first { sort_stable(kept) } else { kept };
    if !(20 <= batch_size && batch_size <= 50) {
        let mut message = String::new();
        push_str(&mut message, "--batch-size 必须在 20 到 50 之间");
        return Err(message);
    }
    let b = if batch >= 1 { batch } else { 1 };
    let total = ordered.len();
    let q = total / batch_size;
    assert(q < total || total == 0) by (nonlinear_arith)
        requires 20 <= batch_size, q == total / batch_size;
    let count = q + if total % batch_size != 0 { 1 } else { 0 };
    assert(count == (total + batch_size - 1) / batch_size as int) by (nonlinear_arith)
        requires 20 <= batch_size <= 50, q == total / batch_size, count == q + if total % batch_size != 0 { 1int } else { 0int };
    let total_batches = if count >= 1 { count } else { 1 };
    let start = match (b - 1).checked_mul(batch_size) {
        Some(s) => if s < total { s } else { total },
        None => total,
    };
    let end = if total - start > batch_size { start + batch_size } else { total };
    let ghost ov = ordered@;
    let mut ordered = ordered;
    let mut chosen: Vec<GrammarReviewItem> = Vec::new();
    let mut k: usize = 0;
    while k < total
        invariant
            k <= total == ov.len(),
            start <= end <= total,
            ordered@ == ov.skip(k as int),
            chosen@ == ov.subrange(if k < start { k as int } else { start as int }, if k < start { k as int } else if k < end { k as int } else { end as int }),
        decreases total - k,
    {
        assert(ordered@[0] == ov[k as int]);
        let item = ordered.remove(0);
        assert(ordered@ =~= ov.skip(k + 1));
        if start <= k && k < end {
            chosen.push(item);
        }
        k += 1;
        assert(chosen@ =~= ov.subrange(if k < start { k as int } else { start as int }, if k < start { k as int } else if k < end { k as int } else { end as int }));
    }
    Ok(GrammarReviewBatch { batch: b, batch_size, total_items: total, total_batches, family, items: chosen })
}

/// `s` without the line-break characters at its end.
pub open spec fn without_breaks(s: Seq<char>) -> Seq<char>
    decreases s.len(),
{
    if s.len() > 0 && (s.last() == '\n' || s.last() == '\r') {
        without_breaks(s.drop_last())
    } else {
        s
    }
}

/// The sum of the first `n` prepared lengths.
pub open spec fn length_sum(pieces: Seq<(String, usize)>, n: int) -> int
    decreases n,
{
    if n <= 0 {
        0
    } else {
        length_sum(pieces, n - 1) + pieces[n - 1].1
    }
}

fn without_breaks_exec(s: &str) -> (r: String)
    ensures
        r@ == without_breaks(s@),
{
    let chars = chars_of(s);
    let mut n = chars.len();
    assert(chars@.take(n as int) =~= chars@);
    while n > 0 && (chars[n - 1] == '\n' || chars[n - 1] == '\r')
        invariant
            n <= chars@.len(),
            without_breaks(s@) == without_breaks(chars@.take(n as int)),
            chars@ == s@,
        decreases n,
    {
        assert(chars@.take(n as int).drop_last() =~= chars@.take(n - 1));
        n -= 1;
    }
    crate::text::string_from_range(chars.as_slice(), 0, n)
}

/// The lines of a text from its pieces, each a line with its break and the
/// length of its prepared text: numbered from 1, laid end to end. A text
/// with no pieces but some characters is one line.
pub fn review_lines(pieces: &[(String, usize)], text: &str) -> (r: Vec<ReviewLine>)
    requires
        length_sum(pieces@, pieces@.len() as int) <= usize::MAX,
    ensures
        pieces@.len() == 0 && text@.len() > 0 ==> r@.len() == 1 && r@[0].number == 1 && r@[0].start == 0
            && r@[0].end == text@.len() && r@[0].text@ == text@,
        pieces@.len() > 0 || text@.len() == 0 ==> {
            &&& r@.len() == pieces@.len()
            &&& forall|k: int| 0 <= k < r@.len() ==> {
                &&& (#[trigger] r@[k]).number == k + 1
                &&& r@[k].start == length_sum(pieces@, k)
                &&& r@[k].end == length_sum(pieces@, k + 1)
                &&& r@[k].text@ == without_breaks(pieces@[k].0@)
            }
        },
{
    let mut r: Vec<ReviewLine> = Vec::new();
    let mut offset: usize = 0;
    for i in 0..pieces.len()
        invariant
            length_sum(pieces@, pieces@.len() as int) <= usize::MAX,
            offset == length_sum(pieces@, i as int),
            r@.len() == i,
            forall|k: int| 0 <= k < i ==> {
                &&& (#[trigger] r@[k]).number == k + 1
                &&& r@[k].start == length_sum(pieces@, k)
                &&& r@[k].end == length_sum(pieces@, k + 1)
                &&& r@[k].text@ == without_breaks(pieces@[k].0@)
            },
    {
        proof {
            lemma_length_sum_grows(pieces@, i + 1, pieces@.len() as int);
        }
        let end = offset + pieces[i].1;
        r.push(ReviewLine { number: i + 1, start: offset, end, text: without_breaks_exec(pieces[i].0.as_str()) });
        offset = end;
    }
    let chars = chars_of(text);
    if pieces.len() == 0 && chars.len() > 0 {
        r.push(ReviewLine { number: 1, start: 0, end: chars.len(), text: string_from_chars(chars.as_slice()) });
    }
    r
}

proof fn lemma_length_sum_grows(pieces: Seq<(String, usize)>, a: int, b: int)
    requires
        0 <= a <= b <= pieces.len(),
    ensures
        length_sum(pieces, a) <= length_sum(pieces, b),
    decreases b - a,
{
    if a < b {
        lemma_length_sum_grows(pieces, a, b - 1);
    }
}

} // verus!
