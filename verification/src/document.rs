//! The analysed document as a revisioned session: progressive batches over
//! line chunks, stable token identities and the patches sent to the reader.
use vstd::prelude::*;
use crate::sort::{Ranked, rank_lt, stable_sort, sort_stable, sort_by, sorted_by, rank_sorted, lemma_sort_props, lemma_sort_map};
use crate::text::{push_char, push_decimal, decimal, chars_of, string_from_chars};
use crate::token::{AnnotatedToken, Bunsetsu, Morpheme, TokenExpression, TokenView, MorphemeView, ExpressionView, morphemes_view, expressions_view, tokens_view, strings_view, copy_tokens, copy_strings};

verus! {

pub const DOCUMENT_SESSION_SCHEMA_VERSION: u32 = 1;

pub const PIPELINE_ARTIFACT_VERSION: u32 = 4;

#[derive(Debug, Clone, Copy, PartialEq, Eq, Structural)]
pub struct PipelineFingerprint {
    pub session_schema_version: u32,
    pub pipeline_artifact_version: u32,
}

impl Default for PipelineFingerprint {
    fn default() -> (r: Self)
        ensures
            r.session_schema_version == DOCUMENT_SESSION_SCHEMA_VERSION,
            r.pipeline_artifact_version == PIPELINE_ARTIFACT_VERSION,
    {
        PipelineFingerprint {
            session_schema_version: DOCUMENT_SESSION_SCHEMA_VERSION,
            pipeline_artifact_version: PIPELINE_ARTIFACT_VERSION,
        }
    }
}

#[derive(Debug, Clone, Copy, PartialEq, Eq, Structural)]
pub enum PatchKind {
    FullReplace,
    RangeReplace,
    TokenUpdate,
}

#[derive(Debug, Clone, Copy, PartialEq, Eq, Structural)]
pub enum AnalysisStage {
    Morpheme,
    WordFormation,
    DictionaryLexical,
    Bunsetsu,
    Grammar,
    Profile,
    Expression,
    Presentation,
}

#[derive(Debug)]
pub struct InvalidationReport {
    pub reason: String,
    pub stages: Vec<AnalysisStage>,
    pub stage_ranges: Vec<StageInvalidation>,
    pub char_ranges: Vec<(usize, usize)>,
    pub recomputed_characters: usize,
    pub total_characters: usize,
}

#[derive(Debug)]
pub struct StageInvalidation {
    pub stage: AnalysisStage,
    pub char_ranges: Vec<(usize, usize)>,
}

/// The canonical chain of stages that an invalidation starting at `earliest`
/// reaches: the structural stages run in their execution order, while a
/// profile change reaches presentation without re-running expression matching.
pub open spec fn downstream_stages(earliest: AnalysisStage) -> Seq<AnalysisStage> {
    match earliest {
        AnalysisStage::Morpheme => seq![
            AnalysisStage::Morpheme,
            AnalysisStage::WordFormation,
            AnalysisStage::DictionaryLexical,
            AnalysisStage::Bunsetsu,
            AnalysisStage::Grammar,
            AnalysisStage::Profile,
            AnalysisStage::Expression,
            AnalysisStage::Presentation,
        ],
        AnalysisStage::WordFormation => seq![
            AnalysisStage::WordFormation,
            AnalysisStage::DictionaryLexical,
            AnalysisStage::Bunsetsu,
            AnalysisStage::Grammar,
            AnalysisStage::Profile,
            AnalysisStage::Expression,
            AnalysisStage::Presentation,
        ],
        AnalysisStage::DictionaryLexical => seq![
            AnalysisStage::DictionaryLexical,
            AnalysisStage::Bunsetsu,
            AnalysisStage::Grammar,
            AnalysisStage::Profile,
            AnalysisStage::Expression,
            AnalysisStage::Presentation,
        ],
        AnalysisStage::Bunsetsu => seq![
            AnalysisStage::Bunsetsu,
            AnalysisStage::Grammar,
            AnalysisStage::Profile,
            AnalysisStage::Expression,
            AnalysisStage::Presentation,
        ],
        AnalysisStage::Grammar => seq![
            AnalysisStage::Grammar,
            AnalysisStage::Profile,
            AnalysisStage::Expression,
            AnalysisStage::Presentation,
        ],
        AnalysisStage::Profile => seq![AnalysisStage::Profile, AnalysisStage::Presentation],
        AnalysisStage::Expression => seq![AnalysisStage::Expression, AnalysisStage::Presentation],
        AnalysisStage::Presentation => seq![AnalysisStage::Presentation],
    }
}

fn downstream_vec(earliest: AnalysisStage) -> (v: Vec<AnalysisStage>)
    ensures
        v@ == downstream_stages(earliest),
{
    let v = match earliest {
        AnalysisStage::Morpheme => vec![
            AnalysisStage::Morpheme,
            AnalysisStage::WordFormation,
            AnalysisStage::DictionaryLexical,
            AnalysisStage::Bunsetsu,
            AnalysisStage::Grammar,
            AnalysisStage::Profile,
            AnalysisStage::Expression,
            AnalysisStage::Presentation,
        ],
        AnalysisStage::WordFormation => vec![
            AnalysisStage::WordFormation,
            AnalysisStage::DictionaryLexical,
            AnalysisStage::Bunsetsu,
            AnalysisStage::Grammar,
            AnalysisStage::Profile,
            AnalysisStage::Expression,
            AnalysisStage::Presentation,
        ],
        AnalysisStage::DictionaryLexical => vec![
            AnalysisStage::DictionaryLexical,
            AnalysisStage::Bunsetsu,
            AnalysisStage::Grammar,
            AnalysisStage::Profile,
            AnalysisStage::Expression,
            AnalysisStage::Presentation,
        ],
        AnalysisStage::Bunsetsu => vec![
            AnalysisStage::Bunsetsu,
            AnalysisStage::Grammar,
            AnalysisStage::Profile,
            AnalysisStage::Expression,
            AnalysisStage::Presentation,
        ],
        AnalysisStage::Grammar => vec![
            AnalysisStage::Grammar,
            AnalysisStage::Profile,
            AnalysisStage::Expression,
            AnalysisStage::Presentation,
        ],
        AnalysisStage::Profile => vec![AnalysisStage::Profile, AnalysisStage::Presentation],
        AnalysisStage::Expression => vec![AnalysisStage::Expression, AnalysisStage::Presentation],
        AnalysisStage::Presentation => vec![AnalysisStage::Presentation],
    };
    assert(v@ =~= downstream_stages(earliest));
    v
}

fn copy_ranges(v: &Vec<(usize, usize)>) -> (r: Vec<(usize, usize)>)
    ensures
        r@ == v@,
{
    let mut r: Vec<(usize, usize)> = Vec::new();
    for i in 0..v.len()
        invariant
            r@ == v@.take(i as int),
    {
        r.push(v[i]);
        assert(v@.take(i + 1) == v@.take(i as int).push(v@[i as int]));
    }
    assert(v@.take(v.len() as int) == v@);
    r
}

/// The invalidation of every stage downstream of `earliest`, each over the same ranges.
pub fn propagate_stage_invalidation(
    earliest: AnalysisStage,
    char_ranges: Vec<(usize, usize)>,
) -> (r: Vec<StageInvalidation>)
    ensures
        r@.len() == downstream_stages(earliest).len(),
        forall|i: int|
            0 <= i < r@.len() ==> (#[trigger] r@[i]).stage == downstream_stages(earliest)[i]
                && r@[i].char_ranges@ == char_ranges@,
{
    let stages = downstream_vec(earliest);
    let mut r: Vec<StageInvalidation> = Vec::new();
    for i in 0..stages.len()
        invariant
            stages@ == downstream_stages(earliest),
            r@.len() == i,
            forall|k: int|
                0 <= k < i ==> (#[trigger] r@[k]).stage == stages@[k] && r@[k].char_ranges@
                    == char_ranges@,
    {
        r.push(StageInvalidation { stage: stages[i], char_ranges: copy_ranges(&char_ranges) });
    }
    r
}

/// Whether two half-open ranges share a position.
pub open spec fn spec_ranges_intersect(left: (usize, usize), right: (usize, usize)) -> bool {
    left.0 < right.1 && right.0 < left.1
}

pub fn ranges_intersect(left: (usize, usize), right: (usize, usize)) -> (b: bool)
    ensures
        b == spec_ranges_intersect(left, right),
{
    left.0 < right.1 && right.0 < left.1
}

/// From the start of the first token to the end of the last, `(0, 0)` when there is none.
pub open spec fn spec_document_char_range(tokens: Seq<TokenView>) -> (usize, usize) {
    (
        if tokens.len() == 0 { 0 } else { tokens[0].char_range.0 },
        if tokens.len() == 0 { 0 } else { tokens.last().char_range.1 },
    )
}

pub fn document_char_range(tokens: &[AnnotatedToken]) -> (r: (usize, usize))
    ensures
        r == spec_document_char_range(tokens_view(tokens@)),
{
    if tokens.len() == 0 {
        (0, 0)
    } else {
        (tokens[0].bunsetsu.char_range.0, tokens[tokens.len() - 1].bunsetsu.char_range.1)
    }
}

/// From the start of the first range to the end of the last, `(0, 0)` when there is none.
pub open spec fn spec_enclosing_range(ranges: Seq<(usize, usize)>) -> (usize, usize) {
    (
        if ranges.len() == 0 { 0 } else { ranges[0].0 },
        if ranges.len() == 0 { 0 } else { ranges.last().1 },
    )
}

pub fn enclosing_range(ranges: &[(usize, usize)]) -> (r: (usize, usize))
    ensures
        r == spec_enclosing_range(ranges@),
{
    if ranges.len() == 0 {
        (0, 0)
    } else {
        (ranges[0].0, ranges[ranges.len() - 1].1)
    }
}

impl Ranked for (usize, usize) {
    open spec fn rank(&self) -> (int, int) {
        (self.0 as int, self.1 as int)
    }

    fn rank_of(&self) -> (r: (i128, i128)) {
        (self.0 as i128, self.1 as i128)
    }
}

/// Folds sorted ranges left to right, joining each range into the last one
/// when it starts no later than that one ends.
pub open spec fn merge_sorted_ranges(s: Seq<(usize, usize)>) -> Seq<(usize, usize)>
    decreases s.len(),
{
    if s.len() == 0 {
        s
    } else {
        let m = merge_sorted_ranges(s.drop_last());
        let r = s.last();
        if m.len() > 0 && r.0 <= m.last().1 {
            m.update(
                m.len() - 1,
                (m.last().0, if m.last().1 >= r.1 { m.last().1 } else { r.1 }),
            )
        } else {
            m.push(r)
        }
    }
}

/// The ranges sorted and merged where they overlap or touch.
pub open spec fn spec_merge_char_ranges(s: Seq<(usize, usize)>) -> Seq<(usize, usize)> {
    merge_sorted_ranges(stable_sort(s))
}

pub fn merge_char_ranges(ranges: Vec<(usize, usize)>) -> (merged: Vec<(usize, usize)>)
    ensures
        merged@ == spec_merge_char_ranges(ranges@),
{
    let sorted = sort_stable(ranges);
    let mut merged: Vec<(usize, usize)> = Vec::new();
    for i in 0..sorted.len()
        invariant
            merged@ == merge_sorted_ranges(sorted@.take(i as int)),
    {
        let range = sorted[i];
        assert(sorted@.take(i + 1).drop_last() == sorted@.take(i as int));
        let n = merged.len();
        if n > 0 && range.0 <= merged[n - 1].1 {
            let previous = merged[n - 1];
            let end = if previous.1 >= range.1 { previous.1 } else { range.1 };
            merged.set(n - 1, (previous.0, end));
        } else {
            merged.push(range);
        }
    }
    assert(sorted@.take(sorted.len() as int) == sorted@);
    merged
}

/// A merged range list is ordered, non-empty per range when the input ranges are,
/// and leaves a gap between consecutive ranges.
pub open spec fn ranges_disjoint_sorted(m: Seq<(usize, usize)>) -> bool {
    forall|i: int| 0 <= i < m.len() - 1 ==> (#[trigger] m[i]).1 < m[i + 1].0
}

proof fn lemma_merge_sorted_disjoint(s: Seq<(usize, usize)>)
    requires
        sorted_by(s, |t: (usize, usize)| t.rank()),
    ensures
        ranges_disjoint_sorted(merge_sorted_ranges(s)),
        merge_sorted_ranges(s).len() <= s.len(),
        s.len() > 0 ==> merge_sorted_ranges(s).len() > 0,
        s.len() > 0 ==> merge_sorted_ranges(s).last().0 <= s.last().0,
        forall|i: int| 0 <= i < merge_sorted_ranges(s).len() ==> exists|j: int| 0 <= j < s.len() && (#[trigger] merge_sorted_ranges(s)[i]).0 == s[j].0,
    decreases s.len(),
{
    if s.len() > 0 {
        let t = s.drop_last();
        let f = |t: (usize, usize)| t.rank();
        assert(sorted_by(t, f)) by {
            assert forall|i: int, j: int| 0 <= i < j < t.len() implies !rank_lt(
                #[trigger] f(t[j]),
                #[trigger] f(t[i]),
            ) by {
                assert(t[i] == s[i] && t[j] == s[j]);
            }
        }
        lemma_merge_sorted_disjoint(t);
        let m = merge_sorted_ranges(t);
        let r = s.last();
        if t.len() > 0 {
            assert(!rank_lt(f(s[s.len() - 1]), f(s[t.len() - 1])));
        }
        if m.len() > 0 && r.0 <= m.last().1 {
            let m2 = merge_sorted_ranges(s);
            assert forall|i: int| 0 <= i < m2.len() implies exists|j: int| 0 <= j < s.len() && (#[trigger] m2[i]).0 == s[j].0 by {
                let j = choose|j: int| 0 <= j < t.len() && m[i].0 == t[j].0;
                assert(s[j] == t[j]);
            }
        } else {
            let m2 = merge_sorted_ranges(s);
            assert forall|i: int| 0 <= i < m2.len() implies exists|j: int| 0 <= j < s.len() && (#[trigger] m2[i]).0 == s[j].0 by {
                if i < m.len() {
                    let j = choose|j: int| 0 <= j < t.len() && m[i].0 == t[j].0;
                    assert(s[j] == t[j]);
                } else {
                    assert(m2[i] == s[s.len() - 1]);
                }
            }
        }
    }
}

/// Merging leaves sorted ranges with a gap between each pair of neighbours.
pub proof fn merged_ranges_are_disjoint(ranges: Seq<(usize, usize)>)
    ensures
        ranges_disjoint_sorted(spec_merge_char_ranges(ranges)),
{
    lemma_sort_props(ranges, |t: (usize, usize)| t.rank());
    lemma_merge_sorted_disjoint(stable_sort(ranges));
}

/// Two tokens share an identity key: the same range, display class and surface.
pub open spec fn same_key(a: TokenView, b: TokenView) -> bool {
    a.char_range == b.char_range && a.display_class == b.display_class && a.surface == b.surface
}

/// How many of the first `n` tokens share the key of `t`.
pub open spec fn count_same(s: Seq<TokenView>, t: TokenView, n: int) -> nat
    decreases n,
{
    if n <= 0 {
        0
    } else {
        count_same(s, t, n - 1) + (if same_key(s[n - 1], t) { 1nat } else { 0nat })
    }
}

/// `t:{start}:{end}:{class}:{ordinal}`.
pub open spec fn token_id(t: TokenView, ordinal: nat) -> Seq<char> {
    seq!['t', ':'] + decimal(t.char_range.0 as nat) + seq![':'] + decimal(t.char_range.1 as nat)
        + seq![':'] + t.display_class + seq![':'] + decimal(ordinal)
}

/// Each token's identity: its key and the number of earlier tokens with the same key.
pub open spec fn spec_stable_ids(s: Seq<TokenView>) -> Seq<Seq<char>> {
    Seq::new(s.len(), |i: int| token_id(s[i], count_same(s, s[i], i)))
}

fn same_key_exec(a: &AnnotatedToken, b: &AnnotatedToken) -> (r: bool)
    ensures
        r == same_key(a@, b@),
{
    a.bunsetsu.char_range.0 == b.bunsetsu.char_range.0 && a.bunsetsu.char_range.1
        == b.bunsetsu.char_range.1 && a.display_class == b.display_class && a.bunsetsu.surface
        == b.bunsetsu.surface
}

fn token_id_exec(t: &AnnotatedToken, ordinal: usize) -> (id: String)
    ensures
        id@ == token_id(t@, ordinal as nat),
{
    let mut id = String::new();
    push_char(&mut id, 't');
    push_char(&mut id, ':');
    push_decimal(&mut id, t.bunsetsu.char_range.0 as u64);
    push_char(&mut id, ':');
    push_decimal(&mut id, t.bunsetsu.char_range.1 as u64);
    push_char(&mut id, ':');
    id.append(t.display_class.as_str());
    push_char(&mut id, ':');
    push_decimal(&mut id, ordinal as u64);
    assert(id@ =~= token_id(t@, ordinal as nat));
    id
}

/// The stable identity of every token.
pub fn stable_token_ids(tokens: &[AnnotatedToken]) -> (ids: Vec<String>)
    ensures
        strings_view(ids@) == spec_stable_ids(tokens_view(tokens@)),
        ids@.len() == tokens@.len(),
{
    let ghost tv = tokens_view(tokens@);
    let mut ids: Vec<String> = Vec::new();
    for i in 0..tokens.len()
        invariant
            tv == tokens_view(tokens@),
            ids@.len() == i,
            forall|k: int| 0 <= k < i ==> (#[trigger] ids@[k])@ == spec_stable_ids(tv)[k],
    {
        let mut ordinal: usize = 0;
        for j in 0..i
            invariant
                i < tokens.len(),
                tv == tokens_view(tokens@),
                ordinal == count_same(tv, tv[i as int], j as int),
                ordinal <= j,
        {
            if same_key_exec(&tokens[j], &tokens[i]) {
                ordinal += 1;
            }
        }
        ids.push(token_id_exec(&tokens[i], ordinal));
    }
    assert(strings_view(ids@) =~= spec_stable_ids(tv));
    ids
}

proof fn lemma_count_same_keys(a: Seq<TokenView>, b: Seq<TokenView>, t: TokenView, u: TokenView, n: int)
    requires
        a.len() == b.len(),
        0 <= n <= a.len(),
        forall|k: int| 0 <= k < a.len() ==> same_key(#[trigger] a[k], b[k]),
        same_key(t, u),
    ensures
        count_same(a, t, n) == count_same(b, u, n),
    decreases n,
{
    if n > 0 {
        lemma_count_same_keys(a, b, t, u, n - 1);
        assert(same_key(a[n - 1], b[n - 1]));
    }
}

/// Token identities depend only on each token's range, display class and
/// surface: changing annotations such as `is_known` keeps every identity.
pub proof fn ids_depend_only_on_keys(a: Seq<TokenView>, b: Seq<TokenView>)
    requires
        a.len() == b.len(),
        forall|k: int| 0 <= k < a.len() ==> same_key(#[trigger] a[k], b[k]),
    ensures
        spec_stable_ids(a) == spec_stable_ids(b),
{
    assert forall|i: int| 0 <= i < a.len() implies #[trigger] spec_stable_ids(a)[i] == spec_stable_ids(b)[i] by {
        assert(same_key(a[i], b[i]));
        lemma_count_same_keys(a, b, a[i], b[i], i);
    }
    assert(spec_stable_ids(a) =~= spec_stable_ids(b));
}

/// The surface and display class of each of the first `n` tokens, in order.
pub open spec fn token_strings(tokens: Seq<AnnotatedToken>, n: int) -> Seq<Seq<char>> {
    Seq::new(
        (2 * n) as nat,
        |i: int|
            if i % 2 == 0 {
                tokens[i / 2].bunsetsu.surface@
            } else {
                tokens[i / 2].display_class@
            },
    )
}

/// A token in its compact form: indices into the string table, its range and flags.
#[derive(Debug, Clone, Copy, PartialEq, Eq)]
pub struct CompactToken {
    pub surface: usize,
    pub display_class: usize,
    pub char_range: (usize, usize),
    pub is_known: bool,
    pub is_selected: bool,
}

/// The tokens of a patch: `b` is the size of the string table before the
/// patch, `s` the strings the patch adds to it, `t` the tokens.
#[derive(Debug)]
pub struct CompactAnalysisPatch {
    pub b: usize,
    pub s: Vec<String>,
    pub t: Vec<CompactToken>,
}

/// The string table shared by all patches of a session: each string is sent once.
#[derive(Debug)]
pub struct CompactEncoder {
    strings: Vec<String>,
}

impl CompactEncoder {
    pub fn new() -> (r: Self)
        ensures
            r.table().len() == 0,
    {
        CompactEncoder { strings: Vec::new() }
    }

    /// The strings sent so far, in the order they were sent.
    pub closed spec fn table(&self) -> Seq<Seq<char>> {
        strings_view(self.strings@)
    }

    /// No string is in the table twice.
    pub open spec fn wf(&self) -> bool {
        forall|i: int, j: int| 0 <= i < j < self.table().len() ==> self.table()[i] != self.table()[j]
    }

    fn intern(&mut self, value: &String) -> (index: usize)
        requires
            old(self).wf(),
        ensures
            final(self).wf(),
            index < final(self).table().len(),
            final(self).table()[index as int] == value@,
            old(self).table().contains(value@) ==> final(self).table() == old(self).table(),
            !old(self).table().contains(value@) ==> final(self).table() == old(self).table().push(value@),
    {
        let n = self.strings.len();
        for i in 0..n
            invariant
                n == self.strings@.len(),
                self.wf(),
                self.table() == old(self).table(),
                forall|k: int| 0 <= k < i ==> (#[trigger] self.table()[k]) != value@,
        {
            if self.strings[i] == *value {
                assert(self.table()[i as int] == value@);
                return i;
            }
        }
        assert(!old(self).table().contains(value@));
        self.strings.push(value.clone());
        assert(self.table() =~= old(self).table().push(value@));
        n
    }

    /// Encodes tokens, adding their surfaces and display classes to the table
    /// where they are not in it yet.
    pub fn encode_patch(&mut self, tokens: &[AnnotatedToken]) -> (patch: CompactAnalysisPatch)
        requires
            old(self).wf(),
        ensures
            final(self).wf(),
            patch.b == old(self).table().len(),
            final(self).table() == old(self).table() + strings_view(patch.s@),
            patch.t@.len() == tokens@.len(),
            forall|k: int| #![trigger patch.t@[k]] 0 <= k < tokens@.len() ==> {
                &&& patch.t@[k].surface < final(self).table().len()
                &&& final(self).table()[patch.t@[k].surface as int] == tokens@[k].bunsetsu.surface@
                &&& patch.t@[k].display_class < final(self).table().len()
                &&& final(self).table()[patch.t@[k].display_class as int] == tokens@[k].display_class@
                &&& patch.t@[k].char_range == tokens@[k].bunsetsu.char_range
                &&& patch.t@[k].is_known == tokens@[k].is_known
                &&& patch.t@[k].is_selected == tokens@[k].is_selected
            },
            forall|k: int| 0 <= k < patch.s@.len() ==> !old(self).table().contains(#[trigger] patch.s@[k]@),
            forall|k: int| 0 <= k < patch.s@.len() ==> token_strings(tokens@, tokens@.len() as int).contains(#[trigger] patch.s@[k]@),
    {
        let b = self.strings.len();
        let ghost start = self.table();
        let mut t: Vec<CompactToken> = Vec::new();
        for i in 0..tokens.len()
            invariant
                self.wf(),
                b == start.len(),
                self.table().len() >= start.len(),
                self.table().take(b as int) == start,
                t@.len() == i,
                forall|k: int| #![trigger t@[k]] 0 <= k < i ==> {
                    &&& t@[k].surface < self.table().len()
                    &&& self.table()[t@[k].surface as int] == tokens@[k].bunsetsu.surface@
                    &&& t@[k].display_class < self.table().len()
                    &&& self.table()[t@[k].display_class as int] == tokens@[k].display_class@
                    &&& t@[k].char_range == tokens@[k].bunsetsu.char_range
                    &&& t@[k].is_known == tokens@[k].is_known
                    &&& t@[k].is_selected == tokens@[k].is_selected
                },
                forall|k: int| b <= k < self.table().len() ==> !start.contains(#[trigger] self.table()[k]),
                forall|k: int| b <= k < self.table().len() ==> token_strings(tokens@, i as int).contains(#[trigger] self.table()[k]),
        {
            let ghost before = self.table();
            let surface = self.intern(&tokens[i].bunsetsu.surface);
            let ghost middle = self.table();
            let display_class = self.intern(&tokens[i].display_class);
            proof {
                assert(middle.take(b as int) == start);
                assert(self.table().take(b as int) =~= start);
                assert forall|k: int| b <= k < self.table().len() implies !start.contains(#[trigger] self.table()[k]) by {
                    if k >= before.len() {
                        if k == before.len() && middle.len() > before.len() {
                            assert(middle[k] == tokens@[i as int].bunsetsu.surface@);
                            assert(!before.contains(middle[k]));
                            if start.contains(middle[k]) {
                                let m = choose|m: int| 0 <= m < start.len() && start[m] == middle[k];
                                assert(before[m] == start[m]);
                            }
                        } else {
                            assert(self.table()[k] == tokens@[i as int].display_class@);
                            assert(!middle.contains(self.table()[k]));
                            if start.contains(self.table()[k]) {
                                let m = choose|m: int| 0 <= m < start.len() && start[m] == self.table()[k];
                                assert(middle[m] == start[m]);
                            }
                        }
                    } else {
                        assert(self.table()[k] == before[k]);
                    }
                }
                let ts = token_strings(tokens@, i + 1);
                let ts0 = token_strings(tokens@, i as int);
                assert forall|k: int| b <= k < self.table().len() implies ts.contains(#[trigger] self.table()[k]) by {
                    if k >= before.len() {
                        if k == before.len() && middle.len() > before.len() {
                            assert(self.table()[k] == tokens@[i as int].bunsetsu.surface@);
                            assert(ts[2 * i] == tokens@[i as int].bunsetsu.surface@);
                        } else {
                            assert(self.table()[k] == tokens@[i as int].display_class@);
                            assert(ts[2 * i + 1] == tokens@[i as int].display_class@);
                        }
                    } else {
                        assert(self.table()[k] == before[k]);
                        assert(ts0.contains(before[k]));
                        let m = choose|m: int| 0 <= m < ts0.len() && ts0[m] == before[k];
                        assert(ts[m] == ts0[m]);
                    }
                }
            }
            t.push(CompactToken {
                surface,
                display_class,
                char_range: tokens[i].bunsetsu.char_range,
                is_known: tokens[i].is_known,
                is_selected: tokens[i].is_selected,
            });
        }
        let mut s: Vec<String> = Vec::new();
        let n = self.strings.len();
        for k in b..n
            invariant
                b <= n,
                n == self.strings@.len(),
                s@.len() == k - b,
                forall|m: int| 0 <= m < s@.len() ==> (#[trigger] s@[m])@ == self.table()[m + b],
        {
            s.push(self.strings[k].clone());
        }
        assert(self.table() =~= start + strings_view(s@));
        CompactAnalysisPatch { b, s, t }
    }
}

#[derive(Debug)]
pub struct DocumentChunk {
    pub source: String,
    pub char_range: (usize, usize),
}

#[derive(Debug)]
pub struct DocumentBatch {
    pub source: String,
    pub char_range: (usize, usize),
    pub chunk_start: usize,
    pub chunk_end: usize,
}

/// Scanning `s` left to right: the lines completed so far, each with its
/// newline, and the line still open.
pub open spec fn split_state(s: Seq<char>) -> (Seq<Seq<char>>, Seq<char>)
    decreases s.len(),
{
    if s.len() == 0 {
        (seq![], seq![])
    } else {
        let (done, current) = split_state(s.drop_last());
        if s.last() == '\n' {
            (done.push(current.push('\n')), seq![])
        } else {
            (done, current.push(s.last()))
        }
    }
}

/// The lines of `s`, each keeping its terminating newline; a last line without
/// newline is kept when it is not empty.
pub open spec fn split_lines(s: Seq<char>) -> Seq<Seq<char>> {
    let (done, current) = split_state(s);
    if current.len() > 0 {
        done.push(current)
    } else {
        done
    }
}

/// A text has lines exactly when it has characters.
proof fn lemma_lines_empty(s: Seq<char>)
    ensures
        split_lines(s).len() == 0 <==> s.len() == 0,
{
    if s.len() > 0 {
        let (done, current) = split_state(s.drop_last());
        if s.last() == '\n' {
            assert(split_state(s).0.len() > 0);
        } else {
            assert(split_state(s).1.len() > 0);
        }
    }
}

/// The number of characters in the first `k` lines.
pub open spec fn lines_offset(lines: Seq<Seq<char>>, k: int) -> nat
    decreases k,
{
    if k <= 0 {
        0
    } else {
        lines_offset(lines, k - 1) + lines[k - 1].len()
    }
}

proof fn lemma_lines_offset_prefix(lines: Seq<Seq<char>>, x: Seq<char>, k: int)
    requires
        0 <= k <= lines.len(),
    ensures
        lines_offset(lines.push(x), k) == lines_offset(lines, k),
    decreases k,
{
    if k > 0 {
        lemma_lines_offset_prefix(lines, x, k - 1);
        assert(lines.push(x)[k - 1] == lines[k - 1]);
    }
}

proof fn lemma_lines_offset_bound(lines: Seq<Seq<char>>, k: int)
    requires
        0 <= k <= lines.len(),
    ensures
        lines_offset(lines, k) <= lines_offset(lines, lines.len() as int),
    decreases lines.len() - k,
{
    if k < lines.len() {
        lemma_lines_offset_bound(lines, k + 1);
    }
}

proof fn lemma_split_state_len(s: Seq<char>)
    ensures
        lines_offset(split_state(s).0, split_state(s).0.len() as int) + split_state(s).1.len() == s.len(),
    decreases s.len(),
{
    if s.len() > 0 {
        lemma_split_state_len(s.drop_last());
        let (done, current) = split_state(s.drop_last());
        if s.last() == '\n' {
            lemma_lines_offset_prefix(done, current.push('\n'), done.len() as int);
        }
    }
}

/// The line chunks of a document: line `k` with its character range, which
/// starts where the previous line ends.
pub open spec fn chunks_match_lines(chunks: Seq<DocumentChunk>, lines: Seq<Seq<char>>) -> bool {
    &&& chunks.len() == lines.len()
    &&& forall|k: int| #![trigger chunks[k]] 0 <= k < chunks.len() ==> {
        &&& chunks[k].source@ == lines[k]
        &&& chunks[k].char_range.0 == lines_offset(lines, k)
        &&& chunks[k].char_range.1 == lines_offset(lines, k + 1)
    }
}

/// The chunks of a document, one per line.
pub fn split_document_chunks(source: &str) -> (chunks: Vec<DocumentChunk>)
    ensures
        chunks_match_lines(chunks@, split_lines(source@)),
{
    let chars = chars_of(source);
    let mut chunks: Vec<DocumentChunk> = Vec::new();
    let mut current: Vec<char> = Vec::new();
    let mut offset: usize = 0;
    for i in 0..chars.len()
        invariant
            chars@ == source@,
            chunks_match_lines(chunks@, split_state(chars@.take(i as int)).0),
            current@ == split_state(chars@.take(i as int)).1,
            offset == lines_offset(split_state(chars@.take(i as int)).0, chunks@.len() as int),
            offset + current@.len() == i,
    {
        let ghost prefix = chars@.take(i as int);
        proof {
            assert(chars@.take(i + 1).drop_last() == prefix);
            lemma_split_state_len(prefix);
        }
        let c = chars[i];
        current.push(c);
        if c == '\n' {
            let length = current.len();
            let ghost done = split_state(prefix).0;
            let chunk = DocumentChunk {
                source: string_from_chars(&current),
                char_range: (offset, offset + length),
            };
            chunks.push(chunk);
            proof {
                let nd = done.push(current@);
                assert forall|k: int| #![trigger chunks@[k]] 0 <= k < chunks@.len() implies {
                    &&& chunks@[k].source@ == nd[k]
                    &&& chunks@[k].char_range.0 == lines_offset(nd, k)
                    &&& chunks@[k].char_range.1 == lines_offset(nd, k + 1)
                } by {
                    lemma_lines_offset_prefix(done, current@, k);
                    if k + 1 <= done.len() {
                        lemma_lines_offset_prefix(done, current@, k + 1);
                    }
                }
                lemma_lines_offset_prefix(done, current@, done.len() as int);
            }
            offset = offset + length;
            current = Vec::new();
        }
    }
    assert(chars@.take(chars.len() as int) == chars@);
    if current.len() > 0 {
        let ghost done = split_state(chars@).0;
        let length = current.len();
        proof {
            lemma_split_state_len(chars@);
        }
        chunks.push(DocumentChunk {
            source: string_from_chars(&current),
            char_range: (offset, offset + length),
        });
        proof {
            let nd = done.push(current@);
            assert forall|k: int| #![trigger chunks@[k]] 0 <= k < chunks@.len() implies {
                &&& chunks@[k].source@ == nd[k]
                &&& chunks@[k].char_range.0 == lines_offset(nd, k)
                &&& chunks@[k].char_range.1 == lines_offset(nd, k + 1)
            } by {
                lemma_lines_offset_prefix(done, current@, k);
                if k + 1 <= done.len() {
                    lemma_lines_offset_prefix(done, current@, k + 1);
                }
            }
        }
    }
    chunks
}

/// A range moved right by `d`.
pub open spec fn shift_range(r: (usize, usize), d: usize) -> (usize, usize) {
    ((r.0 + d) as usize, (r.1 + d) as usize)
}

/// A range moved left by `d`.
pub open spec fn unshift_range(r: (usize, usize), d: usize) -> (usize, usize) {
    ((r.0 - d) as usize, (r.1 - d) as usize)
}

pub open spec fn range_shiftable(r: (usize, usize), d: usize) -> bool {
    r.0 + d <= usize::MAX && r.1 + d <= usize::MAX
}

/// Every range of the token can be moved by `char_offset`, and every
/// expression's token range by `token_offset`, without leaving `usize`.
pub open spec fn token_shiftable(t: TokenView, char_offset: usize, token_offset: usize) -> bool {
    &&& range_shiftable(t.char_range, char_offset)
    &&& forall|k: int| 0 <= k < t.morphemes.len() ==> range_shiftable(#[trigger] t.morphemes[k].char_range, char_offset)
    &&& forall|k: int| 0 <= k < t.expressions.len() ==> range_shiftable(#[trigger] t.expressions[k].char_range, char_offset)
        && range_shiftable(t.expressions[k].token_range, token_offset)
}

pub open spec fn tokens_shiftable(s: Seq<TokenView>, char_offset: usize, token_offset: usize) -> bool {
    forall|k: int| 0 <= k < s.len() ==> token_shiftable(#[trigger] s[k], char_offset, token_offset)
}

/// The token with its character ranges moved by `char_offset` and its
/// expressions' token ranges moved by `token_offset`.
pub open spec fn shifted_token(t: TokenView, char_offset: usize, token_offset: usize) -> TokenView {
    TokenView {
        char_range: shift_range(t.char_range, char_offset),
        morphemes: t.morphemes.map_values(
            |m: MorphemeView| MorphemeView { char_range: shift_range(m.char_range, char_offset), ..m },
        ),
        expressions: t.expressions.map_values(
            |e: ExpressionView|
                ExpressionView {
                    char_range: shift_range(e.char_range, char_offset),
                    token_range: shift_range(e.token_range, token_offset),
                    ..e
                },
        ),
        ..t
    }
}

/// Every range of the token's bunsetsu and morphemes lies at or after `d`.
pub open spec fn token_localizable(t: TokenView, d: usize) -> bool {
    &&& t.char_range.0 >= d && t.char_range.1 >= d
    &&& forall|k: int| 0 <= k < t.morphemes.len() ==> (#[trigger] t.morphemes[k]).char_range.0 >= d
        && t.morphemes[k].char_range.1 >= d
}

/// The token with its bunsetsu and morpheme ranges moved left by `d`.
pub open spec fn localized_token(t: TokenView, d: usize) -> TokenView {
    TokenView {
        char_range: unshift_range(t.char_range, d),
        morphemes: t.morphemes.map_values(
            |m: MorphemeView| MorphemeView { char_range: unshift_range(m.char_range, d), ..m },
        ),
        ..t
    }
}

fn offset_token(token: &AnnotatedToken, char_offset: usize, token_offset: usize) -> (r: AnnotatedToken)
    requires
        token_shiftable(token@, char_offset, token_offset),
    ensures
        r@ == shifted_token(token@, char_offset, token_offset),
{
    let mut morphemes: Vec<Morpheme> = Vec::new();
    let n = token.bunsetsu.morphemes.len();
    for i in 0..n
        invariant
            n == token.bunsetsu.morphemes@.len(),
            token_shiftable(token@, char_offset, token_offset),
            morphemes@.len() == i,
            forall|k: int| 0 <= k < i ==> (#[trigger] morphemes@[k])@ == (MorphemeView {
                char_range: shift_range(token@.morphemes[k].char_range, char_offset),
                ..token@.morphemes[k]
            }),
    {
        let m = &token.bunsetsu.morphemes[i];
        assert(range_shiftable(token@.morphemes[i as int].char_range, char_offset));
        morphemes.push(Morpheme {
            surface: m.surface.clone(),
            char_range: (m.char_range.0 + char_offset, m.char_range.1 + char_offset),
        });
    }
    let mut expressions: Vec<TokenExpression> = Vec::new();
    let n = token.expressions.len();
    for i in 0..n
        invariant
            n == token.expressions@.len(),
            token_shiftable(token@, char_offset, token_offset),
            expressions@.len() == i,
            forall|k: int| 0 <= k < i ==> (#[trigger] expressions@[k])@ == (ExpressionView {
                char_range: shift_range(token@.expressions[k].char_range, char_offset),
                token_range: shift_range(token@.expressions[k].token_range, token_offset),
                ..token@.expressions[k]
            }),
    {
        let e = &token.expressions[i];
        assert(range_shiftable(token@.expressions[i as int].char_range, char_offset));
        expressions.push(TokenExpression {
            expression_id: e.expression_id.clone(),
            char_range: (e.char_range.0 + char_offset, e.char_range.1 + char_offset),
            token_range: (e.token_range.0 + token_offset, e.token_range.1 + token_offset),
        });
    }
    let r = AnnotatedToken {
        bunsetsu: Bunsetsu {
            surface: token.bunsetsu.surface.clone(),
            morphemes,
            char_range: (
                token.bunsetsu.char_range.0 + char_offset,
                token.bunsetsu.char_range.1 + char_offset,
            ),
        },
        is_selected: token.is_selected,
        is_known: token.is_known,
        expressions,
        display_class: token.display_class.clone(),
    };
    assert(r@.morphemes =~= shifted_token(token@, char_offset, token_offset).morphemes);
    assert(r@.expressions =~= shifted_token(token@, char_offset, token_offset).expressions);
    r
}

/// Moves tokens analysed on their own into document coordinates.
pub fn offset_tokens(tokens: &[AnnotatedToken], char_offset: usize, token_offset: usize) -> (r: Vec<AnnotatedToken>)
    requires
        tokens_shiftable(tokens_view(tokens@), char_offset, token_offset),
    ensures
        tokens_view(r@) == tokens_view(tokens@).map_values(|t: TokenView| shifted_token(t, char_offset, token_offset)),
{
    let mut r: Vec<AnnotatedToken> = Vec::new();
    for i in 0..tokens.len()
        invariant
            tokens_shiftable(tokens_view(tokens@), char_offset, token_offset),
            r@.len() == i,
            forall|k: int| 0 <= k < i ==> (#[trigger] r@[k])@ == shifted_token(tokens@[k]@, char_offset, token_offset),
    {
        assert(token_shiftable(tokens_view(tokens@)[i as int], char_offset, token_offset));
        r.push(offset_token(&tokens[i], char_offset, token_offset));
    }
    assert(tokens_view(r@) =~= tokens_view(tokens@).map_values(|t: TokenView| shifted_token(t, char_offset, token_offset)));
    r
}

fn localize_token(token: &AnnotatedToken, d: usize) -> (r: AnnotatedToken)
    requires
        token_localizable(token@, d),
    ensures
        r@ == localized_token(token@, d),
{
    let mut morphemes: Vec<Morpheme> = Vec::new();
    let n = token.bunsetsu.morphemes.len();
    for i in 0..n
        invariant
            n == token.bunsetsu.morphemes@.len(),
            token_localizable(token@, d),
            morphemes@.len() == i,
            forall|k: int| 0 <= k < i ==> (#[trigger] morphemes@[k])@ == (MorphemeView {
                char_range: unshift_range(token@.morphemes[k].char_range, d),
                ..token@.morphemes[k]
            }),
    {
        let m = &token.bunsetsu.morphemes[i];
        assert(token@.morphemes[i as int].char_range.0 >= d);
        morphemes.push(Morpheme {
            surface: m.surface.clone(),
            char_range: (m.char_range.0 - d, m.char_range.1 - d),
        });
    }
    let r = AnnotatedToken {
        bunsetsu: Bunsetsu {
            surface: token.bunsetsu.surface.clone(),
            morphemes,
            char_range: (token.bunsetsu.char_range.0 - d, token.bunsetsu.char_range.1 - d),
        },
        is_selected: token.is_selected,
        is_known: token.is_known,
        expressions: crate::token::copy_expression_list(&token.expressions),
        display_class: token.display_class.clone(),
    };
    assert(r@.morphemes =~= localized_token(token@, d).morphemes);
    r
}

/// Moves tokens from document coordinates back to coordinates local to a batch.
pub fn localize_tokens(tokens: &[AnnotatedToken], d: usize) -> (r: Vec<AnnotatedToken>)
    requires
        forall|k: int| 0 <= k < tokens@.len() ==> token_localizable(#[trigger] tokens@[k]@, d),
    ensures
        tokens_view(r@) == tokens_view(tokens@).map_values(|t: TokenView| localized_token(t, d)),
{
    let mut r: Vec<AnnotatedToken> = Vec::new();
    for i in 0..tokens.len()
        invariant
            forall|k: int| 0 <= k < tokens@.len() ==> token_localizable(#[trigger] tokens@[k]@, d),
            r@.len() == i,
            forall|k: int| 0 <= k < i ==> (#[trigger] r@[k])@ == localized_token(tokens@[k]@, d),
    {
        r.push(localize_token(&tokens[i], d));
    }
    assert(tokens_view(r@) =~= tokens_view(tokens@).map_values(|t: TokenView| localized_token(t, d)));
    r
}

/// The first index from `i` on whose range intersects `r`, or -1.
pub open spec fn first_hit(rs: Seq<(usize, usize)>, r: (usize, usize), i: int) -> int
    decreases rs.len() - i,
{
    if i >= rs.len() || i < 0 {
        -1
    } else if spec_ranges_intersect(rs[i], r) {
        i
    } else {
        first_hit(rs, r, i + 1)
    }
}

/// The last index below `n` whose range intersects `r`, or -1.
pub open spec fn last_hit(rs: Seq<(usize, usize)>, r: (usize, usize), n: int) -> int
    decreases n,
{
    if n <= 0 {
        -1
    } else if spec_ranges_intersect(rs[n - 1], r) {
        n - 1
    } else {
        last_hit(rs, r, n - 1)
    }
}

proof fn lemma_first_hit_bounded(rs: Seq<(usize, usize)>, r: (usize, usize), i: int)
    ensures
        -1 <= first_hit(rs, r, i) < rs.len(),
        first_hit(rs, r, i) >= 0 ==> first_hit(rs, r, i) >= i,
    decreases rs.len() - i,
{
    if i < rs.len() && i >= 0 {
        lemma_first_hit_bounded(rs, r, i + 1);
    }
}

proof fn lemma_last_hit_bounded(rs: Seq<(usize, usize)>, r: (usize, usize), n: int)
    ensures
        -1 <= last_hit(rs, r, n) < n || (n <= 0 && last_hit(rs, r, n) == -1),
    decreases n,
{
    if n > 0 {
        lemma_last_hit_bounded(rs, r, n - 1);
    }
}

proof fn lemma_hits_bounded(rs: Seq<(usize, usize)>, r: (usize, usize), i: int, n: int)
    requires
        0 <= n <= rs.len(),
    ensures
        -1 <= first_hit(rs, r, i) < rs.len(),
        first_hit(rs, r, i) >= 0 ==> first_hit(rs, r, i) >= i,
        -1 <= last_hit(rs, r, n) < n || (n == 0 && last_hit(rs, r, n) == -1),
{
    lemma_first_hit_bounded(rs, r, i);
    lemma_last_hit_bounded(rs, r, n);
}

/// The expression's token range re-derived from the tokens whose ranges it covers.
pub open spec fn reindexed_expression(rs: Seq<(usize, usize)>, e: ExpressionView) -> ExpressionView {
    let f = first_hit(rs, e.char_range, 0);
    let l = last_hit(rs, e.char_range, rs.len() as int);
    if f >= 0 && l >= 0 {
        ExpressionView { token_range: (f as usize, (l + 1) as usize), ..e }
    } else {
        e
    }
}

pub open spec fn token_ranges(s: Seq<TokenView>) -> Seq<(usize, usize)> {
    s.map_values(|t: TokenView| t.char_range)
}

pub open spec fn reindexed_token(rs: Seq<(usize, usize)>, t: TokenView) -> TokenView {
    TokenView {
        expressions: t.expressions.map_values(|e: ExpressionView| reindexed_expression(rs, e)),
        ..t
    }
}

fn hits(rs: &Vec<(usize, usize)>, r: (usize, usize)) -> (res: (bool, usize, usize))
    ensures
        res.0 == (first_hit(rs@, r, 0) >= 0 && last_hit(rs@, r, rs@.len() as int) >= 0),
        res.0 ==> res.1 == first_hit(rs@, r, 0) && res.2 == last_hit(rs@, r, rs@.len() as int) + 1,
{
    let n = rs.len();
    let mut first: usize = 0;
    let mut has_first = false;
    let mut i = n;
    proof { lemma_hits_bounded(rs@, r, 0, n as int); }
    while i > 0
        invariant
            i <= n == rs@.len(),
            has_first == (first_hit(rs@, r, i as int) >= 0),
            has_first ==> first == first_hit(rs@, r, i as int),
        decreases i,
    {
        i -= 1;
        if ranges_intersect(rs[i], r) {
            has_first = true;
            first = i;
        }
        proof { lemma_hits_bounded(rs@, r, i + 1, 0); }
    }
    let mut last: usize = 0;
    let mut has_last = false;
    for j in 0..n
        invariant
            n == rs@.len(),
            has_last == (last_hit(rs@, r, j as int) >= 0),
            has_last ==> last + 1 == last_hit(rs@, r, j as int) + 1 && last < j,
            !has_last ==> last == 0,
    {
        if ranges_intersect(rs[j], r) {
            has_last = true;
            last = j;
        }
        proof { lemma_hits_bounded(rs@, r, 0, j as int); }
    }
    (has_first && has_last, first, last + 1)
}

/// Re-derives every expression's token range from the current token order.
pub fn reindex_expression_token_ranges(tokens: &[AnnotatedToken]) -> (r: Vec<AnnotatedToken>)
    ensures
        tokens_view(r@) == tokens_view(tokens@).map_values(
            |t: TokenView| reindexed_token(token_ranges(tokens_view(tokens@)), t),
        ),
{
    let ghost rs_spec = token_ranges(tokens_view(tokens@));
    let mut rs: Vec<(usize, usize)> = Vec::new();
    for i in 0..tokens.len()
        invariant
            rs@.len() == i,
            forall|k: int| 0 <= k < i ==> #[trigger] rs@[k] == tokens@[k].bunsetsu.char_range,
    {
        rs.push(tokens[i].bunsetsu.char_range);
    }
    assert(rs@ =~= rs_spec);
    let mut r: Vec<AnnotatedToken> = Vec::new();
    for i in 0..tokens.len()
        invariant
            rs@ == rs_spec,
            rs_spec == token_ranges(tokens_view(tokens@)),
            r@.len() == i,
            forall|k: int| 0 <= k < i ==> (#[trigger] r@[k])@ == reindexed_token(rs_spec, tokens@[k]@),
    {
        let token = &tokens[i];
        let mut expressions: Vec<TokenExpression> = Vec::new();
        let n = token.expressions.len();
        for j in 0..n
            invariant
                rs@ == rs_spec,
                n == token.expressions@.len(),
                expressions@.len() == j,
                forall|k: int| 0 <= k < j ==> (#[trigger] expressions@[k])@ == reindexed_expression(rs_spec, token@.expressions[k]),
        {
            let e = &token.expressions[j];
            let (found, first, end) = hits(&rs, e.char_range);
            let token_range = if found { (first, end) } else { e.token_range };
            expressions.push(TokenExpression {
                expression_id: e.expression_id.clone(),
                char_range: e.char_range,
                token_range,
            });
        }
        let t = AnnotatedToken {
            bunsetsu: token.bunsetsu.clone(),
            is_selected: token.is_selected,
            is_known: token.is_known,
            expressions,
            display_class: token.display_class.clone(),
        };
        assert(t@.expressions =~= reindexed_token(rs_spec, token@).expressions);
        r.push(t);
    }
    assert(tokens_view(r@) =~= tokens_view(tokens@).map_values(
        |t: TokenView| reindexed_token(token_ranges(tokens_view(tokens@)), t),
    ));
    r
}

/// The tokens of `v` encoded against `table`: each compact token points at
/// the token's surface and display class and copies its range and flags.
/// Some token of `v` has `x` as its surface or display class.
pub open spec fn uses_string(v: Seq<TokenView>, x: Seq<char>) -> bool {
    exists|k: int| 0 <= k < v.len() && (v[k].surface == x || v[k].display_class == x)
}

pub open spec fn encodes(t: Seq<CompactToken>, table: Seq<Seq<char>>, v: Seq<TokenView>) -> bool {
    &&& t.len() == v.len()
    &&& forall|k: int| #![trigger t[k]] 0 <= k < v.len() ==> {
        &&& t[k].surface < table.len()
        &&& table[t[k].surface as int] == v[k].surface
        &&& t[k].display_class < table.len()
        &&& table[t[k].display_class as int] == v[k].display_class
        &&& t[k].char_range == v[k].char_range
        &&& t[k].is_known == v[k].is_known
        &&& t[k].is_selected == v[k].is_selected
    }
}

#[derive(Debug)]
pub struct AnalysisPatch {
    pub session_id: String,
    pub base_revision: u64,
    pub revision: u64,
    pub kind: PatchKind,
    pub char_range: (usize, usize),
    pub removed_token_ids: Vec<String>,
    pub token_ids: Vec<String>,
    pub ordered_token_ids: Vec<String>,
    pub analysis: CompactAnalysisPatch,
    pub fingerprint: PipelineFingerprint,
    pub invalidation: Option<InvalidationReport>,
    pub document_char_range: (usize, usize),
    pub available_ranges: Vec<(usize, usize)>,
    pub complete: bool,
}

/// A request made against a revision that is no longer the current one.
#[derive(Debug, Clone, Copy, PartialEq, Eq, Structural)]
pub struct SessionRevisionError {
    pub expected: u64,
    pub received: u64,
}

impl SessionRevisionError {
    /// `文档 revision 已过期：当前 {expected}，收到 {received}`.
    pub fn message(&self) -> (m: String)
        ensures
            m@ == seq!['文', '档', ' ', 'r', 'e', 'v', 'i', 's', 'i', 'o', 'n', ' ', '已', '过', '期', '：', '当', '前', ' ']
                + decimal(self.expected as nat) + seq!['，', '收', '到', ' '] + decimal(self.received as nat),
    {
        let mut m = String::new();
        let prefix: Vec<char> = vec!['文', '档', ' ', 'r', 'e', 'v', 'i', 's', 'i', 'o', 'n', ' ', '已', '过', '期', '：', '当', '前', ' '];
        m.append(string_from_chars(&prefix).as_str());
        push_decimal(&mut m, self.expected);
        push_char(&mut m, '，');
        push_char(&mut m, '收');
        push_char(&mut m, '到');
        push_char(&mut m, ' ');
        push_decimal(&mut m, self.received);
        assert(m@ =~= seq!['文', '档', ' ', 'r', 'e', 'v', 'i', 's', 'i', 'o', 'n', ' ', '已', '过', '期', '：', '当', '前', ' ']
                + decimal(self.expected as nat) + seq!['，', '收', '到', ' '] + decimal(self.received as nat));
        m
    }
}

impl Ranked for AnnotatedToken {
    open spec fn rank(&self) -> (int, int) {
        (self.bunsetsu.char_range.0 as int, 0)
    }

    fn rank_of(&self) -> (r: (i128, i128)) {
        (self.bunsetsu.char_range.0 as i128, 0)
    }
}

/// Tokens ordered by where they start, ties in their order.
pub open spec fn sort_views_by_start(s: Seq<TokenView>) -> Seq<TokenView> {
    sort_by(s, |t: TokenView| (t.char_range.0 as int, 0int))
}

proof fn lemma_sort_tokens_view(s: Seq<AnnotatedToken>)
    ensures
        tokens_view(stable_sort(s)) == sort_views_by_start(tokens_view(s)),
{
    let f = |t: AnnotatedToken| t.rank();
    let g = |t: TokenView| (t.char_range.0 as int, 0int);
    let m = |t: AnnotatedToken| t@;
    assert forall|x: AnnotatedToken| #[trigger] f(x) == g(m(x)) by {}
    lemma_sort_map(s, f, g, m);
    assert(tokens_view(stable_sort(s)) =~= sort_by(s, f).map_values(m));
    assert(tokens_view(s) =~= s.map_values(m));
}

/// How many of the first `n` tokens start before `x`.
pub open spec fn count_before(s: Seq<TokenView>, x: usize, n: int) -> nat
    decreases n,
{
    if n <= 0 {
        0
    } else {
        count_before(s, x, n - 1) + (if s[n - 1].char_range.0 < x { 1nat } else { 0nat })
    }
}

/// Some token starts after `x`.
pub open spec fn any_after(s: Seq<TokenView>, x: usize) -> bool {
    exists|k: int| 0 <= k < s.len() && (#[trigger] s[k]).char_range.0 > x
}

fn count_and_order(tokens: &Vec<AnnotatedToken>, x: usize) -> (r: (usize, bool))
    ensures
        r.0 == count_before(tokens_view(tokens@), x, tokens@.len() as int),
        r.1 == any_after(tokens_view(tokens@), x),
{
    let ghost tv = tokens_view(tokens@);
    let mut count: usize = 0;
    let mut after = false;
    for i in 0..tokens.len()
        invariant
            tv == tokens_view(tokens@),
            count == count_before(tv, x, i as int),
            count <= i,
            after == exists|k: int| 0 <= k < i && (#[trigger] tv[k]).char_range.0 > x,
    {
        if tokens[i].bunsetsu.char_range.0 < x {
            count += 1;
        }
        if tokens[i].bunsetsu.char_range.0 > x {
            after = true;
        }
        proof {
            assert(tv[i as int].char_range == tokens@[i as int].bunsetsu.char_range);
        }
    }
    (count, after)
}

/// The ranges of the analysed chunks among the first `n`, in chunk order.
pub open spec fn analyzed_ranges(chunks: Seq<DocumentChunk>, analyzed: Seq<bool>, n: int) -> Seq<(usize, usize)>
    decreases n,
{
    if n <= 0 {
        seq![]
    } else {
        let p = analyzed_ranges(chunks, analyzed, n - 1);
        if analyzed[n - 1] {
            p.push(chunks[n - 1].char_range)
        } else {
            p
        }
    }
}

/// The end index of the batch that starts at chunk `j0`, scanning from `j`:
/// the batch takes unanalysed chunks until one is analysed, the chunks run
/// out, or it spans at least `max(target, 1)` characters.
pub open spec fn batch_extent(
    chunks: Seq<DocumentChunk>,
    analyzed: Seq<bool>,
    first_start: usize,
    target: usize,
    j: int,
) -> int
    decreases chunks.len() - j,
{
    if j >= chunks.len() || j < 0 || analyzed[j] {
        j
    } else if (if chunks[j].char_range.1 >= first_start { chunks[j].char_range.1 - first_start } else { 0 }) >= (if target >= 1 { target as int } else { 1 }) {
        j + 1
    } else {
        batch_extent(chunks, analyzed, first_start, target, j + 1)
    }
}

proof fn lemma_batch_extent_bounds(chunks: Seq<DocumentChunk>, analyzed: Seq<bool>, first_start: usize, target: usize, j: int)
    requires
        0 <= j <= chunks.len(),
    ensures
        j <= batch_extent(chunks, analyzed, first_start, target, j) <= chunks.len(),
    decreases chunks.len() - j,
{
    if j < chunks.len() && !analyzed[j] {
        lemma_batch_extent_bounds(chunks, analyzed, first_start, target, j + 1);
    }
}

/// The sources of chunks `a` to `b`, joined.
pub open spec fn joined_sources(chunks: Seq<DocumentChunk>, a: int, b: int) -> Seq<char>
    decreases b - a,
{
    if b <= a {
        seq![]
    } else {
        joined_sources(chunks, a, b - 1) + chunks[b - 1].source@
    }
}

/// The first chunk at or after `i` that is not analysed yet, or -1.
pub open spec fn first_unanalyzed(analyzed: Seq<bool>, i: int) -> int
    decreases analyzed.len() - i,
{
    if i >= analyzed.len() || i < 0 {
        -1
    } else if !analyzed[i] {
        i
    } else {
        first_unanalyzed(analyzed, i + 1)
    }
}

/// The first chunk at or after `i` that is not analysed yet and meets `r`, or -1.
pub open spec fn first_missing_in(chunks: Seq<DocumentChunk>, analyzed: Seq<bool>, r: (usize, usize), i: int) -> int
    decreases chunks.len() - i,
{
    if i >= chunks.len() || i < 0 {
        -1
    } else if !analyzed[i] && spec_ranges_intersect(chunks[i].char_range, r) {
        i
    } else {
        first_missing_in(chunks, analyzed, r, i + 1)
    }
}

/// No chunk from `i` on is unanalysed exactly when every one is analysed.
proof fn lemma_none_unanalyzed(analyzed: Seq<bool>, i: int)
    requires
        0 <= i <= analyzed.len(),
    ensures
        first_unanalyzed(analyzed, i) == -1 <==> forall|k: int| i <= k < analyzed.len() ==> #[trigger] analyzed[k],
    decreases analyzed.len() - i,
{
    if i < analyzed.len() {
        lemma_none_unanalyzed(analyzed, i + 1);
    }
}

proof fn lemma_first_unanalyzed_bounds(analyzed: Seq<bool>, i: int)
    requires
        0 <= i,
    ensures
        first_unanalyzed(analyzed, i) == -1 || (i <= first_unanalyzed(analyzed, i) < analyzed.len()),
    decreases analyzed.len() - i,
{
    if i < analyzed.len() {
        lemma_first_unanalyzed_bounds(analyzed, i + 1);
    }
}

proof fn lemma_first_missing_bounds(chunks: Seq<DocumentChunk>, analyzed: Seq<bool>, r: (usize, usize), i: int)
    requires
        0 <= i,
    ensures
        first_missing_in(chunks, analyzed, r, i) == -1 || (i <= first_missing_in(chunks, analyzed, r, i) < chunks.len()),
    decreases chunks.len() - i,
{
    if i < chunks.len() {
        lemma_first_missing_bounds(chunks, analyzed, r, i + 1);
    }
}



proof fn lemma_merge_well_formed(s: Seq<(usize, usize)>)
    requires
        ranges_well_formed(s),
    ensures
        ranges_well_formed(merge_sorted_ranges(s)),
    decreases s.len(),
{
    if s.len() > 0 {
        assert(ranges_well_formed(s.drop_last())) by {
            assert forall|k: int| 0 <= k < s.drop_last().len() implies (#[trigger] s.drop_last()[k]).0 <= s.drop_last()[k].1 by {
                assert(s.drop_last()[k] == s[k]);
            }
        }
        lemma_merge_well_formed(s.drop_last());
        assert(s.last() == s[s.len() - 1]);
    }
}

proof fn lemma_sort_keeps_well_formed(s: Seq<(usize, usize)>)
    requires
        ranges_well_formed(s),
    ensures
        ranges_well_formed(stable_sort(s)),
{
    let f = |t: (usize, usize)| t.rank();
    lemma_sort_props(s, f);
    let r = sort_by(s, f);
    assert forall|k: int| 0 <= k < r.len() implies (#[trigger] r[k]).0 <= r[k].1 by {
        broadcast use vstd::seq_lib::group_to_multiset_ensures;
        assert(r.to_multiset().count(r[k]) > 0);
        assert(s.to_multiset().count(r[k]) > 0);
        assert(s.contains(r[k]));
        let m = choose|m: int| 0 <= m < s.len() && s[m] == r[k];
    }
}

proof fn lemma_ranges_length_bound(m: Seq<(usize, usize)>)
    requires
        ranges_disjoint_sorted(m),
        ranges_well_formed(m),
        m.len() > 0,
    ensures
        0 <= ranges_length(m) <= m.last().1,
    decreases m.len(),
{
    let d = m.drop_last();
    if d.len() > 0 {
        assert(ranges_disjoint_sorted(d)) by {
            assert forall|i: int| 0 <= i < d.len() - 1 implies (#[trigger] d[i]).1 < d[i + 1].0 by {
                assert(d[i] == m[i] && d[i + 1] == m[i + 1]);
            }
        }
        assert(ranges_well_formed(d)) by {
            assert forall|k: int| 0 <= k < d.len() implies (#[trigger] d[k]).0 <= d[k].1 by {
                assert(d[k] == m[k]);
            }
        }
        lemma_ranges_length_bound(d);
        assert(m[m.len() - 2].1 < m[m.len() - 1].0);
        assert(d.last() == m[m.len() - 2]);
    }
    assert(m.last().0 <= m.last().1) by { assert(m.last() == m[m.len() - 1]); }
    assert(ranges_length(m) == ranges_length(d) + (m.last().1 - m.last().0));
    if d.len() == 0 {
        assert(ranges_length(d) == 0);
    }
}

/// Merged invalidation ranges are well formed when the input ranges are, and
/// their total length never exceeds where the last one ends.
pub proof fn merged_ranges_fit(ranges: Seq<(usize, usize)>)
    requires
        ranges_well_formed(ranges),
    ensures
        ranges_well_formed(spec_merge_char_ranges(ranges)),
        ranges_disjoint_sorted(spec_merge_char_ranges(ranges)),
        spec_merge_char_ranges(ranges).len() > 0 ==> 0 <= ranges_length(spec_merge_char_ranges(ranges)) <= spec_merge_char_ranges(ranges).last().1,
{
    lemma_sort_keeps_well_formed(ranges);
    lemma_merge_well_formed(stable_sort(ranges));
    merged_ranges_are_disjoint(ranges);
    if spec_merge_char_ranges(ranges).len() > 0 {
        lemma_ranges_length_bound(spec_merge_char_ranges(ranges));
    }
}

/// The tokens among the first `n` whose ranges meet `r`, in order.
pub open spec fn pick_tokens(s: Seq<TokenView>, r: (usize, usize), n: int) -> Seq<TokenView>
    decreases n,
{
    if n <= 0 {
        seq![]
    } else {
        let p = pick_tokens(s, r, n - 1);
        if spec_ranges_intersect(s[n - 1].char_range, r) { p.push(s[n - 1]) } else { p }
    }
}

/// The tokens among the first `n` whose ranges miss `r`, in order.
pub open spec fn skip_tokens(s: Seq<TokenView>, r: (usize, usize), n: int) -> Seq<TokenView>
    decreases n,
{
    if n <= 0 {
        seq![]
    } else {
        let p = skip_tokens(s, r, n - 1);
        if spec_ranges_intersect(s[n - 1].char_range, r) { p } else { p.push(s[n - 1]) }
    }
}

proof fn lemma_skipped_miss(s: Seq<TokenView>, r: (usize, usize), n: int)
    requires
        0 <= n <= s.len(),
    ensures
        forall|k: int| 0 <= k < skip_tokens(s, r, n).len() ==> !spec_ranges_intersect(#[trigger] skip_tokens(s, r, n)[k].char_range, r),
    decreases n,
{
    if n > 0 {
        lemma_skipped_miss(s, r, n - 1);
        let p = skip_tokens(s, r, n - 1);
        if !spec_ranges_intersect(s[n - 1].char_range, r) {
            assert forall|k: int| 0 <= k < p.push(s[n - 1]).len() implies !spec_ranges_intersect(#[trigger] p.push(s[n - 1])[k].char_range, r) by {
                if k < p.len() {
                    assert(p.push(s[n - 1])[k] == p[k]);
                }
            }
        }
    }
}

proof fn lemma_pick_none(s: Seq<TokenView>, r: (usize, usize), n: int)
    requires
        0 <= n <= s.len(),
        forall|k: int| 0 <= k < s.len() ==> !spec_ranges_intersect(#[trigger] s[k].char_range, r),
    ensures
        pick_tokens(s, r, n).len() == 0,
    decreases n,
{
    if n > 0 {
        lemma_pick_none(s, r, n - 1);
    }
}

/// Taking the cached tokens of a batch leaves none that meet it: a second
/// take with the same batch finds nothing.
pub proof fn lemma_second_take_finds_nothing(cached: Seq<TokenView>, r: (usize, usize))
    ensures
        ({
            let rest = skip_tokens(cached, r, cached.len() as int);
            pick_tokens(rest, r, rest.len() as int).len() == 0
        }),
{
    lemma_skipped_miss(cached, r, cached.len() as int);
    let rest = skip_tokens(cached, r, cached.len() as int);
    lemma_pick_none(rest, r, rest.len() as int);
}

/// The identities of the tokens among the first `n` whose ranges meet `r`.
pub open spec fn pick_ids(ids: Seq<Seq<char>>, s: Seq<TokenView>, r: (usize, usize), n: int) -> Seq<Seq<char>>
    decreases n,
{
    if n <= 0 {
        seq![]
    } else {
        let p = pick_ids(ids, s, r, n - 1);
        if spec_ranges_intersect(s[n - 1].char_range, r) { p.push(ids[n - 1]) } else { p }
    }
}

/// The identities among the first `n` of `prev` that `next` lacks, each once, in order.
pub open spec fn removed_ids(prev: Seq<Seq<char>>, next: Seq<Seq<char>>, n: int) -> Seq<Seq<char>>
    decreases n,
{
    if n <= 0 {
        seq![]
    } else {
        let r = removed_ids(prev, next, n - 1);
        let x = prev[n - 1];
        if !next.contains(x) && !r.contains(x) { r.push(x) } else { r }
    }
}

/// A sorted index list with repeats and indices from `len` on dropped.
pub open spec fn distinct_below(sorted: Seq<usize>, len: usize, n: int) -> Seq<usize>
    decreases n,
{
    if n <= 0 {
        seq![]
    } else {
        let r = distinct_below(sorted, len, n - 1);
        let x = sorted[n - 1];
        if x < len && (r.len() == 0 || r.last() != x) { r.push(x) } else { r }
    }
}

/// The changed indices a mutation reports: sorted, each once, inside the token list.
pub open spec fn normalized_indices(changed: Seq<usize>, len: usize) -> Seq<usize> {
    let sorted = stable_sort(changed);
    distinct_below(sorted, len, sorted.len() as int)
}

/// The total length of the ranges.
pub open spec fn ranges_length(s: Seq<(usize, usize)>) -> int
    decreases s.len(),
{
    if s.len() == 0 {
        0
    } else {
        ranges_length(s.drop_last()) + (s.last().1 - s.last().0)
    }
}

/// The ranges of all stage invalidations, stage after stage.
pub open spec fn all_stage_ranges(s: Seq<StageInvalidation>) -> Seq<(usize, usize)>
    decreases s.len(),
{
    if s.len() == 0 {
        seq![]
    } else {
        all_stage_ranges(s.drop_last()) + s.last().char_ranges@
    }
}

pub open spec fn ranges_well_formed(s: Seq<(usize, usize)>) -> bool {
    forall|k: int| 0 <= k < s.len() ==> (#[trigger] s[k]).0 <= s[k].1
}

impl Ranked for usize {
    open spec fn rank(&self) -> (int, int) {
        (*self as int, 0)
    }

    fn rank_of(&self) -> (r: (i128, i128)) {
        (*self as i128, 0)
    }
}

/// The tokens after a batch is added: appended in place when it comes after
/// every token, otherwise sorted by start with expression token ranges re-derived.
pub open spec fn after_append(old: Seq<TokenView>, added: Seq<TokenView>, out_of_order: bool) -> Seq<TokenView> {
    if out_of_order {
        let sorted = sort_views_by_start(old + added);
        sorted.map_values(|t: TokenView| reindexed_token(token_ranges(sorted), t))
    } else {
        old + added
    }
}

pub struct DocumentSession {
    pub session_id: String,
    pub revision: u64,
    pub source: String,
    pub tokens: Vec<AnnotatedToken>,
    token_ids: Vec<String>,
    fingerprint: PipelineFingerprint,
    encoder: CompactEncoder,
    chunks: Vec<DocumentChunk>,
    analyzed_chunks: Vec<bool>,
    document_char_range: (usize, usize),
    record_exposure_on_complete: bool,
    exposure_recorded: bool,
    cached_stable_tokens: Vec<AnnotatedToken>,
    stable_tokens_for_cache: Vec<AnnotatedToken>,
}

impl DocumentSession {
    /// The session's own consistency: one identity per token, one flag per chunk,
    /// a string table without repeats.
    pub closed spec fn wf(&self) -> bool {
        &&& self.token_ids@.len() == self.tokens@.len()
        &&& self.analyzed_chunks@.len() == self.chunks@.len()
        &&& self.encoder.wf()
    }

    /// The token identities, in token order.
    pub closed spec fn ids(&self) -> Seq<Seq<char>> {
        strings_view(self.token_ids@)
    }

    pub closed spec fn current_revision(&self) -> u64 {
        self.revision
    }

    /// The views of the session's tokens.
    pub closed spec fn token_views(&self) -> Seq<TokenView> {
        tokens_view(self.tokens@)
    }

    pub closed spec fn session_name(&self) -> Seq<char> {
        self.session_id@
    }

    pub closed spec fn source_text(&self) -> Seq<char> {
        self.source@
    }

    pub closed spec fn chunk_list(&self) -> Seq<DocumentChunk> {
        self.chunks@
    }

    pub closed spec fn analyzed(&self) -> Seq<bool> {
        self.analyzed_chunks@
    }

    /// Every chunk is analysed (vacuously so for a session without chunks).
    pub open spec fn complete(&self) -> bool {
        forall|k: int| 0 <= k < self.analyzed().len() ==> #[trigger] self.analyzed()[k]
    }

    /// A well-formed session has one analysed flag per chunk.
    pub proof fn lemma_flag_per_chunk(&self)
        requires
            self.wf(),
        ensures
            self.analyzed().len() == self.chunk_list().len(),
    {
    }

    /// The merged ranges of the analysed chunks.
    pub closed spec fn available(&self) -> Seq<(usize, usize)> {
        spec_merge_char_ranges(analyzed_ranges(self.chunks@, self.analyzed_chunks@, self.chunks@.len() as int))
    }

    /// Exposure is asked for on completion and not yet recorded.
    pub open spec fn exposure_pending(&self) -> bool {
        self.exposure_flags().0 && !self.exposure_flags().1
    }

    pub closed spec fn exposure_flags(&self) -> (bool, bool) {
        (self.record_exposure_on_complete, self.exposure_recorded)
    }

    pub closed spec fn stored_char_range(&self) -> (usize, usize) {
        self.document_char_range
    }

    pub closed spec fn table(&self) -> Seq<Seq<char>> {
        self.encoder.table()
    }

    pub closed spec fn cached(&self) -> Seq<TokenView> {
        tokens_view(self.cached_stable_tokens@)
    }

    pub closed spec fn stable_for_cache(&self) -> Seq<TokenView> {
        tokens_view(self.stable_tokens_for_cache@)
    }

    /// A session over analysed tokens, at revision 1, with no chunks to analyse.
    pub fn new(session_id: String, source: String, tokens: Vec<AnnotatedToken>) -> (s: Self)
        ensures
            s.wf(),
            s.session_name() == session_id@,
            s.source_text() == source@,
            s.current_revision() == 1,
            s.token_views() == tokens_view(tokens@),
            s.ids() == spec_stable_ids(tokens_view(tokens@)),
            s.chunk_list().len() == 0,
            s.analyzed().len() == 0,
            s.complete(),
            !s.exposure_pending(),
            s.stored_char_range() == spec_document_char_range(tokens_view(tokens@)),
            s.exposure_flags() == (false, false),
            s.table().len() == 0,
            s.cached().len() == 0,
            s.stable_for_cache().len() == 0,
    {
        let token_ids = stable_token_ids(&tokens);
        let document_char_range = document_char_range(&tokens);
        DocumentSession {
            session_id,
            revision: 1,
            source,
            tokens,
            token_ids,
            fingerprint: PipelineFingerprint::default(),
            encoder: CompactEncoder::new(),
            chunks: Vec::new(),
            analyzed_chunks: Vec::new(),
            document_char_range,
            record_exposure_on_complete: false,
            exposure_recorded: false,
            cached_stable_tokens: Vec::new(),
            stable_tokens_for_cache: Vec::new(),
        }
    }

    /// A session at revision 0 whose document is analysed line by line.
    pub fn new_progressive(session_id: String, source: String, record_exposure_on_complete: bool) -> (s: Self)
        ensures
            s.wf(),
            s.session_name() == session_id@,
            s.source_text() == source@,
            s.current_revision() == 0,
            s.token_views().len() == 0,
            s.ids().len() == 0,
            chunks_match_lines(s.chunk_list(), split_lines(source@)),
            s.analyzed().len() == s.chunk_list().len(),
            forall|k: int| 0 <= k < s.analyzed().len() ==> !#[trigger] s.analyzed()[k],
            s.chunk_list().len() == 0 <==> source@.len() == 0,
            s.complete() <==> source@.len() == 0,
            s.exposure_pending() == record_exposure_on_complete,
            s.stored_char_range() == (0usize, lines_offset(split_lines(source@), split_lines(source@).len() as int) as usize),
            s.exposure_flags() == (record_exposure_on_complete, false),
            s.table().len() == 0,
            s.cached().len() == 0,
            s.stable_for_cache().len() == 0,
    {
        let chunks = split_document_chunks(source.as_str());
        proof {
            lemma_lines_empty(source@);
        }
        let chunk_count = chunks.len();
        let document_end = if chunk_count == 0 { 0 } else { chunks[chunk_count - 1].char_range.1 };
        let mut analyzed_chunks: Vec<bool> = Vec::new();
        for i in 0..chunk_count
            invariant
                analyzed_chunks@.len() == i,
                forall|k: int| 0 <= k < i ==> !#[trigger] analyzed_chunks@[k],
        {
            analyzed_chunks.push(false);
        }
        let s = DocumentSession {
            session_id,
            revision: 0,
            source,
            tokens: Vec::new(),
            token_ids: Vec::new(),
            fingerprint: PipelineFingerprint::default(),
            encoder: CompactEncoder::new(),
            chunks,
            analyzed_chunks,
            document_char_range: (0, document_end),
            record_exposure_on_complete,
            exposure_recorded: false,
            cached_stable_tokens: Vec::new(),
            stable_tokens_for_cache: Vec::new(),
        };
        proof {
            if s.analyzed().len() > 0 {
                assert(!s.analyzed()[0]);
            }
        }
        s
    }

    /// The stable identity of each token, in token order.
    pub fn token_ids(&self) -> (r: &[String])
        ensures
            strings_view(r@) == self.ids(),
    {
        self.token_ids.as_slice()
    }

    /// `Ok` exactly when `base_revision` is the current revision.
    pub fn require_revision(&self, base_revision: u64) -> (r: Result<(), SessionRevisionError>)
        ensures
            r is Ok <==> self.current_revision() == base_revision,
            r matches Err(e) ==> e == (SessionRevisionError { expected: self.current_revision(), received: base_revision }),
    {
        if self.revision == base_revision {
            Ok(())
        } else {
            Err(SessionRevisionError { expected: self.revision, received: base_revision })
        }
    }

    pub fn char_range(&self) -> (r: (usize, usize))
        ensures
            r == self.stored_char_range(),
    {
        self.document_char_range
    }

    pub fn is_complete(&self) -> (b: bool)
        ensures
            b == self.complete(),
    {
        let mut all = true;
        for i in 0..self.analyzed_chunks.len()
            invariant
                self.analyzed() == self.analyzed_chunks@,
                all == forall|k: int| 0 <= k < i ==> #[trigger] self.analyzed()[k],
        {
            if !self.analyzed_chunks[i] {
                all = false;
            }
        }
        all
    }

    /// Exposure is recorded once, when a progressive document asked for it is complete.
    pub fn should_record_exposure(&self) -> (b: bool)
        ensures
            b == (self.complete() && self.exposure_pending()),
    {
        self.is_complete() && self.record_exposure_on_complete && !self.exposure_recorded
    }

    pub fn mark_exposure_recorded(&mut self)
        requires
            old(self).wf(),
        ensures
            final(self).wf(),
            !final(self).exposure_pending(),
            final(self).exposure_flags() == (old(self).exposure_flags().0, true),
            final(self).current_revision() == old(self).current_revision(),
            final(self).session_name() == old(self).session_name(),
            final(self).source_text() == old(self).source_text(),
            final(self).token_views() == old(self).token_views(),
            final(self).ids() == old(self).ids(),
            final(self).analyzed() == old(self).analyzed(),
            final(self).chunk_list() == old(self).chunk_list(),
            final(self).stored_char_range() == old(self).stored_char_range(),
            final(self).table() == old(self).table(),
            final(self).cached() == old(self).cached(),
            final(self).stable_for_cache() == old(self).stable_for_cache(),
    {
        self.exposure_recorded = true;
    }

    pub fn set_cached_stable_tokens(&mut self, tokens: Vec<AnnotatedToken>)
        requires
            old(self).wf(),
        ensures
            final(self).wf(),
            final(self).exposure_flags() == old(self).exposure_flags(),
            final(self).cached() == tokens_view(tokens@),
            final(self).current_revision() == old(self).current_revision(),
            final(self).ids() == old(self).ids(),
            final(self).analyzed() == old(self).analyzed(),
    {
        self.cached_stable_tokens = tokens;
    }

    pub fn stable_tokens_for_cache(&self) -> (r: &[AnnotatedToken])
        ensures
            tokens_view(r@) == self.stable_for_cache(),
    {
        self.stable_tokens_for_cache.as_slice()
    }

    fn available_ranges(&self) -> (r: Vec<(usize, usize)>)
        requires
            self.wf(),
        ensures
            r@ == self.available(),
    {
        let mut ranges: Vec<(usize, usize)> = Vec::new();
        for i in 0..self.chunks.len()
            invariant
                self.wf(),
                ranges@ == analyzed_ranges(self.chunks@, self.analyzed_chunks@, i as int),
        {
            if self.analyzed_chunks[i] {
                ranges.push(self.chunks[i].char_range);
            }
        }
        merge_char_ranges(ranges)
    }

    /// `b` is the batch that starts at chunk `start`, for the given target size.
    pub open spec fn is_batch_from(&self, b: DocumentBatch, start: int, target: usize) -> bool {
        let chunks = self.chunk_list();
        let first_start = chunks[start].char_range.0;
        let e = batch_extent(chunks, self.analyzed(), first_start, target, start);
        &&& 0 <= start < chunks.len()
        &&& b.chunk_start == start
        &&& b.chunk_end == e
        &&& b.char_range == (first_start, if e > start { chunks[e - 1].char_range.1 } else { first_start })
        &&& b.source@ == joined_sources(chunks, start, e)
    }

    fn batch_from_chunk(&self, chunk_start: usize, target_characters: usize) -> (r: Option<DocumentBatch>)
        requires
            self.wf(),
        ensures
            r is None <==> chunk_start >= self.chunk_list().len(),
            r matches Some(b) ==> self.is_batch_from(b, chunk_start as int, target_characters),
    {
        if chunk_start >= self.chunks.len() {
            return None;
        }
        let first_start = self.chunks[chunk_start].char_range.0;
        let goal = if target_characters >= 1 { target_characters } else { 1 };
        let mut source = String::new();
        let mut chunk_end = chunk_start;
        let mut end = first_start;
        let mut stop = false;
        let ghost chunks = self.chunks@;
        let ghost analyzed = self.analyzed_chunks@;
        proof {
            lemma_batch_extent_bounds(chunks, analyzed, first_start, target_characters, chunk_start as int);
        }
        while !stop && chunk_end < self.chunks.len() && !self.analyzed_chunks[chunk_end]
            invariant
                self.wf(),
                chunks == self.chunks@,
                analyzed == self.analyzed_chunks@,
                chunk_start < chunks.len(),
                first_start == chunks[chunk_start as int].char_range.0,
                goal == (if target_characters >= 1 { target_characters } else { 1 }),
                chunk_start <= chunk_end <= chunks.len(),
                batch_extent(chunks, analyzed, first_start, target_characters, chunk_start as int) == (if stop {
                    chunk_end as int
                } else {
                    batch_extent(chunks, analyzed, first_start, target_characters, chunk_end as int)
                }),
                source@ == joined_sources(chunks, chunk_start as int, chunk_end as int),
                end == (if chunk_end > chunk_start { chunks[chunk_end - 1].char_range.1 } else { first_start }),
            decreases chunks.len() - chunk_end,
        {
            let chunk = &self.chunks[chunk_end];
            source.append(chunk.source.as_str());
            end = chunk.char_range.1;
            chunk_end += 1;
            let span = if end >= first_start { end - first_start } else { 0 };
            if span >= goal {
                stop = true;
            }
        }
        Some(DocumentBatch { source, char_range: (first_start, end), chunk_start, chunk_end })
    }

    /// The batch starting at the first chunk that is not analysed yet.
    pub fn next_batch(&self, target_characters: usize) -> (r: Option<DocumentBatch>)
        requires
            self.wf(),
        ensures
            r is None <==> first_unanalyzed(self.analyzed(), 0) == -1,
            r is None <==> self.complete(),
            r matches Some(b) ==> self.is_batch_from(b, first_unanalyzed(self.analyzed(), 0), target_characters),
    {
        proof {
            lemma_none_unanalyzed(self.analyzed(), 0);
        }
        let n = self.analyzed_chunks.len();
        let mut found = false;
        let mut first: usize = 0;
        let mut i = n;
        while i > 0
            invariant
                self.wf(),
                i <= n == self.analyzed_chunks@.len(),
                found == (first_unanalyzed(self.analyzed_chunks@, i as int) != -1),
                found ==> first == first_unanalyzed(self.analyzed_chunks@, i as int),
            decreases i,
        {
            i -= 1;
            if !self.analyzed_chunks[i] {
                found = true;
                first = i;
            }
        }
        if !found {
            return None;
        }
        proof { lemma_first_unanalyzed_bounds(self.analyzed_chunks@, 0); }
        self.batch_from_chunk(first, target_characters)
    }

    /// The batch starting at the first unanalysed chunk that meets `char_range`.
    pub fn batch_for_range(&self, char_range: (usize, usize), target_characters: usize) -> (r: Option<DocumentBatch>)
        requires
            self.wf(),
        ensures
            r is None <==> first_missing_in(self.chunk_list(), self.analyzed(), char_range, 0) == -1,
            r matches Some(b) ==> self.is_batch_from(b, first_missing_in(self.chunk_list(), self.analyzed(), char_range, 0), target_characters),
    {
        let n = self.chunks.len();
        let mut found = false;
        let mut first: usize = 0;
        let mut i = n;
        while i > 0
            invariant
                self.wf(),
                i <= n == self.chunks@.len(),
                found == (first_missing_in(self.chunks@, self.analyzed_chunks@, char_range, i as int) != -1),
                found ==> first == first_missing_in(self.chunks@, self.analyzed_chunks@, char_range, i as int),
            decreases i,
        {
            i -= 1;
            if !self.analyzed_chunks[i] && ranges_intersect(self.chunks[i].char_range, char_range) {
                found = true;
                first = i;
            }
        }
        if !found {
            return None;
        }
        proof { lemma_first_missing_bounds(self.chunks@, self.analyzed_chunks@, char_range, 0); }
        self.batch_from_chunk(first, target_characters)
    }

    pub closed spec fn pipeline_fingerprint(&self) -> PipelineFingerprint {
        self.fingerprint
    }

    /// The patch was produced by `new` from `old`: it carries the session's
    /// identity, revision, fingerprint and state, and encodes `v` against the
    /// string table; the strings it adds are exactly those that `v` uses and
    /// the table lacked, each once.
    pub open spec fn emitted(old: DocumentSession, new: DocumentSession, patch: AnalysisPatch, v: Seq<TokenView>) -> bool {
        &&& patch.session_id@ == new.session_name()
        &&& patch.revision == new.current_revision()
        &&& patch.fingerprint == new.pipeline_fingerprint()
        &&& patch.analysis.b == old.table().len()
        &&& new.table() == old.table() + strings_view(patch.analysis.s@)
        &&& encodes(patch.analysis.t@, new.table(), v)
        &&& forall|k: int| 0 <= k < patch.analysis.s@.len() ==> !old.table().contains(#[trigger] patch.analysis.s@[k]@)
        &&& forall|k: int| 0 <= k < patch.analysis.s@.len() ==> uses_string(v, #[trigger] patch.analysis.s@[k]@)
        &&& forall|x: Seq<char>| #![trigger uses_string(v, x)]
            uses_string(v, x) && !old.table().contains(x) ==> strings_view(patch.analysis.s@).contains(x)
        &&& patch.document_char_range == new.stored_char_range()
        &&& patch.available_ranges@ == new.available()
        &&& patch.complete == new.complete()
    }

    spec fn same_except_encoder(a: &DocumentSession, b: &DocumentSession) -> bool {
        &&& a.session_id == b.session_id
        &&& a.revision == b.revision
        &&& a.source == b.source
        &&& a.tokens == b.tokens
        &&& a.token_ids == b.token_ids
        &&& a.fingerprint == b.fingerprint
        &&& a.chunks == b.chunks
        &&& a.analyzed_chunks == b.analyzed_chunks
        &&& a.document_char_range == b.document_char_range
        &&& a.record_exposure_on_complete == b.record_exposure_on_complete
        &&& a.exposure_recorded == b.exposure_recorded
        &&& a.cached_stable_tokens == b.cached_stable_tokens
        &&& a.stable_tokens_for_cache == b.stable_tokens_for_cache
    }

    fn emit(
        &mut self,
        base_revision: u64,
        kind: PatchKind,
        char_range: (usize, usize),
        removed_token_ids: Vec<String>,
        token_ids: Vec<String>,
        ordered_token_ids: Vec<String>,
        patch_tokens: &[AnnotatedToken],
        invalidation: Option<InvalidationReport>,
    ) -> (patch: AnalysisPatch)
        requires
            old(self).wf(),
        ensures
            final(self).wf(),
            Self::same_except_encoder(old(self), final(self)),
            Self::emitted(*old(self), *final(self), patch, tokens_view(patch_tokens@)),
            patch.base_revision == base_revision,
            patch.kind == kind,
            patch.char_range == char_range,
            patch.removed_token_ids == removed_token_ids,
            patch.token_ids == token_ids,
            patch.ordered_token_ids == ordered_token_ids,
            patch.invalidation == invalidation,
    {
        let available_ranges = self.available_ranges();
        let complete = self.is_complete();
        let ghost before = self.encoder.table();
        let ghost complete_before = self.complete();
        let analysis = self.encoder.encode_patch(patch_tokens);
        assert(self.analyzed() == old(self).analyzed());
        assert(self.complete() == complete_before);
        proof {
            let v = tokens_view(patch_tokens@);
            assert(encodes(analysis.t@, self.encoder.table(), v));
            let ts = token_strings(patch_tokens@, patch_tokens@.len() as int);
            assert forall|k: int| 0 <= k < analysis.s@.len() implies uses_string(v, #[trigger] analysis.s@[k]@) by {
                let m = choose|m: int| 0 <= m < ts.len() && ts[m] == analysis.s@[k]@;
                let j = m / 2;
                assert(v[j].surface == patch_tokens@[j].bunsetsu.surface@);
                assert(v[j].display_class == patch_tokens@[j].display_class@);
            }
            let table = self.encoder.table();
            let added = strings_view(analysis.s@);
            assert forall|x: Seq<char>| #![trigger uses_string(v, x)]
                uses_string(v, x) && !before.contains(x) implies added.contains(x) by {
                let j = choose|j: int| 0 <= j < v.len() && (v[j].surface == x || v[j].display_class == x);
                let idx = if v[j].surface == x { analysis.t@[j].surface as int } else { analysis.t@[j].display_class as int };
                assert(table[idx] == x);
                if idx < before.len() {
                    assert(before[idx] == table[idx]);
                } else {
                    assert(added[idx - before.len()] == table[idx]);
                }
            }
        }
        AnalysisPatch {
            session_id: self.session_id.clone(),
            base_revision,
            revision: self.revision,
            kind,
            char_range,
            removed_token_ids,
            token_ids,
            ordered_token_ids,
            analysis,
            fingerprint: self.fingerprint,
            invalidation,
            document_char_range: self.document_char_range,
            available_ranges,
            complete,
        }
    }

    /// The whole current token list as one patch.
    pub fn full_patch(&mut self, base_revision: u64) -> (patch: AnalysisPatch)
        requires
            old(self).wf(),
        ensures
            final(self).wf(),
            final(self).exposure_flags() == old(self).exposure_flags(),
            final(self).current_revision() == old(self).current_revision(),
            final(self).token_views() == old(self).token_views(),
            final(self).ids() == old(self).ids(),
            final(self).analyzed() == old(self).analyzed(),
            final(self).chunk_list() == old(self).chunk_list(),
            Self::emitted(*old(self), *final(self), patch, old(self).token_views()),
            patch.base_revision == base_revision,
            patch.kind == PatchKind::FullReplace,
            patch.char_range == spec_document_char_range(old(self).token_views()),
            patch.removed_token_ids@.len() == 0,
            strings_view(patch.token_ids@) == old(self).ids(),
            strings_view(patch.ordered_token_ids@) == old(self).ids(),
            patch.invalidation is None,
    {
        let char_range = document_char_range(&self.tokens);
        let token_ids = copy_strings(&self.token_ids);
        let ordered = copy_strings(&self.token_ids);
        let tokens = copy_tokens(&self.tokens);
        let patch = self.emit(base_revision, PatchKind::FullReplace, char_range, Vec::new(), token_ids, ordered, &tokens, None);
        patch
    }

    /// The tokens that meet `char_range`, with their identities, against the current revision.
    pub fn range_patch(&mut self, base_revision: u64, char_range: (usize, usize)) -> (r: Result<AnalysisPatch, SessionRevisionError>)
        requires
            old(self).wf(),
        ensures
            final(self).wf(),
            final(self).exposure_flags() == old(self).exposure_flags(),
            r is Ok <==> old(self).current_revision() == base_revision,
            r matches Err(e) ==> e == (SessionRevisionError { expected: old(self).current_revision(), received: base_revision }) && *final(self) == *old(self),
            final(self).current_revision() == old(self).current_revision(),
            final(self).token_views() == old(self).token_views(),
            final(self).ids() == old(self).ids(),
            final(self).analyzed() == old(self).analyzed(),
            r matches Ok(patch) ==> {
                let v = old(self).token_views();
                &&& Self::emitted(*old(self), *final(self), patch, pick_tokens(v, char_range, v.len() as int))
                &&& patch.base_revision == base_revision
                &&& patch.kind == PatchKind::RangeReplace
                &&& patch.char_range == char_range
                &&& patch.removed_token_ids@.len() == 0
                &&& strings_view(patch.token_ids@) == pick_ids(old(self).ids(), v, char_range, v.len() as int)
                &&& strings_view(patch.ordered_token_ids@) == old(self).ids()
                &&& patch.invalidation is None
            },
    {
        if self.revision != base_revision {
            return Err(SessionRevisionError { expected: self.revision, received: base_revision });
        }
        let ghost v = tokens_view(self.tokens@);
        let ghost ids = strings_view(self.token_ids@);
        let mut token_ids: Vec<String> = Vec::new();
        let mut tokens: Vec<AnnotatedToken> = Vec::new();
        for i in 0..self.tokens.len()
            invariant
                self.wf(),
                v == tokens_view(self.tokens@),
                ids == strings_view(self.token_ids@),
                tokens_view(tokens@) == pick_tokens(v, char_range, i as int),
                strings_view(token_ids@) == pick_ids(ids, v, char_range, i as int),
        {
            if ranges_intersect(self.tokens[i].bunsetsu.char_range, char_range) {
                token_ids.push(self.token_ids[i].clone());
                tokens.push(self.tokens[i].copy());
                assert(tokens_view(tokens@) =~= pick_tokens(v, char_range, i + 1));
                assert(strings_view(token_ids@) =~= pick_ids(ids, v, char_range, i + 1));
            }
        }
        let ordered = copy_strings(&self.token_ids);
        let patch = self.emit(base_revision, PatchKind::RangeReplace, char_range, Vec::new(), token_ids, ordered, &tokens, None);
        Ok(patch)
    }

    /// Replaces the whole analysis against the current revision; identities
    /// that disappear are reported as removed.
    pub fn replace_all(&mut self, base_revision: u64, source: String, tokens: Vec<AnnotatedToken>) -> (r: Result<AnalysisPatch, SessionRevisionError>)
        requires
            old(self).wf(),
            old(self).current_revision() == base_revision ==> old(self).current_revision() < u64::MAX,
        ensures
            final(self).wf(),
            final(self).exposure_flags() == old(self).exposure_flags(),
            r is Ok <==> old(self).current_revision() == base_revision,
            r matches Err(e) ==> e == (SessionRevisionError { expected: old(self).current_revision(), received: base_revision }) && *final(self) == *old(self),
            r matches Ok(patch) ==> {
                let v = tokens_view(tokens@);
                let next = spec_stable_ids(v);
                &&& final(self).current_revision() == old(self).current_revision() + 1
                &&& final(self).source_text() == source@
                &&& final(self).token_views() == v
                &&& final(self).ids() == next
                &&& final(self).chunk_list().len() == 0
                &&& final(self).stored_char_range() == spec_document_char_range(v)
                &&& Self::emitted(*old(self), *final(self), patch, v)
                &&& patch.base_revision == base_revision
                &&& patch.kind == PatchKind::FullReplace
                &&& patch.char_range == spec_document_char_range(v)
                &&& strings_view(patch.removed_token_ids@) == removed_ids(old(self).ids(), next, old(self).ids().len() as int)
                &&& strings_view(patch.token_ids@) == next
                &&& strings_view(patch.ordered_token_ids@) == next
                &&& patch.invalidation is None
            },
    {
        if self.revision != base_revision {
            return Err(SessionRevisionError { expected: self.revision, received: base_revision });
        }
        let next_ids = stable_token_ids(&tokens);
        let ghost prev = strings_view(self.token_ids@);
        let ghost next = strings_view(next_ids@);
        let mut removed: Vec<String> = Vec::new();
        for i in 0..self.token_ids.len()
            invariant
                prev == strings_view(self.token_ids@),
                next == strings_view(next_ids@),
                strings_view(removed@) == removed_ids(prev, next, i as int),
        {
            let id = &self.token_ids[i];
            let mut in_next = false;
            for j in 0..next_ids.len()
                invariant
                    next == strings_view(next_ids@),
                    in_next == exists|k: int| 0 <= k < j && next[k] == id@,
            {
                assert(next[j as int] == next_ids@[j as int]@);
                if next_ids[j] == *id {
                    in_next = true;
                }
            }
            let mut in_removed = false;
            for j in 0..removed.len()
                invariant
                    in_removed == exists|k: int| 0 <= k < j && strings_view(removed@)[k] == id@,
            {
                assert(strings_view(removed@)[j as int] == removed@[j as int]@);
                if removed[j] == *id {
                    in_removed = true;
                }
            }
            proof {
                assert(prev[i as int] == id@);
                if in_next {
                    let k = choose|k: int| 0 <= k < next_ids@.len() && next[k] == id@;
                    assert(next.contains(id@));
                } else {
                    assert(!next.contains(id@));
                }
                if in_removed {
                    let k = choose|k: int| 0 <= k < removed@.len() && strings_view(removed@)[k] == id@;
                    assert(removed_ids(prev, next, i as int).contains(id@));
                } else {
                    assert(!removed_ids(prev, next, i as int).contains(id@));
                }
            }
            if !in_next && !in_removed {
                removed.push(id.clone());
                assert(strings_view(removed@) =~= removed_ids(prev, next, i + 1));
            }
        }
        self.source = source;
        self.tokens = tokens;
        self.token_ids = next_ids;
        self.chunks = Vec::new();
        self.analyzed_chunks = Vec::new();
        self.document_char_range = document_char_range(&self.tokens);
        self.revision = self.revision + 1;
        let char_range = document_char_range(&self.tokens);
        let token_ids = copy_strings(&self.token_ids);
        let ordered = copy_strings(&self.token_ids);
        let patch_tokens = copy_tokens(&self.tokens);
        let patch = self.emit(base_revision, PatchKind::FullReplace, char_range, removed, token_ids, ordered, &patch_tokens, None);
        Ok(patch)
    }

    /// Adds the analysis of a batch. Tokens come in batch coordinates and are
    /// moved into document coordinates; a batch that lands before existing
    /// tokens reorders the list and resends all identities.
    pub fn append_analyzed_batch(&mut self, base_revision: u64, batch: &DocumentBatch, tokens: Vec<AnnotatedToken>) -> (r: Result<AnalysisPatch, SessionRevisionError>)
        requires
            old(self).wf(),
            old(self).current_revision() == base_revision ==> {
                &&& old(self).current_revision() < u64::MAX
                &&& batch.chunk_start <= batch.chunk_end <= old(self).analyzed().len()
                &&& tokens_shiftable(tokens_view(tokens@), batch.char_range.0,
                    count_before(old(self).token_views(), batch.char_range.0, old(self).token_views().len() as int) as usize)
            },
        ensures
            final(self).wf(),
            final(self).exposure_flags() == old(self).exposure_flags(),
            r is Ok <==> old(self).current_revision() == base_revision,
            r matches Err(e) ==> e == (SessionRevisionError { expected: old(self).current_revision(), received: base_revision }) && *final(self) == *old(self),
            r matches Ok(patch) ==> {
                let ov = old(self).token_views();
                let c = batch.char_range.0;
                let ooo = any_after(ov, c);
                let added = tokens_view(tokens@).map_values(|t: TokenView| shifted_token(t, c, count_before(ov, c, ov.len() as int) as usize));
                let nv = after_append(ov, added, ooo);
                let ids = if ooo { spec_stable_ids(nv) } else { old(self).ids() + spec_stable_ids(added) };
                &&& final(self).current_revision() == old(self).current_revision() + 1
                &&& final(self).token_views() == nv
                &&& final(self).ids() == ids
                &&& final(self).chunk_list() == old(self).chunk_list()
                &&& final(self).analyzed().len() == old(self).analyzed().len()
                &&& forall|k: int| 0 <= k < final(self).analyzed().len() ==> #[trigger] final(self).analyzed()[k]
                    == (old(self).analyzed()[k] || (batch.chunk_start <= k < batch.chunk_end))
                &&& Self::emitted(*old(self), *final(self), patch, if ooo { nv } else { added })
                &&& patch.base_revision == base_revision
                &&& patch.kind == (if base_revision == 0 { PatchKind::FullReplace } else { PatchKind::RangeReplace })
                &&& patch.char_range == batch.char_range
                &&& patch.removed_token_ids@.len() == 0
                &&& strings_view(patch.token_ids@) == (if ooo { ids } else { spec_stable_ids(added) })
                &&& strings_view(patch.ordered_token_ids@) == (if base_revision == 0 || ooo { ids } else { Seq::empty() })
                &&& patch.invalidation is None
            },
    {
        if self.revision != base_revision {
            return Err(SessionRevisionError { expected: self.revision, received: base_revision });
        }
        let ghost ov = tokens_view(self.tokens@);
        let ghost old_ids = strings_view(self.token_ids@);
        let c = batch.char_range.0;
        let (token_offset, out_of_order) = count_and_order(&self.tokens, c);
        let shifted = offset_tokens(&tokens, c, token_offset);
        let ghost added = tokens_view(shifted@);
        let new_ids = stable_token_ids(&shifted);
        let appended_start = self.tokens.len();
        let mut all = copy_tokens(&self.tokens);
        for i in 0..shifted.len()
            invariant
                all@.len() == ov.len() + i,
                forall|m: int| 0 <= m < ov.len() ==> (#[trigger] all@[m])@ == ov[m],
                forall|m: int| ov.len() <= m < all@.len() ==> (#[trigger] all@[m])@ == added[m - ov.len()],
                added == tokens_view(shifted@),
        {
            all.push(shifted[i].copy());
        }
        assert(tokens_view(all@) =~= ov + added);
        if out_of_order {
            let ghost joined = all@;
            let sorted = sort_stable(all);
            proof {
                lemma_sort_tokens_view(joined);
            }
            self.tokens = reindex_expression_token_ranges(&sorted);
            self.token_ids = stable_token_ids(&self.tokens);
        } else {
            self.tokens = all;
            let mut ids = copy_strings(&self.token_ids);
            let mut i: usize = 0;
            while i < new_ids.len()
                invariant
                    i <= new_ids@.len(),
                    ids@.len() == old_ids.len() + i,
                    forall|m: int| 0 <= m < old_ids.len() ==> (#[trigger] ids@[m])@ == old_ids[m],
                    forall|m: int| old_ids.len() <= m < ids@.len() ==> (#[trigger] ids@[m])@ == new_ids@[m - old_ids.len()]@,
                decreases new_ids@.len() - i,
            {
                ids.push(new_ids[i].clone());
                i += 1;
            }
            assert(strings_view(ids@) =~= old_ids + strings_view(new_ids@));
            self.token_ids = ids;
        }
        let ghost before_fill = self.analyzed_chunks@;
        let mut analyzed = self.analyzed_chunks.clone();
        let mut k = batch.chunk_start;
        while k < batch.chunk_end
            invariant
                batch.chunk_start <= k <= batch.chunk_end <= analyzed@.len(),
                analyzed@.len() == before_fill.len(),
                forall|m: int| 0 <= m < before_fill.len() ==> #[trigger] analyzed@[m]
                    == (before_fill[m] || (batch.chunk_start <= m < k)),
            decreases batch.chunk_end - k,
        {
            analyzed.set(k, true);
            k += 1;
        }
        self.analyzed_chunks = analyzed;
        let patch_tokens = if out_of_order {
            copy_tokens(&self.tokens)
        } else {
            copy_tokens(&shifted)
        };
        let patch_ids = if out_of_order {
            copy_strings(&self.token_ids)
        } else {
            copy_strings(&new_ids)
        };
        let ordered = if base_revision == 0 || out_of_order {
            copy_strings(&self.token_ids)
        } else {
            Vec::new()
        };
        self.revision = self.revision + 1;
        let kind = if base_revision == 0 { PatchKind::FullReplace } else { PatchKind::RangeReplace };
        let patch = self.emit(base_revision, kind, batch.char_range, Vec::new(), patch_ids, ordered, &patch_tokens, None);
        proof {
            assert(appended_start == ov.len());
        }
        Ok(patch)
    }

    /// Saves the stable analysis of a batch for the on-disk cache, in document
    /// coordinates and document order.
    pub fn record_stable_batch(&mut self, batch: &DocumentBatch, tokens: Vec<AnnotatedToken>)
        requires
            old(self).wf(),
            tokens_shiftable(tokens_view(tokens@), batch.char_range.0,
                count_before(old(self).stable_for_cache(), batch.char_range.0, old(self).stable_for_cache().len() as int) as usize),
        ensures
            final(self).wf(),
            final(self).exposure_flags() == old(self).exposure_flags(),
            ({
                let ov = old(self).stable_for_cache();
                let c = batch.char_range.0;
                let added = tokens_view(tokens@).map_values(|t: TokenView| shifted_token(t, c, count_before(ov, c, ov.len() as int) as usize));
                final(self).stable_for_cache() == if any_after(ov, c) { sort_views_by_start(ov + added) } else { ov + added }
            }),
            final(self).current_revision() == old(self).current_revision(),
            final(self).token_views() == old(self).token_views(),
            final(self).ids() == old(self).ids(),
            final(self).analyzed() == old(self).analyzed(),
            final(self).cached() == old(self).cached(),
    {
        let ghost ov = tokens_view(self.stable_tokens_for_cache@);
        let c = batch.char_range.0;
        let (token_offset, out_of_order) = count_and_order(&self.stable_tokens_for_cache, c);
        let shifted = offset_tokens(&tokens, c, token_offset);
        let ghost added = tokens_view(shifted@);
        let mut all = copy_tokens(&self.stable_tokens_for_cache);
        for i in 0..shifted.len()
            invariant
                all@.len() == ov.len() + i,
                forall|m: int| 0 <= m < ov.len() ==> (#[trigger] all@[m])@ == ov[m],
                forall|m: int| ov.len() <= m < all@.len() ==> (#[trigger] all@[m])@ == added[m - ov.len()],
                added == tokens_view(shifted@),
        {
            all.push(shifted[i].copy());
        }
        assert(tokens_view(all@) =~= ov + added);
        if out_of_order {
            let ghost joined = all@;
            let sorted = sort_stable(all);
            proof {
                lemma_sort_tokens_view(joined);
            }
            self.stable_tokens_for_cache = sorted;
        } else {
            self.stable_tokens_for_cache = all;
        }
    }

    /// Takes the cached tokens that meet the batch, in batch coordinates;
    /// `None` when no cached token meets it.
    pub fn take_cached_stable_tokens(&mut self, batch: &DocumentBatch) -> (r: Option<Vec<AnnotatedToken>>)
        requires
            old(self).wf(),
            forall|k: int| 0 <= k < old(self).cached().len() && spec_ranges_intersect(old(self).cached()[k].char_range, batch.char_range)
                ==> token_localizable(#[trigger] old(self).cached()[k], batch.char_range.0),
        ensures
            final(self).wf(),
            final(self).exposure_flags() == old(self).exposure_flags(),
            ({
                let c = old(self).cached();
                let picked = pick_tokens(c, batch.char_range, c.len() as int);
                &&& r is None <==> picked.len() == 0
                &&& r is None ==> final(self).cached() == c
                &&& r matches Some(v) ==> tokens_view(v@) == picked.map_values(|t: TokenView| localized_token(t, batch.char_range.0))
                    && final(self).cached() == skip_tokens(c, batch.char_range, c.len() as int)
            }),
            final(self).current_revision() == old(self).current_revision(),
            final(self).token_views() == old(self).token_views(),
            final(self).ids() == old(self).ids(),
            final(self).analyzed() == old(self).analyzed(),
            final(self).stable_for_cache() == old(self).stable_for_cache(),
    {
        let ghost c = tokens_view(self.cached_stable_tokens@);
        assert forall|k: int| 0 <= k < c.len() && spec_ranges_intersect(c[k].char_range, batch.char_range)
            implies token_localizable(#[trigger] c[k], batch.char_range.0) by {
            assert(c[k] == old(self).cached()[k]);
        }
        let mut selected: Vec<AnnotatedToken> = Vec::new();
        let mut kept: Vec<AnnotatedToken> = Vec::new();
        let n = self.cached_stable_tokens.len();
        for i in 0..n
            invariant
                n == self.cached_stable_tokens@.len(),
                c == tokens_view(self.cached_stable_tokens@),
                tokens_view(selected@) == pick_tokens(c, batch.char_range, i as int),
                tokens_view(kept@) == skip_tokens(c, batch.char_range, i as int),
                forall|k: int| 0 <= k < selected@.len() ==> token_localizable(#[trigger] selected@[k]@, batch.char_range.0),
                forall|k: int| 0 <= k < c.len() && spec_ranges_intersect(c[k].char_range, batch.char_range)
                    ==> token_localizable(#[trigger] c[k], batch.char_range.0),
        {
            let t = self.cached_stable_tokens[i].copy();
            if ranges_intersect(t.bunsetsu.char_range, batch.char_range) {
                assert(token_localizable(c[i as int], batch.char_range.0));
                selected.push(t);
                assert(tokens_view(selected@) =~= pick_tokens(c, batch.char_range, i + 1));
            } else {
                kept.push(t);
                assert(tokens_view(kept@) =~= skip_tokens(c, batch.char_range, i + 1));
            }
        }
        if selected.len() == 0 {
            return None;
        }
        self.cached_stable_tokens = kept;
        Some(localize_tokens(&selected, batch.char_range.0))
    }

    /// Applies an annotation change that keeps the token structure: `mutated`
    /// is the token list after the change and `changed_indices` the tokens it
    /// reports as changed. The patch carries the changed tokens and an
    /// invalidation report over the merged ranges of the given stages.
    pub fn apply_token_mutation(
        &mut self,
        base_revision: u64,
        reason: String,
        stage_ranges: Vec<StageInvalidation>,
        mutated: Vec<AnnotatedToken>,
        changed_indices: Vec<usize>,
    ) -> (r: Result<AnalysisPatch, SessionRevisionError>)
        requires
            old(self).wf(),
            old(self).current_revision() == base_revision ==> {
                &&& old(self).current_revision() < u64::MAX
                &&& mutated@.len() == old(self).token_views().len()
                &&& ranges_well_formed(all_stage_ranges(stage_ranges@))
                &&& spec_document_char_range(tokens_view(mutated@)).0 <= spec_document_char_range(tokens_view(mutated@)).1
            },
        ensures
            final(self).wf(),
            final(self).exposure_flags() == old(self).exposure_flags(),
            r is Ok <==> old(self).current_revision() == base_revision,
            r matches Err(e) ==> e == (SessionRevisionError { expected: old(self).current_revision(), received: base_revision }) && *final(self) == *old(self),
            r matches Ok(patch) ==> {
                let v = tokens_view(mutated@);
                let idx = normalized_indices(changed_indices@, mutated@.len() as usize);
                let merged = spec_merge_char_ranges(all_stage_ranges(stage_ranges@));
                &&& final(self).current_revision() == old(self).current_revision() + 1
                &&& final(self).token_views() == v
                &&& final(self).ids() == old(self).ids()
                &&& final(self).analyzed() == old(self).analyzed()
                &&& Self::emitted(*old(self), *final(self), patch, idx.map_values(|i: usize| v[i as int]))
                &&& patch.base_revision == base_revision
                &&& patch.kind == PatchKind::TokenUpdate
                &&& patch.char_range == spec_enclosing_range(merged)
                &&& patch.removed_token_ids@.len() == 0
                &&& strings_view(patch.token_ids@) == idx.map_values(|i: usize| old(self).ids()[i as int])
                &&& patch.ordered_token_ids@.len() == 0
                &&& patch.invalidation matches Some(report) && {
                    &&& report.reason == reason
                    &&& report.stages@ == stage_ranges@.map_values(|item: StageInvalidation| item.stage)
                    &&& report.stage_ranges == stage_ranges
                    &&& report.char_ranges@ == merged
                    &&& report.recomputed_characters == ranges_length(merged)
                    &&& report.total_characters == spec_document_char_range(v).1 - spec_document_char_range(v).0
                }
            },
    {
        if self.revision != base_revision {
            return Err(SessionRevisionError { expected: self.revision, received: base_revision });
        }
        self.tokens = mutated;
        let len = self.tokens.len();
        let ghost v = tokens_view(self.tokens@);
        let ghost ids = strings_view(self.token_ids@);
        let ghost changed = changed_indices@;
        let sorted = sort_stable(changed_indices);
        let mut indices: Vec<usize> = Vec::new();
        for i in 0..sorted.len()
            invariant
                indices@ == distinct_below(sorted@, len, i as int),
                forall|k: int| 0 <= k < indices@.len() ==> #[trigger] indices@[k] < len,
        {
            let x = sorted[i];
            let n = indices.len();
            if x < len && (n == 0 || indices[n - 1] != x) {
                indices.push(x);
            }
        }
        assert(indices@ == normalized_indices(changed, len));
        let mut changed_tokens: Vec<AnnotatedToken> = Vec::new();
        let mut changed_ids: Vec<String> = Vec::new();
        for i in 0..indices.len()
            invariant
                self.wf(),
                len == self.tokens@.len(),
                v == tokens_view(self.tokens@),
                ids == strings_view(self.token_ids@),
                forall|k: int| 0 <= k < indices@.len() ==> #[trigger] indices@[k] < len,
                changed_tokens@.len() == i,
                changed_ids@.len() == i,
                forall|k: int| 0 <= k < i ==> (#[trigger] changed_tokens@[k])@ == v[indices@[k] as int],
                forall|k: int| 0 <= k < i ==> (#[trigger] changed_ids@[k])@ == ids[indices@[k] as int],
        {
            let j = indices[i];
            changed_tokens.push(self.tokens[j].copy());
            changed_ids.push(self.token_ids[j].clone());
        }
        assert(tokens_view(changed_tokens@) =~= indices@.map_values(|i: usize| v[i as int]));
        assert(strings_view(changed_ids@) =~= indices@.map_values(|i: usize| ids[i as int]));
        let mut flat: Vec<(usize, usize)> = Vec::new();
        for i in 0..stage_ranges.len()
            invariant
                flat@ == all_stage_ranges(stage_ranges@.take(i as int)),
        {
            let item_ranges = &stage_ranges[i].char_ranges;
            let ghost before = flat@;
            for j in 0..item_ranges.len()
                invariant
                    flat@ == before + item_ranges@.take(j as int),
            {
                flat.push(item_ranges[j]);
                assert(flat@ =~= before + item_ranges@.take(j + 1));
            }
            assert(item_ranges@.take(item_ranges@.len() as int) == item_ranges@);
            assert(stage_ranges@.take(i + 1).drop_last() == stage_ranges@.take(i as int));
        }
        assert(stage_ranges@.take(stage_ranges@.len() as int) == stage_ranges@);
        let ghost flat_spec = flat@;
        let char_ranges = merge_char_ranges(flat);
        proof {
            merged_ranges_fit(flat_spec);
        }
        let mut recomputed: usize = 0;
        for i in 0..char_ranges.len()
            invariant
                ranges_well_formed(char_ranges@),
                ranges_disjoint_sorted(char_ranges@),
                recomputed == ranges_length(char_ranges@.take(i as int)),
        {
            let range = char_ranges[i];
            proof {
                let t = char_ranges@.take(i + 1);
                assert(ranges_disjoint_sorted(t)) by {
                    assert forall|m: int| 0 <= m < t.len() - 1 implies (#[trigger] t[m]).1 < t[m + 1].0 by {
                        assert(t[m] == char_ranges@[m] && t[m + 1] == char_ranges@[m + 1]);
                    }
                }
                assert(ranges_well_formed(t)) by {
                    assert forall|m: int| 0 <= m < t.len() implies (#[trigger] t[m]).0 <= t[m].1 by {
                        assert(t[m] == char_ranges@[m]);
                    }
                }
                lemma_ranges_length_bound(t);
                assert(t.drop_last() == char_ranges@.take(i as int));
                assert(range.0 <= range.1);
            }
            recomputed = recomputed + (range.1 - range.0);
        }
        assert(char_ranges@.take(char_ranges@.len() as int) == char_ranges@);
        let mut stages: Vec<AnalysisStage> = Vec::new();
        for i in 0..stage_ranges.len()
            invariant
                stages@ == stage_ranges@.take(i as int).map_values(|item: StageInvalidation| item.stage),
        {
            stages.push(stage_ranges[i].stage);
            assert(stages@ =~= stage_ranges@.take(i + 1).map_values(|item: StageInvalidation| item.stage));
        }
        let doc = document_char_range(&self.tokens);
        let total = doc.1 - doc.0;
        let char_range = enclosing_range(&char_ranges);
        self.revision = self.revision + 1;
        let report = InvalidationReport {
            reason,
            stages,
            stage_ranges,
            char_ranges,
            recomputed_characters: recomputed,
            total_characters: total,
        };
        let patch = self.emit(base_revision, PatchKind::TokenUpdate, char_range, Vec::new(), changed_ids, Vec::new(), &changed_tokens, Some(report));
        Ok(patch)
    }
}

} // verus!
