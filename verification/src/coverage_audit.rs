//! Dictionary coverage audit of a chapter: which lines are read, how the
//! lexical head words of the analysis were matched, and which misses are
//! reported first.
use vstd::prelude::*;
use crate::dictionary::lookup_state::{spec_trim, trim_chars};
use crate::cli::{is_lexical, lexical_pos};
use crate::text::{chars_of, str_eq, str_lt, str_less, lemma_str_lt_total, lemma_str_lt_transitive};

verus! {

/// The lines an audit reads, 1-based from `start`, and the end (exclusive,
/// 0-based): a page of `page_lines` lines when pages are asked for, else
/// from `start_line`; `line_count` lines, by default the page or every line.
pub open spec fn spec_audit_window(
    page_lines: usize,
    page: usize,
    start_line: usize,
    line_count: Option<usize>,
    total_lines: usize,
) -> (int, int) {
    let p = if page >= 1 { page as int } else { 1 };
    let start = if page_lines > 0 { (p - 1) * page_lines + 1 } else if start_line >= 1 { start_line as int } else { 1 };
    let count = match line_count {
        Some(c) => c as int,
        None => if page_lines > 0 { page_lines as int } else { total_lines as int },
    };
    let from = if start >= 1 { start - 1 } else { 0 };
    let reach = if from + count > usize::MAX { usize::MAX as int } else { from + count };
    (start, if reach < total_lines { reach } else { total_lines as int })
}

pub fn audit_window(page_lines: usize, page: usize, start_line: usize, line_count: Option<usize>, total_lines: usize) -> (r: (usize, usize))
    requires
        page_lines > 0 ==> (if page >= 1 { page as int } else { 1 } - 1) * page_lines + 1 <= usize::MAX,
    ensures
        r.0 == spec_audit_window(page_lines, page, start_line, line_count, total_lines).0,
        r.1 == spec_audit_window(page_lines, page, start_line, line_count, total_lines).1,
{
    let p = if page >= 1 { page } else { 1 };
    let start = if page_lines > 0 {
        assert((p - 1) * page_lines <= usize::MAX - 1);
        (p - 1) * page_lines + 1
    } else if start_line >= 1 {
        start_line
    } else {
        1
    };
    let count = match line_count {
        Some(c) => c,
        None => if page_lines > 0 { page_lines } else { total_lines },
    };
    let from = start - 1;
    let reach = from.saturating_add(count);
    (start, if reach < total_lines { reach } else { total_lines })
}

/// Among lines `from..end`, the ones an audit analyses: every
/// `sample_every`-th (at least every line) that is not blank.
pub open spec fn sampled(lines: Seq<String>, from: int, sample_every: usize, k: int) -> bool {
    let every = if sample_every >= 1 { sample_every as int } else { 1 };
    (k - from) % every == 0 && spec_trim(lines[k]@).len() > 0
}

pub open spec fn sampled_upto(lines: Seq<String>, from: int, sample_every: usize, n: int) -> Seq<usize>
    decreases n - from,
{
    if n <= from {
        seq![]
    } else if sampled(lines, from, sample_every, n - 1) {
        sampled_upto(lines, from, sample_every, n - 1).push((n - 1) as usize)
    } else {
        sampled_upto(lines, from, sample_every, n - 1)
    }
}

/// The indices of the lines an audit analyses between `start` (1-based) and `end`.
pub fn audit_lines(lines: &[String], start: usize, end: usize, sample_every: usize) -> (r: Vec<usize>)
    requires
        start >= 1,
        start - 1 <= end <= lines@.len(),
    ensures
        r@ == sampled_upto(lines@, start - 1, sample_every, end as int),
{
    let every = if sample_every >= 1 { sample_every } else { 1 };
    let from = start - 1;
    let mut r: Vec<usize> = Vec::new();
    let mut k = from;
    while k < end
        invariant
            from <= k <= end <= lines@.len(),
            from == start - 1,
            every == (if sample_every >= 1 { sample_every } else { 1 }),
            r@ == sampled_upto(lines@, from as int, sample_every, k as int),
        decreases end - k,
    {
        let trimmed = trim_chars(chars_of(lines[k].as_str()).as_slice());
        if (k - from) % every == 0 && trimmed.len() > 0 {
            r.push(k);
        }
        k += 1;
    }
    r
}

/// A head word the audit missed, with the surfaces it was seen in (in string
/// order, each once) and how often.
pub struct MissedLexeme {
    pub base_form: String,
    pub reading: String,
    pub surfaces: Vec<String>,
    pub occurrences: usize,
}

/// The running counts of an audit; misses are kept in the order of their
/// base form, then reading.
pub struct CoverageTally {
    pub lexical_occurrences: usize,
    pub headword_matches: usize,
    pub reading_matches: usize,
    pub misses: Vec<MissedLexeme>,
}

/// The index of the first string after `s` in `v`; `v.len()` when none is.
pub open spec fn first_after(v: Seq<String>, s: Seq<char>, i: int) -> int
    decreases v.len() - i,
{
    if i < 0 || i >= v.len() {
        v.len() as int
    } else if str_lt(s, v[i]@) {
        i
    } else {
        first_after(v, s, i + 1)
    }
}

/// `surfaces` with `s` added before the first surface after it, unless it is there.
pub open spec fn with_surface(surfaces: Seq<String>, s: String) -> Seq<String> {
    if exists|j: int| 0 <= j < surfaces.len() && (#[trigger] surfaces[j])@ == s@ {
        surfaces
    } else {
        surfaces.insert(first_after(surfaces, s@, 0), s)
    }
}

pub open spec fn key_lt(base: Seq<char>, reading: Seq<char>, m: MissedLexeme) -> bool {
    str_lt(base, m.base_form@) || (base == m.base_form@ && str_lt(reading, m.reading@))
}

/// The index of the miss with this base form and reading; -1 when there is none.
pub open spec fn miss_index(misses: Seq<MissedLexeme>, base: Seq<char>, reading: Seq<char>, i: int) -> int
    decreases misses.len() - i,
{
    if i < 0 || i >= misses.len() {
        -1
    } else if misses[i].base_form@ == base && misses[i].reading@ == reading {
        i
    } else {
        miss_index(misses, base, reading, i + 1)
    }
}

/// The index of the first miss whose key comes after this one; `len` when none does.
pub open spec fn miss_slot(misses: Seq<MissedLexeme>, base: Seq<char>, reading: Seq<char>, i: int) -> int
    decreases misses.len() - i,
{
    if i < 0 || i >= misses.len() {
        misses.len() as int
    } else if key_lt(base, reading, misses[i]) {
        i
    } else {
        miss_slot(misses, base, reading, i + 1)
    }
}

fn add_surface(surfaces: &mut Vec<String>, s: &str)
    ensures
        exists|x: String| x@ == s@ && final(surfaces)@ == with_surface(old(surfaces)@, x),
{
    let ghost v = surfaces@;
    let mut i: usize = 0;
    while i < surfaces.len()
        invariant
            surfaces@ == v,
            i <= v.len(),
            forall|j: int| 0 <= j < i ==> (#[trigger] v[j])@ != s@,
        decreases v.len() - i,
    {
        if str_eq(surfaces[i].as_str(), s) {
            assert(v[i as int]@ == s@);
            let ghost x = v[i as int];
            assert(with_surface(v, x) == v);
            assert(x@ == s@ && surfaces@ == with_surface(v, x));
            return;
        }
        i += 1;
    }
    let mut p: usize = 0;
    while p < surfaces.len() && !str_less(s, surfaces[p].as_str())
        invariant
            surfaces@ == v,
            p <= v.len(),
            first_after(v, s@, 0) == first_after(v, s@, p as int),
        decreases v.len() - p,
    {
        p += 1;
    }
    assert(first_after(v, s@, p as int) == p);
    let x = crate::text::string_from_chars(chars_of(s).as_slice());
    let ghost xv = x;
    surfaces.insert(p, x);
    assert(!(exists|j: int| 0 <= j < v.len() && (#[trigger] v[j])@ == xv@));
    assert(surfaces@ =~= v.insert(p as int, xv));
    assert(xv@ == s@ && surfaces@ == with_surface(v, xv));
}

proof fn lemma_slot_facts(ms: Seq<MissedLexeme>, b: Seq<char>, r: Seq<char>, i: int)
    requires
        0 <= i <= ms.len(),
    ensures
        i <= miss_slot(ms, b, r, i) <= ms.len(),
        forall|k: int| i <= k < miss_slot(ms, b, r, i) ==> !key_lt(b, r, #[trigger] ms[k]),
        miss_slot(ms, b, r, i) < ms.len() ==> key_lt(b, r, ms[miss_slot(ms, b, r, i)]),
    decreases ms.len() - i,
{
    if i < ms.len() && !key_lt(b, r, ms[i]) {
        lemma_slot_facts(ms, b, r, i + 1);
    }
}

proof fn lemma_index_none(ms: Seq<MissedLexeme>, b: Seq<char>, r: Seq<char>, i: int)
    requires
        0 <= i <= ms.len(),
        miss_index(ms, b, r, i) == -1,
    ensures
        forall|k: int| i <= k < ms.len() ==> !(#[trigger] ms[k].base_form@ == b && ms[k].reading@ == r),
    decreases ms.len() - i,
{
    if i < ms.len() {
        lemma_index_none(ms, b, r, i + 1);
    }
}

/// The misses are in strictly increasing order of base form, then reading.
pub open spec fn misses_sorted(ms: Seq<MissedLexeme>) -> bool {
    forall|i: int, j: int| 0 <= i < j < ms.len() ==> key_lt(#[trigger] ms[i].base_form@, ms[i].reading@, #[trigger] ms[j])
}

proof fn lemma_key_lt_transitive(a: MissedLexeme, b: MissedLexeme, c: MissedLexeme)
    requires
        key_lt(a.base_form@, a.reading@, b),
        key_lt(b.base_form@, b.reading@, c),
    ensures
        key_lt(a.base_form@, a.reading@, c),
{
    if str_lt(a.base_form@, b.base_form@) && str_lt(b.base_form@, c.base_form@) {
        lemma_str_lt_transitive(a.base_form@, b.base_form@, c.base_form@);
    } else if str_lt(a.reading@, b.reading@) && str_lt(b.reading@, c.reading@) {
        lemma_str_lt_transitive(a.reading@, b.reading@, c.reading@);
    }
}

proof fn lemma_slot_keeps_order(ms: Seq<MissedLexeme>, m: MissedLexeme, p: int)
    requires
        misses_sorted(ms),
        miss_index(ms, m.base_form@, m.reading@, 0) == -1,
        p == miss_slot(ms, m.base_form@, m.reading@, 0),
        0 <= p <= ms.len(),
        forall|k: int| 0 <= k < p ==> !key_lt(m.base_form@, m.reading@, #[trigger] ms[k]),
        p < ms.len() ==> key_lt(m.base_form@, m.reading@, ms[p]),
        forall|k: int| 0 <= k < ms.len() ==> !(#[trigger] ms[k].base_form@ == m.base_form@ && ms[k].reading@ == m.reading@),
    ensures
        misses_sorted(ms.insert(p, m)),
{
    let r = ms.insert(p, m);
    assert forall|i: int, j: int| 0 <= i < j < r.len() implies key_lt(#[trigger] r[i].base_form@, r[i].reading@, #[trigger] r[j]) by {
        if i < p && j < p {
            assert(r[i] == ms[i] && r[j] == ms[j]);
        } else if i > p && j > p {
            assert(r[i] == ms[i - 1] && r[j] == ms[j - 1]);
        } else if i == p {
            assert(r[j] == ms[j - 1]);
            if j - 1 > p {
                assert(key_lt(ms[p].base_form@, ms[p].reading@, ms[j - 1]));
                lemma_key_lt_transitive(m, ms[p], ms[j - 1]);
            }
        } else if j == p {
            let x = ms[i];
            assert(r[i] == x);
            assert(!key_lt(m.base_form@, m.reading@, x));
            if x.base_form@ != m.base_form@ {
                lemma_str_lt_total(x.base_form@, m.base_form@);
            } else {
                assert(x.reading@ != m.reading@);
                lemma_str_lt_total(x.reading@, m.reading@);
            }
        } else {
            assert(i < p && j > p);
            assert(r[i] == ms[i] && r[j] == ms[j - 1]);
        }
    }
}

impl CoverageTally {
    pub fn new() -> (r: Self)
        ensures
            r.lexical_occurrences == 0 && r.headword_matches == 0 && r.reading_matches == 0 && r.misses@.len() == 0,
            misses_sorted(r.misses@),
    {
        CoverageTally { lexical_occurrences: 0, headword_matches: 0, reading_matches: 0, misses: Vec::new() }
    }

    /// Counts a lexical head word and how the dictionary matched it: as a
    /// headword, as a reading, or not at all, which is a miss of its base form
    /// and reading seen in `surface`.
    pub fn record(&mut self, base_form: &str, reading: &str, surface: &str, matched: Option<&str>)
        requires
            old(self).lexical_occurrences < usize::MAX,
            old(self).headword_matches < usize::MAX,
            old(self).reading_matches < usize::MAX,
            forall|j: int| 0 <= j < old(self).misses@.len() ==> (#[trigger] old(self).misses@[j]).occurrences < usize::MAX,
        ensures
            final(self).lexical_occurrences == old(self).lexical_occurrences + 1,
            misses_sorted(old(self).misses@) ==> misses_sorted(final(self).misses@),
            ({
                let as_headword = matched matches Some(m) && m@ == "headword"@;
                let as_reading = matched matches Some(m) && m@ == "reading"@;
                let i = miss_index(old(self).misses@, base_form@, reading@, 0);
                &&& final(self).headword_matches == old(self).headword_matches + if as_headword { 1int } else { 0 }
                &&& final(self).reading_matches == old(self).reading_matches + if as_reading { 1int } else { 0 }
                &&& (as_headword || as_reading) ==> final(self).misses@ == old(self).misses@
                &&& !(as_headword || as_reading) && i >= 0 ==> {
                    let m = old(self).misses@[i];
                    &&& final(self).misses@.len() == old(self).misses@.len()
                    &&& forall|j: int| 0 <= j < final(self).misses@.len() && j != i ==> #[trigger] final(self).misses@[j] == old(self).misses@[j]
                    &&& final(self).misses@[i].base_form == m.base_form
                    &&& final(self).misses@[i].reading == m.reading
                    &&& final(self).misses@[i].occurrences == m.occurrences + 1
                    &&& exists|x: String| x@ == surface@ && final(self).misses@[i].surfaces@ == with_surface(m.surfaces@, x)
                }
                &&& !(as_headword || as_reading) && i < 0 ==> {
                    let p = miss_slot(old(self).misses@, base_form@, reading@, 0);
                    let m = final(self).misses@[p];
                    &&& final(self).misses@.len() == old(self).misses@.len() + 1
                    &&& final(self).misses@.remove(p) == old(self).misses@
                    &&& m.base_form@ == base_form@
                    &&& m.reading@ == reading@
                    &&& m.occurrences == 1
                    &&& m.surfaces@.len() == 1 && m.surfaces@[0]@ == surface@
                }
            }),
    {
        proof {
            reveal_strlit("headword");
            reveal_strlit("reading");
            assert("headword"@.len() != "reading"@.len());
        }
        self.lexical_occurrences = self.lexical_occurrences + 1;
        let kind = match matched {
            Some(m) => if str_eq(m, "headword") { 1u8 } else if str_eq(m, "reading") { 2u8 } else { 0u8 },
            None => 0u8,
        };
        if kind == 1 {
            self.headword_matches = self.headword_matches + 1;
            return;
        }
        if kind == 2 {
            self.reading_matches = self.reading_matches + 1;
            return;
        }
        let ghost v = self.misses@;
        let mut i: usize = 0;
        while i < self.misses.len()
            invariant
                self.misses@ == v,
                v == old(self).misses@,
                self.lexical_occurrences == old(self).lexical_occurrences + 1,
                self.headword_matches == old(self).headword_matches,
                self.reading_matches == old(self).reading_matches,
                kind == 0,
                kind == 0 <==> !((matched matches Some(m) && m@ == "headword"@) || (matched matches Some(m) && m@ == "reading"@)),
                forall|j: int| 0 <= j < v.len() ==> (#[trigger] v[j]).occurrences < usize::MAX,
                i <= v.len(),
                miss_index(v, base_form@, reading@, 0) == miss_index(v, base_form@, reading@, i as int),
            decreases v.len() - i,
        {
            if str_eq(self.misses[i].base_form.as_str(), base_form) && str_eq(self.misses[i].reading.as_str(), reading) {
                assert(v[i as int].occurrences < usize::MAX);
                assert(miss_index(v, base_form@, reading@, i as int) == i);
                let mut m = self.misses.remove(i);
                m.occurrences = m.occurrences + 1;
                add_surface(&mut m.surfaces, surface);
                self.misses.insert(i, m);
                assert forall|j: int| 0 <= j < self.misses@.len() && j != i implies #[trigger] self.misses@[j] == v[j] by {}
                proof {
                    let f = self.misses@;
                    if misses_sorted(v) {
                        assert forall|a: int, b: int| 0 <= a < b < f.len() implies key_lt(#[trigger] f[a].base_form@, f[a].reading@, #[trigger] f[b]) by {
                            assert(f[a].base_form == v[a].base_form && f[a].reading == v[a].reading);
                            assert(f[b].base_form == v[b].base_form && f[b].reading == v[b].reading);
                            assert(key_lt(v[a].base_form@, v[a].reading@, v[b]));
                        }
                    }
                }
                return;
            }
            i += 1;
        }
        let mut p: usize = 0;
        while p < self.misses.len()
            && !(str_less(base_form, self.misses[p].base_form.as_str()) || (str_eq(base_form, self.misses[p].base_form.as_str())
                && str_less(reading, self.misses[p].reading.as_str())))
            invariant
                self.misses@ == v,
                v == old(self).misses@,
                self.lexical_occurrences == old(self).lexical_occurrences + 1,
                self.headword_matches == old(self).headword_matches,
                self.reading_matches == old(self).reading_matches,
                p <= v.len(),
                miss_slot(v, base_form@, reading@, 0) == miss_slot(v, base_form@, reading@, p as int),
            decreases v.len() - p,
        {
            p += 1;
        }
        assert(miss_slot(v, base_form@, reading@, p as int) == p);
        let mut surfaces: Vec<String> = Vec::new();
        surfaces.push(crate::text::string_from_chars(chars_of(surface).as_slice()));
        let m = MissedLexeme {
            base_form: crate::text::string_from_chars(chars_of(base_form).as_slice()),
            reading: crate::text::string_from_chars(chars_of(reading).as_slice()),
            surfaces,
            occurrences: 1,
        };
        let ghost mv = m;
        self.misses.insert(p, m);
        assert(self.misses@.remove(p as int) =~= v);
        proof {
            if misses_sorted(v) {
                lemma_slot_facts(v, base_form@, reading@, 0);
                lemma_index_none(v, base_form@, reading@, 0);
                assert(self.misses@ =~= v.insert(p as int, mv));
                lemma_slot_keeps_order(v, mv, p as int);
            }
        }
    }
}

/// `x` comes before `y` in a report: seen more often, then by base form.
pub open spec fn reported_before(x: MissedLexeme, y: MissedLexeme) -> bool {
    x.occurrences > y.occurrences || (x.occurrences == y.occurrences && str_lt(x.base_form@, y.base_form@))
}

/// `x` placed before the first element of `s` it comes before.
pub open spec fn insert_reported(s: Seq<MissedLexeme>, x: MissedLexeme) -> Seq<MissedLexeme>
    decreases s.len(),
{
    if s.len() == 0 {
        seq![x]
    } else if reported_before(x, s[0]) {
        seq![x] + s
    } else {
        seq![s[0]] + insert_reported(s.drop_first(), x)
    }
}

/// The misses in report order; ties keep their order.
pub open spec fn report_order(s: Seq<MissedLexeme>) -> Seq<MissedLexeme>
    decreases s.len(),
{
    if s.len() == 0 {
        s
    } else {
        insert_reported(report_order(s.drop_last()), s.last())
    }
}

proof fn lemma_insert_reported_at(s: Seq<MissedLexeme>, x: MissedLexeme, p: int)
    requires
        0 <= p <= s.len(),
        forall|k: int| 0 <= k < p ==> !reported_before(x, #[trigger] s[k]),
        p < s.len() ==> reported_before(x, s[p]),
    ensures
        insert_reported(s, x) == s.insert(p, x),
    decreases s.len(),
{
    if s.len() > 0 && p > 0 {
        assert forall|k: int| 0 <= k < p - 1 implies !reported_before(x, #[trigger] s.drop_first()[k]) by {
            assert(s.drop_first()[k] == s[k + 1]);
        }
        lemma_insert_reported_at(s.drop_first(), x, p - 1);
        assert(seq![s[0]] + s.drop_first().insert(p - 1, x) =~= s.insert(p, x));
    } else if s.len() > 0 {
        assert(seq![x] + s =~= s.insert(0, x));
    } else {
        assert(seq![x] =~= s.insert(0, x));
    }
}

/// The misses a report lists: in report order, at most `max`.
pub fn ranked_misses(misses: Vec<MissedLexeme>, max: usize) -> (r: Vec<MissedLexeme>)
    ensures
        r@ == report_order(misses@).take(if max < misses@.len() { max as int } else { misses@.len() as int }),
{
    let ghost all = misses@;
    let mut rest = misses;
    let mut out: Vec<MissedLexeme> = Vec::new();
    let n = rest.len();
    let mut k: usize = 0;
    while k < n
        invariant
            k <= n == all.len(),
            rest@ == all.skip(k as int),
            out@ == report_order(all.take(k as int)),
            out@.len() == k,
        decreases n - k,
    {
        assert(all.take(k + 1).drop_last() =~= all.take(k as int));
        assert(rest@[0] == all[k as int]);
        let x = rest.remove(0);
        assert(rest@ =~= all.skip(k + 1));
        let mut p: usize = 0;
        while p < out.len()
            && !(x.occurrences > out[p].occurrences || (x.occurrences == out[p].occurrences
                && str_less(x.base_form.as_str(), out[p].base_form.as_str())))
            invariant
                p <= out@.len(),
                forall|j: int| 0 <= j < p ==> !reported_before(x, #[trigger] out@[j]),
            decreases out@.len() - p,
        {
            p += 1;
        }
        proof {
            lemma_insert_reported_at(out@, x, p as int);
        }
        out.insert(p, x);
        k += 1;
    }
    assert(all.take(n as int) =~= all);
    let limit = if max < n { max } else { n };
    out.truncate(limit);
    out
}

/// What `char::is_alphanumeric` answers for `c` (Unicode's alphabetic and
/// numeric classes).
pub uninterp spec fn alphanumeric(c: char) -> bool;

/// `char::is_alphanumeric`.
#[verifier::external_body]
fn is_alphanumeric(c: char) -> (r: bool)
    ensures
        r == alphanumeric(c),
{
    c.is_alphanumeric()
}

/// A head word the audit counts: of a lexical part of speech, with a base
/// form that is not blank, and a surface with a letter or digit.
pub open spec fn audited_head(pos_major: Seq<char>, base_form: Seq<char>, surface: Seq<char>) -> bool {
    &&& lexical_pos(pos_major)
    &&& spec_trim(base_form).len() > 0
    &&& exists|i: int| 0 <= i < surface.len() && alphanumeric(#[trigger] surface[i])
}

pub fn is_audited_head(pos_major: &str, base_form: &str, surface: &str) -> (b: bool)
    ensures
        b == audited_head(pos_major@, base_form@, surface@),
{
    if !is_lexical(pos_major) {
        return false;
    }
    if trim_chars(chars_of(base_form).as_slice()).len() == 0 {
        return false;
    }
    let chars = chars_of(surface);
    for i in 0..chars.len()
        invariant
            chars@ == surface@,
            lexical_pos(pos_major@),
            spec_trim(base_form@).len() > 0,
            forall|j: int| 0 <= j < i ==> !alphanumeric(#[trigger] surface@[j]),
    {
        if is_alphanumeric(chars[i]) {
            assert(alphanumeric(surface@[i as int]));
            return true;
        }
    }
    false
}

/// Whether the dictionary is asked again with the surface: the base form
/// found nothing and the surface differs from it.
pub fn retry_with_surface(first: &Option<String>, base_form: &str, surface: &str) -> (b: bool)
    ensures
        b == (first is None && surface@ != base_form@),
{
    first.is_none() && !str_eq(surface, base_form)
}

} // verus!
