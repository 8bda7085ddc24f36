//! Interactive checking of cross-bunsetsu expression matches: the items to
//! check, one per match in reading order, and the command loop's decisions.
use vstd::prelude::*;
use crate::cli::{matched_context, render_matched_context, parse_usize, parsed_usize};
use crate::dictionary::lookup_state::{spec_trim, trim_chars};
use crate::sort::{Ranked, sort_by, sort_stable, stable_sort, lemma_sort_map, lemma_sort_props};
use crate::text::{is_whitespace, spec_is_whitespace, str_eq, string_from_chars};

verus! {

/// One piece of a token's expression annotation, as the check reads it.
pub struct ExpressionMatch {
    pub match_id: String,
    pub position: String,
    pub label: String,
    pub origin: String,
    pub description: String,
    pub surface: String,
    pub token_range: (usize, usize),
    pub char_range: (usize, usize),
    pub matched_ranges: Vec<(usize, usize)>,
}

#[derive(Debug, Clone, Copy, PartialEq, Eq, Structural)]
pub enum VerifyDecision {
    Pending,
    Verified,
    Incorrect,
}

/// A match to check, numbered from 1 in reading order.
pub struct VerifyItem {
    pub id: usize,
    pub match_id: String,
    pub label: String,
    pub origin: String,
    pub description: String,
    pub surface: String,
    pub token_range: (usize, usize),
    pub char_range: (usize, usize),
    pub matched_ranges: Vec<(usize, usize)>,
    pub context: String,
    pub decision: VerifyDecision,
}

pub ghost struct VerifyItemView {
    pub id: int,
    pub match_id: Seq<char>,
    pub label: Seq<char>,
    pub origin: Seq<char>,
    pub description: Seq<char>,
    pub surface: Seq<char>,
    pub token_range: (usize, usize),
    pub char_range: (usize, usize),
    pub matched_ranges: Seq<(usize, usize)>,
    pub context: Seq<char>,
    pub decision: VerifyDecision,
}

impl View for VerifyItem {
    type V = VerifyItemView;

    open spec fn view(&self) -> VerifyItemView {
        VerifyItemView {
            id: self.id as int,
            match_id: self.match_id@,
            label: self.label@,
            origin: self.origin@,
            description: self.description@,
            surface: self.surface@,
            token_range: self.token_range,
            char_range: self.char_range,
            matched_ranges: self.matched_ranges@,
            context: self.context@,
            decision: self.decision,
        }
    }
}

impl Ranked for VerifyItem {
    open spec fn rank(&self) -> (int, int) {
        (self.token_range.0 as int, 0)
    }

    fn rank_of(&self) -> (r: (i128, i128)) {
        (self.token_range.0 as i128, 0)
    }
}

/// The characters of context shown on each side of a match.
pub const CONTEXT_PADDING: usize = 36;

/// The items shown per page.
pub const PAGE_SIZE: usize = 5;

/// The match starts here and no earlier start had the same match id.
pub open spec fn first_start(es: Seq<ExpressionMatch>, k: int) -> bool {
    &&& es[k].position@ == "start"@
    &&& forall|j: int| #![trigger es[j]] 0 <= j < k ==> !(es[j].position@ == "start"@ && es[j].match_id@ == es[k].match_id@)
}

/// The indices among the first `n` matches that open a new match, in order.
pub open spec fn picked_starts(es: Seq<ExpressionMatch>, n: int) -> Seq<int>
    decreases n,
{
    if n <= 0 {
        seq![]
    } else if first_start(es, n - 1) {
        picked_starts(es, n - 1).push(n - 1)
    } else {
        picked_starts(es, n - 1)
    }
}

/// The ranges a match highlights: its matched ranges, or its whole range.
pub open spec fn highlighted(e: ExpressionMatch) -> Seq<(usize, usize)> {
    if e.matched_ranges@.len() == 0 {
        seq![e.char_range]
    } else {
        e.matched_ranges@
    }
}

/// The item for match `e`, with number `id`, still pending.
pub open spec fn item_for(e: ExpressionMatch, text: Seq<char>, id: int) -> VerifyItemView {
    VerifyItemView {
        id,
        match_id: e.match_id@,
        label: e.label@,
        origin: e.origin@,
        description: e.description@,
        surface: e.surface@,
        token_range: e.token_range,
        char_range: e.char_range,
        matched_ranges: highlighted(e),
        context: matched_context(text, highlighted(e), CONTEXT_PADDING),
        decision: VerifyDecision::Pending,
    }
}

pub open spec fn item_rank(v: VerifyItemView) -> (int, int) {
    (v.token_range.0 as int, 0)
}

/// One item per distinct match id, taken where the match starts, ordered by
/// the first token of the match (ties in reading order), numbered from 1.
pub open spec fn spec_verify_items(es: Seq<ExpressionMatch>, text: Seq<char>) -> Seq<VerifyItemView> {
    let order = sort_by(picked_starts(es, es.len() as int), |k: int| (es[k].token_range.0 as int, 0int));
    Seq::new(order.len(), |i: int| item_for(es[order[i]], text, i + 1))
}

proof fn lemma_picked_bounds(es: Seq<ExpressionMatch>, n: int)
    requires
        0 <= n <= es.len(),
    ensures
        forall|i: int| 0 <= i < picked_starts(es, n).len() ==> 0 <= #[trigger] picked_starts(es, n)[i] < n,
    decreases n,
{
    if n > 0 {
        lemma_picked_bounds(es, n - 1);
        let p = picked_starts(es, n - 1);
        assert forall|i: int| 0 <= i < picked_starts(es, n).len() implies 0 <= #[trigger] picked_starts(es, n)[i] < n by {
            if i < p.len() {
                assert(picked_starts(es, n)[i] == p[i]);
            }
        }
    }
}

fn copy_ranges(v: &Vec<(usize, usize)>) -> (r: Vec<(usize, usize)>)
    ensures
        r@ == v@,
{
    let mut r: Vec<(usize, usize)> = Vec::new();
    for i in 0..v.len()
        invariant
            r@ == v@.take(i as int),
    {
        r.push(v[i]);
        assert(r@ =~= v@.take(i + 1));
    }
    assert(v@.take(v.len() as int) =~= v@);
    r
}

/// The items to check for the expression matches of a text, `expressions`
/// being every token's matches in token order and `text` the analysed text.
pub fn verify_items(expressions: &[ExpressionMatch], text: &str) -> (r: Vec<VerifyItem>)
    ensures
        r@.map_values(|v: VerifyItem| v@) == spec_verify_items(expressions@, text@),
{
    let ghost es = expressions@;
    let mut items: Vec<VerifyItem> = Vec::new();
    let ghost item_of = |k: int| item_for(es[k], text@, 0);
    let n = expressions.len();
    for i in 0..n
        invariant
            n == es.len(),
            es == expressions@,
            item_of == (|k: int| item_for(es[k], text@, 0)),
            items@.map_values(|v: VerifyItem| v@) == picked_starts(es, i as int).map_values(item_of),
    {
        let e = &expressions[i];
        let mut fresh = str_eq(e.position.as_str(), "start");
        let mut j: usize = 0;
        while fresh && j < i
            invariant
                j <= i < n == es.len(),
                es == expressions@,
                e == es[i as int],
                fresh ==> es[i as int].position@ == "start"@,
                fresh ==> forall|m: int| #![trigger es[m]] 0 <= m < j ==> !(es[m].position@ == "start"@ && es[m].match_id@ == es[i as int].match_id@),
                !fresh ==> !first_start(es, i as int),
            decreases i - j,
        {
            if str_eq(expressions[j].position.as_str(), "start") && str_eq(expressions[j].match_id.as_str(), e.match_id.as_str()) {
                fresh = false;
            }
            j += 1;
        }
        if fresh {
            let ranges = if e.matched_ranges.len() == 0 {
                vec![e.char_range]
            } else {
                copy_ranges(&e.matched_ranges)
            };
            assert(ranges@ =~= highlighted(es[i as int]));
            let context = render_matched_context(text, ranges.as_slice(), CONTEXT_PADDING);
            let item = VerifyItem {
                id: 0,
                match_id: e.match_id.clone(),
                label: e.label.clone(),
                origin: e.origin.clone(),
                description: e.description.clone(),
                surface: e.surface.clone(),
                token_range: e.token_range,
                char_range: e.char_range,
                matched_ranges: ranges,
                context,
                decision: VerifyDecision::Pending,
            };
            assert(item@ == item_of(i as int));
            assert(first_start(es, i as int));
            assert(picked_starts(es, i + 1) == picked_starts(es, i as int).push(i as int));
            let ghost prev = items@;
            items.push(item);
            assert(items@.map_values(|v: VerifyItem| v@) =~= prev.map_values(|v: VerifyItem| v@).push(item_of(i as int)));
            assert(items@.map_values(|v: VerifyItem| v@) =~= picked_starts(es, i + 1).map_values(item_of));
        } else {
            assert(picked_starts(es, i + 1) == picked_starts(es, i as int));
        }
    }
    let ghost unsorted = items@;
    let ghost picked = picked_starts(es, n as int);
    let ghost key = |k: int| (es[k].token_range.0 as int, 0int);
    let mut sorted = sort_stable(items);
    proof {
        lemma_picked_bounds(es, n as int);
        lemma_sort_map(unsorted, |t: VerifyItem| t.rank(), |v: VerifyItemView| item_rank(v), |t: VerifyItem| t@);
        assert forall|k: int| #[trigger] key(k) == item_rank(item_of(k)) by {}
        lemma_sort_map(picked, key, |v: VerifyItemView| item_rank(v), item_of);
        lemma_sort_props(picked, key);
    }
    let ghost order = sort_by(picked, key);
    assert(sorted@.map_values(|v: VerifyItem| v@) == order.map_values(item_of));
    assert forall|i: int| 0 <= i < sorted@.len() implies (#[trigger] sorted@[i])@ == item_of(order[i]) by {
        assert(sorted@.map_values(|v: VerifyItem| v@)[i] == sorted@[i]@);
    }
    let m = sorted.len();
    let mut k: usize = 0;
    let ghost spec_items = spec_verify_items(es, text@);
    while k < m
        invariant
            m == sorted@.len() == order.len(),
            k <= m,
            spec_items == Seq::new(order.len(), |i: int| item_for(es[order[i]], text@, i + 1)),
            item_of == (|k: int| item_for(es[k], text@, 0)),
            forall|i: int| 0 <= i < k ==> (#[trigger] sorted@[i])@ == spec_items[i],
            forall|i: int| k <= i < m ==> (#[trigger] sorted@[i])@ == item_of(order[i]),
        decreases m - k,
    {
        let ghost before = sorted@;
        assert(before[k as int]@ == item_of(order[k as int]));
        let mut item = sorted.remove(k);
        item.id = k + 1;
        sorted.insert(k, item);
        proof {
            assert forall|i: int| 0 <= i < k + 1 implies (#[trigger] sorted@[i])@ == spec_items[i] by {
                if i < k {
                    assert(sorted@[i] == before[i]);
                }
            }
            assert forall|i: int| k + 1 <= i < m implies (#[trigger] sorted@[i])@ == item_of(order[i]) by {
                assert(sorted@[i] == before[i]);
            }
        }
        k += 1;
    }
    assert(sorted@.map_values(|v: VerifyItem| v@) =~= spec_items);
    sorted
}

/// What the command loop does after a command.
#[derive(Debug, Clone, Copy, PartialEq, Eq, Structural)]
pub enum VerifyAction {
    /// Show the current page again and prompt.
    ShowPage,
    Quit,
    /// Already on the last page.
    LastPage,
    /// Already on the first page.
    FirstPage,
    /// The pending items of the page were confirmed.
    PageVerified,
    Marked { id: usize, decision: VerifyDecision },
    /// Show the tokens under item `id`.
    Details { id: usize },
    UnknownOperation,
    OutOfRange { id: usize },
    BadIndex,
    Unrecognized,
}

/// Scanning left to right: the words completed so far and the word still open.
pub open spec fn words_state(s: Seq<char>) -> (Seq<Seq<char>>, Seq<char>)
    decreases s.len(),
{
    if s.len() == 0 {
        (seq![], seq![])
    } else {
        let (done, current) = words_state(s.drop_last());
        if spec_is_whitespace(s.last()) {
            if current.len() > 0 {
                (done.push(current), seq![])
            } else {
                (done, current)
            }
        } else {
            (done, current.push(s.last()))
        }
    }
}

/// The whitespace-separated words of `s`.
pub open spec fn words(s: Seq<char>) -> Seq<Seq<char>> {
    let (done, current) = words_state(s);
    if current.len() > 0 {
        done.push(current)
    } else {
        done
    }
}

fn split_words(s: &[char]) -> (r: Vec<Vec<char>>)
    ensures
        r@.map_values(|w: Vec<char>| w@) == words(s@),
{
    let mut done: Vec<Vec<char>> = Vec::new();
    let mut current: Vec<char> = Vec::new();
    for i in 0..s.len()
        invariant
            (done@.map_values(|w: Vec<char>| w@), current@) == words_state(s@.take(i as int)),
    {
        assert(s@.take(i + 1).drop_last() =~= s@.take(i as int));
        assert(s@.take(i + 1).last() == s@[i as int]);
        if is_whitespace(s[i]) {
            if current.len() > 0 {
                let ghost before = done@.map_values(|w: Vec<char>| w@);
                let word = current;
                current = Vec::new();
                done.push(word);
                assert(done@.map_values(|w: Vec<char>| w@) =~= before.push(word@));
                assert(current@ =~= Seq::<char>::empty());
            }
        } else {
            current.push(s[i]);
        }
    }
    assert(s@.take(s.len() as int) =~= s@);
    if current.len() > 0 {
        let ghost before = done@.map_values(|w: Vec<char>| w@);
        done.push(current);
        assert(done@.map_values(|w: Vec<char>| w@) =~= before.push(words_state(s@).1));
    }
    done
}

/// The number of pages for `n` items.
pub open spec fn page_count(n: int) -> int {
    (n + PAGE_SIZE - 1) / PAGE_SIZE as int
}

/// The items of page `page`: from `page * 5` up to five further, within `n`.
pub open spec fn page_bounds(page: int, n: int) -> (int, int) {
    let start = page * PAGE_SIZE;
    (start, if start + PAGE_SIZE < n { start + PAGE_SIZE } else { n })
}

/// The decisions with every pending item of `[start, end)` confirmed.
pub open spec fn confirm_pending(ds: Seq<VerifyDecision>, start: int, end: int) -> Seq<VerifyDecision> {
    Seq::new(ds.len(), |k: int| if start <= k < end && ds[k] == VerifyDecision::Pending { VerifyDecision::Verified } else { ds[k] })
}

/// The decisions, page and action after `command`, which is trimmed first:
/// `q`/`quit` ends; `n`/`next` and `p`/`prev` turn the page where there is
/// one; `y`/`all y` confirms the pending items of the page and turns to the
/// next page where there is one; `<id> y`, `<id> n` and `<id> d` confirm,
/// reject or show one item.
pub open spec fn spec_verify_step(ds: Seq<VerifyDecision>, page: int, command: Seq<char>) -> (Seq<VerifyDecision>, int, VerifyAction) {
    let line = spec_trim(command);
    let n = ds.len() as int;
    let pages = page_count(n);
    if line.len() == 0 {
        (ds, page, VerifyAction::ShowPage)
    } else if line == "q"@ || line == "quit"@ {
        (ds, page, VerifyAction::Quit)
    } else if line == "n"@ || line == "next"@ {
        if page + 1 < pages { (ds, page + 1, VerifyAction::ShowPage) } else { (ds, page, VerifyAction::LastPage) }
    } else if line == "p"@ || line == "prev"@ {
        if page > 0 { (ds, page - 1, VerifyAction::ShowPage) } else { (ds, page, VerifyAction::FirstPage) }
    } else if line == "y"@ || line == "all y"@ {
        let (start, end) = page_bounds(page, n);
        (confirm_pending(ds, start, end), if page + 1 < pages { page + 1 } else { page }, VerifyAction::PageVerified)
    } else {
        let parts = words(line);
        if parts.len() != 2 {
            (ds, page, VerifyAction::Unrecognized)
        } else {
            match parsed_usize(parts[0]) {
                None => (ds, page, VerifyAction::BadIndex),
                Some(id) => if id == 0 || id > n {
                    (ds, page, VerifyAction::OutOfRange { id })
                } else if parts[1] == "y"@ {
                    (ds.update(id - 1, VerifyDecision::Verified), page, VerifyAction::Marked { id, decision: VerifyDecision::Verified })
                } else if parts[1] == "n"@ {
                    (ds.update(id - 1, VerifyDecision::Incorrect), page, VerifyAction::Marked { id, decision: VerifyDecision::Incorrect })
                } else if parts[1] == "d"@ {
                    (ds, page, VerifyAction::Details { id })
                } else {
                    (ds, page, VerifyAction::UnknownOperation)
                },
            }
        }
    }
}

/// The items under check and the page shown.
pub struct VerifySession {
    pub items: Vec<VerifyItem>,
    pub page: usize,
}

impl VerifySession {
    pub open spec fn decisions(&self) -> Seq<VerifyDecision> {
        self.items@.map_values(|v: VerifyItem| v.decision)
    }

    /// The page is one of the pages of the items.
    pub open spec fn wf(&self) -> bool {
        self.page < page_count(self.items@.len() as int)
    }

    /// A session on the first page; `None` when there is nothing to check.
    pub fn new(items: Vec<VerifyItem>) -> (r: Option<VerifySession>)
        ensures
            r is None <==> items@.len() == 0,
            r matches Some(s) ==> s.wf() && s.items@ == items@ && s.page == 0,
    {
        if items.len() == 0 {
            None
        } else {
            Some(VerifySession { items, page: 0 })
        }
    }

    /// The first and end index of the items on the current page.
    pub fn page_items(&self) -> (r: (usize, usize))
        requires
            self.wf(),
        ensures
            r.0 == page_bounds(self.page as int, self.items@.len() as int).0,
            r.1 == page_bounds(self.page as int, self.items@.len() as int).1,
            r.0 <= r.1 <= self.items@.len(),
    {
        let n = self.items.len();
        assert(self.page * 5 < n) by (nonlinear_arith)
            requires self.page < (n + 5 - 1) / 5 as int;
        let start = self.page * PAGE_SIZE;
        let end = if start + PAGE_SIZE < n { start + PAGE_SIZE } else { n };
        (start, end)
    }

    /// The number of pages.
    pub fn pages(&self) -> (r: usize)
        ensures
            r == page_count(self.items@.len() as int),
    {
        let n = self.items.len();
        let r = n / PAGE_SIZE + if n % PAGE_SIZE != 0 { 1 } else { 0 };
        assert(r == (n + PAGE_SIZE - 1) / PAGE_SIZE as int);
        r
    }

    /// Carries out one command.
    pub fn step(&mut self, command: &str) -> (action: VerifyAction)
        requires
            old(self).wf(),
        ensures
            final(self).wf(),
            ({
                let (ds, page, a) = spec_verify_step(old(self).decisions(), old(self).page as int, command@);
                &&& final(self).decisions() == ds
                &&& final(self).page == page
                &&& action == a
            }),
            final(self).items@.len() == old(self).items@.len(),
            forall|k: int| 0 <= k < final(self).items@.len() ==> {
                let (a, b) = (#[trigger] final(self).items@[k], old(self).items@[k]);
                a@ == (VerifyItemView { decision: a.decision, ..b@ })
            },
    {
        let chars = crate::text::chars_of(command);
        let line_chars = trim_chars(chars.as_slice());
        let line = string_from_chars(line_chars.as_slice());
        let n = self.items.len();
        let pages = self.pages();
        if line_chars.len() == 0 {
            return VerifyAction::ShowPage;
        }
        if str_eq(line.as_str(), "q") || str_eq(line.as_str(), "quit") {
            return VerifyAction::Quit;
        }
        if str_eq(line.as_str(), "n") || str_eq(line.as_str(), "next") {
            if self.page + 1 < pages {
                self.page = self.page + 1;
                return VerifyAction::ShowPage;
            }
            return VerifyAction::LastPage;
        }
        if str_eq(line.as_str(), "p") || str_eq(line.as_str(), "prev") {
            if self.page > 0 {
                self.page = self.page - 1;
                return VerifyAction::ShowPage;
            }
            return VerifyAction::FirstPage;
        }
        if str_eq(line.as_str(), "y") || str_eq(line.as_str(), "all y") {
            let (start, end) = self.page_items();
            let ghost ds = self.decisions();
            let ghost olds = self.items@;
            let mut k = start;
            while k < end
                invariant
                    start <= k <= end <= self.items@.len() == n,
                    olds.len() == n,
                    forall|m: int| 0 <= m < n ==> {
                        let (a, b) = (#[trigger] self.items@[m], olds[m]);
                        a@ == (VerifyItemView { decision: a.decision, ..b@ })
                    },
                    forall|m: int| 0 <= m < n ==> #[trigger] self.items@[m].decision
                        == (if start <= m < k && ds[m] == VerifyDecision::Pending { VerifyDecision::Verified } else { ds[m] }),
                    ds == olds.map_values(|v: VerifyItem| v.decision),
                    self.page == old(self).page,
                    pages == page_count(n as int),
                    self.page < pages,
                decreases end - k,
            {
                if self.items[k].decision == VerifyDecision::Pending {
                    let mut item = self.items.remove(k);
                    item.decision = VerifyDecision::Verified;
                    self.items.insert(k, item);
                }
                k += 1;
            }
            assert(self.decisions() =~= confirm_pending(ds, start as int, end as int));
            if self.page + 1 < pages {
                self.page = self.page + 1;
            }
            return VerifyAction::PageVerified;
        }
        let parts = split_words(line_chars.as_slice());
        assert(parts@.len() == words(line@).len());
        if parts.len() != 2 {
            return VerifyAction::Unrecognized;
        }
        assert(parts@[0]@ == words(line@)[0]);
        assert(parts@[1]@ == words(line@)[1]);
        let parsed = parse_usize(parts[0].as_slice());
        let id = match parsed {
            None => {
                return VerifyAction::BadIndex;
            },
            Some(id) => id,
        };
        if id == 0 || id > n {
            return VerifyAction::OutOfRange { id };
        }
        let op = string_from_chars(parts[1].as_slice());
        if str_eq(op.as_str(), "y") || str_eq(op.as_str(), "n") {
            let decision = if str_eq(op.as_str(), "y") { VerifyDecision::Verified } else { VerifyDecision::Incorrect };
            let ghost olds = self.items@;
            let mut item = self.items.remove(id - 1);
            item.decision = decision;
            self.items.insert(id - 1, item);
            assert(self.decisions() =~= olds.map_values(|v: VerifyItem| v.decision).update(id - 1, decision));
            return VerifyAction::Marked { id, decision };
        }
        if str_eq(op.as_str(), "d") {
            return VerifyAction::Details { id };
        }
        VerifyAction::UnknownOperation
    }
}

/// The number of decisions equal to `d`.
pub open spec fn count_decision(ds: Seq<VerifyDecision>, d: VerifyDecision) -> nat
    decreases ds.len(),
{
    if ds.len() == 0 {
        0
    } else {
        count_decision(ds.drop_last(), d) + if ds.last() == d { 1nat } else { 0nat }
    }
}

/// The tally of a check: items, confirmed, rejected and still pending.
pub fn verify_summary(items: &[VerifyItem]) -> (r: (usize, usize, usize, usize))
    ensures
        r.0 == items@.len(),
        r.1 == count_decision(items@.map_values(|v: VerifyItem| v.decision), VerifyDecision::Verified),
        r.2 == count_decision(items@.map_values(|v: VerifyItem| v.decision), VerifyDecision::Incorrect),
        r.3 == count_decision(items@.map_values(|v: VerifyItem| v.decision), VerifyDecision::Pending),
{
    let ghost ds = items@.map_values(|v: VerifyItem| v.decision);
    let mut verified: usize = 0;
    let mut incorrect: usize = 0;
    let mut pending: usize = 0;
    for i in 0..items.len()
        invariant
            ds == items@.map_values(|v: VerifyItem| v.decision),
            verified == count_decision(ds.take(i as int), VerifyDecision::Verified),
            incorrect == count_decision(ds.take(i as int), VerifyDecision::Incorrect),
            pending == count_decision(ds.take(i as int), VerifyDecision::Pending),
            verified + incorrect + pending == i,
    {
        assert(ds.take(i + 1).drop_last() =~= ds.take(i as int));
        match items[i].decision {
            VerifyDecision::Verified => verified += 1,
            VerifyDecision::Incorrect => incorrect += 1,
            VerifyDecision::Pending => pending += 1,
        }
    }
    assert(ds.take(items.len() as int) =~= ds);
    (items.len(), verified, incorrect, pending)
}

} // verus!
