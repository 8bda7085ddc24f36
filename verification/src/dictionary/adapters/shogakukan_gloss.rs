//! Reading the explanations of a 小学館 meaning into groups of clauses.
//!
//! A meaning is read as a stream of events (a scope heading, a qualifier, a
//! tag, a piece of text, a semicolon); a builder turns the events into gloss
//! groups. Whether a text is Japanese is judged by a function the caller
//! gives, known to the proofs as a mathematical function `ja`.
use vstd::prelude::*;
use crate::dictionary::adapters::common::{escaped, normalize_visible_text, normalized_visible, tag, text};
use crate::dictionary::adapters::daijirin::element_text;
use crate::dictionary::adapters::daijirin_senses::text_view;
use crate::dictionary::adapters::daijirin_text::{opt_str, opt_view, tags_view};
use crate::dictionary::adapters::section_view::{
    clause_view, clauses_view, group_view, groups_view, ClauseView, GroupView, TagView, TextView,
};
use crate::dictionary::adapters::shogakukan_text::{
    gloss_trimmed, inline_kind, inline_tag_kind, is_pos_label, normalize_gloss_text, pos_label,
};
use crate::dictionary::lookup_state::{spec_trim, trim_chars};
use crate::dictionary::model::{DictionaryGlossClause, DictionaryGlossGroup, DictionaryTag, DictionaryText};
use crate::html::{attr_value, collect_text, element_view, nodes_view, spec_has_class, ElementView, HtmlElement, HtmlNode, NodeView};
use crate::import::epub::{find_char, first_index};
use crate::text::{chars_of, is_whitespace, push_char, push_str, spec_is_whitespace, str_eq, string_from_chars, string_from_range};

verus! {

/// Whether `judge` answers, for every text, whether `ja` holds of it.
pub open spec fn judges<F: Fn(&str) -> bool>(judge: &F, ja: spec_fn(Seq<char>) -> bool) -> bool {
    &&& forall|s: &str| #[trigger] judge.requires((s,))
    &&& forall|s: &str, b: bool| #[trigger] judge.ensures((s,), b) ==> b == ja(s@)
}

pub open spec fn empty_clause() -> ClauseView {
    ClauseView { separator: None, qualifier: None, leading: seq![], text: (seq![], None, seq![]), trailing: seq![] }
}

pub open spec fn empty_group() -> GroupView {
    GroupView { heading: None, clauses: seq![] }
}

/// The groups finished so far, the group and the clause being read, and the
/// separator waiting for the next clause.
pub ghost struct BuilderView {
    pub groups: Seq<GroupView>,
    pub group: GroupView,
    pub clause: ClauseView,
    pub pending: Option<Seq<char>>,
}

pub open spec fn start_view() -> BuilderView {
    BuilderView { groups: seq![], group: empty_group(), clause: empty_clause(), pending: None }
}

/// One thing read from a meaning.
pub ghost enum GlossEvent {
    Heading(Seq<char>),
    Qualifier(Seq<char>),
    Tag(Seq<char>, Seq<char>),
    Text(Seq<char>),
    Separator,
}

/// The clause being read closed: dropped when it holds nothing, else given
/// the waiting separator and its text, Japanese or Chinese, and added to the group.
pub open spec fn flushed_clause(b: BuilderView, ja: spec_fn(Seq<char>) -> bool) -> BuilderView {
    let raw = gloss_trimmed(b.clause.text.2);
    let has_tags = b.clause.leading.len() > 0 || b.clause.trailing.len() > 0;
    if raw.len() == 0 && b.clause.qualifier is None && !has_tags {
        BuilderView { clause: empty_clause(), ..b }
    } else {
        let t = if raw.len() == 0 {
            (seq![], None, seq![])
        } else {
            (if ja(raw) { "ja"@ } else { "zh-CN"@ }, None, escaped(normalized_visible(raw)))
        };
        let c = ClauseView { separator: b.pending, text: t, ..b.clause };
        BuilderView {
            group: GroupView { clauses: b.group.clauses.push(c), ..b.group },
            clause: empty_clause(),
            pending: None,
            ..b
        }
    }
}

/// The group being read closed: kept when it has a heading or a clause.
pub open spec fn flushed_group(b: BuilderView, ja: spec_fn(Seq<char>) -> bool) -> BuilderView {
    let f = flushed_clause(b, ja);
    let keep = f.group.heading is Some || f.group.clauses.len() > 0;
    BuilderView {
        groups: if keep { f.groups.push(f.group) } else { f.groups },
        group: if keep { empty_group() } else { f.group },
        pending: None,
        ..f
    }
}

pub open spec fn nonempty(v: Seq<char>) -> Option<Seq<char>> {
    if v.len() > 0 { Some(v) } else { None }
}

pub open spec fn has_visible(v: Seq<char>) -> bool {
    exists|k: int| 0 <= k < v.len() && !spec_is_whitespace(#[trigger] v[k])
}

/// A tag added before the clause's text when it has none yet, else after it, each once.
pub open spec fn tagged(b: BuilderView, kind: Seq<char>, label: Seq<char>) -> BuilderView {
    let l = normalized_visible(label);
    let t = (kind, normalized_visible(l));
    if l.len() == 0 {
        b
    } else if spec_trim(b.clause.text.2).len() == 0 {
        if b.clause.leading.contains(t) { b } else { BuilderView { clause: ClauseView { leading: b.clause.leading.push(t), ..b.clause }, ..b } }
    } else {
        if b.clause.trailing.contains(t) { b } else { BuilderView { clause: ClauseView { trailing: b.clause.trailing.push(t), ..b.clause }, ..b } }
    }
}

/// What one event does to the builder.
pub open spec fn step(b: BuilderView, e: GlossEvent, ja: spec_fn(Seq<char>) -> bool) -> BuilderView {
    match e {
        GlossEvent::Heading(v) => {
            let f = flushed_group(b, ja);
            BuilderView { group: GroupView { heading: nonempty(normalized_visible(v)), ..f.group }, ..f }
        },
        GlossEvent::Qualifier(v) => {
            let f = flushed_clause(b, ja);
            BuilderView { clause: ClauseView { qualifier: nonempty(normalized_visible(v)), ..f.clause }, ..f }
        },
        GlossEvent::Tag(kind, label) => tagged(b, kind, label),
        GlossEvent::Text(v) => {
            let f = if b.clause.trailing.len() > 0 && has_visible(v) { flushed_clause(b, ja) } else { b };
            BuilderView { clause: ClauseView { text: (f.clause.text.0, f.clause.text.1, f.clause.text.2 + v), ..f.clause }, ..f }
        },
        GlossEvent::Separator => {
            let f = flushed_clause(b, ja);
            BuilderView { pending: Some(seq!['；']), ..f }
        },
    }
}

/// The builder after a run of events.
pub open spec fn apply(b: BuilderView, es: Seq<GlossEvent>, ja: spec_fn(Seq<char>) -> bool) -> BuilderView
    decreases es.len(),
{
    if es.len() == 0 { b } else { apply(step(b, es[0], ja), es.drop_first(), ja) }
}

pub proof fn lemma_apply_concat(b: BuilderView, e1: Seq<GlossEvent>, e2: Seq<GlossEvent>, ja: spec_fn(Seq<char>) -> bool)
    ensures
        apply(b, e1 + e2, ja) == apply(apply(b, e1, ja), e2, ja),
    decreases e1.len(),
{
    if e1.len() == 0 {
        assert(e1 + e2 =~= e2);
    } else {
        assert((e1 + e2)[0] == e1[0]);
        assert((e1 + e2).drop_first() =~= e1.drop_first() + e2);
        lemma_apply_concat(step(b, e1[0], ja), e1.drop_first(), e2, ja);
    }
}

/// Whether a clause holds text or a tag.
pub open spec fn has_content(c: ClauseView) -> bool {
    c.text.2.len() > 0 || c.leading.len() > 0 || c.trailing.len() > 0
}

pub open spec fn meaningful(g: GroupView) -> bool {
    exists|k: int| 0 <= k < g.clauses.len() && #[trigger] has_content(g.clauses[k])
}

/// The groups that hold a clause with text or tags.
pub open spec fn meaningful_groups(gs: Seq<GroupView>) -> Seq<GroupView>
    decreases gs.len(),
{
    if gs.len() == 0 {
        seq![]
    } else {
        let prev = meaningful_groups(gs.drop_last());
        if meaningful(gs.last()) { prev.push(gs.last()) } else { prev }
    }
}

/// The groups a run of events gives.
pub open spec fn gloss_groups_of(es: Seq<GlossEvent>, ja: spec_fn(Seq<char>) -> bool) -> Seq<GroupView> {
    meaningful_groups(flushed_group(apply(start_view(), es, ja), ja).groups)
}

pub struct GlossGroupBuilder {
    pub groups: Vec<DictionaryGlossGroup>,
    pub current_group: DictionaryGlossGroup,
    pub current_clause: DictionaryGlossClause,
    pub pending_separator: Option<String>,
}

pub open spec fn builder_view(b: GlossGroupBuilder) -> BuilderView {
    BuilderView {
        groups: groups_view(b.groups@),
        group: group_view(b.current_group),
        clause: clause_view(b.current_clause),
        pending: opt_view(b.pending_separator),
    }
}

fn new_clause() -> (r: DictionaryGlossClause)
    ensures
        clause_view(r) == empty_clause(),
{
    let r = DictionaryGlossClause {
        separator: None,
        qualifier: None,
        leading_tags: Vec::new(),
        text: DictionaryText { lang: String::new(), qualifier: None, html: String::new() },
        trailing_tags: Vec::new(),
    };
    assert(tags_view(r.leading_tags@) =~= Seq::<TagView>::empty());
    assert(tags_view(r.trailing_tags@) =~= Seq::<TagView>::empty());
    r
}

fn new_group() -> (r: DictionaryGlossGroup)
    ensures
        group_view(r) == empty_group(),
{
    let r = DictionaryGlossGroup { heading: None, clauses: Vec::new() };
    assert(clauses_view(r.clauses@) =~= Seq::<ClauseView>::empty());
    r
}

fn has_tag(tags: &Vec<DictionaryTag>, t: &DictionaryTag) -> (b: bool)
    ensures
        b == tags_view(tags@).contains((t.kind@, t.label@)),
{
    let ghost tv = tags_view(tags@);
    for i in 0..tags.len()
        invariant
            tv == tags_view(tags@),
            forall|k: int| 0 <= k < i ==> tv[k] != (t.kind@, t.label@),
    {
        if str_eq(tags[i].kind.as_str(), t.kind.as_str()) && str_eq(tags[i].label.as_str(), t.label.as_str()) {
            assert(tv[i as int] == (t.kind@, t.label@));
            return true;
        }
    }
    false
}

fn visible_in(value: &str) -> (b: bool)
    ensures
        b == has_visible(value@),
{
    let v = chars_of(value);
    for i in 0..v.len()
        invariant
            v@ == value@,
            forall|k: int| 0 <= k < i ==> spec_is_whitespace(#[trigger] v@[k]),
    {
        if !is_whitespace(v[i]) {
            assert(!spec_is_whitespace(v@[i as int]));
            return true;
        }
    }
    false
}

impl GlossGroupBuilder {
    pub fn new() -> (r: Self)
        ensures
            builder_view(r) == start_view(),
    {
        let r = GlossGroupBuilder { groups: Vec::new(), current_group: new_group(), current_clause: new_clause(), pending_separator: None };
        assert(groups_view(r.groups@) =~= Seq::<GroupView>::empty());
        r
    }

    pub fn flush_clause<F: Fn(&str) -> bool>(&mut self, judge: &F, Ghost(ja): Ghost<spec_fn(Seq<char>) -> bool>)
        requires
            judges(judge, ja),
        ensures
            builder_view(*final(self)) == flushed_clause(builder_view(*old(self)), ja),
    {
        let ghost b = builder_view(*self);
        let raw = normalize_gloss_text(self.current_clause.text.html.as_str());
        let has_tags = self.current_clause.leading_tags.len() > 0 || self.current_clause.trailing_tags.len() > 0;
        proof {
            assert(tags_view(self.current_clause.leading_tags@).len() == self.current_clause.leading_tags@.len());
            assert(tags_view(self.current_clause.trailing_tags@).len() == self.current_clause.trailing_tags@.len());
        }
        if raw.as_str().is_empty() && self.current_clause.qualifier.is_none() && !has_tags {
            self.current_clause = new_clause();
            return;
        }
        let mut clause = new_clause();
        std::mem::swap(&mut clause, &mut self.current_clause);
        let mut pending: Option<String> = None;
        std::mem::swap(&mut pending, &mut self.pending_separator);
        clause.separator = pending;
        clause.text = if raw.as_str().is_empty() {
            DictionaryText { lang: String::new(), qualifier: None, html: String::new() }
        } else {
            let japanese = judge(raw.as_str());
            text(if japanese { "ja" } else { "zh-CN" }, raw.as_str())
        };
        proof {
            reveal_strlit("ja");
            reveal_strlit("zh-CN");
        }
        let ghost before = self.current_group.clauses@;
        self.current_group.clauses.push(clause);
        assert(clauses_view(self.current_group.clauses@) =~= clauses_view(before).push(clause_view(clause)));
    }

    pub fn flush_group<F: Fn(&str) -> bool>(&mut self, judge: &F, Ghost(ja): Ghost<spec_fn(Seq<char>) -> bool>)
        requires
            judges(judge, ja),
        ensures
            builder_view(*final(self)) == flushed_group(builder_view(*old(self)), ja),
    {
        self.flush_clause(judge, Ghost(ja));
        let ghost f = builder_view(*self);
        assert(clauses_view(self.current_group.clauses@).len() == self.current_group.clauses@.len());
        if self.current_group.heading.is_some() || self.current_group.clauses.len() > 0 {
            let mut group = new_group();
            std::mem::swap(&mut group, &mut self.current_group);
            let ghost before = self.groups@;
            self.groups.push(group);
            assert(groups_view(self.groups@) =~= groups_view(before).push(group_view(group)));
        }
        self.pending_separator = None;
    }

    pub fn heading<F: Fn(&str) -> bool>(&mut self, value: &str, judge: &F, Ghost(ja): Ghost<spec_fn(Seq<char>) -> bool>)
        requires
            judges(judge, ja),
        ensures
            builder_view(*final(self)) == step(builder_view(*old(self)), GlossEvent::Heading(value@), ja),
    {
        self.flush_group(judge, Ghost(ja));
        let v = normalize_visible_text(value);
        self.current_group.heading = if v.as_str().is_empty() { None } else { Some(v) };
    }

    pub fn qualifier<F: Fn(&str) -> bool>(&mut self, value: &str, judge: &F, Ghost(ja): Ghost<spec_fn(Seq<char>) -> bool>)
        requires
            judges(judge, ja),
        ensures
            builder_view(*final(self)) == step(builder_view(*old(self)), GlossEvent::Qualifier(value@), ja),
    {
        self.flush_clause(judge, Ghost(ja));
        let v = normalize_visible_text(value);
        self.current_clause.qualifier = if v.as_str().is_empty() { None } else { Some(v) };
    }

    pub fn tag(&mut self, kind: &str, label: &str, Ghost(ja): Ghost<spec_fn(Seq<char>) -> bool>)
        ensures
            builder_view(*final(self)) == step(builder_view(*old(self)), GlossEvent::Tag(kind@, label@), ja),
    {
        let l = normalize_visible_text(label);
        if l.as_str().is_empty() {
            return;
        }
        let t = tag(kind, l.as_str());
        let html_chars = chars_of(self.current_clause.text.html.as_str());
        let trimmed = trim_chars(html_chars.as_slice());
        if trimmed.len() == 0 {
            if !has_tag(&self.current_clause.leading_tags, &t) {
                let ghost before = self.current_clause.leading_tags@;
                self.current_clause.leading_tags.push(t);
                assert(tags_view(self.current_clause.leading_tags@) =~= tags_view(before).push((t.kind@, t.label@)));
            }
        } else {
            if !has_tag(&self.current_clause.trailing_tags, &t) {
                let ghost before = self.current_clause.trailing_tags@;
                self.current_clause.trailing_tags.push(t);
                assert(tags_view(self.current_clause.trailing_tags@) =~= tags_view(before).push((t.kind@, t.label@)));
            }
        }
    }

    pub fn text<F: Fn(&str) -> bool>(&mut self, value: &str, judge: &F, Ghost(ja): Ghost<spec_fn(Seq<char>) -> bool>)
        requires
            judges(judge, ja),
        ensures
            builder_view(*final(self)) == step(builder_view(*old(self)), GlossEvent::Text(value@), ja),
    {
        proof {
            assert(tags_view(self.current_clause.trailing_tags@).len() == self.current_clause.trailing_tags@.len());
        }
        if self.current_clause.trailing_tags.len() > 0 && visible_in(value) {
            self.flush_clause(judge, Ghost(ja));
        }
        push_str(&mut self.current_clause.text.html, value);
    }

    pub fn separator<F: Fn(&str) -> bool>(&mut self, judge: &F, Ghost(ja): Ghost<spec_fn(Seq<char>) -> bool>)
        requires
            judges(judge, ja),
        ensures
            builder_view(*final(self)) == step(builder_view(*old(self)), GlossEvent::Separator, ja),
    {
        self.flush_clause(judge, Ghost(ja));
        let mut s = String::new();
        push_char(&mut s, '；');
        self.pending_separator = Some(s);
    }

    /// The groups read, those without any clause text or tag left out.
    pub fn finish<F: Fn(&str) -> bool>(self, judge: &F, Ghost(ja): Ghost<spec_fn(Seq<char>) -> bool>) -> (r: Vec<DictionaryGlossGroup>)
        requires
            judges(judge, ja),
        ensures
            groups_view(r@) == meaningful_groups(flushed_group(builder_view(self), ja).groups),
    {
        let mut b = self;
        b.flush_group(judge, Ghost(ja));
        let ghost gv = groups_view(b.groups@);
        let mut groups = b.groups;
        let mut kept: Vec<DictionaryGlossGroup> = Vec::new();
        let ghost all = groups@;
        let n = groups.len();
        let mut i: usize = 0;
        assert(groups_view(kept@) =~= meaningful_groups(gv.take(0)));
        while i < n
            invariant
                i <= n,
                n == all.len(),
                groups@ == all.skip(i as int),
                gv == groups_view(all),
                groups_view(kept@) == meaningful_groups(gv.take(i as int)),
            decreases n - i,
        {
            let g = groups.remove(0);
            assert(g == all[i as int]);
            assert(gv[i as int] == group_view(g));
            assert(groups@ =~= all.skip(i + 1));
            assert(gv.take(i + 1).drop_last() == gv.take(i as int));
            assert(gv.take(i + 1).last() == gv[i as int]);
            let mut keep = false;
            let ghost cv = clauses_view(g.clauses@);
            for k in 0..g.clauses.len()
                invariant
                    cv == clauses_view(g.clauses@),
                    cv.len() == g.clauses@.len(),
                    keep == exists|m: int| 0 <= m < k && #[trigger] has_content(cv[m]),
            {
                let c = &g.clauses[k];
                assert(cv[k as int] == clause_view(*c));
                assert(tags_view(c.leading_tags@).len() == c.leading_tags@.len());
                assert(tags_view(c.trailing_tags@).len() == c.trailing_tags@.len());
                let here = !c.text.html.as_str().is_empty() || c.leading_tags.len() > 0 || c.trailing_tags.len() > 0;
                assert(here == has_content(cv[k as int]));
                keep = keep || here;
            }
            assert(group_view(g).clauses == cv);
            assert(keep == meaningful(group_view(g)));
            if keep {
                let ghost before = kept@;
                kept.push(g);
                assert(groups_view(kept@) =~= groups_view(before).push(group_view(g)));
            }
            i += 1;
        }
        assert(gv.take(n as int) == gv);
        kept
    }
}

/// The closing bracket of an opening one, and what its contents are read as.
pub open spec fn closing_of(c: char) -> Option<(char, int)> {
    if c == '［' {
        Some(('］', 0))
    } else if c == '[' {
        Some((']', 0))
    } else if c == '〈' {
        Some(('〉', 1))
    } else if c == '〔' {
        Some(('〕', 2))
    } else {
        None
    }
}

/// The closing bracket of an opening one.
pub open spec fn closer(c: char) -> char {
    match closing_of(c) {
        Some(p) => p.0,
        None => c,
    }
}

pub open spec fn text_flushed(buf: Seq<char>) -> Seq<GlossEvent> {
    if buf.len() > 0 { seq![GlossEvent::Text(buf)] } else { seq![] }
}

/// The bracket depth after a character.
pub open spec fn depth_after(c: char, depth: nat) -> nat {
    if c == '（' || c == '(' {
        depth + 1
    } else if c == '）' || c == ')' {
        if depth > 0 { (depth - 1) as nat } else { 0 }
    } else {
        depth
    }
}

/// The events of a text from its `i`-th character on, with `buf` read but not
/// yet given out and the bracket depth `depth`: outside round brackets, a
/// closed square bracket is a part of speech or a qualifier, an angle bracket
/// a domain, a tortoise-shell bracket a heading when Japanese, and a
/// semicolon a separator.
pub open spec fn text_events(cs: Seq<char>, i: int, buf: Seq<char>, depth: nat, ja: spec_fn(Seq<char>) -> bool) -> Seq<GlossEvent>
    decreases cs.len() - i,
{
    if i >= cs.len() || i < 0 {
        text_flushed(buf)
    } else {
        let c = cs[i];
        let close = closing_of(c);
        let closing = closer(c);
        let kind = match close {
            Some(p) => p.1,
            None => 3,
        };
        if depth == 0 && close is Some && first_index(cs.skip(i + 1), closing) is Some {
            proof {
                crate::import::epub::lemma_first_index_pub(cs.skip(i + 1), closing);
            }
            let end = i + 1 + first_index(cs.skip(i + 1), closing)->0;
            let label = cs.subrange(i + 1, end);
            if kind == 2 && !ja(label) {
                text_flushed(buf) + text_events(cs, end + 1, seq![c] + label + seq![closing], 0, ja)
            } else {
                let e = if kind == 0 {
                    if pos_label(normalized_visible(label)) { GlossEvent::Tag("pos"@, label) } else { GlossEvent::Qualifier(label) }
                } else if kind == 1 {
                    GlossEvent::Tag("domain"@, label)
                } else {
                    GlossEvent::Heading(label)
                };
                text_flushed(buf) + seq![e] + text_events(cs, end + 1, seq![], 0, ja)
            }
        } else if depth == 0 && (c == '；' || c == ';') {
            text_flushed(buf) + seq![GlossEvent::Separator] + text_events(cs, i + 1, seq![], 0, ja)
        } else {
            text_events(cs, i + 1, buf.push(c), depth_after(c, depth), ja)
        }
    }
}

fn closing_exec(c: char) -> (r: Option<(char, u8)>)
    ensures
        match r {
            Some((x, k)) => closing_of(c) == Some((x, k as int)),
            None => closing_of(c) is None,
        },
{
    if c == '［' {
        Some(('］', 0))
    } else if c == '[' {
        Some((']', 0))
    } else if c == '〈' {
        Some(('〉', 1))
    } else if c == '〔' {
        Some(('〕', 2))
    } else {
        None
    }
}

fn flush_buffer<F: Fn(&str) -> bool>(buffer: &mut String, builder: &mut GlossGroupBuilder, judge: &F, Ghost(ja): Ghost<spec_fn(Seq<char>) -> bool>)
    requires
        judges(judge, ja),
    ensures
        builder_view(*final(builder)) == apply(builder_view(*old(builder)), text_flushed(old(buffer)@), ja),
        final(buffer)@.len() == 0,
{
    if !buffer.as_str().is_empty() {
        let ghost b0 = builder_view(*builder);
        let ghost es = text_flushed(buffer@);
        builder.text(buffer.as_str(), judge, Ghost(ja));
        assert(es[0] == GlossEvent::Text(buffer@));
        assert(es.drop_first() =~= Seq::<GlossEvent>::empty());
        assert(apply(b0, es, ja) == apply(step(b0, es[0], ja), es.drop_first(), ja));
        *buffer = String::new();
    } else {
        assert(text_flushed(buffer@) =~= Seq::<GlossEvent>::empty());
    }
}

/// Reads a closed bracket at `index`, when the character there opens one.
fn read_bracket<F: Fn(&str) -> bool>(
    chars: &Vec<char>,
    index: usize,
    buffer: &mut String,
    builder: &mut GlossGroupBuilder,
    judge: &F,
    Ghost(ja): Ghost<spec_fn(Seq<char>) -> bool>,
) -> (r: Option<usize>)
    requires
        index < chars.len(),
        judges(judge, ja),
    ensures
        match r {
            Some(next) => index < next <= chars.len() && apply(builder_view(*final(builder)), text_events(chars@, next as int, final(buffer)@, 0, ja), ja)
                == apply(builder_view(*old(builder)), text_events(chars@, index as int, old(buffer)@, 0, ja), ja),
            None => *final(builder) == *old(builder) && final(buffer)@ == old(buffer)@ && !(closing_of(chars@[index as int]) is Some
                && first_index(chars@.skip(index + 1), closer(chars@[index as int])) is Some),
        },
{
    let ghost cs = chars@;
    let ghost b0 = builder_view(*builder);
    let ghost buf0 = buffer@;
    let c = chars[index];
    let (closing, kind) = match closing_exec(c) {
        Some(p) => p,
        None => {
            return None;
        },
    };
    let rest = vstd::slice::slice_subrange(chars.as_slice(), index + 1, chars.len());
    assert(rest@ == cs.skip(index + 1));
    let rel = match find_char(rest, closing) {
        Some(k) => k,
        None => {
            return None;
        },
    };
    proof {
        crate::import::epub::lemma_first_index_pub(rest@, closing);
    }
    let end = index + 1 + rel;
    let label = string_from_range(chars.as_slice(), index + 1, end);
    let ghost lbl = label@;
    flush_buffer(buffer, builder, judge, Ghost(ja));
    let ghost b1 = builder_view(*builder);
    if kind == 2 && !judge(label.as_str()) {
        push_char(buffer, c);
        push_str(buffer, label.as_str());
        push_char(buffer, closing);
        assert(buffer@ =~= seq![c] + lbl + seq![closing]);
        proof {
            lemma_apply_concat(b0, text_flushed(buf0), text_events(cs, end + 1, buffer@, 0, ja), ja);
        }
    } else {
        let ghost e = if kind == 0 {
            if pos_label(normalized_visible(lbl)) { GlossEvent::Tag("pos"@, lbl) } else { GlossEvent::Qualifier(lbl) }
        } else if kind == 1 {
            GlossEvent::Tag("domain"@, lbl)
        } else {
            GlossEvent::Heading(lbl)
        };
        if kind == 0 {
            let n = normalize_visible_text(label.as_str());
            if is_pos_label(n.as_str()) {
                builder.tag("pos", label.as_str(), Ghost(ja));
            } else {
                builder.qualifier(label.as_str(), judge, Ghost(ja));
            }
        } else if kind == 1 {
            builder.tag("domain", label.as_str(), Ghost(ja));
        } else {
            builder.heading(label.as_str(), judge, Ghost(ja));
        }
        proof {
            assert(builder_view(*builder) == step(b1, e, ja));
            assert(seq![e][0] == e);
            assert(seq![e].drop_first() =~= Seq::<GlossEvent>::empty());
            assert(apply(b1, seq![e], ja) == apply(step(b1, e, ja), Seq::<GlossEvent>::empty(), ja));
            lemma_apply_concat(b0, text_flushed(buf0), seq![e], ja);
            lemma_apply_concat(b0, text_flushed(buf0) + seq![e], text_events(cs, end + 1, seq![], 0, ja), ja);
            assert(buffer@ =~= Seq::<char>::empty());
        }
    }
    Some(end + 1)
}

/// Reads a semicolon at `index` as a separator.
fn read_separator<F: Fn(&str) -> bool>(
    chars: &Vec<char>,
    index: usize,
    buffer: &mut String,
    builder: &mut GlossGroupBuilder,
    judge: &F,
    Ghost(ja): Ghost<spec_fn(Seq<char>) -> bool>,
)
    requires
        index < chars.len(),
        judges(judge, ja),
        chars@[index as int] == '；' || chars@[index as int] == ';',
        !(closing_of(chars@[index as int]) is Some),
    ensures
        apply(builder_view(*final(builder)), text_events(chars@, index + 1, final(buffer)@, 0, ja), ja)
            == apply(builder_view(*old(builder)), text_events(chars@, index as int, old(buffer)@, 0, ja), ja),
{
    let ghost cs = chars@;
    let ghost b0 = builder_view(*builder);
    let ghost buf0 = buffer@;
    flush_buffer(buffer, builder, judge, Ghost(ja));
    let ghost b1 = builder_view(*builder);
    builder.separator(judge, Ghost(ja));
    proof {
        let e = GlossEvent::Separator;
        assert(seq![e][0] == e);
        assert(seq![e].drop_first() =~= Seq::<GlossEvent>::empty());
        assert(apply(b1, seq![e], ja) == apply(step(b1, e, ja), Seq::<GlossEvent>::empty(), ja));
        lemma_apply_concat(b0, text_flushed(buf0), seq![e], ja);
        lemma_apply_concat(b0, text_flushed(buf0) + seq![e], text_events(cs, index + 1, seq![], 0, ja), ja);
        assert(buffer@ =~= Seq::<char>::empty());
    }
}

/// Reads a text of a meaning into the builder.
pub fn collect_gloss_text<F: Fn(&str) -> bool>(source: &str, builder: &mut GlossGroupBuilder, judge: &F, Ghost(ja): Ghost<spec_fn(Seq<char>) -> bool>)
    requires
        judges(judge, ja),
    ensures
        builder_view(*final(builder)) == apply(builder_view(*old(builder)), text_events(source@, 0, seq![], 0, ja), ja),
{
    let ghost target = apply(builder_view(*builder), text_events(source@, 0, seq![], 0, ja), ja);
    let chars = chars_of(source);
    let mut buffer = String::new();
    let mut depth: usize = 0;
    let mut index: usize = 0;
    while index < chars.len()
        invariant
            chars@ == source@,
            index <= chars.len(),
            depth <= index,
            judges(judge, ja),
            apply(builder_view(*builder), text_events(chars@, index as int, buffer@, depth as nat, ja), ja) == target,
        decreases chars.len() - index,
    {
        let c = chars[index];
        let mut handled = false;
        if depth == 0 {
            match read_bracket(&chars, index, &mut buffer, builder, judge, Ghost(ja)) {
                Some(next) => {
                    index = next;
                    handled = true;
                },
                None => {
                    if c == '；' || c == ';' {
                        read_separator(&chars, index, &mut buffer, builder, judge, Ghost(ja));
                        index += 1;
                        handled = true;
                    }
                },
            }
        }
        if !handled {
            let ghost d0 = depth as nat;
            if c == '（' || c == '(' {
                depth += 1;
            } else if c == '）' || c == ')' {
                depth = if depth > 0 { depth - 1 } else { 0 };
            }
            assert(depth as nat == depth_after(c, d0));
            push_char(&mut buffer, c);
            index += 1;
        }
    }
    flush_buffer(&mut buffer, builder, judge, Ghost(ja));
    proof {
        assert(apply(builder_view(*builder), Seq::<GlossEvent>::empty(), ja) == builder_view(*builder));
    }
}

/// The events of a meaning's nodes: texts read as above, then each element's events.
pub open spec fn node_events(nodes: Seq<NodeView>, marker: Option<Seq<char>>, ja: spec_fn(Seq<char>) -> bool) -> Seq<GlossEvent>
    decreases nodes,
{
    if nodes.len() == 0 {
        seq![]
    } else {
        (match nodes[0] {
            NodeView::Text(t) => text_events(t, 0, seq![], 0, ja),
            NodeView::Element(e) => element_events(e, marker, ja),
        }) + node_events(nodes.drop_first(), marker, ja)
    }
}

pub open spec fn typed_heading(e: ElementView) -> bool {
    attr_value(e.attrs, "type"@) == Some("語義区分2"@)
}

pub open spec fn square_label(e: ElementView) -> bool {
    spec_has_class(e, "white-square"@) || spec_has_class(e, "black-square"@)
}

/// The events of an element: a `語義区分2` element is a heading, a square
/// label other than the sense marker a tag, a bold run other than the
/// marker is read through, a line break is a space, links are left out,
/// and other elements are read through.
pub open spec fn element_events(e: ElementView, marker: Option<Seq<char>>, ja: spec_fn(Seq<char>) -> bool) -> Seq<GlossEvent>
    decreases e,
{
    if typed_heading(e) {
        seq![GlossEvent::Heading(collect_text(e.children, seq![], seq![]))]
    } else if square_label(e) {
        if element_text(e).len() > 0 && marker != Some(element_text(e)) {
            seq![GlossEvent::Tag(inline_kind(element_text(e)), element_text(e))]
        } else {
            seq![]
        }
    } else if e.name == "a"@ {
        seq![]
    } else if e.name == "b"@ {
        if marker != Some(element_text(e)) { node_events(e.children, marker, ja) } else { seq![] }
    } else if e.name == "br"@ {
        seq![GlossEvent::Text(seq![' '])]
    } else {
        node_events(e.children, marker, ja)
    }
}

/// Whether an element's events are those of its children.
pub open spec fn reads_through(e: ElementView, marker: Option<Seq<char>>) -> bool {
    !typed_heading(e) && !square_label(e) && e.name != "a"@ && e.name != "br"@ && !(e.name == "b"@ && marker == Some(
        element_text(e),
    ))
}

fn marker_is(marker: Option<&str>, value: &str) -> (b: bool)
    ensures
        b == (opt_str(marker) == Some(value@)),
{
    match marker {
        Some(m) => str_eq(m, value),
        None => false,
    }
}

proof fn lemma_one_event(b: BuilderView, ev: GlossEvent, ja: spec_fn(Seq<char>) -> bool)
    ensures
        apply(b, seq![ev], ja) == step(b, ev, ja),
{
    assert(seq![ev][0] == ev);
    assert(seq![ev].drop_first() =~= Seq::<GlossEvent>::empty());
    assert(apply(step(b, ev, ja), Seq::<GlossEvent>::empty(), ja) == step(b, ev, ja));
}

/// Reads an element that gives its events itself; says whether it is to be read through instead.
#[verifier::spinoff_prover]
#[verifier::rlimit(40)]
fn element_event<F: Fn(&str) -> bool>(
    element: &HtmlElement,
    marker: Option<&str>,
    builder: &mut GlossGroupBuilder,
    judge: &F,
    Ghost(ja): Ghost<spec_fn(Seq<char>) -> bool>,
) -> (through: bool)
    requires
        judges(judge, ja),
    ensures
        through == reads_through(element_view(*element), opt_str(marker)),
        through ==> *final(builder) == *old(builder),
        !through ==> builder_view(*final(builder)) == apply(
            builder_view(*old(builder)),
            element_events(element_view(*element), opt_str(marker), ja),
            ja,
        ),
{
    let ghost e = element_view(*element);
    let ghost b0 = builder_view(*builder);
    let typed = match element.attr("type") {
        Some(t) => str_eq(t, "語義区分2"),
        None => false,
    };
    if typed {
        let t = element.text();
        builder.heading(t.as_str(), judge, Ghost(ja));
        proof {
            lemma_one_event(b0, GlossEvent::Heading(t@), ja);
        }
        return false;
    }
    if element.has_class("white-square") || element.has_class("black-square") {
        let t = element.text();
        let label = normalize_visible_text(t.as_str());
        if !label.as_str().is_empty() && !marker_is(marker, label.as_str()) {
            let kind = inline_tag_kind(label.as_str());
            builder.tag(kind, label.as_str(), Ghost(ja));
            proof {
                lemma_one_event(b0, GlossEvent::Tag(kind@, label@), ja);
            }
        }
        return false;
    }
    if str_eq(element.name.as_str(), "a") {
        return false;
    }
    if str_eq(element.name.as_str(), "b") {
        let t = element.text();
        let value = normalize_visible_text(t.as_str());
        proof {
            reveal_strlit("a");
            reveal_strlit("b");
            reveal_strlit("br");
            assert(e.name == "b"@);
            assert(e.name != "br"@);
            assert(e.name != "a"@);
            assert(!typed_heading(e));
            assert(!square_label(e));
            assert(value@ == element_text(e));
        }
        let hit = marker_is(marker, value.as_str());
        assert(hit == (opt_str(marker) == Some(element_text(e))));
        return !hit;
    }
    if str_eq(element.name.as_str(), "br") {
        proof {
            reveal_strlit(" ");
        }
        builder.text(" ", judge, Ghost(ja));
        proof {
            assert(" "@ =~= seq![' ']);
            lemma_one_event(b0, GlossEvent::Text(seq![' ']), ja);
        }
        return false;
    }
    true
}

/// Reads the nodes of a meaning into the builder.
pub fn collect_gloss_nodes<F: Fn(&str) -> bool>(
    nodes: &[HtmlNode],
    marker: Option<&str>,
    builder: &mut GlossGroupBuilder,
    judge: &F,
    Ghost(ja): Ghost<spec_fn(Seq<char>) -> bool>,
)
    requires
        judges(judge, ja),
    ensures
        builder_view(*final(builder)) == apply(builder_view(*old(builder)), node_events(nodes_view(nodes@), opt_str(marker), ja), ja),
    decreases nodes@,
{
    let ghost nv = nodes_view(nodes@);
    let ghost m = opt_str(marker);
    let ghost target = apply(builder_view(*builder), node_events(nv, m, ja), ja);
    proof {
        crate::html::lemma_nodes_view_len(nodes@);
        assert(nv.skip(0) == nv);
    }
    for i in 0..nodes.len()
        invariant
            nv == nodes_view(nodes@),
            nv.len() == nodes@.len(),
            m == opt_str(marker),
            judges(judge, ja),
            apply(builder_view(*builder), node_events(nv.skip(i as int), m, ja), ja) == target,
    {
        let ghost b0 = builder_view(*builder);
        proof {
            crate::html::lemma_nodes_view_index(nodes@, i as int);
            assert(nv.skip(i as int)[0] == nv[i as int]);
            assert(nv.skip(i as int).drop_first() == nv.skip(i + 1));
        }
        let ghost first = match nv[i as int] {
            NodeView::Text(t) => text_events(t, 0, seq![], 0, ja),
            NodeView::Element(e) => element_events(e, m, ja),
        };
        assert(node_events(nv.skip(i as int), m, ja) == first + node_events(nv.skip(i + 1), m, ja));
        match &nodes[i] {
            HtmlNode::Text(t) => {
                collect_gloss_text(t.as_str(), builder, judge, Ghost(ja));
            },
            HtmlNode::Element(element) => {
                let ghost e = element_view(*element);
                assert(e.children == nodes_view(element.children@));
                let through = element_event(element, marker, builder, judge, Ghost(ja));
                if through {
                    assert(decreases_to!(nodes@ => nodes@[i as int]));
                    collect_gloss_nodes(element.children.as_slice(), marker, builder, judge, Ghost(ja));
                    assert(element_events(e, m, ja) == node_events(e.children, m, ja));
                }
            },
        }
        proof {
            assert(builder_view(*builder) == apply(b0, first, ja));
            lemma_apply_concat(b0, first, node_events(nv.skip(i + 1), m, ja), ja);
        }
    }
    proof {
        assert(nv.skip(nv.len() as int) =~= Seq::<NodeView>::empty());
    }
}

} // verus!
