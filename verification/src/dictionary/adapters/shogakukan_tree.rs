//! Nesting 小学館 senses by their level.
use vstd::prelude::*;
use crate::dictionary::adapters::daijirin_senses::{lemma_senses_view_push, sense_view, senses_view, SenseView};
use crate::dictionary::model::DictionarySense;

verus! {

/// A sense read from a paragraph, with the level the paragraph gives it.
pub struct SenseDraft {
    pub level: usize,
    pub sense: DictionarySense,
}

/// A sense placed in the tree: its level, the sense as read, and the senses nested under it.
pub ghost struct SenseNode {
    pub level: int,
    pub sense: SenseView,
    pub below: Seq<SenseNode>,
}

pub open spec fn leaf(level: int, sense: SenseView) -> SenseNode {
    SenseNode { level, sense, below: seq![] }
}

/// Places a sense after the senses already placed: under the last placed sense
/// of a lower level, at the deepest such place, or as a new top-level sense.
pub open spec fn graft(forest: Seq<SenseNode>, d: SenseNode) -> Seq<SenseNode>
    decreases forest,
{
    if forest.len() == 0 || forest.last().level >= d.level {
        forest.push(d)
    } else {
        let last = forest[forest.len() - 1];
        forest.update(forest.len() - 1, SenseNode { below: graft(last.below, d), ..last })
    }
}

/// The tree drafts give, placed one after another.
pub open spec fn forest_of(drafts: Seq<(int, SenseView)>) -> Seq<SenseNode>
    decreases drafts.len(),
{
    if drafts.len() == 0 {
        seq![]
    } else {
        graft(forest_of(drafts.drop_last()), leaf(drafts.last().0, drafts.last().1))
    }
}

/// A placed sense with the senses nested under it appended to its children.
pub open spec fn flatten_node(n: SenseNode) -> SenseView
    decreases n,
{
    SenseView { children: n.sense.children + flatten_forest(n.below), ..n.sense }
}

pub open spec fn flatten_forest(f: Seq<SenseNode>) -> Seq<SenseView>
    decreases f,
{
    if f.len() == 0 {
        seq![]
    } else {
        seq![flatten_node(f[0])] + flatten_forest(f.drop_first())
    }
}

pub open spec fn drafts_view(ds: Seq<SenseDraft>) -> Seq<(int, SenseView)> {
    ds.map_values(|d: SenseDraft| (d.level as int, sense_view(d.sense)))
}

/// The senses drafts give when each is nested under the last earlier sense of a lower level.
pub open spec fn sense_tree(drafts: Seq<(int, SenseView)>) -> Seq<SenseView> {
    flatten_forest(forest_of(drafts))
}

/// The open senses closed from the innermost outwards: each nested as the
/// last sense under the one before it.
pub open spec fn close(s: Seq<SenseNode>) -> SenseNode
    decreases s.len(),
{
    if s.len() <= 1 {
        s[0]
    } else {
        SenseNode { below: s[0].below.push(close(s.drop_first())), ..s[0] }
    }
}

pub open spec fn close_all(s: Seq<SenseNode>) -> Seq<SenseNode> {
    if s.len() == 0 { seq![] } else { seq![close(s)] }
}

pub open spec fn increasing(s: Seq<SenseNode>) -> bool {
    forall|a: int, b: int| 0 <= a < b < s.len() ==> s[a].level < s[b].level
}

proof fn lemma_flatten_push(f: Seq<SenseNode>, n: SenseNode)
    ensures
        flatten_forest(f.push(n)) == flatten_forest(f).push(flatten_node(n)),
    decreases f.len(),
{
    if f.len() == 0 {
        assert(f.push(n).drop_first() =~= Seq::<SenseNode>::empty());
        assert(flatten_forest(Seq::<SenseNode>::empty()) == Seq::<SenseView>::empty());
        assert(flatten_forest(f.push(n)) =~= seq![flatten_node(n)]);
    } else {
        lemma_flatten_push(f.drop_first(), n);
        assert(f.push(n).drop_first() =~= f.drop_first().push(n));
        assert(flatten_forest(f.push(n)) =~= flatten_forest(f).push(flatten_node(n)));
    }
}

/// Closing a stack is closing it after its top is nested under the sense below it.
proof fn lemma_close_pop(s: Seq<SenseNode>)
    requires
        s.len() >= 2,
    ensures
        ({
            let rest = s.drop_last();
            let parent = rest.last();
            close(s) == close(rest.update(rest.len() - 1, SenseNode { below: parent.below.push(s.last()), ..parent }))
        }),
    decreases s.len(),
{
    let rest = s.drop_last();
    let parent = rest.last();
    let merged = rest.update(rest.len() - 1, SenseNode { below: parent.below.push(s.last()), ..parent });
    if s.len() == 2 {
        assert(s.drop_first() =~= seq![s[1]]);
        assert(close(s.drop_first()) == s[1]);
        assert(merged.len() == 1);
        assert(close(merged) == merged[0]);
    } else {
        let s1 = s.drop_first();
        lemma_close_pop(s1);
        assert(s1.drop_last() =~= rest.drop_first());
        assert(s1.drop_last().last() == parent);
        assert(s1.last() == s.last());
        assert(merged.drop_first() =~= rest.drop_first().update(rest.len() - 2, SenseNode { below: parent.below.push(s.last()), ..parent }));
        assert(merged[0] == s[0]);
        assert(merged.len() >= 2);
        assert(close(merged) == SenseNode { below: merged[0].below.push(close(merged.drop_first())), ..merged[0] });
    }
}

/// Grafting under a closed stack whose senses are all of a lower level
/// nests the new sense under the top of the stack.
proof fn lemma_graft_close(s: Seq<SenseNode>, d: SenseNode)
    requires
        s.len() >= 1,
        forall|k: int| 0 <= k < s.len() ==> (#[trigger] s[k]).level < d.level,
        s.last().below.len() == 0 || s.last().below.last().level >= d.level,
    ensures
        close(s).level == s[0].level,
        (SenseNode { below: graft(close(s).below, d), ..close(s) }) == close(s.push(d)),
    decreases s.len(),
{
    if s.len() == 1 {
        assert(s.push(d).drop_first() =~= seq![d]);
        assert(close(seq![d]) == d);
    } else {
        let s1 = s.drop_first();
        assert(s1.last() == s.last());
        assert forall|k: int| 0 <= k < s1.len() implies (#[trigger] s1[k]).level < d.level by {
            assert(s1[k] == s[k + 1]);
        }
        lemma_graft_close(s1, d);
        assert(s.push(d).drop_first() =~= s1.push(d));
        let below = s[0].below.push(close(s1));
        assert(below.last() == close(s1));
        assert(below.last().level == s1[0].level);
        assert(s1[0] == s[1]);
        assert(graft(below, d) == below.update(below.len() - 1, SenseNode { below: graft(close(s1).below, d), ..close(s1) }));
        assert(graft(below, d) =~= s[0].below.push(close(s1.push(d))));
    }
}

/// Grafting a new sense onto the placed senses and the closed stack gives
/// the senses with the new sense on top of the stack.
proof fn lemma_graft_stack(r: Seq<SenseNode>, s: Seq<SenseNode>, d: SenseNode)
    requires
        d.below.len() == 0,
        forall|k: int| 0 <= k < s.len() ==> (#[trigger] s[k]).level < d.level,
        s.len() > 0 ==> s.last().below.len() == 0 || s.last().below.last().level >= d.level,
        s.len() == 0 ==> r.len() == 0 || r.last().level >= d.level,
    ensures
        graft(r + close_all(s), d) == r + close_all(s.push(d)),
{
    if s.len() == 0 {
        assert(r + close_all(s) =~= r);
        assert(close(seq![d]) == d);
        assert(s.push(d) =~= seq![d]);
        assert(r + close_all(s.push(d)) =~= r.push(d));
    } else {
        lemma_graft_close(s, d);
        let f = r + seq![close(s)];
        assert(f.last() == close(s));
        assert(s[0].level < d.level);
        assert(graft(f, d) == f.update(f.len() - 1, SenseNode { below: graft(close(s).below, d), ..close(s) }));
        assert(graft(f, d) =~= r + seq![close(s.push(d))]);
    }
}

/// Moves the top of the stack under the sense below it, or among the placed senses.
fn pop_sense(stack: &mut Vec<(usize, DictionarySense)>, roots: &mut Vec<DictionarySense>, Ghost(gstack): Ghost<Seq<SenseNode>>, Ghost(groots): Ghost<Seq<SenseNode>>) -> (r: (Ghost<Seq<SenseNode>>, Ghost<Seq<SenseNode>>))
    requires
        old(stack)@.len() > 0,
        gstack.len() == old(stack)@.len(),
        forall|k: int| 0 <= k < gstack.len() ==> sense_view((#[trigger] old(stack)@[k]).1) == flatten_node(gstack[k])
            && old(stack)@[k].0 as int == gstack[k].level,
        senses_view(old(roots)@) == flatten_forest(groots),
    ensures
        ({
            let (ns, nr) = (r.0@, r.1@);
            &&& gstack.len() >= 2 ==> ns == gstack.drop_last().update(
                gstack.len() - 2,
                SenseNode { below: gstack[gstack.len() - 2].below.push(gstack.last()), ..gstack[gstack.len() - 2] },
            ) && nr == groots
            &&& gstack.len() == 1 ==> ns.len() == 0 && nr == groots.push(gstack[0])
            &&& ns.len() == final(stack)@.len()
            &&& forall|k: int| 0 <= k < ns.len() ==> sense_view((#[trigger] final(stack)@[k]).1) == flatten_node(ns[k])
                && final(stack)@[k].0 as int == ns[k].level
            &&& senses_view(final(roots)@) == flatten_forest(nr)
            &&& groots + close_all(gstack) == nr + close_all(ns)
        }),
{
    let ghost top = gstack.last();
    let (_, sense) = stack.pop().unwrap();
    assert(sense_view(sense) == flatten_node(top));
    if stack.len() > 0 {
        let (parent_level, mut parent) = stack.pop().unwrap();
        let ghost p = gstack[gstack.len() - 2];
        let ghost before = parent.children@;
        parent.children.push(sense);
        proof {
            lemma_senses_view_push(before, sense);
            lemma_flatten_push(p.below, top);
        }
        stack.push((parent_level, parent));
        let ghost np = SenseNode { below: p.below.push(top), ..p };
        let ghost ns = gstack.drop_last().update(gstack.len() - 2, np);
        proof {
            assert(sense_view(parent) == flatten_node(np));
            assert forall|k: int| 0 <= k < ns.len() implies sense_view((#[trigger] stack@[k]).1) == flatten_node(ns[k])
                && stack@[k].0 as int == ns[k].level by {
                if k < ns.len() - 1 {
                    assert(stack@[k] == old(stack)@[k]);
                }
            }
            lemma_close_pop(gstack);
            assert(close_all(gstack) == close_all(ns));
        }
        (Ghost(ns), Ghost(groots))
    } else {
        let ghost before = roots@;
        roots.push(sense);
        proof {
            lemma_senses_view_push(before, sense);
            lemma_flatten_push(groots, top);
            assert(gstack =~= seq![top]);
            assert(close(gstack) == top);
            assert(groots + close_all(gstack) =~= groots.push(top) + close_all(Seq::<SenseNode>::empty()));
        }
        (Ghost(Seq::<SenseNode>::empty()), Ghost(groots.push(top)))
    }
}

/// Nests drafts into a tree: each sense goes under the last earlier sense of
/// a lower level, appended to the senses already nested there.
pub fn build_sense_tree(drafts: Vec<SenseDraft>) -> (r: Vec<DictionarySense>)
    ensures
        senses_view(r@) == sense_tree(drafts_view(drafts@)),
{
    let ghost dv = drafts_view(drafts@);
    let mut rest = drafts;
    let mut roots: Vec<DictionarySense> = Vec::new();
    let mut stack: Vec<(usize, DictionarySense)> = Vec::new();
    let ghost mut gstack: Seq<SenseNode> = seq![];
    let ghost mut groots: Seq<SenseNode> = seq![];
    let ghost mut i: int = 0;
    assert(dv.skip(0) == dv);
    assert(dv.take(0) =~= Seq::<(int, SenseView)>::empty());
    assert(senses_view(roots@) =~= Seq::<SenseView>::empty());
    while rest.len() > 0
        invariant
            0 <= i <= dv.len(),
            dv == drafts_view(drafts@),
            drafts_view(rest@) == dv.skip(i),
            groots + close_all(gstack) == forest_of(dv.take(i)),
            gstack.len() == stack@.len(),
            forall|k: int| 0 <= k < gstack.len() ==> sense_view((#[trigger] stack@[k]).1) == flatten_node(gstack[k])
                && stack@[k].0 as int == gstack[k].level,
            senses_view(roots@) == flatten_forest(groots),
            increasing(gstack),
            i == 0 ==> gstack.len() == 0 && groots.len() == 0,
            i > 0 ==> gstack.len() > 0 && gstack.last().below.len() == 0,
        decreases rest.len(),
    {
        let ghost before_rest = rest@;
        let draft = rest.remove(0);
        proof {
            assert(drafts_view(before_rest).len() == before_rest.len());
            assert(i < dv.len());
            assert(dv.skip(i)[0] == dv[i]);
            assert(drafts_view(before_rest)[0] == (draft.level as int, sense_view(draft.sense)));
            assert(dv[i] == (draft.level as int, sense_view(draft.sense)));
            assert(rest@ =~= before_rest.drop_first());
            assert(drafts_view(rest@) =~= drafts_view(before_rest).drop_first());
            assert(dv.skip(i).drop_first() =~= dv.skip(i + 1));
        }
        let level = draft.level;
        let mut popped = false;
        while stack.len() > 0 && stack[stack.len() - 1].0 >= level
            invariant
                gstack.len() == stack@.len(),
                forall|k: int| 0 <= k < gstack.len() ==> sense_view((#[trigger] stack@[k]).1) == flatten_node(gstack[k])
                    && stack@[k].0 as int == gstack[k].level,
                senses_view(roots@) == flatten_forest(groots),
                increasing(gstack),
                groots + close_all(gstack) == forest_of(dv.take(i)),
                popped ==> (gstack.len() > 0 ==> gstack.last().below.len() > 0 && gstack.last().below.last().level >= level),
                popped ==> (gstack.len() == 0 ==> groots.len() > 0 && groots.last().level >= level),
                !popped ==> (gstack.len() == 0 ==> groots.len() == 0),
                !popped ==> (gstack.len() > 0 ==> gstack.last().below.len() == 0),
            decreases stack@.len(),
        {
            let ghost top = gstack.last();
            assert(top.level == stack@[stack@.len() - 1].0);
            let (Ghost(ns), Ghost(nr)) = pop_sense(&mut stack, &mut roots, Ghost(gstack), Ghost(groots));
            proof {
                if gstack.len() >= 2 {
                    assert(ns.last().below.last() == top);
                    assert forall|a: int, b: int| 0 <= a < b < ns.len() implies ns[a].level < ns[b].level by {
                        assert(ns[a].level == gstack[a].level);
                        assert(ns[b].level == gstack[b].level);
                    }
                } else {
                    assert(nr.last() == top);
                }
                gstack = ns;
                groots = nr;
            }
            popped = true;
        }
        proof {
            assert forall|k: int| 0 <= k < gstack.len() implies (#[trigger] gstack[k]).level < level by {
                if k < gstack.len() - 1 {
                    assert(gstack[k].level < gstack[gstack.len() - 1].level);
                }
            }
            lemma_graft_stack(groots, gstack, leaf(level as int, sense_view(draft.sense)));
            assert(dv.take(i + 1).drop_last() == dv.take(i));
            assert(dv.take(i + 1).last() == dv[i]);
        }
        stack.push((level, draft.sense));
        proof {
            let d = leaf(level as int, sense_view(draft.sense));
            assert(flatten_forest(d.below) == Seq::<SenseView>::empty());
            assert(d.sense.children + flatten_forest(d.below) =~= d.sense.children);
            assert(flatten_node(d) == sense_view(draft.sense));
            let ng = gstack.push(d);
            assert forall|k: int| 0 <= k < ng.len() implies sense_view((#[trigger] stack@[k]).1) == flatten_node(ng[k])
                && stack@[k].0 as int == ng[k].level by {
                if k < ng.len() - 1 {
                    assert(ng[k] == gstack[k]);
                }
            }
            assert forall|a: int, b: int| 0 <= a < b < ng.len() implies ng[a].level < ng[b].level by {
                if b < ng.len() - 1 {
                    assert(ng[a] == gstack[a] && ng[b] == gstack[b]);
                } else {
                    assert(ng[a] == gstack[a]);
                }
            }
            gstack = ng;
            i = i + 1;
        }
    }
    proof {
        assert(dv.take(i) == dv);
    }
    while stack.len() > 0
        invariant
            gstack.len() == stack@.len(),
            forall|k: int| 0 <= k < gstack.len() ==> sense_view((#[trigger] stack@[k]).1) == flatten_node(gstack[k])
                && stack@[k].0 as int == gstack[k].level,
            senses_view(roots@) == flatten_forest(groots),
            groots + close_all(gstack) == forest_of(dv),
        decreases stack@.len(),
    {
        let (Ghost(ns), Ghost(nr)) = pop_sense(&mut stack, &mut roots, Ghost(gstack), Ghost(groots));
        proof {
            gstack = ns;
            groots = nr;
        }
    }
    assert(groots + close_all(gstack) =~= groots);
    roots
}

/// The placed senses read top-down and in order, each with its level.
pub open spec fn preorder(f: Seq<SenseNode>) -> Seq<(int, SenseView)>
    decreases f,
{
    if f.len() == 0 { seq![] } else { node_preorder(f[0]) + preorder(f.drop_first()) }
}

pub open spec fn node_preorder(n: SenseNode) -> Seq<(int, SenseView)>
    decreases n,
{
    seq![(n.level, n.sense)] + preorder(n.below)
}

/// Whether every sense placed is above `bound` and above the sense it is under.
pub open spec fn levels_nested(f: Seq<SenseNode>, bound: int) -> bool
    decreases f,
{
    if f.len() == 0 {
        true
    } else {
        f[0].level > bound && levels_nested(f[0].below, f[0].level) && levels_nested(f.drop_first(), bound)
    }
}

proof fn lemma_preorder_push(f: Seq<SenseNode>, n: SenseNode)
    ensures
        preorder(f.push(n)) == preorder(f) + node_preorder(n),
    decreases f.len(),
{
    if f.len() == 0 {
        assert(f.push(n).drop_first() =~= Seq::<SenseNode>::empty());
        assert(preorder(Seq::<SenseNode>::empty()) == Seq::<(int, SenseView)>::empty());
        assert(preorder(f.push(n)) =~= node_preorder(n));
        assert(preorder(f) + node_preorder(n) =~= node_preorder(n));
    } else {
        lemma_preorder_push(f.drop_first(), n);
        assert(f.push(n).drop_first() =~= f.drop_first().push(n));
        assert(f.push(n)[0] == f[0]);
        assert(preorder(f.push(n)) =~= preorder(f) + node_preorder(n));
    }
}

proof fn lemma_nested_push(f: Seq<SenseNode>, n: SenseNode, bound: int)
    ensures
        levels_nested(f.push(n), bound) == (levels_nested(f, bound) && n.level > bound && levels_nested(n.below, n.level)),
    decreases f.len(),
{
    if f.len() == 0 {
        assert(f.push(n).drop_first() =~= Seq::<SenseNode>::empty());
        assert(f.push(n)[0] == n);
        assert(levels_nested(Seq::<SenseNode>::empty(), bound));
    } else {
        lemma_nested_push(f.drop_first(), n, bound);
        assert(f.push(n).drop_first() =~= f.drop_first().push(n));
        assert(f.push(n)[0] == f[0]);
    }
}

/// Placing a sense puts it last in the top-down reading.
proof fn lemma_graft_preorder(f: Seq<SenseNode>, d: SenseNode)
    requires
        d.below.len() == 0,
    ensures
        preorder(graft(f, d)) == preorder(f).push((d.level, d.sense)),
    decreases f,
{
    assert(preorder(d.below) == Seq::<(int, SenseView)>::empty());
    assert(node_preorder(d) =~= seq![(d.level, d.sense)]);
    if f.len() == 0 || f.last().level >= d.level {
        lemma_preorder_push(f, d);
    } else {
        let last = f[f.len() - 1];
        let m = SenseNode { below: graft(last.below, d), ..last };
        lemma_graft_preorder(last.below, d);
        assert(f.update(f.len() - 1, m) =~= f.drop_last().push(m));
        assert(f =~= f.drop_last().push(last));
        lemma_preorder_push(f.drop_last(), m);
        lemma_preorder_push(f.drop_last(), last);
        assert(preorder(graft(f, d)) =~= preorder(f).push((d.level, d.sense)));
    }
}

/// Placing a sense above the bound keeps every sense above the one it is under.
proof fn lemma_graft_nested(f: Seq<SenseNode>, d: SenseNode, bound: int)
    requires
        d.below.len() == 0,
        d.level > bound,
        levels_nested(f, bound),
    ensures
        levels_nested(graft(f, d), bound),
    decreases f,
{
    if f.len() == 0 || f.last().level >= d.level {
        lemma_nested_push(f, d, bound);
    } else {
        let last = f[f.len() - 1];
        let m = SenseNode { below: graft(last.below, d), ..last };
        assert(f =~= f.drop_last().push(last));
        lemma_nested_push(f.drop_last(), last, bound);
        lemma_graft_nested(last.below, d, last.level);
        assert(f.update(f.len() - 1, m) =~= f.drop_last().push(m));
        lemma_nested_push(f.drop_last(), m, bound);
    }
}

/// Nesting keeps every draft, in order: the tree read top-down gives back
/// the drafts with their levels.
pub proof fn lemma_tree_keeps_drafts(drafts: Seq<(int, SenseView)>)
    ensures
        preorder(forest_of(drafts)) == drafts,
    decreases drafts.len(),
{
    if drafts.len() == 0 {
        assert(preorder(Seq::<SenseNode>::empty()) =~= drafts);
    } else {
        lemma_tree_keeps_drafts(drafts.drop_last());
        lemma_graft_preorder(forest_of(drafts.drop_last()), leaf(drafts.last().0, drafts.last().1));
        assert(drafts.drop_last().push(drafts.last()) =~= drafts);
    }
}

/// Every sense nested under another has a higher level than it.
pub proof fn lemma_tree_nests_deeper_levels(drafts: Seq<(int, SenseView)>, bound: int)
    requires
        forall|k: int| 0 <= k < drafts.len() ==> (#[trigger] drafts[k]).0 > bound,
    ensures
        levels_nested(forest_of(drafts), bound),
    decreases drafts.len(),
{
    if drafts.len() > 0 {
        assert forall|k: int| 0 <= k < drafts.drop_last().len() implies (#[trigger] drafts.drop_last()[k]).0 > bound by {
            assert(drafts.drop_last()[k] == drafts[k]);
        }
        lemma_tree_nests_deeper_levels(drafts.drop_last(), bound);
        assert(drafts.last() == drafts[drafts.len() - 1]);
        lemma_graft_nested(forest_of(drafts.drop_last()), leaf(drafts.last().0, drafts.last().1), bound);
    }
}

} // verus!
