//! Ordering the entries of several dictionaries by the reader's preference.
use vstd::prelude::*;
use crate::dictionary::model::DictEntry;
use crate::sort::{lemma_sort_map_on, rank_lt, lemma_sort_props, sort_by, sort_stable, sorted_by, stable_sort, Ranked};
use crate::text::{ascii_lowered, eq_ignore_ascii_case};

verus! {

/// The position of a dictionary in the priority list (compared ignoring
/// ASCII case); dictionaries not listed come last.
pub open spec fn priority_position(list: Seq<Seq<char>>, name: Seq<char>) -> int
    decreases list.len(),
{
    if list.len() == 0 {
        usize::MAX as int
    } else if ascii_lowered(list[0]) == ascii_lowered(name) {
        0
    } else {
        let rest = priority_position(list.drop_first(), name);
        if rest == usize::MAX as int { rest } else { rest + 1 }
    }
}

/// The rank an entry sorts by.
pub open spec fn priority_rank(list: Seq<Seq<char>>) -> spec_fn(DictEntry) -> (int, int) {
    |e: DictEntry| (priority_position(list, e.dict_name@), 0int)
}

pub open spec fn names_view(list: Seq<String>) -> Seq<Seq<char>> {
    list.map_values(|n: String| n@)
}

/// Entries in priority order; entries of equal priority keep their order.
pub open spec fn prioritized(entries: Seq<DictEntry>, list: Seq<Seq<char>>) -> Seq<DictEntry> {
    if list.len() == 0 || entries.len() == 0 {
        entries
    } else {
        sort_by(entries, priority_rank(list))
    }
}

struct PriorityEntry {
    position: usize,
    entry: DictEntry,
}

impl Ranked for PriorityEntry {
    closed spec fn rank(&self) -> (int, int) {
        (self.position as int, 0)
    }

    fn rank_of(&self) -> (r: (i128, i128)) {
        (self.position as i128, 0)
    }
}

proof fn lemma_priority_position_bound(list: Seq<Seq<char>>, name: Seq<char>)
    ensures
        0 <= priority_position(list, name) <= usize::MAX,
        priority_position(list, name) < usize::MAX ==> priority_position(list, name) < list.len(),
    decreases list.len(),
{
    if list.len() > 0 && ascii_lowered(list[0]) != ascii_lowered(name) {
        lemma_priority_position_bound(list.drop_first(), name);
    }
}

fn position_in(list: &[String], name: &String) -> (r: usize)
    ensures
        r == priority_position(names_view(list@), name@),
{
    let ghost nv = names_view(list@);
    let mut i: usize = 0;
    proof {
        assert(nv.skip(0) == nv);
        lemma_priority_position_bound(nv, name@);
    }
    while i < list.len()
        invariant
            i <= list.len(),
            nv == names_view(list@),
            forall|k: int| 0 <= k < i ==> ascii_lowered(#[trigger] nv[k]) != ascii_lowered(name@),
            priority_position(nv, name@) == if priority_position(nv.skip(i as int), name@) == usize::MAX as int {
                usize::MAX as int
            } else {
                priority_position(nv.skip(i as int), name@) + i
            },
        decreases list.len() - i,
    {
        proof {
            assert(nv.skip(i as int)[0] == nv[i as int]);
            assert(nv.skip(i as int).drop_first() == nv.skip(i + 1));
            lemma_priority_position_bound(nv.skip(i + 1), name@);
        }
        if eq_ignore_ascii_case(list[i].as_str(), name.as_str()) {
            return i;
        }
        i += 1;
    }
    assert(nv.skip(i as int).len() == 0);
    usize::MAX
}

/// Orders entries by the position of their dictionary in the priority list.
pub fn sort_definitions(entries: Vec<DictEntry>, priority_list: &[String]) -> (r: Vec<DictEntry>)
    ensures
        r@ == prioritized(entries@, names_view(priority_list@)),
        r@.to_multiset() == entries@.to_multiset(),
        forall|p: int, q: int, j: int|
            #![trigger listed_at(names_view(priority_list@), j, r@[q].dict_name@), r@[p]]
            0 <= p < q < r@.len() && listed_at(names_view(priority_list@), j, r@[q].dict_name@)
                ==> exists|i: int| 0 <= i <= j && #[trigger] listed_at(names_view(priority_list@), i, r@[p].dict_name@),
{
    proof {
        assert(priority_list@.len() == priority_list.len());
        law_listed_dictionaries_come_first(entries@, names_view(priority_list@));
        lemma_prioritized_is_ordered_permutation(entries@, names_view(priority_list@));
    }
    if priority_list.len() == 0 || entries.len() == 0 {
        return entries;
    }
    let ghost list = names_view(priority_list@);
    let ghost orig = entries@;
    let mut pending = entries;
    let mut reversed: Vec<PriorityEntry> = Vec::new();
    while pending.len() > 0
        invariant
            orig.len() == pending@.len() + reversed@.len(),
            list == names_view(priority_list@),
            forall|k: int| 0 <= k < pending@.len() ==> #[trigger] pending@[k] == orig[k],
            forall|k: int| 0 <= k < reversed@.len() ==> #[trigger] reversed@[k].entry == orig[orig.len() - 1 - k]
                && reversed@[k].position == priority_position(list, reversed@[k].entry.dict_name@),
        decreases pending.len(),
    {
        let entry = pending.pop().unwrap();
        let position = position_in(priority_list, &entry.dict_name);
        reversed.push(PriorityEntry { position, entry });
    }
    let mut wrapped: Vec<PriorityEntry> = Vec::new();
    while reversed.len() > 0
        invariant
            orig.len() == wrapped@.len() + reversed@.len(),
            list == names_view(priority_list@),
            forall|k: int| 0 <= k < wrapped@.len() ==> #[trigger] wrapped@[k].entry == orig[k]
                && wrapped@[k].position == priority_position(list, wrapped@[k].entry.dict_name@),
            forall|k: int| 0 <= k < reversed@.len() ==> #[trigger] reversed@[k].entry == orig[orig.len() - 1 - k]
                && reversed@[k].position == priority_position(list, reversed@[k].entry.dict_name@),
        decreases reversed.len(),
    {
        let w = reversed.pop().unwrap();
        wrapped.push(w);
    }
    let ghost wv = wrapped@;
    let sorted = sort_stable(wrapped);
    let ghost m = |w: PriorityEntry| w.entry;
    let ghost f = |w: PriorityEntry| w.rank();
    proof {
        assert forall|k: int| 0 <= k < wv.len() implies #[trigger] f(wv[k]) == priority_rank(list)(m(wv[k])) by {
            assert(wv[k].position == priority_position(list, wv[k].entry.dict_name@));
        }
        lemma_sort_map_on(wv, f, priority_rank(list), m);
        assert(wv.map_values(m) =~= orig);
        lemma_sort_props(wv, f);
    }
    let ghost sv = sorted@;
    let mut result: Vec<DictEntry> = Vec::new();
    let mut rest = sorted;
    let mut back: Vec<DictEntry> = Vec::new();
    while rest.len() > 0
        invariant
            sv.len() == rest@.len() + back@.len(),
            forall|k: int| 0 <= k < rest@.len() ==> #[trigger] rest@[k] == sv[k],
            forall|k: int| 0 <= k < back@.len() ==> #[trigger] back@[k] == sv[sv.len() - 1 - k].entry,
        decreases rest.len(),
    {
        let w = rest.pop().unwrap();
        back.push(w.entry);
    }
    while back.len() > 0
        invariant
            sv.len() == result@.len() + back@.len(),
            forall|k: int| 0 <= k < result@.len() ==> #[trigger] result@[k] == sv[k].entry,
            forall|k: int| 0 <= k < back@.len() ==> #[trigger] back@[k] == sv[sv.len() - 1 - k].entry,
        decreases back.len(),
    {
        let e = back.pop().unwrap();
        result.push(e);
    }
    proof {
        assert(sv == stable_sort(wv));
        assert(result@ =~= sv.map_values(m));
    }
    result
}

/// The dictionary `name` stands at index `i` of the list, ignoring ASCII case.
pub open spec fn listed_at(list: Seq<Seq<char>>, i: int, name: Seq<char>) -> bool {
    0 <= i < list.len() && ascii_lowered(list[i]) == ascii_lowered(name)
}

proof fn lemma_no_match_before_position(list: Seq<Seq<char>>, name: Seq<char>)
    ensures
        forall|k: int| 0 <= k < list.len() && k < priority_position(list, name) ==> !#[trigger] listed_at(list, k, name),
        priority_position(list, name) < usize::MAX ==> listed_at(list, priority_position(list, name), name),
    decreases list.len(),
{
    lemma_priority_position_bound(list, name);
    if list.len() > 0 && ascii_lowered(list[0]) != ascii_lowered(name) {
        let t = list.drop_first();
        lemma_no_match_before_position(t, name);
        assert forall|k: int| 0 <= k < list.len() && k < priority_position(list, name) implies !#[trigger] listed_at(list, k, name) by {
            if k > 0 {
                assert(list[k] == t[k - 1]);
                assert(!listed_at(t, k - 1, name));
            }
        }
        if priority_position(list, name) < usize::MAX {
            assert(list[priority_position(list, name)] == t[priority_position(t, name)]);
        }
    }
}

/// Listed dictionaries come first, earlier-listed ones before later ones:
/// of two entries in the result, when the later one's dictionary is listed at
/// index `j`, the earlier one's dictionary is listed at some index no greater
/// than `j`. In particular an entry of an unlisted dictionary is followed only
/// by entries of unlisted dictionaries.
pub proof fn law_listed_dictionaries_come_first(entries: Seq<DictEntry>, list: Seq<Seq<char>>)
    requires
        list.len() <= usize::MAX,
    ensures
        forall|p: int, q: int, j: int|
            #![trigger listed_at(list, j, prioritized(entries, list)[q].dict_name@), prioritized(entries, list)[p]]
            0 <= p < q < prioritized(entries, list).len() && listed_at(list, j, prioritized(entries, list)[q].dict_name@)
                ==> exists|i: int| 0 <= i <= j && #[trigger] listed_at(list, i, prioritized(entries, list)[p].dict_name@),
{
    let r = prioritized(entries, list);
    if list.len() > 0 && entries.len() > 0 {
        lemma_sort_props(entries, priority_rank(list));
        assert forall|p: int, q: int, j: int|
            #![trigger listed_at(list, j, r[q].dict_name@), r[p]]
            0 <= p < q < r.len() && listed_at(list, j, r[q].dict_name@)
            implies exists|i: int| 0 <= i <= j && #[trigger] listed_at(list, i, r[p].dict_name@) by {
            let a = r[p].dict_name@;
            let b = r[q].dict_name@;
            lemma_no_match_before_position(list, a);
            lemma_no_match_before_position(list, b);
            assert(!rank_lt(priority_rank(list)(r[q]), priority_rank(list)(r[p])));
            assert(priority_position(list, a) <= priority_position(list, b));
            assert(priority_position(list, b) <= j);
            assert(listed_at(list, priority_position(list, a), a));
        }
    }
}

/// The entries come out in priority order, and every entry comes out as
/// many times as it went in.
pub proof fn lemma_prioritized_is_ordered_permutation(entries: Seq<DictEntry>, list: Seq<Seq<char>>)
    ensures
        list.len() > 0 ==> sorted_by(prioritized(entries, list), priority_rank(list)),
        prioritized(entries, list).to_multiset() == entries.to_multiset(),
{
    if list.len() > 0 && entries.len() > 0 {
        lemma_sort_props(entries, priority_rank(list));
    }
    if list.len() > 0 && entries.len() == 0 {
        assert(sorted_by(entries, priority_rank(list)));
    }
}

} // verus!
