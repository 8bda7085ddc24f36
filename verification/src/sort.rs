//! Stable ordering of values by a two-part rank, as a stable sort orders them.
use vstd::prelude::*;
use vstd::multiset::Multiset;

verus! {

/// A value with a rank; smaller ranks come first, ties keep their order.
pub trait Ranked {
    spec fn rank(&self) -> (int, int);

    fn rank_of(&self) -> (r: (i128, i128))
        ensures
            r.0 == self.rank().0,
            r.1 == self.rank().1,
    ;
}

/// Strict lexicographic order on ranks.
pub open spec fn rank_lt(a: (int, int), b: (int, int)) -> bool {
    a.0 < b.0 || (a.0 == b.0 && a.1 < b.1)
}

/// `x` placed after every element of `s` that does not rank above it.
pub open spec fn insert_by<T>(s: Seq<T>, x: T, f: spec_fn(T) -> (int, int)) -> Seq<T>
    decreases s.len(),
{
    if s.len() == 0 {
        seq![x]
    } else if rank_lt(f(x), f(s[0])) {
        seq![x] + s
    } else {
        seq![s[0]] + insert_by(s.drop_first(), x, f)
    }
}

/// The stable sort of `s` by the rank `f`.
pub open spec fn sort_by<T>(s: Seq<T>, f: spec_fn(T) -> (int, int)) -> Seq<T>
    decreases s.len(),
{
    if s.len() == 0 {
        s
    } else {
        insert_by(sort_by(s.drop_last(), f), s.last(), f)
    }
}

/// The stable sort of `s` by each element's own rank.
pub open spec fn stable_sort<T: Ranked>(s: Seq<T>) -> Seq<T> {
    sort_by(s, |t: T| t.rank())
}

/// Ranks never decrease along `s`.
pub open spec fn sorted_by<T>(s: Seq<T>, f: spec_fn(T) -> (int, int)) -> bool {
    forall|i: int, j: int| 0 <= i < j < s.len() ==> !rank_lt(#[trigger] f(s[j]), #[trigger] f(s[i]))
}

pub open spec fn rank_sorted<T: Ranked>(s: Seq<T>) -> bool {
    sorted_by(s, |t: T| t.rank())
}

proof fn lemma_insert_at_first_greater<T>(s: Seq<T>, x: T, p: int, f: spec_fn(T) -> (int, int))
    requires
        0 <= p <= s.len(),
        forall|k: int| 0 <= k < p ==> !rank_lt(f(x), #[trigger] f(s[k])),
        p < s.len() ==> rank_lt(f(x), f(s[p])),
    ensures
        insert_by(s, x, f) == s.take(p) + seq![x] + s.skip(p),
    decreases s.len(),
{
    if s.len() == 0 {
        assert(s.take(p) + seq![x] + s.skip(p) =~= seq![x]);
    } else if p == 0 {
        assert(s.take(p) + seq![x] + s.skip(p) =~= seq![x] + s);
    } else {
        let t = s.drop_first();
        assert forall|k: int| 0 <= k < p - 1 implies !rank_lt(f(x), #[trigger] f(t[k])) by {
            assert(t[k] == s[k + 1]);
        }
        lemma_insert_at_first_greater(t, x, p - 1, f);
        assert(s.take(p) + seq![x] + s.skip(p) =~= seq![s[0]] + (t.take(p - 1) + seq![x] + t.skip(
            p - 1,
        )));
    }
}

/// Inserting into a sorted sequence keeps it sorted and adds exactly `x`.
pub proof fn lemma_insert_props<T>(s: Seq<T>, x: T, f: spec_fn(T) -> (int, int))
    requires
        sorted_by(s, f),
    ensures
        sorted_by(insert_by(s, x, f), f),
        insert_by(s, x, f).to_multiset() == s.to_multiset().insert(x),
        insert_by(s, x, f).len() == s.len() + 1,
    decreases s.len(),
{
    broadcast use vstd::seq_lib::group_to_multiset_ensures;
    if s.len() == 0 {
        assert(seq![x] =~= Seq::<T>::empty().push(x));
    } else if rank_lt(f(x), f(s[0])) {
        let r = seq![x] + s;
        assert forall|i: int, j: int| 0 <= i < j < r.len() implies !rank_lt(
            #[trigger] f(r[j]),
            #[trigger] f(r[i]),
        ) by {
            if i == 0 {
                assert(r[j] == s[j - 1]);
                if j - 1 > 0 {
                    assert(!rank_lt(f(s[j - 1]), f(s[0])));
                }
            } else {
                assert(r[i] == s[i - 1] && r[j] == s[j - 1]);
            }
        }
        vstd::seq_lib::lemma_multiset_commutative(seq![x], s);
        assert(seq![x].to_multiset() =~= Multiset::empty().insert(x)) by {
            assert(seq![x] =~= Seq::<T>::empty().push(x));
        }
    } else {
        let t = s.drop_first();
        assert(sorted_by(t, f)) by {
            assert forall|i: int, j: int| 0 <= i < j < t.len() implies !rank_lt(
                #[trigger] f(t[j]),
                #[trigger] f(t[i]),
            ) by {
                assert(t[i] == s[i + 1] && t[j] == s[j + 1]);
            }
        }
        lemma_insert_props(t, x, f);
        let it = insert_by(t, x, f);
        let r = seq![s[0]] + it;
        assert(s == seq![s[0]] + t) by {
            assert(s =~= seq![s[0]] + t);
        }
        assert forall|k: int| 0 <= k < it.len() implies !rank_lt(#[trigger] f(it[k]), f(s[0])) by {
            assert(it.to_multiset().count(it[k]) > 0);
            if it[k] != x {
                assert(t.to_multiset().count(it[k]) > 0);
                assert(t.contains(it[k]));
                let m = choose|m: int| 0 <= m < t.len() && t[m] == it[k];
                assert(s[m + 1] == t[m]);
            }
        }
        assert forall|i: int, j: int| 0 <= i < j < r.len() implies !rank_lt(
            #[trigger] f(r[j]),
            #[trigger] f(r[i]),
        ) by {
            if i == 0 {
                assert(r[j] == it[j - 1]);
            } else {
                assert(r[i] == it[i - 1] && r[j] == it[j - 1]);
            }
        }
        vstd::seq_lib::lemma_multiset_commutative(seq![s[0]], it);
        vstd::seq_lib::lemma_multiset_commutative(seq![s[0]], t);
    }
}

/// A stable sort is ordered by rank and holds the same elements.
pub proof fn lemma_sort_props<T>(s: Seq<T>, f: spec_fn(T) -> (int, int))
    ensures
        sorted_by(sort_by(s, f), f),
        sort_by(s, f).to_multiset() == s.to_multiset(),
        sort_by(s, f).len() == s.len(),
    decreases s.len(),
{
    broadcast use vstd::seq_lib::group_to_multiset_ensures;
    if s.len() > 0 {
        lemma_sort_props(s.drop_last(), f);
        lemma_insert_props(sort_by(s.drop_last(), f), s.last(), f);
        assert(s == s.drop_last().push(s.last()));
    }
}

/// Sorting commutes with a map that preserves ranks.
pub proof fn lemma_sort_map<T, U>(
    s: Seq<T>,
    f: spec_fn(T) -> (int, int),
    g: spec_fn(U) -> (int, int),
    m: spec_fn(T) -> U,
)
    requires
        forall|x: T| #[trigger] f(x) == g(m(x)),
    ensures
        sort_by(s, f).map_values(m) == sort_by(s.map_values(m), g),
    decreases s.len(),
{
    if s.len() > 0 {
        lemma_sort_map(s.drop_last(), f, g, m);
        assert(s.map_values(m).drop_last() =~= s.drop_last().map_values(m));
        lemma_insert_map(sort_by(s.drop_last(), f), s.last(), f, g, m);
    }
}

proof fn lemma_insert_map<T, U>(
    s: Seq<T>,
    x: T,
    f: spec_fn(T) -> (int, int),
    g: spec_fn(U) -> (int, int),
    m: spec_fn(T) -> U,
)
    requires
        forall|x: T| #[trigger] f(x) == g(m(x)),
    ensures
        insert_by(s, x, f).map_values(m) == insert_by(s.map_values(m), m(x), g),
    decreases s.len(),
{
    if s.len() == 0 {
        assert(seq![x].map_values(m) =~= seq![m(x)]);
    } else {
        assert(f(x) == g(m(x)) && f(s[0]) == g(m(s[0])));
        if rank_lt(f(x), f(s[0])) {
            assert((seq![x] + s).map_values(m) =~= seq![m(x)] + s.map_values(m));
        } else {
            lemma_insert_map(s.drop_first(), x, f, g, m);
            assert(s.map_values(m).drop_first() =~= s.drop_first().map_values(m));
            assert((seq![s[0]] + insert_by(s.drop_first(), x, f)).map_values(m) =~= seq![m(s[0])]
                + insert_by(s.drop_first(), x, f).map_values(m));
        }
    }
}

/// Sorts by rank, keeping equal ranks in their original order.
pub fn sort_stable<T: Ranked>(v: Vec<T>) -> (r: Vec<T>)
    ensures
        r@ == stable_sort(v@),
{
    let ghost f = |t: T| t.rank();
    let mut r: Vec<T> = Vec::new();
    let mut v = v;
    let ghost orig = v@;
    let mut rev: Vec<T> = Vec::new();
    let total = v.len();
    assert(orig.len() == total);
    while v.len() > 0
        invariant
            orig.len() == v@.len() + rev@.len(),
            orig.len() <= usize::MAX,
            forall|k: int| 0 <= k < v@.len() ==> #[trigger] v@[k] == orig[k],
            forall|k: int| 0 <= k < rev@.len() ==> #[trigger] rev@[k] == orig[orig.len() - 1 - k],
        decreases v.len(),
    {
        let x = v.pop().unwrap();
        rev.push(x);
    }
    let mut n: usize = 0;
    while rev.len() > 0
        invariant
            f == (|t: T| t.rank()),
            orig.len() == n + rev@.len(),
            orig.len() <= usize::MAX,
            forall|k: int| 0 <= k < rev@.len() ==> #[trigger] rev@[k] == orig[orig.len() - 1 - k],
            r@ == sort_by(orig.take(n as int), f),
        decreases rev.len(),
    {
        let x = rev.pop().unwrap();
        assert(x == orig[n as int]);
        let (xr0, xr1) = x.rank_of();
        proof {
            lemma_sort_props(orig.take(n as int), f);
        }
        let mut p: usize = 0;
        while p < r.len()
            invariant
                p <= r.len(),
                f == (|t: T| t.rank()),
                xr0 == x.rank().0 && xr1 == x.rank().1,
                forall|k: int| 0 <= k < p ==> !rank_lt(f(x), #[trigger] f(r@[k])),
            ensures
                p <= r.len(),
                forall|k: int| 0 <= k < p ==> !rank_lt(f(x), #[trigger] f(r@[k])),
                p < r.len() ==> rank_lt(f(x), f(r@[p as int])),
            decreases r.len() - p,
        {
            let (yr0, yr1) = r[p].rank_of();
            if xr0 < yr0 || (xr0 == yr0 && xr1 < yr1) {
                break;
            }
            p += 1;
        }
        proof {
            lemma_insert_at_first_greater(r@, x, p as int, f);
            assert(orig.take(n + 1).drop_last() == orig.take(n as int));
            assert(orig.take(n + 1).last() == orig[n as int]);
            assert(r@.insert(p as int, x) =~= r@.take(p as int) + seq![x] + r@.skip(p as int));
        }
        r.insert(p, x);
        n += 1;
    }
    assert(orig.take(n as int) == orig);
    r
}


/// Sorting commutes with a map that preserves the ranks of the elements sorted.
pub proof fn lemma_sort_map_on<T, U>(
    s: Seq<T>,
    f: spec_fn(T) -> (int, int),
    g: spec_fn(U) -> (int, int),
    m: spec_fn(T) -> U,
)
    requires
        forall|k: int| 0 <= k < s.len() ==> #[trigger] f(s[k]) == g(m(s[k])),
    ensures
        sort_by(s, f).map_values(m) == sort_by(s.map_values(m), g),
    decreases s.len(),
{
    if s.len() > 0 {
        assert forall|k: int| 0 <= k < s.drop_last().len() implies #[trigger] f(s.drop_last()[k]) == g(m(s.drop_last()[k])) by {
            assert(s.drop_last()[k] == s[k]);
        }
        lemma_sort_map_on(s.drop_last(), f, g, m);
        assert(s.map_values(m).drop_last() =~= s.drop_last().map_values(m));
        lemma_sort_keeps_agreement(s.drop_last(), f, g, m);
        let sorted = sort_by(s.drop_last(), f);
        assert(f(s.last()) == g(m(s.last())));
        lemma_insert_map_on(sorted, s.last(), f, g, m);
    }
}

proof fn lemma_sort_keeps_agreement<T, U>(
    s: Seq<T>,
    f: spec_fn(T) -> (int, int),
    g: spec_fn(U) -> (int, int),
    m: spec_fn(T) -> U,
)
    requires
        forall|k: int| 0 <= k < s.len() ==> #[trigger] f(s[k]) == g(m(s[k])),
    ensures
        forall|k: int| 0 <= k < sort_by(s, f).len() ==> #[trigger] f(sort_by(s, f)[k]) == g(m(sort_by(s, f)[k])),
    decreases s.len(),
{
    if s.len() > 0 {
        assert forall|k: int| 0 <= k < s.drop_last().len() implies #[trigger] f(s.drop_last()[k]) == g(m(s.drop_last()[k])) by {
            assert(s.drop_last()[k] == s[k]);
        }
        lemma_sort_keeps_agreement(s.drop_last(), f, g, m);
        assert(f(s[s.len() - 1]) == g(m(s[s.len() - 1])));
        lemma_insert_keeps_agreement(sort_by(s.drop_last(), f), s.last(), f, g, m);
    }
}

proof fn lemma_insert_keeps_agreement<T, U>(
    s: Seq<T>,
    x: T,
    f: spec_fn(T) -> (int, int),
    g: spec_fn(U) -> (int, int),
    m: spec_fn(T) -> U,
)
    requires
        forall|k: int| 0 <= k < s.len() ==> #[trigger] f(s[k]) == g(m(s[k])),
        f(x) == g(m(x)),
    ensures
        forall|k: int| 0 <= k < insert_by(s, x, f).len() ==> #[trigger] f(insert_by(s, x, f)[k]) == g(m(insert_by(s, x, f)[k])),
    decreases s.len(),
{
    let r = insert_by(s, x, f);
    if s.len() == 0 {
        assert(r =~= seq![x]);
    } else if rank_lt(f(x), f(s[0])) {
        assert forall|k: int| 0 <= k < r.len() implies #[trigger] f(r[k]) == g(m(r[k])) by {
            if k > 0 {
                assert(r[k] == s[k - 1]);
            }
        }
    } else {
        assert forall|k: int| 0 <= k < s.drop_first().len() implies #[trigger] f(s.drop_first()[k]) == g(m(s.drop_first()[k])) by {
            assert(s.drop_first()[k] == s[k + 1]);
        }
        lemma_insert_keeps_agreement(s.drop_first(), x, f, g, m);
        let t = insert_by(s.drop_first(), x, f);
        assert forall|k: int| 0 <= k < r.len() implies #[trigger] f(r[k]) == g(m(r[k])) by {
            if k == 0 {
                assert(r[0] == s[0]);
            } else {
                assert(r[k] == t[k - 1]);
            }
        }
    }
}

proof fn lemma_insert_map_on<T, U>(
    s: Seq<T>,
    x: T,
    f: spec_fn(T) -> (int, int),
    g: spec_fn(U) -> (int, int),
    m: spec_fn(T) -> U,
)
    requires
        forall|k: int| 0 <= k < s.len() ==> #[trigger] f(s[k]) == g(m(s[k])),
        f(x) == g(m(x)),
    ensures
        insert_by(s, x, f).map_values(m) == insert_by(s.map_values(m), m(x), g),
    decreases s.len(),
{
    if s.len() == 0 {
        assert(seq![x].map_values(m) =~= seq![m(x)]);
    } else {
        assert(f(s[0]) == g(m(s[0])));
        if rank_lt(f(x), f(s[0])) {
            assert((seq![x] + s).map_values(m) =~= seq![m(x)] + s.map_values(m));
        } else {
            assert forall|k: int| 0 <= k < s.drop_first().len() implies #[trigger] f(s.drop_first()[k]) == g(m(s.drop_first()[k])) by {
                assert(s.drop_first()[k] == s[k + 1]);
            }
            lemma_insert_map_on(s.drop_first(), x, f, g, m);
            assert(s.map_values(m).drop_first() =~= s.drop_first().map_values(m));
            assert((seq![s[0]] + insert_by(s.drop_first(), x, f)).map_values(m) =~= seq![m(s[0])]
                + insert_by(s.drop_first(), x, f).map_values(m));
        }
    }
}

} // verus!
