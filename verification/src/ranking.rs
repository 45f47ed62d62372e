//! Ranking a neighbour list by caller-supplied keys (larger keys rank
//! first, ties keep their order) and keeping its head.

use vstd::prelude::*;
use crate::adjacency::ids_of;

verus! {

/// An id with its ranking key.
pub type Ranked = (u32, Seq<char>);

/// The first position of a descending sequence whose key is below `k`.
pub open spec fn first_below(s: Seq<Ranked>, k: u32) -> int
    decreases s.len(),
{
    if s.len() == 0 {
        0
    } else if s[0].0 < k {
        0
    } else {
        1 + first_below(s.skip(1), k)
    }
}

/// `x` placed after every entry whose key is at least its own.
pub open spec fn insert_desc(sorted: Seq<Ranked>, x: Ranked) -> Seq<Ranked> {
    sorted.insert(first_below(sorted, x.0), x)
}

/// Stable sort by key, largest first.
pub open spec fn sort_desc(s: Seq<Ranked>) -> Seq<Ranked>
    decreases s.len(),
{
    if s.len() == 0 {
        s
    } else {
        insert_desc(sort_desc(s.drop_last()), s.last())
    }
}

/// Ids paired with their keys.
pub open spec fn pairs(ids: Seq<Seq<char>>, keys: Seq<u32>) -> Seq<Ranked> {
    Seq::new(ids.len(), |i: int| (keys[i], ids[i]))
}

/// The ids of ranked entries.
pub open spec fn ids_of_ranked(s: Seq<Ranked>) -> Seq<Seq<char>> {
    s.map_values(|p: Ranked| p.1)
}

/// The `cap` best-ranked ids.
pub open spec fn pruned(ids: Seq<Seq<char>>, keys: Seq<u32>, cap: nat) -> Seq<Seq<char>> {
    let s = ids_of_ranked(sort_desc(pairs(ids, keys)));
    s.take(if cap < s.len() { cap as int } else { s.len() as int })
}

proof fn lemma_first_below(s: Seq<Ranked>, k: u32)
    ensures
        0 <= first_below(s, k) <= s.len(),
    decreases s.len(),
{
    if s.len() > 0 && s[0].0 >= k {
        lemma_first_below(s.skip(1), k);
    }
}

proof fn lemma_insert_desc(t: Seq<Ranked>, x: Ranked)
    ensures
        insert_desc(t, x).len() == t.len() + 1,
        forall|y: Ranked| #[trigger] insert_desc(t, x).contains(y) <==> t.contains(y) || y == x,
        ids_of_ranked(t).no_duplicates() && !ids_of_ranked(t).contains(x.1) ==> ids_of_ranked(
            insert_desc(t, x),
        ).no_duplicates(),
{
    lemma_first_below(t, x.0);
    let p = first_below(t, x.0);
    let r = insert_desc(t, x);
    assert(r.len() == t.len() + 1);
    assert forall|i: int| 0 <= i < r.len() implies #[trigger] r[i] == if i < p {
        t[i]
    } else if i == p {
        x
    } else {
        t[i - 1]
    } by {}
    assert forall|y: Ranked| #[trigger] r.contains(y) <==> t.contains(y) || y == x by {
        if r.contains(y) {
            let i = choose|i: int| 0 <= i < r.len() && r[i] == y;
            if i < p {
                assert(t[i] == y);
            } else if i > p {
                assert(t[i - 1] == y);
            }
        }
        if t.contains(y) {
            let i = choose|i: int| 0 <= i < t.len() && t[i] == y;
            if i < p {
                assert(r[i] == y);
            } else {
                assert(r[i + 1] == y);
            }
        }
        if y == x {
            assert(r[p] == y);
        }
    }
    let ti = ids_of_ranked(t);
    let ri = ids_of_ranked(r);
    if ti.no_duplicates() && !ti.contains(x.1) {
        assert forall|i: int, j: int| 0 <= i < ri.len() && 0 <= j < ri.len() && i != j implies ri[i] != ri[j] by {
            let a = if i < p { i } else { i - 1 };
            let b = if j < p { j } else { j - 1 };
            if i != p && j != p {
                assert(ri[i] == ti[a] && ri[j] == ti[b]);
            } else if i == p {
                assert(ri[j] == ti[b]);
            } else {
                assert(ri[i] == ti[a]);
            }
        }
    }
}

/// Sorting keeps the entries, and the ids stay distinct.
pub proof fn lemma_sort_desc(s: Seq<Ranked>)
    ensures
        sort_desc(s).len() == s.len(),
        forall|y: Ranked| #[trigger] sort_desc(s).contains(y) <==> s.contains(y),
        ids_of_ranked(s).no_duplicates() ==> ids_of_ranked(sort_desc(s)).no_duplicates(),
    decreases s.len(),
{
    if s.len() > 0 {
        let init = s.drop_last();
        lemma_sort_desc(init);
        let t = sort_desc(init);
        lemma_insert_desc(t, s.last());
        assert forall|y: Ranked| #[trigger] sort_desc(s).contains(y) <==> s.contains(y) by {
            if s.contains(y) && y != s.last() {
                let i = choose|i: int| 0 <= i < s.len() && s[i] == y;
                assert(i < s.len() - 1);
                assert(init[i] == y);
                assert(init.contains(y));
            }
            if init.contains(y) {
                let i = choose|i: int| 0 <= i < init.len() && init[i] == y;
                assert(s[i] == y);
            }
            if y == s.last() {
                assert(s[s.len() - 1] == y);
            }
        }
        let si = ids_of_ranked(s);
        if si.no_duplicates() {
            let ii = ids_of_ranked(init);
            assert(ii.no_duplicates()) by {
                assert forall|i: int, j: int| 0 <= i < ii.len() && 0 <= j < ii.len() && i != j implies ii[i] != ii[j] by {
                    assert(ii[i] == si[i] && ii[j] == si[j]);
                }
            }
            assert(!ids_of_ranked(t).contains(s.last().1)) by {
                if ids_of_ranked(t).contains(s.last().1) {
                    let i = choose|i: int| 0 <= i < t.len() && ids_of_ranked(t)[i] == s.last().1;
                    assert(t.contains(t[i]));
                    assert(init.contains(t[i]));
                    let j = choose|j: int| 0 <= j < init.len() && init[j] == t[i];
                    assert(si[j] == si[s.len() - 1]);
                }
            }
        }
    }
}

/// The pruned list: distinct ids drawn from the list, at most `cap` of them.
pub proof fn lemma_pruned(ids: Seq<Seq<char>>, keys: Seq<u32>, cap: nat)
    requires
        keys.len() == ids.len(),
    ensures
        pruned(ids, keys, cap).len() == if cap < ids.len() { cap as int } else { ids.len() as int },
        forall|y: Seq<char>| #[trigger] pruned(ids, keys, cap).contains(y) ==> ids.contains(y),
        ids.no_duplicates() ==> pruned(ids, keys, cap).no_duplicates(),
{
    let ps = pairs(ids, keys);
    assert(ids_of_ranked(ps) =~= ids);
    lemma_sort_desc(ps);
    let sorted = ids_of_ranked(sort_desc(ps));
    let out = pruned(ids, keys, cap);
    assert(sorted.len() == ids.len());
    assert(out.len() <= sorted.len());
    assert forall|y: Seq<char>| #[trigger] out.contains(y) implies ids.contains(y) by {
        let i = choose|i: int| 0 <= i < out.len() && out[i] == y;
        assert(0 <= i < sort_desc(ps).len());
        let e = sort_desc(ps)[i];
        assert(out[i] == sorted[i]);
        assert(sorted[i] == e.1);
        assert(sort_desc(ps).contains(e));
        assert(ps.contains(e));
        let j = choose|j: int| 0 <= j < ps.len() && ps[j] == e;
        assert(ps[j] == (keys[j], ids[j]));
        assert(ids[j] == y);
    }
    if ids.no_duplicates() {
        assert forall|i: int, j: int| 0 <= i < out.len() && 0 <= j < out.len() && i != j implies out[i] != out[j] by {
            assert(out[i] == sorted[i] && out[j] == sorted[j]);
        }
    }
}


/// Descending by key.
pub open spec fn sorted_desc(s: Seq<Ranked>) -> bool {
    forall|i: int, j: int| 0 <= i < j < s.len() ==> s[i].0 >= s[j].0
}

pub(crate) proof fn lemma_first_below_bounds(s: Seq<Ranked>, k: u32)
    requires
        sorted_desc(s),
    ensures
        forall|i: int| 0 <= i < first_below(s, k) ==> s[i].0 >= k,
        forall|i: int| first_below(s, k) <= i < s.len() ==> s[i].0 < k,
    decreases s.len(),
{
    lemma_first_below(s, k);
    if s.len() > 0 {
        if s[0].0 >= k {
            let t = s.skip(1);
            assert(sorted_desc(t)) by {
                assert forall|i: int, j: int| 0 <= i < j < t.len() implies t[i].0 >= t[j].0 by {
                    assert(t[i] == s[i + 1] && t[j] == s[j + 1]);
                }
            }
            lemma_first_below_bounds(t, k);
            assert forall|i: int| 0 <= i < first_below(s, k) implies s[i].0 >= k by {
                if i > 0 {
                    assert(s[i] == t[i - 1]);
                }
            }
            assert forall|i: int| first_below(s, k) <= i < s.len() implies s[i].0 < k by {
                assert(s[i] == t[i - 1]);
            }
        } else {
            assert forall|i: int| 0 <= i < s.len() implies s[i].0 < k by {
                if i > 0 {
                    assert(s[0].0 >= s[i].0);
                }
            }
        }
    }
}

/// Inserting into a descending sequence keeps it descending; the entry lands
/// at `first_below`, after every entry whose key is at least its own.
pub proof fn lemma_insert_desc_sorted(t: Seq<Ranked>, x: Ranked)
    requires
        sorted_desc(t),
    ensures
        0 <= first_below(t, x.0) <= t.len(),
        insert_desc(t, x).len() == t.len() + 1,
        forall|i: int| 0 <= i < insert_desc(t, x).len() ==> #[trigger] insert_desc(t, x)[i] == if i < first_below(t, x.0) {
            t[i]
        } else if i == first_below(t, x.0) {
            x
        } else {
            t[i - 1]
        },
        sorted_desc(insert_desc(t, x)),
{
    lemma_first_below(t, x.0);
    lemma_first_below_bounds(t, x.0);
    let p = first_below(t, x.0);
    let r = insert_desc(t, x);
    assert forall|i: int| 0 <= i < r.len() implies #[trigger] r[i] == if i < p {
        t[i]
    } else if i == p {
        x
    } else {
        t[i - 1]
    } by {}
    assert forall|i: int, j: int| 0 <= i < j < r.len() implies r[i].0 >= r[j].0 by {
        if i < p && j < p {
        } else if i < p && j == p {
        } else if i < p {
            assert(t[i].0 >= t[j - 1].0);
        } else if i == p {
            assert(t[j - 1].0 < x.0);
        } else {
            assert(t[i - 1].0 >= t[j - 1].0);
        }
    }
}

/// Position in `sorted` (descending by key) where an entry of key `k` goes.
pub(crate) fn find_slot(sorted: &Vec<(u32, String)>, k: u32) -> (p: usize)
    ensures
        p == first_below(views_of(sorted@), k),
{
    let ghost v = views_of(sorted@);
    let mut i: usize = 0;
    assert(v.skip(0) =~= v);
    while i < sorted.len()
        invariant
            i <= sorted.len(),
            v == views_of(sorted@),
            first_below(v, k) == i + first_below(v.skip(i as int), k),
        decreases sorted.len() - i,
    {
        let ghost rest = v.skip(i as int);
        assert(rest[0] == v[i as int]);
        if sorted[i].0 < k {
            return i;
        }
        assert(rest.skip(1) =~= v.skip(i + 1));
        i = i + 1;
    }
    assert(v.skip(i as int) =~= Seq::<Ranked>::empty());
    i
}

/// Views of ranked entries.
pub open spec fn views_of(s: Seq<(u32, String)>) -> Seq<Ranked> {
    s.map_values(|p: (u32, String)| (p.0, p.1@))
}

/// The `cap` ids of `ids` with the largest keys, in descending key order,
/// ties in list order.
pub fn prune_by_rank(ids: &Vec<String>, keys: &Vec<u32>, cap: usize) -> (out: Vec<String>)
    requires
        keys.len() == ids.len(),
    ensures
        ids_of(out@) == pruned(ids_of(ids@), keys@, cap as nat),
{
    let ghost ps = pairs(ids_of(ids@), keys@);
    let mut sorted: Vec<(u32, String)> = Vec::new();
    let mut i: usize = 0;
    assert(ps.take(0) =~= Seq::<Ranked>::empty());
    while i < ids.len()
        invariant
            i <= ids.len(),
            keys.len() == ids.len(),
            ps == pairs(ids_of(ids@), keys@),
            views_of(sorted@) == sort_desc(ps.take(i as int)),
        decreases ids.len() - i,
    {
        let p = find_slot(&sorted, keys[i]);
        proof {
            lemma_first_below(views_of(sorted@), keys@[i as int]);
        }
        let ghost before = views_of(sorted@);
        sorted.insert(p, (keys[i], ids[i].clone()));
        proof {
            let t = ps.take(i + 1);
            assert(t.drop_last() =~= ps.take(i as int));
            assert(t.last() == (keys@[i as int], ids@[i as int]@));
            assert(views_of(sorted@) =~= before.insert(p as int, (keys@[i as int], ids@[i as int]@)));
        }
        i = i + 1;
    }
    assert(ps.take(i as int) =~= ps);
    let mut out: Vec<String> = Vec::new();
    let mut j: usize = 0;
    let ghost full = ids_of_ranked(sort_desc(ps));
    assert(ids_of(out@) =~= full.take(0));
    while j < cap && j < sorted.len()
        invariant
            j <= sorted.len(),
            j <= cap,
            full == ids_of_ranked(views_of(sorted@)),
            full.len() == sorted@.len(),
            ids_of(out@) == full.take(j as int),
        decreases sorted.len() - j,
    {
        let s = sorted[j].1.clone();
        proof {
            assert(full[j as int] == sorted@[j as int].1@);
        }
        let ghost before = ids_of(out@);
        out.push(s);
        proof {
            assert(ids_of(out@) =~= before.push(s@));
            assert(ids_of(out@) =~= full.take(j + 1));
        }
        j = j + 1;
    }
    proof {
        lemma_sort_desc(ps);
        let lim = if cap < full.len() { cap as int } else { full.len() as int };
        assert(j == lim);
    }
    out
}

} // verus!
