//! Beam search over the layers of the graph, queries, and the insertion of
//! nodes with the links the search finds for them.
//!
//! Similarity is supplied by the caller as a closure from a node id to a
//! ranking key (larger is more similar), or `None` for an id it cannot
//! score; the search decides which nodes to visit and which to keep.

use vstd::prelude::*;
use ahash::AHashSet;
use crate::adjacency::ids_of;
use crate::hnsw::{
    GraphModel, HnswGraph, LayerModel, MAX_LEVEL, SearchPlan, added_layers, connected_layer, eligible, grown, key_lists,
    lemma_layers_within_nodes, link_ok, list_contains, relinked, selected, stripped, top_nonempty, history_ok,
};
use crate::types::SolVecError;
use crate::idset::{id_set, ids_contains, ids_insert, ids_new};
use crate::ranking::{
    Ranked, find_slot, ids_of_ranked, insert_desc, lemma_insert_desc_sorted, lemma_pruned, sorted_desc, views_of,
};

verus! {

/// `score` may give the key `k` to the id `id`.
pub open spec fn scored<F: Fn(&str) -> Option<u32>>(score: F, id: Seq<char>, k: u32) -> bool {
    exists|t: &str| t@ == id && #[trigger] score.ensures((t,), Some(k))
}

/// A beam over `layer` started from `entry`: descending by key, each id
/// once, each id the entry or a node of the layer, each key one that
/// `score` gives to its id.
pub open spec fn beam_ok<F: Fn(&str) -> Option<u32>>(score: F, layer: LayerModel, entry: Seq<char>, r: Seq<Ranked>) -> bool {
    &&& sorted_desc(r)
    &&& ids_of_ranked(r).no_duplicates()
    &&& forall|i: int| 0 <= i < r.len() ==> (#[trigger] r[i]).1 == entry || layer.dom().contains(r[i].1)
    &&& forall|i: int| 0 <= i < r.len() ==> scored(score, (#[trigger] r[i]).1, r[i].0)
}

/// `score` rates every node of `nodes`: it never answers `None` for one.
pub open spec fn rates_all<F: Fn(&str) -> Option<u32>>(score: F, nodes: Set<Seq<char>>) -> bool {
    forall|t: &str, o: Option<u32>| nodes.contains(t@) && #[trigger] score.ensures((t,), o) ==> o is Some
}

/// Query hits: descending by key, each id once, each a node of `nodes`,
/// each key one that `score` gives to its id.
pub open spec fn hits_ok<F: Fn(&str) -> Option<u32>>(score: F, nodes: Set<Seq<char>>, r: Seq<Ranked>) -> bool {
    &&& sorted_desc(r)
    &&& ids_of_ranked(r).no_duplicates()
    &&& forall|i: int| 0 <= i < r.len() ==> nodes.contains((#[trigger] r[i]).1)
    &&& forall|i: int| 0 <= i < r.len() ==> scored(score, (#[trigger] r[i]).1, r[i].0)
}

/// Every link of `id` in `g` is returned, unless the other end's list is
/// full.
pub open spec fn links_back(g: GraphModel, id: Seq<char>) -> bool {
    forall|j: int, k: Seq<char>|
        0 <= j < g.layers.len() && g.layers[j].dom().contains(id) && #[trigger] g.layers[j][id].contains(k)
            ==> g.layers[j][k].contains(id) || g.layers[j][k].len() == g.cap(j)
}

/// Apart from `id`'s own, each list of `after` holds only `id` and entries
/// it held in `before`.
pub open spec fn only_gains(before: Seq<LayerModel>, after: Seq<LayerModel>, id: Seq<char>) -> bool {
    forall|j: int, k: Seq<char>, x: Seq<char>|
        0 <= j < after.len() && after[j].dom().contains(k) && k != id && #[trigger] after[j][k].contains(x)
            ==> x == id || (j < before.len() && before[j].dom().contains(k) && before[j][k].contains(x))
}

/// Right after `id` joins layers `0..=level`, it has an empty list in each,
/// no other list has changed and it has no links to return.
proof fn lemma_added_links(g0: GraphModel, g1: GraphModel, id: Seq<char>, level: int)
    requires
        0 <= level,
        g0.wf(),
        !g0.nodes().contains(id),
        g1.layers == added_layers(g0.layers, id, level),
    ensures
        g1.layers.len() >= level + 1,
        g1.layers.len() >= g0.layers.len(),
        forall|l: int| 0 <= l <= level ==> (#[trigger] g1.layers[l]).dom().contains(id) && g1.layers[l][id].len() == 0,
        only_gains(g0.layers, g1.layers, id),
        links_back(g1, id),
        forall|j: int, k: Seq<char>|
            0 <= j < g1.layers.len() && #[trigger] g1.layers[j].dom().contains(k) ==> !g1.layers[j][k].contains(id),
{
    let added = g1.layers;
    assert forall|j: int, k: Seq<char>|
        0 <= j < added.len() && #[trigger] added[j].dom().contains(k) implies !added[j][k].contains(id) by {
        if k == id {
            if j > level && j < g0.layers.len() {
                lemma_layers_within_nodes(g0, j);
            }
        } else if j < g0.layers.len() {
            assert(g0.layers[j].dom().contains(k));
            assert(g0.list_ok(j, k));
            lemma_layers_within_nodes(g0, j);
            if added[j][k].contains(id) {
                let i = choose|i: int| 0 <= i < added[j][k].len() && added[j][k][i] == id;
                assert(g0.layers[j][k][i] == id);
                assert(g0.layers[j].dom().contains(id));
            }
        }
    }
    assert forall|l: int| 0 <= l <= level implies (#[trigger] g1.layers[l]).dom().contains(id) && g1.layers[l][id].len() == 0 by {}
    assert forall|j: int, k: Seq<char>, x: Seq<char>|
        0 <= j < added.len() && added[j].dom().contains(k) && k != id && #[trigger] added[j][k].contains(x)
            implies x == id || (j < g0.layers.len() && g0.layers[j].dom().contains(k) && g0.layers[j][k].contains(x)) by {
        if j >= g0.layers.len() {
            assert(added[j].dom().contains(k));
        }
    }
    assert forall|j: int, k: Seq<char>|
        0 <= j < added.len() && added[j].dom().contains(id) && #[trigger] added[j][id].contains(k)
            implies added[j][k].contains(id) || added[j][k].len() == g1.cap(j) by {
        if j > level && j < g0.layers.len() {
            lemma_layers_within_nodes(g0, j);
            assert(g0.layers[j].dom().contains(id));
        }
        assert(added[j][id].len() == 0);
    }
}

/// One linking step keeps the other lists' growth to the new node and
/// returns the new node's links unless the other list is full.
proof fn lemma_link_step(
    g: GraphModel,
    base: Seq<LayerModel>,
    layer: int,
    node: Seq<char>,
    nbrs: Seq<Seq<char>>,
    keys: Seq<Seq<u32>>,
    h: GraphModel,
)
    requires
        g.wf(),
        link_ok(g, layer, node, nbrs, keys),
        h == (GraphModel {
            layers: g.layers.update(layer, connected_layer(g.layers[layer], node, nbrs, keys, g.cap(layer))),
            ..g
        }),
        only_gains(base, g.layers, node),
        links_back(g, node),
    ensures
        only_gains(base, h.layers, node),
        links_back(h, node),
        forall|j: int| 0 <= j < h.layers.len() ==> (#[trigger] h.layers[j]).dom() == g.layers[j].dom(),
{
    let cap = g.cap(layer);
    let old_l = g.layers[layer];
    let new_l = h.layers[layer];
    assert(new_l.dom() =~= old_l.dom());
    assert forall|j: int| 0 <= j < h.layers.len() implies (#[trigger] h.layers[j]).dom() == g.layers[j].dom() by {}
    assert forall|j: int, k: Seq<char>, x: Seq<char>|
        0 <= j < h.layers.len() && h.layers[j].dom().contains(k) && k != node && #[trigger] h.layers[j][k].contains(x)
            implies x == node || (j < base.len() && base[j].dom().contains(k) && base[j][k].contains(x)) by {
        if j == layer && nbrs.contains(k) {
            let i = nbrs.index_of(k);
            let gr = grown(old_l[k], node);
            assert(new_l[k] == relinked(old_l[k], node, keys[i], cap));
            if gr.len() > cap {
                assert(keys[i].len() == gr.len());
                lemma_pruned(gr, keys[i], cap);
                assert(gr.contains(x));
            } else {
                assert(gr.contains(x));
            }
            if x != node {
                assert(old_l[k].contains(x));
            }
        } else if j == layer {
            assert(new_l[k] == old_l[k]);
        }
    }
    assert forall|j: int, k: Seq<char>|
        0 <= j < h.layers.len() && h.layers[j].dom().contains(node) && #[trigger] h.layers[j][node].contains(k)
            implies h.layers[j][k].contains(node) || h.layers[j][k].len() == h.cap(j) by {
        if j == layer {
            assert(new_l[node] == nbrs);
            let i = nbrs.index_of(k);
            assert(k != node);
            let gr = grown(old_l[k], node);
            assert(new_l[k] == relinked(old_l[k], node, keys[i], cap));
            if gr.len() > cap {
                assert(keys[i].len() == gr.len());
                lemma_pruned(gr, keys[i], cap);
            } else {
                if !old_l[k].contains(node) {
                    assert(gr[gr.len() - 1] == node);
                }
            }
        }
    }
}

/// `r` holds an entry for the id `x`.
pub open spec fn holds_id(r: Seq<(u32, String)>, x: Seq<char>) -> bool {
    exists|i: int| 0 <= i < r.len() && r[i].1@ == x
}

/// Every seen id is in the beam.
pub open spec fn all_in_beam(seen: Set<Seq<char>>, beam: Seq<(u32, String)>) -> bool {
    forall|x: Seq<char>| #[trigger] seen.contains(x) ==> holds_id(beam, x)
}

/// Every seen node of the layer other than `skip` is still a candidate or
/// has had all its neighbours seen.
pub open spec fn settled_except(layer: LayerModel, seen: Set<Seq<char>>, cands: Seq<(u32, String)>, skip: Option<Seq<char>>) -> bool {
    forall|x: Seq<char>|
        #[trigger] seen.contains(x) && layer.dom().contains(x) && skip != Some(x) ==> holds_id(cands, x) || (forall|n: Seq<char>|
            #[trigger] layer[x].contains(n) ==> seen.contains(n))
}

/// The nodes of `layer` that an entry of `r` links to are in `r`.
pub open spec fn closed_under_links(layer: LayerModel, r: Seq<Ranked>) -> bool {
    forall|i: int, n: Seq<char>|
        0 <= i < r.len() && layer.dom().contains(r[i].1) && #[trigger] layer[r[i].1].contains(n)
            ==> exists|j: int| 0 <= j < r.len() && r[j].1 == n
}

/// `v` is the head of a beam that is descending, closed under the links of
/// `layer` and holds `start`: the `min(top_k, len)` best of it.
pub open spec fn head_of_closed_beam(layer: LayerModel, start: Seq<char>, v: Seq<Ranked>, top_k: nat) -> bool {
    exists|b: Seq<Ranked>|
        {
            &&& sorted_desc(b)
            &&& closed_under_links(layer, b)
            &&& (exists|i: int| 0 <= i < b.len() && b[i].1 == start)
            &&& v.len() == if top_k < b.len() { top_k as int } else { b.len() as int }
            &&& v == b.take(v.len() as int)
        }
}

/// Some node of `layer` lists `x` as a neighbour.
pub open spec fn linked_in(layer: LayerModel, x: Seq<char>) -> bool {
    exists|k: Seq<char>| layer.dom().contains(k) && #[trigger] layer[k].contains(x)
}

/// Each entry of `r` is `entry` or a node that some node of `layer` lists.
pub open spec fn linked_ok(layer: LayerModel, entry: Seq<char>, r: Seq<(u32, String)>) -> bool {
    forall|i: int| 0 <= i < r.len() ==> (#[trigger] r[i]).1@ == entry || linked_in(layer, r[i].1@)
}

/// `score` answers alike for ids with the same characters.
pub open spec fn deterministic<F: Fn(&str) -> Option<u32>>(score: F) -> bool {
    forall|t1: &str, t2: &str, o1: Option<u32>, o2: Option<u32>|
        t1@ == t2@ && #[trigger] score.ensures((t1,), o1) && #[trigger] score.ensures((t2,), o2) ==> o1 == o2
}

/// No key that `score` may give to a neighbour of `x` in `layer` is above
/// any key it may give to `x`.
pub open spec fn local_best<F: Fn(&str) -> Option<u32>>(score: F, layer: LayerModel, x: Seq<char>) -> bool {
    forall|n: Seq<char>, k: u32, kx: u32|
        #[trigger] layer[x].contains(n) && #[trigger] scored(score, n, k) && #[trigger] scored(score, x, kx) ==> k <= kx
}

/// `c` holds an entry with key `k` for the id `x`.
spec fn pending(c: Seq<(u32, String)>, k: u32, x: Seq<char>) -> bool {
    exists|i: int| 0 <= i < c.len() && c[i].0 == k && c[i].1@ == x
}

/// Best-first bookkeeping of a beam search: no candidate and no seen node
/// rates above the head of the beam, and the head is still a candidate, is
/// not a node of the layer, is `from` (being expanded), or has had all its
/// neighbours seen.
spec fn best_ok<F: Fn(&str) -> Option<u32>>(
    score: F,
    layer: LayerModel,
    seen: Set<Seq<char>>,
    cands: Seq<(u32, String)>,
    beam: Seq<(u32, String)>,
    from: Option<Seq<char>>,
) -> bool {
    &&& beam.len() > 0
    &&& forall|i: int| 0 <= i < cands.len() ==> (#[trigger] cands[i]).0 <= beam[0].0
    &&& forall|n: Seq<char>, k: u32| seen.contains(n) && #[trigger] scored(score, n, k) ==> k <= beam[0].0
    &&& pending(cands, beam[0].0, beam[0].1@) || !layer.dom().contains(beam[0].1@) || from == Some(beam[0].1@) || (forall|
        n: Seq<char>,
    | #[trigger] layer[beam[0].1@].contains(n) ==> seen.contains(n))
}

/// What a deterministic `score` answered for one id is all it ever gives it.
proof fn lemma_det_scored<F: Fn(&str) -> Option<u32>>(score: F, t: &str, o: Option<u32>)
    requires
        deterministic(score),
        score.ensures((t,), o),
    ensures
        forall|k: u32| #[trigger] scored(score, t@, k) ==> o == Some(k),
{
    assert forall|k: u32| #[trigger] scored(score, t@, k) implies o == Some(k) by {
        let t2 = choose|t2: &str| t2@ == t@ && #[trigger] score.ensures((t2,), Some(k));
        assert(score.ensures((t2,), Some(k)));
    }
}

/// The head of a descending beam has its largest key.
proof fn lemma_head_is_max(r: Seq<(u32, String)>)
    requires
        sorted_desc(views_of(r)),
        r.len() > 0,
    ensures
        forall|i: int| 0 <= i < r.len() ==> (#[trigger] r[i]).0 <= r[0].0,
{
    let v = views_of(r);
    assert forall|i: int| 0 <= i < r.len() implies (#[trigger] r[i]).0 <= r[0].0 by {
        assert(v[i].0 == r[i].0 && v[0].0 == r[0].0);
    }
}

/// A deterministic `score` gives an id at most one key.
proof fn lemma_scored_unique<F: Fn(&str) -> Option<u32>>(score: F, id: Seq<char>, k1: u32, k2: u32)
    requires
        deterministic(score),
        scored(score, id, k1),
        scored(score, id, k2),
    ensures
        k1 == k2,
{
    let t1 = choose|t: &str| t@ == id && #[trigger] score.ensures((t,), Some(k1));
    let t2 = choose|t: &str| t@ == id && #[trigger] score.ensures((t,), Some(k2));
    assert(score.ensures((t1,), Some(k1)) && score.ensures((t2,), Some(k2)));
}

/// Marking a node seen that rates no higher than the head keeps the
/// bookkeeping.
proof fn lemma_best_skip<F: Fn(&str) -> Option<u32>>(
    score: F,
    layer: LayerModel,
    seen: Set<Seq<char>>,
    nid: Seq<char>,
    cands: Seq<(u32, String)>,
    beam: Seq<(u32, String)>,
    from: Option<Seq<char>>,
)
    requires
        best_ok(score, layer, seen, cands, beam, from),
        forall|k: u32| #[trigger] scored(score, nid, k) ==> k <= beam[0].0,
    ensures
        best_ok(score, layer, seen.insert(nid), cands, beam, from),
{
}

/// Admitting a node into the beam and the candidates keeps the bookkeeping.
proof fn lemma_best_admit<F: Fn(&str) -> Option<u32>>(
    score: F,
    layer: LayerModel,
    seen: Set<Seq<char>>,
    nid: Seq<char>,
    s: u32,
    c0: Seq<(u32, String)>,
    b0: Seq<(u32, String)>,
    c1: Seq<(u32, String)>,
    b1: Seq<(u32, String)>,
    from: Option<Seq<char>>,
)
    requires
        best_ok(score, layer, seen, c0, b0, from),
        forall|k: u32| #[trigger] scored(score, nid, k) ==> k == s,
        c1.len() == c0.len() + 1,
        forall|i: int| 0 <= i < c0.len() ==> c1[i] == c0[i],
        c1[c0.len() as int].0 == s,
        c1[c0.len() as int].1@ == nid,
        b1.len() > 0,
        b1[0].0 >= s,
        b1[0].0 >= b0[0].0,
        (b1[0].0 == s && b1[0].1@ == nid) || (b1[0].0 == b0[0].0 && b1[0].1@ == b0[0].1@),
    ensures
        best_ok(score, layer, seen.insert(nid), c1, b1, from),
{
    let x0 = b0[0];
    let x1 = b1[0];
    assert forall|i: int| 0 <= i < c1.len() implies (#[trigger] c1[i]).0 <= x1.0 by {
        if i < c0.len() {
            assert(c1[i] == c0[i]);
        }
    }
    if x1.0 == s && x1.1@ == nid {
        assert(pending(c1, x1.0, x1.1@)) by {
            assert(c1[c0.len() as int].0 == x1.0);
        }
    } else if pending(c0, x0.0, x0.1@) {
        let i = choose|i: int| 0 <= i < c0.len() && c0[i].0 == x0.0 && c0[i].1@ == x0.1@;
        assert(c1[i] == c0[i]);
        assert(pending(c1, x1.0, x1.1@));
    }
}

/// Taking the best candidate out: the bookkeeping holds with it being
/// expanded, and without that when it rates below the head.
proof fn lemma_best_pop<F: Fn(&str) -> Option<u32>>(
    score: F,
    layer: LayerModel,
    seen: Set<Seq<char>>,
    c0: Seq<(u32, String)>,
    p: int,
    beam: Seq<(u32, String)>,
)
    requires
        best_ok(score, layer, seen, c0, beam, None),
        0 <= p < c0.len(),
        forall|j: int| 0 <= j < c0.len() ==> c0[j].0 <= c0[p].0,
    ensures
        best_ok(score, layer, seen, c0.remove(p), beam, Some(c0[p].1@)),
        c0[p].0 < beam[0].0 ==> best_ok(score, layer, seen, c0.remove(p), beam, None) && !pending(
            c0.remove(p),
            beam[0].0,
            beam[0].1@,
        ),
        !layer.dom().contains(c0[p].1@) ==> best_ok(score, layer, seen, c0.remove(p), beam, None),
{
    let c1 = c0.remove(p);
    let x = beam[0];
    assert forall|i: int| 0 <= i < c1.len() implies (#[trigger] c1[i]).0 <= x.0 by {
        if i < p {
            assert(c1[i] == c0[i]);
        } else {
            assert(c1[i] == c0[i + 1]);
        }
    }
    if pending(c0, x.0, x.1@) {
        let i = choose|i: int| 0 <= i < c0.len() && c0[i].0 == x.0 && c0[i].1@ == x.1@;
        if i != p {
            let j = if i < p { i } else { i - 1 };
            assert(c1[j] == c0[i]);
            assert(pending(c1, x.0, x.1@));
        }
    }
    if c0[p].0 < x.0 && pending(c1, x.0, x.1@) {
        let j = choose|j: int| 0 <= j < c1.len() && c1[j].0 == x.0 && c1[j].1@ == x.1@;
        if j < p {
            assert(c1[j] == c0[j]);
        } else {
            assert(c1[j] == c0[j + 1]);
        }
    }
}

/// A candidate list with an eligible entry yields at least one neighbour
/// when the capacity allows one.
proof fn lemma_selected_nonempty(c: Seq<Seq<char>>, node: Seq<char>, dom: Set<Seq<char>>, cap: nat, i: int)
    requires
        0 <= i < c.len(),
        c[i] != node,
        dom.contains(c[i]),
        cap >= 1,
    ensures
        selected(c, node, dom, cap).len() >= 1,
    decreases c.len(),
{
    lemma_eligible_nonempty(c, node, dom, i);
}

proof fn lemma_eligible_nonempty(c: Seq<Seq<char>>, node: Seq<char>, dom: Set<Seq<char>>, i: int)
    requires
        0 <= i < c.len(),
        c[i] != node,
        dom.contains(c[i]),
    ensures
        eligible(c, node, dom).len() >= 1,
    decreases c.len(),
{
    let r = eligible(c.drop_last(), node, dom);
    let x = c.last();
    if i < c.len() - 1 {
        assert(c.drop_last()[i] == c[i]);
        lemma_eligible_nonempty(c.drop_last(), node, dom, i);
    } else if r.contains(x) {
        assert(r.len() >= 1);
    }
}

/// Each layer of a well-formed graph lies within every layer below it.
proof fn lemma_layer_within_lower(g: GraphModel, a: int, b: int)
    requires
        g.wf(),
        0 <= b <= a < g.layers.len(),
    ensures
        g.layers[a].dom().subset_of(g.layers[b].dom()),
    decreases a - b,
{
    if b < a {
        lemma_layer_within_lower(g, a - 1, b);
        assert(g.layers[a].dom().subset_of(g.layers[a - 1].dom()));
    }
}

/// Admitting `x` into a full or non-full descending beam of width `ef`:
/// `x` is kept, each old entry is kept or rates no higher than the new last
/// entry of a full beam, whose last key does not drop.
proof fn lemma_admit_views(before: Seq<Ranked>, x: Ranked, ef: int, fin: Seq<Ranked>)
    requires
        sorted_desc(before),
        1 <= ef,
        before.len() <= ef,
        before.len() < ef || x.0 > before[before.len() - 1].0,
        fin == (if before.len() + 1 > ef { insert_desc(before, x).take(ef) } else { insert_desc(before, x) }),
    ensures
        exists|i: int| 0 <= i < fin.len() && fin[i] == x,
        forall|j: int|
            0 <= j < before.len() ==> (exists|i: int| 0 <= i < fin.len() && fin[i] == #[trigger] before[j]) || (fin.len()
                == ef && before[j].0 <= fin[fin.len() - 1].0),
        before.len() >= ef ==> fin.len() == ef && fin[fin.len() - 1].0 >= before[before.len() - 1].0,
        forall|i: int| 0 <= i < fin.len() ==> #[trigger] fin[i] == x || exists|j: int| 0 <= j < before.len() && before[j] == fin[i],
{
    lemma_insert_desc_sorted(before, x);
    crate::ranking::lemma_first_below_bounds(before, x.0);
    let p = crate::ranking::first_below(before, x.0);
    let mid = insert_desc(before, x);
    if before.len() >= ef {
        assert(p <= before.len() - 1) by {
            if p > before.len() - 1 {
                assert(before[before.len() - 1].0 >= x.0);
            }
        }
        assert(fin.len() == ef);
        assert(fin[p] == mid[p]);
        assert(fin[fin.len() - 1] == mid[ef - 1]);
        assert(mid[ef] == before[ef - 1]);
        assert(mid[ef - 1].0 >= mid[ef].0);
    } else {
        assert(fin == mid);
    }
    assert(fin[p] == x);
    assert forall|j: int|
        0 <= j < before.len() implies (exists|i: int| 0 <= i < fin.len() && fin[i] == #[trigger] before[j]) || (fin.len()
            == ef && before[j].0 <= fin[fin.len() - 1].0) by {
        let i = if j < p { j } else { j + 1 };
        assert(mid[i] == before[j]);
        if i < fin.len() {
            assert(fin[i] == mid[i]);
        } else {
            assert(i == ef);
            assert(mid[ef - 1].0 >= mid[ef].0);
            assert(fin[fin.len() - 1] == mid[ef - 1]);
        }
    }
    assert forall|i: int| 0 <= i < fin.len() implies #[trigger] fin[i] == x || exists|j: int| 0 <= j < before.len() && before[j] == fin[i] by {
        assert(fin[i] == mid[i]);
        if i != p {
            let j = if i < p { i } else { i - 1 };
            assert(mid[i] == before[j]);
        }
    }
}

/// `lemma_admit_views`, read on the beams themselves, together with where
/// each entry of the new beam comes from.
proof fn lemma_admit_results(r0: Seq<(u32, String)>, r1: Seq<(u32, String)>, s: u32, nid: Seq<char>, ef: int)
    requires
        ef >= 1,
        sorted_desc(views_of(r0)),
        r0.len() <= ef,
        r0.len() < ef || s > r0[r0.len() - 1].0,
        views_of(r1) == (if r0.len() + 1 > ef {
            insert_desc(views_of(r0), (s, nid)).take(ef)
        } else {
            insert_desc(views_of(r0), (s, nid))
        }),
    ensures
        exists|i: int| 0 <= i < r1.len() && r1[i].0 == s && r1[i].1@ == nid,
        forall|j: int|
            0 <= j < r0.len() ==> (exists|i: int| 0 <= i < r1.len() && r1[i].0 == (#[trigger] r0[j]).0 && r1[i].1@ == r0[j].1@)
                || (r1.len() == ef && r0[j].0 <= r1[r1.len() - 1].0),
        r0.len() >= ef ==> r1.len() == ef && r1[r1.len() - 1].0 >= r0[r0.len() - 1].0,
        forall|i: int|
            0 <= i < r1.len() ==> ((#[trigger] r1[i]).0 == s && r1[i].1@ == nid) || exists|j: int|
                0 <= j < r0.len() && r0[j].0 == r1[i].0 && r0[j].1@ == r1[i].1@,
{
    let before = views_of(r0);
    let fin = views_of(r1);
    let x: Ranked = (s, nid);
    lemma_admit_views(before, x, ef, fin);
    let i0 = choose|i: int| 0 <= i < fin.len() && fin[i] == x;
    assert(fin[i0] == (r1[i0].0, r1[i0].1@));
    assert forall|j: int|
        0 <= j < r0.len() implies (exists|i: int| 0 <= i < r1.len() && r1[i].0 == (#[trigger] r0[j]).0 && r1[i].1@ == r0[j].1@)
            || (r1.len() == ef && r0[j].0 <= r1[r1.len() - 1].0) by {
        assert(before[j] == (r0[j].0, r0[j].1@));
        if exists|i: int| 0 <= i < fin.len() && fin[i] == before[j] {
            let i = choose|i: int| 0 <= i < fin.len() && fin[i] == before[j];
            assert(fin[i] == (r1[i].0, r1[i].1@));
        } else {
            assert(fin[fin.len() - 1] == (r1[r1.len() - 1].0, r1[r1.len() - 1].1@));
        }
    }
    if r0.len() >= ef {
        assert(fin[fin.len() - 1] == (r1[r1.len() - 1].0, r1[r1.len() - 1].1@));
        assert(before[before.len() - 1] == (r0[r0.len() - 1].0, r0[r0.len() - 1].1@));
    }
    assert forall|i: int|
        0 <= i < r1.len() implies ((#[trigger] r1[i]).0 == s && r1[i].1@ == nid) || exists|j: int|
            0 <= j < r0.len() && r0[j].0 == r1[i].0 && r0[j].1@ == r1[i].1@ by {
        assert(fin[i] == (r1[i].0, r1[i].1@));
        if fin[i] != x {
            let j = choose|j: int| 0 <= j < before.len() && before[j] == fin[i];
            assert(before[j] == (r0[j].0, r0[j].1@));
        }
    }
}

/// How linking the fresh node `node` turned layer `before` into `after`:
/// a beam search of width `ef` from `start`, a node of the layer, ended
/// with `beam`, the top of what it saw when `score` is deterministic and
/// `ef >= 1`; the node's neighbours are those `selected` from the beam's
/// ids, at most `cap`; each of them gains the node, its list pruned to
/// `cap` by the ranks `rank` gives when it outgrows it.
pub open spec fn linked_from<F: Fn(&str) -> Option<u32>, G: Fn(&str, &str) -> u32>(
    score: F,
    rank: G,
    before: LayerModel,
    cap: nat,
    node: Seq<char>,
    ef: int,
    start: Seq<char>,
    beam: Seq<(u32, String)>,
    after: LayerModel,
) -> bool {
    &&& before.dom().contains(start)
    &&& beam_ok(score, before, start, views_of(beam))
    &&& (deterministic(score) && ef >= 1 ==> exists|seen: Set<Seq<char>>| beam_top(score, before, start, seen, beam, ef))
    &&& exists|keys: Seq<Seq<u32>>|
        #[trigger] link_keys(rank, before, node, selected(ids_of_ranked(views_of(beam)), node, before.dom(), cap), keys, cap)
            && after == connected_layer(before, node, selected(ids_of_ranked(views_of(beam)), node, before.dom(), cap), keys, cap)
}

/// Where the next layer's search starts after one from `start` ended with
/// `beam`: at the beam's best node, or at `start` again when it is empty.
pub open spec fn next_start(beam: Seq<(u32, String)>, start: Seq<char>) -> Seq<char> {
    if beam.len() > 0 {
        beam[0].1@
    } else {
        start
    }
}

/// The linking of `node` into layers `top` down to 0 of `g` (the graph the
/// node was added to), giving the layers `after`: layer `j` linked from
/// `starts[j]` with the beam `beams[j]`, each layer below `top` searched
/// from where the one above left off.
pub open spec fn linked_chain<F: Fn(&str) -> Option<u32>, G: Fn(&str, &str) -> u32>(
    score: F,
    rank: G,
    g: GraphModel,
    node: Seq<char>,
    top: int,
    starts: Seq<Seq<char>>,
    beams: Seq<Seq<(u32, String)>>,
    after: Seq<LayerModel>,
) -> bool {
    &&& starts.len() == top + 1
    &&& beams.len() == top + 1
    &&& forall|j: int|
        0 <= j <= top ==> linked_from(score, rank, g.layers[j], g.cap(j), node, g.ef_construction as int, starts[j], beams[j], #[trigger] after[j])
    &&& forall|j: int| 0 <= j < top ==> #[trigger] starts[j] == next_start(beams[j + 1], starts[j + 1])
}

/// Where the linking of a node added at `level` to the layers `layers`
/// starts, the graph's entry point having been `entry` at `entry_level`:
/// at the entry point when the node reaches the entry level, and otherwise
/// where the greedy descent through the layers above `level` ends, a node
/// of layer `level + 1` that, when `score` rates every node of `nodes`, no
/// neighbour there outscores.
pub open spec fn link_start<F: Fn(&str) -> Option<u32>>(
    score: F,
    layers: Seq<LayerModel>,
    entry: Seq<char>,
    entry_level: int,
    level: int,
    nodes: Set<Seq<char>>,
    start: Seq<char>,
) -> bool {
    if level >= entry_level {
        start == entry
    } else {
        &&& layers[level + 1].dom().contains(start)
        &&& deterministic(score) && rates_all(score, nodes) ==> local_best(score, layers[level + 1], start)
    }
}

/// A search whose entry `score` cannot rate sees only the entry, and its
/// empty beam tops that.
proof fn lemma_unrated_entry_top<F: Fn(&str) -> Option<u32>>(
    score: F,
    layer: LayerModel,
    t: &str,
    beam: Seq<(u32, String)>,
    ef: int,
)
    requires
        deterministic(score),
        score.ensures((t,), None),
        beam.len() == 0,
    ensures
        beam_top(score, layer, t@, set![t@], beam, ef),
{
    lemma_reached_single(layer, t@);
    assert forall|x: Seq<char>, k: u32| set![t@].contains(x) && #[trigger] scored(score, x, k) implies false by {
        lemma_det_scored(score, t, None);
    }
}

/// The highest layer a node added at `level` is linked in, the entry level
/// being `entry_level`.
pub open spec fn link_top(level: int, entry_level: int) -> int {
    if level < entry_level {
        level
    } else {
        entry_level
    }
}

/// `linked_chain` reads only the layers, the capacities and the beam width.
proof fn lemma_chain_same_shape<F: Fn(&str) -> Option<u32>, G: Fn(&str, &str) -> u32>(
    score: F,
    rank: G,
    g1: GraphModel,
    g2: GraphModel,
    node: Seq<char>,
    top: int,
    starts: Seq<Seq<char>>,
    beams: Seq<Seq<(u32, String)>>,
    after: Seq<LayerModel>,
)
    requires
        linked_chain(score, rank, g1, node, top, starts, beams, after),
        g1.layers == g2.layers,
        g1.m == g2.m,
        g1.m_max_0 == g2.m_max_0,
        g1.ef_construction == g2.ef_construction,
    ensures
        linked_chain(score, rank, g2, node, top, starts, beams, after),
{
    assert forall|j: int| 0 <= j <= top implies linked_from(
        score,
        rank,
        g2.layers[j],
        g2.cap(j),
        node,
        g2.ef_construction as int,
        starts[j],
        beams[j],
        #[trigger] after[j],
    ) by {
        assert(g1.cap(j) == g2.cap(j));
    }
}

/// How inserting `id` at `level` into the graph `g` linked it, giving `h`:
/// `h` has the layers of `added_layers`; with no entry point nothing is
/// linked; otherwise the layers above `min(level, entry level)` are as
/// added, the layers from there down to 0 are linked as `linked_chain`
/// describes from the start that `link_start` fixes, and when `score`
/// rates every node and the beam is at least one wide, the node's list is
/// non-empty in each of those layers that has room for a neighbour.
pub open spec fn links_new_node<F: Fn(&str) -> Option<u32>, G: Fn(&str, &str) -> u32>(
    score: F,
    rank: G,
    g: GraphModel,
    id: Seq<char>,
    level: int,
    h: GraphModel,
) -> bool {
    let ga = GraphModel { layers: added_layers(g.layers, id, level), ..g };
    let top = link_top(level, g.entry_level as int);
    &&& h.layers.len() == ga.layers.len()
    &&& g.entry is None ==> h.layers == ga.layers
    &&& g.entry matches Some(e) ==> {
        &&& forall|j: int| top < j < ga.layers.len() ==> #[trigger] h.layers[j] == ga.layers[j]
        &&& exists|starts: Seq<Seq<char>>, beams: Seq<Seq<(u32, String)>>|
            #[trigger] linked_chain(score, rank, ga, id, top, starts, beams, h.layers)
                && link_start(score, ga.layers, e, g.entry_level as int, level, h.nodes(), starts[top])
        &&& g.ef_construction >= 1 && rates_all(score, h.nodes()) ==> forall|j: int|
            0 <= j <= top && g.cap(j) >= 1 ==> (#[trigger] h.layers[j])[id].len() >= 1
    }
}

/// The width of a query's base-layer beam: `max(ef_search, top_k)`.
pub open spec fn query_width(ef_search: int, top_k: int) -> int {
    if ef_search < top_k {
        top_k
    } else {
        ef_search
    }
}

/// Where a query's base-layer search may start in `g`: at the entry point
/// when it sits in the base layer alone, and otherwise at a node of layer 1
/// that, when `score` rates every node, no neighbour there outscores.
pub open spec fn descended<F: Fn(&str) -> Option<u32>>(score: F, g: GraphModel, start: Seq<char>) -> bool {
    &&& g.entry_level == 0 ==> g.entry == Some(start)
    &&& g.entry_level >= 1 ==> g.layers[1].dom().contains(start)
    &&& g.entry_level >= 1 && deterministic(score) && rates_all(score, g.nodes()) ==> local_best(score, g.layers[1], start)
}

/// `rank` gave the key `k` to the pair of ids `(a, b)`.
pub open spec fn ranked<G: Fn(&str, &str) -> u32>(rank: G, a: Seq<char>, b: Seq<char>, k: u32) -> bool {
    exists|s: &str, t: &str| s@ == a && t@ == b && #[trigger] rank.ensures((s, t), k)
}

/// The keys by which linking `node` to `nbrs` in `layer` prunes: for each
/// neighbour whose list, with the node added, outgrows `cap`, one key per
/// entry of that grown list, the rank `rank` gives the entry as seen from
/// the neighbour.
pub open spec fn link_keys<G: Fn(&str, &str) -> u32>(
    rank: G,
    layer: LayerModel,
    node: Seq<char>,
    nbrs: Seq<Seq<char>>,
    keys: Seq<Seq<u32>>,
    cap: nat,
) -> bool {
    &&& keys.len() == nbrs.len()
    &&& forall|i: int|
        0 <= i < nbrs.len() && grown(layer[nbrs[i]], node).len() > cap ==> {
            &&& (#[trigger] keys[i]).len() == grown(layer[nbrs[i]], node).len()
            &&& forall|t: int| 0 <= t < keys[i].len() ==> #[trigger] ranked(rank, nbrs[i], grown(layer[nbrs[i]], node)[t], keys[i][t])
        }
}

/// `beam` is the top of what a search of `layer` from `entry` has seen
/// (nodes reached from the entry along links): the entry, the beam and every neighbour of a member of the beam were
/// seen, and a seen node outside the beam rates no higher than the beam's
/// last member, the beam then holding `ef` entries.
pub open spec fn beam_top<F: Fn(&str) -> Option<u32>>(
    score: F,
    layer: LayerModel,
    entry: Seq<char>,
    seen: Set<Seq<char>>,
    beam: Seq<(u32, String)>,
    ef: int,
) -> bool {
    &&& seen.contains(entry)
    &&& reached(layer, entry, seen)
    &&& forall|i: int| 0 <= i < beam.len() ==> seen.contains((#[trigger] beam[i]).1@)
    &&& forall|i: int, n: Seq<char>|
        0 <= i < beam.len() && layer.dom().contains(beam[i].1@) && #[trigger] layer[beam[i].1@].contains(n) ==> seen.contains(n)
    &&& forall|x: Seq<char>, k: u32|
        seen.contains(x) && #[trigger] scored(score, x, k) && !holds_id(beam, x) ==> beam.len() == ef && k <= beam[beam.len()
            - 1].0
}

/// Top-of-beam bookkeeping: each member of the beam in the layer, other
/// than `from` (being expanded), is still a candidate or has had all its
/// neighbours seen; a seen node outside the beam rates no higher than the
/// full beam's last member.
#[verifier::opaque]
spec fn topk_ok<F: Fn(&str) -> Option<u32>>(
    score: F,
    layer: LayerModel,
    seen: Set<Seq<char>>,
    cands: Seq<(u32, String)>,
    beam: Seq<(u32, String)>,
    ef: int,
    from: Option<Seq<char>>,
) -> bool {
    &&& forall|i: int|
        0 <= i < beam.len() && layer.dom().contains((#[trigger] beam[i]).1@) && from != Some(beam[i].1@) ==> pending(
            cands,
            beam[i].0,
            beam[i].1@,
        ) || (forall|n: Seq<char>| #[trigger] layer[beam[i].1@].contains(n) ==> seen.contains(n))
    &&& forall|x: Seq<char>, k: u32|
        seen.contains(x) && #[trigger] scored(score, x, k) && !holds_id(beam, x) ==> beam.len() == ef && k <= beam[beam.len()
            - 1].0
}

proof fn lemma_topk_init<F: Fn(&str) -> Option<u32>>(
    score: F,
    layer: LayerModel,
    seen: Set<Seq<char>>,
    cands: Seq<(u32, String)>,
    beam: Seq<(u32, String)>,
    ef: int,
)
    requires
        beam.len() == 1,
        seen == set![beam[0].1@],
        pending(cands, beam[0].0, beam[0].1@),
    ensures
        topk_ok(score, layer, seen, cands, beam, ef, None),
{
    reveal(topk_ok);
    assert forall|x: Seq<char>, k: u32| seen.contains(x) && #[trigger] scored(score, x, k) implies holds_id(beam, x) by {
        assert(beam[0].1@ == x);
    }
}

proof fn lemma_topk_skip<F: Fn(&str) -> Option<u32>>(
    score: F,
    layer: LayerModel,
    seen: Set<Seq<char>>,
    nid: Seq<char>,
    cands: Seq<(u32, String)>,
    beam: Seq<(u32, String)>,
    ef: int,
    from: Option<Seq<char>>,
)
    requires
        topk_ok(score, layer, seen, cands, beam, ef, from),
        forall|k: u32| #[trigger] scored(score, nid, k) ==> beam.len() == ef && k <= beam[beam.len() - 1].0,
    ensures
        topk_ok(score, layer, seen.insert(nid), cands, beam, ef, from),
{
    reveal(topk_ok);
}

proof fn lemma_topk_admit<F: Fn(&str) -> Option<u32>>(
    score: F,
    layer: LayerModel,
    seen: Set<Seq<char>>,
    nid: Seq<char>,
    s: u32,
    c0: Seq<(u32, String)>,
    b0: Seq<(u32, String)>,
    c1: Seq<(u32, String)>,
    b1: Seq<(u32, String)>,
    ef: int,
    from: Option<Seq<char>>,
)
    requires
        topk_ok(score, layer, seen, c0, b0, ef, from),
        deterministic(score),
        ef >= 1,
        forall|k: u32| #[trigger] scored(score, nid, k) ==> k == s,
        forall|j: int| 0 <= j < b0.len() ==> scored(score, (#[trigger] b0[j]).1@, b0[j].0),
        sorted_desc(views_of(b0)),
        b0.len() <= ef,
        b0.len() < ef || s > b0[b0.len() - 1].0,
        views_of(b1) == (if b0.len() + 1 > ef {
            insert_desc(views_of(b0), (s, nid)).take(ef)
        } else {
            insert_desc(views_of(b0), (s, nid))
        }),
        c1.len() == c0.len() + 1,
        forall|i: int| 0 <= i < c0.len() ==> c1[i] == c0[i],
        c1[c0.len() as int].0 == s,
        c1[c0.len() as int].1@ == nid,
    ensures
        topk_ok(score, layer, seen.insert(nid), c1, b1, ef, from),
{
    reveal(topk_ok);
    lemma_admit_results(b0, b1, s, nid, ef);
    let seen1 = seen.insert(nid);
    assert forall|i: int|
        0 <= i < b1.len() && layer.dom().contains((#[trigger] b1[i]).1@) && from != Some(b1[i].1@) implies pending(
            c1,
            b1[i].0,
            b1[i].1@,
        ) || (forall|n: Seq<char>| #[trigger] layer[b1[i].1@].contains(n) ==> seen1.contains(n)) by {
        if b1[i].0 == s && b1[i].1@ == nid {
            assert(c1[c0.len() as int].0 == b1[i].0);
        } else {
            let j = choose|j: int| 0 <= j < b0.len() && b0[j].0 == b1[i].0 && b0[j].1@ == b1[i].1@;
            assert(b0[j] == b0[j]);
            if pending(c0, b0[j].0, b0[j].1@) {
                let q = choose|q: int| 0 <= q < c0.len() && c0[q].0 == b0[j].0 && c0[q].1@ == b0[j].1@;
                assert(c1[q] == c0[q]);
            }
        }
    }
    assert forall|x: Seq<char>, k: u32|
        seen1.contains(x) && #[trigger] scored(score, x, k) && !holds_id(b1, x) implies b1.len() == ef && k <= b1[b1.len()
            - 1].0 by {
        let i0 = choose|i: int| 0 <= i < b1.len() && b1[i].0 == s && b1[i].1@ == nid;
        if x == nid {
            assert(b1[i0].1@ == x);
        } else if holds_id(b0, x) {
            let j = choose|j: int| 0 <= j < b0.len() && b0[j].1@ == x;
            assert(scored(score, b0[j].1@, b0[j].0));
            lemma_scored_unique(score, x, k, b0[j].0);
            if exists|i: int| 0 <= i < b1.len() && b1[i].0 == b0[j].0 && b1[i].1@ == b0[j].1@ {
                let i = choose|i: int| 0 <= i < b1.len() && b1[i].0 == b0[j].0 && b1[i].1@ == b0[j].1@;
                assert(b1[i].1@ == x);
            }
        } else {
            assert(b0.len() == ef && k <= b0[b0.len() - 1].0);
        }
    }
}

proof fn lemma_topk_pop<F: Fn(&str) -> Option<u32>>(
    score: F,
    layer: LayerModel,
    seen: Set<Seq<char>>,
    c0: Seq<(u32, String)>,
    p: int,
    beam: Seq<(u32, String)>,
    ef: int,
)
    requires
        topk_ok(score, layer, seen, c0, beam, ef, None),
        0 <= p < c0.len(),
        forall|j: int| 0 <= j < c0.len() ==> c0[j].0 <= c0[p].0,
        beam.len() > 0,
        forall|i: int| 0 <= i < beam.len() ==> (#[trigger] beam[i]).0 >= beam[beam.len() - 1].0,
    ensures
        topk_ok(score, layer, seen, c0.remove(p), beam, ef, Some(c0[p].1@)),
        c0[p].0 < beam[beam.len() - 1].0 ==> topk_ok(score, layer, seen, c0.remove(p), beam, ef, None) && forall|i: int|
            0 <= i < beam.len() ==> !pending(c0.remove(p), (#[trigger] beam[i]).0, beam[i].1@),
        !layer.dom().contains(c0[p].1@) ==> topk_ok(score, layer, seen, c0.remove(p), beam, ef, None),
{
    reveal(topk_ok);
    let c1 = c0.remove(p);
    assert forall|i: int, k: u32, x: Seq<char>| 0 <= i < c0.len() && i != p && c0[i].0 == k && c0[i].1@ == x implies pending(
        c1,
        k,
        x,
    ) by {
        let j = if i < p { i } else { i - 1 };
        assert(c1[j] == c0[i]);
    }
    if c0[p].0 < beam[beam.len() - 1].0 {
        assert forall|i: int| 0 <= i < beam.len() implies !pending(c1, (#[trigger] beam[i]).0, beam[i].1@) by {
            if pending(c1, beam[i].0, beam[i].1@) {
                let j = choose|j: int| 0 <= j < c1.len() && c1[j].0 == beam[i].0 && c1[j].1@ == beam[i].1@;
                if j < p {
                    assert(c1[j] == c0[j]);
                } else {
                    assert(c1[j] == c0[j + 1]);
                }
            }
        }
        assert forall|i: int|
            0 <= i < beam.len() && layer.dom().contains((#[trigger] beam[i]).1@) implies (forall|n: Seq<char>|
                #[trigger] layer[beam[i].1@].contains(n) ==> seen.contains(n)) by {
            if pending(c0, beam[i].0, beam[i].1@) {
                let j = choose|j: int| 0 <= j < c0.len() && c0[j].0 == beam[i].0 && c0[j].1@ == beam[i].1@;
                if j != p {
                    assert(pending(c1, beam[i].0, beam[i].1@));
                }
            }
        }
    }
}

proof fn lemma_topk_done<F: Fn(&str) -> Option<u32>>(
    score: F,
    layer: LayerModel,
    seen: Set<Seq<char>>,
    cands: Seq<(u32, String)>,
    beam: Seq<(u32, String)>,
    ef: int,
    from: Seq<char>,
)
    requires
        topk_ok(score, layer, seen, cands, beam, ef, Some(from)),
        forall|n: Seq<char>| #[trigger] layer[from].contains(n) ==> seen.contains(n),
    ensures
        topk_ok(score, layer, seen, cands, beam, ef, None),
{
    reveal(topk_ok);
}

proof fn lemma_topk_final<F: Fn(&str) -> Option<u32>>(
    score: F,
    layer: LayerModel,
    entry: Seq<char>,
    seen: Set<Seq<char>>,
    cands: Seq<(u32, String)>,
    beam: Seq<(u32, String)>,
    ef: int,
)
    requires
        topk_ok(score, layer, seen, cands, beam, ef, None),
        forall|i: int| 0 <= i < beam.len() ==> !pending(cands, (#[trigger] beam[i]).0, beam[i].1@),
        seen.contains(entry),
        reached(layer, entry, seen),
        forall|i: int| 0 <= i < beam.len() ==> seen.contains((#[trigger] beam[i]).1@),
    ensures
        beam_top(score, layer, entry, seen, beam, ef),
{
    reveal(topk_ok);
    assert forall|i: int, n: Seq<char>|
        0 <= i < beam.len() && layer.dom().contains(beam[i].1@) && #[trigger] layer[beam[i].1@].contains(n) implies seen.contains(
            n,
        ) by {
        assert(!pending(cands, beam[i].0, beam[i].1@));
    }
}

/// A query's hits lose nothing by cutting a wider beam: the `top_k` head of
/// a top-of-beam of width `ef >= top_k` is the top of the same search at
/// width `top_k`, so every node the wider search saw and left out scores no
/// higher than the last hit, and fewer than `top_k` hits means nothing
/// rated was left out.
pub proof fn lemma_top_of_head<F: Fn(&str) -> Option<u32>>(
    score: F,
    layer: LayerModel,
    start: Seq<char>,
    seen: Set<Seq<char>>,
    h0: Seq<(u32, String)>,
    hits: Seq<(u32, String)>,
    ef: int,
    top_k: int,
)
    requires
        beam_top(score, layer, start, seen, h0, ef),
        deterministic(score),
        sorted_desc(views_of(h0)),
        forall|j: int| 0 <= j < h0.len() ==> scored(score, (#[trigger] h0[j]).1@, h0[j].0),
        1 <= top_k <= ef,
        hits.len() == if top_k < h0.len() { top_k } else { h0.len() as int },
        forall|i: int| 0 <= i < hits.len() ==> #[trigger] hits[i] == h0[i],
    ensures
        beam_top(score, layer, start, seen, hits, top_k),
{
    let vh = views_of(h0);
    assert forall|x: Seq<char>, k: u32|
        seen.contains(x) && #[trigger] scored(score, x, k) && !holds_id(hits, x) implies hits.len() == top_k && k <= hits[hits.len()
            - 1].0 by {
        if holds_id(h0, x) {
            let j = choose|j: int| 0 <= j < h0.len() && h0[j].1@ == x;
            if j < hits.len() {
                assert(hits[j] == h0[j]);
            }
            assert(scored(score, h0[j].1@, h0[j].0));
            lemma_scored_unique(score, x, k, h0[j].0);
            assert(vh[top_k - 1].0 >= vh[j].0);
            assert(hits[top_k - 1] == h0[top_k - 1]);
        } else {
            assert(h0.len() == ef);
            assert(vh[top_k - 1].0 >= vh[h0.len() - 1].0);
            assert(hits[top_k - 1] == h0[top_k - 1]);
        }
    }
    assert forall|i: int, n: Seq<char>|
        0 <= i < hits.len() && layer.dom().contains(hits[i].1@) && #[trigger] layer[hits[i].1@].contains(n) implies seen.contains(n) by {
        assert(hits[i] == h0[i]);
    }
    assert forall|i: int| 0 <= i < hits.len() implies seen.contains((#[trigger] hits[i]).1@) by {
        assert(hits[i] == h0[i]);
    }
}

/// Each node of `order` after the first is listed as a neighbour, in
/// `layer`, by a node before it.
pub open spec fn reach_order(layer: LayerModel, order: Seq<Seq<char>>) -> bool {
    forall|i: int| 0 < i < order.len() ==> #[trigger] linked_before(layer, order, i)
}

/// Some node before position `i` of `order` lists `order[i]` in `layer`.
pub open spec fn linked_before(layer: LayerModel, order: Seq<Seq<char>>, i: int) -> bool {
    exists|j: int| 0 <= j < i && layer.dom().contains(order[j]) && #[trigger] layer[order[j]].contains(order[i])
}

/// A single node is reached from itself.
proof fn lemma_reached_single(layer: LayerModel, x: Seq<char>)
    ensures
        reached(layer, x, set![x]),
{
    let o = seq![x];
    assert(o.to_set() =~= set![x]) by {
        assert(o[0] == x);
    }
    assert(reach_order(layer, o));
}

/// Every node of `seen` is reached from `entry` along the links of `layer`.
pub open spec fn reached(layer: LayerModel, entry: Seq<char>, seen: Set<Seq<char>>) -> bool {
    exists|order: Seq<Seq<char>>| order.len() >= 1 && order[0] == entry && reach_order(layer, order) && seen == order.to_set()
}

/// Reachability bookkeeping of a beam search: `order` lists the seen nodes
/// in the order they were seen, and every candidate has been seen.
#[verifier::opaque]
spec fn reach_ok(layer: LayerModel, entry: Seq<char>, seen: Set<Seq<char>>, order: Seq<Seq<char>>, cands: Seq<(u32, String)>) -> bool {
    &&& order.len() >= 1
    &&& order[0] == entry
    &&& reach_order(layer, order)
    &&& seen == order.to_set()
    &&& forall|i: int| 0 <= i < cands.len() ==> seen.contains((#[trigger] cands[i]).1@)
}

proof fn lemma_reach_init(layer: LayerModel, entry: Seq<char>, seen: Set<Seq<char>>, cands: Seq<(u32, String)>)
    requires
        seen == set![entry],
        forall|i: int| 0 <= i < cands.len() ==> (#[trigger] cands[i]).1@ == entry,
    ensures
        reach_ok(layer, entry, seen, seq![entry], cands),
{
    reveal(reach_ok);
    assert(seq![entry].to_set() =~= set![entry]) by {
        assert(seq![entry][0] == entry);
    }
}

proof fn lemma_reach_visit(
    layer: LayerModel,
    entry: Seq<char>,
    seen: Set<Seq<char>>,
    order: Seq<Seq<char>>,
    cands: Seq<(u32, String)>,
    from: Seq<char>,
    nid: Seq<char>,
)
    requires
        reach_ok(layer, entry, seen, order, cands),
        seen.contains(from),
        layer.dom().contains(from),
        layer[from].contains(nid),
    ensures
        reach_ok(layer, entry, seen.insert(nid), order.push(nid), cands),
{
    reveal(reach_ok);
    let o2 = order.push(nid);
    assert(order.contains(from));
    let jf = choose|j: int| 0 <= j < order.len() && order[j] == from;
    assert forall|i: int| 0 < i < o2.len() implies #[trigger] linked_before(layer, o2, i) by {
        if i < order.len() {
            assert(o2[i] == order[i]);
            assert(linked_before(layer, order, i));
            let j = choose|j: int| 0 <= j < i && layer.dom().contains(order[j]) && #[trigger] layer[order[j]].contains(order[i]);
            assert(o2[j] == order[j]);
            assert(0 <= j < i && layer.dom().contains(o2[j]) && layer[o2[j]].contains(o2[i]));
        } else {
            assert(o2[jf] == from);
            assert(o2[i] == nid);
            assert(0 <= jf < i && layer.dom().contains(o2[jf]) && layer[o2[jf]].contains(o2[i]));
        }
    }
    assert(o2[0] == entry);
    assert(o2.to_set() =~= seen.insert(nid)) by {
        assert forall|x: Seq<char>| o2.to_set().contains(x) <==> seen.insert(nid).contains(x) by {
            if o2.contains(x) {
                let i = choose|i: int| 0 <= i < o2.len() && o2[i] == x;
                if i < order.len() {
                    assert(order[i] == x);
                }
            }
            if order.contains(x) {
                let i = choose|i: int| 0 <= i < order.len() && order[i] == x;
                assert(o2[i] == x);
            }
            if x == nid {
                assert(o2[order.len() as int] == x);
            }
        }
    }
    assert(reach_order(layer, o2));
    assert(o2.len() >= 1);
    assert forall|i: int| 0 <= i < cands.len() implies seen.insert(nid).contains((#[trigger] cands[i]).1@) by {}
}

proof fn lemma_reach_push(
    layer: LayerModel,
    entry: Seq<char>,
    seen: Set<Seq<char>>,
    order: Seq<Seq<char>>,
    c0: Seq<(u32, String)>,
    c1: Seq<(u32, String)>,
)
    requires
        reach_ok(layer, entry, seen, order, c0),
        c1.len() == c0.len() + 1,
        forall|i: int| 0 <= i < c0.len() ==> c1[i] == c0[i],
        seen.contains(c1[c0.len() as int].1@),
    ensures
        reach_ok(layer, entry, seen, order, c1),
{
    reveal(reach_ok);
    assert forall|i: int| 0 <= i < c1.len() implies seen.contains((#[trigger] c1[i]).1@) by {
        if i < c0.len() {
            assert(c1[i] == c0[i]);
        }
    }
}

proof fn lemma_reach_pop(
    layer: LayerModel,
    entry: Seq<char>,
    seen: Set<Seq<char>>,
    order: Seq<Seq<char>>,
    c0: Seq<(u32, String)>,
    p: int,
)
    requires
        reach_ok(layer, entry, seen, order, c0),
        0 <= p < c0.len(),
    ensures
        reach_ok(layer, entry, seen, order, c0.remove(p)),
        seen.contains(c0[p].1@),
{
    reveal(reach_ok);
    let c1 = c0.remove(p);
    assert forall|i: int| 0 <= i < c1.len() implies seen.contains((#[trigger] c1[i]).1@) by {
        if i < p {
            assert(c1[i] == c0[i]);
        } else {
            assert(c1[i] == c0[i + 1]);
        }
    }
}

proof fn lemma_reach_final(
    layer: LayerModel,
    entry: Seq<char>,
    seen: Set<Seq<char>>,
    order: Seq<Seq<char>>,
    cands: Seq<(u32, String)>,
)
    requires
        reach_ok(layer, entry, seen, order, cands),
    ensures
        reached(layer, entry, seen),
{
    reveal(reach_ok);
}

/// A duplicate-free beam whose ids lie in a finite set is no longer than it.
proof fn lemma_beam_within(r: Seq<(u32, String)>, s: Set<Seq<char>>)
    requires
        ids_of_ranked(views_of(r)).no_duplicates(),
        forall|i: int| 0 <= i < r.len() ==> s.contains((#[trigger] r[i]).1@),
        s.finite(),
    ensures
        r.len() <= s.len(),
{
    let ids = ids_of_ranked(views_of(r));
    ids.unique_seq_to_set();
    assert forall|x: Seq<char>| #[trigger] ids.to_set().contains(x) implies s.contains(x) by {
        let i = choose|i: int| 0 <= i < ids.len() && ids[i] == x;
        assert(ids[i] == r[i].1@);
    }
    vstd::set_lib::lemma_len_subset(ids.to_set(), s);
}

/// `score` gives some key to each id of `ids`.
pub open spec fn scores_all<F: Fn(&str) -> Option<u32>>(score: F, ids: Set<Seq<char>>) -> bool {
    forall|x: Seq<char>| #[trigger] ids.contains(x) ==> exists|k: u32| scored(score, x, k)
}

/// Each id that `layer` lists as a neighbour is a node of `layer`.
pub open spec fn lists_own_nodes(layer: LayerModel) -> bool {
    forall|a: Seq<char>, n: Seq<char>| layer.dom().contains(a) && #[trigger] layer[a].contains(n) ==> layer.dom().contains(n)
}

/// The first `i + 1` ids of a reach order from the entry are seen and held
/// by a beam that is not full.
proof fn lemma_order_held<F: Fn(&str) -> Option<u32>>(
    score: F,
    layer: LayerModel,
    entry: Seq<char>,
    seen: Set<Seq<char>>,
    beam: Seq<(u32, String)>,
    ef: int,
    order: Seq<Seq<char>>,
    i: int,
)
    requires
        beam_top(score, layer, entry, seen, beam, ef),
        beam.len() != ef,
        scores_all(score, layer.dom().insert(entry)),
        lists_own_nodes(layer),
        order.len() >= 1,
        order[0] == entry,
        reach_order(layer, order),
        0 <= i < order.len(),
    ensures
        seen.contains(order[i]),
        holds_id(beam, order[i]),
    decreases i,
{
    if i > 0 {
        assert(linked_before(layer, order, i));
        let j = choose|j: int| 0 <= j < i && layer.dom().contains(order[j]) && #[trigger] layer[order[j]].contains(order[i]);
        lemma_order_held(score, layer, entry, seen, beam, ef, order, j);
        let m = choose|m: int| 0 <= m < beam.len() && beam[m].1@ == order[j];
        assert(layer.dom().contains(beam[m].1@) && layer[beam[m].1@].contains(order[i]));
        assert(layer.dom().contains(order[i]));
    }
    assert(layer.dom().insert(entry).contains(order[i]));
    let k = choose|k: u32| scored(score, order[i], k);
    if !holds_id(beam, order[i]) {
        assert(seen.contains(order[i]) && scored(score, order[i], k));
    }
}

/// A beam search is exact once its beam has room for all it reaches: for
/// a beam that tops a search of `layer` from `entry`, when `score` rates
/// the entry and every node of the layer and the layer lists only its own
/// nodes, either the beam holds `ef` entries or it holds every node that
/// a chain of links leads to from the entry (`order` being such a chain).
pub proof fn lemma_beam_holds_reachable<F: Fn(&str) -> Option<u32>>(
    score: F,
    layer: LayerModel,
    entry: Seq<char>,
    seen: Set<Seq<char>>,
    beam: Seq<(u32, String)>,
    ef: int,
    order: Seq<Seq<char>>,
)
    requires
        beam_top(score, layer, entry, seen, beam, ef),
        scores_all(score, layer.dom().insert(entry)),
        lists_own_nodes(layer),
        order.len() >= 1,
        order[0] == entry,
        reach_order(layer, order),
    ensures
        beam.len() == ef || forall|i: int| 0 <= i < order.len() ==> holds_id(beam, #[trigger] order[i]),
{
    if beam.len() != ef {
        assert forall|i: int| 0 <= i < order.len() implies holds_id(beam, #[trigger] order[i]) by {
            lemma_order_held(score, layer, entry, seen, beam, ef, order, i);
        }
    }
}

/// Position of an entry with the largest key.
fn best_position(c: &Vec<(u32, String)>) -> (p: usize)
    requires
        c.len() > 0,
    ensures
        p < c.len(),
        forall|j: int| 0 <= j < c.len() ==> c@[j].0 <= c@[p as int].0,
{
    let mut p: usize = 0;
    let mut i: usize = 1;
    while i < c.len()
        invariant
            1 <= i <= c.len(),
            p < i,
            forall|j: int| 0 <= j < i ==> c@[j].0 <= c@[p as int].0,
        decreases c.len() - i,
    {
        if c[i].0 > c[p].0 {
            p = i;
        }
        i = i + 1;
    }
    p
}

/// Puts `(s, nid)` into the descending beam `results` after every entry
/// whose key is at least `s`, and cuts the beam back to `ef` entries.
fn admit_to_beam<F: Fn(&str) -> Option<u32>>(
    results: &mut Vec<(u32, String)>,
    s: u32,
    nid: &String,
    ef: usize,
    Ghost(score): Ghost<F>,
    Ghost(layer): Ghost<LayerModel>,
    Ghost(entry): Ghost<Seq<char>>,
    Ghost(entry_score): Ghost<u32>,
)
    requires
        beam_ok(score, layer, entry, views_of(old(results)@)),
        scored(score, nid@, s),
        nid@ == entry || layer.dom().contains(nid@),
        forall|i: int| 0 <= i < old(results)@.len() ==> (#[trigger] old(results)@[i]).1@ != nid@,
        old(results)@.len() <= if ef < 1 { 1 } else { ef },
        ef >= 1 ==> old(results)@.len() >= 1,
        old(results)@.len() > 0 ==> old(results)@[0].0 >= entry_score,
        ef >= 1 ==> old(results)@.len() < ef || s > old(results)@[old(results)@.len() - 1].0,
    ensures
        views_of(final(results)@) == (if old(results)@.len() + 1 > ef {
            insert_desc(views_of(old(results)@), (s, nid@)).take(ef as int)
        } else {
            insert_desc(views_of(old(results)@), (s, nid@))
        }),
        beam_ok(score, layer, entry, views_of(final(results)@)),
        forall|i: int| 0 <= i < final(results)@.len() ==> (#[trigger] final(results)@[i]).1@ == nid@
            || exists|j: int| 0 <= j < old(results)@.len() && old(results)@[j].1@ == final(results)@[i].1@,
        final(results)@.len() <= if ef < 1 { 1 } else { ef },
        ef >= 1 ==> final(results)@.len() >= 1,
        final(results)@.len() > 0 ==> final(results)@[0].0 >= entry_score,
        old(results)@.len() < ef ==> views_of(final(results)@) == insert_desc(views_of(old(results)@), (s, nid@)),
        final(results)@.len() > 0 ==> final(results)@[0].0 >= s,
        final(results)@.len() > 0 && old(results)@.len() > 0 ==> final(results)@[0].0 >= old(results)@[0].0,
        final(results)@.len() > 0 ==> (final(results)@[0].0 == s && final(results)@[0].1@ == nid@) || (old(results)@.len()
            > 0 && final(results)@[0].0 == old(results)@[0].0 && final(results)@[0].1@ == old(results)@[0].1@),
{
    let ghost before = views_of(results@);
    let ghost x: Ranked = (s, nid@);
    let p = find_slot(results, s);
    proof {
        lemma_insert_desc_sorted(before, x);
    }
    results.insert(p, (s, nid.clone()));
    let ghost mid = views_of(results@);
    proof {
        assert(mid =~= insert_desc(before, x));
        assert forall|i: int| 0 <= i < mid.len() implies (#[trigger] mid[i]).1 == entry || layer.dom().contains(mid[i].1) by {
            if i != p {
                let j = if i < p { i } else { i - 1 };
                assert(mid[i] == before[j]);
            }
        }
        assert forall|i: int| 0 <= i < mid.len() implies scored(score, (#[trigger] mid[i]).1, mid[i].0) by {
            if i != p {
                let j = if i < p { i } else { i - 1 };
                assert(mid[i] == before[j]);
            }
        }
        let ids = ids_of_ranked(mid);
        let bids = ids_of_ranked(before);
        assert forall|a: int, b: int| 0 <= a < ids.len() && 0 <= b < ids.len() && a != b implies ids[a] != ids[b] by {
            let ja = if a < p { a } else { a - 1 };
            let jb = if b < p { b } else { b - 1 };
            if a == p {
                assert(before[jb] == mid[b]);
                assert(old(results)@[jb].1@ == before[jb].1);
            } else if b == p {
                assert(before[ja] == mid[a]);
                assert(old(results)@[ja].1@ == before[ja].1);
            } else {
                assert(before[ja] == mid[a]);
                assert(before[jb] == mid[b]);
                assert(bids[ja] != bids[jb]);
            }
        }
        assert(ids.no_duplicates());
        assert forall|i: int| 0 <= i < results@.len() implies (#[trigger] results@[i]).1@ == nid@
            || exists|j: int| 0 <= j < old(results)@.len() && old(results)@[j].1@ == results@[i].1@ by {
            assert(results@[i].1@ == mid[i].1);
            if i != p {
                let j = if i < p { i } else { i - 1 };
                assert(mid[i] == before[j]);
                assert(old(results)@[j].1@ == before[j].1);
            }
        }
        if mid.len() > 0 {
            if p == 0 {
                if before.len() > 0 {
                    assert(mid[1] == before[0]);
                    assert(mid[0].0 >= mid[1].0);
                }
            } else {
                assert(mid[0] == before[0]);
                assert(mid[0].0 >= mid[p as int].0);
            }
        }
    }
    if results.len() > ef {
        results.truncate(ef);
        proof {
            let fin = views_of(results@);
            assert(fin =~= mid.take(ef as int));
            assert forall|i: int| 0 <= i < fin.len() implies #[trigger] fin[i] == mid[i] by {}
            let ids = ids_of_ranked(fin);
            let mids = ids_of_ranked(mid);
            assert forall|a: int, b: int| 0 <= a < ids.len() && 0 <= b < ids.len() && a != b implies ids[a] != ids[b] by {
                assert(ids[a] == mids[a] && ids[b] == mids[b]);
            }
            assert forall|i: int| 0 <= i < results@.len() implies (#[trigger] results@[i]).1@ == nid@
                || exists|j: int| 0 <= j < old(results)@.len() && old(results)@[j].1@ == results@[i].1@ by {
                assert(results@[i].1@ == fin[i].1);
                assert(fin[i] == mid[i]);
            }
        }
    }
    proof {
        let fin = views_of(results@);
        if before.len() + 1 > ef {
            assert(fin =~= mid.take(ef as int));
        } else {
            assert(fin =~= mid);
        }
        if results@.len() > 0 {
            assert(views_of(results@)[0] == mid[0]);
            assert(results@[0].0 == mid[0].0 && results@[0].1@ == mid[0].1);
            if before.len() > 0 {
                assert(before[0].0 == old(results)@[0].0 && before[0].1 == old(results)@[0].1@);
            }
        }
    }
}

/// Visits the unseen neighbours of an expanded node: each is marked seen,
/// and one that scores into the beam joins both the candidates and the beam.
/// While the beam is wider than the layer (`wide`), every seen node gets in.
#[verifier::rlimit(100)]
fn visit_neighbors<F: Fn(&str) -> Option<u32>>(
    score: &F,
    neighbors: &Vec<String>,
    ef: usize,
    lowest: u32,
    visited: &mut AHashSet<String>,
    candidates: &mut Vec<(u32, String)>,
    results: &mut Vec<(u32, String)>,
    Ghost(layer): Ghost<LayerModel>,
    Ghost(entry): Ghost<Seq<char>>,
    Ghost(entry_score): Ghost<u32>,
    Ghost(wide): Ghost<bool>,
    Ghost(skip): Ghost<Option<Seq<char>>>,
    Ghost(from): Ghost<Seq<char>>,
    Ghost(order): Ghost<Seq<Seq<char>>>,
) -> (out_order: Ghost<Seq<Seq<char>>>)
    requires
        reach_ok(layer, entry, id_set(*old(visited)), order, old(candidates)@),
        id_set(*old(visited)).contains(from),
        forall|s: &str| score.requires((s,)),
        forall|j: int| 0 <= j < neighbors@.len() ==> layer.dom().contains(#[trigger] neighbors@[j]@),
        layer.dom().finite(),
        forall|i: int| 0 <= i < old(candidates)@.len() ==> (#[trigger] old(candidates)@[i]).1@ == entry
            || layer.dom().contains(old(candidates)@[i].1@),
        beam_ok(*score, layer, entry, views_of(old(results)@)),
        forall|i: int| 0 <= i < old(results)@.len() ==> id_set(*old(visited)).contains((#[trigger] old(results)@[i]).1@),
        old(results)@.len() <= if ef < 1 { 1 } else { ef },
        ef >= 1 ==> old(results)@.len() >= 1,
        old(results)@.len() > 0 ==> old(results)@[0].0 >= entry_score,
        id_set(*old(visited)).subset_of(layer.dom().insert(entry)),
        wide ==> ef > layer.dom().len() + 1 && rates_all(*score, layer.dom().insert(entry)),
        wide ==> all_in_beam(id_set(*old(visited)), old(results)@),
        wide ==> settled_except(layer, id_set(*old(visited)), old(candidates)@, skip),
        layer.dom().contains(from),
        ids_of(neighbors@) == layer[from],
        linked_ok(layer, entry, old(candidates)@),
        linked_ok(layer, entry, old(results)@),
        deterministic(*score) && ef >= 1 ==> best_ok(*score, layer, id_set(*old(visited)), old(candidates)@, old(results)@, Some(from)),
        deterministic(*score) && ef >= 1 ==> topk_ok(
            *score,
            layer,
            id_set(*old(visited)),
            old(candidates)@,
            old(results)@,
            ef as int,
            Some(from),
        ),
    ensures
        reach_ok(layer, entry, id_set(*final(visited)), out_order@, final(candidates)@),
        forall|i: int| 0 <= i < final(candidates)@.len() ==> (#[trigger] final(candidates)@[i]).1@ == entry
            || layer.dom().contains(final(candidates)@[i].1@),
        beam_ok(*score, layer, entry, views_of(final(results)@)),
        forall|i: int| 0 <= i < final(results)@.len() ==> id_set(*final(visited)).contains((#[trigger] final(results)@[i]).1@),
        final(results)@.len() <= if ef < 1 { 1 } else { ef },
        ef >= 1 ==> final(results)@.len() >= 1,
        final(results)@.len() > 0 ==> final(results)@[0].0 >= entry_score,
        layer.dom().difference(id_set(*final(visited))).len() <= layer.dom().difference(id_set(*old(visited))).len(),
        final(candidates)@.len() + layer.dom().difference(id_set(*final(visited))).len()
            <= old(candidates)@.len() + layer.dom().difference(id_set(*old(visited))).len(),
        id_set(*final(visited)).subset_of(layer.dom().insert(entry)),
        id_set(*old(visited)).subset_of(id_set(*final(visited))),
        forall|j: int| 0 <= j < neighbors@.len() ==> id_set(*final(visited)).contains(#[trigger] neighbors@[j]@),
        wide ==> all_in_beam(id_set(*final(visited)), final(results)@),
        wide ==> settled_except(layer, id_set(*final(visited)), final(candidates)@, skip),
        linked_ok(layer, entry, final(candidates)@),
        linked_ok(layer, entry, final(results)@),
        deterministic(*score) && ef >= 1 ==> best_ok(*score, layer, id_set(*final(visited)), final(candidates)@, final(results)@, None),
        deterministic(*score) && ef >= 1 ==> topk_ok(
            *score,
            layer,
            id_set(*final(visited)),
            final(candidates)@,
            final(results)@,
            ef as int,
            None,
        ),
{
    let ghost dom = layer.dom();
    let ghost u0 = dom.difference(id_set(*visited)).len();
    let ghost c0 = candidates@.len();
    let ghost vstart = id_set(*visited);
    let ghost mut ord = order;
    let mut i: usize = 0;
    while i < neighbors.len()
        invariant
            reach_ok(layer, entry, id_set(*visited), ord, candidates@),
            id_set(*visited).contains(from),
            forall|s: &str| score.requires((s,)),
            i <= neighbors.len(),
            forall|j: int| 0 <= j < neighbors@.len() ==> dom.contains(#[trigger] neighbors@[j]@),
            dom == layer.dom(),
            dom.finite(),
            forall|i: int| 0 <= i < candidates@.len() ==> (#[trigger] candidates@[i]).1@ == entry || dom.contains(candidates@[i].1@),
            beam_ok(*score, layer, entry, views_of(results@)),
            forall|i: int| 0 <= i < results@.len() ==> id_set(*visited).contains((#[trigger] results@[i]).1@),
            results@.len() <= if ef < 1 { 1 } else { ef },
            ef >= 1 ==> results@.len() >= 1,
            results@.len() > 0 ==> results@[0].0 >= entry_score,
            dom.difference(id_set(*visited)).len() <= u0,
            candidates@.len() + dom.difference(id_set(*visited)).len() <= c0 + u0,
            id_set(*visited).subset_of(dom.insert(entry)),
            vstart.subset_of(id_set(*visited)),
            forall|j: int| 0 <= j < i ==> id_set(*visited).contains(#[trigger] neighbors@[j]@),
            wide ==> ef > dom.len() + 1 && rates_all(*score, dom.insert(entry)),
            wide ==> all_in_beam(id_set(*visited), results@),
            wide ==> settled_except(layer, id_set(*visited), candidates@, skip),
            layer.dom().contains(from),
            ids_of(neighbors@) == layer[from],
            linked_ok(layer, entry, candidates@),
            linked_ok(layer, entry, results@),
            deterministic(*score) && ef >= 1 ==> best_ok(*score, layer, id_set(*visited), candidates@, results@, Some(from)),
            deterministic(*score) && ef >= 1 ==> topk_ok(*score, layer, id_set(*visited), candidates@, results@, ef as int, Some(from)),
        decreases neighbors.len() - i,
    {
        let nid = &neighbors[i];
        if !ids_contains(visited, nid.as_str()) {
            let ghost v0 = id_set(*visited);
            ids_insert(visited, nid.clone());
            proof {
                assert(dom.contains(nid@));
                assert(dom.difference(id_set(*visited)) =~= dom.difference(v0).remove(nid@));
                assert(dom.difference(v0).contains(nid@));
            }
            let nid_str = nid.as_str();
            let rated = score(nid_str);
            let ghost c_before = candidates@;
            let ghost r_before = results@;
            proof {
                assert(ids_of(neighbors@)[i as int] == nid@);
                assert(layer[from].contains(nid@));
                assert(linked_in(layer, nid@));
                lemma_reach_visit(layer, entry, v0, ord, candidates@, from, nid@);
                ord = ord.push(nid@);
                if deterministic(*score) {
                    lemma_det_scored(*score, nid_str, rated);
                }
                if wide {
                    assert(dom.insert(entry).contains(nid_str@));
                    assert(rated is Some);
                }
            }
            match rated {
                Some(s) => {
                    let worst = if results.len() > 0 { results[results.len() - 1].0 } else { lowest };
                    proof {
                        if wide {
                            assert(v0.subset_of(dom.insert(entry).remove(nid@)));
                            vstd::set_lib::lemma_len_subset(v0, dom.insert(entry).remove(nid@));
                            lemma_beam_within(results@, v0);
                            assert(results@.len() < ef);
                        }
                    }
                    if results.len() < ef || s > worst {
                        proof {
                            assert(scored(*score, nid@, s));
                            assert forall|i: int| 0 <= i < results@.len() implies (#[trigger] results@[i]).1@ != nid@ by {
                                assert(v0.contains(results@[i].1@));
                            }
                        }
                        let ghost r0 = results@;
                        let ghost cs0 = candidates@;
                        candidates.push((s, nid.clone()));
                        admit_to_beam::<F>(results, s, nid, ef, Ghost(*score), Ghost(layer), Ghost(entry), Ghost(entry_score));
                        proof {
                            assert forall|q: int| 0 <= q < cs0.len() implies candidates@[q] == cs0[q] by {}
                            lemma_reach_push(layer, entry, id_set(*visited), ord, cs0, candidates@);
                            assert forall|i: int| 0 <= i < results@.len() implies id_set(*visited).contains((#[trigger] results@[i]).1@) by {
                                if results@[i].1@ != nid@ {
                                    let j = choose|j: int| 0 <= j < r0.len() && r0[j].1@ == results@[i].1@;
                                    assert(v0.contains(r0[j].1@));
                                }
                            }
                            if wide {
                                let vr0 = views_of(r0);
                                let x0: Ranked = (s, nid@);
                                lemma_insert_desc_sorted(vr0, x0);
                                let p = crate::ranking::first_below(vr0, s);
                                let vr = views_of(results@);
                                assert(vr == insert_desc(vr0, x0));
                                assert forall|x: Seq<char>| #[trigger] id_set(*visited).contains(x) implies holds_id(results@, x) by {
                                    if x == nid@ {
                                        assert(vr[p] == x0);
                                        assert(results@[p].1@ == x);
                                    } else {
                                        assert(v0.contains(x));
                                        assert(holds_id(r0, x));
                                        let j = choose|j: int| 0 <= j < r0.len() && r0[j].1@ == x;
                                        let k = if j < p { j } else { j + 1 };
                                        assert(vr[k] == vr0[j]);
                                        assert(results@[k].1@ == x);
                                    }
                                }
                                assert forall|x: Seq<char>|
                                    #[trigger] id_set(*visited).contains(x) && layer.dom().contains(x) && skip != Some(x) implies
                                    holds_id(candidates@, x) || (forall|n: Seq<char>| #[trigger] layer[x].contains(n) ==> id_set(*visited).contains(n)) by {
                                    if x == nid@ {
                                        assert(candidates@[candidates@.len() - 1].1@ == x);
                                    } else {
                                        assert(v0.contains(x));
                                        if holds_id(cs0, x) {
                                            let j = choose|j: int| 0 <= j < cs0.len() && cs0[j].1@ == x;
                                            assert(candidates@[j] == cs0[j]);
                                        }
                                    }
                                }
                            }
                            assert forall|i: int| 0 <= i < candidates@.len() implies (#[trigger] candidates@[i]).1@ == entry
                                || linked_in(layer, candidates@[i].1@) by {
                                if i < cs0.len() {
                                    assert(candidates@[i] == cs0[i]);
                                }
                            }
                            assert forall|i: int| 0 <= i < results@.len() implies (#[trigger] results@[i]).1@ == entry
                                || linked_in(layer, results@[i].1@) by {
                                if results@[i].1@ != nid@ {
                                    let j = choose|j: int| 0 <= j < r0.len() && r0[j].1@ == results@[i].1@;
                                    assert(r0[j].1@ == entry || linked_in(layer, r0[j].1@));
                                }
                            }
                            if deterministic(*score) && ef >= 1 {
                                assert(candidates@[cs0.len() as int].0 == s);
                                assert forall|i: int| 0 <= i < cs0.len() implies candidates@[i] == cs0[i] by {}
                                lemma_best_admit(*score, layer, v0, nid@, s, cs0, r0, candidates@, results@, Some(from));
                                let vr0 = views_of(r0);
                                assert forall|j: int| 0 <= j < r0.len() implies scored(*score, (#[trigger] r0[j]).1@, r0[j].0) by {
                                    assert(vr0[j] == (r0[j].0, r0[j].1@));
                                }
                                lemma_topk_admit(*score, layer, v0, nid@, s, cs0, r0, candidates@, results@, ef as int, Some(from));
                            }
                        }
                    } else {
                        proof {
                            if deterministic(*score) && ef >= 1 {
                                lemma_head_is_max(results@);
                                lemma_best_skip(*score, layer, v0, nid@, candidates@, results@, Some(from));
                                lemma_topk_skip(*score, layer, v0, nid@, candidates@, results@, ef as int, Some(from));
                            }
                        }
                    }
                },
                None => {
                    proof {
                        if deterministic(*score) && ef >= 1 {
                            lemma_best_skip(*score, layer, v0, nid@, candidates@, results@, Some(from));
                            lemma_topk_skip(*score, layer, v0, nid@, candidates@, results@, ef as int, Some(from));
                        }
                    }
                },
            }
        }
        proof {
            assert(id_set(*visited).contains(neighbors@[i as int]@));
        }
        i = i + 1;
    }
    proof {
        if deterministic(*score) && ef >= 1 {
            let x = results@[0].1@;
            assert forall|n: Seq<char>| #[trigger] layer[from].contains(n) implies id_set(*visited).contains(n) by {
                let list = ids_of(neighbors@);
                let j = choose|j: int| 0 <= j < list.len() && list[j] == n;
                assert(list[j] == neighbors@[j]@);
            }
            lemma_topk_done(*score, layer, id_set(*visited), candidates@, results@, ef as int, from);
        }
    }
    Ghost(ord)
}

impl HnswGraph {
    /// Beam search of layer `layer_idx` from `entry_id`, keeping the `ef`
    /// best-scored nodes seen. Nodes are expanded best first; the search
    /// stops once the beam is full and the next node scores below its worst
    /// member. A neighbour that `score` cannot rate is marked seen and
    /// skipped; when the entry cannot be rated, or the layer does not exist,
    /// the result is empty. `lowest` is the key below every rating, the
    /// beam's floor while it is empty (only with `ef == 0`).
    #[verifier::rlimit(80)]
    #[verifier::spinoff_prover]
    pub fn search_layer<F: Fn(&str) -> Option<u32>>(
        &self,
        score: &F,
        entry_id: &str,
        ef: usize,
        layer_idx: usize,
        lowest: u32,
    ) -> (out: Vec<(u32, String)>)
        requires
            self@.wf(),
            forall|s: &str| score.requires((s,)),
        ensures
            layer_idx >= self@.layers.len() ==> out@.len() == 0,
            layer_idx < self@.layers.len() ==> beam_ok(*score, self@.layers[layer_idx as int], entry_id@, views_of(out@)),
            out@.len() <= if ef < 1 { 1 } else { ef },
            out@.len() == 0 && layer_idx < self@.layers.len() ==> ef == 0 || score.ensures((entry_id,), None),
            out@.len() > 0 ==> exists|k: u32| score.ensures((entry_id,), Some(k)) && out@[0].0 >= k,
            layer_idx < self@.layers.len() && ef > self@.layers[layer_idx as int].dom().len() + 1 && rates_all(
                *score,
                self@.layers[layer_idx as int].dom().insert(entry_id@),
            ) ==> {
                &&& exists|i: int| 0 <= i < out@.len() && out@[i].1@ == entry_id@
                &&& closed_under_links(self@.layers[layer_idx as int], views_of(out@))
            },
            layer_idx < self@.layers.len() ==> linked_ok(self@.layers[layer_idx as int], entry_id@, out@),
            deterministic(*score) && ef >= 1 && layer_idx < self@.layers.len() && out@.len() > 0 ==> exists|
                seen: Set<Seq<char>>,
            | beam_top(*score, self@.layers[layer_idx as int], entry_id@, seen, out@, ef as int),
            deterministic(*score) && ef >= 1 && out@.len() > 0 && layer_idx < self@.layers.len()
                && self@.layers[layer_idx as int].dom().contains(out@[0].1@) ==> local_best(*score, self@.layers[layer_idx as int], out@[0].1@),
    {
        if layer_idx >= self.layer_count() {
            return Vec::new();
        }
        let entry_score = match score(entry_id) {
            Some(k) => k,
            None => {
                return Vec::new();
            },
        };
        let ghost layer = self@.layers[layer_idx as int];
        let ghost dom = layer.dom();
        let ghost entry = entry_id@;
        let mut visited: AHashSet<String> = ids_new();
        ids_insert(&mut visited, entry_id.to_owned());
        let mut candidates: Vec<(u32, String)> = Vec::new();
        candidates.push((entry_score, entry_id.to_owned()));
        let mut results: Vec<(u32, String)> = Vec::new();
        results.push((entry_score, entry_id.to_owned()));
        let ghost wide = ef > dom.len() + 1 && rates_all(*score, dom.insert(entry));
        proof {
            assert(dom.finite());
            assert(score.ensures((entry_id,), Some(entry_score)));
            assert(scored(*score, entry, entry_score));
            assert(views_of(results@)[0] == (entry_score, entry));
            assert(ids_of_ranked(views_of(results@)) =~= seq![entry]);
            assert(id_set(visited) =~= set![entry]);
            assert(results@[0].1@ == entry);
            assert(candidates@[0].1@ == entry);
            assert(holds_id(results@, entry));
            assert(holds_id(candidates@, entry));
            if deterministic(*score) && ef >= 1 {
                lemma_det_scored(*score, entry_id, Some(entry_score));
                assert(pending(candidates@, results@[0].0, results@[0].1@));
                lemma_topk_init(*score, layer, id_set(visited), candidates@, results@, ef as int);
            }
            lemma_reach_init(layer, entry, id_set(visited), candidates@);
        }
        let ghost mut order = seq![entry];
        while candidates.len() > 0
            invariant
                self@.wf(),
                forall|s: &str| score.requires((s,)),
                layer_idx < self@.layers.len(),
                layer == self@.layers[layer_idx as int],
                dom == layer.dom(),
                dom.finite(),
                entry == entry_id@,
                score.ensures((entry_id,), Some(entry_score)),
                forall|i: int| 0 <= i < candidates@.len() ==> (#[trigger] candidates@[i]).1@ == entry || dom.contains(candidates@[i].1@),
                beam_ok(*score, layer, entry, views_of(results@)),
                forall|i: int| 0 <= i < results@.len() ==> id_set(visited).contains((#[trigger] results@[i]).1@),
                results@.len() <= if ef < 1 { 1 } else { ef },
                ef >= 1 ==> results@.len() >= 1,
                results@.len() > 0 ==> results@[0].0 >= entry_score,
                id_set(visited).contains(entry),
                id_set(visited).subset_of(dom.insert(entry)),
                wide == (ef > dom.len() + 1 && rates_all(*score, dom.insert(entry))),
                wide ==> all_in_beam(id_set(visited), results@),
                wide ==> settled_except(layer, id_set(visited), candidates@, None),
                linked_ok(layer, entry, candidates@),
                linked_ok(layer, entry, results@),
                deterministic(*score) && ef >= 1 ==> best_ok(*score, layer, id_set(visited), candidates@, results@, None),
                deterministic(*score) && ef >= 1 ==> topk_ok(*score, layer, id_set(visited), candidates@, results@, ef as int, None),
                reach_ok(layer, entry, id_set(visited), order, candidates@),
            ensures
                wide ==> candidates@.len() == 0,
                deterministic(*score) && ef >= 1 ==> !pending(candidates@, results@[0].0, results@[0].1@),
                deterministic(*score) && ef >= 1 ==> forall|i: int|
                    0 <= i < results@.len() ==> !pending(candidates@, (#[trigger] results@[i]).0, results@[i].1@),
            decreases dom.difference(id_set(visited)).len(), candidates@.len(),
        {
            let p = best_position(&candidates);
            let ghost cs0 = candidates@;
            let current = candidates.remove(p);
            let worst = if results.len() > 0 { results[results.len() - 1].0 } else { lowest };
            proof {
                lemma_reach_pop(layer, entry, id_set(visited), order, cs0, p as int);
                if deterministic(*score) && ef >= 1 {
                    lemma_best_pop(*score, layer, id_set(visited), cs0, p as int, results@);
                    lemma_head_is_max(results@);
                    let vr = views_of(results@);
                    assert forall|i: int| 0 <= i < results@.len() implies (#[trigger] results@[i]).0 >= results@[results@.len()
                        - 1].0 by {
                        assert(vr[i].0 == results@[i].0 && vr[results@.len() - 1].0 == results@[results@.len() - 1].0);
                    }
                    lemma_topk_pop(*score, layer, id_set(visited), cs0, p as int, results@, ef as int);
                    assert(candidates@ == cs0.remove(p as int));
                    lemma_head_is_max(results@);
                }
                assert forall|i: int| 0 <= i < candidates@.len() implies (#[trigger] candidates@[i]).1@ == entry
                    || linked_in(layer, candidates@[i].1@) by {
                    if i < p {
                        assert(candidates@[i] == cs0[i]);
                    } else {
                        assert(candidates@[i] == cs0[i + 1]);
                    }
                }
                if wide {
                    vstd::set_lib::lemma_len_subset(id_set(visited), dom.insert(entry));
                    lemma_beam_within(results@, id_set(visited));
                    assert(results@.len() < ef);
                }
                assert forall|x: Seq<char>|
                    #[trigger] id_set(visited).contains(x) && layer.dom().contains(x) && Some(current.1@) != Some(x)
                        && holds_id(cs0, x) implies holds_id(candidates@, x) by {
                    let j = choose|j: int| 0 <= j < cs0.len() && cs0[j].1@ == x;
                    assert(j != p);
                    if j < p {
                        assert(candidates@[j] == cs0[j]);
                    } else {
                        assert(candidates@[j - 1] == cs0[j]);
                    }
                }
            }
            if results.len() >= ef && current.0 < worst {
                break;
            }
            let ghost vbefore = id_set(visited);
            match self.neighbors(layer_idx, current.1.as_str()) {
                Some(neighbors) => {
                    let ghost list = ids_of(neighbors@);
                    proof {
                        assert(dom.contains(current.1@));
                        assert(self@.list_ok(layer_idx as int, current.1@));
                        assert forall|j: int| 0 <= j < neighbors@.len() implies dom.contains(#[trigger] neighbors@[j]@) by {
                            assert(list[j] == neighbors@[j]@);
                        }
                    }
                    let next_order = visit_neighbors(
                        score,
                        neighbors,
                        ef,
                        lowest,
                        &mut visited,
                        &mut candidates,
                        &mut results,
                        Ghost(layer),
                        Ghost(entry),
                        Ghost(entry_score),
                        Ghost(wide),
                        Ghost(Some(current.1@)),
                        Ghost(current.1@),
                        Ghost(order),
                    );
                    proof {
                        order = next_order@;
                    }
                    proof {
                        if wide {
                            assert forall|x: Seq<char>|
                                #[trigger] id_set(visited).contains(x) && layer.dom().contains(x) && None::<Seq<char>> != Some(x)
                                    implies holds_id(candidates@, x) || (forall|n: Seq<char>|
                                    #[trigger] layer[x].contains(n) ==> id_set(visited).contains(n)) by {
                                if x == current.1@ {
                                    assert forall|n: Seq<char>| #[trigger] layer[x].contains(n) implies id_set(visited).contains(n) by {
                                        let j = choose|j: int| 0 <= j < list.len() && list[j] == n;
                                        assert(list[j] == neighbors@[j]@);
                                    }
                                }
                            }
                        }
                    }
                },
                None => {
                    proof {
                        if wide {
                            assert forall|x: Seq<char>|
                                #[trigger] id_set(visited).contains(x) && layer.dom().contains(x) && None::<Seq<char>> != Some(x)
                                    implies holds_id(candidates@, x) || (forall|n: Seq<char>|
                                    #[trigger] layer[x].contains(n) ==> id_set(visited).contains(n)) by {
                                assert(x != current.1@);
                            }
                        }
                    }
                },
            }
        }
        proof {
            let r = views_of(results@);
            if results@.len() > 0 {
                assert(results@[0].0 >= entry_score);
            }
            if deterministic(*score) && ef >= 1 {
                lemma_reach_final(layer, entry, id_set(visited), order, candidates@);
                lemma_topk_final(*score, layer, entry, id_set(visited), candidates@, results@, ef as int);
                assert(beam_top(*score, layer, entry_id@, id_set(visited), results@, ef as int));
            }
            if deterministic(*score) && ef >= 1 && dom.contains(results@[0].1@) {
                let x = results@[0].1@;
                assert forall|n: Seq<char>, k: u32, kx: u32|
                    #[trigger] layer[x].contains(n) && #[trigger] scored(*score, n, k) && #[trigger] scored(*score, x, kx)
                        implies k <= kx by {
                    assert(id_set(visited).contains(n));
                    assert(id_set(visited).contains(x));
                    assert(kx <= results@[0].0);
                    assert(scored(*score, x, results@[0].0)) by {
                        assert(r[0].1 == x);
                    }
                    lemma_scored_unique(*score, x, kx, results@[0].0);
                }
            }
            if wide {
                assert(holds_id(results@, entry));
                let i0 = choose|i: int| 0 <= i < results@.len() && results@[i].1@ == entry;
                assert(r[i0].1 == entry);
                assert forall|i: int, n: Seq<char>|
                    0 <= i < r.len() && layer.dom().contains(r[i].1) && #[trigger] layer[r[i].1].contains(n)
                        implies exists|j: int| 0 <= j < r.len() && r[j].1 == n by {
                    assert(r[i].1 == results@[i].1@);
                    assert(id_set(visited).contains(r[i].1));
                    assert(!holds_id(candidates@, r[i].1));
                    assert(id_set(visited).contains(n));
                    assert(holds_id(results@, n));
                    let j = choose|j: int| 0 <= j < results@.len() && results@[j].1@ == n;
                    assert(r[j].1 == n);
                }
            }
        }
        results
    }

    /// Greedy descent: starting at `entry`, searches layers `top` down to
    /// `bottom` (none when `bottom > top`) with a beam of one and moves to
    /// the best node found in each.
    pub fn descend<F: Fn(&str) -> Option<u32>>(
        &self,
        score: &F,
        entry: String,
        top: usize,
        bottom: usize,
        lowest: u32,
    ) -> (r: String)
        requires
            self@.wf(),
            forall|s: &str| score.requires((s,)),
            top < self@.layers.len(),
        ensures
            bottom > top ==> r@ == entry@,
            r@ == entry@ || (bottom <= top && self@.layers[bottom as int].dom().contains(r@)),
            bottom <= top && deterministic(*score) && rates_all(*score, self@.nodes().insert(entry@))
                && self@.layers[bottom as int].dom().contains(r@) ==> local_best(*score, self@.layers[bottom as int], r@),
    {
        if bottom > top {
            return entry;
        }
        let ghost start = entry@;
        let mut current = entry;
        let mut l: usize = top;
        loop
            invariant_except_break
                self@.wf(),
                forall|s: &str| score.requires((s,)),
                top < self@.layers.len(),
                bottom <= l <= top,
                start == entry@,
                current@ == entry@ || (l < top && self@.layers[l + 1].dom().contains(current@)),
            ensures
                current@ == entry@ || self@.layers[bottom as int].dom().contains(current@),
                deterministic(*score) && rates_all(*score, self@.nodes().insert(entry@))
                    && self@.layers[bottom as int].dom().contains(current@) ==> local_best(
                    *score,
                    self@.layers[bottom as int],
                    current@,
                ),
            decreases l,
        {
            let cur = current.as_str();
            let found = self.search_layer(score, cur, 1, l, lowest);
            let ghost prev = current@;
            proof {
                if rates_all(*score, self@.nodes().insert(entry@)) {
                    if prev != entry@ {
                        lemma_layers_within_nodes(self@, l + 1);
                    }
                    assert(self@.nodes().insert(entry@).contains(cur@));
                    assert(found@.len() > 0);
                }
            }
            if found.len() > 0 {
                proof {
                    let v = views_of(found@);
                    assert(v[0].1 == found@[0].1@);
                    assert(v[0].1 == prev || self@.layers[l as int].dom().contains(v[0].1));
                }
                current = found[0].1.clone();
            }
            proof {
                if current@ != entry@ && current@ == prev {
                    assert(self@.layers[l + 1].dom().contains(current@));
                    assert(self@.layers[l + 1].dom().subset_of(self@.layers[l as int].dom()));
                }
            }
            if l == bottom {
                break;
            }
            l = l - 1;
        }
        current
    }

    /// Answers a query of length `query_len` for the `top_k` best nodes, as
    /// `score` rates them: the plan of `plan_query`, a greedy descent to the
    /// base layer, a beam search there of width `max(ef_search, top_k)`, and
    /// its `top_k` best entries.
    #[verifier::spinoff_prover]
    pub fn search<F: Fn(&str) -> Option<u32>>(
        &self,
        score: &F,
        query_len: usize,
        top_k: usize,
        lowest: u32,
    ) -> (r: Result<Vec<(u32, String)>, SolVecError>)
        requires
            self@.wf(),
            forall|s: &str| score.requires((s,)),
        ensures
            top_k == 0 ==> r == Err::<Vec<(u32, String)>, SolVecError>(SolVecError::InvalidTopK(0)),
            top_k != 0 && self@.nodes().is_empty() ==> (r matches Ok(v) && v@.len() == 0),
            top_k != 0 && !self@.nodes().is_empty() && (self@.dimension matches Some(d) && d != query_len) ==>
                r == Err::<Vec<(u32, String)>, SolVecError>(SolVecError::DimensionMismatch {
                    expected: self@.dimension->Some_0 as usize,
                    actual: query_len,
                }),
            top_k != 0 && !self@.nodes().is_empty() && !(self@.dimension matches Some(d) && d != query_len) ==> r is Ok,
            r matches Ok(v) ==> v@.len() <= top_k,
            r matches Ok(v) ==> hits_ok(*score, self@.nodes(), views_of(v@)),
            !self@.nodes().is_empty() && rates_all(*score, self@.nodes()) ==> (r matches Ok(v) ==> v@.len() >= 1),
            !self@.nodes().is_empty() && deterministic(*score) ==> (r matches Ok(v) ==> exists|
                start: Seq<char>,
                seen: Set<Seq<char>>,
            | self@.nodes().contains(start) && beam_top(*score, self@.layers[0], start, seen, v@, top_k as int) && descended(
                *score,
                self@,
                start,
            )),
            !self@.nodes().is_empty() && deterministic(*score) ==> (r matches Ok(v) ==> exists|
                start: Seq<char>,
                seen: Set<Seq<char>>,
                beam: Seq<(u32, String)>,
            |
                self@.nodes().contains(start) && descended(*score, self@, start) && beam_top(
                    *score,
                    self@.layers[0],
                    start,
                    seen,
                    beam,
                    query_width(self@.ef_search as int, top_k as int),
                ) && v@.len() == (if top_k < beam.len() { top_k as int } else { beam.len() as int }) && v@ == beam.take(
                    v@.len() as int,
                )),
            !self@.nodes().is_empty() && rates_all(*score, self@.nodes()) && self@.ef_search > self@.nodes().len() + 1 ==> (
            r matches Ok(v) ==> exists|start: Seq<char>|
                self@.nodes().contains(start) && head_of_closed_beam(self@.layers[0], start, views_of(v@), top_k as nat)),
    {
        let plan: SearchPlan = match self.plan_query(query_len, top_k) {
            Err(e) => {
                return Err(e);
            },
            Ok(None) => {
                return Ok(Vec::new());
            },
            Ok(Some(p)) => p,
        };
        proof {
            assert(self@.layers.len() > 0);
            assert(self@.layers[self@.entry_level as int].dom().contains(plan.entry@));
            lemma_layers_within_nodes(self@, self@.entry_level as int);
        }
        let start = self.descend(score, plan.entry.clone(), plan.entry_level, 1, lowest);
        proof {
            if start@ != plan.entry@ {
                lemma_layers_within_nodes(self@, 1);
            }
            assert(self@.nodes().contains(start@));
            if self@.entry_level >= 1 {
                lemma_layer_within_lower(self@, self@.entry_level as int, 1);
                assert(self@.layers[1].dom().contains(start@));
                if rates_all(*score, self@.nodes()) {
                    assert(self@.nodes().insert(plan.entry@) =~= self@.nodes());
                }
            }
            assert(descended(*score, self@, start@));
        }
        let start_id = start.as_str();
        let mut hits = self.search_layer(score, start_id, plan.ef, 0, lowest);
        proof {
            let v = views_of(hits@);
            assert(self@.nodes() == self@.layers[0].dom());
            assert forall|i: int| 0 <= i < v.len() implies self@.nodes().contains((#[trigger] v[i]).1) by {}
            if rates_all(*score, self@.nodes()) && hits@.len() == 0 {
                assert(!score.ensures((start_id,), None));
            }
        }
        let ghost before = views_of(hits@);
        let ghost h0 = hits@;
        hits.truncate(top_k);
        proof {
            let v = views_of(hits@);
            assert(hits@.len() <= h0.len());
            assert forall|i: int| 0 <= i < v.len() implies #[trigger] v[i] == before[i] by {
                assert(hits@[i] == h0[i]);
            }
            let ids = ids_of_ranked(v);
            let bids = ids_of_ranked(before);
            assert forall|a: int, b: int| 0 <= a < ids.len() && 0 <= b < ids.len() && a != b implies ids[a] != ids[b] by {
                assert(ids[a] == bids[a] && ids[b] == bids[b]);
            }
            if deterministic(*score) {
                let layer0 = self@.layers[0];
                if h0.len() > 0 {
                    let seen0 = choose|seen: Set<Seq<char>>| beam_top(*score, layer0, start_id@, seen, h0, plan.ef as int);
                    assert forall|j: int| 0 <= j < h0.len() implies scored(*score, (#[trigger] h0[j]).1@, h0[j].0) by {
                        assert(before[j] == (h0[j].0, h0[j].1@));
                    }
                    assert forall|i: int| 0 <= i < hits@.len() implies #[trigger] hits@[i] == h0[i] by {}
                    if top_k < h0.len() {
                        assert(hits@.len() == top_k);
                    } else {
                        assert(hits@ == h0);
                    }
                    assert(hits@ =~= h0.take(hits@.len() as int));
                    assert(plan.ef as int == query_width(self@.ef_search as int, top_k as int));
                    assert(start_id@ == start@);
                    assert(beam_top(*score, self@.layers[0], start@, seen0, h0, query_width(self@.ef_search as int, top_k as int)));
                    assert(hits@.len() == (if top_k < h0.len() { top_k as int } else { h0.len() as int }));
                    assert(exists|st: Seq<char>, sn: Set<Seq<char>>, b: Seq<(u32, String)>|
                        self@.nodes().contains(st) && descended(*score, self@, st) && beam_top(
                            *score,
                            self@.layers[0],
                            st,
                            sn,
                            b,
                            query_width(self@.ef_search as int, top_k as int),
                        ) && hits@.len() == (if top_k < b.len() { top_k as int } else { b.len() as int })
                            && hits@ == b.take(hits@.len() as int));
                    lemma_top_of_head(*score, layer0, start@, seen0, h0, hits@, plan.ef as int, top_k as int);
                    assert(beam_top(*score, layer0, start@, seen0, hits@, top_k as int));
                    assert(exists|st: Seq<char>, sn: Set<Seq<char>>|
                        self@.nodes().contains(st) && beam_top(*score, self@.layers[0], st, sn, hits@, top_k as int)
                            && descended(*score, self@, st));
                } else {
                    let seen0 = set![start@];
                    lemma_reached_single(layer0, start@);
                    assert(score.ensures((start_id,), None));
                    assert forall|x: Seq<char>, k: u32| seen0.contains(x) && #[trigger] scored(*score, x, k) implies false by {
                        lemma_det_scored(*score, start_id, None);
                    }
                    assert(beam_top(*score, layer0, start@, seen0, hits@, top_k as int));
                    assert(exists|st: Seq<char>, sn: Set<Seq<char>>|
                        self@.nodes().contains(st) && beam_top(*score, self@.layers[0], st, sn, hits@, top_k as int)
                            && descended(*score, self@, st));
                    lemma_unrated_entry_top(*score, layer0, start_id, h0, plan.ef as int);
                    assert(hits@ =~= h0.take(0));
                    assert(plan.ef as int == query_width(self@.ef_search as int, top_k as int));
                    assert(beam_top(*score, self@.layers[0], start@, set![start_id@], h0, query_width(self@.ef_search as int, top_k as int)));
                    assert(hits@.len() == (if top_k < h0.len() { top_k as int } else { h0.len() as int }));
                    assert(exists|st: Seq<char>, sn: Set<Seq<char>>, b: Seq<(u32, String)>|
                        self@.nodes().contains(st) && descended(*score, self@, st) && beam_top(
                            *score,
                            self@.layers[0],
                            st,
                            sn,
                            b,
                            query_width(self@.ef_search as int, top_k as int),
                        ) && hits@.len() == (if top_k < b.len() { top_k as int } else { b.len() as int })
                            && hits@ == b.take(hits@.len() as int));
                }
            }
            if rates_all(*score, self@.nodes()) && self@.ef_search > self@.nodes().len() + 1 {
                let layer0 = self@.layers[0];
                assert(layer0.dom().insert(start@) =~= self@.nodes());
                assert(plan.ef > layer0.dom().len() + 1);
                assert(v =~= before.take(v.len() as int));
                assert(rates_all(*score, layer0.dom().insert(start_id@)));
                assert(closed_under_links(layer0, before));
                assert(sorted_desc(before));
                let i0 = choose|i: int| 0 <= i < h0.len() && h0[i].1@ == start_id@;
                assert(before[i0].1 == start@);
                if top_k < h0.len() {
                    assert(hits@.len() == top_k);
                } else {
                    assert(hits@ == h0);
                }
                assert(v.len() == if (top_k as nat) < before.len() { top_k as int } else { before.len() as int });
            }
        }
        let r = Ok(hits);
        assert(r matches Ok(v) && v@ == hits@);
        r
    }

    /// For each neighbour `nbrs[i]` of `node_id` in layer `layer`: when its
    /// list, with the node added, outgrows the layer's capacity, the ranks
    /// `rank(nbrs[i], x)` of the entries `x` of that grown list; otherwise
    /// no ranks.
    fn rank_lists<G: Fn(&str, &str) -> u32>(
        &self,
        layer: usize,
        node_id: &str,
        nbrs: &Vec<String>,
        rank: &G,
    ) -> (keys: Vec<Vec<u32>>)
        requires
            self@.wf(),
            layer < self@.layers.len(),
            forall|a: &str, b: &str| rank.requires((a, b)),
            forall|i: int| 0 <= i < nbrs@.len() ==> self@.layers[layer as int].dom().contains(#[trigger] nbrs@[i]@),
        ensures
            link_keys(*rank, self@.layers[layer as int], node_id@, ids_of(nbrs@), key_lists(keys@), self@.cap(layer as int)),
    {
        let cap = if layer == 0 { self.m_max_0() } else { self.m() };
        let node = node_id.to_owned();
        let mut keys: Vec<Vec<u32>> = Vec::new();
        let mut i: usize = 0;
        while i < nbrs.len()
            invariant
                self@.wf(),
                layer < self@.layers.len(),
                cap == self@.cap(layer as int),
                node@ == node_id@,
                forall|a: &str, b: &str| rank.requires((a, b)),
                forall|i: int| 0 <= i < nbrs@.len() ==> self@.layers[layer as int].dom().contains(#[trigger] nbrs@[i]@),
                i <= nbrs.len(),
                keys@.len() == i,
                forall|j: int|
                    0 <= j < i && grown(self@.layers[layer as int][(#[trigger] nbrs@[j])@], node_id@).len() > cap ==> {
                        &&& keys@[j]@.len() == grown(self@.layers[layer as int][nbrs@[j]@], node_id@).len()
                        &&& forall|t: int|
                            0 <= t < keys@[j]@.len() ==> #[trigger] ranked(
                                *rank,
                                nbrs@[j]@,
                                grown(self@.layers[layer as int][nbrs@[j]@], node_id@)[t],
                                keys@[j]@[t],
                            )
                    },
            decreases nbrs.len() - i,
        {
            let n = &nbrs[i];
            let ghost old_list = self@.layers[layer as int][n@];
            let mut ks: Vec<u32> = Vec::new();
            match self.neighbors(layer, n.as_str()) {
                Some(list) => {
                    proof {
                        assert(self@.list_ok(layer as int, n@));
                        assert(ids_of(list@) == old_list);
                    }
                    let present = list_contains(list, &node);
                    if !present && list.len() >= cap {
                        let mut j: usize = 0;
                        while j < list.len()
                            invariant
                                j <= list.len(),
                                ks@.len() == j,
                                forall|a: &str, b: &str| rank.requires((a, b)),
                                forall|t: int| 0 <= t < j ==> #[trigger] ranked(*rank, n@, list@[t]@, ks@[t]),
                            decreases list.len() - j,
                        {
                            let ns = n.as_str();
                            let xs = list[j].as_str();
                            let k = rank(ns, xs);
                            proof {
                                assert(ns@ == n@ && xs@ == list@[j as int]@ && rank.ensures((ns, xs), k));
                                assert(ranked(*rank, n@, list@[j as int]@, k));
                            }
                            let ghost kb = ks@;
                            ks.push(k);
                            proof {
                                assert forall|t: int| 0 <= t < j + 1 implies #[trigger] ranked(*rank, n@, list@[t]@, ks@[t]) by {
                                    if t < j {
                                        assert(ks@[t] == kb[t]);
                                    }
                                }
                            }
                            j = j + 1;
                        }
                        let ns = n.as_str();
                        let k = rank(ns, node_id);
                        proof {
                            assert(ns@ == n@ && rank.ensures((ns, node_id), k));
                            assert(ranked(*rank, n@, node_id@, k));
                        }
                        let ghost ks0 = ks@;
                        ks.push(k);
                        proof {
                            let gl = grown(old_list, node_id@);
                            assert(gl == old_list.push(node_id@));
                            assert forall|t: int| 0 <= t < ks@.len() implies #[trigger] ranked(*rank, n@, gl[t], ks@[t]) by {
                                if t < list@.len() {
                                    assert(ks@[t] == ks0[t]);
                                    assert(gl[t] == old_list[t]);
                                    assert(old_list[t] == list@[t]@);
                                }
                            }
                        }
                    } else {
                        proof {
                            assert(old_list.len() <= cap);
                        }
                    }
                },
                None => {},
            }
            keys.push(ks);
            i = i + 1;
        }
        keys
    }

    /// Inserts `id` at `level`: adds it to layers `0..=level` as
    /// `add_node` does, then, when the graph had an entry point, links it
    /// in. The link descends greedily from the old entry point through the
    /// layers above `level`; in each layer from `min(level, entry level)`
    /// down to 0 it runs a beam search of width `ef_construction` rated by
    /// `score`, takes the neighbours `select_neighbors` picks from the
    /// results, and connects them as `connect` does, ranking a neighbour's
    /// overgrown list by `rank(neighbour, entry)`. The next layer's search
    /// starts from the best result. `lowest` is as in `search_layer`.
    pub fn insert_node<F: Fn(&str) -> Option<u32>, G: Fn(&str, &str) -> u32>(
        &mut self,
        id: String,
        level: usize,
        score: &F,
        rank: &G,
        lowest: u32,
    )
        requires
            old(self)@.wf(),
            !old(self)@.nodes().contains(id@),
            level < usize::MAX,
            old(self)@.total_inserts < usize::MAX,
            forall|s: &str| score.requires((s,)),
            forall|a: &str, b: &str| rank.requires((a, b)),
        ensures
            final(self)@.wf(),
            final(self)@.nodes() == old(self)@.nodes().insert(id@),
            final(self)@.layers.len() == added_layers(old(self)@.layers, id@, level as int).len(),
            forall|j: int|
                0 <= j < final(self)@.layers.len() ==> (#[trigger] final(self)@.layers[j]).dom() == added_layers(
                    old(self)@.layers,
                    id@,
                    level as int,
                )[j].dom(),
            only_gains(old(self)@.layers, final(self)@.layers, id@),
            links_back(final(self)@, id@),
            final(self)@ == (GraphModel {
                layers: final(self)@.layers,
                entry: if old(self)@.entry is None || level > old(self)@.entry_level {
                    Some(id@)
                } else {
                    old(self)@.entry
                },
                entry_level: if old(self)@.entry is None || level > old(self)@.entry_level {
                    level as nat
                } else {
                    old(self)@.entry_level
                },
                total_inserts: old(self)@.total_inserts + 1,
                ..old(self)@
            }),
            links_new_node(*score, *rank, old(self)@, id@, level as int, final(self)@),
    {
        let ghost g0 = self@;
        let prev = self.add_node(id.clone(), level);
        let ghost g1 = self@;
        proof {
            lemma_added_links(g0, g1, id@, level as int);
        }
        match prev {
            None => {},
            Some((entry, entry_level)) => {
                let ghost e = entry@;
                self.link_node(id.as_str(), level, entry, entry_level, score, rank, lowest, Ghost(g0));
                proof {
                    assert(self@.nodes() == g1.nodes());
                    let top = link_top(level as int, entry_level as int);
                    let ga = GraphModel { layers: added_layers(g0.layers, id@, level as int), ..g0 };
                    let (starts, beams) = choose|starts: Seq<Seq<char>>, beams: Seq<Seq<(u32, String)>>|
                        #[trigger] linked_chain(*score, *rank, g1, id@, top, starts, beams, self@.layers)
                            && link_start(*score, g1.layers, e, entry_level as int, level as int, g1.nodes(), starts[top]);
                    lemma_chain_same_shape(*score, *rank, g1, ga, id@, top, starts, beams, self@.layers);
                    assert(linked_chain(*score, *rank, ga, id@, top, starts, beams, self@.layers)
                        && link_start(*score, ga.layers, e, g0.entry_level as int, level as int, self@.nodes(), starts[top]));
                }
            },
        }
    }

    /// The linking part of `insert_node`, after `add_node` turned the graph
    /// `g0`, whose entry point was `entry` at `entry_level`, into this one.
    fn link_node<F: Fn(&str) -> Option<u32>, G: Fn(&str, &str) -> u32>(
        &mut self,
        node_id: &str,
        level: usize,
        entry: String,
        entry_level: usize,
        score: &F,
        rank: &G,
        lowest: u32,
        Ghost(g0): Ghost<GraphModel>,
    )
        requires
            old(self)@.wf(),
            g0.wf(),
            !g0.nodes().contains(node_id@),
            old(self)@.layers == added_layers(g0.layers, node_id@, level as int),
            g0.entry == Some(entry@),
            entry_level == g0.entry_level,
            level < usize::MAX,
            only_gains(g0.layers, old(self)@.layers, node_id@),
            links_back(old(self)@, node_id@),
            forall|s: &str| score.requires((s,)),
            forall|a: &str, b: &str| rank.requires((a, b)),
        ensures
            final(self)@.wf(),
            final(self)@ == (GraphModel { layers: final(self)@.layers, ..old(self)@ }),
            final(self)@.layers.len() == old(self)@.layers.len(),
            forall|j: int| 0 <= j < final(self)@.layers.len() ==> (#[trigger] final(self)@.layers[j]).dom() == old(self)@.layers[j].dom(),
            only_gains(g0.layers, final(self)@.layers, node_id@),
            links_back(final(self)@, node_id@),
            forall|j: int|
                (if level < entry_level { level as int } else { entry_level as int }) < j < final(self)@.layers.len()
                    ==> #[trigger] final(self)@.layers[j] == old(self)@.layers[j],
            forall|j: int|
                0 <= j <= (if level < entry_level { level as int } else { entry_level as int }) && old(self)@.ef_construction >= 1
                    && rates_all(*score, old(self)@.nodes()) && old(self)@.cap(j) >= 1 ==> (
                #[trigger] final(self)@.layers[j])[node_id@].len() >= 1,
            exists|starts: Seq<Seq<char>>, beams: Seq<Seq<(u32, String)>>|
                #[trigger] linked_chain(
                    *score,
                    *rank,
                    old(self)@,
                    node_id@,
                    link_top(level as int, entry_level as int),
                    starts,
                    beams,
                    final(self)@.layers,
                ) && link_start(
                    *score,
                    old(self)@.layers,
                    entry@,
                    entry_level as int,
                    level as int,
                    old(self)@.nodes(),
                    starts[link_top(level as int, entry_level as int)],
                ),
    {
        let ghost g1 = self@;
        proof {
            assert(entry_level < g0.layers.len());
            lemma_added_links(g0, g1, node_id@, level as int);
        }
        let start = self.descend(score, entry, entry_level, level + 1, lowest);
        let top = if level < entry_level { level } else { entry_level };
        proof {
            assert(g0.nodes().contains(entry@)) by {
                lemma_layers_within_nodes(g0, entry_level as int);
            }
            lemma_layer_within_lower(g0, entry_level as int, top as int);
            lemma_layer_within_lower(g1, entry_level as int, top as int);
            assert(g0.layers[top as int].dom().contains(entry@));
            assert(g1.layers[entry_level as int].dom().contains(entry@));
            if start@ != entry@ {
                lemma_layer_within_lower(g1, level + 1, top as int);
                assert(!g1.layers[level + 1].dom().contains(node_id@)) by {
                    if level + 1 < g0.layers.len() {
                        lemma_layers_within_nodes(g0, level + 1);
                    }
                }
            }
            assert(start@ != node_id@);
            assert(g1.layers[top as int].dom().contains(start@));
        }
        let mut current = start;
        let mut l: usize = top;
        let ghost mut starts: Seq<Seq<char>> = Seq::new((top + 1) as nat, |j: int| start@);
        let ghost mut beams: Seq<Seq<(u32, String)>> = Seq::new((top + 1) as nat, |j: int| Seq::<(u32, String)>::empty());
        loop
            invariant_except_break
                starts.len() == top + 1,
                beams.len() == top + 1,
                starts[top as int] == start@,
                current@ == if l == top { start@ } else { next_start(beams[l + 1], starts[l + 1]) },
                forall|j: int| l < j < top ==> #[trigger] starts[j] == next_start(beams[j + 1], starts[j + 1]),
                self@.wf(),
                self@ == (GraphModel { layers: self@.layers, ..g1 }),
                self@.layers.len() == g1.layers.len(),
                forall|j: int| 0 <= j <= level ==> (#[trigger] g1.layers[j]).dom().contains(node_id@) && g1.layers[j][node_id@].len() == 0,
                forall|j: int| 0 <= j < self@.layers.len() ==> (#[trigger] self@.layers[j]).dom() == g1.layers[j].dom(),
                forall|j: int| 0 <= j <= l ==> #[trigger] self@.layers[j] == g1.layers[j],
                only_gains(g0.layers, self@.layers, node_id@),
                links_back(self@, node_id@),
                l <= top,
                top <= level,
                top <= entry_level,
                top == (if level < entry_level { level as int } else { entry_level as int }),
                top < g1.layers.len(),
                forall|s: &str| score.requires((s,)),
                forall|a: &str, b: &str| rank.requires((a, b)),
                current@ != node_id@,
                g1.layers[l as int].dom().contains(current@),
                g1.wf(),
                forall|j: int, k: Seq<char>|
                    0 <= j < g1.layers.len() && #[trigger] g1.layers[j].dom().contains(k) ==> !g1.layers[j][k].contains(node_id@),
                forall|j: int| top < j < self@.layers.len() ==> #[trigger] self@.layers[j] == g1.layers[j],
                forall|j: int|
                    l < j <= top && g1.ef_construction >= 1 && rates_all(*score, g1.nodes()) && g1.cap(j) >= 1 ==> (
                    #[trigger] self@.layers[j])[node_id@].len() >= 1,
                forall|j: int|
                    l < j <= top ==> linked_from(
                        *score,
                        *rank,
                        g1.layers[j],
                        g1.cap(j),
                        node_id@,
                        g1.ef_construction as int,
                        starts[j],
                        beams[j],
                        #[trigger] self@.layers[j],
                    ),
            ensures
                linked_chain(*score, *rank, g1, node_id@, top as int, starts, beams, self@.layers),
                starts[top as int] == start@,
                self@.wf(),
                self@ == (GraphModel { layers: self@.layers, ..g1 }),
                self@.layers.len() == g1.layers.len(),
                forall|j: int| 0 <= j < self@.layers.len() ==> (#[trigger] self@.layers[j]).dom() == g1.layers[j].dom(),
                only_gains(g0.layers, self@.layers, node_id@),
                links_back(self@, node_id@),
                forall|j: int| top < j < self@.layers.len() ==> #[trigger] self@.layers[j] == g1.layers[j],
                forall|j: int|
                    0 <= j <= top && g1.ef_construction >= 1 && rates_all(*score, g1.nodes()) && g1.cap(j) >= 1 ==> (
                    #[trigger] self@.layers[j])[node_id@].len() >= 1,
            decreases l,
        {
            let ghost before = self@;
            proof {
                assert(self@.layers[l as int] == g1.layers[l as int]);
            }
            let linked = self.link_layer(node_id, l, current.as_str(), score, rank, lowest, Ghost(g0.layers));
            let ghost cur = current@;
            current = linked.0;
            proof {
                starts = starts.update(l as int, cur);
                beams = beams.update(l as int, linked.1@);
                assert forall|j: int| 0 <= j < l implies #[trigger] self@.layers[j] == g1.layers[j] by {
                    assert(self@.layers[j] == before.layers[j]);
                }
                assert forall|j: int| top < j < self@.layers.len() implies #[trigger] self@.layers[j] == g1.layers[j] by {
                    assert(self@.layers[j] == before.layers[j]);
                }
                assert forall|j: int|
                    l <= j <= top && g1.ef_construction >= 1 && rates_all(*score, g1.nodes()) && g1.cap(j) >= 1 implies (
                    #[trigger] self@.layers[j])[node_id@].len() >= 1 by {
                    if j > l {
                        assert(self@.layers[j] == before.layers[j]);
                    }
                }
                assert forall|j: int| l <= j <= top implies linked_from(
                    *score,
                    *rank,
                    g1.layers[j],
                    g1.cap(j),
                    node_id@,
                    g1.ef_construction as int,
                    starts[j],
                    beams[j],
                    #[trigger] self@.layers[j],
                ) by {
                    if j > l {
                        assert(self@.layers[j] == before.layers[j]);
                    }
                }
                assert forall|j: int| l <= j < top implies #[trigger] starts[j] == next_start(beams[j + 1], starts[j + 1]) by {}
                if l > 0 {
                    assert(g1.layers[l as int].dom().subset_of(g1.layers[l - 1].dom()));
                }
            }
            if l == 0 {
                break;
            }
            l = l - 1;
        }
        proof {
            let lv = level as int;
            if lv < entry_level {
                lemma_layer_within_lower(g1, entry_level as int, lv + 1);
                assert(g1.layers[lv + 1].dom().contains(start@));
                assert(g1.nodes().insert(entry@) =~= g1.nodes());
            }
            assert(link_start(*score, g1.layers, entry@, entry_level as int, lv, g1.nodes(), starts[top as int]));
            assert(top as int == link_top(lv, entry_level as int));
            assert(linked_chain(*score, *rank, g1, node_id@, top as int, starts, beams, self@.layers));
        }
    }

    /// One layer of the linking: a beam search from `from` of width
    /// `ef_construction`, the neighbours `select_neighbors` picks from its
    /// results, their ranks and `connect`. Returns the best result, or
    /// `from` when there is none.
    fn link_layer<F: Fn(&str) -> Option<u32>, G: Fn(&str, &str) -> u32>(
        &mut self,
        node_id: &str,
        l: usize,
        from: &str,
        score: &F,
        rank: &G,
        lowest: u32,
        Ghost(base): Ghost<Seq<LayerModel>>,
    ) -> (r: (String, Ghost<Seq<(u32, String)>>))
        requires
            old(self)@.wf(),
            l < old(self)@.layers.len(),
            old(self)@.layers[l as int].dom().contains(node_id@),
            old(self)@.layers[l as int][node_id@].len() == 0,
            only_gains(base, old(self)@.layers, node_id@),
            links_back(old(self)@, node_id@),
            forall|s: &str| score.requires((s,)),
            forall|a: &str, b: &str| rank.requires((a, b)),
            from@ != node_id@,
            old(self)@.layers[l as int].dom().contains(from@),
            forall|k: Seq<char>|
                #[trigger] old(self)@.layers[l as int].dom().contains(k) ==> !old(self)@.layers[l as int][k].contains(node_id@),
        ensures
            final(self)@.wf(),
            final(self)@ == (GraphModel {
                layers: old(self)@.layers.update(l as int, final(self)@.layers[l as int]),
                ..old(self)@
            }),
            final(self)@.layers[l as int].dom() == old(self)@.layers[l as int].dom(),
            only_gains(base, final(self)@.layers, node_id@),
            links_back(final(self)@, node_id@),
            r.0@ != node_id@,
            old(self)@.layers[l as int].dom().contains(r.0@),
            r.0@ == next_start(r.1@, from@),
            old(self)@.ef_construction >= 1 && rates_all(*score, old(self)@.nodes()) && old(self)@.cap(l as int) >= 1
                ==> final(self)@.layers[l as int][node_id@].len() >= 1,
            linked_from(
                *score,
                *rank,
                old(self)@.layers[l as int],
                old(self)@.cap(l as int),
                node_id@,
                old(self)@.ef_construction as int,
                from@,
                r.1@,
                final(self)@.layers[l as int],
            ),
    {
        let found = self.search_layer(score, from, self.ef_construction(), l, lowest);
        let ghost layer = self@.layers[l as int];
        proof {
            if found@.len() > 0 {
                let v = views_of(found@);
                assert(v[0].1 == found@[0].1@);
                assert(found@[0].1@ == from@ || linked_in(layer, found@[0].1@));
                assert(found@[0].1@ != node_id@);
                assert(v[0].1 == from@ || layer.dom().contains(v[0].1));
            }
            if self@.ef_construction >= 1 && rates_all(*score, self@.nodes()) {
                lemma_layers_within_nodes(self@, l as int);
                assert(self@.nodes().insert(from@) =~= self@.nodes());
                assert(found@.len() > 0);
            }
        }
        let mut ids: Vec<String> = Vec::new();
        let mut i: usize = 0;
        while i < found.len()
            invariant
                i <= found.len(),
                ids@.len() == i,
                forall|j: int| 0 <= j < i ==> (#[trigger] ids@[j])@ == found@[j].1@,
            decreases found.len() - i,
        {
            ids.push(found[i].1.clone());
            i = i + 1;
        }
        let nbrs = self.select_neighbors(l, node_id, &ids);
        proof {
            if found@.len() > 0 && self@.cap(l as int) >= 1 {
                assert(ids_of(ids@)[0] == found@[0].1@);
                lemma_selected_nonempty(ids_of(ids@), node_id@, layer.dom(), self@.cap(l as int), 0);
                assert(nbrs@.len() >= 1);
            }
        }
        proof {
            let nb = ids_of(nbrs@);
            assert forall|i: int| 0 <= i < nbrs@.len() implies self@.layers[l as int].dom().contains(#[trigger] nbrs@[i]@) by {
                assert(nb[i] == nbrs@[i]@);
            }
        }
        let keys = self.rank_lists(l, node_id, &nbrs, rank);
        let ghost before = self@;
        proof {
            let nb = ids_of(nbrs@);
            let ks = key_lists(keys@);
            assert forall|i: int|
                0 <= i < nb.len() && grown(before.layers[l as int][nb[i]], node_id@).len() > before.cap(l as int)
                    implies (#[trigger] ks[i]).len() == grown(before.layers[l as int][nb[i]], node_id@).len() by {
                assert(nb[i] == nbrs@[i]@);
                assert(ks[i] == keys@[i]@);
            }
            assert(link_ok(before, l as int, node_id@, nb, ks));
        }
        self.connect(l, node_id, &nbrs, &keys);
        proof {
            lemma_link_step(before, base, l as int, node_id@, ids_of(nbrs@), key_lists(keys@), self@);
            assert(self@.layers =~= before.layers.update(l as int, self@.layers[l as int]));
        }
        proof {
            assert(self@.layers[l as int][node_id@] == ids_of(nbrs@));
            let b = found@;
            let lb = before.layers[l as int];
            let cap = before.cap(l as int);
            let ef = before.ef_construction as int;
            assert(ids_of(ids@) =~= ids_of_ranked(views_of(b)));
            let nb = selected(ids_of_ranked(views_of(b)), node_id@, lb.dom(), cap);
            assert(nb == ids_of(nbrs@));
            if deterministic(*score) && ef >= 1 {
                if b.len() == 0 {
                    lemma_unrated_entry_top(*score, lb, from, b, ef);
                }
                assert(exists|seen: Set<Seq<char>>| beam_top(*score, lb, from@, seen, b, ef));
            }
            assert(beam_ok(*score, lb, from@, views_of(b)));
            assert(link_keys(*rank, lb, node_id@, nb, key_lists(keys@), cap));
            assert(self@.layers[l as int] == connected_layer(lb, node_id@, nb, key_lists(keys@), cap));
            assert(linked_from(*score, *rank, lb, cap, node_id@, ef, from@, b, self@.layers[l as int]));
        }
        let next = if found.len() > 0 {
            found[0].1.clone()
        } else {
            from.to_owned()
        };
        (next, Ghost(found@))
    }

    /// Inserts `id` at `level` as `insert_node` does, after removing it with
    /// `remove_node` when it is already a node, so that an existing id is
    /// replaced. Returns whether it was.
    pub fn upsert_node<F: Fn(&str) -> Option<u32>, G: Fn(&str, &str) -> u32>(
        &mut self,
        id: String,
        level: usize,
        score: &F,
        rank: &G,
        lowest: u32,
    ) -> (replaced: bool)
        requires
            old(self)@.wf(),
            level < usize::MAX,
            old(self)@.total_inserts < usize::MAX,
            old(self)@.nodes().contains(id@) ==> old(self)@.total_deletes < usize::MAX,
            forall|s: &str| score.requires((s,)),
            forall|a: &str, b: &str| rank.requires((a, b)),
        ensures
            final(self)@.wf(),
            replaced == old(self)@.nodes().contains(id@),
            final(self)@.nodes() == old(self)@.nodes().insert(id@),
            final(self)@.total_inserts == old(self)@.total_inserts + 1,
            final(self)@.total_deletes == old(self)@.total_deletes + if replaced { 1int } else { 0int },
            links_back(final(self)@, id@),
            final(self)@.m == old(self)@.m,
            final(self)@.m_max_0 == old(self)@.m_max_0,
            final(self)@.ef_construction == old(self)@.ef_construction,
            final(self)@.ef_search == old(self)@.ef_search,
            final(self)@.metric == old(self)@.metric,
            final(self)@.dimension == old(self)@.dimension,
            final(self)@.layers.len() == if old(self)@.layers.len() > level + 1 { old(self)@.layers.len() as int } else { level + 1 },
            level <= MAX_LEVEL && old(self)@.layers.len() <= MAX_LEVEL + 1 ==> final(self)@.layers.len() <= MAX_LEVEL + 1,
            level <= MAX_LEVEL && history_ok(old(self)@) ==> history_ok(final(self)@),
            exists|mid: GraphModel| {
                &&& mid.wf()
                &&& mid == (GraphModel {
                    layers: if replaced { stripped(old(self)@.layers, id@) } else { old(self)@.layers },
                    entry: mid.entry,
                    entry_level: if replaced && old(self)@.entry == Some(id@) {
                        match top_nonempty(mid.layers) {
                            Some(t) => t,
                            None => 0,
                        }
                    } else {
                        old(self)@.entry_level
                    },
                    total_deletes: mid.total_deletes,
                    ..old(self)@
                })
                &&& #[trigger] links_new_node(*score, *rank, mid, id@, level as int, final(self)@)
            },
    {
        let replaced = self.contains(id.as_str());
        if replaced {
            let _ = self.remove_node(id.as_str());
            proof {
                assert(self@.nodes() =~= old(self)@.nodes().remove(id@));
            }
        }
        let ghost mid = self@;
        self.insert_node(id, level, score, rank, lowest);
        proof {
            assert(links_new_node(*score, *rank, mid, id@, level as int, self@));
            if level <= MAX_LEVEL && history_ok(old(self)@) {
                assert(self@.nodes() =~= old(self)@.nodes().insert(id@));
                lemma_upsert_keeps_count(old(self)@, self@, id@);
            }
        }
        proof {
            assert(self@.nodes() =~= old(self)@.nodes().insert(id@));
        }
        replaced
    }
}

// ---------------------------------------------------------------------------
// Laws
// ---------------------------------------------------------------------------

/// A removed id is never a query hit: hits are nodes of the graph, and
/// after `remove_node` the id is not one.
pub proof fn lemma_removed_id_not_found<F: Fn(&str) -> Option<u32>>(
    g: GraphModel,
    id: Seq<char>,
    score: F,
    hits: Seq<Ranked>,
)
    requires
        !g.nodes().contains(id),
        hits_ok(score, g.nodes(), hits),
    ensures
        forall|i: int| 0 <= i < hits.len() ==> (#[trigger] hits[i]).1 != id,
{
}

/// Inserting an id that is already a node keeps the node count (the node
/// is replaced); inserting a new id adds one.
pub proof fn lemma_upsert_count(g: GraphModel, h: GraphModel, id: Seq<char>)
    requires
        g.wf(),
        h.nodes() == g.nodes().insert(id),
    ensures
        h.nodes().len() == if g.nodes().contains(id) { g.nodes().len() } else { g.nodes().len() + 1 },
{
    if g.layers.len() > 0 {
        assert(g.layers[0].dom().finite());
    }
    if g.nodes().contains(id) {
        assert(g.nodes().insert(id) =~= g.nodes());
    }
}

/// The node count stays the number of inserts less the number of deletes:
/// `upsert_node` adds one insert and, when it replaced the id, one delete.
pub proof fn lemma_upsert_keeps_count(g: GraphModel, h: GraphModel, id: Seq<char>)
    requires
        g.wf(),
        g.nodes().len() + g.total_deletes == g.total_inserts,
        h.nodes() == g.nodes().insert(id),
        h.total_inserts == g.total_inserts + 1,
        h.total_deletes == g.total_deletes + if g.nodes().contains(id) { 1int } else { 0int },
    ensures
        h.nodes().len() + h.total_deletes == h.total_inserts,
{
    lemma_upsert_count(g, h, id);
}

/// The node count stays the number of inserts less the number of deletes
/// when `remove_node` takes out a node.
pub proof fn lemma_remove_keeps_count(g: GraphModel, h: GraphModel, id: Seq<char>)
    requires
        g.wf(),
        g.nodes().len() + g.total_deletes == g.total_inserts,
        g.nodes().contains(id),
        h.nodes() == g.nodes().remove(id),
        h.total_inserts == g.total_inserts,
        h.total_deletes == g.total_deletes + 1,
    ensures
        h.nodes().len() + h.total_deletes == h.total_inserts,
{
    if g.layers.len() > 0 {
        assert(g.layers[0].dom().finite());
    }
}


/// Re-inserting is replacing, whatever the graph's links: `upsert_node`
/// with one id on two graphs with the same nodes, counters and dimension
/// leaves graphs with the same nodes, counters and dimension (updating a
/// vector and inserting it again agree on all of these).
pub proof fn lemma_upserts_agree(g1: GraphModel, g2: GraphModel, h1: GraphModel, h2: GraphModel, id: Seq<char>)
    requires
        g1.nodes() == g2.nodes(),
        g1.total_inserts == g2.total_inserts,
        g1.total_deletes == g2.total_deletes,
        g1.dimension == g2.dimension,
        h1.nodes() == g1.nodes().insert(id),
        h2.nodes() == g2.nodes().insert(id),
        h1.total_inserts == g1.total_inserts + 1,
        h2.total_inserts == g2.total_inserts + 1,
        h1.total_deletes == g1.total_deletes + if g1.nodes().contains(id) { 1int } else { 0int },
        h2.total_deletes == g2.total_deletes + if g2.nodes().contains(id) { 1int } else { 0int },
        h1.dimension == g1.dimension,
        h2.dimension == g2.dimension,
    ensures
        h1.nodes() == h2.nodes(),
        h1.nodes().len() == h2.nodes().len(),
        h1.total_inserts == h2.total_inserts,
        h1.total_deletes == h2.total_deletes,
        h1.dimension == h2.dimension,
{
}
} // verus!
