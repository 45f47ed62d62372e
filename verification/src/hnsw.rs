//! The layered proximity graph of the HNSW index: which ids stand in which
//! layer, their neighbour lists, the entry point and the index's counters.
//!
//! Similarity scores are computed by the caller; this module decides
//! everything else and keeps the graph well formed.

use vstd::prelude::*;
use ahash::AHashMap;
use crate::adjacency::{adj_contains, adj_get, adj_insert, adj_keys, adj_len, adj_new, adj_remove, adjacency, ids_of};
use crate::types::{DistanceMetric, SolVecError};
use crate::ranking::{lemma_pruned, prune_by_rank, pruned};

verus! {

// ---------------------------------------------------------------------------
// Model
// ---------------------------------------------------------------------------

/// One layer: each node id mapped to its neighbour ids.
pub type LayerModel = Map<Seq<char>, Seq<Seq<char>>>;

/// The highest level a node is drawn at; a graph built from drawn levels
/// has at most `MAX_LEVEL + 1` layers.
pub const MAX_LEVEL: usize = 16;

/// A graph's own parts, as its getters give them, describe it again:
/// rebuilding with `from_parts` from what `m`, `m_max_0`, `ef_construction`,
/// `ef_search`, `layers`, `entry_point`, `entry_point_level`,
/// `total_inserts`, `total_deletes`, `metric` and `dimension` return gives
/// back a graph with the same model (and, the model being well formed, it
/// is accepted).
pub proof fn lemma_parts_roundtrip(
    g: GraphModel,
    m: usize,
    m_max_0: usize,
    ef_construction: usize,
    ef_search: usize,
    layers: Seq<AHashMap<String, Vec<String>>>,
    entry_point: Option<String>,
    entry_point_level: usize,
    total_inserts: usize,
    total_deletes: usize,
    metric: DistanceMetric,
    dimension: Option<usize>,
)
    requires
        m == g.m,
        m_max_0 == g.m_max_0,
        ef_construction == g.ef_construction,
        ef_search == g.ef_search,
        layer_models(layers) == g.layers,
        opt_id(entry_point) == g.entry,
        entry_point_level == g.entry_level,
        total_inserts == g.total_inserts,
        total_deletes == g.total_deletes,
        metric == g.metric,
        dimension matches Some(d) ==> g.dimension == Some(d as nat),
        dimension is None ==> g.dimension is None,
    ensures
        parts_model(
            m,
            m_max_0,
            ef_construction,
            ef_search,
            layers,
            entry_point,
            entry_point_level,
            total_inserts,
            total_deletes,
            metric,
            dimension,
        ) == g,
{
}

/// Keeps the ids other than `x`.
pub open spec fn other_than(x: Seq<char>) -> spec_fn(Seq<char>) -> bool {
    |y: Seq<char>| y != x
}

proof fn lemma_without_filter(s: Seq<Seq<char>>, x: Seq<char>)
    ensures
        without(s, x) == s.filter(other_than(x)),
    decreases s.len(),
{
    reveal(Seq::filter);
    if s.len() > 0 {
        lemma_without_filter(s.drop_last(), x);
    }
}

/// Taking `id` out of a layer keeps every other link: each node `k` of the
/// layer other than `id` stays, and its list is its old list with the
/// occurrences of `id` taken out, the other entries kept in order.
pub proof fn lemma_removal_keeps_other_links(layer: LayerModel, id: Seq<char>, k: Seq<char>)
    requires
        layer.dom().contains(k),
        k != id,
    ensures
        strip_layer(layer, id).dom().contains(k),
        strip_layer(layer, id)[k] == layer[k].filter(other_than(id)),
        forall|y: Seq<char>| y != id ==> (#[trigger] strip_layer(layer, id)[k].contains(y) <==> layer[k].contains(y)),
{
    lemma_without_filter(layer[k], id);
    lemma_without(layer[k], id);
}

/// What a graph built by `new`, `upsert_node` with capped levels and
/// `remove_node` keeps: its node count is its inserts less its deletes,
/// and it has at most `MAX_LEVEL + 1` layers.
pub open spec fn history_ok(g: GraphModel) -> bool {
    &&& g.nodes().len() + g.total_deletes == g.total_inserts
    &&& g.layers.len() <= MAX_LEVEL + 1
}

/// The statistics of a graph that keeps `history_ok`: the vector count is
/// the inserts less the deletes, there are at most `MAX_LEVEL + 1` layers,
/// and the entry level is a layer of a non-empty graph and 0 for an empty one.
pub proof fn lemma_stats_consistent(g: GraphModel)
    requires
        g.wf(),
        history_ok(g),
    ensures
        g.nodes().len() == g.total_inserts - g.total_deletes,
        g.layers.len() <= MAX_LEVEL + 1,
        !g.nodes().is_empty() ==> g.entry_level < g.layers.len(),
        g.nodes().is_empty() ==> g.entry_level == 0,
{
}

/// A node's level from the raw draw `floor(-ln(u) * ml)`: the draw itself,
/// held to at most `MAX_LEVEL`.
pub fn capped_level(raw: usize) -> (level: usize)
    ensures
        level == if raw < MAX_LEVEL { raw } else { MAX_LEVEL },
{
    if raw < MAX_LEVEL {
        raw
    } else {
        MAX_LEVEL
    }
}

/// The abstract state of a graph.
pub struct GraphModel {
    pub layers: Seq<LayerModel>,
    pub entry: Option<Seq<char>>,
    pub entry_level: nat,
    pub m: nat,
    pub m_max_0: nat,
    pub ef_construction: nat,
    pub ef_search: nat,
    pub total_inserts: nat,
    pub total_deletes: nat,
    pub metric: DistanceMetric,
    pub dimension: Option<nat>,
}

impl GraphModel {
    /// Largest neighbour list allowed in layer `l`.
    pub open spec fn cap(self, l: int) -> nat {
        if l == 0 {
            self.m_max_0
        } else {
            self.m
        }
    }

    /// The ids of the graph: those of the base layer.
    pub open spec fn nodes(self) -> Set<Seq<char>> {
        if self.layers.len() == 0 {
            Set::empty()
        } else {
            self.layers[0].dom()
        }
    }

    /// The neighbour list of `k` in layer `l` is well formed.
    pub open spec fn list_ok(self, l: int, k: Seq<char>) -> bool {
        let list = self.layers[l][k];
        &&& list.no_duplicates()
        &&& !list.contains(k)
        &&& forall|i: int| 0 <= i < list.len() ==> self.layers[l].dom().contains(#[trigger] list[i])
        &&& list.len() <= self.cap(l)
    }

    /// Every layer above `l` is empty.
    pub open spec fn empty_above(self, l: int) -> bool {
        forall|i: int| l < i < self.layers.len() ==> (#[trigger] self.layers[i]).dom().is_empty()
    }

    /// The graph invariant: finite layers, each a subset of the one below,
    /// neighbour lists within the layer, duplicate-free, without self loops
    /// and within the layer's capacity; the entry point present exactly when
    /// the graph has nodes, standing in the highest non-empty layer.
    pub open spec fn wf(self) -> bool {
        &&& forall|l: int| 0 <= l < self.layers.len() ==> (#[trigger] self.layers[l]).dom().finite()
        &&& forall|l: int|
            0 < l < self.layers.len() ==> (#[trigger] self.layers[l]).dom().subset_of(
                self.layers[l - 1].dom(),
            )
        &&& forall|l: int, k: Seq<char>|
            0 <= l < self.layers.len() && #[trigger] self.layers[l].dom().contains(k)
                ==> self.list_ok(l, k)
        &&& (self.entry is None <==> self.nodes().is_empty())
        &&& self.entry is None ==> self.entry_level == 0
        &&& self.entry matches Some(e) ==> {
            &&& self.entry_level < self.layers.len()
            &&& self.layers[self.entry_level as int].dom().contains(e)
            &&& self.empty_above(self.entry_level as int)
        }
    }
}

/// Index statistics for monitoring and debugging.
#[derive(Debug, Clone, Copy)]
pub struct IndexStats {
    pub vector_count: usize,
    pub layer_count: usize,
    pub entry_point_level: usize,
    pub dimension: usize,
    pub total_inserts: usize,
    pub total_deletes: usize,
    pub metric: DistanceMetric,
}

/// Where a query starts and how wide its base-layer beam is.
#[derive(Debug, Clone)]
pub struct SearchPlan {
    pub entry: String,
    pub entry_level: usize,
    pub ef: usize,
}

/// The layered graph of an HNSW index.
pub struct HnswGraph {
    m: usize,
    m_max_0: usize,
    ef_construction: usize,
    ef_search: usize,
    layers: Vec<AHashMap<String, Vec<String>>>,
    entry_point: Option<String>,
    entry_point_level: usize,
    total_inserts: usize,
    total_deletes: usize,
    metric: DistanceMetric,
    dimension: Option<usize>,
}

/// Views of the layers of a graph.
pub open spec fn layer_models(v: Seq<AHashMap<String, Vec<String>>>) -> Seq<LayerModel> {
    v.map_values(|m: AHashMap<String, Vec<String>>| adjacency(m))
}

/// View of an optional id.
pub open spec fn opt_id(o: Option<String>) -> Option<Seq<char>> {
    match o {
        Some(s) => Some(s@),
        None => None,
    }
}

impl View for HnswGraph {
    type V = GraphModel;

    closed spec fn view(&self) -> GraphModel {
        GraphModel {
            layers: layer_models(self.layers@),
            entry: opt_id(self.entry_point),
            entry_level: self.entry_point_level as nat,
            m: self.m as nat,
            m_max_0: self.m_max_0 as nat,
            ef_construction: self.ef_construction as nat,
            ef_search: self.ef_search as nat,
            total_inserts: self.total_inserts as nat,
            total_deletes: self.total_deletes as nat,
            metric: self.metric,
            dimension: match self.dimension {
                Some(d) => Some(d as nat),
                None => None,
            },
        }
    }
}

/// `ef_construction` clamped to `[10, 50]`: the default query beam.
pub open spec fn default_ef_search(ef_construction: int) -> int {
    if ef_construction < 10 {
        10
    } else if ef_construction > 50 {
        50
    } else {
        ef_construction
    }
}


/// `layers` extended with empty layers up to `n` layers.
pub open spec fn padded(layers: Seq<LayerModel>, n: int) -> Seq<LayerModel> {
    if layers.len() >= n {
        layers
    } else {
        layers + Seq::new((n - layers.len()) as nat, |i: int| Map::<Seq<char>, Seq<Seq<char>>>::empty())
    }
}

/// The layers after `id` joins layers `0..=level` with an empty neighbour list.
pub open spec fn added_layers(layers: Seq<LayerModel>, id: Seq<char>, level: int) -> Seq<LayerModel> {
    let p = padded(layers, level + 1);
    Seq::new(
        p.len(),
        |l: int|
            if l <= level {
                p[l].insert(id, Seq::<Seq<char>>::empty())
            } else {
                p[l]
            },
    )
}

/// `s` with every occurrence of `x` taken out.
pub open spec fn without(s: Seq<Seq<char>>, x: Seq<char>) -> Seq<Seq<char>>
    decreases s.len(),
{
    if s.len() == 0 {
        s
    } else {
        let r = without(s.drop_last(), x);
        if s.last() == x {
            r
        } else {
            r.push(s.last())
        }
    }
}

/// A layer after `id` leaves it: its entry goes and it leaves every list.
pub open spec fn strip_layer(layer: LayerModel, id: Seq<char>) -> LayerModel {
    layer.remove(id).map_values(|list: Seq<Seq<char>>| without(list, id))
}

/// The layers after `id` leaves the graph.
pub open spec fn stripped(layers: Seq<LayerModel>, id: Seq<char>) -> Seq<LayerModel> {
    layers.map_values(|m: LayerModel| strip_layer(m, id))
}

/// The highest layer with a node, if any.
pub open spec fn top_nonempty(layers: Seq<LayerModel>) -> Option<nat>
    decreases layers.len(),
{
    if layers.len() == 0 {
        None
    } else if !layers.last().dom().is_empty() {
        Some((layers.len() - 1) as nat)
    } else {
        top_nonempty(layers.drop_last())
    }
}

/// A neighbour's list after the new node links to it: the node is appended
/// if missing, and a list over `cap` keeps its `cap` best-ranked ids.
pub open spec fn grown(list: Seq<Seq<char>>, node: Seq<char>) -> Seq<Seq<char>> {
    if list.contains(node) {
        list
    } else {
        list.push(node)
    }
}

/// See `grown`; `keys` rank the grown list entry by entry.
pub open spec fn relinked(list: Seq<Seq<char>>, node: Seq<char>, keys: Seq<u32>, cap: nat) -> Seq<Seq<char>> {
    let g = grown(list, node);
    if g.len() > cap {
        pruned(g, keys, cap)
    } else {
        g
    }
}

/// A layer after `node` links to `nbrs`, the i-th of them ranked by `keys[i]`.
pub open spec fn connected_layer(
    layer: LayerModel,
    node: Seq<char>,
    nbrs: Seq<Seq<char>>,
    keys: Seq<Seq<u32>>,
    cap: nat,
) -> LayerModel {
    Map::new(
        |k: Seq<char>| layer.dom().contains(k),
        |k: Seq<char>|
            if k == node {
                nbrs
            } else if nbrs.contains(k) {
                relinked(layer[k], node, keys[nbrs.index_of(k)], cap)
            } else {
                layer[k]
            },
    )
}

/// The candidates a node may link to, in order: not the node itself, in the
/// layer, each once.
pub open spec fn eligible(c: Seq<Seq<char>>, node: Seq<char>, dom: Set<Seq<char>>) -> Seq<Seq<char>>
    decreases c.len(),
{
    if c.len() == 0 {
        seq![]
    } else {
        let r = eligible(c.drop_last(), node, dom);
        let x = c.last();
        if x != node && dom.contains(x) && !r.contains(x) {
            r.push(x)
        } else {
            r
        }
    }
}

/// The first `cap` eligible candidates.
pub open spec fn selected(c: Seq<Seq<char>>, node: Seq<char>, dom: Set<Seq<char>>, cap: nat) -> Seq<Seq<char>> {
    let e = eligible(c, node, dom);
    e.take(if cap < e.len() { cap as int } else { e.len() as int })
}

/// The graph described by stored parts.
pub open spec fn parts_model(
    m: usize,
    m_max_0: usize,
    ef_construction: usize,
    ef_search: usize,
    layers: Seq<AHashMap<String, Vec<String>>>,
    entry_point: Option<String>,
    entry_point_level: usize,
    total_inserts: usize,
    total_deletes: usize,
    metric: DistanceMetric,
    dimension: Option<usize>,
) -> GraphModel {
    GraphModel {
        layers: layer_models(layers),
        entry: opt_id(entry_point),
        entry_level: entry_point_level as nat,
        m: m as nat,
        m_max_0: m_max_0 as nat,
        ef_construction: ef_construction as nat,
        ef_search: ef_search as nat,
        total_inserts: total_inserts as nat,
        total_deletes: total_deletes as nat,
        metric,
        dimension: match dimension {
            Some(d) => Some(d as nat),
            None => None,
        },
    }
}

// ---------------------------------------------------------------------------
// Lemmas
// ---------------------------------------------------------------------------

/// In a well-formed graph every layer is contained in the base layer.
pub(crate) proof fn lemma_layers_within_nodes(g: GraphModel, l: int)
    requires
        g.wf(),
        0 <= l < g.layers.len(),
    ensures
        g.layers[l].dom().subset_of(g.nodes()),
    decreases l,
{
    if l > 0 {
        lemma_layers_within_nodes(g, l - 1);
        assert(g.layers[l].dom().subset_of(g.layers[l - 1].dom()));
    }
}


proof fn lemma_without(s: Seq<Seq<char>>, x: Seq<char>)
    ensures
        without(s, x).len() <= s.len(),
        forall|y: Seq<char>| #[trigger] without(s, x).contains(y) <==> s.contains(y) && y != x,
        s.no_duplicates() ==> without(s, x).no_duplicates(),
    decreases s.len(),
{
    if s.len() > 0 {
        let init = s.drop_last();
        lemma_without(init, x);
        let r = without(init, x);
        let w = without(s, x);
        assert(w == if s.last() == x { r } else { r.push(s.last()) });
        assert forall|y: Seq<char>| #[trigger] w.contains(y) <==> s.contains(y) && y != x by {
            if s.contains(y) && y != x {
                let k = choose|k: int| 0 <= k < s.len() && s[k] == y;
                if k < s.len() - 1 {
                    assert(init[k] == y);
                    assert(init.contains(y));
                    assert(r.contains(y));
                    let j = choose|j: int| 0 <= j < r.len() && r[j] == y;
                    assert(w[j] == y);
                } else {
                    assert(w[r.len() as int] == y);
                }
            }
            if w.contains(y) {
                let j = choose|j: int| 0 <= j < w.len() && w[j] == y;
                if j < r.len() {
                    assert(r[j] == y);
                    assert(r.contains(y));
                    assert(init.contains(y) && y != x);
                    let k = choose|k: int| 0 <= k < init.len() && init[k] == y;
                    assert(s[k] == y);
                } else {
                    assert(s.last() != x);
                    assert(s[s.len() - 1] == y);
                }
            }
        }
        if s.no_duplicates() {
            assert(init.no_duplicates()) by {
                assert forall|i: int, j: int| 0 <= i < init.len() && 0 <= j < init.len() && i != j implies init[i] != init[j] by {
                    assert(s[i] == init[i] && s[j] == init[j]);
                }
            }
            if s.last() != x {
                assert(!r.contains(s.last())) by {
                    if r.contains(s.last()) {
                        assert(init.contains(s.last()));
                        let k = choose|k: int| 0 <= k < init.len() && init[k] == s.last();
                        assert(s[k] == s[s.len() - 1]);
                    }
                }
                let w = r.push(s.last());
                assert forall|i: int, j: int| 0 <= i < w.len() && 0 <= j < w.len() && i != j implies w[i] != w[j] by {
                    if i < r.len() && j < r.len() {
                    } else if i == r.len() {
                        assert(r.contains(w[j]));
                    } else {
                        assert(r.contains(w[i]));
                    }
                }
            }
        }
    }
}

proof fn lemma_added_layers_wf(g: GraphModel, id: Seq<char>, level: int, h: GraphModel)
    requires
        g.wf(),
        !g.nodes().contains(id),
        0 <= level,
        h.layers == added_layers(g.layers, id, level),
        h.m == g.m,
        h.m_max_0 == g.m_max_0,
        g.entry is None ==> h.entry == Some(id) && h.entry_level == level,
        g.entry is Some && level > g.entry_level ==> h.entry == Some(id) && h.entry_level == level,
        g.entry is Some && level <= g.entry_level ==> h.entry == g.entry && h.entry_level == g.entry_level,
    ensures
        h.wf(),
        h.nodes() == g.nodes().insert(id),
{
    let p = padded(g.layers, level + 1);
    let hl = h.layers;
    assert(p.len() >= g.layers.len() && p.len() >= level + 1);
    assert forall|l: int| 0 <= l < p.len() implies #[trigger] p[l] == if l < g.layers.len() {
        g.layers[l]
    } else {
        Map::<Seq<char>, Seq<Seq<char>>>::empty()
    } by {}
    assert forall|l: int| 0 <= l < g.layers.len() implies !(#[trigger] g.layers[l]).dom().contains(id) by {
        lemma_layers_within_nodes(g, l);
    }
    // finite layers
    assert forall|l: int| 0 <= l < hl.len() implies (#[trigger] hl[l]).dom().finite() by {
        assert(p[l].dom().finite());
    }
    // each layer within the one below
    assert forall|l: int| 0 < l < hl.len() implies (#[trigger] hl[l]).dom().subset_of(hl[l - 1].dom()) by {
        assert(p[l].dom().subset_of(p[l - 1].dom())) by {
            if l < g.layers.len() {
                assert(g.layers[l].dom().subset_of(g.layers[l - 1].dom()));
            }
        }
    }
    // neighbour lists
    assert forall|l: int, k: Seq<char>|
        0 <= l < hl.len() && #[trigger] hl[l].dom().contains(k) implies h.list_ok(l, k) by {
        if l <= level && k == id {
            assert(hl[l][k] =~= Seq::<Seq<char>>::empty());
        } else {
            assert(l < g.layers.len());
            assert(g.layers[l].dom().contains(k));
            assert(g.list_ok(l, k));
            assert(hl[l][k] == g.layers[l][k]);
            let list = hl[l][k];
            assert forall|i: int| 0 <= i < list.len() implies hl[l].dom().contains(#[trigger] list[i]) by {
                assert(g.layers[l].dom().contains(list[i]));
            }
            assert(h.cap(l) == g.cap(l));
        }
    }
    // nodes
    assert(hl[0].dom() =~= p[0].dom().insert(id));
    if g.layers.len() > 0 {
        assert(h.nodes() =~= g.nodes().insert(id));
    } else {
        assert(p[0] == Map::<Seq<char>, Seq<Seq<char>>>::empty());
        assert(h.nodes() =~= g.nodes().insert(id));
    }
    // entry point
    assert(hl[0].dom().contains(id));
    match g.entry {
        None => {
            assert forall|i: int| level < i < hl.len() implies (#[trigger] hl[i]).dom().is_empty() by {
                if i < g.layers.len() {
                    lemma_layers_within_nodes(g, i);
                    assert(g.layers[i].dom() =~= Set::<Seq<char>>::empty());
                }
            }
            assert(hl[level].dom().contains(id));
        },
        Some(e) => {
            if level > g.entry_level {
                assert forall|i: int| level < i < hl.len() implies (#[trigger] hl[i]).dom().is_empty() by {
                    if i < g.layers.len() {
                        assert(g.layers[i].dom().is_empty());
                    }
                }
                assert(hl[level].dom().contains(id));
            } else {
                assert forall|i: int| g.entry_level < i < hl.len() implies (#[trigger] hl[i]).dom().is_empty() by {
                    assert(g.layers[i].dom().is_empty());
                }
                assert(hl[g.entry_level as int].dom().contains(e));
            }
        },
    }
}

/// Within a chain of nested layers, a node of layer `l` is a node of the base layer.
proof fn lemma_nested_within_base(layers: Seq<LayerModel>, l: int, k: Seq<char>)
    requires
        forall|i: int| 0 < i < layers.len() ==> (#[trigger] layers[i]).dom().subset_of(layers[i - 1].dom()),
        0 <= l < layers.len(),
        layers[l].dom().contains(k),
    ensures
        layers[0].dom().contains(k),
    decreases l,
{
    if l > 0 {
        assert(layers[l].dom().subset_of(layers[l - 1].dom()));
        lemma_nested_within_base(layers, l - 1, k);
    }
}

proof fn lemma_top_nonempty(layers: Seq<LayerModel>)
    ensures
        top_nonempty(layers) matches Some(t) ==> {
            &&& t < layers.len()
            &&& !layers[t as int].dom().is_empty()
            &&& forall|i: int| t < i < layers.len() ==> (#[trigger] layers[i]).dom().is_empty()
        },
        top_nonempty(layers) is None ==> forall|i: int| 0 <= i < layers.len() ==> (#[trigger] layers[i]).dom().is_empty(),
    decreases layers.len(),
{
    if layers.len() > 0 && layers.last().dom().is_empty() {
        let init = layers.drop_last();
        lemma_top_nonempty(init);
        assert forall|i: int| 0 <= i < layers.len() - 1 implies #[trigger] layers[i] == init[i] by {}
    }
}

proof fn lemma_top_nonempty_is(layers: Seq<LayerModel>, t: int)
    requires
        0 <= t < layers.len(),
        !layers[t].dom().is_empty(),
        forall|i: int| t < i < layers.len() ==> (#[trigger] layers[i]).dom().is_empty(),
    ensures
        top_nonempty(layers) == Some(t as nat),
    decreases layers.len(),
{
    if t < layers.len() - 1 {
        let init = layers.drop_last();
        assert(layers.last().dom().is_empty());
        assert forall|i: int| t < i < init.len() implies (#[trigger] init[i]).dom().is_empty() by {
            assert(init[i] == layers[i]);
        }
        assert(init[t] == layers[t]);
        lemma_top_nonempty_is(init, t);
    }
}

proof fn lemma_top_nonempty_none(layers: Seq<LayerModel>)
    requires
        forall|i: int| 0 <= i < layers.len() ==> (#[trigger] layers[i]).dom().is_empty(),
    ensures
        top_nonempty(layers) is None,
    decreases layers.len(),
{
    if layers.len() > 0 {
        let init = layers.drop_last();
        assert(layers.last().dom().is_empty());
        assert forall|i: int| 0 <= i < init.len() implies (#[trigger] init[i]).dom().is_empty() by {
            assert(init[i] == layers[i]);
        }
        lemma_top_nonempty_none(init);
    }
}

/// The keys of each neighbour, as sequences.
pub open spec fn key_lists(keys: Seq<Vec<u32>>) -> Seq<Seq<u32>> {
    keys.map_values(|k: Vec<u32>| k@)
}

/// What linking a fresh node of `layer` to `nbrs` asks of its inputs.
pub open spec fn link_ok(g: GraphModel, layer: int, node: Seq<char>, nbrs: Seq<Seq<char>>, keys: Seq<Seq<u32>>) -> bool {
    &&& 0 <= layer < g.layers.len()
    &&& g.layers[layer].dom().contains(node)
    &&& g.layers[layer][node].len() == 0
    &&& nbrs.no_duplicates()
    &&& !nbrs.contains(node)
    &&& forall|i: int| 0 <= i < nbrs.len() ==> g.layers[layer].dom().contains(#[trigger] nbrs[i])
    &&& nbrs.len() <= g.cap(layer)
    &&& keys.len() == nbrs.len()
    &&& forall|i: int|
        0 <= i < nbrs.len() && grown(g.layers[layer][nbrs[i]], node).len() > g.cap(layer)
            ==> (#[trigger] keys[i]).len() == grown(g.layers[layer][nbrs[i]], node).len()
}

proof fn lemma_connect_wf(g: GraphModel, layer: int, node: Seq<char>, nbrs: Seq<Seq<char>>, keys: Seq<Seq<u32>>, h: GraphModel)
    requires
        g.wf(),
        link_ok(g, layer, node, nbrs, keys),
        h == (GraphModel {
            layers: g.layers.update(layer, connected_layer(g.layers[layer], node, nbrs, keys, g.cap(layer))),
            ..g
        }),
    ensures
        h.wf(),
        h.nodes() == g.nodes(),
{
    let cap = g.cap(layer);
    let old_l = g.layers[layer];
    let new_l = h.layers[layer];
    assert(new_l.dom() =~= old_l.dom());
    assert forall|l: int| 0 <= l < h.layers.len() implies (#[trigger] h.layers[l]).dom() == g.layers[l].dom() by {}
    assert forall|l: int| 0 <= l < h.layers.len() implies (#[trigger] h.layers[l]).dom().finite() by {
        assert(g.layers[l].dom().finite());
    }
    assert forall|l: int| 0 < l < h.layers.len() implies (#[trigger] h.layers[l]).dom().subset_of(h.layers[l - 1].dom()) by {
        assert(g.layers[l].dom().subset_of(g.layers[l - 1].dom()));
    }
    assert forall|l: int, k: Seq<char>|
        0 <= l < h.layers.len() && #[trigger] h.layers[l].dom().contains(k) implies h.list_ok(l, k) by {
        assert(g.layers[l].dom().contains(k));
        assert(g.list_ok(l, k));
        if l == layer {
            let list = new_l[k];
            if k == node {
                assert(list == nbrs);
            } else if nbrs.contains(k) {
                let j = nbrs.index_of(k);
                let old_list = old_l[k];
                let gr = grown(old_list, node);
                assert(list == relinked(old_list, node, keys[j], cap));
                assert(gr.no_duplicates() && !gr.contains(k)) by {
                    if !old_list.contains(node) {
                        assert forall|a: int, b: int| 0 <= a < gr.len() && 0 <= b < gr.len() && a != b implies gr[a] != gr[b] by {
                            if a < old_list.len() && b < old_list.len() {
                            } else if a == old_list.len() {
                                assert(old_list.contains(gr[b]));
                            } else {
                                assert(old_list.contains(gr[a]));
                            }
                        }
                        assert(!gr.contains(k)) by {
                            if gr.contains(k) {
                                let a = choose|a: int| 0 <= a < gr.len() && gr[a] == k;
                                if a < old_list.len() {
                                    assert(old_list.contains(k));
                                }
                            }
                        }
                    }
                }
                assert forall|a: int| 0 <= a < gr.len() implies old_l.dom().contains(#[trigger] gr[a]) by {
                    if a < old_list.len() {
                        assert(old_l.dom().contains(old_list[a]));
                    }
                }
                if gr.len() > cap {
                    assert(keys[j].len() == gr.len());
                    lemma_pruned(gr, keys[j], cap);
                    assert forall|a: int| 0 <= a < list.len() implies new_l.dom().contains(#[trigger] list[a]) by {
                        assert(list.contains(list[a]));
                        assert(gr.contains(list[a]));
                        let b = choose|b: int| 0 <= b < gr.len() && gr[b] == list[a];
                        assert(old_l.dom().contains(gr[b]));
                    }
                    assert(!list.contains(k)) by {
                        if list.contains(k) {
                            assert(gr.contains(k));
                        }
                    }
                } else {
                    assert(list == gr);
                }
            } else {
                assert(list == old_l[k]);
            }
        }
    }
}

proof fn lemma_eligible(c: Seq<Seq<char>>, node: Seq<char>, dom: Set<Seq<char>>)
    ensures
        eligible(c, node, dom).no_duplicates(),
        !eligible(c, node, dom).contains(node),
        forall|i: int| 0 <= i < eligible(c, node, dom).len() ==> dom.contains(#[trigger] eligible(c, node, dom)[i]),
    decreases c.len(),
{
    if c.len() > 0 {
        let r = eligible(c.drop_last(), node, dom);
        lemma_eligible(c.drop_last(), node, dom);
        let x = c.last();
        if x != node && dom.contains(x) && !r.contains(x) {
            let e = r.push(x);
            assert forall|a: int, b: int| 0 <= a < e.len() && 0 <= b < e.len() && a != b implies e[a] != e[b] by {
                if a == r.len() {
                    assert(r.contains(e[b]));
                } else if b == r.len() {
                    assert(r.contains(e[a]));
                }
            }
            assert(!e.contains(node)) by {
                if e.contains(node) {
                    let a = choose|a: int| 0 <= a < e.len() && e[a] == node;
                    if a < r.len() {
                        assert(r.contains(node));
                    }
                }
            }
        }
    }
}

proof fn lemma_strip_wf(g: GraphModel, id: Seq<char>, h: GraphModel)
    requires
        g.wf(),
        g.nodes().contains(id),
        h.layers == stripped(g.layers, id),
        h.m == g.m,
        h.m_max_0 == g.m_max_0,
        g.entry != Some(id) ==> h.entry == g.entry && h.entry_level == g.entry_level,
        g.entry == Some(id) ==> match top_nonempty(h.layers) {
            None => h.entry is None && h.entry_level == 0,
            Some(t) => h.entry_level == t && (h.entry matches Some(e) && h.layers[t as int].dom().contains(e)),
        },
    ensures
        h.wf(),
        h.nodes() == g.nodes().remove(id),
        forall|l: int| 0 <= l < h.layers.len() ==> !(#[trigger] h.layers[l]).dom().contains(id),
        forall|l: int, k: Seq<char>|
            0 <= l < h.layers.len() && #[trigger] h.layers[l].dom().contains(k) ==> !h.layers[l][k].contains(id),
{
    let hl = h.layers;
    assert forall|l: int| 0 <= l < hl.len() implies (#[trigger] hl[l]).dom() == g.layers[l].dom().remove(id) by {
        assert(hl[l].dom() =~= g.layers[l].dom().remove(id));
    }
    assert forall|l: int| 0 <= l < hl.len() implies (#[trigger] hl[l]).dom().finite() by {
        assert(g.layers[l].dom().finite());
        assert(hl[l].dom() == g.layers[l].dom().remove(id));
    }
    assert forall|l: int| 0 < l < hl.len() implies (#[trigger] hl[l]).dom().subset_of(hl[l - 1].dom()) by {
        assert(g.layers[l].dom().subset_of(g.layers[l - 1].dom()));
        assert(hl[l].dom() == g.layers[l].dom().remove(id));
        assert(hl[l - 1].dom() == g.layers[l - 1].dom().remove(id));
    }
    assert forall|l: int, k: Seq<char>|
        0 <= l < hl.len() && #[trigger] hl[l].dom().contains(k) implies h.list_ok(l, k) && !hl[l][k].contains(id) by {
        assert(hl[l].dom() == g.layers[l].dom().remove(id));
        assert(g.layers[l].dom().contains(k));
        assert(g.list_ok(l, k));
        let old_list = g.layers[l][k];
        let list = hl[l][k];
        assert(list == without(old_list, id));
        lemma_without(old_list, id);
        assert forall|i: int| 0 <= i < list.len() implies hl[l].dom().contains(#[trigger] list[i]) by {
            assert(list.contains(list[i]));
            assert(old_list.contains(list[i]));
            let j = choose|j: int| 0 <= j < old_list.len() && old_list[j] == list[i];
            assert(g.layers[l].dom().contains(old_list[j]));
        }
        assert(h.cap(l) == g.cap(l));
    }
    assert(h.nodes() =~= g.nodes().remove(id)) by {
        assert(hl[0].dom() == g.layers[0].dom().remove(id));
    }
    lemma_top_nonempty(hl);
    if g.entry == Some(id) {
        match top_nonempty(hl) {
            None => {
                assert(hl[0].dom().is_empty());
            },
            Some(t) => {
                let e = h.entry->Some_0;
                lemma_nested_within_base(hl, t as int, e);
                assert(h.nodes().contains(e));
            },
        }
    } else {
        match g.entry {
            None => {},
            Some(e) => {
                let lv = g.entry_level as int;
                assert(hl[lv].dom() == g.layers[lv].dom().remove(id));
                assert(hl[lv].dom().contains(e));
                lemma_nested_within_base(hl, lv, e);
                assert(h.nodes().contains(e));
                assert forall|i: int| lv < i < hl.len() implies (#[trigger] hl[i]).dom().is_empty() by {
                    assert(g.layers[i].dom().is_empty());
                    assert(hl[i].dom() == g.layers[i].dom().remove(id));
                }
            },
        }
    }
}

/// `list` without `id`.
fn list_without(list: &Vec<String>, id: &String) -> (out: Vec<String>)
    ensures
        ids_of(out@) == without(ids_of(list@), id@),
{
    let mut out: Vec<String> = Vec::new();
    let mut i: usize = 0;
    while i < list.len()
        invariant
            i <= list.len(),
            ids_of(out@) == without(ids_of(list@).take(i as int), id@),
        decreases list.len() - i,
    {
        let ghost prefix = ids_of(list@).take(i + 1);
        assert(prefix.drop_last() =~= ids_of(list@).take(i as int));
        assert(prefix.last() == list@[i as int]@);
        if list[i] != *id {
            out.push(list[i].clone());
            assert(ids_of(out@) =~= without(prefix, id@));
        }
        i = i + 1;
    }
    assert(ids_of(list@).take(i as int) =~= ids_of(list@));
    out
}

/// Takes `id` out of a layer: its entry and its occurrences in every list.
fn strip_id(m: &mut AHashMap<String, Vec<String>>, id: &String)
    ensures
        adjacency(*final(m)) == strip_layer(adjacency(*old(m)), id@),
{
    let _ = adj_remove(m, id.as_str());
    let ghost m1 = adjacency(*m);
    let keys = adj_keys(m);
    let ghost ks = ids_of(keys@);
    let mut i: usize = 0;
    while i < keys.len()
        invariant
            i <= keys.len(),
            ks == ids_of(keys@),
            ks.no_duplicates(),
            ks.to_set() == m1.dom(),
            adjacency(*m).dom() == m1.dom(),
            forall|k: Seq<char>|
                #[trigger] m1.dom().contains(k) ==> adjacency(*m)[k] == if ks.take(i as int).contains(k) {
                    without(m1[k], id@)
                } else {
                    m1[k]
                },
        decreases keys.len() - i,
    {
        let k = &keys[i];
        proof {
            assert(ks[i as int] == k@);
            assert(ks.to_set().contains(k@));
            assert(!ks.take(i as int).contains(k@)) by {
                if ks.take(i as int).contains(k@) {
                    let t0 = ks.take(i as int);
                    let j = choose|j: int| 0 <= j < t0.len() && t0[j] == k@;
                    assert(ks[j] == ks[i as int]);
                }
            }
        }
        let ghost before = adjacency(*m);
        match adj_remove(m, k.as_str()) {
            Some(list) => {
                let f = list_without(&list, id);
                adj_insert(m, k.clone(), f);
            },
            None => {},
        }
        proof {
            assert(adjacency(*m).dom() =~= m1.dom());
            assert forall|q: Seq<char>| #[trigger] m1.dom().contains(q) implies adjacency(*m)[q] == if ks.take(i + 1).contains(q) {
                without(m1[q], id@)
            } else {
                m1[q]
            } by {
                if q == k@ {
                    assert(ks.take(i + 1)[i as int] == q);
                } else {
                    let t1 = ks.take(i + 1);
                    let t0 = ks.take(i as int);
                    assert(t1.contains(q) == t0.contains(q)) by {
                        if t1.contains(q) {
                            let j = choose|j: int| 0 <= j < t1.len() && t1[j] == q;
                            assert(j != i);
                            assert(t0[j] == q);
                        }
                        if t0.contains(q) {
                            let j = choose|j: int| 0 <= j < t0.len() && t0[j] == q;
                            assert(t1[j] == q);
                        }
                    }
                }
            }
        }
        i = i + 1;
    }
    proof {
        assert(ks.take(i as int) =~= ks);
        assert forall|q: Seq<char>| #[trigger] m1.dom().contains(q) implies ks.contains(q) by {
            assert(ks.to_set().contains(q));
        }
        assert(adjacency(*m) =~= strip_layer(adjacency(*old(m)), id@));
    }
}

/// Whether `list` holds `x`.
pub(crate) fn list_contains(list: &Vec<String>, x: &String) -> (b: bool)
    ensures
        b == ids_of(list@).contains(x@),
{
    let mut i: usize = 0;
    while i < list.len()
        invariant
            i <= list.len(),
            forall|j: int| 0 <= j < i ==> list@[j]@ != x@,
        decreases list.len() - i,
    {
        if list[i] == *x {
            assert(ids_of(list@)[i as int] == x@);
            return true;
        }
        i = i + 1;
    }
    assert forall|j: int| 0 <= j < ids_of(list@).len() implies ids_of(list@)[j] != x@ by {
        assert(ids_of(list@)[j] == list@[j]@);
    }
    false
}

/// A copy of a list of ids.
fn copy_ids(list: &Vec<String>) -> (out: Vec<String>)
    ensures
        ids_of(out@) == ids_of(list@),
{
    let mut out: Vec<String> = Vec::new();
    let mut i: usize = 0;
    while i < list.len()
        invariant
            i <= list.len(),
            ids_of(out@) == ids_of(list@).take(i as int),
        decreases list.len() - i,
    {
        let ghost before = ids_of(out@);
        let s = list[i].clone();
        out.push(s);
        assert(ids_of(out@) =~= before.push(s@));
        assert(ids_of(out@) =~= ids_of(list@).take(i + 1));
        i = i + 1;
    }
    assert(ids_of(list@).take(i as int) =~= ids_of(list@));
    out
}

/// Whether the ids of `list` are pairwise distinct.
fn distinct_ids(list: &Vec<String>) -> (b: bool)
    ensures
        b == ids_of(list@).no_duplicates(),
{
    let ghost v = ids_of(list@);
    let mut i: usize = 0;
    while i < list.len()
        invariant
            i <= list.len(),
            v == ids_of(list@),
            forall|a: int, b: int| 0 <= a < b < i ==> v[a] != v[b],
        decreases list.len() - i,
    {
        let mut j: usize = 0;
        while j < i
            invariant
                j <= i < list.len(),
                v == ids_of(list@),
                forall|a: int, b: int| 0 <= a < b < i ==> v[a] != v[b],
                forall|a: int| 0 <= a < j ==> v[a] != v[i as int],
            decreases i - j,
        {
            if list[j] == list[i] {
                assert(v[j as int] == v[i as int]);
                return false;
            }
            j = j + 1;
        }
        i = i + 1;
    }
    assert forall|a: int, b: int| 0 <= a < v.len() && 0 <= b < v.len() && a != b implies v[a] != v[b] by {
        if a > b {
            assert(v[b] != v[a]);
        }
    }
    true
}

/// Whether the neighbour list `list` of `k` is well formed in a layer with
/// adjacency `m` and capacity `cap`.
fn list_ok_in(m: &AHashMap<String, Vec<String>>, cap: usize, k: &String, list: &Vec<String>) -> (b: bool)
    ensures
        b == ({
            let v = ids_of(list@);
            &&& v.no_duplicates()
            &&& !v.contains(k@)
            &&& forall|i: int| 0 <= i < v.len() ==> adjacency(*m).dom().contains(#[trigger] v[i])
            &&& v.len() <= cap
        }),
{
    let ghost v = ids_of(list@);
    if list.len() > cap {
        return false;
    }
    if !distinct_ids(list) {
        return false;
    }
    if list_contains(list, k) {
        return false;
    }
    let mut i: usize = 0;
    while i < list.len()
        invariant
            i <= list.len(),
            v == ids_of(list@),
            forall|a: int| 0 <= a < i ==> adjacency(*m).dom().contains(#[trigger] v[a]),
        decreases list.len() - i,
    {
        if !adj_contains(m, list[i].as_str()) {
            assert(v[i as int] == list@[i as int]@);
            return false;
        }
        i = i + 1;
    }
    true
}

/// Whether every neighbour list of the layer `m` (capacity `cap`) is well formed.
fn layer_lists_ok(m: &AHashMap<String, Vec<String>>, cap: usize) -> (b: bool)
    ensures
        adjacency(*m).dom().finite(),
        b == forall|k: Seq<char>| #[trigger] adjacency(*m).dom().contains(k) ==> ({
            let v = adjacency(*m)[k];
            &&& v.no_duplicates()
            &&& !v.contains(k)
            &&& forall|i: int| 0 <= i < v.len() ==> adjacency(*m).dom().contains(#[trigger] v[i])
            &&& v.len() <= cap
        }),
{
    let keys = adj_keys(m);
    let ghost ks = ids_of(keys@);
    proof {
        vstd::seq_lib::seq_to_set_is_finite(ks);
    }
    let mut i: usize = 0;
    while i < keys.len()
        invariant
            i <= keys.len(),
            ks == ids_of(keys@),
            ks.to_set() == adjacency(*m).dom(),
            adjacency(*m).dom().finite(),
            forall|a: int| 0 <= a < i ==> ({
                let k = #[trigger] ks[a];
                let v = adjacency(*m)[k];
                &&& v.no_duplicates()
                &&& !v.contains(k)
                &&& forall|j: int| 0 <= j < v.len() ==> adjacency(*m).dom().contains(#[trigger] v[j])
                &&& v.len() <= cap
            }),
        decreases keys.len() - i,
    {
        let k = &keys[i];
        proof {
            assert(ks[i as int] == k@);
            assert(ks.contains(k@));
        }
        match adj_get(m, k.as_str()) {
            Some(list) => {
                if !list_ok_in(m, cap, k, list) {
                    return false;
                }
            },
            None => {
                return false;
            },
        }
        i = i + 1;
    }
    assert forall|k: Seq<char>| #[trigger] adjacency(*m).dom().contains(k) implies ({
        let v = adjacency(*m)[k];
        &&& v.no_duplicates()
        &&& !v.contains(k)
        &&& forall|j: int| 0 <= j < v.len() ==> adjacency(*m).dom().contains(#[trigger] v[j])
        &&& v.len() <= cap
    }) by {
        assert(ks.to_set().contains(k));
        let a = choose|a: int| 0 <= a < ks.len() && ks[a] == k;
    }
    true
}

/// Whether every key of `upper` is a key of `lower`.
fn layer_within(upper: &AHashMap<String, Vec<String>>, lower: &AHashMap<String, Vec<String>>) -> (b: bool)
    ensures
        b == adjacency(*upper).dom().subset_of(adjacency(*lower).dom()),
{
    let keys = adj_keys(upper);
    let ghost ks = ids_of(keys@);
    let mut i: usize = 0;
    while i < keys.len()
        invariant
            i <= keys.len(),
            ks == ids_of(keys@),
            ks.to_set() == adjacency(*upper).dom(),
            forall|a: int| 0 <= a < i ==> adjacency(*lower).dom().contains(#[trigger] ks[a]),
        decreases keys.len() - i,
    {
        if !adj_contains(lower, keys[i].as_str()) {
            proof {
                assert(ks[i as int] == keys@[i as int]@);
                assert(ks.contains(ks[i as int]));
            }
            return false;
        }
        i = i + 1;
    }
    assert forall|k: Seq<char>| adjacency(*upper).dom().contains(k) implies adjacency(*lower).dom().contains(k) by {
        assert(ks.to_set().contains(k));
        let a = choose|a: int| 0 <= a < ks.len() && ks[a] == k;
    }
    true
}

proof fn lemma_without_absent(s: Seq<Seq<char>>, x: Seq<char>)
    requires
        !s.contains(x),
    ensures
        without(s, x) == s,
    decreases s.len(),
{
    if s.len() > 0 {
        let init = s.drop_last();
        assert(!init.contains(x)) by {
            if init.contains(x) {
                let k = choose|k: int| 0 <= k < init.len() && init[k] == x;
                assert(s[k] == x);
            }
        }
        lemma_without_absent(init, x);
        assert(s.last() != x) by {
            assert(s[s.len() - 1] == s.last());
        }
        assert(init.push(s.last()) =~= s);
    }
}

// ---------------------------------------------------------------------------
// Laws
// ---------------------------------------------------------------------------

/// Adding an id that is not a node and then removing it gives back every
/// layer as it was (layers created for the id stay, empty).
pub proof fn lemma_add_then_remove(g: GraphModel, id: Seq<char>, level: int)
    requires
        g.wf(),
        !g.nodes().contains(id),
        0 <= level,
    ensures
        stripped(added_layers(g.layers, id, level), id) == padded(g.layers, level + 1),
{
    let p = padded(g.layers, level + 1);
    let a = added_layers(g.layers, id, level);
    let r = stripped(a, id);
    assert forall|l: int| 0 <= l < p.len() implies #[trigger] r[l] == p[l] by {
        let dom_ok = !p[l].dom().contains(id);
        if l < g.layers.len() {
            lemma_layers_within_nodes(g, l);
            assert(p[l] == g.layers[l]);
        } else {
            assert(p[l] == Map::<Seq<char>, Seq<Seq<char>>>::empty());
        }
        assert(dom_ok);
        let base = if l <= level { p[l].insert(id, Seq::<Seq<char>>::empty()) } else { p[l] };
        assert(a[l] == base);
        assert(base.remove(id) =~= p[l]);
        assert forall|k: Seq<char>| #[trigger] p[l].dom().contains(k) implies without(p[l][k], id) == p[l][k] by {
            assert(l < g.layers.len());
            assert(g.list_ok(l, k));
            assert(!p[l][k].contains(id)) by {
                if p[l][k].contains(id) {
                    let i = choose|i: int| 0 <= i < p[l][k].len() && p[l][k][i] == id;
                    assert(g.layers[l].dom().contains(p[l][k][i]));
                }
            }
            lemma_without_absent(p[l][k], id);
        }
        assert(r[l] =~= p[l]);
    }
    assert(r =~= p);
}

/// In a well-formed graph (which every operation keeps) each neighbour list
/// holds at most the layer's maximum connections per node (`m_max_0` in the
/// base layer, `m` above), and each id of any layer is a node of the graph.
pub proof fn lemma_capacity_bound(g: GraphModel, l: int, k: Seq<char>)
    requires
        g.wf(),
        0 <= l < g.layers.len(),
        g.layers[l].dom().contains(k),
    ensures
        g.layers[l][k].len() <= if l == 0 { g.m_max_0 } else { g.m },
        g.nodes().contains(k),
{
    assert(g.list_ok(l, k));
    lemma_layers_within_nodes(g, l);
}

// ---------------------------------------------------------------------------
// Queries of the state
// ---------------------------------------------------------------------------

impl HnswGraph {
    /// An empty graph. `m` is raised to at least 2 and is the most
    /// neighbours a node has in every layer, the base layer included; the
    /// query beam starts at `ef_construction` clamped to `[10, 50]`.
    pub fn new(m: usize, ef_construction: usize, metric: DistanceMetric) -> (g: Self)
        ensures
            g@.wf(),
            g@.m == if m < 2 { 2 } else { m },
            g@.m_max_0 == g@.m,
            g@.ef_construction == ef_construction,
            g@.ef_search == default_ef_search(ef_construction as int),
            g@.layers.len() == 0,
            g@.entry is None,
            g@.entry_level == 0,
            g@.total_inserts == 0,
            g@.total_deletes == 0,
            g@.metric == metric,
            g@.dimension is None,
            history_ok(g@),
    {
        let m = if m < 2 { 2 } else { m };
        let ef_search = if ef_construction < 10 {
            10
        } else if ef_construction > 50 {
            50
        } else {
            ef_construction
        };
        let g = HnswGraph {
            m,
            m_max_0: m,
            ef_construction,
            ef_search,
            layers: Vec::new(),
            entry_point: None,
            entry_point_level: 0,
            total_inserts: 0,
            total_deletes: 0,
            metric,
            dimension: None,
        };
        assert(g@.layers =~= Seq::<LayerModel>::empty());
        g
    }

    /// Sets the query beam width, at least 1.
    pub fn set_ef_search(&mut self, ef: usize)
        ensures
            final(self)@ == (GraphModel {
                ef_search: if ef < 1 { 1 } else { ef as nat },
                ..old(self)@
            }),
    {
        self.ef_search = if ef < 1 { 1 } else { ef };
    }

    /// Number of nodes.
    pub fn len(&self) -> (n: usize)
        requires
            self@.wf(),
        ensures
            n == self@.nodes().len(),
    {
        if self.layers.len() == 0 {
            0
        } else {
            adj_len(&self.layers[0])
        }
    }

    /// Whether the graph has no nodes.
    pub fn is_empty(&self) -> (b: bool)
        requires
            self@.wf(),
        ensures
            b == self@.nodes().is_empty(),
    {
        proof {
            if self@.layers.len() > 0 {
                assert(self@.layers[0].dom().finite());
            }
        }
        self.len() == 0
    }

    /// Whether `id` is a node of the graph.
    pub fn contains(&self, id: &str) -> (b: bool)
        ensures
            b == self@.nodes().contains(id@),
    {
        if self.layers.len() == 0 {
            false
        } else {
            adj_contains(&self.layers[0], id)
        }
    }

    /// The neighbour list of `id` in layer `layer`, if `id` stands there.
    pub fn neighbors(&self, layer: usize, id: &str) -> (r: Option<&Vec<String>>)
        ensures
            r is Some <==> layer < self@.layers.len() && self@.layers[layer as int].dom().contains(id@),
            r matches Some(v) ==> ids_of(v@) == self@.layers[layer as int][id@],
    {
        if layer < self.layers.len() {
            adj_get(&self.layers[layer], id)
        } else {
            None
        }
    }

    /// The distance metric.
    pub fn metric(&self) -> (r: DistanceMetric)
        ensures
            r == self@.metric,
    {
        self.metric
    }

    /// Max connections per node in the upper layers.
    pub fn m(&self) -> (r: usize)
        ensures
            r == self@.m,
    {
        self.m
    }

    /// Max connections per node in the base layer.
    pub fn m_max_0(&self) -> (r: usize)
        ensures
            r == self@.m_max_0,
    {
        self.m_max_0
    }

    /// Beam width while building.
    pub fn ef_construction(&self) -> (r: usize)
        ensures
            r == self@.ef_construction,
    {
        self.ef_construction
    }

    /// Beam width while querying.
    pub fn ef_search(&self) -> (r: usize)
        ensures
            r == self@.ef_search,
    {
        self.ef_search
    }

    /// Number of layers (including empty ones above the entry point).
    pub fn layer_count(&self) -> (r: usize)
        ensures
            r == self@.layers.len(),
    {
        self.layers.len()
    }

    /// The entry point, if the graph has nodes.
    pub fn entry_point(&self) -> (r: Option<&String>)
        ensures
            r is Some <==> self@.entry is Some,
            r matches Some(e) ==> self@.entry == Some(e@),
    {
        self.entry_point.as_ref()
    }

    /// The layer of the entry point.
    pub fn entry_point_level(&self) -> (r: usize)
        ensures
            r == self@.entry_level,
    {
        self.entry_point_level
    }

    /// The dimension fixed by the first insertion.
    pub fn dimension(&self) -> (r: Option<usize>)
        ensures
            r matches Some(d) ==> self@.dimension == Some(d as nat),
            r is None ==> self@.dimension is None,
    {
        self.dimension
    }

    /// Number of insertions so far.
    pub fn total_inserts(&self) -> (r: usize)
        ensures
            r == self@.total_inserts,
    {
        self.total_inserts
    }

    /// Number of deletions so far.
    pub fn total_deletes(&self) -> (r: usize)
        ensures
            r == self@.total_deletes,
    {
        self.total_deletes
    }

    /// The layers, base layer first (for persistence).
    pub fn layers(&self) -> (r: &Vec<AHashMap<String, Vec<String>>>)
        ensures
            layer_models(r@) == self@.layers,
    {
        &self.layers
    }

    /// Statistics about the graph.
    pub fn stats(&self) -> (s: IndexStats)
        requires
            self@.wf(),
        ensures
            s.vector_count == self@.nodes().len(),
            s.layer_count == self@.layers.len(),
            s.entry_point_level == self@.entry_level,
            s.dimension == match self@.dimension {
                Some(d) => d,
                None => 0,
            },
            s.total_inserts == self@.total_inserts,
            s.total_deletes == self@.total_deletes,
            s.metric == self@.metric,
    {
        IndexStats {
            vector_count: self.len(),
            layer_count: self.layers.len(),
            entry_point_level: self.entry_point_level,
            dimension: match self.dimension {
                Some(d) => d,
                None => 0,
            },
            total_inserts: self.total_inserts,
            total_deletes: self.total_deletes,
            metric: self.metric,
        }
    }

    /// Fixes the dimension on the first insertion, and rejects a vector of
    /// another dimension afterwards.
    pub fn check_dimension(&mut self, actual: usize) -> (r: Result<(), SolVecError>)
        ensures
            old(self)@.dimension matches Some(d) && d != actual ==> {
                &&& r == Err::<(), SolVecError>(
                    SolVecError::DimensionMismatch {
                        expected: old(self)@.dimension->Some_0 as usize,
                        actual,
                    },
                )
                &&& final(self)@ == old(self)@
            },
            !(old(self)@.dimension matches Some(d) && d != actual) ==> {
                &&& r is Ok
                &&& final(self)@ == (GraphModel { dimension: Some(actual as nat), ..old(self)@ })
            },
    {
        match self.dimension {
            Some(d) => {
                if d != actual {
                    return Err(SolVecError::DimensionMismatch { expected: d, actual });
                }
                Ok(())
            },
            None => {
                self.dimension = Some(actual);
                Ok(())
            },
        }
    }

    /// Checks a query and decides where it starts: an error for `top_k == 0`
    /// or a query of the wrong dimension, `None` when the graph is empty,
    /// otherwise the entry point, its layer and the beam
    /// `max(ef_search, top_k)`.
    pub fn plan_query(&self, query_len: usize, top_k: usize) -> (r: Result<Option<SearchPlan>, SolVecError>)
        requires
            self@.wf(),
        ensures
            top_k == 0 ==> r == Err::<Option<SearchPlan>, SolVecError>(SolVecError::InvalidTopK(0)),
            top_k != 0 && self@.nodes().is_empty() ==> r == Ok::<Option<SearchPlan>, SolVecError>(None),
            top_k != 0 && !self@.nodes().is_empty() && (self@.dimension matches Some(d) && d != query_len) ==>
                r == Err::<Option<SearchPlan>, SolVecError>(SolVecError::DimensionMismatch {
                    expected: self@.dimension->Some_0 as usize,
                    actual: query_len,
                }),
            top_k != 0 && !self@.nodes().is_empty() && !(self@.dimension matches Some(d) && d != query_len) ==> (
            r matches Ok(Some(p)) && {
                &&& Some(p.entry@) == self@.entry
                &&& p.entry_level == self@.entry_level
                &&& p.ef == if self@.ef_search < top_k { top_k as nat } else { self@.ef_search }
            }),
    {
        if top_k == 0 {
            return Err(SolVecError::InvalidTopK(top_k));
        }
        if self.is_empty() {
            return Ok(None);
        }
        if let Some(dim) = self.dimension {
            if query_len != dim {
                return Err(SolVecError::DimensionMismatch { expected: dim, actual: query_len });
            }
        }
        match &self.entry_point {
            Some(ep) => Ok(
                Some(
                    SearchPlan {
                        entry: ep.clone(),
                        entry_level: self.entry_point_level,
                        ef: if self.ef_search < top_k { top_k } else { self.ef_search },
                    },
                ),
            ),
            None => Ok(None),
        }
    }

    /// Adds `id` (not yet a node) to layers `0..=level` with an empty
    /// neighbour list, creating missing layers. An empty graph takes `id` as
    /// its entry point; otherwise `id` becomes the entry point when `level`
    /// is above the current one. Returns the entry point and its layer as
    /// they were before, from which the new node is to be linked.
    pub fn add_node(&mut self, id: String, level: usize) -> (prev: Option<(String, usize)>)
        requires
            old(self)@.wf(),
            !old(self)@.nodes().contains(id@),
            level < usize::MAX,
            old(self)@.total_inserts < usize::MAX,
        ensures
            final(self)@.wf(),
            final(self)@.nodes() == old(self)@.nodes().insert(id@),
            prev is Some <==> old(self)@.entry is Some,
            prev matches Some(p) ==> old(self)@.entry == Some(p.0@) && p.1 == old(self)@.entry_level,
            final(self)@ == (GraphModel {
                layers: added_layers(old(self)@.layers, id@, level as int),
                entry: if old(self)@.entry is None || level > old(self)@.entry_level {
                    Some(id@)
                } else {
                    old(self)@.entry
                },
                entry_level: if old(self)@.entry is None || level > old(self)@.entry_level {
                    level as nat
                } else {
                    old(self)@.entry_level
                },
                total_inserts: old(self)@.total_inserts + 1,
                ..old(self)@
            }),
    {
        let ghost g0 = self@;
        let ghost p = padded(g0.layers, level + 1);
        while self.layers.len() <= level
            invariant
                level < usize::MAX,
                g0.layers.len() <= self.layers@.len(),
                self.layers@.len() <= g0.layers.len() || self.layers@.len() <= level + 1,
                layer_models(self.layers@) == padded(g0.layers, self.layers@.len() as int),
                self@ == (GraphModel { layers: self@.layers, ..g0 }),
            decreases level + 1 - self.layers.len(),
        {
            let ghost before = layer_models(self.layers@);
            let fresh = adj_new();
            self.layers.push(fresh);
            proof {
                assert(layer_models(self.layers@) =~= before.push(adjacency(fresh)));
                assert(layer_models(self.layers@) =~= padded(g0.layers, self.layers@.len() as int));
            }
        }
        assert(layer_models(self.layers@) =~= p);
        let mut l: usize = 0;
        while l <= level
            invariant
                level < usize::MAX,
                self.layers@.len() == p.len(),
                p.len() >= level + 1,
                l <= level + 1,
                self@ == (GraphModel { layers: self@.layers, ..g0 }),
                forall|j: int|
                    0 <= j < p.len() ==> #[trigger] layer_models(self.layers@)[j] == if j < l {
                        p[j].insert(id@, Seq::<Seq<char>>::empty())
                    } else {
                        p[j]
                    },
            decreases level + 1 - l,
        {
            let fresh: Vec<String> = Vec::new();
            let ghost before = self.layers@;
            adj_insert(&mut self.layers[l], id.clone(), fresh);
            proof {
                assert(ids_of(fresh@) =~= Seq::<Seq<char>>::empty());
                assert(self.layers@ == before.update(l as int, self.layers@[l as int]));
                assert forall|j: int| 0 <= j < p.len() implies #[trigger] layer_models(self.layers@)[j] == if j < l + 1 {
                    p[j].insert(id@, Seq::<Seq<char>>::empty())
                } else {
                    p[j]
                } by {
                    if j != l {
                        assert(self.layers@[j] == before[j]);
                        assert(layer_models(before)[j] == adjacency(before[j]));
                    } else {
                        assert(layer_models(before)[j] == adjacency(before[j]));
                        assert(adjacency(before[j]) == p[j]);
                        assert(layer_models(self.layers@)[j] == adjacency(self.layers@[j]));
                    }
                }
            }
            l = l + 1;
        }
        assert(layer_models(self.layers@) =~= added_layers(g0.layers, id@, level as int));
        let prev = match &self.entry_point {
            Some(e) => Some((e.clone(), self.entry_point_level)),
            None => None,
        };
        if self.entry_point.is_none() || level > self.entry_point_level {
            self.entry_point = Some(id);
            self.entry_point_level = level;
        }
        self.total_inserts = self.total_inserts + 1;
        proof {
            lemma_added_layers_wf(g0, id@, level as int, self@);
        }
        prev
    }


    /// The first key, in iteration order, of the highest non-empty layer.
    fn top_layer_node(&self) -> (r: Option<(String, usize)>)
        ensures
            match top_nonempty(self@.layers) {
                None => r is None,
                Some(t) => r matches Some(p) && p.1 == t && self@.layers[t as int].dom().contains(p.0@),
            },
    {
        proof {
            lemma_top_nonempty(self@.layers);
        }
        let mut l = self.layers.len();
        while l > 0
            invariant
                l <= self.layers@.len(),
                forall|i: int| l <= i < self.layers@.len() ==> (#[trigger] self@.layers[i]).dom().is_empty(),
            decreases l,
        {
            let keys = adj_keys(&self.layers[l - 1]);
            if keys.len() > 0 {
                proof {
                    assert(ids_of(keys@)[0] == keys@[0]@);
                    assert(ids_of(keys@).contains(keys@[0]@));
                    assert(ids_of(keys@).to_set().contains(keys@[0]@));
                    assert(self@.layers[l - 1] == adjacency(self.layers@[l - 1]));
                    lemma_top_nonempty_is(self@.layers, (l - 1) as int);
                }
                return Some((keys[0].clone(), l - 1));
            }
            proof {
                assert(self@.layers[l - 1] == adjacency(self.layers@[l - 1]));
                assert(self@.layers[l - 1].dom() =~= Set::<Seq<char>>::empty());
            }
            l = l - 1;
        }
        proof {
            lemma_top_nonempty_none(self@.layers);
        }
        None
    }

    /// Removes `id` from every layer and every neighbour list. When `id` was
    /// the entry point, the entry point moves to some node of the highest
    /// layer that still has one (the first in that layer's iteration order),
    /// or disappears when the graph becomes empty. An id that is not a node is
    /// reported as not found and changes nothing.
    pub fn remove_node(&mut self, id: &str) -> (r: Result<(), SolVecError>)
        requires
            old(self)@.wf(),
            old(self)@.total_deletes < usize::MAX,
        ensures
            final(self)@.wf(),
            !old(self)@.nodes().contains(id@) ==> final(self)@ == old(self)@ && (r matches Err(
                SolVecError::VectorNotFound(s),
            ) && s@ == id@),
            old(self)@.nodes().contains(id@) ==> {
                &&& r is Ok
                &&& final(self)@.layers == stripped(old(self)@.layers, id@)
                &&& final(self)@.nodes() == old(self)@.nodes().remove(id@)
                &&& forall|l: int| 0 <= l < final(self)@.layers.len() ==> !(#[trigger] final(self)@.layers[l]).dom().contains(id@)
                &&& forall|l: int, k: Seq<char>|
                    0 <= l < final(self)@.layers.len() && #[trigger] final(self)@.layers[l].dom().contains(k)
                        ==> !final(self)@.layers[l][k].contains(id@)
                &&& forall|l: int, k: Seq<char>|
                    0 <= l < old(self)@.layers.len() && #[trigger] old(self)@.layers[l].dom().contains(k) && k != id@ ==> {
                        &&& final(self)@.layers[l].dom().contains(k)
                        &&& final(self)@.layers[l][k] == old(self)@.layers[l][k].filter(other_than(id@))
                    }
                &&& final(self)@.total_deletes == old(self)@.total_deletes + 1
                &&& old(self)@.entry != Some(id@) ==> final(self)@.entry == old(self)@.entry
                    && final(self)@.entry_level == old(self)@.entry_level
                &&& old(self)@.entry == Some(id@) ==> match top_nonempty(final(self)@.layers) {
                    None => final(self)@.entry is None && final(self)@.entry_level == 0,
                    Some(t) => final(self)@.entry_level == t && (final(self)@.entry matches Some(e)
                        && final(self)@.layers[t as int].dom().contains(e)),
                }
                &&& final(self)@ == (GraphModel {
                    layers: final(self)@.layers,
                    entry: final(self)@.entry,
                    entry_level: final(self)@.entry_level,
                    total_deletes: final(self)@.total_deletes,
                    ..old(self)@
                })
            },
            history_ok(old(self)@) ==> history_ok(final(self)@),
    {
        if !self.contains(id) {
            return Err(SolVecError::VectorNotFound(id.to_owned()));
        }
        let ghost g0 = self@;
        let id_s = id.to_owned();
        let mut l: usize = 0;
        while l < self.layers.len()
            invariant
                l <= self.layers@.len(),
                self.layers@.len() == g0.layers.len(),
                id_s@ == id@,
                self@ == (GraphModel { layers: self@.layers, ..g0 }),
                forall|j: int|
                    0 <= j < g0.layers.len() ==> #[trigger] self@.layers[j] == if j < l {
                        strip_layer(g0.layers[j], id@)
                    } else {
                        g0.layers[j]
                    },
            decreases self.layers.len() - l,
        {
            let ghost before = self.layers@;
            strip_id(&mut self.layers[l], &id_s);
            proof {
                assert forall|j: int| 0 <= j < g0.layers.len() implies #[trigger] self@.layers[j] == if j < l + 1 {
                    strip_layer(g0.layers[j], id@)
                } else {
                    g0.layers[j]
                } by {
                    assert(self@.layers[j] == adjacency(self.layers@[j]));
                    assert(layer_models(before)[j] == adjacency(before[j]));
                    if j != l {
                        assert(self.layers@[j] == before[j]);
                    }
                }
            }
            l = l + 1;
        }
        assert(self@.layers =~= stripped(g0.layers, id@));
        self.total_deletes = self.total_deletes + 1;
        let was_entry = match &self.entry_point {
            Some(e) => *e == id_s,
            None => false,
        };
        if was_entry {
            match self.top_layer_node() {
                Some((k, lv)) => {
                    self.entry_point = Some(k);
                    self.entry_point_level = lv;
                },
                None => {
                    self.entry_point = None;
                    self.entry_point_level = 0;
                },
            }
        }
        proof {
            lemma_strip_wf(g0, id@, self@);
            assert forall|l: int, k: Seq<char>|
                0 <= l < g0.layers.len() && #[trigger] g0.layers[l].dom().contains(k) && k != id@ implies {
                    &&& self@.layers[l].dom().contains(k)
                    &&& self@.layers[l][k] == g0.layers[l][k].filter(other_than(id@))
                } by {
                lemma_removal_keeps_other_links(g0.layers[l], id@, k);
            }
            assert(self@.layers.len() == g0.layers.len());
            if g0.layers.len() > 0 {
                assert(g0.layers[0].dom().finite());
            }
            assert(self@.nodes() == g0.nodes().remove(id@));
        }
        Ok(())
    }


    /// Links a freshly added node of layer `layer` to `neighbors`: the node's
    /// list becomes `neighbors`, and each neighbour gains the node; a
    /// neighbour list that grows beyond the layer's capacity keeps its best
    /// entries as ranked by `keys[i]` (one key per entry of the grown list;
    /// larger first, ties in list order).
    pub fn connect(&mut self, layer: usize, node_id: &str, neighbors: &Vec<String>, keys: &Vec<Vec<u32>>)
        requires
            old(self)@.wf(),
            link_ok(old(self)@, layer as int, node_id@, ids_of(neighbors@), key_lists(keys@)),
        ensures
            final(self)@.wf(),
            final(self)@.nodes() == old(self)@.nodes(),
            final(self)@ == (GraphModel {
                layers: old(self)@.layers.update(
                    layer as int,
                    connected_layer(
                        old(self)@.layers[layer as int],
                        node_id@,
                        ids_of(neighbors@),
                        key_lists(keys@),
                        old(self)@.cap(layer as int),
                    ),
                ),
                ..old(self)@
            }),
    {
        let ghost g0 = self@;
        let ghost nbrs = ids_of(neighbors@);
        let ghost ks = key_lists(keys@);
        let ghost old_l = g0.layers[layer as int];
        let cap = if layer == 0 { self.m_max_0 } else { self.m };
        let node = node_id.to_owned();
        let own = copy_ids(neighbors);
        let ghost before0 = self.layers@;
        adj_insert(&mut self.layers[layer], node.clone(), own);
        proof {
            assert forall|j: int| 0 <= j < before0.len() && j != layer implies self.layers@[j] == before0[j] by {}
        }
        let mut i: usize = 0;
        while i < neighbors.len()
            invariant
                i <= neighbors.len(),
                cap == g0.cap(layer as int),
                node@ == node_id@,
                nbrs == ids_of(neighbors@),
                ks == key_lists(keys@),
                link_ok(g0, layer as int, node_id@, nbrs, ks),
                old_l == g0.layers[layer as int],
                self.layers@.len() == g0.layers.len(),
                self@ == (GraphModel { layers: self@.layers, ..g0 }),
                forall|j: int| 0 <= j < g0.layers.len() && j != layer ==> #[trigger] self@.layers[j] == g0.layers[j],
                self@.layers[layer as int].dom() == old_l.dom(),
                self@.layers[layer as int][node_id@] == nbrs,
                forall|k: Seq<char>|
                    #[trigger] old_l.dom().contains(k) && k != node_id@ ==> self@.layers[layer as int][k] == if nbrs.take(i as int).contains(k) {
                        relinked(old_l[k], node_id@, ks[nbrs.index_of(k)], cap as nat)
                    } else {
                        old_l[k]
                    },
            decreases neighbors.len() - i,
        {
            let n = &neighbors[i];
            let ghost k = n@;
            proof {
                assert(nbrs[i as int] == k);
                assert(old_l.dom().contains(k));
                assert(k != node_id@) by {
                    assert(nbrs.contains(k));
                }
                assert(!nbrs.take(i as int).contains(k)) by {
                    let t0 = nbrs.take(i as int);
                    if t0.contains(k) {
                        let j = choose|j: int| 0 <= j < t0.len() && t0[j] == k;
                        assert(nbrs[j] == nbrs[i as int]);
                    }
                }
                assert(nbrs.index_of(k) == i) by {
                    assert(nbrs.contains(k));
                    let j = nbrs.index_of(k);
                    assert(nbrs[j] == k);
                }
            }
            let ghost before = self.layers@;
            let ghost lm = self@.layers[layer as int];
            let taken = adj_remove(&mut self.layers[layer], n.as_str());
            match taken {
                Some(list) => {
                    let mut g = list;
                    if !list_contains(&g, &node) {
                        let ghost gb = ids_of(g@);
                        g.push(node.clone());
                        assert(ids_of(g@) =~= gb.push(node@));
                    }
                    assert(ids_of(g@) == grown(old_l[k], node_id@));
                    let relinked_list = if g.len() > cap {
                        proof {
                            assert(ks[i as int] == keys@[i as int]@);
                            assert(ks[i as int].len() == grown(old_l[nbrs[i as int]], node_id@).len());
                        }
                        prune_by_rank(&g, &keys[i], cap)
                    } else {
                        g
                    };
                    adj_insert(&mut self.layers[layer], n.clone(), relinked_list);
                },
                None => {},
            }
            proof {
                assert(lm.dom().contains(k));
                assert(self@.layers[layer as int] =~= lm.insert(k, relinked(old_l[k], node_id@, ks[i as int], cap as nat)));
                assert forall|j: int| 0 <= j < g0.layers.len() && j != layer implies #[trigger] self@.layers[j] == g0.layers[j] by {
                    assert(self.layers@[j] == before[j]);
                    assert(layer_models(before)[j] == adjacency(before[j]));
                    assert(self@.layers[j] == adjacency(self.layers@[j]));
                }
                assert forall|q: Seq<char>|
                    #[trigger] old_l.dom().contains(q) && q != node_id@ implies self@.layers[layer as int][q] == if nbrs.take(i + 1).contains(q) {
                        relinked(old_l[q], node_id@, ks[nbrs.index_of(q)], cap as nat)
                    } else {
                        old_l[q]
                    } by {
                    let t1 = nbrs.take(i + 1);
                    let t0 = nbrs.take(i as int);
                    if q == k {
                        assert(t1[i as int] == q);
                    } else {
                        assert(t1.contains(q) == t0.contains(q)) by {
                            if t1.contains(q) {
                                let j = choose|j: int| 0 <= j < t1.len() && t1[j] == q;
                                assert(j != i);
                                assert(t0[j] == q);
                            }
                            if t0.contains(q) {
                                let j = choose|j: int| 0 <= j < t0.len() && t0[j] == q;
                                assert(t1[j] == q);
                            }
                        }
                    }
                }
            }
            i = i + 1;
        }
        proof {
            assert(nbrs.take(i as int) =~= nbrs);
            let target = connected_layer(old_l, node_id@, nbrs, ks, cap as nat);
            assert(self@.layers[layer as int] =~= target);
            assert(self@.layers =~= g0.layers.update(layer as int, target));
            lemma_connect_wf(g0, layer as int, node_id@, nbrs, ks, self@);
        }
    }


    /// The neighbours a node of layer `layer` links to, out of `candidates`
    /// ranked best first: the first ones that are not the node itself, stand
    /// in the layer and have not been taken yet, at most the layer's capacity.
    pub fn select_neighbors(&self, layer: usize, node_id: &str, candidates: &Vec<String>) -> (r: Vec<String>)
        requires
            layer < self@.layers.len(),
        ensures
            ids_of(r@) == selected(
                ids_of(candidates@),
                node_id@,
                self@.layers[layer as int].dom(),
                self@.cap(layer as int),
            ),
            ids_of(r@).no_duplicates(),
            !ids_of(r@).contains(node_id@),
            forall|i: int| 0 <= i < r@.len() ==> self@.layers[layer as int].dom().contains(#[trigger] ids_of(r@)[i]),
            r@.len() <= self@.cap(layer as int),
    {
        let ghost dom = self@.layers[layer as int].dom();
        let ghost c = ids_of(candidates@);
        let node = node_id.to_owned();
        let mut all: Vec<String> = Vec::new();
        let mut i: usize = 0;
        assert(c.take(0) =~= Seq::<Seq<char>>::empty());
        while i < candidates.len()
            invariant
                i <= candidates.len(),
                c == ids_of(candidates@),
                dom == self@.layers[layer as int].dom(),
                layer < self@.layers.len(),
                node@ == node_id@,
                ids_of(all@) == eligible(c.take(i as int), node_id@, dom),
            decreases candidates.len() - i,
        {
            let x = &candidates[i];
            proof {
                let t = c.take(i + 1);
                assert(t.drop_last() =~= c.take(i as int));
                assert(t.last() == x@);
            }
            let in_layer = adj_contains(&self.layers[layer], x.as_str());
            proof {
                assert(self@.layers[layer as int] == adjacency(self.layers@[layer as int]));
            }
            if *x != node && in_layer && !list_contains(&all, x) {
                let ghost before = ids_of(all@);
                all.push(x.clone());
                assert(ids_of(all@) =~= before.push(x@));
            }
            i = i + 1;
        }
        assert(c.take(i as int) =~= c);
        let cap = if layer == 0 { self.m_max_0 } else { self.m };
        let mut out: Vec<String> = Vec::new();
        let mut j: usize = 0;
        let ghost e = ids_of(all@);
        assert(ids_of(out@) =~= e.take(0));
        while j < cap && j < all.len()
            invariant
                j <= all.len(),
                j <= cap,
                e == ids_of(all@),
                ids_of(out@) == e.take(j as int),
            decreases all.len() - j,
        {
            let ghost before = ids_of(out@);
            let s = all[j].clone();
            out.push(s);
            assert(ids_of(out@) =~= before.push(s@));
            assert(ids_of(out@) =~= e.take(j + 1));
            j = j + 1;
        }
        proof {
            lemma_eligible(c, node_id@, dom);
            let sel = selected(c, node_id@, dom, self@.cap(layer as int));
            assert(ids_of(out@) =~= sel);
            assert forall|a: int, b: int| 0 <= a < sel.len() && 0 <= b < sel.len() && a != b implies sel[a] != sel[b] by {
                assert(sel[a] == e[a] && sel[b] == e[b]);
            }
            assert(!sel.contains(node_id@)) by {
                if sel.contains(node_id@) {
                    let a = choose|a: int| 0 <= a < sel.len() && sel[a] == node_id@;
                    assert(e[a] == node_id@);
                    assert(e.contains(node_id@));
                }
            }
            assert forall|a: int| 0 <= a < out@.len() implies dom.contains(#[trigger] ids_of(out@)[a]) by {
                assert(ids_of(out@)[a] == e[a]);
            }
        }
        out
    }


    /// Rebuilds a graph from its stored parts, or `None` when the parts do
    /// not form a well-formed graph.
    pub fn from_parts(
        m: usize,
        m_max_0: usize,
        ef_construction: usize,
        ef_search: usize,
        layers: Vec<AHashMap<String, Vec<String>>>,
        entry_point: Option<String>,
        entry_point_level: usize,
        total_inserts: usize,
        total_deletes: usize,
        metric: DistanceMetric,
        dimension: Option<usize>,
    ) -> (r: Option<HnswGraph>)
        ensures
            r matches Some(g) ==> g@.wf() && g@ == parts_model(m, m_max_0, ef_construction, ef_search, layers@, entry_point, entry_point_level, total_inserts, total_deletes, metric, dimension),
            r is None ==> !parts_model(m, m_max_0, ef_construction, ef_search, layers@, entry_point, entry_point_level, total_inserts, total_deletes, metric, dimension).wf(),
    {
        let ghost target = parts_model(m, m_max_0, ef_construction, ef_search, layers@, entry_point, entry_point_level, total_inserts, total_deletes, metric, dimension);
        let g = HnswGraph {
            m,
            m_max_0,
            ef_construction,
            ef_search,
            layers,
            entry_point,
            entry_point_level,
            total_inserts,
            total_deletes,
            metric,
            dimension,
        };
        let ghost gm = g@;
        assert(gm == target);
        let n = g.layers.len();
        let mut l: usize = 0;
        while l < n
            invariant
                n == g.layers@.len(),
                gm == g@,
                gm == target,
                target == parts_model(m, m_max_0, ef_construction, ef_search, layers@, entry_point, entry_point_level, total_inserts, total_deletes, metric, dimension),
                l <= n,
                forall|j: int| 0 <= j < l ==> (#[trigger] gm.layers[j]).dom().finite(),
                forall|j: int| 0 < j < l ==> (#[trigger] gm.layers[j]).dom().subset_of(gm.layers[j - 1].dom()),
                forall|j: int, k: Seq<char>|
                    0 <= j < l && #[trigger] gm.layers[j].dom().contains(k) ==> gm.list_ok(j, k),
            decreases n - l,
        {
            proof {
                assert(gm.layers[l as int] == adjacency(g.layers@[l as int]));
            }
            if l > 0 {
                proof {
                    assert(gm.layers[l - 1] == adjacency(g.layers@[l - 1]));
                }
                if !layer_within(&g.layers[l], &g.layers[l - 1]) {
                    proof {
                        assert(!gm.layers[l as int].dom().subset_of(gm.layers[l - 1].dom()));
                        assert(!gm.wf());
                    }
                    return None;
                }
            }
            let cap = if l == 0 { g.m_max_0 } else { g.m };
            if !layer_lists_ok(&g.layers[l], cap) {
                proof {
                    let k = choose|k: Seq<char>| #[trigger] gm.layers[l as int].dom().contains(k) && !({
                        let v = gm.layers[l as int][k];
                        &&& v.no_duplicates()
                        &&& !v.contains(k)
                        &&& forall|i: int| 0 <= i < v.len() ==> gm.layers[l as int].dom().contains(#[trigger] v[i])
                        &&& v.len() <= cap
                    });
                    assert(!gm.list_ok(l as int, k));
                    assert(!gm.wf());
                }
                return None;
            }
            l = l + 1;
        }
        let empty = if n == 0 { true } else { adj_len(&g.layers[0]) == 0 };
        proof {
            if n > 0 {
                assert(gm.layers[0] == adjacency(g.layers@[0]));
                if !empty {
                    assert(gm.nodes().len() > 0);
                }
            }
            assert(empty == gm.nodes().is_empty());
        }
        let entry_ok = match &g.entry_point {
            None => empty && g.entry_point_level == 0,
            Some(e) => {
                if empty || g.entry_point_level >= n {
                    false
                } else if !adj_contains(&g.layers[g.entry_point_level], e.as_str()) {
                    false
                } else {
                    let mut above = g.entry_point_level + 1;
                    let mut ok = true;
                    while above < n
                        invariant
                            n == g.layers@.len(),
                            gm == g@,
                            g.entry_point_level < above <= n,
                            ok ==> forall|j: int| g.entry_point_level < j < above ==> (#[trigger] gm.layers[j]).dom().is_empty(),
                            !ok ==> !gm.empty_above(g.entry_point_level as int),
                            forall|j: int| 0 <= j < n ==> (#[trigger] gm.layers[j]).dom().finite(),
                        decreases n - above,
                    {
                        proof {
                            assert(gm.layers[above as int] == adjacency(g.layers@[above as int]));
                        }
                        if ok && adj_len(&g.layers[above]) != 0 {
                            ok = false;
                            proof {
                                assert(gm.layers[above as int].dom().len() != 0);
                            }
                        }
                        above = above + 1;
                    }
                    proof {
                        assert(gm.layers[g.entry_point_level as int] == adjacency(g.layers@[g.entry_point_level as int]));
                    }
                    ok
                }
            },
        };
        if !entry_ok {
            return None;
        }
        Some(g)
    }

}

} // verus!
