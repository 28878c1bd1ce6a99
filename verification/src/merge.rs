//! Union-find forest over an abstract node store.
//!
//! Nodes are addressed by keys of a caller-chosen type and live behind the
//! [`MergeCtx`] trait, whose implementations range from an in-memory vector
//! to a read-through cache over a remote store.  `find` walks parent links
//! with path halving, `merge` unites two trees by rank, and `set` replaces
//! the payload at a root.  Every operation is specified against the logical
//! map of nodes: which walks succeed, which value comes back, and that the
//! partition of keys into trees is preserved by the reads.

use vstd::pervasive::cloned;
use vstd::prelude::*;
use vstd::std_specs::cmp::PartialEqSpec;

verus! {

/// Logical content of one stored node: parent key, rank and payload.
pub struct NodeModel<KV, T> {
    pub parent: KV,
    pub rank: u64,
    pub item: T,
}

/// Map from key views to node models: the logical store.
pub type NodeMap<KV, T> = Map<KV, NodeModel<KV, T>>;

/// A stored value wrapped with its position in the union-find forest.
#[derive(Debug)]
pub struct Mergeable<I, T> {
    /// Index of the parent of this node.
    parent_index: I,
    /// Height bound of the tree, if this node were to be the root.
    rank: u64,
    item: T,
}

impl<I: View, T> View for Mergeable<I, T> {
    type V = NodeModel<I::V, T>;

    closed spec fn view(&self) -> NodeModel<I::V, T> {
        NodeModel { parent: self.parent_index@, rank: self.rank, item: self.item }
    }
}

/// Keys must compare and clone consistently with their views: `==` decides
/// exactly view equality, and a clone keeps the view.
pub open spec fn keys_well_behaved<K: View + PartialEq + Clone>() -> bool {
    &&& K::obeys_eq_spec()
    &&& forall|a: K, b: K| #[trigger] a.eq_spec(&b) <==> a@ == b@
    &&& forall|a: K, b: K| #[trigger] cloned::<K>(a, b) ==> b@ == a@
}

impl<I: View + PartialEq + Clone, T> Mergeable<I, T> {
    /// Wraps a fresh payload as a tree of its own.
    pub fn new(index: I, item: T) -> (r: Self)
        ensures
            r@ == (NodeModel { parent: index@, rank: 0u64, item }),
    {
        Mergeable { parent_index: index, rank: 0, item }
    }

    /// Rebuilds a node from its stored parts.
    pub fn from_parts(parent_index: I, rank: u64, item: T) -> (r: Self)
        ensures
            r@ == (NodeModel { parent: parent_index@, rank, item }),
    {
        Mergeable { parent_index, rank, item }
    }

    /// A node whose parent is its own index is the root of its tree.
    pub fn is_root(&self, index: &I) -> (r: bool)
        requires
            keys_well_behaved::<I>(),
        ensures
            r == (self@.parent == index@),
    {
        self.parent_index == *index
    }

    /// Key of this node's parent.
    pub fn parent_index(&self) -> (r: &I)
        ensures
            r@ == self@.parent,
    {
        &self.parent_index
    }

    /// Rank of this node.
    pub fn rank(&self) -> (r: u64)
        ensures
            r == self@.rank,
    {
        self.rank
    }

    /// Payload of this node.
    pub fn item(&self) -> (r: &T)
        ensures
            *r == self@.item,
    {
        &self.item
    }

    /// Consumes the node and hands the payload out.
    pub fn into_item(self) -> (r: T)
        ensures
            r == self@.item,
    {
        self.item
    }
}

/// Is used to look up the nodes from a storage implementation.
///
/// The specification side exposes the logical node map; reads leave it
/// unchanged and report exactly its entries, writes update exactly one
/// entry.  The store-backed implementation caches its reads, which makes
/// the stability demanded here hold for one transaction.
pub trait MergeCtx: Sized {
    type Index: View + PartialEq + Clone;

    type Item;

    /// Logical map of stored nodes, keyed by key view.
    open spec fn nodes(&self) -> NodeMap<<Self::Index as View>::V, Self::Item> {
        vstd::pervasive::arbitrary()
    }

    /// Tries to load a node from storage given the passed index.
    fn get_node(&mut self, index: &Self::Index) -> (r: Option<
        Mergeable<Self::Index, Self::Item>,
    >)
        ensures
            final(self).nodes() == old(self).nodes(),
            r is Some <==> old(self).nodes().dom().contains(index@),
            r matches Some(n) ==> n@ == old(self).nodes()[index@],
    ;

    /// Sets a node inside the storage.
    fn set_node(&mut self, index: &Self::Index, item: Mergeable<Self::Index, Self::Item>)
        ensures
            final(self).nodes() == old(self).nodes().insert(index@, item@),
    ;
}

/// Represents a merge error.
#[derive(Debug)]
pub enum Error<K> {
    /// The operation did not find the key it was expecting to exist.
    MissingEntryError(K),
    /// Although a node specifies a parent key, the node does not exist.
    NoParentError(K),
}

/// Outcome of chasing parent links from a key.
pub enum Walk<KV> {
    /// The walk ends at this root.
    Root(KV),
    /// The walk reaches this node, whose parent is absent from the store.
    Missing(KV),
    /// The walk did not finish within the given fuel.
    Incomplete,
}

/// Chases parent links from `k` for at most `fuel` steps.
pub open spec fn walk_step<KV, T>(m: NodeMap<KV, T>, k: KV, fuel: nat) -> Walk<KV>
    recommends
        m.dom().contains(k),
    decreases fuel,
{
    let n = m[k];
    if n.parent == k {
        Walk::Root(k)
    } else if !m.dom().contains(n.parent) {
        Walk::Missing(k)
    } else if fuel == 0 {
        Walk::Incomplete
    } else {
        walk_step(m, n.parent, (fuel - 1) as nat)
    }
}

/// `d` certifies that parent links cannot cycle: it strictly decreases
/// along every parent edge.
pub open spec fn rank_cert<KV, T>(m: NodeMap<KV, T>, d: Map<KV, nat>) -> bool {
    forall|k: KV| #[trigger]
        m.dom().contains(k) ==> d.dom().contains(k) && (m[k].parent != k && m.dom().contains(
            m[k].parent,
        ) ==> d[m[k].parent] < d[k])
}

/// The store is a forest: some certificate rules out parent cycles.
pub open spec fn acyclic<KV, T>(m: NodeMap<KV, T>) -> bool {
    exists|d: Map<KV, nat>| #[trigger] rank_cert(m, d)
}

/// Result of the complete walk from `k`, with fuel hidden.
#[verifier::opaque]
pub open spec fn walk<KV, T>(m: NodeMap<KV, T>, k: KV) -> Walk<KV>
    recommends
        m.dom().contains(k),
{
    if exists|fuel: nat| !((#[trigger] walk_step(m, k, fuel)) is Incomplete) {
        walk_step(m, k, choose|fuel: nat| !((#[trigger] walk_step(m, k, fuel)) is Incomplete))
    } else {
        Walk::Incomplete
    }
}

/// The walk from `k` ends at a root.
pub open spec fn find_ok<KV, T>(m: NodeMap<KV, T>, k: KV) -> bool {
    m.dom().contains(k) && walk(m, k) is Root
}

/// Key of the root that the walk from `k` reaches.
pub open spec fn root_of<KV, T>(m: NodeMap<KV, T>, k: KV) -> KV
    recommends
        find_ok(m, k),
{
    walk(m, k)->Root_0
}

/// Payload at the root that the walk from `k` reaches.
pub open spec fn find_value<KV, T>(m: NodeMap<KV, T>, k: KV) -> T
    recommends
        find_ok(m, k),
{
    m[root_of(m, k)].item
}

/// Both maps store the same keys and every walk keeps its ending: roots
/// stay the same and broken chains stay broken.  Payloads and ranks are
/// free to differ.
pub open spec fn same_shape<KV, T>(m0: NodeMap<KV, T>, m1: NodeMap<KV, T>) -> bool {
    &&& m1.dom() == m0.dom()
    &&& forall|k: KV| #[trigger]
        m0.dom().contains(k) ==> ((walk(m0, k) is Root) <==> (walk(m1, k) is Root)) && ((walk(
            m0,
            k,
        ) is Root) ==> walk(m1, k) == walk(m0, k))
}

/// Same trees, same payloads, same ranks: what a pure read preserves.
pub open spec fn uf_preserved<KV, T>(m0: NodeMap<KV, T>, m1: NodeMap<KV, T>) -> bool {
    &&& same_shape(m0, m1)
    &&& forall|k: KV| #[trigger]
        m0.dom().contains(k) ==> m1[k].item == m0[k].item && m1[k].rank == m0[k].rank
}

/// Shape preservation composes.
pub proof fn lemma_same_shape_trans<KV, T>(
    m0: NodeMap<KV, T>,
    m1: NodeMap<KV, T>,
    m2: NodeMap<KV, T>,
)
    requires
        same_shape(m0, m1),
        same_shape(m1, m2),
    ensures
        same_shape(m0, m2),
{
}

/// Read preservation composes.
pub proof fn lemma_uf_preserved_trans<KV, T>(
    m0: NodeMap<KV, T>,
    m1: NodeMap<KV, T>,
    m2: NodeMap<KV, T>,
)
    requires
        uf_preserved(m0, m1),
        uf_preserved(m1, m2),
    ensures
        uf_preserved(m0, m2),
{
}

proof fn lemma_walk_step_fuel_mono<KV, T>(m: NodeMap<KV, T>, k: KV, f1: nat, f2: nat)
    requires
        f1 <= f2,
        !(walk_step(m, k, f1) is Incomplete),
    ensures
        walk_step(m, k, f2) == walk_step(m, k, f1),
    decreases f1,
{
    let n = m[k];
    if n.parent == k || !m.dom().contains(n.parent) {
    } else {
        lemma_walk_step_fuel_mono(m, n.parent, (f1 - 1) as nat, (f2 - 1) as nat);
    }
}

proof fn lemma_walk_step_terminates<KV, T>(m: NodeMap<KV, T>, d: Map<KV, nat>, k: KV)
    requires
        rank_cert(m, d),
        m.dom().contains(k),
    ensures
        !(walk_step(m, k, d[k]) is Incomplete),
    decreases d[k],
{
    let n = m[k];
    if n.parent == k || !m.dom().contains(n.parent) {
    } else {
        lemma_walk_step_terminates(m, d, n.parent);
        lemma_walk_step_fuel_mono(m, n.parent, d[n.parent], (d[k] - 1) as nat);
    }
}

/// With a certificate, the complete walk is the walk with fuel `d[k]`, and
/// it finishes.
proof fn lemma_walk_defined<KV, T>(m: NodeMap<KV, T>, d: Map<KV, nat>, k: KV)
    requires
        rank_cert(m, d),
        m.dom().contains(k),
    ensures
        !(walk(m, k) is Incomplete),
        walk(m, k) == walk_step(m, k, d[k]),
{
    reveal(walk);
    lemma_walk_step_terminates(m, d, k);
    let fc = choose|fuel: nat| !((#[trigger] walk_step(m, k, fuel)) is Incomplete);
    if fc <= d[k] {
        lemma_walk_step_fuel_mono(m, k, fc, d[k]);
    } else {
        lemma_walk_step_fuel_mono(m, k, d[k], fc);
    }
}

/// One step of unfolding: a non-root node walks to wherever its parent
/// walks.
proof fn lemma_walk_unfold<KV, T>(m: NodeMap<KV, T>, d: Map<KV, nat>, k: KV)
    requires
        rank_cert(m, d),
        m.dom().contains(k),
        m[k].parent != k,
        m.dom().contains(m[k].parent),
    ensures
        walk(m, k) == walk(m, m[k].parent),
{
    let p = m[k].parent;
    lemma_walk_defined(m, d, k);
    lemma_walk_defined(m, d, p);
    lemma_walk_step_fuel_mono(m, p, d[p], (d[k] - 1) as nat);
}

/// A finished walk ends at a key of the store; roots are their own parent
/// and missing-parent nodes name an absent parent.
proof fn lemma_walk_end<KV, T>(m: NodeMap<KV, T>, k: KV, fuel: nat)
    requires
        m.dom().contains(k),
    ensures
        walk_step(m, k, fuel) matches Walk::Root(rt) ==> m.dom().contains(rt) && m[rt].parent
            == rt,
        walk_step(m, k, fuel) matches Walk::Missing(c) ==> m.dom().contains(c) && m[c].parent != c
            && !m.dom().contains(m[c].parent),
    decreases fuel,
{
    let n = m[k];
    if n.parent == k || !m.dom().contains(n.parent) || fuel == 0 {
    } else {
        lemma_walk_end(m, n.parent, (fuel - 1) as nat);
    }
}

/// The store after path halving rewrites `k`'s parent to its grandparent.
pub open spec fn halved<KV, T>(m: NodeMap<KV, T>, k: KV) -> NodeMap<KV, T>
    recommends
        m.dom().contains(k),
        m[k].parent != k,
        m.dom().contains(m[k].parent),
{
    m.insert(k, NodeModel { parent: m[m[k].parent].parent, rank: m[k].rank, item: m[k].item })
}

/// Setup of one halving step at `k`.
pub open spec fn halving_at<KV, T>(m: NodeMap<KV, T>, k: KV) -> bool {
    m.dom().contains(k) && m[k].parent != k && m.dom().contains(m[k].parent)
}

/// The certificate survives path halving.
proof fn lemma_halving_cert<KV, T>(m: NodeMap<KV, T>, d: Map<KV, nat>, k: KV)
    requires
        rank_cert(m, d),
        halving_at(m, k),
    ensures
        rank_cert(halved(m, k), d),
{
    let p = m[k].parent;
    let g = m[p].parent;
    let m2 = halved(m, k);
    assert forall|j: KV| #[trigger] m2.dom().contains(j) implies {
        let pj = m2[j].parent;
        d.dom().contains(j) && (pj != j && m2.dom().contains(pj) ==> d.dom().contains(pj) && d[pj]
            < d[j])
    } by {
        assert(m.dom().contains(j));
        if j == k {
            if g != k && m2.dom().contains(g) {
                if g == p {
                    assert(d[p] < d[k]);
                } else {
                    assert(d[g] < d[p]);
                    assert(d[p] < d[k]);
                }
            }
        }
    }
}

/// A walk that ends at a root in the original store ends at the same root,
/// within the same fuel, after halving at `k`.
proof fn lemma_halving_root_fwd<KV, T>(
    m: NodeMap<KV, T>,
    d: Map<KV, nat>,
    k: KV,
    j: KV,
    fuel: nat,
)
    requires
        rank_cert(m, d),
        halving_at(m, k),
        m.dom().contains(j),
        walk_step(m, j, fuel) is Root,
    ensures
        walk_step(halved(m, k), j, fuel) == walk_step(m, j, fuel),
    decreases fuel,
{
    let m2 = halved(m, k);
    let p = m[k].parent;
    let g = m[p].parent;
    if j != k {
        let n = m[j];
        if n.parent == j {
        } else if !m.dom().contains(n.parent) {
        } else {
            lemma_halving_root_fwd(m, d, k, n.parent, (fuel - 1) as nat);
        }
    } else {
        // walk_step(m, k, fuel) steps to p
        assert(fuel >= 1);
        assert(walk_step(m, k, fuel) == walk_step(m, p, (fuel - 1) as nat));
        if g == p {
            // p is a root; the rewritten link points at it directly
            lemma_halving_root_fwd(m, d, k, p, (fuel - 1) as nat);
        } else {
            // p itself steps to g
            assert(m.dom().contains(g)) by {
                if !m.dom().contains(g) {
                    assert(walk_step(m, p, (fuel - 1) as nat) is Missing);
                }
            }
            assert((fuel - 1) as nat >= 1);
            assert(walk_step(m, p, (fuel - 1) as nat) == walk_step(m, g, (fuel - 2) as nat));
            assert(g != k) by {
                assert(d[g] < d[p]);
                assert(d[p] < d[k]);
            }
            lemma_halving_root_fwd(m, d, k, g, (fuel - 2) as nat);
            assert(walk_step(m2, k, fuel) == walk_step(m2, g, (fuel - 1) as nat));
            lemma_walk_step_fuel_mono(m2, g, (fuel - 2) as nat, (fuel - 1) as nat);
        }
    }
}

/// A walk that hits a missing parent keeps hitting one after halving.
proof fn lemma_halving_missing_fwd<KV, T>(
    m: NodeMap<KV, T>,
    d: Map<KV, nat>,
    k: KV,
    j: KV,
    fuel: nat,
)
    requires
        rank_cert(m, d),
        halving_at(m, k),
        m.dom().contains(j),
        walk_step(m, j, fuel) is Missing,
    ensures
        walk_step(halved(m, k), j, fuel) is Missing,
    decreases fuel,
{
    let m2 = halved(m, k);
    let p = m[k].parent;
    let g = m[p].parent;
    if j != k {
        let n = m[j];
        if n.parent == j {
        } else if !m.dom().contains(n.parent) {
        } else {
            lemma_halving_missing_fwd(m, d, k, n.parent, (fuel - 1) as nat);
        }
    } else {
        assert(fuel >= 1);
        assert(walk_step(m, k, fuel) == walk_step(m, p, (fuel - 1) as nat));
        if g == p {
            lemma_halving_missing_fwd(m, d, k, p, (fuel - 1) as nat);
        } else if !m.dom().contains(g) {
            // the rewritten link itself dangles
            assert(walk_step(m2, k, fuel) == Walk::<KV>::Missing(k));
        } else {
            assert((fuel - 1) as nat >= 1);
            assert(walk_step(m, p, (fuel - 1) as nat) == walk_step(m, g, (fuel - 2) as nat));
            assert(g != k) by {
                assert(d[g] < d[p]);
                assert(d[p] < d[k]);
            }
            lemma_halving_missing_fwd(m, d, k, g, (fuel - 2) as nat);
            assert(walk_step(m2, k, fuel) == walk_step(m2, g, (fuel - 1) as nat));
            lemma_walk_step_fuel_mono(m2, g, (fuel - 2) as nat, (fuel - 1) as nat);
        }
    }
}

/// Halving keeps the forest acyclic and preserves every tree: same keys,
/// same payloads, same ranks, same roots.
proof fn lemma_halving_preserves<KV, T>(m: NodeMap<KV, T>, d: Map<KV, nat>, k: KV)
    requires
        rank_cert(m, d),
        halving_at(m, k),
    ensures
        rank_cert(halved(m, k), d),
        uf_preserved(m, halved(m, k)),
    decreases 0nat,
{
    let m2 = halved(m, k);
    lemma_halving_cert(m, d, k);
    assert(m2.dom() =~= m.dom());
    assert forall|j: KV| #[trigger] m.dom().contains(j) implies ((walk(m, j) is Root) <==> (walk(
        m2,
        j,
    ) is Root)) && ((walk(m, j) is Root) ==> walk(m2, j) == walk(m, j)) by {
        lemma_walk_defined(m, d, j);
        lemma_walk_defined(m2, d, j);
        if walk(m, j) is Root {
            lemma_halving_root_fwd(m, d, k, j, d[j]);
        } else {
            assert(walk(m, j) is Missing);
            lemma_halving_missing_fwd(m, d, k, j, d[j]);
        }
    }
}

/// Halving at `k` does not change the walk from any key whose certificate
/// entry lies below `k`'s: such chains never pass through `k`.
proof fn lemma_halving_offpath_step<KV, T>(
    m: NodeMap<KV, T>,
    d: Map<KV, nat>,
    k: KV,
    j: KV,
    fuel: nat,
)
    requires
        rank_cert(m, d),
        halving_at(m, k),
        m.dom().contains(j),
        d[j] < d[k],
    ensures
        walk_step(halved(m, k), j, fuel) == walk_step(m, j, fuel),
    decreases fuel,
{
    let n = m[j];
    if n.parent == j || !m.dom().contains(n.parent) || fuel == 0 {
    } else {
        assert(d[n.parent] < d[j]);
        lemma_halving_offpath_step(m, d, k, n.parent, (fuel - 1) as nat);
    }
}

/// Fuel-free form of the off-path lemma.
proof fn lemma_halving_offpath<KV, T>(m: NodeMap<KV, T>, d: Map<KV, nat>, k: KV, j: KV)
    requires
        rank_cert(m, d),
        halving_at(m, k),
        m.dom().contains(j),
        d[j] < d[k],
    ensures
        walk(halved(m, k), j) == walk(m, j),
{
    let m2 = halved(m, k);
    lemma_halving_cert(m, d, k);
    lemma_walk_defined(m, d, j);
    lemma_walk_defined(m2, d, j);
    lemma_halving_offpath_step(m, d, k, j, d[j]);
}

/// Walks only read parent links: stores with identical keys and parents
/// walk identically.
proof fn lemma_same_parents_walk<KV, T>(
    m0: NodeMap<KV, T>,
    m1: NodeMap<KV, T>,
    j: KV,
    fuel: nat,
)
    requires
        m1.dom() == m0.dom(),
        forall|k: KV| #[trigger] m0.dom().contains(k) ==> m1[k].parent == m0[k].parent,
        m0.dom().contains(j),
    ensures
        walk_step(m1, j, fuel) == walk_step(m0, j, fuel),
    decreases fuel,
{
    let n = m0[j];
    if n.parent == j || !m0.dom().contains(n.parent) || fuel == 0 {
    } else {
        lemma_same_parents_walk(m0, m1, n.parent, (fuel - 1) as nat);
    }
}

/// After linking root `lo` under root `w`, every walk that ended at `lo`
/// ends at `w`, and every other walk is unchanged.
pub open spec fn linked_root<KV, T>(m: NodeMap<KV, T>, lo: KV, w: KV, k: KV) -> Walk<KV> {
    match walk(m, k) {
        Walk::Root(rt) => Walk::Root(if rt == lo {
            w
        } else {
            rt
        }),
        other => other,
    }
}

/// Certificate for the linked store: keys in `lo`'s old tree sit above the
/// whole of `w`'s certificate range.
spec fn link_cert<KV, T>(m: NodeMap<KV, T>, d: Map<KV, nat>, lo: KV, w: KV) -> Map<KV, nat> {
    Map::new(
        |j: KV| d.dom().contains(j),
        |j: KV|
            if m.dom().contains(j) && walk(m, j) == Walk::<KV>::Root(lo) {
                (d[j] + d[w] + 1) as nat
            } else {
                d[j]
            },
    )
}

/// Walks that end at a root keep ending at a root after the link, with
/// `lo` replaced by `w`, within one extra step of fuel.
proof fn lemma_link_root_fwd<KV, T>(
    m: NodeMap<KV, T>,
    m4: NodeMap<KV, T>,
    lo: KV,
    w: KV,
    j: KV,
    fuel: nat,
)
    requires
        m.dom().contains(lo) && m[lo].parent == lo,
        m.dom().contains(w) && m[w].parent == w,
        lo != w,
        m4.dom() == m.dom(),
        m4[lo].parent == w,
        m4[w].parent == w,
        forall|k: KV| #[trigger] m.dom().contains(k) && k != lo && k != w ==> m4[k].parent == m[k].parent,
        m.dom().contains(j),
        walk_step(m, j, fuel) is Root,
    ensures
        walk_step(m4, j, (fuel + 1) as nat) == (match walk_step(m, j, fuel) {
            Walk::Root(rt) => Walk::<KV>::Root(if rt == lo {
                w
            } else {
                rt
            }),
            other => other,
        }),
    decreases fuel,
{
    let n = m[j];
    if n.parent == j {
        if j == lo {
            assert(walk_step(m4, j, (fuel + 1) as nat) == walk_step(m4, w, fuel as nat));
        }
    } else if !m.dom().contains(n.parent) {
        // Missing: contradicts the Root premise
    } else {
        assert(j != lo && j != w);
        lemma_link_root_fwd(m, m4, lo, w, n.parent, (fuel - 1) as nat);
    }
}

/// Walks that hit a missing parent never pass a root, so the link does not
/// change them.
proof fn lemma_link_missing_fwd<KV, T>(
    m: NodeMap<KV, T>,
    m4: NodeMap<KV, T>,
    lo: KV,
    w: KV,
    j: KV,
    fuel: nat,
)
    requires
        m.dom().contains(lo) && m[lo].parent == lo,
        m.dom().contains(w) && m[w].parent == w,
        lo != w,
        m4.dom() == m.dom(),
        m4[lo].parent == w,
        m4[w].parent == w,
        forall|k: KV| #[trigger] m.dom().contains(k) && k != lo && k != w ==> m4[k].parent == m[k].parent,
        m.dom().contains(j),
        walk_step(m, j, fuel) is Missing,
    ensures
        walk_step(m4, j, fuel) == walk_step(m, j, fuel),
    decreases fuel,
{
    let n = m[j];
    if n.parent == j || !m.dom().contains(n.parent) || fuel == 0 {
    } else {
        assert(j != lo && j != w);
        lemma_link_missing_fwd(m, m4, lo, w, n.parent, (fuel - 1) as nat);
    }
}

/// Linking root `lo` under root `w` keeps the store acyclic and moves
/// exactly `lo`'s tree under `w`.
proof fn lemma_link_roots<KV, T>(m: NodeMap<KV, T>, d: Map<KV, nat>, lo: KV, w: KV, m4: NodeMap<
    KV,
    T,
>)
    requires
        rank_cert(m, d),
        m.dom().contains(lo) && m[lo].parent == lo,
        m.dom().contains(w) && m[w].parent == w,
        lo != w,
        m4.dom() == m.dom(),
        m4[lo].parent == w,
        m4[w].parent == w,
        forall|k: KV| #[trigger] m.dom().contains(k) && k != lo && k != w ==> m4[k].parent == m[k].parent,
    ensures
        acyclic(m4),
        forall|k: KV| #[trigger] m.dom().contains(k) ==> walk(m4, k) == linked_root(m, lo, w, k),
{
    let d4 = link_cert(m, d, lo, w);
    assert forall|j: KV| #[trigger] m4.dom().contains(j) implies {
        let pj = m4[j].parent;
        d4.dom().contains(j) && (pj != j && m4.dom().contains(pj) ==> d4.dom().contains(pj)
            && d4[pj] < d4[j])
    } by {
        let pj = m4[j].parent;
        if pj != j && m4.dom().contains(pj) {
            if j == lo {
                // its new parent w is a root of m, not in lo's old tree
                lemma_walk_defined(m, d, w);
                lemma_walk_defined(m, d, lo);
                assert(walk(m, w) == Walk::<KV>::Root(w));
                assert(walk(m, lo) == Walk::<KV>::Root(lo));
            } else {
                assert(j != w);
                assert(pj == m[j].parent);
                assert(d[pj] < d[j]);
                lemma_walk_unfold(m, d, j);
                if walk(m, j) == Walk::<KV>::Root(lo) {
                    assert(walk(m, pj) == Walk::<KV>::Root(lo));
                } else {
                    assert(walk(m, pj) != Walk::<KV>::Root(lo));
                }
            }
        }
    }
    assert(rank_cert(m4, d4));
    assert forall|k: KV| #[trigger] m.dom().contains(k) implies walk(m4, k) == linked_root(
        m,
        lo,
        w,
        k,
    ) by {
        lemma_walk_defined(m, d, k);
        lemma_walk_defined(m4, d4, k);
        if walk(m, k) is Root {
            lemma_link_root_fwd(m, m4, lo, w, k, d[k]);
            if d4[k] <= d[k] + 1 {
                lemma_walk_step_fuel_mono(m4, k, d4[k], (d[k] + 1) as nat);
            } else {
                lemma_walk_step_fuel_mono(m4, k, (d[k] + 1) as nat, d4[k]);
            }
        } else {
            assert(walk(m, k) is Missing);
            lemma_link_missing_fwd(m, m4, lo, w, k, d[k]);
            lemma_walk_step_fuel_mono(m4, k, d[k], d4[k]);
        }
    }
}

/// Replacing the payload (and rank) stored at a root changes no walk.
proof fn lemma_root_update_shape<KV, T>(m: NodeMap<KV, T>, d: Map<KV, nat>, rt: KV, n: NodeModel<
    KV,
    T,
>)
    requires
        rank_cert(m, d),
        m.dom().contains(rt),
        m[rt].parent == rt,
        n.parent == rt,
    ensures
        rank_cert(m.insert(rt, n), d),
        same_shape(m, m.insert(rt, n)),
{
    let m1 = m.insert(rt, n);
    assert(m1.dom() =~= m.dom());
    assert forall|k: KV| #[trigger] m.dom().contains(k) implies m1[k].parent == m[k].parent by {}
    assert forall|j: KV| #[trigger] m.dom().contains(j) implies ((walk(m, j) is Root) <==> (walk(
        m1,
        j,
    ) is Root)) && ((walk(m, j) is Root) ==> walk(m1, j) == walk(m, j)) by {
        lemma_walk_defined(m, d, j);
        lemma_walk_defined(m1, d, j);
        lemma_same_parents_walk(m, m1, j, d[j]);
    }
}

#[verifier::rlimit(80)]
#[verifier::loop_isolation(false)]
fn run_find<K, V, C>(ctx: &mut C, index: K) -> (r: Result<Mergeable<K, V>, Error<K>>) where
    K: View + PartialEq + Clone,
    C: MergeCtx<Index = K, Item = V>,

    requires
        keys_well_behaved::<K>(),
        acyclic(old(ctx).nodes()),
    ensures
        acyclic(final(ctx).nodes()),
        uf_preserved(old(ctx).nodes(), final(ctx).nodes()),
        match r {
            Ok(node) => {
                &&& find_ok(old(ctx).nodes(), index@)
                &&& old(ctx).nodes().dom().contains(root_of(old(ctx).nodes(), index@))
                &&& node@.parent == root_of(old(ctx).nodes(), index@)
                &&& node@ == old(ctx).nodes()[root_of(old(ctx).nodes(), index@)]
                &&& final(ctx).nodes()[root_of(old(ctx).nodes(), index@)].parent == root_of(
                    old(ctx).nodes(),
                    index@,
                )
            },
            Err(Error::MissingEntryError(c)) => c@ == index@ && !old(ctx).nodes().dom().contains(
                index@,
            ) && final(ctx).nodes() == old(ctx).nodes(),
            Err(Error::NoParentError(c)) => old(ctx).nodes().dom().contains(index@) && walk(
                old(ctx).nodes(),
                index@,
            ) == Walk::<<K as View>::V>::Missing(c@),
        },
{
    let ghost m0 = ctx.nodes();
    let ghost start = index@;
    let ghost d = choose|d: Map<<K as View>::V, nat>| rank_cert(m0, d);

    let mut index = index;
    let mut node = match ctx.get_node(&index) {
        Some(n) => n,
        None => {
            return Err(Error::MissingEntryError(index));
        },
    };

    while !node.is_root(&index)
        invariant
            keys_well_behaved::<K>(),
            rank_cert(ctx.nodes(), d),
            uf_preserved(m0, ctx.nodes()),
            ctx.nodes().dom().contains(index@),
            node@ == ctx.nodes()[index@],
            walk(ctx.nodes(), index@) == walk(m0, start),
            m0.dom().contains(start),
        decreases d[index@],
    {
        let ghost m_cur = ctx.nodes();
        let parent_index = node.parent_index.clone();
        proof {
            assert(cloned::<K>(node.parent_index, parent_index));
            assert(parent_index@ == node.parent_index@);
            assert(parent_index@ == m_cur[index@].parent);
        }
        let parent = match ctx.get_node(&parent_index) {
            Some(p) => p,
            None => {
                proof {
                    // the parent link of the current node dangles
                    assert(walk(m_cur, index@) == Walk::<<K as View>::V>::Missing(index@)) by {
                        lemma_walk_defined(m_cur, d, index@);
                    }
                }
                return Err(Error::NoParentError(index));
            },
        };
        node.parent_index = parent.parent_index.clone();
        proof {
            assert(cloned::<K>(parent.parent_index, node.parent_index));
            assert(node.parent_index@ == parent.parent_index@);
            assert(halving_at(m_cur, index@));
            assert(node@ == (NodeModel {
                parent: m_cur[m_cur[index@].parent].parent,
                rank: m_cur[index@].rank,
                item: m_cur[index@].item,
            }));
        }
        ctx.set_node(&index, node);
        proof {
            let kv = index@;
            let pv = parent_index@;
            assert(ctx.nodes() == halved(m_cur, kv));
            lemma_halving_preserves(m_cur, d, kv);
            lemma_uf_preserved_trans(m0, m_cur, ctx.nodes());
            // the walk of interest continues from the parent, unchanged
            assert(d[pv] < d[kv]);
            lemma_walk_unfold(m_cur, d, kv);
            lemma_halving_offpath(m_cur, d, kv, pv);
        }
        index = parent_index;
        node = parent;
    }
    proof {
        lemma_walk_defined(ctx.nodes(), d, index@);
        assert(walk(ctx.nodes(), index@) == Walk::<<K as View>::V>::Root(index@));
        assert(walk(m0, start) == Walk::<<K as View>::V>::Root(index@));
        // the root carries the payload and rank it had in the original store
        lemma_walk_defined(m0, d, start);
        lemma_walk_end(m0, start, d[start]);
        assert(m0[index@].parent == index@);
        assert(node@ == m0[index@]);
    }
    Ok(node)
}

/// Payload clones must be exact copies.
pub open spec fn items_clone_identity<V: Clone>() -> bool {
    forall|a: V, b: V| #[trigger] cloned::<V>(a, b) ==> b == a
}

/// Root that survives a union of the trees rooted at `rl` and `rr`:
/// the one of higher rank, with ties won by the left.
pub open spec fn merge_winner<KV, T>(m: NodeMap<KV, T>, rl: KV, rr: KV) -> KV {
    if m[rl].rank < m[rr].rank {
        rr
    } else {
        rl
    }
}

/// Root that is linked under the winner.
pub open spec fn merge_loser<KV, T>(m: NodeMap<KV, T>, rl: KV, rr: KV) -> KV {
    if m[rl].rank < m[rr].rank {
        rl
    } else {
        rr
    }
}

/// Rank of the winner after the union: bumped on a tie, else unchanged.
pub open spec fn merged_rank<KV, T>(m: NodeMap<KV, T>, rl: KV, rr: KV) -> u64 {
    if m[rl].rank == m[rr].rank {
        if m[rl].rank == u64::MAX {
            u64::MAX
        } else {
            (m[rl].rank + 1) as u64
        }
    } else {
        m[merge_winner(m, rl, rr)].rank
    }
}

/// A key stored as its own parent stays so across shape-preserving
/// operations.
proof fn lemma_roots_stay_roots<KV, T>(m0: NodeMap<KV, T>, m1: NodeMap<KV, T>, k: KV)
    requires
        acyclic(m0),
        acyclic(m1),
        same_shape(m0, m1),
        m0.dom().contains(k),
        m0[k].parent == k,
    ensures
        m1[k].parent == k,
{
    let d0 = choose|d: Map<KV, nat>| rank_cert(m0, d);
    let d1 = choose|d: Map<KV, nat>| rank_cert(m1, d);
    lemma_walk_defined(m0, d0, k);
    assert(walk(m0, k) == Walk::<KV>::Root(k));
    lemma_walk_defined(m1, d1, k);
    lemma_walk_end(m1, k, d1[k]);
}

/// In an acyclic store, every walk from a stored key finishes.
pub proof fn lemma_walk_total<KV, T>(m: NodeMap<KV, T>, k: KV)
    requires
        acyclic(m),
        m.dom().contains(k),
    ensures
        !(walk(m, k) is Incomplete),
{
    let d = choose|d: Map<KV, nat>| rank_cert(m, d);
    lemma_walk_defined(m, d, k);
}

/// A successful walk ends at a stored self-parented key.
pub proof fn lemma_root_in_dom<KV, T>(m: NodeMap<KV, T>, k: KV)
    requires
        acyclic(m),
        find_ok(m, k),
    ensures
        m.dom().contains(root_of(m, k)),
        m[root_of(m, k)].parent == root_of(m, k),
{
    let d = choose|d: Map<KV, nat>| rank_cert(m, d);
    lemma_walk_defined(m, d, k);
    lemma_walk_end(m, k, d[k]);
}

/// A broken chain in the preserved store was already broken before.
pub proof fn lemma_preserved_missing<KV, T>(m0: NodeMap<KV, T>, m1: NodeMap<KV, T>, k: KV)
    requires
        acyclic(m0),
        uf_preserved(m0, m1),
        m0.dom().contains(k),
        walk(m1, k) is Missing,
    ensures
        walk(m0, k) is Missing,
{
    lemma_walk_total(m0, k);
}

/// Law: a second `find` from the same key, run on the store a successful
/// `find` left behind, reaches the same root and returns the same value.
pub proof fn lemma_find_idempotent<KV, T>(m0: NodeMap<KV, T>, m1: NodeMap<KV, T>, k: KV)
    requires
        acyclic(m0),
        acyclic(m1),
        uf_preserved(m0, m1),
        find_ok(m0, k),
    ensures
        find_ok(m1, k),
        root_of(m1, k) == root_of(m0, k),
        find_value(m1, k) == find_value(m0, k),
{
    let d0 = choose|d: Map<KV, nat>| rank_cert(m0, d);
    lemma_walk_defined(m0, d0, k);
    lemma_walk_end(m0, k, d0[k]);
}

/// Finds an entry in a union-find forest.
///
/// Walks parent links from `index` to the root of its tree, halving the
/// path as it goes, and returns the payload stored at the root.  The store
/// keeps the same keys, payloads, ranks and trees; only paths shorten.
pub fn find<K, V, C>(ctx: &mut C, index: K) -> (r: Result<V, Error<K>>) where
    K: View + PartialEq + Clone,
    C: MergeCtx<Index = K, Item = V>,

    requires
        keys_well_behaved::<K>(),
        acyclic(old(ctx).nodes()),
    ensures
        acyclic(final(ctx).nodes()),
        uf_preserved(old(ctx).nodes(), final(ctx).nodes()),
        match r {
            Ok(v) => find_ok(old(ctx).nodes(), index@) && v == find_value(
                old(ctx).nodes(),
                index@,
            ),
            Err(Error::MissingEntryError(c)) => c@ == index@ && !old(ctx).nodes().dom().contains(
                index@,
            ),
            Err(Error::NoParentError(c)) => old(ctx).nodes().dom().contains(index@) && walk(
                old(ctx).nodes(),
                index@,
            ) == Walk::<<K as View>::V>::Missing(c@),
        },
        r is Ok <==> find_ok(old(ctx).nodes(), index@),
{
    match run_find(ctx, index) {
        Ok(node) => Ok(node.into_item()),
        Err(e) => Err(e),
    }
}

/// Sets the value of a node inside a union-find forest.
///
/// The payload is stored at the root of `index`'s tree; every other node,
/// every rank and every tree is untouched.
#[verifier::rlimit(80)]
pub fn set<K, V, C>(ctx: &mut C, index: K, item: V) -> (r: Result<(), Error<K>>) where
    K: View + PartialEq + Clone,
    C: MergeCtx<Index = K, Item = V>,

    requires
        keys_well_behaved::<K>(),
        acyclic(old(ctx).nodes()),
    ensures
        acyclic(final(ctx).nodes()),
        same_shape(old(ctx).nodes(), final(ctx).nodes()),
        forall|k: <K as View>::V| #[trigger]
            old(ctx).nodes().dom().contains(k) ==> final(ctx).nodes()[k].rank == old(
                ctx,
            ).nodes()[k].rank,
        match r {
            Ok(u) => find_ok(old(ctx).nodes(), index@) && final(ctx).nodes()[root_of(
                old(ctx).nodes(),
                index@,
            )].item == item && forall|k: <K as View>::V| #[trigger]
                old(ctx).nodes().dom().contains(k) && k != root_of(old(ctx).nodes(), index@)
                    ==> final(ctx).nodes()[k].item == old(ctx).nodes()[k].item,
            Err(Error::MissingEntryError(c)) => c@ == index@ && !old(ctx).nodes().dom().contains(
                index@,
            ) && uf_preserved(old(ctx).nodes(), final(ctx).nodes()),
            Err(Error::NoParentError(c)) => old(ctx).nodes().dom().contains(index@) && walk(
                old(ctx).nodes(),
                index@,
            ) == Walk::<<K as View>::V>::Missing(c@) && uf_preserved(
                old(ctx).nodes(),
                final(ctx).nodes(),
            ),
        },
        r is Ok <==> find_ok(old(ctx).nodes(), index@),
{
    let ghost m0 = ctx.nodes();
    let mut node = match run_find(ctx, index) {
        Ok(node) => node,
        Err(e) => {
            return Err(e);
        },
    };
    let ghost m1 = ctx.nodes();
    let ghost rt = root_of(m0, index@);
    node.item = item;
    let root_index = node.parent_index.clone();
    proof {
        assert(cloned::<K>(node.parent_index, root_index));
        assert(root_index@ == rt);
        assert(node@ == (NodeModel { parent: rt, rank: m0[rt].rank, item }));
    }
    ctx.set_node(&root_index, node);
    proof {
        let d1 = choose|dc: Map<<K as View>::V, nat>| rank_cert(m1, dc);
        assert(m1[rt].parent == rt);
        lemma_root_update_shape(m1, d1, rt, NodeModel { parent: rt, rank: m0[rt].rank, item });
        lemma_same_shape_trans(m0, m1, ctx.nodes());
    }
    Ok(())
}

/// Merges two trees in a union-find forest.
///
/// Finds both roots; if they differ, the root of lower rank is linked
/// under the other, `merge_op` fuses the loser's payload into the
/// winner's, and on a rank tie the surviving root's rank grows by one.
/// The fused payload is returned.
#[verifier::rlimit(100)]
pub fn merge<K, V, C, F>(ctx: &mut C, left_index: K, right_index: K, merge_op: F) -> (r: Result<
    V,
    Error<K>,
>) where
    K: View + PartialEq + Clone,
    V: Clone,
    F: Fn(&V, &V) -> V,
    C: MergeCtx<Index = K, Item = V>,

    requires
        keys_well_behaved::<K>(),
        items_clone_identity::<V>(),
        acyclic(old(ctx).nodes()),
        forall|a: &V, b: &V| #[trigger] call_requires(merge_op, (a, b)),
    ensures
        acyclic(final(ctx).nodes()),
        final(ctx).nodes().dom() == old(ctx).nodes().dom(),
        r is Ok <==> find_ok(old(ctx).nodes(), left_index@) && find_ok(
            old(ctx).nodes(),
            right_index@,
        ),
        match r {
            Ok(v) => {
                let m0 = old(ctx).nodes();
                let mf = final(ctx).nodes();
                let rl = root_of(m0, left_index@);
                let rr = root_of(m0, right_index@);
                if rl == rr {
                    uf_preserved(m0, mf) && v == find_value(m0, left_index@)
                } else {
                    let w = merge_winner(m0, rl, rr);
                    let lo = merge_loser(m0, rl, rr);
                    &&& call_ensures(merge_op, (&m0[lo].item, &m0[w].item), v)
                    &&& mf[w].item == v
                    &&& forall|k: <K as View>::V| #[trigger]
                        m0.dom().contains(k) && k != w ==> mf[k].item == m0[k].item
                    &&& mf[w].rank == merged_rank(m0, rl, rr)
                    &&& forall|k: <K as View>::V| #[trigger]
                        m0.dom().contains(k) && k != w ==> mf[k].rank == m0[k].rank
                    &&& forall|k: <K as View>::V| #[trigger]
                        m0.dom().contains(k) ==> ((walk(m0, k) is Missing) <==> (walk(
                            mf,
                            k,
                        ) is Missing)) && (walk(m0, k) matches Walk::Root(rt) ==> walk(mf, k)
                            == Walk::<<K as View>::V>::Root(
                            if rt == lo {
                                w
                            } else {
                                rt
                            },
                        ))
                }
            },
            Err(Error::MissingEntryError(c)) => uf_preserved(old(ctx).nodes(), final(ctx).nodes())
                && ((c@ == left_index@ && !old(ctx).nodes().dom().contains(left_index@)) || (
            find_ok(old(ctx).nodes(), left_index@) && c@ == right_index@ && !old(
                ctx,
            ).nodes().dom().contains(right_index@))),
            Err(Error::NoParentError(c)) => uf_preserved(old(ctx).nodes(), final(ctx).nodes()) && (
            (old(ctx).nodes().dom().contains(left_index@) && walk(old(ctx).nodes(), left_index@)
                == Walk::<<K as View>::V>::Missing(c@)) || (find_ok(old(ctx).nodes(), left_index@)
                && old(ctx).nodes().dom().contains(right_index@) && walk(
                old(ctx).nodes(),
                right_index@,
            ) is Missing)),
        },
{
    let ghost m0 = ctx.nodes();
    let ghost lkv = left_index@;
    let ghost rkv = right_index@;
    let left = match run_find(ctx, left_index) {
        Ok(n) => n,
        Err(e) => {
            return Err(e);
        },
    };
    let ghost m1 = ctx.nodes();
    let left_root = left.parent_index.clone();
    let right = match run_find(ctx, right_index) {
        Ok(n) => n,
        Err(e) => {
            proof {
                lemma_uf_preserved_trans(m0, m1, ctx.nodes());
                if m0.dom().contains(rkv) {
                    let d0 = choose|d: Map<<K as View>::V, nat>| rank_cert(m0, d);
                    lemma_walk_defined(m0, d0, rkv);
                }
            }
            return Err(e);
        },
    };
    let ghost m2 = ctx.nodes();
    let right_root = right.parent_index.clone();
    let ghost rl = root_of(m0, lkv);
    let ghost rr = root_of(m0, rkv);
    proof {
        assert(cloned::<K>(left.parent_index, left_root));
        assert(cloned::<K>(right.parent_index, right_root));
        assert(left_root@ == rl);
        assert(right_root@ == rr);
        lemma_uf_preserved_trans(m0, m1, m2);
        // the walk from the right key was already settled in the original store
        let d0 = choose|d: Map<<K as View>::V, nat>| rank_cert(m0, d);
        lemma_walk_defined(m0, d0, rkv);
        lemma_walk_end(m0, rkv, d0[rkv]);
        assert(walk(m0, rkv) is Root ==> walk(m1, rkv) == walk(m0, rkv));
        assert(root_of(m1, rkv) == rr);
        assert(m1[rr].item == m0[rr].item && m1[rr].rank == m0[rr].rank);
        assert(m1[rl].item == m0[rl].item && m1[rl].rank == m0[rl].rank);
    }
    if left_root == right_root {
        proof {
            assert(rl == rr);
        }
        return Ok(left.into_item());
    }
    proof {
        assert(rl != rr);
        // both roots are still stored as their own parents
        lemma_roots_stay_roots(m0, m2, rl);
        lemma_roots_stay_roots(m0, m2, rr);
    }
    let ghost d2 = choose|d: Map<<K as View>::V, nat>| rank_cert(m2, d);
    if left.rank() < right.rank() {
        // the right root wins; fuse the left payload into it
        let fused = merge_op(left.item(), right.item());
        let stored = fused.clone();
        proof {
            assert(cloned::<V>(fused, stored));
        }
        let wparent = right_root.clone();
        proof {
            assert(cloned::<K>(right_root, wparent));
        }
        let winner = Mergeable::from_parts(wparent, right.rank(), stored);
        let ghost m3 = m2.insert(rr, winner@);
        ctx.set_node(&right_root, winner);
        proof {
            lemma_root_update_shape(m2, d2, rr, m3[rr]);
        }
        let loser = Mergeable::from_parts(right_root, left.rank(), left.into_item());
        let ghost m4 = m3.insert(rl, loser@);
        ctx.set_node(&left_root, loser);
        proof {
            lemma_link_merge_finish(m0, m2, m3, m4, d2, rl, rr, rl, rr);
        }
        Ok(fused)
    } else {
        // the left root wins; fuse the right payload into it
        let fused = merge_op(right.item(), left.item());
        let stored = fused.clone();
        proof {
            assert(cloned::<V>(fused, stored));
        }
        let new_rank: u64 = if left.rank() == right.rank() {
            if left.rank() == u64::MAX {
                u64::MAX
            } else {
                left.rank() + 1
            }
        } else {
            left.rank()
        };
        let wparent = left_root.clone();
        proof {
            assert(cloned::<K>(left_root, wparent));
        }
        let winner = Mergeable::from_parts(wparent, new_rank, stored);
        let ghost m3 = m2.insert(rl, winner@);
        ctx.set_node(&left_root, winner);
        proof {
            lemma_root_update_shape(m2, d2, rl, m3[rl]);
        }
        let loser = Mergeable::from_parts(left_root, right.rank(), right.into_item());
        let ghost m4 = m3.insert(rr, loser@);
        ctx.set_node(&right_root, loser);
        proof {
            lemma_link_merge_finish(m0, m2, m3, m4, d2, rr, rl, rl, rr);
        }
        Ok(fused)
    }
}

/// Ties the two writes of `merge` back to the original store: walks from
/// the original map end as `merge`'s contract says.
proof fn lemma_link_merge_finish<KV, T>(
    m0: NodeMap<KV, T>,
    m2: NodeMap<KV, T>,
    m3: NodeMap<KV, T>,
    m4: NodeMap<KV, T>,
    d2: Map<KV, nat>,
    lo: KV,
    w: KV,
    rl: KV,
    rr: KV,
)
    requires
        acyclic(m0),
        uf_preserved(m0, m2),
        rank_cert(m3, d2),
        same_shape(m2, m3),
        m3.dom() == m2.dom(),
        m2.dom().contains(lo) && m2[lo].parent == lo,
        m3.dom().contains(lo) && m3[lo].parent == lo,
        m3.dom().contains(w) && m3[w].parent == w,
        lo != w,
        (lo == rl && w == rr) || (lo == rr && w == rl),
        m4 == m3.insert(lo, NodeModel { parent: w, rank: m3[lo].rank, item: m3[lo].item }),
    ensures
        acyclic(m4),
        m4.dom() == m0.dom(),
        forall|k: KV| #[trigger]
            m0.dom().contains(k) ==> ((walk(m0, k) is Missing) <==> (walk(m4, k) is Missing))
                && (walk(m0, k) matches Walk::Root(rt) ==> walk(m4, k) == Walk::<KV>::Root(
                if rt == lo {
                    w
                } else {
                    rt
                },
            )),
{
    assert(m4.dom() =~= m3.dom());
    lemma_link_roots(m3, d2, lo, w, m4);
    let d0 = choose|d: Map<KV, nat>| rank_cert(m0, d);
    let d3 = d2;
    assert forall|k: KV| #[trigger] m0.dom().contains(k) implies ((walk(m0, k) is Missing) <==> (
    walk(m4, k) is Missing)) && (walk(m0, k) matches Walk::Root(rt) ==> walk(m4, k) == Walk::<
        KV,
    >::Root(
        if rt == lo {
            w
        } else {
            rt
        },
    )) by {
        lemma_walk_defined(m0, d0, k);
        lemma_walk_defined(m3, d3, k);
        assert(walk(m4, k) == linked_root(m3, lo, w, k));
    }
}

} // verus!
