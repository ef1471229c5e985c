//! The claim matcher: once per tick, every unclaimed demand searches the
//! graph view breadth-first from its own node for the nearest stored unit
//! of its kind, and the first unit found is claimed — atomically linking
//! demand and unit, committing the delivery route, and taking the unit out
//! of its node's storage ledger.
//!
//! Demands are scanned in record order, and within one search nodes are
//! visited in first-enqueued order; which of several equally near units
//! wins is an implementation-defined tie-break, not a promise. What is
//! promised: every claim made is sound (the unit was stored, matches the
//! kind, and the committed route walks the current graph view from the
//! unit to the demand), no claim is farther than it had to be (no unit
//! still available at the end of the pass sits on a shorter walk than the
//! committed route), and the pass is complete — a demand only stays
//! unclaimed when no matching stored unit is reachable from its node at
//! all.

use vstd::prelude::*;

use vstd::set_lib::*;

use crate::graph::{
    copy_nodes, edge_joins, edges_in_range, is_path, lemma_closed_covers_path, lemma_linked_in_range,
    lemma_no_dup_bounded, lemma_path_nodes_in_range, lemma_path_reverse, lemma_reverse_no_dup,
    linked, reachable, reversed, Edge, EdgeTarget,
};
use crate::kind::ResourceKind;
use crate::world::{live_unit_ids, Location, ResourceUnit, Transit, World, TRANSIT_SCALE};

verus! {

/// What one matcher pass may do to one demand. A demand that was dead or
/// already claimed is left alone. An unclaimed demand either stays
/// unclaimed, or claims a unit that was stored and matching when the pass
/// began: the unit now travels a committed route — a duplicate-free walk
/// of the current graph view from its old node to the demand's node, no
/// longer than any walk to that holder or to any unit still available. A
/// unit claimed at the demand's own node commits its one-node route
/// already arrived, for arrival handling to deliver; the matcher itself
/// consumes nothing.
pub open spec fn match_outcome(pre: World, post: World, d: int) -> bool {
    let dm = pre.demands@[d];
    if !dm.live || dm.claim is Some {
        post.demands@[d] == dm
    } else {
        ||| post.demands@[d] == dm
        ||| (post.demands@[d].live && post.demands@[d].satellite == dm.satellite
            && post.demands@[d].kind == dm.kind && post.demands@[d].claim is Some && {
            let r = post.demands@[d].claim->Some_0 as int;
            let route = post.transit_of(r).route@;
            &&& 0 <= r < pre.resources@.len()
            &&& pre.available(r, dm.kind)
            &&& post.in_transit(r)
            &&& post.resources@[r].kind == dm.kind
            &&& post.transit_of(r).claim == d
            &&& !post.transit_of(r).pending_departure
            &&& route.len() >= 1
            &&& (route.len() >= 2 ==> post.transit_of(r).position == 0 && !post.transit_of(
                r,
            ).arrived)
            &&& (route.len() == 1 ==> post.transit_of(r).position == TRANSIT_SCALE
                && post.transit_of(r).arrived)
            &&& is_path(post.edges@, route, pre.stored_node(r), dm.satellite)
            &&& route.no_duplicates()
            &&& forall|q: Seq<usize>| is_path(post.edges@, q, dm.satellite, pre.stored_node(r))
                ==> q.len() >= route.len()
            &&& forall|r2: int, q: Seq<usize>|
                #![trigger is_path(post.edges@, q, dm.satellite, post.stored_node(r2))]
                0 <= r2 < post.resources@.len() && post.available(r2, dm.kind) && is_path(
                    post.edges@,
                    q,
                    dm.satellite,
                    post.stored_node(r2),
                ) ==> q.len() >= route.len()
        })
    }
}

/// The stored units this matcher pass took out of node `n`'s storage: the
/// units that rested at `n` when the pass began and have moved since. The
/// node's ledger drops by one clamped decrement for each of them.
pub open spec fn claimed_from(pre: World, post: World, n: int) -> Set<int> {
    Set::new(
        |r: int|
            0 <= r < pre.resources@.len() && pre.resources@[r].live && (
            pre.resources@[r].location matches Location::InStorage { node } && node as int == n)
                && post.resources@[r] != pre.resources@[r],
    )
}

/// Every node that some walk from `start` reaches in fewer steps than
/// `bound` has already been scanned: it sits in the open list below
/// `head`, with a recorded path no longer than that walk. This is the
/// breadth-first level property; it is what makes the first match also a
/// nearest match.
pub open spec fn closer_nodes_scanned(
    edges: Seq<Edge>,
    queue_nodes: Seq<usize>,
    queue_paths: Seq<Vec<usize>>,
    start: usize,
    head: int,
    bound: int,
) -> bool {
    forall|v: usize, q: Seq<usize>| #![trigger is_path(edges, q, start, v)]
        is_path(edges, q, start, v) && q.len() < bound ==> exists|k: int|
            0 <= k < head && queue_nodes[k] == v && queue_paths[k]@.len() <= q.len()
}

/// No unit of `kind` that is still available to this pass (stored, live,
/// and not yet claimed in the pass) rests at node `v`.
pub open spec fn no_match_at(w: World, claimed: Seq<bool>, kind: ResourceKind, v: usize) -> bool {
    forall|r: int| 0 <= r < w.resources@.len() && #[trigger] w.available(r, kind) && !claimed[r]
        ==> w.stored_node(r) != v
}

impl World {
    /// Breadth-first search of the graph view from `start` for the nearest
    /// available unit of `kind` not yet claimed in this pass. Returns the
    /// unit and the path from `start` to the node it rests at — a path no
    /// longer than any walk to any other available unit — or `None`
    /// exactly when no such unit is reachable at all.
    #[verifier::rlimit(100)]
    #[verifier::spinoff_prover]
    #[verifier::loop_isolation(false)]
    fn search_claim(&self, claimed: &Vec<bool>, start: usize, kind: ResourceKind) -> (found:
        Option<(usize, Vec<usize>)>)
        requires
            self.wf(),
            start < self.nodes@.len(),
            claimed@.len() == self.resources@.len(),
        ensures
            found matches Some(p) ==> {
                &&& p.0 < self.resources@.len()
                &&& self.available(p.0 as int, kind)
                &&& !claimed@[p.0 as int]
                &&& is_path(self.edges@, p.1@, start, self.stored_node(p.0 as int))
                &&& p.1@.no_duplicates()
                &&& forall|q: Seq<usize>|
                    is_path(self.edges@, q, start, self.stored_node(p.0 as int)) ==> q.len()
                        >= p.1@.len()
                &&& forall|r2: int, q: Seq<usize>|
                    #![trigger is_path(self.edges@, q, start, self.stored_node(r2))]
                    0 <= r2 < self.resources@.len() && self.available(r2, kind) && !claimed@[r2]
                        && is_path(self.edges@, q, start, self.stored_node(r2)) ==> q.len()
                        >= p.1@.len()
            },
            found is None ==> forall|r: int| 0 <= r < self.resources@.len()
                && #[trigger] self.available(r, kind) && !claimed@[r] ==> !reachable(
                self.edges@,
                start,
                self.stored_node(r),
            ),
    {
        let n = self.nodes.len();
        let total_r = self.resources.len();
        let total_e = self.edges.len();
        let mut visited: Vec<bool> = Vec::new();
        let mut v0: usize = 0;
        while v0 < n
            invariant
                v0 <= n,
                visited@.len() == v0,
                forall|v: int| 0 <= v < v0 ==> !visited@[v],
            decreases n - v0,
        {
            visited.push(false);
            v0 = v0 + 1;
        }
        let mut queue_nodes: Vec<usize> = Vec::new();
        let mut queue_paths: Vec<Vec<usize>> = Vec::new();
        visited.set(start, true);
        queue_nodes.push(start);
        let mut first_path: Vec<usize> = Vec::new();
        first_path.push(start);
        queue_paths.push(first_path);
        proof {
            assert(queue_nodes@[0] == start);
            assert forall|v: int| 0 <= v < n && visited@[v] implies exists|k: int|
                0 <= k < queue_nodes@.len() && queue_nodes@[k] == v by {
                assert(v == start as int);
                assert(queue_nodes@[0] == v);
            }
        }
        let mut head: usize = 0;
        while head < queue_nodes.len()
            invariant
                visited@.len() == n,
                visited@[start as int],
                queue_nodes@.len() == queue_paths@.len(),
                queue_nodes@.len() >= 1,
                queue_nodes@[0] == start,
                queue_paths@[0]@.len() == 1,
                head <= queue_nodes@.len(),
                queue_nodes@.len() <= n,
                queue_nodes@.no_duplicates(),
                forall|k: int| 0 <= k < queue_nodes@.len() ==> (#[trigger] queue_nodes@[k]) < n
                    && visited@[queue_nodes@[k] as int],
                forall|v: int| 0 <= v < n && visited@[v] ==> exists|k: int|
                    0 <= k < queue_nodes@.len() && queue_nodes@[k] == v,
                forall|k: int| 0 <= k < queue_paths@.len() ==> is_path(
                    self.edges@,
                    (#[trigger] queue_paths@[k])@,
                    start,
                    queue_nodes@[k],
                ),
                forall|k: int| 0 <= k < queue_paths@.len() ==> (
                #[trigger] queue_paths@[k])@.no_duplicates(),
                forall|k: int, m: int| #![trigger queue_paths@[k]@[m]]
                    0 <= k < queue_paths@.len() && 0 <= m < queue_paths@[k]@.len() ==>
                        queue_paths@[k]@[m] < n && visited@[queue_paths@[k]@[m] as int],
                forall|k: int| 0 <= k < head ==> no_match_at(
                    *self,
                    claimed@,
                    kind,
                    #[trigger] queue_nodes@[k],
                ),
                forall|k: int, w: usize| #![trigger linked(self.edges@, queue_nodes@[k], w)]
                    0 <= k < head && w < n && linked(self.edges@, queue_nodes@[k], w)
                        ==> visited@[w as int],
                forall|k1: int, k2: int| #![trigger queue_paths@[k1], queue_paths@[k2]]
                    0 <= k1 <= k2 < queue_paths@.len() ==> queue_paths@[k1]@.len()
                        <= queue_paths@[k2]@.len(),
                head < queue_paths@.len() ==> forall|k: int|
                    0 <= k < queue_paths@.len() ==> (#[trigger] queue_paths@[k])@.len()
                        <= queue_paths@[head as int]@.len() + 1,
                head < queue_paths@.len() ==> closer_nodes_scanned(
                    self.edges@,
                    queue_nodes@,
                    queue_paths@,
                    start,
                    head as int,
                    queue_paths@[head as int]@.len() as int,
                ),
                forall|k1: int, k2: int|
                    #![trigger linked(self.edges@, queue_nodes@[k1], queue_nodes@[k2])]
                    0 <= k1 < head && 0 <= k2 < queue_nodes@.len() && linked(
                        self.edges@,
                        queue_nodes@[k1],
                        queue_nodes@[k2],
                    ) ==> queue_paths@[k2]@.len() <= queue_paths@[k1]@.len() + 1,
            decreases n - head,
        {
            let cur = queue_nodes[head];
            let mut r: usize = 0;
            while r < total_r
                invariant
                    r <= total_r,
                    forall|q: int| 0 <= q < r && #[trigger] self.available(q, kind)
                        && !claimed@[q] ==> self.stored_node(q) != cur,
                decreases total_r - r,
            {
                let candidate = &self.resources[r];
                let mut is_match = false;
                match &candidate.location {
                    Location::InStorage { node } => {
                        if candidate.live && *node == cur && !claimed[r] && candidate.kind
                            == kind {
                            is_match = true;
                        }
                    },
                    Location::InTransit { .. } => {},
                }
                if is_match {
                    let path = copy_nodes(&queue_paths[head]);
                    proof {
                        assert forall|q: Seq<usize>|
                            is_path(self.edges@, q, start, cur) implies q.len()
                            >= path@.len() by {
                            if q.len() < queue_paths@[head as int]@.len() {
                                let k = choose|k: int|
                                    0 <= k < head && queue_nodes@[k] == cur && queue_paths@[
                                        k
                                    ]@.len() <= q.len();
                                assert(queue_nodes@[k] == queue_nodes@[head as int]);
                            }
                        }
                        assert forall|r2: int, q: Seq<usize>|
                            #![trigger is_path(self.edges@, q, start, self.stored_node(r2))]
                            0 <= r2 < self.resources@.len() && self.available(r2, kind)
                                && !claimed@[r2] && is_path(
                                self.edges@,
                                q,
                                start,
                                self.stored_node(r2),
                            ) implies q.len() >= path@.len() by {
                            if q.len() < queue_paths@[head as int]@.len() {
                                let v = self.stored_node(r2);
                                let k = choose|k: int|
                                    0 <= k < head && queue_nodes@[k] == v && queue_paths@[
                                        k
                                    ]@.len() <= q.len();
                                assert(no_match_at(*self, claimed@, kind, queue_nodes@[k]));
                            }
                        }
                    }
                    return Some((r, path));
                }
                r = r + 1;
            }
            let mut e: usize = 0;
            while e < total_e
                invariant
                    e <= total_e,
                    visited@.len() == n,
                    visited@[start as int],
                    queue_nodes@.len() == queue_paths@.len(),
                    queue_nodes@[0] == start,
                    queue_paths@[0]@.len() == 1,
                    head < queue_nodes@.len(),
                    queue_nodes@.len() <= n,
                    queue_nodes@[head as int] == cur,
                    queue_nodes@.no_duplicates(),
                    forall|k: int| 0 <= k < queue_nodes@.len() ==> (#[trigger] queue_nodes@[k])
                        < n && visited@[queue_nodes@[k] as int],
                    forall|v: int| 0 <= v < n && visited@[v] ==> exists|k: int|
                        0 <= k < queue_nodes@.len() && queue_nodes@[k] == v,
                    forall|k: int| 0 <= k < queue_paths@.len() ==> is_path(
                        self.edges@,
                        (#[trigger] queue_paths@[k])@,
                        start,
                        queue_nodes@[k],
                    ),
                    forall|k: int| 0 <= k < queue_paths@.len() ==> (
                    #[trigger] queue_paths@[k])@.no_duplicates(),
                    forall|k: int, m: int| #![trigger queue_paths@[k]@[m]]
                        0 <= k < queue_paths@.len() && 0 <= m < queue_paths@[k]@.len() ==>
                            queue_paths@[k]@[m] < n && visited@[queue_paths@[k]@[m] as int],
                    forall|k: int| 0 <= k < head ==> no_match_at(
                        *self,
                        claimed@,
                        kind,
                        #[trigger] queue_nodes@[k],
                    ),
                    forall|k: int, w: usize| #![trigger linked(self.edges@, queue_nodes@[k], w)]
                        0 <= k < head && w < n && linked(self.edges@, queue_nodes@[k], w) ==>
                            visited@[w as int],
                    forall|j: int, w: usize| #![trigger edge_joins(self.edges@[j], cur, w)]
                        0 <= j < e && w < n && edge_joins(self.edges@[j], cur, w) ==>
                            visited@[w as int],
                    forall|k1: int, k2: int| #![trigger queue_paths@[k1], queue_paths@[k2]]
                        0 <= k1 <= k2 < queue_paths@.len() ==> queue_paths@[k1]@.len()
                            <= queue_paths@[k2]@.len(),
                    forall|k: int| 0 <= k < queue_paths@.len() ==> (
                    #[trigger] queue_paths@[k])@.len() <= queue_paths@[head as int]@.len() + 1,
                    closer_nodes_scanned(
                        self.edges@,
                        queue_nodes@,
                        queue_paths@,
                        start,
                        head as int,
                        queue_paths@[head as int]@.len() as int,
                    ),
                    forall|k1: int, k2: int|
                        #![trigger linked(self.edges@, queue_nodes@[k1], queue_nodes@[k2])]
                        0 <= k1 < head && 0 <= k2 < queue_nodes@.len() && linked(
                            self.edges@,
                            queue_nodes@[k1],
                            queue_nodes@[k2],
                        ) ==> queue_paths@[k2]@.len() <= queue_paths@[k1]@.len() + 1,
                decreases total_e - e,
            {
                let live = self.edges[e].live;
                let under_construction = self.edges[e].under_construction;
                let valid = self.edges[e].valid;
                let anchor = self.edges[e].anchor;
                if live && !under_construction && valid {
                    match self.edges[e].target {
                        EdgeTarget::Node { node } => {
                            if anchor == cur || node == cur {
                                let w = if anchor == cur {
                                    node
                                } else {
                                    anchor
                                };
                                if w < n && !visited[w] {
                                    let ghost old_queue = queue_nodes@;
                                    let ghost old_paths = queue_paths@;
                                    let ghost vis0 = visited@;
                                    visited.set(w, true);
                                    queue_nodes.push(w);
                                    let mut p2 = copy_nodes(&queue_paths[head]);
                                    p2.push(w);
                                    queue_paths.push(p2);
                                    proof {
                                        assert(edge_joins(self.edges@[e as int], cur, w));
                                        lemma_enqueue_keeps_levels(
                                            self.edges@,
                                            old_queue,
                                            old_paths,
                                            vis0,
                                            queue_nodes@,
                                            queue_paths@,
                                            visited@,
                                            start,
                                            head as int,
                                            cur,
                                            w,
                                            n as int,
                                        );
                                        lemma_no_dup_bounded(queue_nodes@, n);
                                    }
                                }
                            }
                        },
                        EdgeTarget::Pending => {},
                    }
                }
                e = e + 1;
            }
            proof {
                assert(no_match_at(*self, claimed@, kind, cur));
                assert forall|k: int, w: usize| #![trigger linked(self.edges@, queue_nodes@[k], w)]
                    0 <= k < head + 1 && w < n && linked(self.edges@, queue_nodes@[k], w) implies
                    visited@[w as int] by {
                    if k == head {
                        let j = choose|j: int|
                            0 <= j < self.edges@.len() && edge_joins(self.edges@[j], cur, w);
                        assert(edge_joins(self.edges@[j], cur, w));
                    }
                }
                assert forall|k1: int, k2: int|
                    #![trigger linked(self.edges@, queue_nodes@[k1], queue_nodes@[k2])]
                    0 <= k1 < head + 1 && 0 <= k2 < queue_nodes@.len() && linked(
                        self.edges@,
                        queue_nodes@[k1],
                        queue_nodes@[k2],
                    ) implies queue_paths@[k2]@.len() <= queue_paths@[k1]@.len() + 1 by {
                    if k1 == head {
                        assert(queue_paths@[k2]@.len() <= queue_paths@[head as int]@.len() + 1);
                    }
                }
                if head + 1 < queue_nodes.len() {
                    lemma_level_advance(
                        self.edges@,
                        queue_nodes@,
                        queue_paths@,
                        visited@,
                        start,
                        head as int,
                        n as int,
                    );
                }
            }
            head = head + 1;
        }
        proof {
            assert forall|r: int|
                0 <= r < self.resources@.len() && #[trigger] self.available(r, kind)
                    && !claimed@[r] implies !reachable(
                self.edges@,
                start,
                self.stored_node(r),
            ) by {
                assert(self.wf_resource(r));
                if reachable(self.edges@, start, self.stored_node(r)) {
                    let p = choose|p: Seq<usize>|
                        is_path(self.edges@, p, start, self.stored_node(r));
                    assert forall|v: usize, w: usize| #![trigger linked(self.edges@, v, w)]
                        v < visited@.len() && visited@[v as int] && linked(self.edges@, v, w)
                            implies w < visited@.len() && visited@[w as int] by {
                        lemma_linked_in_range(self.edges@, n as int, v, w);
                        let k = choose|k: int|
                            0 <= k < queue_nodes@.len() && queue_nodes@[k] == v;
                        assert(linked(self.edges@, queue_nodes@[k], w));
                    }
                    lemma_closed_covers_path(
                        self.edges@,
                        visited@,
                        p,
                        start,
                        self.stored_node(r),
                    );
                    let v = self.stored_node(r);
                    let k = choose|k: int| 0 <= k < queue_nodes@.len() && queue_nodes@[k] == v;
                    assert(no_match_at(*self, claimed@, kind, queue_nodes@[k]));
                }
            }
        }
        None
    }

    /// One matcher pass over every demand, in record order. Each live
    /// unclaimed demand searches breadth-first from its node; the first
    /// matching stored unit found is claimed: the unit leaves its node's
    /// ledger — one clamped decrement per claim, and no other ledger
    /// moves — and starts travelling the reversed search path. A unit
    /// found at the demand's own node commits its one-node route already
    /// arrived, for arrival handling to deliver; the matcher itself
    /// creates and destroys nothing, neither units nor demand records.
    /// A demand stays unclaimed only when no matching stored unit is
    /// reachable from its node — such a demand is simply retried on a
    /// later tick.
    #[verifier::loop_isolation(false)]
    pub fn match_claims(&mut self)
        requires
            old(self).wf(),
        ensures
            final(self).wf(),
            final(self).edges@ == old(self).edges@,
            final(self).nodes@.len() == old(self).nodes@.len(),
            final(self).resources@.len() == old(self).resources@.len(),
            final(self).demands@.len() == old(self).demands@.len(),
            live_unit_ids(*final(self)) == live_unit_ids(*old(self)),
            forall|d: int| 0 <= d < old(self).demands@.len() ==> (#[trigger] final(self).demands@[d]).live == old(self).demands@[d].live,
            forall|n: int| 0 <= n < old(self).nodes@.len() ==> {
                let pre = old(self).nodes@[n];
                let post = #[trigger] final(self).nodes@[n];
                let k = claimed_from(*old(self), *final(self), n).len();
                &&& post.storage_count == (if pre.storage_count >= k {
                    pre.storage_count - k
                } else {
                    0
                })
                &&& post.storage_size == pre.storage_size
                &&& post.spawns == pre.spawns
                &&& post.consumer == pre.consumer
                &&& post.pending_demands == pre.pending_demands
            },
            forall|r: int| 0 <= r < old(self).resources@.len() && !(old(self).resources@[r].live
                && old(self).resources@[r].location is InStorage) ==> final(self).resources@[r]
                == old(self).resources@[r],
            forall|r: int| 0 <= r < old(self).resources@.len() && (#[trigger] final(self).resources@[r]).live && final(self).resources@[r].location is InStorage ==> final(self).resources@[r] == old(self).resources@[r],
            forall|d: int| 0 <= d < old(self).demands@.len() ==> #[trigger] match_outcome(
                *old(self),
                *final(self),
                d,
            ),
            forall|d: int, r: int|
                0 <= d < final(self).demands@.len() && final(self).unclaimed(d) && 0 <= r < final(self).resources@.len() && #[trigger] final(self).available(
                    r,
                    final(self).demands@[d].kind,
                ) ==> !reachable(
                    final(self).edges@,
                    final(self).demands@[d].satellite,
                    final(self).stored_node(r),
                ),
    {
        let total_d = self.demands.len();
        let total_r = self.resources.len();
        let mut claimed: Vec<bool> = Vec::new();
        let mut c0: usize = 0;
        while c0 < total_r
            invariant
                c0 <= total_r,
                claimed@.len() == c0,
                forall|r: int| 0 <= r < c0 ==> !claimed@[r],
            decreases total_r - c0,
        {
            claimed.push(false);
            c0 = c0 + 1;
        }
        proof {
            assert forall|n: int| 0 <= n < self.nodes@.len() implies claimed_from(
                *old(self),
                *self,
                n,
            ) =~= Set::<int>::empty() by {}
        }
        let mut d: usize = 0;
        while d < total_d
            invariant
                self.wf(),
                d <= total_d,
                self.edges@ == old(self).edges@,
                self.nodes@.len() == old(self).nodes@.len(),
                self.resources@.len() == old(self).resources@.len(),
                self.demands@.len() == old(self).demands@.len(),
                claimed@.len() == total_r,
                forall|n: int| 0 <= n < old(self).nodes@.len() ==> {
                    let pre = old(self).nodes@[n];
                    let post = #[trigger] self.nodes@[n];
                    let k = claimed_from(*old(self), *self, n).len();
                    &&& claimed_from(*old(self), *self, n).finite()
                    &&& post.storage_count == (if pre.storage_count >= k {
                        pre.storage_count - k
                    } else {
                        0
                    })
                    &&& post.storage_size == pre.storage_size
                    &&& post.spawns == pre.spawns
                    &&& post.consumer == pre.consumer
                    &&& post.pending_demands == pre.pending_demands
                },
                forall|r: int| 0 <= r < total_r ==> (#[trigger] self.resources@[r]).live == old(
                    self,
                ).resources@[r].live,
                forall|q: int| 0 <= q < total_d ==> (#[trigger] self.demands@[q]).live == old(
                    self,
                ).demands@[q].live,
                forall|r: int| 0 <= r < total_r && #[trigger] claimed@[r] ==> !(
                self.resources@[r].live && self.resources@[r].location is InStorage),
                forall|r: int| 0 <= r < total_r && !(old(self).resources@[r].live && old(
                    self,
                ).resources@[r].location is InStorage) ==> self.resources@[r] == old(
                    self,
                ).resources@[r],
                forall|r: int| 0 <= r < total_r && (#[trigger] self.resources@[r]).live
                    && self.resources@[r].location is InStorage ==> self.resources@[r] == old(
                    self,
                ).resources@[r],
                forall|q: int| 0 <= q < d ==> #[trigger] match_outcome(*old(self), *self, q),
                forall|q: int| d <= q < total_d ==> self.demands@[q] == old(self).demands@[q],
                forall|q: int, r: int|
                    0 <= q < d && self.unclaimed(q) && 0 <= r < total_r
                        && #[trigger] self.available(r, self.demands@[q].kind) && !claimed@[r]
                        ==> !reachable(
                        self.edges@,
                        self.demands@[q].satellite,
                        self.stored_node(r),
                    ),
            decreases total_d - d,
        {
            let ghost before = *self;
            let mut is_candidate = false;
            if self.demands[d].live {
                match self.demands[d].claim {
                    Option::None => {
                        is_candidate = true;
                    },
                    Option::Some(_) => {},
                }
            }
            if is_candidate {
                let start = self.demands[d].satellite;
                let kind = self.demands[d].kind;
                proof {
                    assert(self.wf_demand(d as int));
                }
                let found = self.search_claim(&claimed, start, kind);
                match found {
                    Option::Some(pair) => {
                        let (rid, path) = pair;
                        let route = reversed(&path);
                        proof {
                            assert(before.available(rid as int, kind));
                            assert(before.wf_resource(rid as int));
                            lemma_path_reverse(self.edges@, path@, start, self.stored_node(
                                rid as int,
                            ));
                            lemma_reverse_no_dup(path@);
                            assert(route@[0] == self.stored_node(rid as int));
                            assert(route@[route@.len() - 1] == start);
                            lemma_path_nodes_in_range(
                                self.edges@,
                                route@,
                                self.stored_node(rid as int),
                                start,
                                self.nodes@.len() as int,
                            );
                        }
                        let ghost routeseq = route@;
                        let home = route[0];
                        let count = self.nodes[home].storage_count;
                        if count > 0 {
                            self.nodes[home].storage_count = count - 1;
                        }
                        let ghost mid = *self;
                        proof {
                            assert forall|q: int| 0 <= q < self.demands@.len() implies
                                #[trigger] self.wf_demand(q) by {
                                assert(before.wf_demand(q));
                            }
                            assert forall|j: int| 0 <= j < self.resources@.len() implies
                                #[trigger] self.wf_resource(j) by {
                                assert(before.wf_resource(j));
                            }
                        }
                        let route_short = route.len() < 2;
                        self.demands[d].claim = Some(rid);
                        let kind_r = self.resources[rid].kind;
                        self.resources.set(
                            rid,
                            ResourceUnit {
                                live: true,
                                kind: kind_r,
                                location: Location::InTransit {
                                    transit: Transit {
                                        route,
                                        claim: d,
                                        position: if route_short {
                                            TRANSIT_SCALE
                                        } else {
                                            0
                                        },
                                        arrived: route_short,
                                        pending_departure: false,
                                    },
                                },
                            },
                        );
                        claimed.set(rid, true);
                        proof {
                            Self::lemma_match_step_wf(mid, *self, d as int, rid as int);
                            assert(self.resources@[rid as int] != old(self).resources@[rid
                                as int]);
                            Self::lemma_claimed_from_step(
                                *old(self),
                                before,
                                *self,
                                rid as int,
                                home as int,
                            );
                            assert(old(self).demands@[d as int] == before.demands@[d as int]);
                            assert(before.resources@[rid as int] == old(self).resources@[rid
                                as int]);
                            assert(old(self).available(rid as int, kind));
                            assert(old(self).stored_node(rid as int) == before.stored_node(
                                rid as int,
                            ));
                            assert(self.transit_of(rid as int).route@ == routeseq);
                            assert(is_path(
                                self.edges@,
                                routeseq,
                                before.stored_node(rid as int),
                                start,
                            ));
                            assert forall|q: Seq<usize>|
                                is_path(
                                    self.edges@,
                                    q,
                                    start,
                                    old(self).stored_node(rid as int),
                                ) implies q.len() >= routeseq.len() by {
                                assert(is_path(
                                    before.edges@,
                                    q,
                                    start,
                                    before.stored_node(rid as int),
                                ));
                            }
                            assert forall|r2: int, q: Seq<usize>|
                                #![trigger is_path(self.edges@, q, start, self.stored_node(r2))]
                                0 <= r2 < self.resources@.len() && self.available(r2, kind)
                                    && is_path(
                                    self.edges@,
                                    q,
                                    start,
                                    self.stored_node(r2),
                                ) implies q.len() >= routeseq.len() by {
                                assert(r2 != rid as int);
                                assert(self.resources@[r2] == before.resources@[r2]);
                                assert(before.available(r2, kind) && !claimed@[r2]);
                                assert(is_path(
                                    before.edges@,
                                    q,
                                    start,
                                    before.stored_node(r2),
                                ));
                            }
                            assert(match_outcome(*old(self), *self, d as int));
                            assert forall|q: int| 0 <= q < d implies #[trigger] match_outcome(
                                *old(self),
                                *self,
                                q,
                            ) by {
                                Self::lemma_match_outcome_framed(
                                    *old(self),
                                    before,
                                    *self,
                                    q,
                                    rid as int,
                                );
                            }
                            assert forall|q: int, r: int|
                                0 <= q < d + 1 && self.unclaimed(q) && 0 <= r < total_r
                                    && #[trigger] self.available(r, self.demands@[q].kind)
                                    && !claimed@[r] implies !reachable(
                                self.edges@,
                                self.demands@[q].satellite,
                                self.stored_node(r),
                            ) by {
                                assert(r != rid);
                                assert(self.resources@[r] == before.resources@[r]);
                                assert(before.available(r, before.demands@[q].kind));
                                if q < d {
                                } else {
                                    assert(false);
                                }
                            }
                        }
                    },
                    Option::None => {
                        proof {
                            assert forall|q: int, r: int|
                                0 <= q < d + 1 && self.unclaimed(q) && 0 <= r < total_r
                                    && #[trigger] self.available(r, self.demands@[q].kind)
                                    && !claimed@[r] implies !reachable(
                                self.edges@,
                                self.demands@[q].satellite,
                                self.stored_node(r),
                            ) by {}
                        }
                    },
                }
            }
            d = d + 1;
        }
        proof {
            assert forall|q: int, r: int|
                0 <= q < total_d && self.unclaimed(q) && 0 <= r < total_r
                    && #[trigger] self.available(r, self.demands@[q].kind) implies !reachable(
                self.edges@,
                self.demands@[q].satellite,
                self.stored_node(r),
            ) by {
                assert(!claimed@[r]);
            }
            assert(live_unit_ids(*self) =~= live_unit_ids(*old(self)));
        }
    }

    /// One claim commit leaves the world well formed: the new link is
    /// bidirectional, the committed route is a walk ending at the
    /// demand's node, and nothing else held a reference to either side.
    /// A one-node route is committed already arrived, at the hop's end.
    proof fn lemma_match_step_wf(pre: World, post: World, d: int, rid: int)
        requires
            pre.wf_edges(),
            forall|q: int| 0 <= q < pre.demands@.len() ==> #[trigger] pre.wf_demand(q),
            forall|j: int| 0 <= j < pre.resources@.len() ==> #[trigger] pre.wf_resource(j),
            0 <= d < pre.demands@.len(),
            pre.demands@[d].live,
            pre.demands@[d].claim is None,
            0 <= rid < pre.resources@.len(),
            pre.resources@[rid].live,
            pre.resources@[rid].location is InStorage,
            pre.resources@[rid].kind == pre.demands@[d].kind,
            post.edges@ == pre.edges@,
            post.nodes@.len() == pre.nodes@.len(),
            post.resources@.len() == pre.resources@.len(),
            post.demands@.len() == pre.demands@.len(),
            forall|x: int| 0 <= x < post.nodes@.len() ==> (#[trigger] post.nodes@[x]).storage_count
                <= post.nodes@[x].storage_size,
            forall|j: int| 0 <= j < pre.resources@.len() && j != rid ==> post.resources@[j]
                == pre.resources@[j],
            forall|q: int| 0 <= q < pre.demands@.len() && q != d ==> post.demands@[q]
                == pre.demands@[q],
            post.demands@[d].live,
            post.demands@[d].satellite == pre.demands@[d].satellite,
            post.demands@[d].kind == pre.demands@[d].kind,
            post.demands@[d].claim matches Some(rr) && rr == rid,
            post.resources@[rid].live,
            post.resources@[rid].kind == pre.resources@[rid].kind,
            post.resources@[rid].location matches Location::InTransit { transit } && {
                &&& transit.claim == d
                &&& !transit.pending_departure
                &&& transit.route@.len() >= 1
                &&& (transit.route@.len() >= 2 ==> transit.position == 0 && !transit.arrived)
                &&& (transit.route@.len() == 1 ==> transit.position == TRANSIT_SCALE
                    && transit.arrived)
                &&& (forall|k: int| 0 <= k < transit.route@.len() ==> (
                #[trigger] transit.route@[k]) < post.nodes@.len())
                &&& transit.route@[transit.route@.len() - 1] == pre.demands@[d].satellite
            },
        ensures
            post.wf(),
    {
        assert(pre.wf_resource(rid));
        assert(pre.wf_demand(d));
        assert forall|q: int| 0 <= q < post.demands@.len() implies #[trigger] post.wf_demand(
            q,
        ) by {
            assert(pre.wf_demand(q));
            let dm = post.demands@[q];
            if dm.live && dm.claim is Some {
                let r = dm.claim->Some_0 as int;
                if q != d {
                    assert(post.demands@[q] == pre.demands@[q]);
                    if r == rid {
                        assert(pre.resources@[rid].location is InTransit);
                    }
                    assert(post.resources@[r] == pre.resources@[r]);
                }
            }
        }
        assert forall|j: int| 0 <= j < post.resources@.len() implies #[trigger] post.wf_resource(
            j,
        ) by {
            assert(pre.wf_resource(j));
            if post.resources@[j].live {
                if j != rid {
                    assert(post.resources@[j] == pre.resources@[j]);
                    if pre.resources@[j].location is InTransit {
                        let c = pre.transit_of(j).claim as int;
                        assert(pre.demands@[c].claim matches Some(x) && x == j);
                        if c == d {
                            assert(pre.demands@[d].claim is None);
                        }
                        assert(post.demands@[c] == pre.demands@[c]);
                    }
                }
            }
        }
    }

    /// One claim commit moves exactly one unit out of exactly one node's
    /// storage: the claimed-from set of the holder node gains that unit
    /// and nothing else changes, so the ledger arithmetic advances by one
    /// clamped decrement there and stands still everywhere else.
    proof fn lemma_claimed_from_step(w0: World, pre: World, post: World, rid: int, home: int)
        requires
            w0.resources@.len() == pre.resources@.len(),
            post.resources@.len() == pre.resources@.len(),
            0 <= rid < pre.resources@.len(),
            pre.resources@[rid] == w0.resources@[rid],
            w0.resources@[rid].live,
            w0.resources@[rid].location matches Location::InStorage { node } && node as int
                == home,
            post.resources@[rid] != w0.resources@[rid],
            forall|j: int| 0 <= j < pre.resources@.len() && j != rid ==> post.resources@[j]
                == pre.resources@[j],
        ensures
            forall|n: int| n != home ==> claimed_from(w0, post, n) == claimed_from(w0, pre, n),
            !claimed_from(w0, pre, home).contains(rid),
            claimed_from(w0, post, home) == claimed_from(w0, pre, home).insert(rid),
            claimed_from(w0, pre, home).finite(),
            claimed_from(w0, post, home).finite(),
            claimed_from(w0, post, home).len() == claimed_from(w0, pre, home).len() + 1,
    {
        assert forall|n: int| n != home implies claimed_from(w0, post, n) == claimed_from(
            w0,
            pre,
            n,
        ) by {
            assert(claimed_from(w0, post, n) =~= claimed_from(w0, pre, n));
        }
        assert(claimed_from(w0, post, home) =~= claimed_from(w0, pre, home).insert(rid));
        Self::lemma_claimed_from_finite(w0, pre, home);
        Self::lemma_claimed_from_finite(w0, post, home);
        vstd::set::axiom_set_insert_len(claimed_from(w0, pre, home), rid);
    }

    /// Every claimed-from set is a finite subset of the unit indices.
    proof fn lemma_claimed_from_finite(pre: World, post: World, n: int)
        ensures
            claimed_from(pre, post, n).finite(),
            claimed_from(pre, post, n).len() <= pre.resources@.len(),
    {
        let s = claimed_from(pre, post, n);
        assert(s.subset_of(set_int_range(0, pre.resources@.len() as int)));
        lemma_int_range(0, pre.resources@.len() as int);
        lemma_len_subset(s, set_int_range(0, pre.resources@.len() as int));
    }

    /// An unrelated commit cannot disturb the recorded outcome of an
    /// earlier demand: the later step only moves one still-stored unit and
    /// one still-unclaimed demand, and neither appears in the earlier
    /// outcome.
    proof fn lemma_match_outcome_framed(w0: World, pre: World, post: World, q: int, rid: int)
        requires
            0 <= q < w0.demands@.len(),
            w0.demands@.len() == pre.demands@.len(),
            w0.resources@.len() == pre.resources@.len(),
            post.demands@.len() == pre.demands@.len(),
            post.resources@.len() == pre.resources@.len(),
            match_outcome(w0, pre, q),
            post.edges@ == pre.edges@,
            0 <= rid < pre.resources@.len(),
            pre.resources@[rid].live,
            pre.resources@[rid].location is InStorage,
            !(post.resources@[rid].live && post.resources@[rid].location is InStorage),
            forall|j: int| 0 <= j < pre.resources@.len() && j != rid ==> post.resources@[j]
                == pre.resources@[j],
            pre.demands@[q] == post.demands@[q],
        ensures
            match_outcome(w0, post, q),
    {
        let dm = w0.demands@[q];
        if dm.live && dm.claim is None {
            if post.demands@[q] == dm {
            } else {
                let r = pre.demands@[q].claim->Some_0 as int;
                assert(pre.in_transit(r));
                assert(r != rid);
                assert(post.resources@[r] == pre.resources@[r]);
                assert forall|p2: Seq<usize>|
                    is_path(post.edges@, p2, dm.satellite, w0.stored_node(r)) implies p2.len()
                    >= post.transit_of(r).route@.len() by {
                    assert(is_path(pre.edges@, p2, dm.satellite, w0.stored_node(r)));
                }
                assert forall|r2: int, p2: Seq<usize>|
                    #![trigger is_path(post.edges@, p2, dm.satellite, post.stored_node(r2))]
                    0 <= r2 < post.resources@.len() && post.available(r2, dm.kind) && is_path(
                        post.edges@,
                        p2,
                        dm.satellite,
                        post.stored_node(r2),
                    ) implies p2.len() >= post.transit_of(r).route@.len() by {
                    assert(r2 != rid);
                    assert(post.resources@[r2] == pre.resources@[r2]);
                    assert(pre.available(r2, dm.kind));
                    assert(is_path(pre.edges@, p2, dm.satellite, pre.stored_node(r2)));
                }
            }
        }
    }
}

/// Enqueueing a freshly discovered neighbour of the node under scan keeps
/// every open-list invariant: the list stays duplicate-free and level
/// sorted, its entries stay valid walks, the visited set still mirrors
/// the list, and the level properties carry over — the new entry sits one
/// step past the current level, and nothing strictly closer was missed.
#[verifier::rlimit(100)]
proof fn lemma_enqueue_keeps_levels(
    edges: Seq<Edge>,
    old_queue: Seq<usize>,
    old_paths: Seq<Vec<usize>>,
    vis0: Seq<bool>,
    new_queue: Seq<usize>,
    new_paths: Seq<Vec<usize>>,
    vis1: Seq<bool>,
    start: usize,
    head: int,
    cur: usize,
    w: usize,
    n: int,
)
    requires
        old_queue.len() == old_paths.len(),
        0 <= head < old_queue.len(),
        old_queue[head] == cur,
        old_queue.no_duplicates(),
        vis0.len() == n,
        forall|k: int| 0 <= k < old_queue.len() ==> (#[trigger] old_queue[k]) < n
            && vis0[old_queue[k] as int],
        forall|v: int| 0 <= v < n && vis0[v] ==> exists|k: int|
            0 <= k < old_queue.len() && old_queue[k] == v,
        forall|k: int| 0 <= k < old_paths.len() ==> is_path(
            edges,
            (#[trigger] old_paths[k])@,
            start,
            old_queue[k],
        ),
        forall|k1: int, k2: int| #![trigger old_paths[k1], old_paths[k2]]
            0 <= k1 <= k2 < old_paths.len() ==> old_paths[k1]@.len() <= old_paths[k2]@.len(),
        forall|k: int| 0 <= k < old_paths.len() ==> (#[trigger] old_paths[k])@.len()
            <= old_paths[head]@.len() + 1,
        closer_nodes_scanned(edges, old_queue, old_paths, start, head, old_paths[head]@.len() as int),
        forall|k1: int, k2: int|
            #![trigger linked(edges, old_queue[k1], old_queue[k2])]
            0 <= k1 < head && 0 <= k2 < old_queue.len() && linked(
                edges,
                old_queue[k1],
                old_queue[k2],
            ) ==> old_paths[k2]@.len() <= old_paths[k1]@.len() + 1,
        forall|k: int, w2: usize| #![trigger linked(edges, old_queue[k], w2)]
            0 <= k < head && w2 < n && linked(edges, old_queue[k], w2) ==> vis0[w2 as int],
        w < n,
        !vis0[w as int],
        linked(edges, cur, w),
        new_queue == old_queue.push(w),
        vis1 == vis0.update(w as int, true),
        new_paths.len() == old_paths.len() + 1,
        forall|k: int| 0 <= k < old_paths.len() ==> new_paths[k] == old_paths[k],
        new_paths[new_paths.len() - 1]@ == old_paths[head]@.push(w),
    ensures
        new_queue.len() == new_paths.len(),
        new_queue.no_duplicates(),
        forall|k: int| 0 <= k < new_queue.len() ==> (#[trigger] new_queue[k]) < n
            && vis1[new_queue[k] as int],
        forall|v: int| 0 <= v < n && vis1[v] ==> exists|k: int|
            0 <= k < new_queue.len() && new_queue[k] == v,
        forall|k: int| 0 <= k < new_paths.len() ==> is_path(
            edges,
            (#[trigger] new_paths[k])@,
            start,
            new_queue[k],
        ),
        forall|k1: int, k2: int| #![trigger new_paths[k1], new_paths[k2]]
            0 <= k1 <= k2 < new_paths.len() ==> new_paths[k1]@.len() <= new_paths[k2]@.len(),
        forall|k: int| 0 <= k < new_paths.len() ==> (#[trigger] new_paths[k])@.len()
            <= new_paths[head]@.len() + 1,
        closer_nodes_scanned(edges, new_queue, new_paths, start, head, new_paths[head]@.len() as int),
        forall|k1: int, k2: int|
            #![trigger linked(edges, new_queue[k1], new_queue[k2])]
            0 <= k1 < head && 0 <= k2 < new_queue.len() && linked(
                edges,
                new_queue[k1],
                new_queue[k2],
            ) ==> new_paths[k2]@.len() <= new_paths[k1]@.len() + 1,
        forall|k: int, w2: usize| #![trigger linked(edges, new_queue[k], w2)]
            0 <= k < head && w2 < n && linked(edges, new_queue[k], w2) ==> vis1[w2 as int],
{
    assert(!old_queue.contains(w));
    assert(new_queue.no_duplicates());
    assert(new_queue[new_queue.len() - 1] == w);
    assert forall|v: int| 0 <= v < n && vis1[v] implies exists|k: int|
        0 <= k < new_queue.len() && new_queue[k] == v by {
        if v == w as int {
            assert(new_queue[new_queue.len() - 1] == v);
        } else {
            let k = choose|k: int| 0 <= k < old_queue.len() && old_queue[k] == v;
            assert(new_queue[k] == v);
        }
    }
    assert(new_paths[new_paths.len() - 1]@.len() == new_paths[head]@.len() + 1);
    assert forall|k1: int, k2: int| #![trigger new_paths[k1], new_paths[k2]]
        0 <= k1 <= k2 < new_paths.len() implies new_paths[k1]@.len() <= new_paths[k2]@.len() by {
        if k2 == new_paths.len() - 1 && k1 < k2 {
            assert(old_paths[k1]@.len() <= old_paths[head]@.len() + 1);
        }
    }
    assert forall|k1: int, k2: int|
        #![trigger linked(edges, new_queue[k1], new_queue[k2])]
        0 <= k1 < head && 0 <= k2 < new_queue.len() && linked(
            edges,
            new_queue[k1],
            new_queue[k2],
        ) implies new_paths[k2]@.len() <= new_paths[k1]@.len() + 1 by {
        if k2 == new_queue.len() - 1 {
            assert(new_queue[k2] == w);
            assert(vis0[w as int]);
            assert(false);
        } else {
            assert(new_queue[k1] == old_queue[k1]);
            assert(new_queue[k2] == old_queue[k2]);
            assert(linked(edges, old_queue[k1], old_queue[k2]));
        }
    }
    assert forall|v2: usize, q: Seq<usize>| #![trigger is_path(edges, q, start, v2)]
        is_path(edges, q, start, v2) && q.len() < new_paths[head]@.len() implies exists|k: int|
        0 <= k < head && new_queue[k] == v2 && new_paths[k]@.len() <= q.len() by {
        let k = choose|k: int|
            0 <= k < head && old_queue[k] == v2 && old_paths[k]@.len() <= q.len();
        assert(new_queue[k] == v2 && new_paths[k]@.len() <= q.len());
    }
    assert forall|k: int| 0 <= k < new_paths.len() implies is_path(
        edges,
        (#[trigger] new_paths[k])@,
        start,
        new_queue[k],
    ) by {
        if k < new_paths.len() - 1 {
            assert(new_paths[k] == old_paths[k]);
            assert(is_path(edges, old_paths[k]@, start, old_queue[k]));
        } else {
            let p = new_paths[k]@;
            let q = old_paths[head]@;
            assert(p.len() == q.len() + 1);
            assert forall|m: int| #![trigger p[m]] 0 <= m < p.len() - 1 implies linked(
                edges,
                p[m],
                p[m + 1],
            ) by {
                if m < p.len() - 2 {
                    assert(p[m] == q[m]);
                    assert(p[m + 1] == q[m + 1]);
                    assert(linked(edges, q[m], q[m + 1]));
                } else {
                    assert(p[m] == q[q.len() - 1]);
                    assert(q[q.len() - 1] == cur);
                    assert(p[m + 1] == w);
                }
            }
        }
    }
}

/// Advancing the scan to the next open-list entry keeps the level
/// property: every node with a walk shorter than the next entry's path is
/// already scanned. A walk of the next level reaches its end through a
/// strictly closer node, which was scanned, so its end was enqueued at no
/// more than the next level — and the open list is sorted by level.
#[verifier::rlimit(100)]
proof fn lemma_level_advance(
    edges: Seq<Edge>,
    queue_nodes: Seq<usize>,
    queue_paths: Seq<Vec<usize>>,
    visited: Seq<bool>,
    start: usize,
    head: int,
    n: int,
)
    requires
        queue_nodes.len() == queue_paths.len(),
        0 <= head,
        head + 1 < queue_nodes.len(),
        queue_nodes[0] == start,
        queue_paths[0]@.len() == 1,
        edges_in_range(edges, n),
        visited.len() == n,
        forall|k1: int, k2: int| #![trigger queue_paths[k1], queue_paths[k2]]
            0 <= k1 <= k2 < queue_paths.len() ==> queue_paths[k1]@.len()
                <= queue_paths[k2]@.len(),
        forall|k: int| 0 <= k < queue_paths.len() ==> (#[trigger] queue_paths[k])@.len()
            <= queue_paths[head]@.len() + 1,
        closer_nodes_scanned(
            edges,
            queue_nodes,
            queue_paths,
            start,
            head,
            queue_paths[head]@.len() as int,
        ),
        forall|k1: int, k2: int|
            #![trigger linked(edges, queue_nodes[k1], queue_nodes[k2])]
            0 <= k1 < head + 1 && 0 <= k2 < queue_nodes.len() && linked(
                edges,
                queue_nodes[k1],
                queue_nodes[k2],
            ) ==> queue_paths[k2]@.len() <= queue_paths[k1]@.len() + 1,
        forall|k: int, w: usize| #![trigger linked(edges, queue_nodes[k], w)]
            0 <= k < head + 1 && w < n && linked(edges, queue_nodes[k], w) ==> visited[w as int],
        forall|v: int| 0 <= v < n && visited[v] ==> exists|k: int|
            0 <= k < queue_nodes.len() && queue_nodes[k] == v,
    ensures
        closer_nodes_scanned(
            edges,
            queue_nodes,
            queue_paths,
            start,
            head + 1,
            queue_paths[head + 1]@.len() as int,
        ),
{
    let lh = queue_paths[head]@.len() as int;
    let lh1 = queue_paths[head + 1]@.len() as int;
    assert(lh <= lh1);
    assert forall|v2: usize, q: Seq<usize>| #![trigger is_path(edges, q, start, v2)]
        is_path(edges, q, start, v2) && q.len() < lh1 implies exists|k: int|
        0 <= k < head + 1 && queue_nodes[k] == v2 && queue_paths[k]@.len() <= q.len() by {
        if q.len() < lh {
            let k = choose|k: int|
                0 <= k < head && queue_nodes[k] == v2 && queue_paths[k]@.len() <= q.len();
            assert(0 <= k < head + 1 && queue_nodes[k] == v2 && queue_paths[k]@.len() <= q.len());
        } else {
            assert(q.len() == lh && lh1 == lh + 1);
            if q.len() == 1 {
                assert(v2 == start);
                assert(queue_nodes[0] == v2);
                assert(queue_paths[0]@.len() <= q.len());
            } else {
                let u = q[q.len() - 2];
                let q2 = q.subrange(0, q.len() - 1);
                assert forall|m: int| #![trigger q2[m]] 0 <= m < q2.len() - 1 implies linked(
                    edges,
                    q2[m],
                    q2[m + 1],
                ) by {
                    assert(q2[m] == q[m]);
                    assert(q2[m + 1] == q[m + 1]);
                    assert(linked(edges, q[m], q[m + 1]));
                }
                assert(is_path(edges, q2, start, u));
                let ku = choose|k: int|
                    0 <= k < head && queue_nodes[k] == u && queue_paths[k]@.len() <= q2.len();
                assert(q[q.len() - 2] == u);
                assert(linked(edges, q[q.len() - 2], q[q.len() - 1]));
                assert(linked(edges, u, v2));
                lemma_linked_in_range(edges, n, u, v2);
                assert(visited[v2 as int]);
                let kv = choose|k: int| 0 <= k < queue_nodes.len() && queue_nodes[k] == v2;
                assert(linked(edges, queue_nodes[ku], queue_nodes[kv]));
                assert(queue_paths[kv]@.len() <= queue_paths[ku]@.len() + 1);
                if kv >= head + 1 {
                    assert(queue_paths[head + 1]@.len() <= queue_paths[kv]@.len());
                    assert(false);
                }
                assert(0 <= kv < head + 1 && queue_nodes[kv] == v2 && queue_paths[kv]@.len()
                    <= q.len());
            }
        }
    }
}

} // verus!
