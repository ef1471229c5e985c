//! The simulation state: nodes with storage ledgers, connection slots,
//! resource units and demand records, all held in id-indexed tables.
//!
//! Entities reference each other by stable indices rather than owning
//! references: a demand names its node and (once matched) its resource, an
//! in-transit resource names its route nodes and its demand. Deleted
//! resources, demands and edges keep their slot with `live` cleared, so no
//! index ever moves.
//!
//! `World::wf` is the global invariant every operation preserves:
//! storage counts never pass capacity, and the claim link between a demand
//! and an in-transit resource is bidirectional — which makes a claim
//! exclusive (see [`World::lemma_claim_exclusive`]).

use vstd::prelude::*;

use crate::graph::{edges_in_range, Edge, EdgeTarget};
use crate::kind::ResourceKind;

verus! {

/// Transit positions are fixed-point fractions of the current hop:
/// `0` is the hop's start, `TRANSIT_SCALE` its end.
pub const TRANSIT_SCALE: u64 = 1000000;

/// A node of the network, with its storage ledger and its roles.
pub struct Node {
    /// Units physically resting here.
    pub storage_count: usize,
    /// Capacity of this node's storage.
    pub storage_size: usize,
    /// When set, a spawn event adds one unit of this kind here if there is
    /// room.
    pub spawns: Option<ResourceKind>,
    /// Whether demand-generation events raise new demands here.
    pub consumer: bool,
    /// Demand kinds raised here and not yet flushed into demand records.
    pub pending_demands: Vec<ResourceKind>,
}

/// An outstanding request for one unit of `kind` at node `satellite`.
pub struct Demand {
    /// Cleared when the demand is consumed by a delivery.
    pub live: bool,
    /// The node that wants the unit.
    pub satellite: usize,
    /// The kind wanted.
    pub kind: ResourceKind,
    /// The resource unit reserved for this demand, if one has been matched.
    pub claim: Option<usize>,
}

/// The travelling state of a matched resource unit.
pub struct Transit {
    /// Nodes still to visit; the unit is on the hop from `route[0]` to
    /// `route[1]`. At least two entries while travelling, at least one
    /// right after a hop was completed.
    pub route: Vec<usize>,
    /// The demand this unit is reserved for.
    pub claim: usize,
    /// Progress along the current hop, out of `TRANSIT_SCALE`.
    pub position: u64,
    /// The unit has just completed a hop and awaits arrival handling.
    pub arrived: bool,
    /// The unit waits at a waypoint for the next departure-release event.
    pub pending_departure: bool,
}

/// Where a resource unit is.
pub enum Location {
    /// Resting at a node, counted in that node's storage ledger.
    InStorage { node: usize },
    /// Travelling a committed route.
    InTransit { transit: Transit },
}

/// A typed resource unit. Despawned units keep their slot with `live`
/// cleared.
pub struct ResourceUnit {
    pub live: bool,
    pub kind: ResourceKind,
    pub location: Location,
}

/// The whole simulation state.
pub struct World {
    pub nodes: Vec<Node>,
    pub edges: Vec<Edge>,
    pub resources: Vec<ResourceUnit>,
    pub demands: Vec<Demand>,
}

/// The slots that currently hold a live resource unit: the unit multiset
/// of the conservation law. It grows only when spawning appends units and
/// shrinks only when a unit is delivered or despawned over capacity.
pub open spec fn live_unit_ids(w: World) -> Set<int> {
    Set::new(|i: int| 0 <= i < w.resources@.len() && w.resources@[i].live)
}

impl World {
    /// Storage ledgers respect capacity: `0 <= storage_count <= storage_size`
    /// at every node.
    pub open spec fn wf_nodes(self) -> bool {
        forall|n: int| 0 <= n < self.nodes@.len() ==> (#[trigger] self.nodes@[n]).storage_count
            <= self.nodes@[n].storage_size
    }

    /// Live edges point at existing nodes.
    pub open spec fn wf_edges(self) -> bool {
        edges_in_range(self.edges@, self.nodes@.len() as int)
    }

    /// A live demand names an existing node, and its claim, if any, points
    /// at a live in-transit resource that points back at it.
    pub open spec fn wf_demand(self, d: int) -> bool {
        let dm = self.demands@[d];
        dm.live ==> {
            &&& dm.satellite < self.nodes@.len()
            &&& (dm.claim matches Some(r) ==> {
                &&& r < self.resources@.len()
                &&& self.resources@[r as int].live
                &&& self.resources@[r as int].location matches Location::InTransit { transit }
                    && transit.claim == d
            })
        }
    }

    /// A live resource is either stored at an existing node, or in transit
    /// with a well-formed route and a bidirectional claim link: its demand
    /// is live, claims exactly this unit, wants this kind, and sits at the
    /// route's last node.
    pub open spec fn wf_resource(self, i: int) -> bool {
        let r = self.resources@[i];
        r.live ==> match r.location {
            Location::InStorage { node } => node < self.nodes@.len(),
            Location::InTransit { transit } => {
                &&& transit.claim < self.demands@.len()
                &&& self.demands@[transit.claim as int].live
                &&& self.demands@[transit.claim as int].claim matches Some(rr) && rr == i
                &&& self.demands@[transit.claim as int].kind == r.kind
                &&& transit.route@.len() >= 2
                    || (transit.arrived && transit.route@.len() >= 1)
                &&& forall|k: int| 0 <= k < transit.route@.len() ==> (#[trigger] transit.route@[k])
                    < self.nodes@.len()
                &&& transit.route@[transit.route@.len() - 1] == self.demands@[transit.claim
                    as int].satellite
                &&& (!transit.arrived ==> transit.position < TRANSIT_SCALE)
                &&& (transit.arrived ==> transit.position == TRANSIT_SCALE)
                &&& (transit.pending_departure ==> !transit.arrived && transit.position == 0)
            },
        }
    }

    /// The global invariant.
    pub open spec fn wf(self) -> bool {
        &&& self.wf_nodes()
        &&& self.wf_edges()
        &&& forall|d: int| 0 <= d < self.demands@.len() ==> #[trigger] self.wf_demand(d)
        &&& forall|i: int| 0 <= i < self.resources@.len() ==> #[trigger] self.wf_resource(i)
    }

    /// The resource `i` is live, of kind `kind`, and resting in storage:
    /// what the claim matcher looks for.
    pub open spec fn available(self, i: int, kind: ResourceKind) -> bool {
        &&& 0 <= i < self.resources@.len()
        &&& self.resources@[i].live
        &&& self.resources@[i].kind == kind
        &&& self.resources@[i].location is InStorage
    }

    /// The node a stored resource rests at.
    pub open spec fn stored_node(self, i: int) -> usize {
        self.resources@[i].location->node
    }

    /// The resource `i` is live and travelling.
    pub open spec fn in_transit(self, i: int) -> bool {
        &&& 0 <= i < self.resources@.len()
        &&& self.resources@[i].live
        &&& self.resources@[i].location is InTransit
    }

    /// The travelling state of resource `i`.
    pub open spec fn transit_of(self, i: int) -> Transit {
        self.resources@[i].location->transit
    }

    /// A live demand that has not been matched yet.
    pub open spec fn unclaimed(self, d: int) -> bool {
        &&& 0 <= d < self.demands@.len()
        &&& self.demands@[d].live
        &&& self.demands@[d].claim is None
    }

    /// No two live demands claim the same resource unit: the claim link is
    /// bidirectional, so the resource names the one demand that owns it.
    /// (A demand can never hold two claims at once: its claim is a single
    /// optional reference.)
    pub proof fn lemma_claim_exclusive(self, d1: int, d2: int, r: int)
        requires
            self.wf(),
            0 <= d1 < self.demands@.len(),
            0 <= d2 < self.demands@.len(),
            self.demands@[d1].live,
            self.demands@[d2].live,
            self.demands@[d1].claim matches Some(r1) && r1 == r,
            self.demands@[d2].claim matches Some(r2) && r2 == r,
        ensures
            d1 == d2,
    {
        assert(self.wf_demand(d1));
        assert(self.wf_demand(d2));
    }

    /// Changing edges alone cannot break the claim links or the ledgers:
    /// only the graph view moves.
    pub proof fn lemma_wf_after_edges_change(pre: World, post: World)
        requires
            pre.wf(),
            post.nodes@ == pre.nodes@,
            post.demands@ == pre.demands@,
            post.resources@ == pre.resources@,
            edges_in_range(post.edges@, post.nodes@.len() as int),
        ensures
            post.wf(),
    {
        assert forall|d: int| 0 <= d < post.demands@.len() implies #[trigger] post.wf_demand(
            d,
        ) by {
            assert(pre.wf_demand(d));
        }
        assert forall|i: int| 0 <= i < post.resources@.len() implies #[trigger] post.wf_resource(
            i,
        ) by {
            assert(pre.wf_resource(i));
        }
    }

    /// An empty world.
    pub fn new() -> (w: World)
        ensures
            w.wf(),
            w.nodes@.len() == 0,
            w.edges@.len() == 0,
            w.resources@.len() == 0,
            w.demands@.len() == 0,
    {
        World { nodes: Vec::new(), edges: Vec::new(), resources: Vec::new(), demands: Vec::new() }
    }

    /// Add a node with an empty storage ledger. Its capacity and roles are
    /// fixed for good; nodes are never removed.
    pub fn add_node(&mut self, storage_size: usize, spawns: Option<ResourceKind>, consumer: bool) -> (id:
        usize)
        requires
            old(self).wf(),
        ensures
            final(self).wf(),
            id == old(self).nodes@.len(),
            final(self).nodes@.len() == old(self).nodes@.len() + 1,
            forall|n: int| 0 <= n < old(self).nodes@.len() ==> final(self).nodes@[n] == old(
                self,
            ).nodes@[n],
            final(self).nodes@[id as int].storage_count == 0,
            final(self).nodes@[id as int].storage_size == storage_size,
            final(self).nodes@[id as int].spawns == spawns,
            final(self).nodes@[id as int].consumer == consumer,
            final(self).nodes@[id as int].pending_demands@.len() == 0,
            final(self).edges@ == old(self).edges@,
            final(self).resources@ == old(self).resources@,
            final(self).demands@ == old(self).demands@,
    {
        let id = self.nodes.len();
        self.nodes.push(
            Node {
                storage_count: 0,
                storage_size,
                spawns,
                consumer,
                pending_demands: Vec::new(),
            },
        );
        proof {
            assert forall|d: int| 0 <= d < self.demands@.len() implies #[trigger] self.wf_demand(
                d,
            ) by {
                assert(old(self).wf_demand(d));
            }
            assert forall|i: int| 0 <= i < self.resources@.len() implies
                #[trigger] self.wf_resource(i) by {
                assert(old(self).wf_resource(i));
            }
        }
        id
    }

    /// Put one unit of `kind` into storage at `node`, counting it in the
    /// ledger. This is how scenarios and spawn events create units.
    pub fn add_stored_resource(&mut self, node: usize, kind: ResourceKind) -> (id: usize)
        requires
            old(self).wf(),
            node < old(self).nodes@.len(),
            old(self).nodes@[node as int].storage_count < old(self).nodes@[node
                as int].storage_size,
        ensures
            final(self).wf(),
            id == old(self).resources@.len(),
            final(self).resources@ == old(self).resources@.push(
                ResourceUnit { live: true, kind, location: Location::InStorage { node } },
            ),
            final(self).nodes@.len() == old(self).nodes@.len(),
            final(self).nodes@[node as int].storage_count == old(self).nodes@[node
                as int].storage_count + 1,
            forall|n: int| 0 <= n < old(self).nodes@.len() && n != node ==> final(self).nodes@[n]
                == old(self).nodes@[n],
            final(self).nodes@[node as int].storage_size == old(self).nodes@[node
                as int].storage_size,
            final(self).nodes@[node as int].spawns == old(self).nodes@[node as int].spawns,
            final(self).nodes@[node as int].consumer == old(self).nodes@[node as int].consumer,
            final(self).nodes@[node as int].pending_demands == old(self).nodes@[node
                as int].pending_demands,
            final(self).edges@ == old(self).edges@,
            final(self).demands@ == old(self).demands@,
    {
        let id = self.resources.len();
        self.resources.push(ResourceUnit { live: true, kind, location: Location::InStorage { node } });
        let count = self.nodes[node].storage_count;
        self.nodes[node].storage_count = count + 1;
        proof {
            assert forall|i: int| 0 <= i < self.resources@.len() implies #[trigger] self.wf_resource(i) by {
                if i < old(self).resources@.len() {
                    assert(old(self).wf_resource(i));
                }
            }
            assert forall|d: int| 0 <= d < self.demands@.len() implies #[trigger] self.wf_demand(d) by {
                assert(old(self).wf_demand(d));
            }
        }
        id
    }

    /// Start drawing a connection from `anchor`. It begins under
    /// construction with a pending far end and carries no traffic yet.
    pub fn add_edge(&mut self, anchor: usize) -> (id: usize)
        requires
            old(self).wf(),
            anchor < old(self).nodes@.len(),
        ensures
            final(self).wf(),
            id == old(self).edges@.len(),
            final(self).edges@ == old(self).edges@.push(
                Edge {
                    live: true,
                    anchor,
                    target: EdgeTarget::Pending,
                    under_construction: true,
                    valid: true,
                },
            ),
            final(self).nodes@ == old(self).nodes@,
            final(self).resources@ == old(self).resources@,
            final(self).demands@ == old(self).demands@,
    {
        let id = self.edges.len();
        self.edges.push(
            Edge {
                live: true,
                anchor,
                target: EdgeTarget::Pending,
                under_construction: true,
                valid: true,
            },
        );
        proof {
            Self::lemma_wf_after_edges_change(*old(self), *self);
        }
        id
    }

    /// Settle a connection under construction on `target` and finish it;
    /// from now on it takes part in the graph view while it stays valid.
    pub fn complete_edge(&mut self, e: usize, target: usize)
        requires
            old(self).wf(),
            e < old(self).edges@.len(),
            old(self).edges@[e as int].live,
            target < old(self).nodes@.len(),
        ensures
            final(self).wf(),
            final(self).edges@ == old(self).edges@.update(
                e as int,
                Edge {
                    live: true,
                    anchor: old(self).edges@[e as int].anchor,
                    target: EdgeTarget::Node { node: target },
                    under_construction: false,
                    valid: old(self).edges@[e as int].valid,
                },
            ),
            final(self).nodes@ == old(self).nodes@,
            final(self).resources@ == old(self).resources@,
            final(self).demands@ == old(self).demands@,
    {
        let anchor = self.edges[e].anchor;
        let valid = self.edges[e].valid;
        self.edges.set(
            e,
            Edge {
                live: true,
                anchor,
                target: EdgeTarget::Node { node: target },
                under_construction: false,
                valid,
            },
        );
        proof {
            Self::lemma_wf_after_edges_change(*old(self), *self);
        }
    }

    /// Settle a connection under construction on the node the player
    /// picked: picking the anchor itself cancels the drawing instead, as
    /// no connection may loop a node to itself.
    pub fn settle_edge(&mut self, e: usize, target: usize)
        requires
            old(self).wf(),
            e < old(self).edges@.len(),
            old(self).edges@[e as int].live,
            old(self).edges@[e as int].under_construction,
            target < old(self).nodes@.len(),
        ensures
            final(self).wf(),
            final(self).edges@.len() == old(self).edges@.len(),
            forall|i: int| 0 <= i < old(self).edges@.len() && i != e ==> final(self).edges@[i]
                == old(self).edges@[i],
            target == old(self).edges@[e as int].anchor ==> !final(self).edges@[e as int].live,
            target != old(self).edges@[e as int].anchor ==> {
                &&& final(self).edges@[e as int].live
                &&& final(self).edges@[e as int].anchor == old(self).edges@[e as int].anchor
                &&& (final(self).edges@[e as int].target matches EdgeTarget::Node { node } && node
                    == target)
                &&& !final(self).edges@[e as int].under_construction
            },
            final(self).nodes@ == old(self).nodes@,
            final(self).resources@ == old(self).resources@,
            final(self).demands@ == old(self).demands@,
    {
        if self.edges[e].anchor == target {
            self.remove_edge(e);
        } else {
            self.complete_edge(e, target);
        }
    }

    /// Remove a connection. Its slot stays, empty; resources mid-route over
    /// it will notice at their next waypoint arrival.
    pub fn remove_edge(&mut self, e: usize)
        requires
            old(self).wf(),
            e < old(self).edges@.len(),
        ensures
            final(self).wf(),
            final(self).edges@ == old(self).edges@.update(
                e as int,
                Edge {
                    live: false,
                    anchor: old(self).edges@[e as int].anchor,
                    target: old(self).edges@[e as int].target,
                    under_construction: old(self).edges@[e as int].under_construction,
                    valid: old(self).edges@[e as int].valid,
                },
            ),
            final(self).nodes@ == old(self).nodes@,
            final(self).resources@ == old(self).resources@,
            final(self).demands@ == old(self).demands@,
    {
        let anchor = self.edges[e].anchor;
        let target = self.edges[e].target;
        let under_construction = self.edges[e].under_construction;
        let valid = self.edges[e].valid;
        self.edges.set(e, Edge { live: false, anchor, target, under_construction, valid });
        proof {
            Self::lemma_wf_after_edges_change(*old(self), *self);
        }
    }

    /// Record the external range verdict for one connection. Validity is
    /// decided outside this core and may flip at any tick.
    pub fn set_edge_validity(&mut self, e: usize, valid: bool)
        requires
            old(self).wf(),
            e < old(self).edges@.len(),
        ensures
            final(self).wf(),
            final(self).edges@ == old(self).edges@.update(
                e as int,
                Edge {
                    live: old(self).edges@[e as int].live,
                    anchor: old(self).edges@[e as int].anchor,
                    target: old(self).edges@[e as int].target,
                    under_construction: old(self).edges@[e as int].under_construction,
                    valid,
                },
            ),
            final(self).nodes@ == old(self).nodes@,
            final(self).resources@ == old(self).resources@,
            final(self).demands@ == old(self).demands@,
    {
        let live = self.edges[e].live;
        let anchor = self.edges[e].anchor;
        let target = self.edges[e].target;
        let under_construction = self.edges[e].under_construction;
        self.edges.set(e, Edge { live, anchor, target, under_construction, valid });
        proof {
            Self::lemma_wf_after_edges_change(*old(self), *self);
        }
    }

    /// Drop every settled connection whose range verdict came back false.
    /// `keep[e]` is the external verdict for edge `e`; connections still
    /// being drawn are left alone.
    pub fn prune_edges(&mut self, keep: &Vec<bool>)
        requires
            old(self).wf(),
            keep@.len() == old(self).edges@.len(),
        ensures
            final(self).wf(),
            final(self).edges@.len() == old(self).edges@.len(),
            forall|i: int| 0 <= i < old(self).edges@.len() ==> #[trigger] final(self).edges@[i]
                == if !keep@[i] && old(self).edges@[i].live && old(self).edges@[i].target
                    is Node && !old(self).edges@[i].under_construction {
                    Edge {
                        live: false,
                        anchor: old(self).edges@[i].anchor,
                        target: old(self).edges@[i].target,
                        under_construction: old(self).edges@[i].under_construction,
                        valid: old(self).edges@[i].valid,
                    }
                } else {
                    old(self).edges@[i]
                },
            final(self).nodes@ == old(self).nodes@,
            final(self).resources@ == old(self).resources@,
            final(self).demands@ == old(self).demands@,
    {
        let n = self.edges.len();
        let mut e: usize = 0;
        while e < n
            invariant
                self.wf(),
                n == self.edges@.len(),
                e <= n,
                keep@.len() == n,
                self.nodes@ == old(self).nodes@,
                self.resources@ == old(self).resources@,
                self.demands@ == old(self).demands@,
                forall|i: int| e <= i < n ==> #[trigger] self.edges@[i] == old(self).edges@[i],
                forall|i: int| 0 <= i < e ==> #[trigger] self.edges@[i] == if !keep@[i] && old(
                    self,
                ).edges@[i].live && old(self).edges@[i].target is Node && !old(
                    self,
                ).edges@[i].under_construction {
                    Edge {
                        live: false,
                        anchor: old(self).edges@[i].anchor,
                        target: old(self).edges@[i].target,
                        under_construction: old(self).edges@[i].under_construction,
                        valid: old(self).edges@[i].valid,
                    }
                } else {
                    old(self).edges@[i]
                },
            decreases n - e,
        {
            let settled = match self.edges[e].target {
                EdgeTarget::Node { .. } => true,
                EdgeTarget::Pending => false,
            };
            if !keep[e] && self.edges[e].live && settled && !self.edges[e].under_construction {
                let ghost pre = *self;
                let anchor = self.edges[e].anchor;
                let target = self.edges[e].target;
                let under_construction = self.edges[e].under_construction;
                let valid = self.edges[e].valid;
                self.edges.set(e, Edge { live: false, anchor, target, under_construction, valid });
                proof {
                    Self::lemma_wf_after_edges_change(pre, *self);
                }
            }
            e = e + 1;
        }
    }
    /// The capacity invariant, by name: in a well-formed world no node's
    /// ledger ever counts more units than its storage holds (and, counts
    /// being unsigned, never fewer than none).
    pub proof fn lemma_capacity(self, n: int)
        requires
            self.wf(),
            0 <= n < self.nodes@.len(),
        ensures
            0 <= self.nodes@[n].storage_count <= self.nodes@[n].storage_size,
    {
    }

    /// How many nodes the world has.
    pub fn node_len(&self) -> (r: usize)
        ensures
            r == self.nodes@.len(),
    {
        self.nodes.len()
    }

    /// The units currently resting at `n`, per the storage ledger.
    pub fn storage_count(&self, n: usize) -> (r: usize)
        requires
            n < self.nodes@.len(),
        ensures
            r == self.nodes@[n as int].storage_count,
    {
        self.nodes[n].storage_count
    }

    /// The storage capacity of `n`.
    pub fn storage_size(&self, n: usize) -> (r: usize)
        requires
            n < self.nodes@.len(),
        ensures
            r == self.nodes@[n as int].storage_size,
    {
        self.nodes[n].storage_size
    }

    /// How many edge slots exist, removed ones included.
    pub fn edge_len(&self) -> (r: usize)
        ensures
            r == self.edges@.len(),
    {
        self.edges.len()
    }

    /// How many demand records exist, consumed ones included.
    pub fn demand_len(&self) -> (r: usize)
        ensures
            r == self.demands@.len(),
    {
        self.demands.len()
    }

    /// How many resource slots exist, despawned ones included.
    pub fn resource_len(&self) -> (r: usize)
        ensures
            r == self.resources@.len(),
    {
        self.resources.len()
    }

    /// Whether demand `d` is still outstanding.
    pub fn demand_is_live(&self, d: usize) -> (r: bool)
        requires
            d < self.demands@.len(),
        ensures
            r == self.demands@[d as int].live,
    {
        self.demands[d].live
    }

    /// The node demand `d` wants its unit at.
    pub fn demand_satellite(&self, d: usize) -> (r: usize)
        requires
            d < self.demands@.len(),
        ensures
            r == self.demands@[d as int].satellite,
    {
        self.demands[d].satellite
    }

    /// The kind demand `d` wants.
    pub fn demand_kind(&self, d: usize) -> (r: ResourceKind)
        requires
            d < self.demands@.len(),
        ensures
            r == self.demands@[d as int].kind,
    {
        self.demands[d].kind
    }

    /// The unit demand `d` has claimed, if any: the claim linkage shown to
    /// presentation.
    pub fn demand_claim(&self, d: usize) -> (r: Option<usize>)
        requires
            d < self.demands@.len(),
        ensures
            r == self.demands@[d as int].claim,
    {
        self.demands[d].claim
    }

    /// Whether resource slot `r` still holds a unit.
    pub fn resource_is_live(&self, r: usize) -> (b: bool)
        requires
            r < self.resources@.len(),
        ensures
            b == self.resources@[r as int].live,
    {
        self.resources[r].live
    }

    /// The kind of the unit in slot `r`.
    pub fn resource_kind(&self, r: usize) -> (k: ResourceKind)
        requires
            r < self.resources@.len(),
        ensures
            k == self.resources@[r as int].kind,
    {
        self.resources[r].kind
    }

    /// The node a live stored unit rests at, or `None` for a travelling or
    /// despawned unit.
    pub fn resource_stored_at(&self, r: usize) -> (n: Option<usize>)
        requires
            r < self.resources@.len(),
        ensures
            n matches Some(v) ==> self.resources@[r as int].live && (self.resources@[r
                as int].location matches Location::InStorage { node } && node == v),
            n is None ==> !(self.resources@[r as int].live && self.resources@[r as int].location
                is InStorage),
    {
        if !self.resources[r].live {
            return None;
        }
        match &self.resources[r].location {
            Location::InStorage { node } => Some(*node),
            Location::InTransit { .. } => None,
        }
    }

    /// The travelling state of a live in-transit unit, for interpolated
    /// placement: remaining route, progress along the current hop, whether
    /// it waits for a departure release, and the demand it is claimed for.
    /// `None` for stored or despawned units.
    pub fn resource_transit(&self, r: usize) -> (t: Option<(Vec<usize>, u64, bool, usize)>)
        requires
            r < self.resources@.len(),
        ensures
            t matches Some(v) ==> {
                &&& self.resources@[r as int].live
                &&& self.resources@[r as int].location is InTransit
                &&& v.0@ == self.transit_of(r as int).route@
                &&& v.1 == self.transit_of(r as int).position
                &&& v.2 == self.transit_of(r as int).pending_departure
                &&& v.3 == self.transit_of(r as int).claim
            },
            t is None ==> !(self.resources@[r as int].live && self.resources@[r as int].location
                is InTransit),
    {
        if !self.resources[r].live {
            return None;
        }
        match &self.resources[r].location {
            Location::InTransit { transit } => {
                let route = crate::graph::copy_nodes(&transit.route);
                Some((route, transit.position, transit.pending_departure, transit.claim))
            },
            Location::InStorage { .. } => None,
        }
    }

    /// How many wanted kinds node `n` has noted and not yet flushed.
    pub fn pending_len(&self, n: usize) -> (r: usize)
        requires
            n < self.nodes@.len(),
        ensures
            r == self.nodes@[n as int].pending_demands@.len(),
    {
        self.nodes[n].pending_demands.len()
    }

    /// Whether edge slot `e` still holds a connection.
    pub fn edge_is_live(&self, e: usize) -> (r: bool)
        requires
            e < self.edges@.len(),
        ensures
            r == self.edges@[e as int].live,
    {
        self.edges[e].live
    }
}

} // verus!
