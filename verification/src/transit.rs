//! The transit scheduler: per-tick advancement of travelling units, the
//! departure-release event, and waypoint arrival handling with mid-flight
//! route revalidation.
//!
//! A travelling unit advances along the hop from `route[0]` to `route[1]`
//! by an externally computed increment (the hop's length comes from the
//! spatial provider, which is not part of this core). When it completes the
//! hop, the hop is popped and the unit is marked arrived; arrival handling
//! then either delivers it, lets it wait for the next departure release, or
//! — when the remaining route no longer holds in the current graph view —
//! rolls it back into storage or despawns it over capacity.

use vstd::prelude::*;
use vstd::set_lib::*;

use crate::graph::{copy_nodes, route_linked, route_valid};
use crate::world::{live_unit_ids, Location, ResourceUnit, Transit, World, TRANSIT_SCALE};

verus! {

/// A unit the per-tick advancement moves: live, travelling, not waiting at
/// a waypoint, and not yet handled as arrived.
pub open spec fn advancing(w: World, i: int) -> bool {
    &&& w.in_transit(i)
    &&& !w.transit_of(i).pending_departure
    &&& !w.transit_of(i).arrived
}

/// A unit waiting at a waypoint for the next departure-release event.
pub open spec fn waiting(w: World, i: int) -> bool {
    &&& w.in_transit(i)
    &&& w.transit_of(i).pending_departure
}

/// An arrived unit that arrival handling has not yet processed.
pub open spec fn arrived_unhandled(w: World, i: int) -> bool {
    &&& w.in_transit(i)
    &&& w.transit_of(i).arrived
}

/// What arrival handling does to one arrived unit `i`, given the state
/// `pre` the pass started from: a unit whose route is exhausted is
/// delivered and despawned; a unit whose remaining route still holds in
/// the graph view waits at the waypoint for the next departure release;
/// otherwise the unit is rolled back into its current node's storage, or
/// despawned when that node is full.
pub open spec fn arrival_outcome(pre: World, post: World, i: int) -> bool {
    let t = pre.transit_of(i);
    if t.route@.len() < 2 {
        !post.resources@[i].live
    } else if route_linked(pre.edges@, t.route@) {
        &&& post.resources@[i].live
        &&& post.resources@[i].kind == pre.resources@[i].kind
        &&& post.resources@[i].location matches Location::InTransit { transit }
            && transit.route@ == t.route@
            && transit.claim == t.claim
            && transit.position == 0
            && !transit.arrived
            && transit.pending_departure
    } else {
        &&& (post.resources@[i].live ==> post.resources@[i].kind == pre.resources@[i].kind
            && (post.resources@[i].location matches Location::InStorage { node } && node
                == t.route@[0]))
        &&& (!post.resources@[i].live ==> post.nodes@[t.route@[0] as int].storage_count
            == post.nodes@[t.route@[0] as int].storage_size)
    }
}

/// What arrival handling does to one demand: the demand of a delivered
/// unit is consumed; the demand of a rolled-back unit loses its claim and
/// is retried by the matcher on a later tick; every other demand is left
/// alone.
pub open spec fn arrival_demand_outcome(pre: World, post: World, d: int) -> bool {
    let dm = pre.demands@[d];
    if dm.live && dm.claim is Some && arrived_unhandled(pre, dm.claim->Some_0 as int) {
        let t = pre.transit_of(dm.claim->Some_0 as int);
        if t.route@.len() < 2 {
            !post.demands@[d].live
        } else if route_linked(pre.edges@, t.route@) {
            post.demands@[d] == dm
        } else {
            &&& post.demands@[d].live
            &&& post.demands@[d].claim is None
            &&& post.demands@[d].satellite == dm.satellite
            &&& post.demands@[d].kind == dm.kind
        }
    } else {
        post.demands@[d] == dm
    }
}

/// The demand bookkeeping partway through an arrival pass that has handled
/// the units below `upto`: demands whose unit was already handled show its
/// outcome; all others still stand as the pass found them.
pub open spec fn arrival_demand_midstate(w0: World, w: World, upto: int, d: int) -> bool {
    let dm = w0.demands@[d];
    if dm.live && dm.claim is Some && dm.claim->Some_0 < upto && arrived_unhandled(
        w0,
        dm.claim->Some_0 as int,
    ) {
        arrival_demand_outcome(w0, w, d)
    } else {
        w.demands@[d] == dm
    }
}

/// The rolled-back units this arrival pass has re-homed into node `n`'s
/// storage: units that arrived on a broken route and found room at their
/// current node. Each adds exactly one unit to that node's ledger, and no
/// other event of the pass moves any ledger.
pub open spec fn rehomed_at(pre: World, post: World, n: int) -> Set<int> {
    Set::new(
        |r: int|
            {
                &&& 0 <= r < pre.resources@.len()
                &&& arrived_unhandled(pre, r)
                &&& pre.transit_of(r).route@.len() >= 2
                &&& !route_linked(pre.edges@, pre.transit_of(r).route@)
                &&& pre.transit_of(r).route@[0] as int == n
                &&& post.resources@[r].live
                &&& post.resources@[r].location is InStorage
            },
    )
}

impl World {
    /// One advancement pass. `deltas[i]` is how far resource `i` moves
    /// along its current hop this tick, in `TRANSIT_SCALE` units (the
    /// caller computes it from the hop's length and the tick's duration;
    /// both live outside this core). Every live travelling unit that is
    /// neither waiting nor already arrived advances by its delta; progress
    /// never decreases, and a unit that reaches the hop's end pops the
    /// completed hop and is marked arrived. Nothing else moves.
    #[verifier::loop_isolation(false)]
    pub fn advance_transports(&mut self, deltas: &Vec<u64>)
        requires
            old(self).wf(),
            deltas@.len() == old(self).resources@.len(),
        ensures
            final(self).wf(),
            final(self).nodes@ == old(self).nodes@,
            final(self).edges@ == old(self).edges@,
            final(self).demands@ == old(self).demands@,
            final(self).resources@.len() == old(self).resources@.len(),
            live_unit_ids(*final(self)) == live_unit_ids(*old(self)),
            forall|i: int| 0 <= i < old(self).resources@.len() && !advancing(*old(self), i) ==>
                final(self).resources@[i] == old(self).resources@[i],
            forall|i: int| 0 <= i < old(self).resources@.len() && #[trigger] advancing(
                *old(self),
                i,
            ) ==> {
                let t = old(self).transit_of(i);
                let t2 = final(self).transit_of(i);
                &&& final(self).in_transit(i)
                &&& final(self).resources@[i].kind == old(self).resources@[i].kind
                &&& t2.claim == t.claim
                &&& !t2.pending_departure
                &&& t2.position >= t.position
                &&& (if t.position + deltas@[i] < TRANSIT_SCALE {
                    &&& t2.position == t.position + deltas@[i]
                    &&& !t2.arrived
                    &&& t2.route@ == t.route@
                } else {
                    &&& t2.position == TRANSIT_SCALE
                    &&& t2.arrived
                    &&& t2.route@ == t.route@.subrange(1, t.route@.len() as int)
                })
            },
    {
        let total = self.resources.len();
        let mut i: usize = 0;
        while i < total
            invariant
                self.wf(),
                i <= total,
                self.nodes@ == old(self).nodes@,
                self.edges@ == old(self).edges@,
                self.demands@ == old(self).demands@,
                self.resources@.len() == old(self).resources@.len(),
                forall|j: int| i <= j < total ==> self.resources@[j] == old(self).resources@[j],
                forall|j: int| 0 <= j < i && !advancing(*old(self), j) ==> self.resources@[j]
                    == old(self).resources@[j],
                forall|j: int| 0 <= j < i && #[trigger] advancing(*old(self), j) ==> {
                    let t = old(self).transit_of(j);
                    let t2 = self.transit_of(j);
                    &&& self.in_transit(j)
                    &&& self.resources@[j].kind == old(self).resources@[j].kind
                    &&& t2.claim == t.claim
                    &&& !t2.pending_departure
                    &&& t2.position >= t.position
                    &&& (if t.position + deltas@[j] < TRANSIT_SCALE {
                        &&& t2.position == t.position + deltas@[j]
                        &&& !t2.arrived
                        &&& t2.route@ == t.route@
                    } else {
                        &&& t2.position == TRANSIT_SCALE
                        &&& t2.arrived
                        &&& t2.route@ == t.route@.subrange(1, t.route@.len() as int)
                    })
                },
            decreases total - i,
        {
            let ghost pre = *self;
            let live = self.resources[i].live;
            let mut eligible = false;
            let mut position: u64 = 0;
            let mut claim: usize = 0;
            let mut route: Vec<usize> = Vec::new();
            match &self.resources[i].location {
                Location::InTransit { transit } => {
                    if live && !transit.pending_departure && !transit.arrived {
                        eligible = true;
                        position = transit.position;
                        claim = transit.claim;
                        route = copy_nodes(&transit.route);
                    }
                },
                Location::InStorage { .. } => {},
            }
            if eligible {
                proof {
                    assert(pre.wf_resource(i as int));
                    assert(advancing(*old(self), i as int));
                }
                let delta = deltas[i];
                let remaining = TRANSIT_SCALE - position;
                let mut arrived = false;
                if delta >= remaining {
                    position = TRANSIT_SCALE;
                    arrived = true;
                    route.remove(0);
                    proof {
                        let t = old(self).transit_of(i as int);
                        assert(route@ =~= t.route@.subrange(1, t.route@.len() as int));
                    }
                } else {
                    position = position + delta;
                }
                let kind = self.resources[i].kind;
                self.resources.set(
                    i,
                    ResourceUnit {
                        live: true,
                        kind,
                        location: Location::InTransit {
                            transit: Transit {
                                route,
                                claim,
                                position,
                                arrived,
                                pending_departure: false,
                            },
                        },
                    },
                );
                proof {
                    assert forall|d: int| 0 <= d < self.demands@.len() implies
                        #[trigger] self.wf_demand(d) by {
                        assert(pre.wf_demand(d));
                    }
                    assert forall|j: int| 0 <= j < self.resources@.len() implies
                        #[trigger] self.wf_resource(j) by {
                        assert(pre.wf_resource(j));
                        if j == i {
                            let t = pre.transit_of(j);
                            if arrived {
                                assert(self.transit_of(j).route@ == t.route@.subrange(
                                    1,
                                    t.route@.len() as int,
                                ));
                                assert(self.transit_of(j).route@[self.transit_of(
                                    j,
                                ).route@.len() - 1] == t.route@[t.route@.len() - 1]);
                            }
                        }
                    }
                }
            }
            i = i + 1;
        }
        proof {
            assert forall|i: int|
                live_unit_ids(*self).contains(i) == live_unit_ids(*old(self)).contains(i) by {
                if 0 <= i < old(self).resources@.len() {
                    if advancing(*old(self), i) {
                    }
                }
            }
            assert(live_unit_ids(*self) =~= live_unit_ids(*old(self)));
        }
    }

    /// One departure-release event: scan the nodes in order and, at the
    /// first node found to have a unit waiting to depart from it, release
    /// exactly that one unit; at most one unit resumes per event. Returns
    /// the released unit, or `None` exactly when no unit was waiting at
    /// all.
    #[verifier::loop_isolation(false)]
    pub fn release_departures(&mut self) -> (released: Option<usize>)
        requires
            old(self).wf(),
        ensures
            final(self).wf(),
            final(self).nodes@ == old(self).nodes@,
            final(self).edges@ == old(self).edges@,
            final(self).demands@ == old(self).demands@,
            final(self).resources@.len() == old(self).resources@.len(),
            live_unit_ids(*final(self)) == live_unit_ids(*old(self)),
            released matches Some(i) ==> {
                &&& waiting(*old(self), i as int)
                &&& final(self).in_transit(i as int)
                &&& !final(self).transit_of(i as int).pending_departure
                &&& final(self).transit_of(i as int).route@ == old(self).transit_of(
                    i as int,
                ).route@
                &&& final(self).transit_of(i as int).claim == old(self).transit_of(i as int).claim
                &&& final(self).transit_of(i as int).position == old(self).transit_of(
                    i as int,
                ).position
                &&& !final(self).transit_of(i as int).arrived
                &&& final(self).resources@[i as int].kind == old(self).resources@[i as int].kind
                &&& forall|j: int| 0 <= j < old(self).resources@.len() && j != i ==> final(self).resources@[j] == old(self).resources@[j]
            },
            released is None ==> final(self).resources@ == old(self).resources@ && forall|i: int|
                0 <= i < old(self).resources@.len() ==> !waiting(*old(self), i),
    {
        let n_nodes = self.nodes.len();
        let total = self.resources.len();
        let mut s: usize = 0;
        while s < n_nodes
            invariant
                s <= n_nodes,
                self == old(self),
                forall|i: int| 0 <= i < total && #[trigger] waiting(*old(self), i) ==> old(
                    self,
                ).transit_of(i).route@[0] >= s,
            decreases n_nodes - s,
        {
            let mut i: usize = 0;
            while i < total
                invariant
                    i <= total,
                    self == old(self),
                    forall|j: int| 0 <= j < i && #[trigger] waiting(*old(self), j) ==> old(
                        self,
                    ).transit_of(j).route@[0] != s,
                decreases total - i,
            {
                let live = self.resources[i].live;
                let mut hit = false;
                let mut position: u64 = 0;
                let mut claim: usize = 0;
                let mut route: Vec<usize> = Vec::new();
                match &self.resources[i].location {
                    Location::InTransit { transit } => {
                        if live && transit.pending_departure {
                            proof {
                                assert(old(self).wf_resource(i as int));
                            }
                            if transit.route[0] == s {
                                hit = true;
                                position = transit.position;
                                claim = transit.claim;
                                route = copy_nodes(&transit.route);
                            }
                        }
                    },
                    Location::InStorage { .. } => {},
                }
                if hit {
                    proof {
                        assert(old(self).wf_resource(i as int));
                    }
                    let kind = self.resources[i].kind;
                    self.resources.set(
                        i,
                        ResourceUnit {
                            live: true,
                            kind,
                            location: Location::InTransit {
                                transit: Transit {
                                    route,
                                    claim,
                                    position,
                                    arrived: false,
                                    pending_departure: false,
                                },
                            },
                        },
                    );
                    proof {
                        assert forall|d: int| 0 <= d < self.demands@.len() implies
                            #[trigger] self.wf_demand(d) by {
                            assert(old(self).wf_demand(d));
                        }
                        assert forall|j: int| 0 <= j < self.resources@.len() implies
                            #[trigger] self.wf_resource(j) by {
                            assert(old(self).wf_resource(j));
                        }
                    }
                    proof {
                        assert(live_unit_ids(*self) =~= live_unit_ids(*old(self)));
                    }
                    return Some(i);
                }
                i = i + 1;
            }
            proof {
                assert forall|j: int| 0 <= j < total && #[trigger] waiting(*old(self), j) implies
                    old(self).transit_of(j).route@[0] >= s + 1 by {
                    assert(old(self).transit_of(j).route@[0] != s);
                }
            }
            s = s + 1;
        }
        proof {
            assert(live_unit_ids(*self) =~= live_unit_ids(*old(self)));
            assert forall|i: int| 0 <= i < total implies !waiting(*old(self), i) by {
                if waiting(*old(self), i) {
                    assert(old(self).wf_resource(i));
                    assert(old(self).transit_of(i).route@[0] < n_nodes);
                }
            }
        }
        None
    }

    /// Arrival handling: every arrived unit is resolved within this one
    /// pass. A unit whose route is exhausted is delivered: its demand is
    /// consumed and the unit despawns. Otherwise the remaining route is
    /// revalidated against the current graph view: if every hop still
    /// holds, the unit waits at the waypoint for the next departure
    /// release; if any hop is gone, the claim is severed (the demand is
    /// retried later) and the unit is re-homed into its current node's
    /// storage, or despawned when that storage is full — and a node that
    /// was already full when the pass began can only despawn. The only
    /// ledger movement in this pass is one increment per re-homed unit;
    /// delivery changes no counts. No arrived unit is ever left
    /// travelling on a broken route.
    #[verifier::loop_isolation(false)]
    pub fn process_arrivals(&mut self)
        requires
            old(self).wf(),
        ensures
            final(self).wf(),
            final(self).edges@ == old(self).edges@,
            final(self).nodes@.len() == old(self).nodes@.len(),
            final(self).resources@.len() == old(self).resources@.len(),
            final(self).demands@.len() == old(self).demands@.len(),
            live_unit_ids(*final(self)).subset_of(live_unit_ids(*old(self))),
            forall|n: int| 0 <= n < old(self).nodes@.len() ==> {
                let pre = old(self).nodes@[n];
                let post = #[trigger] final(self).nodes@[n];
                &&& rehomed_at(*old(self), *final(self), n).finite()
                &&& post.storage_count == pre.storage_count + rehomed_at(
                    *old(self),
                    *final(self),
                    n,
                ).len()
                &&& post.storage_count <= post.storage_size
                &&& post.storage_size == pre.storage_size
                &&& post.spawns == pre.spawns
                &&& post.consumer == pre.consumer
                &&& post.pending_demands == pre.pending_demands
            },
            forall|i: int| 0 <= i < old(self).resources@.len() && !arrived_unhandled(
                *old(self),
                i,
            ) ==> final(self).resources@[i] == old(self).resources@[i],
            forall|i: int| 0 <= i < old(self).resources@.len() && #[trigger] arrived_unhandled(
                *old(self),
                i,
            ) ==> arrival_outcome(*old(self), *final(self), i),
            forall|d: int| 0 <= d < old(self).demands@.len() ==> #[trigger] arrival_demand_outcome(
                *old(self),
                *final(self),
                d,
            ),
            forall|i: int| 0 <= i < final(self).resources@.len() && final(self).in_transit(i) ==>
                !(#[trigger] final(self).transit_of(i)).arrived,
            forall|i: int| 0 <= i < old(self).resources@.len() && #[trigger] arrived_unhandled(
                *old(self),
                i,
            ) && old(self).transit_of(i).route@.len() >= 2 && !route_linked(
                old(self).edges@,
                old(self).transit_of(i).route@,
            ) ==> !final(self).in_transit(i),
            forall|i: int| 0 <= i < old(self).resources@.len() && #[trigger] arrived_unhandled(
                *old(self),
                i,
            ) && old(self).transit_of(i).route@.len() >= 2 && !route_linked(
                old(self).edges@,
                old(self).transit_of(i).route@,
            ) && old(self).nodes@[old(self).transit_of(i).route@[0] as int].storage_count == old(
                self,
            ).nodes@[old(self).transit_of(i).route@[0] as int].storage_size ==> !final(self).resources@[i].live,
    {
        let total = self.resources.len();
        proof {
            assert forall|n: int| 0 <= n < self.nodes@.len() implies rehomed_at(
                *old(self),
                *self,
                n,
            ) =~= Set::<int>::empty() by {}
        }
        let mut i: usize = 0;
        while i < total
            invariant
                self.wf(),
                i <= total,
                self.edges@ == old(self).edges@,
                self.nodes@.len() == old(self).nodes@.len(),
                self.resources@.len() == old(self).resources@.len(),
                self.demands@.len() == old(self).demands@.len(),
                forall|n: int| 0 <= n < old(self).nodes@.len() ==> {
                    let pre = old(self).nodes@[n];
                    let post = #[trigger] self.nodes@[n];
                    &&& rehomed_at(*old(self), *self, n).finite()
                    &&& post.storage_count == pre.storage_count + rehomed_at(
                        *old(self),
                        *self,
                        n,
                    ).len()
                    &&& post.storage_count <= post.storage_size
                    &&& post.storage_size == pre.storage_size
                    &&& post.spawns == pre.spawns
                    &&& post.consumer == pre.consumer
                    &&& post.pending_demands == pre.pending_demands
                },
                forall|j: int| i <= j < total ==> self.resources@[j] == old(self).resources@[j],
                forall|j: int| 0 <= j < i && !arrived_unhandled(*old(self), j) ==>
                    self.resources@[j] == old(self).resources@[j],
                forall|j: int| 0 <= j < i && #[trigger] arrived_unhandled(*old(self), j) ==>
                    arrival_outcome(*old(self), *self, j),
                forall|j: int| 0 <= j < i && self.in_transit(j) ==> !(#[trigger] self.transit_of(
                    j,
                )).arrived,
                forall|d: int| 0 <= d < old(self).demands@.len() ==>
                    #[trigger] arrival_demand_midstate(*old(self), *self, i as int, d),
            decreases total - i,
        {
            let ghost w0 = *old(self);
            let ghost pre = *self;
            let live = self.resources[i].live;
            let mut is_arrived = false;
            let mut claim_d: usize = 0;
            let mut route: Vec<usize> = Vec::new();
            match &self.resources[i].location {
                Location::InTransit { transit } => {
                    if live && transit.arrived {
                        is_arrived = true;
                        claim_d = transit.claim;
                        route = copy_nodes(&transit.route);
                    }
                },
                Location::InStorage { .. } => {},
            }
            if is_arrived {
                proof {
                    assert(pre.wf_resource(i as int));
                    assert(self.resources@[i as int] == w0.resources@[i as int]);
                    assert(arrived_unhandled(w0, i as int));
                    assert(w0.wf_resource(i as int));
                    assert(arrival_demand_midstate(w0, pre, i as int, claim_d as int));
                    assert(pre.demands@[claim_d as int] == w0.demands@[claim_d as int]);
                }
                if route.len() < 2 {
                    // The unit stands at its demand's node: deliver and despawn both.
                    self.demands[claim_d].live = false;
                    self.demands[claim_d].claim = None;
                    self.resources[i].live = false;
                    proof {
                        Self::lemma_arrival_step_wf(pre, *self, i as int, claim_d as int);
                        Self::lemma_rehomed_frame(w0, pre, *self, i as int);
                        assert forall|d: int| 0 <= d < w0.demands@.len() implies
                            #[trigger] arrival_demand_midstate(w0, *self, i + 1, d) by {
                            Self::lemma_arrival_demand_step(
                                w0,
                                pre,
                                *self,
                                i as int,
                                claim_d as int,
                                d,
                            );
                        }
                    }
                } else {
                    let ok = route_valid(&self.edges, &route);
                    if ok {
                        let kind = self.resources[i].kind;
                        self.resources.set(
                            i,
                            ResourceUnit {
                                live: true,
                                kind,
                                location: Location::InTransit {
                                    transit: Transit {
                                        route,
                                        claim: claim_d,
                                        position: 0,
                                        arrived: false,
                                        pending_departure: true,
                                    },
                                },
                            },
                        );
                        proof {
                            Self::lemma_arrival_step_wf(pre, *self, i as int, claim_d as int);
                            Self::lemma_rehomed_frame(w0, pre, *self, i as int);
                            assert forall|d: int| 0 <= d < w0.demands@.len() implies
                                #[trigger] arrival_demand_midstate(w0, *self, i + 1, d) by {
                                Self::lemma_arrival_demand_step(
                                    w0,
                                    pre,
                                    *self,
                                    i as int,
                                    claim_d as int,
                                    d,
                                );
                            }
                        }
                    } else {
                        // A hop is gone: sever the claim and re-home or despawn.
                        self.demands[claim_d].claim = None;
                        let home = route[0];
                        proof {
                            assert(pre.transit_of(i as int).route@[0] < self.nodes@.len());
                        }
                        let count = self.nodes[home].storage_count;
                        let size = self.nodes[home].storage_size;
                        if count < size {
                            self.nodes[home].storage_count = count + 1;
                            let kind = self.resources[i].kind;
                            self.resources.set(
                                i,
                                ResourceUnit {
                                    live: true,
                                    kind,
                                    location: Location::InStorage { node: home },
                                },
                            );
                        } else {
                            self.resources[i].live = false;
                        }
                        proof {
                            Self::lemma_arrival_step_wf(pre, *self, i as int, claim_d as int);
                            assert(!route_linked(w0.edges@, w0.transit_of(i as int).route@));
                            if self.resources@[i as int].live {
                                Self::lemma_rehomed_insert(
                                    w0,
                                    pre,
                                    *self,
                                    i as int,
                                    home as int,
                                );
                            } else {
                                Self::lemma_rehomed_frame(w0, pre, *self, i as int);
                            }
                            assert(arrival_outcome(w0, *self, i as int));
                            assert forall|d: int| 0 <= d < w0.demands@.len() implies
                                #[trigger] arrival_demand_midstate(w0, *self, i + 1, d) by {
                                Self::lemma_arrival_demand_step(
                                    w0,
                                    pre,
                                    *self,
                                    i as int,
                                    claim_d as int,
                                    d,
                                );
                            }
                        }
                    }
                }
                proof {
                    assert forall|j: int| 0 <= j < i && #[trigger] arrived_unhandled(
                        w0,
                        j,
                    ) implies arrival_outcome(w0, *self, j) by {
                        assert(arrival_outcome(w0, pre, j));
                        let t = w0.transit_of(j);
                        if t.route@.len() < 2 {
                        } else if route_linked(w0.edges@, t.route@) {
                            assert(self.resources@[j] == pre.resources@[j]);
                        } else {
                            assert(self.resources@[j] == pre.resources@[j]);
                            if !pre.resources@[j].live {
                                let x = t.route@[0] as int;
                                assert(w0.wf_resource(j));
                                assert(0 <= x < self.nodes@.len());
                                assert(pre.nodes@[x].storage_count == pre.nodes@[
                                    x
                                ].storage_size);
                                assert(self.nodes@[x].storage_count == self.nodes@[
                                    x
                                ].storage_size);
                            }
                        }
                    }
                }
            } else {
                proof {
                    assert forall|d: int| 0 <= d < w0.demands@.len() implies
                        #[trigger] arrival_demand_midstate(w0, *self, i + 1, d) by {
                        assert(arrival_demand_midstate(w0, *self, i as int, d));
                        let dm = w0.demands@[d];
                        if dm.claim matches Some(r) && dm.live && r == i && arrived_unhandled(
                            w0,
                            r as int,
                        ) {
                            assert(self.resources@[i as int] == w0.resources@[i as int]);
                        }
                    }
                }
            }
            proof {
                assert forall|j: int| 0 <= j < i + 1 && self.in_transit(j) implies !(
                #[trigger] self.transit_of(j)).arrived by {
                    if j < i {
                        assert(self.resources@[j] == pre.resources@[j]);
                        if pre.in_transit(j) {
                            assert(!pre.transit_of(j).arrived);
                        }
                    }
                }
            }
            i = i + 1;
        }
        proof {
            assert forall|i: int| live_unit_ids(*self).contains(i) implies live_unit_ids(
                *old(self),
            ).contains(i) by {
                if 0 <= i < old(self).resources@.len() && arrived_unhandled(*old(self), i) {
                    assert(arrival_outcome(*old(self), *self, i));
                }
            }
            assert forall|d: int| 0 <= d < old(self).demands@.len() implies
                #[trigger] arrival_demand_outcome(*old(self), *self, d) by {
                assert(arrival_demand_midstate(*old(self), *self, total as int, d));
                let dm = old(self).demands@[d];
                if dm.claim matches Some(r) && dm.live && arrived_unhandled(*old(self), r as int) {
                    assert(old(self).wf_demand(d));
                }
            }
            assert forall|j: int| 0 <= j < total && self.in_transit(j) implies !(
            #[trigger] self.transit_of(j)).arrived by {}
            assert forall|j: int| 0 <= j < total && #[trigger] arrived_unhandled(*old(self), j)
                && old(self).transit_of(j).route@.len() >= 2 && !route_linked(
                old(self).edges@,
                old(self).transit_of(j).route@,
            ) implies !self.in_transit(j) by {
                assert(arrival_outcome(*old(self), *self, j));
            }
            assert forall|j: int| 0 <= j < total && #[trigger] arrived_unhandled(*old(self), j)
                && old(self).transit_of(j).route@.len() >= 2 && !route_linked(
                old(self).edges@,
                old(self).transit_of(j).route@,
            ) && old(self).nodes@[old(self).transit_of(j).route@[0] as int].storage_count == old(
                self,
            ).nodes@[old(self).transit_of(j).route@[0] as int].storage_size implies !self.resources@[
                j
            ].live by {
                if self.resources@[j].live {
                    let x = old(self).transit_of(j).route@[0] as int;
                    assert(old(self).wf_resource(j));
                    assert(arrival_outcome(*old(self), *self, j));
                    assert(rehomed_at(*old(self), *self, x).contains(j));
                    let single = Set::<int>::empty().insert(j);
                    assert(single.finite());
                    assert(single.len() == 1);
                    assert(single.subset_of(rehomed_at(*old(self), *self, x)));
                    lemma_len_subset(single, rehomed_at(*old(self), *self, x));
                    assert(self.nodes@[x].storage_count <= self.nodes@[x].storage_size);
                    assert(false);
                }
            }
        }
    }


    /// A step of arrival handling that re-homes nothing leaves every
    /// re-home set as it was: the processed unit does not end up stored.
    proof fn lemma_rehomed_frame(w0: World, pre: World, post: World, i: int)
        requires
            w0.resources@.len() == pre.resources@.len(),
            post.resources@.len() == pre.resources@.len(),
            0 <= i < pre.resources@.len(),
            forall|j: int| 0 <= j < pre.resources@.len() && j != i ==> post.resources@[j]
                == pre.resources@[j],
            !(post.resources@[i].live && post.resources@[i].location is InStorage),
            !(pre.resources@[i].live && pre.resources@[i].location is InStorage),
        ensures
            forall|n: int| rehomed_at(w0, post, n) == rehomed_at(w0, pre, n),
    {
        assert forall|n: int| rehomed_at(w0, post, n) == rehomed_at(w0, pre, n) by {
            assert(rehomed_at(w0, post, n) =~= rehomed_at(w0, pre, n));
        }
    }

    /// A step that re-homes its unit adds exactly that unit to the
    /// re-home set of its current node and touches no other set.
    proof fn lemma_rehomed_insert(w0: World, pre: World, post: World, i: int, home: int)
        requires
            w0.resources@.len() == pre.resources@.len(),
            post.resources@.len() == pre.resources@.len(),
            0 <= i < pre.resources@.len(),
            forall|j: int| 0 <= j < pre.resources@.len() && j != i ==> post.resources@[j]
                == pre.resources@[j],
            arrived_unhandled(w0, i),
            w0.transit_of(i).route@.len() >= 2,
            !route_linked(w0.edges@, w0.transit_of(i).route@),
            w0.transit_of(i).route@[0] as int == home,
            !(pre.resources@[i].live && pre.resources@[i].location is InStorage),
            post.resources@[i].live,
            post.resources@[i].location is InStorage,
        ensures
            forall|n: int| n != home ==> rehomed_at(w0, post, n) == rehomed_at(w0, pre, n),
            !rehomed_at(w0, pre, home).contains(i),
            rehomed_at(w0, post, home) == rehomed_at(w0, pre, home).insert(i),
            rehomed_at(w0, pre, home).finite(),
            rehomed_at(w0, post, home).finite(),
            rehomed_at(w0, post, home).len() == rehomed_at(w0, pre, home).len() + 1,
    {
        assert forall|n: int| n != home implies rehomed_at(w0, post, n) == rehomed_at(
            w0,
            pre,
            n,
        ) by {
            assert(rehomed_at(w0, post, n) =~= rehomed_at(w0, pre, n));
        }
        assert(rehomed_at(w0, post, home) =~= rehomed_at(w0, pre, home).insert(i));
        Self::lemma_rehomed_finite(w0, pre, home);
        Self::lemma_rehomed_finite(w0, post, home);
        vstd::set::axiom_set_insert_len(rehomed_at(w0, pre, home), i);
    }

    /// Every re-home set is a finite subset of the unit indices.
    proof fn lemma_rehomed_finite(pre: World, post: World, n: int)
        ensures
            rehomed_at(pre, post, n).finite(),
            rehomed_at(pre, post, n).len() <= pre.resources@.len(),
    {
        let s = rehomed_at(pre, post, n);
        assert(s.subset_of(set_int_range(0, pre.resources@.len() as int)));
        lemma_int_range(0, pre.resources@.len() as int);
        lemma_len_subset(s, set_int_range(0, pre.resources@.len() as int));
    }

    /// One arrival step leaves the world well formed, whatever branch it
    /// took: delivery kills both sides of the claim link, a waypoint wait
    /// keeps the link, and a rollback severs it on both sides at once.
    proof fn lemma_arrival_step_wf(pre: World, post: World, i: int, cd: int)
        requires
            pre.wf(),
            0 <= i < pre.resources@.len(),
            pre.resources@[i].live,
            pre.resources@[i].location is InTransit,
            pre.transit_of(i).arrived,
            pre.transit_of(i).claim == cd,
            0 <= cd < pre.demands@.len(),
            post.edges@ == pre.edges@,
            post.nodes@.len() == pre.nodes@.len(),
            post.resources@.len() == pre.resources@.len(),
            post.demands@.len() == pre.demands@.len(),
            forall|j: int| 0 <= j < pre.resources@.len() && j != i ==> post.resources@[j]
                == pre.resources@[j],
            forall|d: int| 0 <= d < pre.demands@.len() && d != cd ==> post.demands@[d]
                == pre.demands@[d],
            ({
                let t = pre.transit_of(i);
                ||| {
                    // delivered
                    &&& !post.resources@[i].live
                    &&& !post.demands@[cd as int].live
                    &&& post.nodes@ == pre.nodes@
                }
                ||| {
                    // wait at the waypoint
                    &&& t.route@.len() >= 2
                    &&& post.nodes@ == pre.nodes@
                    &&& post.demands@ == pre.demands@
                    &&& post.resources@[i].live
                    &&& post.resources@[i].kind == pre.resources@[i].kind
                    &&& (post.resources@[i].location matches Location::InTransit { transit }
                        && transit.route@ == t.route@ && transit.claim == t.claim
                        && transit.position == 0 && !transit.arrived
                        && transit.pending_departure)
                }
                ||| {
                    // rollback, re-homed into storage
                    &&& post.demands@[cd as int].live
                    &&& post.demands@[cd as int].claim is None
                    &&& post.demands@[cd as int].satellite == pre.demands@[cd as int].satellite
                    &&& post.resources@[i].live
                    &&& post.resources@[i].kind == pre.resources@[i].kind
                    &&& (post.resources@[i].location matches Location::InStorage { node } && node
                        == t.route@[0])
                    &&& forall|n: int| 0 <= n < pre.nodes@.len() && n != t.route@[0] ==>
                        post.nodes@[n] == pre.nodes@[n]
                    &&& post.nodes@[t.route@[0] as int].storage_count == pre.nodes@[t.route@[0]
                        as int].storage_count + 1
                    &&& post.nodes@[t.route@[0] as int].storage_count <= post.nodes@[t.route@[0]
                        as int].storage_size
                    &&& post.nodes@[t.route@[0] as int].storage_size == pre.nodes@[t.route@[0]
                        as int].storage_size
                    &&& post.nodes@[t.route@[0] as int].spawns == pre.nodes@[t.route@[0]
                        as int].spawns
                    &&& post.nodes@[t.route@[0] as int].consumer == pre.nodes@[t.route@[0]
                        as int].consumer
                    &&& post.nodes@[t.route@[0] as int].pending_demands == pre.nodes@[t.route@[0]
                        as int].pending_demands
                }
                ||| {
                    // rollback, despawned over capacity
                    &&& post.demands@[cd as int].live
                    &&& post.demands@[cd as int].claim is None
                    &&& post.demands@[cd as int].satellite == pre.demands@[cd as int].satellite
                    &&& !post.resources@[i].live
                    &&& post.nodes@ == pre.nodes@
                }
            }),
        ensures
            post.wf(),
    {
        assert(pre.wf_resource(i));
        assert(pre.wf_demand(cd));
        assert forall|d: int| 0 <= d < post.demands@.len() implies #[trigger] post.wf_demand(
            d,
        ) by {
            assert(pre.wf_demand(d));
            let dm = post.demands@[d];
            if dm.live && dm.claim is Some {
                let r = dm.claim->Some_0;
                if d != cd {
                    assert(post.demands@[d] == pre.demands@[d]);
                    if r as int == i {
                        assert(pre.transit_of(i).claim == cd);
                        assert(d == cd);
                    }
                    assert(post.resources@[r as int] == pre.resources@[r as int]);
                } else {
                    if post.demands@[cd as int].claim is Some {
                        assert(post.demands@ == pre.demands@);
                        assert(r as int == i);
                    }
                }
            }
        }
        assert forall|j: int| 0 <= j < post.resources@.len() implies #[trigger] post.wf_resource(
            j,
        ) by {
            assert(pre.wf_resource(j));
            if post.resources@[j].live {
                if j != i {
                    assert(post.resources@[j] == pre.resources@[j]);
                    if pre.resources@[j].location is InTransit {
                        let c = pre.transit_of(j).claim;
                        assert(pre.demands@[c as int].claim matches Some(rr) && rr == j);
                        if c as int == cd {
                            assert(pre.demands@[cd as int].claim matches Some(rr) && rr == i);
                            assert(j == i);
                        }
                        assert(post.demands@[c as int] == pre.demands@[c as int]);
                    }
                }
            }
        }
    }

    /// One arrival step carries the demand bookkeeping forward: only the
    /// processed unit's own demand moves, and it moves exactly as the
    /// unit's outcome dictates.
    proof fn lemma_arrival_demand_step(
        w0: World,
        pre: World,
        post: World,
        i: int,
        cd: int,
        d: int,
    )
        requires
            w0.wf(),
            0 <= i < w0.resources@.len(),
            arrived_unhandled(w0, i),
            w0.transit_of(i).claim == cd,
            pre.resources@[i] == w0.resources@[i],
            pre.demands@.len() == w0.demands@.len(),
            post.demands@.len() == w0.demands@.len(),
            0 <= d < w0.demands@.len(),
            arrival_demand_midstate(w0, pre, i, d),
            arrival_demand_midstate(w0, pre, i, cd),
            ({
                let t = w0.transit_of(i);
                if t.route@.len() < 2 {
                    &&& !post.demands@[cd as int].live
                    &&& forall|q: int| 0 <= q < w0.demands@.len() && q != cd ==> post.demands@[q]
                        == pre.demands@[q]
                } else if route_linked(w0.edges@, t.route@) {
                    post.demands@ == pre.demands@
                } else {
                    &&& post.demands@[cd as int].live
                    &&& post.demands@[cd as int].claim is None
                    &&& post.demands@[cd as int].satellite == pre.demands@[cd as int].satellite
                    &&& post.demands@[cd as int].kind == pre.demands@[cd as int].kind
                    &&& forall|q: int| 0 <= q < w0.demands@.len() && q != cd ==> post.demands@[q]
                        == pre.demands@[q]
                }
            }),
        ensures
            arrival_demand_midstate(w0, post, i + 1, d),
    {
        assert(w0.wf_resource(i));
        assert(w0.demands@[cd as int].claim matches Some(rr) && rr == i);
        let dm = w0.demands@[d];
        if dm.live && dm.claim is Some {
            let r = dm.claim->Some_0;
            if r as int == i && arrived_unhandled(w0, i) {
                assert(w0.wf_demand(d));
                assert(w0.transit_of(i).claim == d);
                assert(d == cd);
            }
        }
        if d != cd {
            assert(post.demands@[d] == pre.demands@[d]);
        }
    }
}

} // verus!
