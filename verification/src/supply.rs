//! Sources of new work: spawn events that put units into storage, and
//! demand-generation events that raise demand records at consumer nodes.
//!
//! Consumers first accumulate wanted kinds in their node's pending list;
//! a flush then turns every pending entry into a standalone demand record,
//! in node order, and clears the lists. Spawners add one unit to their own
//! storage per spawn event while there is room.

use vstd::prelude::*;

use rand::Rng;

use crate::kind::ResourceKind;
use vstd::set_lib::*;

use crate::world::{live_unit_ids, Demand, Location, Node, ResourceUnit, World};

verus! {

/// The demand records that flushing one node's pending list creates.
pub open spec fn demands_of_node(n: Node, idx: int) -> Seq<Demand> {
    n.pending_demands@.map_values(
        |k: ResourceKind| Demand { live: true, satellite: idx as usize, kind: k, claim: None },
    )
}

/// The demand records that flushing the first `upto` nodes creates, in node
/// order.
pub open spec fn flushed_demands(nodes: Seq<Node>, upto: int) -> Seq<Demand>
    decreases upto,
{
    if upto <= 0 {
        Seq::empty()
    } else {
        flushed_demands(nodes, upto - 1) + demands_of_node(nodes[upto - 1], upto - 1)
    }
}

/// The units one spawn event creates at the first `upto` nodes: one unit
/// per spawner with room, in node order.
pub open spec fn spawned_units(nodes: Seq<Node>, upto: int) -> Seq<ResourceUnit>
    decreases upto,
{
    if upto <= 0 {
        Seq::empty()
    } else {
        let prefix = spawned_units(nodes, upto - 1);
        let n = nodes[upto - 1];
        if n.spawns matches Some(k) && n.storage_count < n.storage_size {
            prefix + seq![
                ResourceUnit {
                    live: true,
                    kind: n.spawns->0,
                    location: Location::InStorage { node: (upto - 1) as usize },
                },
            ]
        } else {
            prefix
        }
    }
}

/// Draws how many demands one consumer raises in one demand-generation
/// event.
///
/// Relies on `rand::thread_rng` and `rand::Rng::gen_range`: a sample from
/// the inclusive range `0..=3` lies within it. The draw is random, so
/// nothing more is promised of it.
#[verifier::external_body]
fn draw_demand_count() -> (r: usize)
    ensures
        r <= 3,
{
    rand::thread_rng().gen_range(0..=3)
}

impl World {
    /// Note one wanted kind at a consumer node; it becomes a demand record
    /// at the next flush.
    pub fn push_pending_demand(&mut self, node: usize, kind: ResourceKind)
        requires
            old(self).wf(),
            node < old(self).nodes@.len(),
            old(self).nodes@[node as int].consumer,
        ensures
            final(self).wf(),
            final(self).nodes@.len() == old(self).nodes@.len(),
            forall|n: int| 0 <= n < old(self).nodes@.len() && n != node ==> final(self).nodes@[n]
                == old(self).nodes@[n],
            final(self).nodes@[node as int].pending_demands@ == old(self).nodes@[node
                as int].pending_demands@.push(kind),
            final(self).nodes@[node as int].storage_count == old(self).nodes@[node
                as int].storage_count,
            final(self).nodes@[node as int].storage_size == old(self).nodes@[node
                as int].storage_size,
            final(self).nodes@[node as int].spawns == old(self).nodes@[node as int].spawns,
            final(self).nodes@[node as int].consumer == old(self).nodes@[node as int].consumer,
            final(self).edges@ == old(self).edges@,
            final(self).resources@ == old(self).resources@,
            final(self).demands@ == old(self).demands@,
    {
        self.nodes[node].pending_demands.push(kind);
        proof {
            assert forall|d: int| 0 <= d < self.demands@.len() implies #[trigger] self.wf_demand(
                d,
            ) by {
                assert(old(self).wf_demand(d));
            }
            assert forall|i: int| 0 <= i < self.resources@.len() implies
                #[trigger] self.wf_resource(i) by {
                assert(old(self).wf_resource(i));
            }
        }
    }

    /// A demand-generation event: every consumer draws a random count
    /// (at most three) and notes that many wanted `Material` entries in its
    /// pending list. Nothing else moves.
    #[verifier::loop_isolation(false)]
    pub fn generate_demands(&mut self)
        requires
            old(self).wf(),
        ensures
            final(self).wf(),
            final(self).nodes@.len() == old(self).nodes@.len(),
            forall|n: int| 0 <= n < old(self).nodes@.len() && !old(self).nodes@[n].consumer ==>
                final(self).nodes@[n] == old(self).nodes@[n],
            forall|n: int| 0 <= n < old(self).nodes@.len() && old(self).nodes@[n].consumer ==> {
                let pre = old(self).nodes@[n].pending_demands@;
                let post = (#[trigger] final(self).nodes@[n]).pending_demands@;
                &&& pre.len() <= post.len() <= pre.len() + 3
                &&& post.subrange(0, pre.len() as int) == pre
                &&& forall|j: int| pre.len() <= j < post.len() ==> post[j]
                    == ResourceKind::Material
                &&& final(self).nodes@[n].storage_count == old(self).nodes@[n].storage_count
                &&& final(self).nodes@[n].storage_size == old(self).nodes@[n].storage_size
                &&& final(self).nodes@[n].spawns == old(self).nodes@[n].spawns
                &&& final(self).nodes@[n].consumer == old(self).nodes@[n].consumer
            },
            final(self).edges@ == old(self).edges@,
            final(self).resources@ == old(self).resources@,
            final(self).demands@ == old(self).demands@,
    {
        let total = self.nodes.len();
        let mut n: usize = 0;
        while n < total
            invariant
                self.wf(),
                n <= total,
                self.nodes@.len() == old(self).nodes@.len(),
                forall|i: int| n <= i < total ==> self.nodes@[i] == old(self).nodes@[i],
                forall|i: int| 0 <= i < n && !old(self).nodes@[i].consumer ==> self.nodes@[i]
                    == old(self).nodes@[i],
                forall|i: int| 0 <= i < n && old(self).nodes@[i].consumer ==> {
                    let pre = old(self).nodes@[i].pending_demands@;
                    let post = (#[trigger] self.nodes@[i]).pending_demands@;
                    &&& pre.len() <= post.len() <= pre.len() + 3
                    &&& post.subrange(0, pre.len() as int) == pre
                    &&& forall|j: int| pre.len() <= j < post.len() ==> post[j]
                        == ResourceKind::Material
                    &&& self.nodes@[i].storage_count == old(self).nodes@[i].storage_count
                    &&& self.nodes@[i].storage_size == old(self).nodes@[i].storage_size
                    &&& self.nodes@[i].spawns == old(self).nodes@[i].spawns
                    &&& self.nodes@[i].consumer == old(self).nodes@[i].consumer
                },
                self.edges@ == old(self).edges@,
                self.resources@ == old(self).resources@,
                self.demands@ == old(self).demands@,
            decreases total - n,
        {
            let ghost outer0 = *self;
            if self.nodes[n].consumer {
                let count = draw_demand_count();
                let mut added: usize = 0;
                while added < count
                    invariant
                        self.wf(),
                        added <= count,
                        self.nodes@.len() == outer0.nodes@.len(),
                        forall|i: int| 0 <= i < total && i != n ==> self.nodes@[i]
                            == outer0.nodes@[i],
                        ({
                            let pre = outer0.nodes@[n as int].pending_demands@;
                            let post = self.nodes@[n as int].pending_demands@;
                            &&& post.len() == pre.len() + added
                            &&& post.subrange(0, pre.len() as int) == pre
                            &&& forall|j: int| pre.len() <= j < post.len() ==> post[j]
                                == ResourceKind::Material
                        }),
                        self.nodes@[n as int].storage_count == outer0.nodes@[n
                            as int].storage_count,
                        self.nodes@[n as int].storage_size == outer0.nodes@[n
                            as int].storage_size,
                        self.nodes@[n as int].spawns == outer0.nodes@[n as int].spawns,
                        self.nodes@[n as int].consumer == outer0.nodes@[n as int].consumer,
                        self.edges@ == outer0.edges@,
                        self.resources@ == outer0.resources@,
                        self.demands@ == outer0.demands@,
                    decreases count - added,
                {
                    let ghost pre_world = *self;
                    self.nodes[n].pending_demands.push(ResourceKind::Material);
                    added = added + 1;
                    proof {
                        let pre = outer0.nodes@[n as int].pending_demands@;
                        assert(self.nodes@[n as int].pending_demands@.subrange(
                            0,
                            pre.len() as int,
                        ) =~= pre);
                        assert forall|d: int| 0 <= d < self.demands@.len() implies
                            #[trigger] self.wf_demand(d) by {
                            assert(pre_world.wf_demand(d));
                        }
                        assert forall|i: int| 0 <= i < self.resources@.len() implies
                            #[trigger] self.wf_resource(i) by {
                            assert(pre_world.wf_resource(i));
                        }
                    }
                }
                proof {
                    assert(outer0.nodes@[n as int] == old(self).nodes@[n as int]);
                    let pre = old(self).nodes@[n as int].pending_demands@;
                    assert(self.nodes@[n as int].pending_demands@.subrange(0, pre.len() as int)
                        == pre);
                }
            }
            proof {
                assert forall|i: int| 0 <= i < n && old(self).nodes@[i].consumer implies {
                    let pre = old(self).nodes@[i].pending_demands@;
                    let post = (#[trigger] self.nodes@[i]).pending_demands@;
                    &&& pre.len() <= post.len() <= pre.len() + 3
                    &&& post.subrange(0, pre.len() as int) == pre
                    &&& forall|j: int| pre.len() <= j < post.len() ==> post[j]
                        == ResourceKind::Material
                    &&& self.nodes@[i].storage_count == old(self).nodes@[i].storage_count
                    &&& self.nodes@[i].storage_size == old(self).nodes@[i].storage_size
                    &&& self.nodes@[i].spawns == old(self).nodes@[i].spawns
                    &&& self.nodes@[i].consumer == old(self).nodes@[i].consumer
                } by {
                    assert(self.nodes@[i] == outer0.nodes@[i]);
                }
                assert forall|i: int| 0 <= i < n && !old(self).nodes@[i].consumer implies
                    self.nodes@[i] == old(self).nodes@[i] by {
                    assert(self.nodes@[i] == outer0.nodes@[i]);
                }
            }
            n = n + 1;
        }
    }

    /// A spawn event: every node with a spawner role and room in its
    /// storage gains one unit of its spawn kind, counted in its ledger.
    #[verifier::loop_isolation(false)]
    pub fn spawn_resources(&mut self)
        requires
            old(self).wf(),
        ensures
            final(self).wf(),
            final(self).nodes@.len() == old(self).nodes@.len(),
            forall|n: int| 0 <= n < old(self).nodes@.len() ==> {
                let pre = old(self).nodes@[n];
                let post = #[trigger] final(self).nodes@[n];
                &&& post.storage_count == if pre.spawns is Some && pre.storage_count
                    < pre.storage_size {
                    pre.storage_count + 1
                } else {
                    pre.storage_count as int
                }
                &&& post.storage_size == pre.storage_size
                &&& post.spawns == pre.spawns
                &&& post.consumer == pre.consumer
                &&& post.pending_demands == pre.pending_demands
            },
            final(self).resources@ == old(self).resources@ + spawned_units(
                old(self).nodes@,
                old(self).nodes@.len() as int,
            ),
            forall|i: int| old(self).resources@.len() <= i < final(self).resources@.len() ==> {
                &&& (#[trigger] final(self).resources@[i]).live
                &&& final(self).resources@[i].location is InStorage
            },
            live_unit_ids(*final(self)) == live_unit_ids(*old(self)).union(
                set_int_range(
                    old(self).resources@.len() as int,
                    final(self).resources@.len() as int,
                ),
            ),
            final(self).edges@ == old(self).edges@,
            final(self).demands@ == old(self).demands@,
    {
        let total = self.nodes.len();
        let mut n: usize = 0;
        while n < total
            invariant
                self.wf(),
                total == self.nodes@.len(),
                n <= total,
                self.nodes@.len() == old(self).nodes@.len(),
                forall|i: int| n <= i < total ==> self.nodes@[i] == old(self).nodes@[i],
                forall|i: int| 0 <= i < n ==> {
                    let pre = old(self).nodes@[i];
                    let post = #[trigger] self.nodes@[i];
                    &&& post.storage_count == if pre.spawns is Some && pre.storage_count
                        < pre.storage_size {
                        pre.storage_count + 1
                    } else {
                        pre.storage_count as int
                    }
                    &&& post.storage_size == pre.storage_size
                    &&& post.spawns == pre.spawns
                    &&& post.consumer == pre.consumer
                    &&& post.pending_demands == pre.pending_demands
                },
                self.resources@ == old(self).resources@ + spawned_units(
                    old(self).nodes@,
                    n as int,
                ),
                forall|i: int| old(self).resources@.len() <= i < self.resources@.len() ==> {
                    &&& (#[trigger] self.resources@[i]).live
                    &&& self.resources@[i].location is InStorage
                },
                self.edges@ == old(self).edges@,
                self.demands@ == old(self).demands@,
            decreases total - n,
        {
            let ghost pre_world = *self;
            let spawns = self.nodes[n].spawns;
            let has_room = self.nodes[n].storage_count < self.nodes[n].storage_size;
            match spawns {
                Option::Some(kind) => {
                    if has_room {
                        self.add_stored_resource(n, kind);
                        proof {
                            assert(self.resources@ =~= old(self).resources@ + spawned_units(
                                old(self).nodes@,
                                n + 1,
                            ));
                        }
                    }
                },
                Option::None => {},
            }
            proof {
                assert(spawned_units(old(self).nodes@, n + 1) =~= if old(self).nodes@[n
                    as int].spawns is Some && old(self).nodes@[n as int].storage_count < old(
                    self,
                ).nodes@[n as int].storage_size {
                    spawned_units(old(self).nodes@, n as int) + seq![
                        ResourceUnit {
                            live: true,
                            kind: old(self).nodes@[n as int].spawns->0,
                            location: Location::InStorage { node: n },
                        },
                    ]
                } else {
                    spawned_units(old(self).nodes@, n as int)
                });
                if !(old(self).nodes@[n as int].spawns is Some && old(self).nodes@[n
                    as int].storage_count < old(self).nodes@[n as int].storage_size) {
                    assert(self.resources@ =~= old(self).resources@ + spawned_units(
                        old(self).nodes@,
                        n + 1,
                    ));
                }
            }
            n = n + 1;
        }
        proof {
            assert(live_unit_ids(*self) =~= live_unit_ids(*old(self)).union(
                set_int_range(old(self).resources@.len() as int, self.resources@.len() as int),
            ));
        }
    }

    /// Flush every node's pending list into standalone demand records, in
    /// node order, and clear the lists. The new records are live and
    /// unclaimed.
    #[verifier::loop_isolation(false)]
    pub fn flush_demands(&mut self)
        requires
            old(self).wf(),
        ensures
            final(self).wf(),
            final(self).demands@ == old(self).demands@ + flushed_demands(
                old(self).nodes@,
                old(self).nodes@.len() as int,
            ),
            forall|d: int| old(self).demands@.len() <= d < final(self).demands@.len() ==> {
                &&& (#[trigger] final(self).demands@[d]).live
                &&& final(self).demands@[d].claim is None
            },
            final(self).nodes@.len() == old(self).nodes@.len(),
            forall|n: int| 0 <= n < old(self).nodes@.len() ==> {
                let pre = old(self).nodes@[n];
                let post = #[trigger] final(self).nodes@[n];
                &&& post.pending_demands@.len() == 0
                &&& post.storage_count == pre.storage_count
                &&& post.storage_size == pre.storage_size
                &&& post.spawns == pre.spawns
                &&& post.consumer == pre.consumer
            },
            final(self).edges@ == old(self).edges@,
            final(self).resources@ == old(self).resources@,
    {
        let total = self.nodes.len();
        let mut n: usize = 0;
        while n < total
            invariant
                self.wf(),
                total == self.nodes@.len(),
                n <= total,
                self.nodes@.len() == old(self).nodes@.len(),
                forall|i: int| n <= i < total ==> self.nodes@[i] == old(self).nodes@[i],
                forall|i: int| 0 <= i < n ==> {
                    let pre = old(self).nodes@[i];
                    let post = #[trigger] self.nodes@[i];
                    &&& post.pending_demands@.len() == 0
                    &&& post.storage_count == pre.storage_count
                    &&& post.storage_size == pre.storage_size
                    &&& post.spawns == pre.spawns
                    &&& post.consumer == pre.consumer
                },
                self.demands@ == old(self).demands@ + flushed_demands(old(self).nodes@, n as int),
                forall|d: int| old(self).demands@.len() <= d < self.demands@.len() ==> {
                    &&& (#[trigger] self.demands@[d]).live
                    &&& self.demands@[d].claim is None
                },
                self.edges@ == old(self).edges@,
                self.resources@ == old(self).resources@,
            decreases total - n,
        {
            let pending_len = self.nodes[n].pending_demands.len();
            let mut k: usize = 0;
            while k < pending_len
                invariant
                    self.wf(),
                    n < total,
                    total == self.nodes@.len(),
                    self.nodes@.len() == old(self).nodes@.len(),
                    k <= pending_len,
                    self.nodes@[n as int] == old(self).nodes@[n as int],
                    pending_len == self.nodes@[n as int].pending_demands@.len(),
                    forall|i: int| n < i < total ==> self.nodes@[i] == old(self).nodes@[i],
                    forall|i: int| 0 <= i < n ==> {
                        let pre = old(self).nodes@[i];
                        let post = #[trigger] self.nodes@[i];
                        &&& post.pending_demands@.len() == 0
                        &&& post.storage_count == pre.storage_count
                        &&& post.storage_size == pre.storage_size
                        &&& post.spawns == pre.spawns
                        &&& post.consumer == pre.consumer
                    },
                    self.demands@ == old(self).demands@ + flushed_demands(
                        old(self).nodes@,
                        n as int,
                    ) + demands_of_node(old(self).nodes@[n as int], n as int).subrange(
                        0,
                        k as int,
                    ),
                    forall|d: int| old(self).demands@.len() <= d < self.demands@.len() ==> {
                        &&& (#[trigger] self.demands@[d]).live
                        &&& self.demands@[d].claim is None
                    },
                    self.edges@ == old(self).edges@,
                    self.resources@ == old(self).resources@,
                decreases pending_len - k,
            {
                let ghost pre_world = *self;
                let kind = self.nodes[n].pending_demands[k];
                self.demands.push(Demand { live: true, satellite: n, kind, claim: None });
                k = k + 1;
                proof {
                    let seg = demands_of_node(old(self).nodes@[n as int], n as int);
                    assert(seg.subrange(0, k as int) =~= seg.subrange(0, k - 1 as int).push(
                        seg[k - 1 as int],
                    ));
                    assert(self.demands@ =~= old(self).demands@ + flushed_demands(
                        old(self).nodes@,
                        n as int,
                    ) + seg.subrange(0, k as int));
                    assert forall|d: int| 0 <= d < self.demands@.len() implies
                        #[trigger] self.wf_demand(d) by {
                        if d < pre_world.demands@.len() {
                            assert(pre_world.wf_demand(d));
                        }
                    }
                    assert forall|i: int| 0 <= i < self.resources@.len() implies
                        #[trigger] self.wf_resource(i) by {
                        assert(pre_world.wf_resource(i));
                    }
                }
            }
            let ghost before_clear = *self;
            self.nodes[n].pending_demands = Vec::new();
            proof {
                let seg = demands_of_node(old(self).nodes@[n as int], n as int);
                assert(seg.subrange(0, pending_len as int) =~= seg);
                assert(flushed_demands(old(self).nodes@, n + 1) == flushed_demands(
                    old(self).nodes@,
                    n as int,
                ) + seg);
                assert(self.demands@ =~= old(self).demands@ + flushed_demands(
                    old(self).nodes@,
                    n + 1,
                ));
                assert forall|d: int| 0 <= d < self.demands@.len() implies #[trigger] self.wf_demand(
                    d,
                ) by {
                    assert(before_clear.wf_demand(d));
                }
                assert forall|i: int| 0 <= i < self.resources@.len() implies
                    #[trigger] self.wf_resource(i) by {
                    assert(before_clear.wf_resource(i));
                }
            }
            n = n + 1;
        }
    }
}

} // verus!
