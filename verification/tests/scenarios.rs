//! End-to-end scenarios of the matching and transit machinery.

use orbit_logistics::kind::ResourceKind;
use orbit_logistics::world::{World, TRANSIT_SCALE};

/// A big enough increment to complete any hop in one advancement pass.
fn full_hop(w: &World) -> Vec<u64> {
    let mut deltas: Vec<u64> = Vec::new();
    let mut i = 0;
    while i < w.resource_len() {
        deltas.push(2 * TRANSIT_SCALE);
        i += 1;
    }
    deltas
}

fn zero_deltas_except(w: &World, r: usize, delta: u64) -> Vec<u64> {
    let mut deltas: Vec<u64> = Vec::new();
    let mut i = 0;
    while i < w.resource_len() {
        deltas.push(if i == r { delta } else { 0 });
        i += 1;
    }
    deltas
}

#[test]
fn claim_over_one_edge() {
    // Node X holds one Material (1/6); node Y demands one over a valid edge.
    let mut w = World::new();
    let x = w.add_node(6, None, false);
    let y = w.add_node(6, None, true);
    let e = w.add_edge(x);
    w.complete_edge(e, y);
    let rid = w.add_stored_resource(x, ResourceKind::Material);
    assert_eq!(w.storage_count(x), 1);
    w.push_pending_demand(y, ResourceKind::Material);
    w.flush_demands();
    assert_eq!(w.demand_len(), 1);
    assert_eq!(w.demand_satellite(0), y);

    w.match_claims();

    assert_eq!(w.storage_count(x), 0);
    assert_eq!(w.demand_claim(0), Some(rid));
    let (route, position, pending, claim) = w.resource_transit(rid).expect("unit must travel");
    assert_eq!(route, vec![x, y]);
    assert_eq!(position, 0);
    assert!(!pending);
    assert_eq!(claim, 0);
}

#[test]
fn waypoint_pause_when_route_still_valid() {
    // Unit mid-route [X, Mid, Y] completes the hop X -> Mid; the rest of
    // the route still holds, so it waits at Mid for a departure release.
    let mut w = World::new();
    let x = w.add_node(6, None, false);
    let mid = w.add_node(6, None, false);
    let y = w.add_node(6, None, true);
    let e1 = w.add_edge(x);
    w.complete_edge(e1, mid);
    let e2 = w.add_edge(mid);
    w.complete_edge(e2, y);
    let rid = w.add_stored_resource(x, ResourceKind::Material);
    w.push_pending_demand(y, ResourceKind::Material);
    w.flush_demands();
    w.match_claims();
    let (route, _, _, _) = w.resource_transit(rid).expect("unit must travel");
    assert_eq!(route, vec![x, mid, y]);

    let deltas = full_hop(&w);
    w.advance_transports(&deltas);
    w.process_arrivals();

    let (route, position, pending, claim) = w.resource_transit(rid).expect("still travelling");
    assert_eq!(route, vec![mid, y]);
    assert_eq!(position, 0);
    assert!(pending);
    assert_eq!(claim, 0);
    assert!(w.demand_is_live(0));
    assert_eq!(w.demand_claim(0), Some(rid));
}

#[test]
fn rollback_when_route_breaks_mid_flight() {
    // Same run, but the edge Mid -> Y is removed before the arrival check:
    // the claim is severed and the unit re-homes into Mid's storage.
    let mut w = World::new();
    let x = w.add_node(6, None, false);
    let mid = w.add_node(6, None, false);
    let y = w.add_node(6, None, true);
    let e1 = w.add_edge(x);
    w.complete_edge(e1, mid);
    let e2 = w.add_edge(mid);
    w.complete_edge(e2, y);
    let rid = w.add_stored_resource(x, ResourceKind::Material);
    w.push_pending_demand(y, ResourceKind::Material);
    w.flush_demands();
    w.match_claims();

    let deltas = full_hop(&w);
    w.advance_transports(&deltas);
    w.remove_edge(e2);
    w.process_arrivals();

    assert!(w.resource_is_live(rid));
    assert_eq!(w.resource_stored_at(rid), Some(mid));
    assert_eq!(w.storage_count(mid), 1);
    assert!(w.demand_is_live(0));
    assert_eq!(w.demand_claim(0), None);
}

#[test]
fn despawn_when_rollback_node_is_full() {
    // As above, but Mid has no storage room: the unit is despawned and the
    // demand goes back to being retried.
    let mut w = World::new();
    let x = w.add_node(6, None, false);
    let mid = w.add_node(0, None, false);
    let y = w.add_node(6, None, true);
    let e1 = w.add_edge(x);
    w.complete_edge(e1, mid);
    let e2 = w.add_edge(mid);
    w.complete_edge(e2, y);
    let rid = w.add_stored_resource(x, ResourceKind::Material);
    w.push_pending_demand(y, ResourceKind::Material);
    w.flush_demands();
    w.match_claims();

    let deltas = full_hop(&w);
    w.advance_transports(&deltas);
    w.remove_edge(e2);
    w.process_arrivals();

    assert!(!w.resource_is_live(rid));
    assert_eq!(w.storage_count(mid), 0);
    assert!(w.demand_is_live(0));
    assert_eq!(w.demand_claim(0), None);
}

#[test]
fn equal_distance_demands_claim_distinct_units() {
    // Two demands at equal distance from two holders of one unit each:
    // one claim per unit, no unit claimed twice.
    let mut w = World::new();
    let d1 = w.add_node(6, None, true);
    let d2 = w.add_node(6, None, true);
    let h1 = w.add_node(6, None, false);
    let h2 = w.add_node(6, None, false);
    for (a, b) in [(d1, h1), (d1, h2), (d2, h1), (d2, h2)] {
        let e = w.add_edge(a);
        w.complete_edge(e, b);
    }
    let r1 = w.add_stored_resource(h1, ResourceKind::Material);
    let r2 = w.add_stored_resource(h2, ResourceKind::Material);
    w.push_pending_demand(d1, ResourceKind::Material);
    w.push_pending_demand(d2, ResourceKind::Material);
    w.flush_demands();
    assert_eq!(w.demand_len(), 2);

    w.match_claims();

    let c1 = w.demand_claim(0).expect("first demand must match");
    let c2 = w.demand_claim(1).expect("second demand must match");
    assert_ne!(c1, c2);
    assert!(c1 == r1 || c1 == r2);
    assert!(c2 == r1 || c2 == r2);
    assert_eq!(w.storage_count(h1), 0);
    assert_eq!(w.storage_count(h2), 0);
}

#[test]
fn disconnected_demand_is_retried_without_effect() {
    // The demand's node has no path to the only holder: no claim, ever,
    // and each pass leaves the world as it was.
    let mut w = World::new();
    let lonely = w.add_node(6, None, true);
    let holder = w.add_node(6, None, false);
    let other = w.add_node(6, None, false);
    let e = w.add_edge(lonely);
    w.complete_edge(e, other);
    let rid = w.add_stored_resource(holder, ResourceKind::Material);
    w.push_pending_demand(lonely, ResourceKind::Material);
    w.flush_demands();

    for _ in 0..5 {
        w.match_claims();
        assert!(w.demand_is_live(0));
        assert_eq!(w.demand_claim(0), None);
        assert_eq!(w.resource_stored_at(rid), Some(holder));
        assert_eq!(w.storage_count(holder), 1);
    }
}

#[test]
fn unit_at_demand_node_is_claimed_arrived_and_then_delivered() {
    // A matching unit already rests at the demand's own node: the claim
    // pass commits the one-node route at the hop's end, leaving unit and
    // demand intact; the next arrival pass delivers both.
    let mut w = World::new();
    let y = w.add_node(6, None, true);
    let rid = w.add_stored_resource(y, ResourceKind::Material);
    w.push_pending_demand(y, ResourceKind::Material);
    w.flush_demands();
    assert_eq!(w.storage_count(y), 1);

    w.match_claims();

    assert!(w.demand_is_live(0));
    assert_eq!(w.demand_claim(0), Some(rid));
    assert_eq!(w.storage_count(y), 0);
    let (route, position, pending, claim) = w.resource_transit(rid).expect("claimed, not yet delivered");
    assert_eq!(route, vec![y]);
    assert_eq!(position, TRANSIT_SCALE);
    assert!(!pending);
    assert_eq!(claim, 0);

    w.process_arrivals();

    assert!(!w.demand_is_live(0));
    assert!(!w.resource_is_live(rid));
    assert_eq!(w.storage_count(y), 0);
}

#[test]
fn delivery_at_route_end_consumes_demand_and_unit() {
    // Full journey over one edge: claim, cross the hop, arrive at the
    // destination with an exhausted route, deliver.
    let mut w = World::new();
    let x = w.add_node(6, None, false);
    let y = w.add_node(6, None, true);
    let e = w.add_edge(x);
    w.complete_edge(e, y);
    let rid = w.add_stored_resource(x, ResourceKind::Material);
    w.push_pending_demand(y, ResourceKind::Material);
    w.flush_demands();
    w.match_claims();

    let deltas = full_hop(&w);
    w.advance_transports(&deltas);
    w.process_arrivals();

    assert!(!w.demand_is_live(0));
    assert!(!w.resource_is_live(rid));
    assert_eq!(w.storage_count(x), 0);
    assert_eq!(w.storage_count(y), 0);
}

#[test]
fn progress_is_monotone_until_the_hop_boundary() {
    // Partial increments only ever move the position forward, and the
    // route is not popped before the hop completes.
    let mut w = World::new();
    let x = w.add_node(6, None, false);
    let y = w.add_node(6, None, true);
    let e = w.add_edge(x);
    w.complete_edge(e, y);
    let rid = w.add_stored_resource(x, ResourceKind::Material);
    w.push_pending_demand(y, ResourceKind::Material);
    w.flush_demands();
    w.match_claims();

    let mut last: u64 = 0;
    for _ in 0..3 {
        let deltas = zero_deltas_except(&w, rid, TRANSIT_SCALE / 4);
        w.advance_transports(&deltas);
        let (route, position, _, _) = w.resource_transit(rid).expect("travelling");
        assert!(position >= last);
        assert_eq!(route, vec![x, y]);
        last = position;
    }
    assert_eq!(last, 3 * (TRANSIT_SCALE / 4));
}

#[test]
fn nearer_holder_wins_the_claim() {
    // One holder a single hop away, another two hops away: breadth-first
    // search claims the nearer unit.
    let mut w = World::new();
    let d = w.add_node(6, None, true);
    let near = w.add_node(6, None, false);
    let far = w.add_node(6, None, false);
    let e1 = w.add_edge(d);
    w.complete_edge(e1, near);
    let e2 = w.add_edge(near);
    w.complete_edge(e2, far);
    let r_near = w.add_stored_resource(near, ResourceKind::Material);
    let r_far = w.add_stored_resource(far, ResourceKind::Material);
    w.push_pending_demand(d, ResourceKind::Material);
    w.flush_demands();

    w.match_claims();

    assert_eq!(w.demand_claim(0), Some(r_near));
    assert_eq!(w.resource_stored_at(r_far), Some(far));
    let (route, _, _, _) = w.resource_transit(r_near).expect("the near unit travels");
    assert_eq!(route, vec![near, d]);
}

#[test]
fn two_claims_from_one_holder_decrement_its_ledger_twice() {
    // One holder with two stored units serves two demands: its ledger
    // drops by exactly one per committed claim, and no other ledger moves.
    let mut w = World::new();
    let h = w.add_node(6, None, false);
    let c1 = w.add_node(6, None, true);
    let c2 = w.add_node(6, None, true);
    for b in [c1, c2] {
        let e = w.add_edge(h);
        w.complete_edge(e, b);
    }
    let r1 = w.add_stored_resource(h, ResourceKind::Material);
    let r2 = w.add_stored_resource(h, ResourceKind::Material);
    w.push_pending_demand(c1, ResourceKind::Material);
    w.push_pending_demand(c2, ResourceKind::Material);
    w.flush_demands();
    assert_eq!(w.storage_count(h), 2);

    w.match_claims();

    assert_eq!(w.storage_count(h), 0);
    assert_eq!(w.storage_count(c1), 0);
    assert_eq!(w.storage_count(c2), 0);
    let k1 = w.demand_claim(0).expect("first demand matched");
    let k2 = w.demand_claim(1).expect("second demand matched");
    assert_ne!(k1, k2);
    assert!(k1 == r1 || k1 == r2);
    assert!(k2 == r1 || k2 == r2);
}

