//! Ledger, supply, departure-release and edge maintenance behaviour.

use orbit_logistics::kind::ResourceKind;
use orbit_logistics::world::{World, TRANSIT_SCALE};

fn live_units(w: &World) -> usize {
    let mut alive = 0;
    let mut r = 0;
    while r < w.resource_len() {
        if w.resource_is_live(r) {
            alive += 1;
        }
        r += 1;
    }
    alive
}

#[test]
fn spawner_fills_up_to_capacity_and_no_further() {
    let mut w = World::new();
    let s = w.add_node(2, Some(ResourceKind::Material), false);
    for _ in 0..5 {
        w.spawn_resources();
        assert!(w.storage_count(s) <= w.storage_size(s));
    }
    assert_eq!(w.storage_count(s), 2);
    assert_eq!(w.resource_len(), 2);
    assert_eq!(live_units(&w), 2);
}

#[test]
fn non_spawner_never_gains_units() {
    let mut w = World::new();
    let n = w.add_node(4, None, true);
    for _ in 0..3 {
        w.spawn_resources();
    }
    assert_eq!(w.storage_count(n), 0);
    assert_eq!(w.resource_len(), 0);
}

#[test]
fn generated_demands_are_bounded_and_material() {
    // Each demand-generation event adds at most three entries per
    // consumer, all of the Material kind; a flush then turns every entry
    // into one live unclaimed demand record.
    let mut w = World::new();
    let c = w.add_node(6, None, true);
    let quiet = w.add_node(6, None, false);
    let mut last_pending = 0;
    for _ in 0..10 {
        w.generate_demands();
        let now = w.pending_len(c);
        assert!(now >= last_pending);
        assert!(now - last_pending <= 3);
        assert_eq!(w.pending_len(quiet), 0);
        last_pending = now;
    }
    w.flush_demands();
    assert_eq!(w.pending_len(c), 0);
    assert_eq!(w.demand_len(), last_pending);
    let mut d = 0;
    while d < w.demand_len() {
        assert!(w.demand_is_live(d));
        assert_eq!(w.demand_claim(d), None);
        assert_eq!(w.demand_satellite(d), c);
        assert_eq!(w.demand_kind(d), ResourceKind::Material);
        d += 1;
    }
}

#[test]
fn departure_release_frees_at_most_one_unit_per_event() {
    // Two units wait at two different waypoints; each release event
    // resumes exactly one of them, and a third event finds nobody waiting.
    let mut w = World::new();
    let mut pairs = Vec::new();
    for _ in 0..2 {
        let x = w.add_node(6, None, false);
        let mid = w.add_node(6, None, false);
        let y = w.add_node(6, None, true);
        let e1 = w.add_edge(x);
        w.complete_edge(e1, mid);
        let e2 = w.add_edge(mid);
        w.complete_edge(e2, y);
        let rid = w.add_stored_resource(x, ResourceKind::Material);
        w.push_pending_demand(y, ResourceKind::Material);
        pairs.push(rid);
    }
    w.flush_demands();
    w.match_claims();
    let mut deltas: Vec<u64> = Vec::new();
    for _ in 0..w.resource_len() {
        deltas.push(2 * TRANSIT_SCALE);
    }
    w.advance_transports(&deltas);
    w.process_arrivals();
    let waiting = |w: &World| {
        let mut c = 0;
        for &r in &pairs {
            if let Some((_, _, pending, _)) = w.resource_transit(r) {
                if pending {
                    c += 1;
                }
            }
        }
        c
    };
    assert_eq!(waiting(&w), 2);

    let first = w.release_departures();
    assert!(first.is_some());
    assert_eq!(waiting(&w), 1);

    let second = w.release_departures();
    assert!(second.is_some());
    assert_eq!(waiting(&w), 0);
    assert_ne!(first.unwrap(), second.unwrap());

    assert_eq!(w.release_departures(), None);
}

#[test]
fn pruning_drops_only_settled_edges_judged_out_of_range() {
    let mut w = World::new();
    let a = w.add_node(6, None, false);
    let b = w.add_node(6, None, false);
    let e_far = w.add_edge(a);
    w.complete_edge(e_far, b);
    let e_near = w.add_edge(b);
    w.complete_edge(e_near, a);
    let e_drawing = w.add_edge(a);
    let keep = vec![false, true, false];
    w.prune_edges(&keep);
    assert!(!w.edge_is_live(e_far));
    assert!(w.edge_is_live(e_near));
    assert!(w.edge_is_live(e_drawing));
}

#[test]
fn settling_a_connection_on_its_own_anchor_cancels_it() {
    let mut w = World::new();
    let a = w.add_node(6, None, false);
    let b = w.add_node(6, None, false);
    let e1 = w.add_edge(a);
    w.settle_edge(e1, a);
    assert!(!w.edge_is_live(e1));
    let e2 = w.add_edge(a);
    w.settle_edge(e2, b);
    assert!(w.edge_is_live(e2));
}

#[test]
fn validity_flag_gates_the_graph_view() {
    // An edge marked out of range stops carrying claims without being
    // removed, and carries them again once it is back in range.
    let mut w = World::new();
    let x = w.add_node(6, None, false);
    let y = w.add_node(6, None, true);
    let e = w.add_edge(x);
    w.complete_edge(e, y);
    let rid = w.add_stored_resource(x, ResourceKind::Material);
    w.push_pending_demand(y, ResourceKind::Material);
    w.flush_demands();

    w.set_edge_validity(e, false);
    w.match_claims();
    assert_eq!(w.demand_claim(0), None);
    assert_eq!(w.resource_stored_at(rid), Some(x));

    w.set_edge_validity(e, true);
    w.match_claims();
    assert_eq!(w.demand_claim(0), Some(rid));
}

#[test]
fn units_are_conserved_through_a_full_journey() {
    // Units appear only through spawning and disappear only on delivery:
    // across claim, advancement and waypoint handling the count is stable.
    let mut w = World::new();
    let x = w.add_node(6, Some(ResourceKind::Material), false);
    let mid = w.add_node(6, None, false);
    let y = w.add_node(6, None, true);
    let e1 = w.add_edge(x);
    w.complete_edge(e1, mid);
    let e2 = w.add_edge(mid);
    w.complete_edge(e2, y);
    w.spawn_resources();
    assert_eq!(live_units(&w), 1);
    w.push_pending_demand(y, ResourceKind::Material);
    w.flush_demands();

    w.match_claims();
    assert_eq!(live_units(&w), 1);
    let mut deltas: Vec<u64> = Vec::new();
    for _ in 0..w.resource_len() {
        deltas.push(2 * TRANSIT_SCALE);
    }
    w.advance_transports(&deltas);
    assert_eq!(live_units(&w), 1);
    w.process_arrivals();
    assert_eq!(live_units(&w), 1);
    w.release_departures();
    assert_eq!(live_units(&w), 1);
    w.advance_transports(&deltas);
    assert_eq!(live_units(&w), 1);
    w.process_arrivals();
    // Route exhausted at Y: delivery is the one event that consumes the unit.
    assert_eq!(live_units(&w), 0);
    assert!(!w.demand_is_live(0));
}

#[test]
fn storage_counts_stay_within_capacity_under_stress() {
    // A small network run for many events: the ledger invariant holds at
    // every observation point.
    let mut w = World::new();
    let s1 = w.add_node(3, Some(ResourceKind::Material), false);
    let s2 = w.add_node(2, Some(ResourceKind::Material), false);
    let c1 = w.add_node(2, None, true);
    let c2 = w.add_node(1, None, true);
    for (a, b) in [(s1, c1), (c1, s2), (s2, c2), (c2, s1)] {
        let e = w.add_edge(a);
        w.complete_edge(e, b);
    }
    for round in 0..20u64 {
        w.spawn_resources();
        w.generate_demands();
        w.flush_demands();
        w.match_claims();
        let mut deltas: Vec<u64> = Vec::new();
        for _ in 0..w.resource_len() {
            deltas.push(TRANSIT_SCALE / 2 + (round % 3) * (TRANSIT_SCALE / 2));
        }
        w.advance_transports(&deltas);
        w.process_arrivals();
        w.release_departures();
        let mut n = 0;
        while n < w.node_len() {
            assert!(w.storage_count(n) <= w.storage_size(n));
            n += 1;
        }
    }
}
