use net_world::network::{
    Lane, LaneId, Link, LinkId, Movement, MovementId, Network, Node, NodeControl, NodeId, RoadKind, TurnType,
};
use net_world::queue::{Entry, Queue};
use net_world::router::{FieldRouter, UNREACHED};
use net_world::Quantity;

fn q(x: f64) -> Quantity {
    let b = x.to_bits() as i64;
    Quantity::at(if b < 0 { b ^ i64::MAX } else { b })
}

/// One-way links of one lane each between placed nodes, joined wherever one ends
/// where another begins.
fn streets(places: &[(f64, f64)], links: &[(u32, u32)], speed: f64) -> Network {
    let nodes = places
        .iter()
        .enumerate()
        .map(|(i, _)| Node {
            control: NodeControl::Uncontrolled,
            rail_crossing: false,
            junction: None,
            intersection: i as u32,
            all_way_stop: false,
            conflicts: vec![],
        })
        .collect();
    let length = |&(a, b): &(u32, u32)| {
        let ((ax, ay), (bx, by)) = (places[a as usize], places[b as usize]);
        (bx - ax).hypot(by - ay)
    };
    let mut movements = Vec::new();
    let mut lanes = Vec::new();
    for (i, l) in links.iter().enumerate() {
        let start = movements.len() as u32;
        for (j, m) in links.iter().enumerate() {
            if m.0 == l.1 && m.1 != l.0 {
                movements.push(Movement {
                    from_lane: LaneId(i as u32),
                    to_lane: LaneId(j as u32),
                    node: NodeId(l.1),
                    turn: TurnType::Through,
                    interchange: false,
                    continuation: false,
                    straightness: q(1.0),
                    signal_group: None,
                    points: vec![],
                });
            }
        }
        lanes.push(Lane {
            link: LinkId(i as u32),
            index_in_link: 0,
            movement_start: MovementId(start),
            movement_count: movements.len() as u32 - start,
            length: q(length(l)),
            speed_limit: q(speed),
            hov: false,
        });
    }
    let links = links
        .iter()
        .enumerate()
        .map(|(i, l)| Link {
            from: NodeId(l.0),
            to: NodeId(l.1),
            lane_start: LaneId(i as u32),
            lane_count: 1,
            kind: RoadKind::Surface(3),
            rank: 0,
            speed_milli: (speed * 1000.0) as u64,
            travel_time_ms: (length(l) / speed * 1000.0) as u64,
            stop_line: false,
        })
        .collect();
    Network {
        nodes,
        links,
        lanes,
        movements,
        conflicts: vec![],
        junctions: vec![],
        groups: vec![],
        programs: vec![],
        bus_stops: vec![],
        am_offsets: vec![],
        pm_offsets: vec![],
    }
}

fn diamond() -> Network {
    streets(
        &[(0.0, 0.0), (100.0, 0.0), (200.0, -10.0), (200.0, 300.0), (300.0, 0.0), (400.0, 0.0)],
        &[(0, 1), (1, 2), (1, 3), (2, 4), (3, 4), (4, 5)],
        20.0,
    )
}

fn free_flow(net: &Network) -> Vec<u64> {
    net.links.iter().map(|l| l.travel_time_ms).collect()
}

#[test]
fn router_prefers_the_faster_path() {
    let net = diamond();
    assert!(net.check());
    let route = net.route_links(LinkId(0), LinkId(5)).expect("reachable");
    assert_eq!(route, vec![LinkId(0), LinkId(1), LinkId(3), LinkId(5)]);
}

#[test]
fn router_reroutes_around_a_congested_link() {
    let net = diamond();
    let mut costs: Vec<u64> = free_flow(&net);
    assert_eq!(net.route_links(LinkId(0), LinkId(5)).unwrap()[1], LinkId(1));
    costs[1] = 10_000_000; // link (1,2) is now jammed
    let rerouted = net.route_links_with_costs(LinkId(0), LinkId(5), &costs).unwrap();
    assert_eq!(rerouted, vec![LinkId(0), LinkId(2), LinkId(4), LinkId(5)]);
}

#[test]
fn a_link_behind_has_no_route() {
    let net = diamond();
    assert_eq!(net.route_links(LinkId(5), LinkId(0)), None);
    assert_eq!(net.route_links(LinkId(3), LinkId(4)), None);
    assert_eq!(net.route_links(LinkId(2), LinkId(2)), Some(vec![LinkId(2)]));
}

#[test]
fn fields_lead_to_their_destination() {
    let net = diamond();
    let costs = free_flow(&net);
    let r = FieldRouter::new(&net, &vec![LinkId(5), LinkId(4)], &costs);
    assert!(r.knows(LinkId(5)) && r.knows(LinkId(4)) && !r.knows(LinkId(0)));
    assert_eq!(r.dests_in_slot_order(), &vec![LinkId(5), LinkId(4)]);
    assert_eq!(r.next_hop(LinkId(5), LinkId(0), &net), Some(LinkId(1)));
    assert_eq!(r.next_hop(LinkId(5), LinkId(1), &net), Some(LinkId(3)));
    assert_eq!(r.next_hop(LinkId(5), LinkId(5), &net), None);
    assert_eq!(r.next_hop(LinkId(4), LinkId(0), &net), Some(LinkId(2)));
    assert_eq!(r.next_hop(LinkId(4), LinkId(1), &net), None, "the other arm never gets there");
    assert_eq!(r.next_hop(LinkId(0), LinkId(1), &net), None, "no field for that destination");
    assert_eq!(r.distance(LinkId(5), LinkId(0), &net), Some(5024 + 5024 + 5000));
    assert_eq!(r.distance(LinkId(5), LinkId(2), &net), Some(15811 + 5000));
    assert_eq!(r.distance(LinkId(5), LinkId(5), &net), Some(0));
    assert_eq!(r.distance(LinkId(4), LinkId(1), &net), None);
}

#[test]
fn dearer_links_never_make_a_route_shorter() {
    let net = diamond();
    let mut costs = free_flow(&net);
    let before = FieldRouter::new(&net, &vec![LinkId(5)], &costs);
    costs[1] = 10_000_000;
    let after = FieldRouter::new(&net, &vec![LinkId(5)], &costs);
    for l in 0..6 {
        let (a, b) = (before.distance(LinkId(5), LinkId(l), &net), after.distance(LinkId(5), LinkId(l), &net));
        assert!(a.unwrap() <= b.unwrap(), "link {l}: {a:?} then {b:?}");
    }
    assert_eq!(after.distance(LinkId(5), LinkId(0), &net), Some(15811 + 15811 + 5000));
}

#[test]
fn solving_fields_side_by_side_gives_the_same_fields() {
    let net = diamond();
    let mut costs = free_flow(&net);
    let dests: Vec<LinkId> = (0..6).map(LinkId).collect();
    costs[1] = 10_000_000;
    let fresh = FieldRouter::new(&net, &dests, &costs);
    for width in [0usize, 1, 2, 4, 100] {
        let mut r = FieldRouter::new(&net, &dests, &free_flow(&net));
        r.begin_recompute(&net, &costs, width);
        assert!(r.recompute_pending());
        while r.recompute_pending() {
            r.advance_recompute(&net, 2);
        }
        assert_eq!(r.dests_in_slot_order(), &dests);
        for d in 0..6 {
            for l in 0..6 {
                assert_eq!(r.next_hop(LinkId(d), LinkId(l), &net), fresh.next_hop(LinkId(d), LinkId(l), &net));
                assert_eq!(r.distance(LinkId(d), LinkId(l), &net), fresh.distance(LinkId(d), LinkId(l), &net));
            }
        }
    }
}

#[test]
fn the_old_fields_serve_until_the_new_are_complete() {
    let net = diamond();
    let free = free_flow(&net);
    let mut jam = free.clone();
    jam[1] = 10_000_000;
    let dests = vec![LinkId(5), LinkId(3)];
    let (old, new) = (FieldRouter::new(&net, &dests, &free), FieldRouter::new(&net, &dests, &jam));
    let hops = |r: &FieldRouter, d: u32| (0..6).map(|l| r.next_hop(LinkId(d), LinkId(l), &net)).collect::<Vec<Option<LinkId>>>();
    assert_ne!(hops(&old, 5), hops(&new, 5));
    let mut r = FieldRouter::new(&net, &dests, &free);
    assert!(!r.recompute_pending());
    r.begin_recompute(&net, &jam, 1);
    // six links reach link 5: two at a time the field takes three turns
    for turn in 0..2 {
        r.advance_recompute(&net, 2);
        assert!(r.recompute_pending());
        assert_eq!((hops(&r, 5), hops(&r, 3)), (hops(&old, 5), hops(&old, 3)), "turn {turn}");
    }
    r.advance_recompute(&net, 2);
    assert_eq!((hops(&r, 5), hops(&r, 3)), (hops(&new, 5), hops(&old, 3)), "one field is complete");
    assert!(r.recompute_pending());
    r.advance_recompute(&net, 8000);
    assert_eq!((hops(&r, 5), hops(&r, 3)), (hops(&new, 5), hops(&new, 3)));
    assert!(!r.recompute_pending());
    // going on with nothing in flight changes nothing
    r.advance_recompute(&net, 8000);
    assert_eq!(hops(&r, 5), hops(&new, 5));
    // both at once take effect together
    r.begin_recompute(&net, &free, 2);
    r.advance_recompute(&net, 5);
    assert_eq!(hops(&r, 5), hops(&new, 5));
    r.advance_recompute(&net, 5);
    assert_eq!((hops(&r, 5), hops(&r, 3)), (hops(&old, 5), hops(&old, 3)));
}

#[test]
fn the_queue_gives_the_cheapest_first() {
    let mut q = Queue::new();
    assert_eq!(q.first(), None);
    for (k, cost) in [50u128, 7, 93, 7, 12, 1, 88, 3, 41].iter().enumerate() {
        q.push(Entry { cost: *cost, link: k });
    }
    let mut out = Vec::new();
    while let Some(e) = q.first() {
        out.push(e.cost);
        q.drop_first();
    }
    assert_eq!(out, vec![1, 3, 7, 7, 12, 41, 50, 88, 93]);
}

#[test]
fn outside_distances_become_hops() {
    let net = diamond();
    let costs = free_flow(&net);
    let mut r = FieldRouter::new(&net, &vec![LinkId(5)], &costs);
    // the solver says that the second arm is the shorter one
    let dist = vec![vec![200, 900, 100, 800, 50, 0]];
    r.recompute_from_distances(&net, &vec![10, 10, 10, 10, 10, 10], &dist);
    assert_eq!(r.next_hop(LinkId(5), LinkId(0), &net), Some(LinkId(2)));
    assert_eq!(r.distance(LinkId(5), LinkId(0), &net), Some(200));
    // and now that it is cut
    let cut = vec![vec![200, 900, UNREACHED, 800, UNREACHED, 0]];
    r.recompute_from_distances(&net, &vec![10, 10, 10, 10, 10, 10], &cut);
    assert_eq!(r.next_hop(LinkId(5), LinkId(0), &net), Some(LinkId(1)));
    assert_eq!(r.distance(LinkId(5), LinkId(2), &net), None);
    assert_eq!(r.next_hop(LinkId(5), LinkId(5), &net), None);
}

#[test]
fn broken_networks_are_found_out() {
    let broken = |f: fn(&mut Network)| {
        let mut net = diamond();
        f(&mut net);
        !net.check()
    };
    assert!(broken(|n| n.links[0].to = NodeId(9)));
    assert!(broken(|n| n.links[0].lane_count = 0));
    assert!(broken(|n| n.links[5].lane_count = 2));
    assert!(broken(|n| n.lanes[2].link = LinkId(1)));
    assert!(broken(|n| n.lanes[0].movement_count = 1));
    assert!(broken(|n| n.movements[0].to_lane = LaneId(5)));
    assert!(broken(|n| n.movements[0].signal_group = Some(0)));
    assert!(broken(|n| n.nodes[0].junction = Some(0)));
    assert!(broken(|n| n.nodes[0].conflicts = vec![0]));
    assert!(broken(|n| n.am_offsets = vec![q(1.0)]));
    assert!(!broken(|n| n.nodes[0].rail_crossing = true));
}
