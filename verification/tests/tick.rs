use net_world::backend::AccelBackend;
use net_world::boxes::{ExitMeasure, PointTiming, Room};
use net_world::boundary::{BoundaryView, LandingView, MotionView, ReceivingView};
use net_world::context::AccelInput;
use net_world::control::{PoseUpdate, Survey};
use net_world::crashes::{Hit, Pair};
use net_world::fleet::{Crossing, DriverConfig, Fate, LaneChange, NetVehicle, Sample, HISTORY_LEN};
use net_world::groups::GroupMap;
use net_world::intent::{AccelSource, BoxView, Sight, Sleep};
use net_world::lanes::{LaneOption, LaneOptions, LaneScore, LaneView, SlideView, SlotGap};
use net_world::neighbors::Neighbors;
use net_world::network::{
    Conflict, Junction, Lane, LaneId, Link, LinkId, Movement, MovementId, Network, Node, NodeControl, NodeId, Program,
    RoadKind, SignalGroup, SignalState, TurnType,
};
use net_world::occupancy::{ShardMaps, Tail};
use net_world::resolution::{Entrants, TurnView};
use net_world::shards::Sharding;
use net_world::spawning::EntryView;
use net_world::step::Site;
use net_world::stride::StepView;
use net_world::tick::{CrashView, TickView};
use net_world::world::{CrashKind, CrashRecord, NetWorld, SimConfig, MAX_CRASH_SITES};
use net_world::yielding::{Arrival, PointPressure, Rival};
use net_world::Quantity;

fn q(x: f64) -> Quantity {
    let b = x.to_bits() as i64;
    Quantity::at(if b < 0 { b ^ i64::MAX } else { b })
}

/// A link: where from and to, its lanes, its kind, its speed and its length.
struct Road(u32, u32, u32, RoadKind, f64, f64);

/// A movement from a lane of one link to a lane of another.
struct Join {
    from: (u32, u32),
    to: (u32, u32),
    turn: TurnType,
    interchange: bool,
    group: Option<u32>,
    straight: f64,
}

fn join(from: (u32, u32), to: (u32, u32), turn: TurnType) -> Join {
    Join { from, to, turn, interchange: false, group: None, straight: 1.0 }
}

/// A network with the given links and movements. `meets` names pairs of
/// movements (by their place in `joins`) whose paths cross, with the arcs.
fn network(nodes: u32, roads: &[Road], joins: &[Join], meets: &[(usize, usize, f64, f64)]) -> Network {
    let mut net = Network {
        nodes: (0..nodes)
            .map(|i| Node {
                control: NodeControl::Uncontrolled,
                rail_crossing: false,
                junction: None,
                intersection: i,
                all_way_stop: false,
                conflicts: vec![],
            })
            .collect(),
        links: vec![],
        lanes: vec![],
        movements: vec![],
        conflicts: vec![],
        junctions: vec![],
        groups: vec![],
        programs: vec![],
        bus_stops: vec![],
        am_offsets: vec![],
        pm_offsets: vec![],
    };
    for r in roads {
        let rank = match r.3 {
            RoadKind::Freeway => 9,
            RoadKind::Ramp => 1,
            RoadKind::Surface(c) => c as u64,
        };
        net.links.push(Link {
            from: NodeId(r.0),
            to: NodeId(r.1),
            lane_start: LaneId(net.lanes.len() as u32),
            lane_count: r.2,
            kind: r.3,
            rank,
            speed_milli: (r.4 * 1000.0) as u64,
            travel_time_ms: (r.5 / r.4 * 1000.0) as u64,
            stop_line: false,
        });
        for k in 0..r.2 {
            net.lanes.push(Lane {
                link: LinkId(net.links.len() as u32 - 1),
                index_in_link: k,
                movement_start: MovementId(0),
                movement_count: 0,
                length: q(r.5),
                speed_limit: q(r.4),
                hov: false,
            });
        }
    }
    let lane_of = |net: &Network, (link, k): (u32, u32)| LaneId(net.links[link as usize].lane_start.0 + k);
    let mut place = vec![0usize; joins.len()];
    for l in 0..net.lanes.len() {
        net.lanes[l].movement_start = MovementId(net.movements.len() as u32);
        for (i, j) in joins.iter().enumerate() {
            if lane_of(&net, j.from).0 as usize != l {
                continue;
            }
            place[i] = net.movements.len();
            net.movements.push(Movement {
                from_lane: LaneId(l as u32),
                to_lane: lane_of(&net, j.to),
                node: net.links[j.from.0 as usize].to,
                turn: j.turn,
                interchange: j.interchange,
                continuation: j.interchange,
                straightness: q(j.straight),
                signal_group: j.group,
                points: vec![],
            });
            net.lanes[l].movement_count += 1;
        }
    }
    for &(a, b, sa, sb) in meets {
        let c = net.conflicts.len() as u32;
        let (a, b) = (place[a], place[b]);
        net.conflicts.push(Conflict { a: MovementId(a as u32), b: MovementId(b as u32), sa: q(sa), sb: q(sb) });
        net.movements[a].points.push(c);
        net.movements[b].points.push(c);
        let node = net.movements[a].node.0 as usize;
        net.nodes[node].conflicts.push(c);
    }
    net
}

/// The movement between two lanes, given as link and place.
fn mv(net: &Network, from: (u32, u32), to: (u32, u32)) -> MovementId {
    let lane = |(link, k): (u32, u32)| LaneId(net.links[link as usize].lane_start.0 + k);
    let i = net.movements.iter().position(|m| m.from_lane == lane(from) && m.to_lane == lane(to)).unwrap();
    MovementId(i as u32)
}

/// Every pair of nodes in one cluster shares a junction and an intersection.
fn cluster(net: &mut Network, nodes: &[u32]) {
    let j = net.junctions.len() as u32;
    for &n in nodes {
        net.nodes[n as usize].junction = Some(j);
        net.nodes[n as usize].intersection = nodes[0];
    }
    net.junctions.push(Junction { nodes: nodes.iter().map(|&n| NodeId(n)).collect() });
}

fn config() -> SimConfig {
    SimConfig { dt: q(0.2), seed: 7, sleep_scheduler: false, wreck_clear_secs: q(0.0), red_run_prob: q(0.0) }
}

fn world(net: Network) -> NetWorld {
    assert!(net.check(), "the network's tables fit together");
    let survey = Survey {
        link_straight: vec![true; net.links.len()],
        turn_caps: vec![q(f64::INFINITY); net.movements.len()],
        signals: vec![SignalState::Green; net.groups.len()],
        offsets: vec![q(0.0); net.programs.len()],
    };
    NetWorld::new(net, config(), survey)
}

fn car() -> DriverConfig {
    DriverConfig {
        desired_speed: q(30.0),
        accel_exponent: q(4.0),
        min_gap: q(2.0),
        time_headway: q(1.5),
        max_accel: q(1.4),
        comfort_decel: q(2.0),
        vehicle_length: q(4.5),
        reaction_time: q(0.6),
        accel_noise: q(0.0),
        politeness: q(0.3),
        critical_gap: q(4.0),
    }
}

fn put(w: &mut NetWorld, id: u32, lane: u32, position: f64, speed: f64) {
    w.spawn(id, LaneId(lane), q(position), q(speed), car(), [q(0.0); 3]);
}

/// The last vehicle enters the node at the end of its lane.
fn enter(w: &mut NetWorld, m: MovementId, arc: f64) {
    let v = w.fleet.rows.last_mut().unwrap();
    v.crossing = Some(Crossing { movement: m, lat_shift: q(0.0) });
    let len = w.network.lanes[v.lane.0 as usize].length;
    v.position = q(num(len) + arc);
}

fn num(x: Quantity) -> f64 {
    let b = if x.key < 0 { x.key ^ i64::MAX } else { x.key };
    f64::from_bits(b as u64)
}

/// Positions as the corridors' own when no two lanes share one.
fn see(w: &NetWorld) -> Neighbors {
    let cpos = w.vehicles().iter().map(|v| v.position).collect();
    w.neighbors(&cpos)
}

const SURFACE: RoadKind = RoadKind::Surface(3);

/// A street of two links over node 1, and one that crosses it there.
fn street() -> Network {
    let roads = [
        Road(0, 1, 1, SURFACE, 15.0, 100.0),
        Road(1, 2, 1, SURFACE, 15.0, 100.0),
        Road(3, 1, 1, SURFACE, 15.0, 100.0),
        Road(1, 4, 1, SURFACE, 15.0, 100.0),
    ];
    let joins = [join((0, 0), (1, 0), TurnType::Through), join((2, 0), (3, 0), TurnType::Through)];
    network(5, &roads, &joins, &[(0, 1, 5.0, 5.0)])
}

fn along(w: &NetWorld) -> MovementId {
    mv(&w.network, (0, 0), (1, 0))
}

fn across(w: &NetWorld) -> MovementId {
    mv(&w.network, (2, 0), (3, 0))
}

fn wide() -> ReceivingView {
    ReceivingView {
        path_room: q(99.0),
        margin: q(4.0),
        net_room: q(99.0),
        commit_room: q(13.0),
        spare: q(100.0),
        unit: q(6.5),
    }
}

/// Inside the node, `arc` metres in, on a path of ten.
fn landing(arc: f64) -> LandingView {
    LandingView {
        arc: q(arc),
        path_len: q(10.0),
        land_pos: q(arc - 10.0),
        behind_tail: q(99.0),
        edge_pos: q(110.0),
        held_speed: q(3.2),
        safe_speed: q(4.0),
        rear: q(arc - 14.5),
        promised_after: q(0.0),
        blend_from: None,
        blend: q(1.0),
    }
}

fn boundary(speed: f64, arc: f64) -> BoundaryView {
    BoundaryView {
        speed_sq: q(speed * speed),
        misses_red: false,
        receiving: wide(),
        slots: 1,
        lat_shift: q(0.0),
        promised_with: q(6.5),
        held_speed: q((speed - 1.8).max(0.0)),
        landing: landing(arc),
    }
}

fn rears(w: &NetWorld) -> Vec<Quantity> {
    w.vehicles().iter().map(|v| q(num(v.position) - num(v.driver.vehicle_length))).collect()
}

#[test]
fn occupancy_is_read_off_the_rows() {
    let mut w = world(street());
    put(&mut w, 1, 1, 30.0, 7.0);
    put(&mut w, 2, 1, 12.0, 3.0);
    put(&mut w, 3, 0, 100.0, 5.0);
    let m = along(&w);
    enter(&mut w, m, 2.0);
    let mut occ = w.seed_occupancy(&rears(&w));
    assert_eq!(occ.tail_of(LaneId(1)), Some(Tail { rear: q(7.5), speed: q(3.0) }), "the rearmost");
    assert_eq!(occ.tail_of(LaneId(0)), Some(Tail { rear: q(97.5), speed: q(5.0) }), "its rear still hangs over");
    assert_eq!(occ.tail_of(LaneId(2)), None);
    assert_eq!(occ.reserved_on(LaneId(1)), q(0.0));
    assert!(w.promise(&w.vehicles()[2], q(6.5), &mut occ));
    assert!(!w.promise(&w.vehicles()[0], q(6.5), &mut occ));
    assert_eq!(occ.reserved_on(LaneId(1)), q(6.5));
    assert_eq!(occ.slots_taken(LaneId(1)), 0, "not inside a junction");
    occ.clear();
    assert_eq!((occ.tail_of(LaneId(1)), occ.reserved_on(LaneId(1))), (None, q(0.0)));
}

#[test]
fn a_clear_node_is_entered() {
    let mut w = world(street());
    put(&mut w, 1, 0, 101.0, 10.0);
    let m = along(&w);
    let mut occ = w.seed_occupancy(&rears(&w));
    let mut entered = GroupMap::new();
    let mut v = w.vehicles()[0].clone();
    let fate = w.resolve_boundary(&mut v, false, Some(m), &mut occ, &mut entered, &boundary(10.0, 1.0));
    assert_eq!(fate, Fate::Alive);
    assert_eq!(v.crossing, Some(Crossing { movement: m, lat_shift: q(0.0) }));
    assert_eq!(v.position, q(101.0), "it counts on");
    assert_eq!(occ.reserved_on(LaneId(1)), q(6.5), "its landing is promised");
    assert_eq!(entered.get(&1), Some(&vec![m]), "its path is registered");
    assert!(w.entered_conflicting(across(&w), &entered) && !w.entered_conflicting(m, &entered));
}

#[test]
fn a_shut_box_holds_at_the_line() {
    let mut w = world(street());
    put(&mut w, 1, 0, 101.0, 5.0);
    let m = along(&w);
    let mut occ = w.seed_occupancy(&rears(&w));
    let mut entered = GroupMap::new();
    let mut v = w.vehicles()[0].clone();
    let fate = w.resolve_boundary(&mut v, true, Some(m), &mut occ, &mut entered, &boundary(5.0, 1.0));
    assert_eq!((fate, v.position, v.speed, v.crossing), (Fate::Alive, q(100.0), q(3.2), None));
    // the same for one whose path an earlier vehicle of this tick has taken
    entered.push(1, across(&w));
    let mut v = w.vehicles()[0].clone();
    w.resolve_boundary(&mut v, false, Some(m), &mut occ, &mut entered, &boundary(5.0, 1.0));
    assert_eq!(v.crossing, None);
    // one that is too fast to stop goes in
    let mut v = w.vehicles()[0].clone();
    w.resolve_boundary(&mut v, true, Some(m), &mut occ, &mut entered, &boundary(6.1, 1.0));
    assert!(v.is_crossing());
    let mut v = w.vehicles()[0].clone();
    w.resolve_boundary(&mut v, true, Some(m), &mut occ, &mut entered, &boundary(6.0, 1.0));
    assert!(!v.is_crossing(), "just slow enough");
}

#[test]
fn nobody_enters_without_room_beyond() {
    let mut w = world(street());
    put(&mut w, 1, 0, 101.0, 12.0);
    let m = along(&w);
    put(&mut w, 2, 1, 10.0, 0.0);
    let occ0 = w.seed_occupancy(&rears(&w));
    assert!(!w.receiving_room(m, &occ0, &ReceivingView { net_room: q(5.5), ..wide() }));
    assert!(w.receiving_room(m, &occ0, &ReceivingView { net_room: q(13.0), ..wide() }));
    assert!(w.receiving_lane_clear(m, &occ0, q(5.5)) && !w.receiving_lane_clear(m, &occ0, q(5.6)));
    for speed in [5.0, 12.0] {
        let mut occ = w.seed_occupancy(&rears(&w));
        let mut g = boundary(speed, 1.0);
        g.receiving.net_room = q(5.5);
        let mut v = w.vehicles()[0].clone();
        let fate = w.resolve_boundary(&mut v, false, Some(m), &mut occ, &mut GroupMap::new(), &g);
        assert_eq!((fate, v.crossing), (Fate::Alive, None), "however fast");
    }
    // an empty lane takes a vehicle unless what is promised fills it
    w.fleet.rows[1].lane = LaneId(3);
    let mut occ = w.seed_occupancy(&rears(&w));
    assert!(w.receiving_room(m, &occ, &ReceivingView { spare: q(1.0), ..wide() }));
    occ.inbound.insert(1, q(99.0));
    assert!(!w.receiving_room(m, &occ, &ReceivingView { spare: q(1.0), ..wide() }));
    assert!(w.receiving_room(m, &occ, &ReceivingView { spare: q(6.5), ..wide() }));
}

#[test]
fn a_red_light_is_passed_for_a_reason_only() {
    let mut net = street();
    net.programs.push(Program { phases: vec![1], coordinated: false });
    net.groups.push(SignalGroup { program: 0, bit: 0 });
    net.nodes[1].control = NodeControl::Signalized(0);
    net.movements[0].signal_group = Some(0);
    let mut w = world(net);
    put(&mut w, 1, 0, 101.0, 5.0);
    let m = along(&w);
    let enters = |w: &NetWorld, g: &BoundaryView| {
        let mut v = w.vehicles()[0].clone();
        w.resolve_boundary(&mut v, false, Some(m), &mut w.seed_occupancy(&rears(w)), &mut GroupMap::new(), g);
        v.is_crossing()
    };
    for (colour, goes) in [(SignalState::Green, true), (SignalState::Yellow, true), (SignalState::Red, false)] {
        w.set_signal_states(vec![colour]);
        assert_eq!(enters(&w, &boundary(5.0, 1.0)), goes, "{colour:?}");
    }
    assert!(enters(&w, &BoundaryView { misses_red: true, ..boundary(5.0, 1.0) }));
    assert!(enters(&w, &boundary(6.1, 1.0)), "too fast to stop");
    // a right turn may go on red, once it has stopped
    w.network.movements[0].turn = TurnType::Right;
    assert!(!enters(&w, &boundary(5.0, 1.0)));
    w.fleet.rows[0].stopped_at = Some(NodeId(1));
    assert!(enters(&w, &boundary(5.0, 1.0)));
    // but nobody goes while a train passes
    w.network.nodes[1].rail_crossing = true;
    w.rail_since = q(10.0);
    assert!(!enters(&w, &boundary(5.0, 1.0)));
    assert!(enters(&w, &boundary(6.1, 1.0)));
}

#[test]
fn a_vehicle_lands_beyond_the_node() {
    let mut w = world(street());
    w.spawn_routed_in_lane(1, vec![LinkId(0), LinkId(1)], LaneId(0), q(100.0), q(10.0), car(), [q(0.0); 3]);
    let m = along(&w);
    enter(&mut w, m, 9.0);
    w.fleet.rows[0].stopped_at = Some(NodeId(1));
    let mut occ = w.seed_occupancy(&rears(&w));
    occ.inbound.insert(1, q(6.5));
    let mut v = w.vehicles()[0].clone();
    assert_eq!(w.advance_crossing(&mut v, q(9.0), q(109.9), &mut occ, &landing(9.9)), Fate::Alive);
    assert_eq!((v.position, v.speed, v.is_crossing()), (q(109.9), q(9.0), true), "still inside");
    assert_eq!(w.advance_crossing(&mut v, q(9.0), q(112.0), &mut occ, &landing(12.0)), Fate::Entered(LinkId(1)));
    assert_eq!((v.lane, v.position, v.speed), (LaneId(1), q(2.0), q(9.0)));
    assert_eq!((v.crossing, v.stopped_at, v.route_idx), (None, None, 1));
    assert_eq!(occ.tail_of(LaneId(1)), Some(Tail { rear: q(-2.5), speed: q(9.0) }));
    assert_eq!(occ.reserved_on(LaneId(1)), q(0.0), "its promise is redeemed");
}

#[test]
fn an_occupied_entrance_holds_at_the_far_edge() {
    let mut w = world(street());
    put(&mut w, 1, 0, 100.0, 10.0);
    let m = along(&w);
    enter(&mut w, m, 9.0);
    put(&mut w, 2, 1, 6.0, 0.5);
    let mut occ = w.seed_occupancy(&rears(&w));
    let mut v = w.vehicles()[0].clone();
    assert_eq!(w.land_or_hold(&mut v, &mut occ, &landing(12.0)), Fate::Alive);
    assert_eq!((v.position, v.speed, v.is_crossing()), (q(110.0), q(3.2), true));
    // further down the lane it lands, no faster than it can follow
    w.fleet.rows[1].position = q(20.0);
    let mut occ = w.seed_occupancy(&rears(&w));
    let mut v = w.vehicles()[0].clone();
    assert_eq!(w.land_or_hold(&mut v, &mut occ, &landing(12.0)), Fate::Entered(LinkId(1)));
    assert_eq!(v.speed, q(4.0));
    // but not inside the tail
    let mut occ = w.seed_occupancy(&rears(&w));
    let mut v = w.vehicles()[0].clone();
    let g = LandingView { behind_tail: q(1.9), ..landing(12.0) };
    assert_eq!(w.land_or_hold(&mut v, &mut occ, &g), Fate::Alive);
}

#[test]
fn a_landing_off_its_line_blends_over() {
    let roads = [Road(0, 1, 2, RoadKind::Freeway, 30.0, 500.0), Road(1, 2, 3, RoadKind::Freeway, 30.0, 500.0)];
    let mut joins = vec![join((0, 0), (1, 0), TurnType::Through), join((0, 1), (1, 2), TurnType::Through)];
    for j in joins.iter_mut() {
        j.interchange = true;
    }
    let mut w = world(network(3, &roads, &joins, &[]));
    let m = mv(&w.network, (0, 1), (1, 2));
    assert_eq!(w.seam_landing_neighbour(m, &vec![q(49.0), q(4.0), q(0.0)]), Some(LaneId(3)));
    assert_eq!(w.seam_landing_neighbour(m, &vec![q(4.0), q(4.0), q(0.0)]), Some(LaneId(2)), "the first of equals");
    put(&mut w, 1, 1, 500.0, 25.0);
    enter(&mut w, m, 12.0);
    let g = LandingView { blend_from: Some(LaneId(3)), blend: q(0.4), ..landing(12.0) };
    let mut v = w.vehicles()[0].clone();
    w.land_or_hold(&mut v, &mut ShardMaps::new(), &g);
    assert_eq!(v.lane_change, Some(LaneChange { from: LaneId(3), progress: q(0.4) }));
    let mut v = w.vehicles()[0].clone();
    w.land_or_hold(&mut v, &mut ShardMaps::new(), &LandingView { blend: q(0.97), ..g });
    assert_eq!(v.lane_change, None, "close enough");
}

#[test]
fn a_freeway_seam_is_crossed_whatever_lies_beyond() {
    let roads = [Road(0, 1, 1, RoadKind::Freeway, 30.0, 500.0), Road(1, 2, 1, RoadKind::Freeway, 30.0, 500.0)];
    let mut joins = vec![join((0, 0), (1, 0), TurnType::Through)];
    joins[0].interchange = true;
    let mut w = world(network(3, &roads, &joins, &[]));
    put(&mut w, 1, 0, 501.0, 5.0);
    put(&mut w, 2, 1, 6.0, 5.0);
    let m = mv(&w.network, (0, 0), (1, 0));
    let mut occ = w.seed_occupancy(&rears(&w));
    let mut g = boundary(5.0, 1.0);
    g.receiving.net_room = q(0.0);
    let mut v = w.vehicles()[0].clone();
    w.resolve_boundary(&mut v, false, Some(m), &mut occ, &mut GroupMap::new(), &g);
    assert!(v.is_crossing());
    assert_eq!(occ.reserved_on(LaneId(1)), q(0.0), "corridor following spaces it");
}

#[test]
fn inner_lanes_take_as_many_as_they_hold() {
    let roads = [
        Road(2, 0, 1, SURFACE, 15.0, 100.0),
        Road(0, 1, 1, SURFACE, 15.0, 8.0),
        Road(1, 3, 1, SURFACE, 15.0, 100.0),
    ];
    let joins = [join((0, 0), (1, 0), TurnType::Through), join((1, 0), (2, 0), TurnType::Through)];
    let mut net = network(4, &roads, &joins, &[]);
    cluster(&mut net, &[0, 1]);
    let mut w = world(net);
    put(&mut w, 1, 0, 101.0, 5.0);
    let (a, b) = (mv(&w.network, (0, 0), (1, 0)), mv(&w.network, (1, 0), (2, 0)));
    let mut occ = w.seed_occupancy(&rears(&w));
    assert!(w.interior_has_room(a, &occ, 1) && w.interior_has_room(b, &occ, 0), "the last lane is outside");
    let mut v = w.vehicles()[0].clone();
    w.resolve_boundary(&mut v, false, Some(a), &mut occ, &mut GroupMap::new(), &boundary(5.0, 1.0));
    assert!(v.is_crossing());
    assert_eq!(occ.slots_taken(LaneId(1)), 1, "in flight to it");
    assert!(!w.interior_has_room(a, &occ, 1));
    let mut second = w.vehicles()[0].clone();
    w.resolve_boundary(&mut second, false, Some(a), &mut occ, &mut GroupMap::new(), &boundary(5.0, 1.0));
    assert!(!second.is_crossing(), "no slot left");
    // leaving the inner lane frees its slot
    let mut inside = w.vehicles()[0].clone();
    inside.lane = LaneId(1);
    inside.position = q(8.5);
    w.resolve_boundary(&mut inside, false, Some(b), &mut occ, &mut GroupMap::new(), &boundary(5.0, 0.5));
    assert!(inside.is_crossing());
    assert_eq!(occ.slots_taken(LaneId(1)), 0);
}

#[test]
fn a_vehicle_without_a_way_on_leaves() {
    let mut w = world(street());
    put(&mut w, 1, 1, 100.5, 10.0);
    let mut v = w.vehicles()[0].clone();
    let g = boundary(10.0, 0.5);
    let leave = |w: &NetWorld, v: &mut NetVehicle| {
        w.resolve_boundary(v, false, None, &mut ShardMaps::new(), &mut GroupMap::new(), &g)
    };
    assert_eq!(leave(&w, &mut v), Fate::Exited, "a dead end");
    v.route = vec![LinkId(1)];
    assert_eq!(leave(&w, &mut v), Fate::Exited, "its route is done");
    // with somewhere to go and a link that goes there it would have leaked
    w.network.links[2].from = NodeId(2);
    v.route = vec![LinkId(1), LinkId(2)];
    assert_eq!(leave(&w, &mut v), Fate::Leaked);
}

#[test]
fn a_vehicle_with_a_way_on_never_leaks() {
    // two lanes, of which only one leads on; the other borrows its movement
    let roads = [Road(0, 1, 2, SURFACE, 15.0, 100.0), Road(1, 2, 1, SURFACE, 15.0, 100.0)];
    let mut w = world(network(3, &roads, &[join((0, 1), (1, 0), TurnType::Through)], &[]));
    w.install_router(&vec![LinkId(1)], &vec![1, 1]);
    for lane in 0..3 {
        w.spawn_to_in_lane(lane, LaneId(lane), q(100.5), LinkId(1), q(5.0), car(), [q(0.0); 3]);
        w.spawn_routed_in_lane(10 + lane, vec![LinkId(0), LinkId(1)], LaneId(lane), q(100.5), q(5.0), car(), [q(0.0); 3]);
    }
    let fates: Vec<(u32, Fate)> = w
        .vehicles()
        .iter()
        .map(|v| {
            let mut v = v.clone();
            let g = boundary(5.0, 0.5);
            let fate = w.resolve_boundary(&mut v, true, None, &mut ShardMaps::new(), &mut GroupMap::new(), &g);
            (v.id, fate)
        })
        .collect();
    assert_eq!(fates, vec![(0, Fate::Alive), (10, Fate::Alive), (1, Fate::Alive), (11, Fate::Alive), (2, Fate::Exited)]);
}

#[test]
fn a_vehicle_moves_within_its_lane() {
    let mut net = street();
    net.nodes[1].control = NodeControl::Stop;
    net.links[0].stop_line = true;
    let mut w = world(net);
    put(&mut w, 1, 0, 90.0, 1.0);
    w.fleet.rows[0].lane_change = Some(LaneChange { from: LaneId(0), progress: q(0.5) });
    let g = MotionView { position: q(95.5), speed: q(0.2), progress: q(0.9), to_line: q(4.5), roll_speed: q(0.3) };
    let mut v = w.vehicles()[0].clone();
    assert!(!w.integrate_in_lane(&mut v, None, &g), "the line is ahead");
    assert_eq!((v.position, v.speed), (q(95.5), q(0.2)));
    assert_eq!(v.lane_change, Some(LaneChange { from: LaneId(0), progress: q(0.9) }));
    assert_eq!(v.stopped_at, Some(NodeId(1)), "the stop is served");
    let mut v = w.vehicles()[0].clone();
    assert!(w.advance_row(&mut v, None, &MotionView { position: q(100.0), progress: q(1.0), speed: q(0.3), ..g }));
    assert_eq!((v.lane_change, v.stopped_at), (None, None), "rolled too fast");
    // a wreck stays put, and a crosser waits for its turn
    let mut v = w.vehicles()[0].clone();
    v.wreck = Some(9);
    assert!(!w.advance_row(&mut v, None, &g));
    assert_eq!((v.position, v.speed), (q(90.0), q(0.0)));
    let mut v = w.vehicles()[0].clone();
    v.crossing = Some(Crossing { movement: along(&w), lat_shift: q(0.0) });
    assert!(w.advance_row(&mut v, None, &g));
    assert_eq!(v.position, q(90.0));
}

#[test]
fn only_deferred_vehicles_are_resolved() {
    let mut w = world(street());
    put(&mut w, 1, 0, 101.0, 5.0);
    let m = along(&w);
    let turn = TurnView { speed: q(5.0), position: q(112.0), boundary: boundary(5.0, 12.0) };
    let run = |w: &NetWorld, v: &mut NetVehicle, deferred: bool| {
        let mut occ = w.seed_occupancy(&rears(w));
        w.resolve_row(v, deferred, false, Some(m), &mut occ, &mut GroupMap::new(), &turn)
    };
    let mut v = w.vehicles()[0].clone();
    assert_eq!(run(&w, &mut v, false), Fate::Alive);
    assert_eq!(v, w.vehicles()[0]);
    assert_eq!(run(&w, &mut v, true), Fate::Entered(LinkId(1)), "over a short node in one tick");
    enter(&mut w, m, 9.0);
    let mut v = w.vehicles()[0].clone();
    assert_eq!(run(&w, &mut v, true), Fate::Entered(LinkId(1)));
    assert_eq!(v.position, q(2.0));
}

#[test]
fn two_vehicles_do_not_enter_crossing_paths_in_one_tick() {
    let mut w = world(street());
    put(&mut w, 1, 0, 101.0, 5.0);
    put(&mut w, 2, 2, 101.0, 5.0);
    put(&mut w, 3, 1, 50.0, 5.0);
    let rows: Vec<NetVehicle> = w.vehicles().to_vec();
    let who = || Entrants {
        deferred: vec![true, true, false],
        blocked: vec![false; 3],
        carried: vec![Some(along(&w)), Some(across(&w)), None],
    };
    let pass = |speed: f64| {
        let mut occ = w.seed_occupancy(&rears(&w));
        let mut entered = GroupMap::new();
        let seen = std::cell::RefCell::new(Vec::new());
        let (rows, fates) = w.resolve_all(rows.clone(), &who(), &mut occ, &mut entered, |_w: &NetWorld, i: usize, v: &NetVehicle, o: &ShardMaps| {
            seen.borrow_mut().push((i, v.id, o.reserved_on(LaneId(1))));
            TurnView { speed: q(speed), position: q(102.0), boundary: boundary(speed, 1.0) }
        });
        assert_eq!(fates, vec![Fate::Alive; 3]);
        // each turn sees what the ones before it have left
        assert_eq!(seen.into_inner(), vec![(0, 1, q(0.0)), (1, 2, q(6.5)), (2, 3, q(6.5))]);
        rows.iter().map(|v| v.is_crossing()).collect::<Vec<bool>>()
    };
    assert_eq!(pass(5.0), vec![true, false, false]);
    assert_eq!(pass(6.1), vec![true, true, false], "the second is too fast to stop");
}

#[test]
fn lane_changes_see_those_before_them() {
    let mut w = world(network(2, &[Road(0, 1, 3, SURFACE, 15.0, 300.0)], &[], &[]));
    put(&mut w, 1, 0, 100.0, 10.0);
    put(&mut w, 2, 2, 100.0, 10.0);
    let moves = vec![(0usize, LaneId(1)), (1usize, LaneId(1))];
    w.apply_lane_changes(&moves, |w: &NetWorld, i: usize, target: LaneId| {
        let mine = num(w.vehicles()[i].position);
        let gaps = w
            .vehicles()
            .iter()
            .map(|o| SlotGap { room: q((num(o.position) - mine).abs()), needed: q(5.5) })
            .collect();
        assert_eq!(target, LaneId(1));
        SlideView { new_pos: q(mine), gaps }
    });
    assert_eq!(w.vehicles()[0].lane, LaneId(1));
    assert_eq!(w.vehicles()[1].lane, LaneId(2), "the gap is taken");
}

#[test]
fn everyone_moves_within_their_lane() {
    let mut w = world(street());
    put(&mut w, 1, 0, 10.0, 5.0);
    put(&mut w, 2, 0, 99.0, 5.0);
    put(&mut w, 3, 0, 50.0, 5.0);
    w.fleet.rows[2].wreck = Some(4);
    let view = |x: f64| MotionView { position: q(x), speed: q(5.0), progress: q(0.0), to_line: q(100.0 - x), roll_speed: q(0.3) };
    let (rows, deferred) =
        w.advance_all(w.vehicles().to_vec(), &vec![None; 3], &vec![view(11.0), view(100.0), view(51.0)]);
    assert_eq!(deferred, vec![false, true, false]);
    assert_eq!(rows.iter().map(|v| v.position).collect::<Vec<Quantity>>(), vec![q(11.0), q(100.0), q(50.0)]);
    assert_eq!(rows[2].speed, q(0.0));
}

#[test]
fn a_tick_moves_everyone_on() {
    let mut w = world(street());
    put(&mut w, 1, 0, 99.0, 10.0); // will enter the node
    put(&mut w, 2, 1, 98.0, 10.0); // will leave the network
    put(&mut w, 3, 1, 30.0, 10.0);
    put(&mut w, 4, 2, 40.0, 8.0);
    put(&mut w, 5, 2, 41.0, 8.0); // on top of the one before
    let nb = see(&w);
    let before = w.vehicles().len() as u32;
    let motion = |v: &NetVehicle| {
        let position = num(v.position) + 0.2 * num(v.speed);
        MotionView { position: q(position), speed: v.speed, progress: q(0.0), to_line: q(100.0 - position), roll_speed: q(0.3) }
    };
    let view = TickView {
        rears: rears(&w),
        promises: vec![q(0.0); 5],
        motion: w.vehicles().iter().map(motion).collect(),
        wreck_ticks: 0,
        time: q(0.2),
    };
    let m = along(&w);
    let carried = vec![Some(m), None, None, None, None];
    w.move_all(
        &nb,
        carried,
        vec![false; 5],
        &view,
        |_w: &NetWorld, _i: usize, v: &NetVehicle, _o: &ShardMaps| TurnView {
            speed: v.speed,
            position: v.position,
            boundary: boundary(num(v.speed), num(v.position) - 100.0),
        },
        |_w: &NetWorld, rows: &Vec<NetVehicle>, _f: &Vec<Fate>, pairs: &Vec<Pair>| CrashView {
            gaps: (0..rows.len())
                .map(|i| nb.leader_of[i].map_or(q(99.0), |l| q(num(rows[l].position) - num(rows[i].position) - 4.5)))
                .collect(),
            closings: vec![0; rows.len()],
            impacts: vec![None; pairs.len()],
            sites: vec![Site { x: 0, y: 0 }; rows.len()],
        },
    );
    assert_eq!(w.vehicles().iter().map(|v| v.id).collect::<Vec<u32>>(), vec![1, 3]);
    assert!(w.vehicles()[0].is_crossing());
    assert_eq!(w.vehicles()[1].position, q(32.0));
    assert_eq!((w.exited(), w.leaked(), w.crashed()), (1, 0, 2));
    assert_eq!(w.vehicles().len() as u32 + w.exited() + w.leaked() + w.crashed(), before, "nobody is lost");
    assert_eq!((w.tick, w.time()), (1, q(0.2)));
}

/// Everyone stays, nobody is hit.
fn calm(n: usize) -> (Vec<Fate>, Vec<Option<Hit>>, Vec<Site>) {
    (vec![Fate::Alive; n], vec![None; n], vec![Site { x: 1.5f32.to_bits(), y: 2.5f32.to_bits() }; n])
}

/// The rear-end collisions of a street in which nobody is inside a node.
fn collisions(w: &NetWorld) -> Vec<Option<Hit>> {
    let nb = see(w);
    let rows: Vec<NetVehicle> = w.vehicles().to_vec();
    let (fates, _, _) = calm(rows.len());
    let pair = |i: usize| nb.leader_of[i].map(|l| (&rows[i], &rows[l]));
    let gaps = (0..rows.len())
        .map(|i| pair(i).map_or(q(0.0), |(f, l)| q(num(l.position) - num(f.position) - num(l.driver.vehicle_length))))
        .collect();
    let closings = (0..rows.len())
        .map(|i| pair(i).map_or(0, |(f, l)| ((num(f.speed) - num(l.speed)).abs() as f32).to_bits()))
        .collect();
    let pairs = w.junction_pairs(&rows, &fates);
    w.detect_crashes(&rows, &fates, &nb, &gaps, &closings, &pairs, &vec![None; pairs.len()])
}

/// A step of steady driving, each vehicle with its movement as decided.
fn drive(w: &mut NetWorld, wreck_ticks: u16) {
    drive_on(w, wreck_ticks, false);
}

/// The same, where those who are eager move to the right.
fn drive_on(w: &mut NetWorld, wreck_ticks: u16, eager: bool) {
    let (n, links) = (w.vehicles().len(), w.network.links.len());
    let length = |w: &NetWorld, v: &NetVehicle| num(w.network.lanes[v.lane.0 as usize].length);
    let view = StepView {
        bands: vec![0; links],
        costs: vec![1; links],
        interval: 10,
        signals: vec![SignalState::Green; w.network.groups.len()],
        meters: vec![],
        served: vec![q(0.0); n],
        stop_dists: vec![vec![]; n],
        dwell_ticks: 125,
        queue_links: vec![false; links],
        lanes: (0..n).map(|_| LaneView { to_node: q(9.0), far_window: q(1.0), windows: vec![q(1.0); 4] }).collect(),
        hov_ok: vec![false; n],
    };
    let open = PointTiming { arc: q(0.0), tail_clear: q(1.0), short_by: q(0.0), t_reach: q(9.0), t_free: q(1.0) };
    let late = Arrival { stop_dist: q(0.0), line_dist: q(9.0), arrive: q(99.0), launch: q(99.0) };
    let far = Rival { arrival: q(99.0), critical: q(4.0), angle: q(1.5) };
    let room = Room { clear_after: q(99.0), margin: q(2.0), rear: q(99.0), commit_room: q(6.5) };
    let exit = ExitMeasure { room, slots: 9, onward_rear: q(99.0), unit: q(6.5) };
    w.step(
        view,
        |w: &NetWorld, i: usize, _leader: Option<usize>, _o: &LaneOptions| {
            let score = |take: bool| LaneScore { take, gain: q(1.0) };
            (score(false), score(eager && w.vehicles()[i].id % 2 == 0))
        },
        |w: &NetWorld, i: usize, _target: LaneId| {
            let mine = num(w.vehicles()[i].position);
            let gap = |o: &NetVehicle| SlotGap { room: q((num(o.position) - mine).abs()), needed: q(5.5) };
            SlideView { new_pos: q(mine), gaps: w.vehicles().iter().map(gap).collect() }
        },
        |w: &NetWorld| w.vehicles().iter().map(|v| v.position).collect(),
        |w: &NetWorld, _nb: &Neighbors| {
            vec![Sight { to_end: q(50.0), leader_gap: q(5.5), clear_horizon: q(180.0) }; w.vehicles().len()]
        },
        |w: &NetWorld, nb: &Neighbors, i: usize, m: MovementId| {
            let v = &w.vehicles()[i];
            let node = w.network.links[w.network.lanes[v.lane.0 as usize].link.0 as usize].to;
            let (key, points) = (w.network.nodes[node.0 as usize].intersection, w.network.nodes[node.0 as usize].conflicts.len());
            let count = |g: Option<&Vec<usize>>| g.map_or(0, |l| l.len());
            let (inside, coming) = (count(nb.crossing_at.get(&key)), count(nb.approaching.get(&key)));
            let pressure = || PointPressure { needed: None, inside: vec![open; inside], coming: vec![late; coming] };
            BoxView {
                hold: q(0.0),
                times: vec![vec![open; points]; inside],
                pressure: (0..points).map(|_| pressure()).collect(),
                exit: vec![exit; w.junction_exit_path(v, m, node).len()],
                rivals: vec![far; coming],
            }
        },
        |_w: &NetWorld, _nb: &Neighbors, _on: &GroupMap<usize>, _i: usize, _s: AccelSource, _m: Option<MovementId>| {
            AccelInput::Crossing(q(0.0))
        },
        |_w: &NetWorld, inputs: &Vec<AccelInput>| inputs.iter().map(|_| q(0.0)).collect(),
        |w: &NetWorld, accels: &Vec<Quantity>| TickView {
            rears: rears(w),
            promises: vec![q(6.5); accels.len()],
            motion: w
                .vehicles()
                .iter()
                .zip(accels)
                .map(|(v, &a)| {
                    let position = num(v.position) + 0.2 * (num(v.speed) + num(a));
                    let to_line = q(length(w, v) - position);
                    MotionView { position: q(position), speed: v.speed, progress: q(0.0), to_line, roll_speed: q(0.3) }
                })
                .collect(),
            wreck_ticks,
            time: q(num(w.time()) + 0.2),
        },
        |w: &NetWorld, _i: usize, v: &NetVehicle, _m: Option<MovementId>, _a: Quantity, _o: &ShardMaps| {
            let position = num(v.position) + if v.is_crossing() { 0.2 * num(v.speed) } else { 0.0 };
            TurnView { speed: v.speed, position: q(position), boundary: boundary(num(v.speed), position - length(w, v)) }
        },
        |_w: &NetWorld, nb: &Neighbors, rows: &Vec<NetVehicle>, _f: &Vec<Fate>, pairs: &Vec<Pair>| {
            let led = |i: usize| nb.leader_of[i].map(|l| (&rows[i], &rows[l]));
            let gap = |(f, l): (&NetVehicle, &NetVehicle)| num(l.position) - num(f.position) - num(l.driver.vehicle_length);
            CrashView {
                gaps: (0..rows.len()).map(|i| q(led(i).map_or(0.0, gap))).collect(),
                closings: (0..rows.len())
                    .map(|i| led(i).map_or(0, |(f, l)| ((num(f.speed) - num(l.speed)).abs() as f32).to_bits()))
                    .collect(),
                impacts: vec![None; pairs.len()],
                sites: calm(rows.len()).2,
            }
        },
        |w: &NetWorld| w.vehicles().iter().map(|v| Some(PoseUpdate { kin: v.kin, steer: q(0.5), diverged: v.id == 3 })).collect(),
    );
}

fn straight_link(length: f64) -> Network {
    network(2, &[Road(0, 1, 1, SURFACE, 40.0, length)], &[], &[])
}

#[test]
fn overlapping_vehicles_crash_and_leave_the_road_by_default() {
    // Wreck persistence is off, so crashed vehicles are removed the tick they
    // collide (but are still tallied and logged).
    let mut w = world(straight_link(1000.0));
    put(&mut w, 1, 0, 100.0, 5.0);
    put(&mut w, 2, 0, 99.0, 5.0); // deep overlap into the leader
    assert_eq!(collisions(&w), vec![Some(Hit { kind: CrashKind::RearEnd, closing: 0 }); 2]);
    drive(&mut w, 0);
    assert_eq!(w.crashed(), 2);
    assert_eq!(w.crash_counts(), [2, 0], "both tallied as rear-end");
    assert_eq!(w.crash_log().len(), 2);
    assert_eq!(w.vehicles().len(), 0);
    assert_eq!(w.crash_log()[0].x, 1.5f32.to_bits());
    w.clear_crash_sites();
    assert_eq!((w.crash_log().len(), w.crashed()), (0, 2), "the tallies stay");
}

#[test]
fn opting_into_wreck_persistence_leaves_the_wreck_until_cleared() {
    let (secs, dt) = (30.0f64, 0.2f64);
    let mut w = world(straight_link(1000.0));
    w.set_wreck_clear_secs(q(secs));
    let wreck_ticks = (num(w.wreck_clear_secs()) / dt).ceil() as u16;
    put(&mut w, 1, 0, 100.0, 5.0);
    put(&mut w, 2, 0, 99.0, 5.0);
    drive(&mut w, wreck_ticks);
    assert_eq!(w.crashed(), 2);
    assert_eq!(w.vehicles().len(), 2, "the wrecks stay on the road awaiting clearance");
    assert!(w.vehicles().iter().all(|v| v.is_wrecked() && v.speed == q(0.0)));
    let clear_ticks = (secs / dt).ceil() as u32;
    for t in 1..clear_ticks + 2 {
        assert!(collisions(&w).iter().all(|h| h.is_none()), "wrecks are not hit again");
        drive(&mut w, wreck_ticks);
        assert_eq!(w.vehicles().is_empty(), t >= clear_ticks, "tick {t}");
    }
    assert_eq!(w.vehicles().len(), 0, "cleared after wreck_clear_secs");
    assert_eq!(w.crashed(), 2, "clearance does not re-count");
}

#[test]
fn a_live_vehicle_that_hits_a_wreck_crashes_alone() {
    let mut w = world(street());
    put(&mut w, 1, 0, 60.0, 0.0);
    w.fleet.rows[0].wreck = Some(50);
    put(&mut w, 2, 0, 59.0, 8.0);
    let hit = Hit { kind: CrashKind::RearEnd, closing: 8.0f32.to_bits() };
    assert_eq!(collisions(&w), vec![None, Some(hit)]);
    w.fleet.rows[1].position = q(56.0);
    assert_eq!(collisions(&w), vec![None, Some(hit)], "half a metre of overlap is a crash too");
    w.fleet.rows[1].position = q(55.5);
    assert_eq!(collisions(&w), vec![None, None], "bumper to bumper is not");
}

#[test]
fn an_overrun_crashes_both_that_meet() {
    let mut w = world(street());
    put(&mut w, 1, 0, 60.0, 3.0);
    put(&mut w, 2, 0, 55.75, 8.0);
    let hit = Hit { kind: CrashKind::RearEnd, closing: 5.0f32.to_bits() };
    assert_eq!(collisions(&w), vec![Some(hit), Some(hit)]);
}

#[test]
fn coming_round_a_ring_is_no_collision() {
    let freeway = |a, b| Road(a, b, 1, RoadKind::Freeway, 30.0, 500.0);
    let mut joins = vec![join((0, 0), (1, 0), TurnType::Through), join((1, 0), (0, 0), TurnType::Through)];
    for j in joins.iter_mut() {
        j.interchange = true;
    }
    let mut w = world(network(2, &[freeway(0, 1), freeway(1, 0)], &joins, &[]));
    put(&mut w, 1, 1, 450.0, 20.0);
    put(&mut w, 2, 1, 499.0, 20.0);
    let nb = see(&w);
    assert_eq!(nb.leader_of, vec![Some(1), None]);
    let mut rows: Vec<NetVehicle> = w.vehicles().to_vec();
    let hits = |rows: &Vec<NetVehicle>, fates: &Vec<Fate>| {
        w.detect_crashes(rows, fates, &nb, &vec![q(-900.0), q(0.0)], &vec![0; 2], &vec![], &vec![])
    };
    let hit = Some(Hit { kind: CrashKind::RearEnd, closing: 0 });
    assert_eq!(hits(&rows, &vec![Fate::Alive; 2]), vec![hit; 2]);
    rows[1].lane = LaneId(0);
    rows[1].position = q(3.0);
    assert_eq!(hits(&rows, &vec![Fate::Alive, Fate::Entered(LinkId(0))]), vec![None; 2], "it is ahead, round the ring");
    rows[0].lane = LaneId(0);
    assert_eq!(hits(&rows, &vec![Fate::Entered(LinkId(0)); 2]), vec![hit; 2], "both came round");
}

/// A street of three lanes over node 1.
fn avenue() -> Network {
    let roads = [Road(0, 1, 3, SURFACE, 15.0, 100.0), Road(1, 2, 3, SURFACE, 15.0, 100.0)];
    let joins: Vec<Join> = (0..3).map(|k| join((0, k), (1, k), TurnType::Through)).collect();
    network(3, &roads, &joins, &[])
}

#[test]
fn a_step_runs_every_phase() {
    let mut w = world(avenue());
    put(&mut w, 2, 0, 20.0, 10.0);
    put(&mut w, 3, 0, 60.0, 10.0);
    put(&mut w, 4, 1, 99.0, 10.0); // moves over, and enters the node
    drive_on(&mut w, 0, true);
    let lanes: Vec<(u32, LaneId)> = w.vehicles().iter().map(|v| (v.id, v.lane)).collect();
    assert_eq!(lanes, vec![(2, LaneId(1)), (3, LaneId(0)), (4, LaneId(2))]);
    assert_eq!(w.vehicles()[0].position, q(22.0));
    assert!(w.vehicles()[2].is_crossing());
    assert!(w.vehicles().iter().all(|v| v.steer == q(0.5)), "the poses follow");
    assert_eq!((w.tick, w.time(), w.kinematic_divergences()), (1, q(0.2), 1));
    for _ in 0..200 {
        drive_on(&mut w, 0, true);
    }
    assert_eq!(w.vehicles().len() as u32 + w.exited() + w.leaked() + w.crashed(), 3, "nobody is lost");
    assert_eq!(w.tick, 201);
}

#[test]
fn lane_changes_go_to_the_lane_beside() {
    let mut w = world(avenue());
    for (id, lane) in [(1, 0), (2, 0), (3, 1), (4, 2), (5, 0)] {
        put(&mut w, id, lane, 15.0 * id as f64, 5.0);
    }
    w.fleet.rows[1].wreck = Some(9); // the second is a wreck
    let m = mv(&w.network, (0, 0), (1, 0));
    enter(&mut w, m, 2.0); // the last is inside the node
    let before: Vec<NetVehicle> = w.vehicles().to_vec();
    let views = (0..5).map(|_| LaneView { to_node: q(9.0), far_window: q(1.0), windows: vec![q(1.0); 3] }).collect();
    w.lane_changes(
        &views,
        &vec![false; 5],
        |_w: &NetWorld, i: usize, leader: Option<usize>, o: &LaneOptions| {
            assert!(i != 1 && i != 4, "neither looks sideways");
            assert_eq!(leader, if i == 0 { Some(1) } else { None });
            let take = |o: Option<LaneOption>| LaneScore { take: o.is_some(), gain: q(1.0) };
            (take(o.left), take(o.right))
        },
        |w: &NetWorld, i: usize, _l: LaneId| SlideView {
            new_pos: w.vehicles()[i].position,
            gaps: vec![SlotGap { room: q(9.0), needed: q(1.0) }; 5],
        },
    );
    let lanes: Vec<u32> = w.vehicles().iter().map(|v| v.lane.0).collect();
    assert_eq!(lanes, vec![1, 0, 0, 1, 0]);
    assert_eq!((&w.vehicles()[1], &w.vehicles()[4]), (&before[1], &before[4]));
    for (a, b) in w.vehicles().iter().zip(&before) {
        assert_eq!((a.id, a.speed, a.dest, &a.route), (b.id, b.speed, b.dest, &b.route));
    }
}

#[test]
fn a_step_is_the_same_however_it_is_run() {
    let begin = || {
        let mut w = world(avenue());
        for (id, lane, position, speed) in
            [(1, 0, 99.0, 10.0), (2, 1, 90.0, 10.0), (3, 1, 30.0, 10.0), (4, 2, 90.0, 8.0), (6, 0, 60.0, 9.0), (8, 0, 40.0, 12.0)]
        {
            put(&mut w, id, lane, position, speed);
        }
        w
    };
    let (mut a, mut b) = (begin(), begin());
    b.set_accel_backend(AccelBackend::Threads);
    b.set_par_threshold(0);
    b.set_cache_sort(false);
    b.sharding = Some(Sharding::build_with(&b.network, 2));
    for _ in 0..60 {
        drive_on(&mut a, 20, true);
        drive_on(&mut b, 20, true);
        assert_eq!(a.vehicles(), b.vehicles());
        assert_eq!((a.exited(), a.leaked(), a.crashed(), a.crash_counts()), (b.exited(), b.leaked(), b.crashed(), b.crash_counts()));
        assert_eq!((a.crash_log(), a.link_entry_counts()), (b.crash_log(), b.link_entry_counts()));
    }
    assert!(a.tick == 60 && a.exited() > 0);
}

#[test]
fn a_tick_is_the_same_however_it_is_run() {
    let begin = || {
        let mut w = world(street());
        for (id, lane, position, speed) in
            [(1, 0, 99.0, 10.0), (2, 1, 98.0, 10.0), (3, 1, 30.0, 10.0), (4, 2, 90.0, 8.0), (5, 0, 60.0, 9.0), (6, 0, 40.0, 12.0)]
        {
            put(&mut w, id, lane, position, speed);
        }
        w
    };
    let (mut a, mut b) = (begin(), begin());
    b.set_accel_backend(AccelBackend::Threads);
    b.set_par_threshold(0);
    b.set_cache_sort(false);
    b.sharding = Some(Sharding::build_with(&b.network, 3));
    for _ in 0..60 {
        let (x, y) = (see(&a), see(&b));
        assert_eq!(x.leader_of, y.leader_of);
        for lane in 0..4 {
            assert_eq!(x.by_lane.get(&lane), y.by_lane.get(&lane));
        }
        drive(&mut a, 20);
        drive(&mut b, 20);
        assert_eq!(a.vehicles(), b.vehicles());
        assert_eq!((a.exited(), a.leaked(), a.crashed(), a.crash_counts()), (b.exited(), b.leaked(), b.crashed(), b.crash_counts()));
        assert_eq!((a.crash_log(), a.link_entry_counts()), (b.crash_log(), b.link_entry_counts()));
        for i in 0..a.vehicles().len() {
            assert_eq!(a.fleet.delayed(i, 3), b.fleet.delayed(i, 3));
        }
    }
    assert!(a.tick == 60 && a.exited() > 0 && a.link_entry_counts()[1] > 0, "there was something to compare");
}

#[test]
fn bodies_meet_only_on_paths_that_cross() {
    let mut w = world(street());
    let (a, b) = (along(&w), across(&w));
    put(&mut w, 1, 0, 100.0, 5.0);
    enter(&mut w, a, 4.0);
    put(&mut w, 2, 2, 100.0, 7.0);
    enter(&mut w, b, 4.0);
    put(&mut w, 3, 0, 100.0, 5.0);
    enter(&mut w, a, 1.0);
    let rows: Vec<NetVehicle> = w.vehicles().to_vec();
    let (fates, _, _) = calm(3);
    let pairs = w.junction_pairs(&rows, &fates);
    assert_eq!(pairs, vec![Pair { a: 0, b: 1 }, Pair { a: 1, b: 2 }]);
    let nb = see(&w);
    let far = vec![q(99.0); 3];
    let closing = 7.0f32.to_bits();
    let hits = w.detect_crashes(&rows, &fates, &nb, &far, &vec![0; 3], &pairs, &vec![Some(closing), None]);
    let hit = Some(Hit { kind: CrashKind::Junction, closing });
    assert_eq!(hits, vec![hit, hit, None]);
    // one that has left the road collides with nobody
    let gone = vec![Fate::Alive, Fate::Exited, Fate::Alive];
    assert_eq!(w.junction_pairs(&rows, &gone), vec![]);
}

#[test]
fn fates_are_counted_and_nobody_is_lost() {
    let mut w = world(street());
    for id in 0..6 {
        put(&mut w, id, 0, 10.0 * id as f64, 5.0);
    }
    w.fleet.rows[2].speed = q(0.4);
    w.fleet.rows[2].wait_ticks = 7;
    let taken = w.take_fleet();
    let fates = vec![Fate::Alive, Fate::Entered(LinkId(1)), Fate::Alive, Fate::Exited, Fate::Leaked, Fate::Alive];
    let hit = Some(Hit { kind: CrashKind::Junction, closing: 0 });
    let hits = vec![None, None, None, None, None, hit];
    let (_, _, sites) = calm(6);
    let entries = w.link_entry_counts()[1];
    w.assemble(taken, &fates, &hits, &sites, 0, q(0.2));
    assert_eq!(w.vehicles().iter().map(|v| v.id).collect::<Vec<u32>>(), vec![0, 1, 2]);
    assert_eq!((w.exited(), w.leaked(), w.crashed()), (1, 1, 1));
    assert_eq!(w.vehicles().len() as u32 + w.exited() + w.leaked() + w.crashed(), 6);
    assert_eq!(w.link_entry_counts()[1], entries + 1);
    assert_eq!(w.vehicles()[2].wait_ticks(), 8, "it stands on");
    assert_eq!(w.vehicles()[0].wait_ticks(), 0);
    assert_eq!((w.tick, w.time()), (1, q(0.2)));
    assert!(w.fleet.settled(0, 1) && !w.fleet.settled(1, 1), "entering a link begins a history anew");
}

#[test]
fn an_entry_counts_though_it_ends_in_a_crash() {
    let mut w = world(street());
    put(&mut w, 1, 1, 2.0, 5.0);
    let entries = w.link_entry_counts()[1];
    let hit = Some(Hit { kind: CrashKind::RearEnd, closing: 0 });
    let taken = w.take_fleet();
    w.assemble(taken, &vec![Fate::Entered(LinkId(1))], &vec![hit], &calm(1).2, 0, q(0.2));
    assert!(w.vehicles().is_empty());
    assert_eq!((w.crashed(), w.link_entry_counts()[1]), (1, entries + 1));
}

#[test]
fn the_log_keeps_the_newest_crashes() {
    let mut w = world(street());
    let record = |n: u32| CrashRecord { x: n, y: 0, kind: CrashKind::Junction, closing_speed: 0 };
    for n in 0..(MAX_CRASH_SITES as u32 + 3) {
        w.record_crash(record(n));
    }
    assert_eq!(w.crash_log().len(), MAX_CRASH_SITES);
    assert_eq!((w.crash_log()[0], w.crash_log()[MAX_CRASH_SITES - 1]), (record(3), record(MAX_CRASH_SITES as u32 + 2)));
    assert_eq!(w.crash_counts(), [0, MAX_CRASH_SITES as u32 + 3]);
}

#[test]
fn sleepers_are_noted() {
    let mut w = world(street());
    for id in 0..3 {
        put(&mut w, id, 0, 10.0 * id as f64, 0.0);
    }
    w.set_sleep_scheduler(true);
    let nb = see(&w);
    let sights = vec![Sight { to_end: q(50.0), leader_gap: q(5.5), clear_horizon: q(180.0) }; 3];
    let decided = w.decide_all(&nb, &sights);
    assert_eq!(decided.iter().map(|d| d.1).collect::<Vec<Sleep>>(), vec![Sleep::Queued(1), Sleep::Queued(2), Sleep::Awake]);
    w.note_sleepers(&decided);
    assert_eq!(w.asleep_count(), 2);
    assert_eq!(w.vehicles().iter().map(|v| v.slept).collect::<Vec<bool>>(), vec![true, true, false]);
    // on every backend alike
    w.set_par_threshold(0);
    w.set_accel_backend(AccelBackend::Threads);
    assert_eq!(w.decide_all(&nb, &sights), decided);
    let views: Vec<LaneView> = (0..3).map(|_| LaneView { to_node: q(9.0), far_window: q(1.0), windows: vec![q(1.0)] }).collect();
    let by_lane = w.lane_groups();
    let options = w.lane_change_candidates(&by_lane, &views, &vec![true; 3]);
    let asleep_until_its_turn = LaneOptions { left: None, right: None };
    assert_eq!(options, vec![Some(asleep_until_its_turn), None, Some(asleep_until_its_turn)]);
}

#[test]
fn histories_keep_the_last_samples() {
    let mut w = world(street());
    put(&mut w, 1, 0, 0.0, 0.0);
    let (fates, hits, sites) = calm(1);
    for n in 1..12 {
        w.fleet.rows[0].position = q(n as f64);
        let taken = w.take_fleet();
        w.assemble(taken, &fates, &hits, &sites, 0, q(0.0));
    }
    assert_eq!(w.fleet.hist_len, vec![HISTORY_LEN as u8]);
    assert_eq!(w.fleet.delayed(0, 0).position, q(11.0));
    assert_eq!(w.fleet.delayed(0, 3).position, q(8.0));
    assert_eq!(w.fleet.delayed(0, 7).position, q(4.0));
    assert_eq!(w.fleet.delayed(0, 99).position, q(4.0), "the oldest that is kept");
    assert!(w.fleet.settled(0, 7) && !w.fleet.settled(0, 8));
    w.fleet.reset_history(0, Sample { position: q(77.0), speed: q(1.0) });
    assert_eq!(w.fleet.delayed(0, 5).position, q(77.0));
}

#[test]
fn inflow_spreads_across_a_multilane_entry() {
    // A 3-lane gateway: three back-to-back spawns land on three distinct lanes,
    // not stacked on the median lane. A fourth (all entrances now occupied) is
    // refused, which is the correct backpressure.
    let mut w = world(network(2, &[Road(0, 1, 3, SURFACE, 29.0, 300.0)], &[], &[]));
    let view = |w: &NetWorld| EntryView {
        rears: rears(w),
        hov_ok: false,
        safe: vec![q(29.0); 3],
        poses: vec![[q(0.0); 3]; 3],
    };
    let admit_gap = q(2.0 + 29.0 * 1.5);
    for id in 0..3 {
        let v = view(&w);
        assert!(w.spawn_to(id, LinkId(0), LinkId(0), q(29.0), car(), admit_gap, &v), "spawn {id} accepted");
    }
    let lanes: std::collections::BTreeSet<u32> = w.vehicles().iter().map(|v| v.lane.0).collect();
    assert_eq!(lanes.len(), 3, "the three entrants occupy three distinct lanes, got {lanes:?}");
    let v = view(&w);
    assert!(!w.spawn_to(3, LinkId(0), LinkId(0), q(29.0), car(), admit_gap, &v), "every lane occupied → spawn refused");
    assert_eq!(w.link_entry_counts(), &[3]);
}

#[test]
fn the_last_numbers_find_a_free_lane_too() {
    let mut w = world(network(2, &[Road(0, 1, 3, SURFACE, 29.0, 300.0)], &[], &[]));
    for free in 0..3 {
        w.clear_vehicles();
        for lane in (0..3).filter(|&l| l != free) {
            put(&mut w, lane, lane, 5.0, 0.0);
        }
        let v = EntryView { rears: rears(&w), hov_ok: false, safe: vec![q(29.0); 3], poses: vec![[q(0.0); 3]; 3] };
        for id in [0, 1, u32::MAX - 2, u32::MAX - 1, u32::MAX] {
            assert_eq!(w.entry_lane_toward(LinkId(0), q(10.0), id, None, &v), Some(free), "{id} onto {free}");
        }
        assert!(w.spawn_to(u32::MAX, LinkId(0), LinkId(0), q(29.0), car(), q(10.0), &v));
        assert_eq!(w.vehicles()[2].lane, LaneId(free));
    }
}

#[test]
fn arrivals_enter_on_a_lane_that_leads_on() {
    let roads = [
        Road(0, 1, 2, SURFACE, 15.0, 200.0),
        Road(1, 2, 1, SURFACE, 15.0, 200.0),
        Road(1, 3, 1, SURFACE, 15.0, 200.0),
    ];
    let joins = [join((0, 0), (1, 0), TurnType::Left), join((0, 1), (2, 0), TurnType::Through)];
    let mut w = world(network(4, &roads, &joins, &[]));
    w.install_router(&vec![LinkId(1), LinkId(2)], &vec![10, 10, 10]);
    let view = |w: &NetWorld| EntryView { rears: rears(w), hov_ok: false, safe: vec![q(9.0); 2], poses: vec![[q(0.0); 3]; 2] };
    for (id, dest, lane) in [(0, 1, 0), (1, 1, 0), (2, 2, 1), (3, 2, 1)] {
        let v = view(&w);
        assert_eq!(w.entry_lane_toward(LinkId(0), q(2.0), id, Some(LinkId(dest)), &v), Some(lane));
        assert!(w.spawn_to(id, LinkId(0), LinkId(dest), q(8.0), car(), q(2.0), &v));
        assert_eq!(w.vehicles()[0].lane, LaneId(lane));
        w.clear_vehicles();
    }
    // a routed one likewise, and behind a tail it enters no faster than it can settle
    put(&mut w, 9, 1, 20.0, 3.0);
    let v = view(&w);
    assert_eq!(w.entry_tail(LaneId(1), &v.rears), Some(0));
    assert!(w.spawn_routed(10, vec![LinkId(0), LinkId(2)], q(12.0), car(), &v));
    let entered = &w.vehicles()[1];
    assert_eq!((entered.lane, entered.speed, entered.position), (LaneId(1), q(9.0), q(0.0)));
    let v = view(&w);
    assert!(!w.spawn_routed(11, vec![], q(12.0), car(), &v), "no route at all");
    assert!(w.entrance_clear(LaneId(0), q(2.0), &v.rears) && !w.entrance_clear(LaneId(1), q(2.0), &v.rears));
    assert!(w.spawn_routed(11, vec![LinkId(0), LinkId(2)], q(12.0), car(), &v), "any lane rather than none");
    assert_eq!(w.vehicles()[2].lane, LaneId(0));
    let v = view(&w);
    assert!(!w.spawn_routed(12, vec![LinkId(0), LinkId(2)], q(12.0), car(), &v));
}

#[test]
fn carpool_lanes_are_entered_by_carpools() {
    let mut net = network(2, &[Road(0, 1, 2, SURFACE, 29.0, 300.0)], &[], &[]);
    net.lanes[0].hov = true;
    let w = world(net);
    let view = |hov_ok: bool| EntryView { rears: vec![], hov_ok, safe: vec![q(9.0); 2], poses: vec![[q(0.0); 3]; 2] };
    assert_eq!(w.entry_lane_toward(LinkId(0), q(2.0), 0, None, &view(false)), Some(1));
    assert_eq!(w.entry_lane_toward(LinkId(0), q(2.0), 0, None, &view(true)), Some(0));
}
