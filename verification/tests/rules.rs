use net_world::boxes::{ExitMeasure, PointTiming, Room};
use net_world::context::{rolling_inputs, scatter_accels, AccelInput, ContextView, Obstacle, SpeedTarget};
use net_world::control::Survey;
use net_world::crossing::CrossView;
use net_world::fleet::{Crossing, DriverConfig, LaneChange};
use net_world::intent::{
    AccelSource, BoxView, CarState, Constraints, GatherView, LeaderSource, Sight, SignalView, Sleep,
};
use net_world::lanes::{LaneOptions, LaneScore, LaneView, SlotGap};
use net_world::leading::{FarLeader, OtherAt, PointAhead};
use net_world::neighbors::Neighbors;
use net_world::network::{
    Conflict, Junction, Lane, LaneId, Link, LinkId, Movement, MovementId, Network, Node, NodeControl, NodeId, Program,
    RoadKind, SignalGroup, SignalState, TurnType,
};
use net_world::world::{CongestionConfig, NetWorld, SimConfig};
use net_world::yielding::{base_critical_gap, should_yield_to, Arrival, PointPressure, Rival};
use net_world::Quantity;

fn q(x: f64) -> Quantity {
    let b = x.to_bits() as i64;
    Quantity::at(if b < 0 { b ^ i64::MAX } else { b })
}

/// A link: where from and to, its lanes, its kind, its speed and its length.
struct Road(u32, u32, u32, RoadKind, f64, f64);

/// A movement from a lane of one link to a lane of another.
struct Join {
    from: (u32, u32),
    to: (u32, u32),
    turn: TurnType,
    interchange: bool,
    group: Option<u32>,
    straight: f64,
}

fn join(from: (u32, u32), to: (u32, u32), turn: TurnType) -> Join {
    Join { from, to, turn, interchange: false, group: None, straight: 1.0 }
}

/// A network with the given links and movements. `meets` names pairs of
/// movements (by their place in `joins`) whose paths cross, with the arcs.
fn network(nodes: u32, roads: &[Road], joins: &[Join], meets: &[(usize, usize, f64, f64)]) -> Network {
    let mut net = Network {
        nodes: (0..nodes)
            .map(|i| Node {
                control: NodeControl::Uncontrolled,
                rail_crossing: false,
                junction: None,
                intersection: i,
                all_way_stop: false,
                conflicts: vec![],
            })
            .collect(),
        links: vec![],
        lanes: vec![],
        movements: vec![],
        conflicts: vec![],
        junctions: vec![],
        groups: vec![],
        programs: vec![],
        bus_stops: vec![],
        am_offsets: vec![],
        pm_offsets: vec![],
    };
    for r in roads {
        let rank = match r.3 {
            RoadKind::Freeway => 9,
            RoadKind::Ramp => 1,
            RoadKind::Surface(c) => c as u64,
        };
        net.links.push(Link {
            from: NodeId(r.0),
            to: NodeId(r.1),
            lane_start: LaneId(net.lanes.len() as u32),
            lane_count: r.2,
            kind: r.3,
            rank,
            speed_milli: (r.4 * 1000.0) as u64,
            travel_time_ms: (r.5 / r.4 * 1000.0) as u64,
            stop_line: false,
        });
        for k in 0..r.2 {
            net.lanes.push(Lane {
                link: LinkId(net.links.len() as u32 - 1),
                index_in_link: k,
                movement_start: MovementId(0),
                movement_count: 0,
                length: q(r.5),
                speed_limit: q(r.4),
                hov: false,
            });
        }
    }
    let lane_of = |net: &Network, (link, k): (u32, u32)| LaneId(net.links[link as usize].lane_start.0 + k);
    let mut place = vec![0usize; joins.len()];
    for l in 0..net.lanes.len() {
        net.lanes[l].movement_start = MovementId(net.movements.len() as u32);
        for (i, j) in joins.iter().enumerate() {
            if lane_of(&net, j.from).0 as usize != l {
                continue;
            }
            place[i] = net.movements.len();
            net.movements.push(Movement {
                from_lane: LaneId(l as u32),
                to_lane: lane_of(&net, j.to),
                node: net.links[j.from.0 as usize].to,
                turn: j.turn,
                interchange: j.interchange,
                continuation: j.interchange,
                straightness: q(j.straight),
                signal_group: j.group,
                points: vec![],
            });
            net.lanes[l].movement_count += 1;
        }
    }
    for &(a, b, sa, sb) in meets {
        let c = net.conflicts.len() as u32;
        let (a, b) = (place[a], place[b]);
        net.conflicts.push(Conflict { a: MovementId(a as u32), b: MovementId(b as u32), sa: q(sa), sb: q(sb) });
        net.movements[a].points.push(c);
        net.movements[b].points.push(c);
        let node = net.movements[a].node.0 as usize;
        net.nodes[node].conflicts.push(c);
    }
    net
}

/// The movement between two lanes, given as link and place.
fn mv(net: &Network, from: (u32, u32), to: (u32, u32)) -> MovementId {
    let lane = |(link, k): (u32, u32)| LaneId(net.links[link as usize].lane_start.0 + k);
    let i = net.movements.iter().position(|m| m.from_lane == lane(from) && m.to_lane == lane(to)).unwrap();
    MovementId(i as u32)
}

/// Every pair of nodes in one cluster shares a junction and an intersection.
fn cluster(net: &mut Network, nodes: &[u32]) {
    let j = net.junctions.len() as u32;
    for &n in nodes {
        net.nodes[n as usize].junction = Some(j);
        net.nodes[n as usize].intersection = nodes[0];
    }
    net.junctions.push(Junction { nodes: nodes.iter().map(|&n| NodeId(n)).collect() });
}

fn config() -> SimConfig {
    SimConfig { dt: q(0.2), seed: 7, sleep_scheduler: false, wreck_clear_secs: q(0.0), red_run_prob: q(0.0) }
}

fn world(net: Network) -> NetWorld {
    assert!(net.check(), "the network's tables fit together");
    let survey = Survey {
        link_straight: vec![true; net.links.len()],
        turn_caps: vec![q(f64::INFINITY); net.movements.len()],
        signals: vec![SignalState::Green; net.groups.len()],
        offsets: vec![q(0.0); net.programs.len()],
    };
    NetWorld::new(net, config(), survey)
}

fn car() -> DriverConfig {
    DriverConfig {
        desired_speed: q(30.0),
        accel_exponent: q(4.0),
        min_gap: q(2.0),
        time_headway: q(1.5),
        max_accel: q(1.4),
        comfort_decel: q(2.0),
        vehicle_length: q(4.5),
        reaction_time: q(0.6),
        accel_noise: q(0.0),
        politeness: q(0.3),
        critical_gap: q(4.0),
    }
}

fn put(w: &mut NetWorld, id: u32, lane: u32, position: f64, speed: f64) {
    w.spawn(id, LaneId(lane), q(position), q(speed), car(), [q(0.0); 3]);
}

/// The last vehicle enters the node at the end of its lane.
fn enter(w: &mut NetWorld, m: MovementId, arc: f64) {
    let v = w.fleet.rows.last_mut().unwrap();
    v.crossing = Some(Crossing { movement: m, lat_shift: q(0.0) });
    let len = w.network.lanes[v.lane.0 as usize].length;
    v.position = q(num(len) + arc);
}

fn num(x: Quantity) -> f64 {
    let b = if x.key < 0 { x.key ^ i64::MAX } else { x.key };
    f64::from_bits(b as u64)
}

/// Positions as the corridors' own when no two lanes share one.
fn see(w: &NetWorld) -> Neighbors {
    let cpos = w.vehicles().iter().map(|v| v.position).collect();
    w.neighbors(&cpos)
}

const SURFACE: RoadKind = RoadKind::Surface(3);

/// A plain four-way crossing around node 0. Links: 0 from the west, 1 to the
/// east, 2 from the south, 3 to the north, 4 from the east, 5 to the west.
/// Movements in order: west straight, west left, south straight, south right,
/// east straight.
fn crossing() -> Network {
    let roads = [
        Road(1, 0, 1, SURFACE, 15.0, 200.0),
        Road(0, 2, 1, SURFACE, 15.0, 200.0),
        Road(3, 0, 1, SURFACE, 10.0, 150.0),
        Road(0, 4, 1, SURFACE, 10.0, 150.0),
        Road(2, 0, 1, SURFACE, 15.0, 200.0),
        Road(0, 1, 1, SURFACE, 15.0, 200.0),
    ];
    let joins = [
        join((0, 0), (1, 0), TurnType::Through),
        join((0, 0), (3, 0), TurnType::Left),
        join((2, 0), (3, 0), TurnType::Through),
        join((2, 0), (1, 0), TurnType::Right),
        join((4, 0), (5, 0), TurnType::Through),
    ];
    // west straight and west left meet south straight; west left meets east straight
    network(5, &roads, &joins, &[(0, 2, 8.0, 6.0), (1, 4, 10.0, 9.0), (1, 2, 4.0, 12.0)])
}

fn west_straight(w: &NetWorld) -> MovementId {
    mv(&w.network, (0, 0), (1, 0))
}

fn west_left(w: &NetWorld) -> MovementId {
    mv(&w.network, (0, 0), (3, 0))
}

fn south_straight(w: &NetWorld) -> MovementId {
    mv(&w.network, (2, 0), (3, 0))
}

fn south_right(w: &NetWorld) -> MovementId {
    mv(&w.network, (2, 0), (1, 0))
}

fn east_straight(w: &NetWorld) -> MovementId {
    mv(&w.network, (4, 0), (5, 0))
}

/// The same crossing under signals: group 0 for west and east, 1 for south.
fn signalled() -> Network {
    let mut net = crossing();
    net.nodes[0].control = NodeControl::Signalized(0);
    net.programs.push(Program { phases: vec![0b01, 0b10], coordinated: false });
    net.groups.push(SignalGroup { program: 0, bit: 0 });
    net.groups.push(SignalGroup { program: 0, bit: 1 });
    for m in net.movements.iter_mut() {
        m.signal_group = Some(if m.from_lane == LaneId(2) { 1 } else { 0 });
    }
    net
}

#[test]
fn conflict_matrix_rules() {
    let angle = |a: [f64; 2], b: [f64; 2]| q((a[0] * b[0] + a[1] * b[1]).clamp(-1.0, 1.0).acos());
    let (east, west, north) = ([1.0, 0.0], [-1.0, 0.0], [0.0, 1.0]);
    // A minor-road right turn defers to higher-priority crossing traffic...
    assert!(should_yield_to(TurnType::Right, TurnType::Through, angle(east, north), 0, 999));
    // ...but a major-road right turn does not yield to a minor crossing.
    assert!(!should_yield_to(TurnType::Right, TurnType::Through, angle(east, north), 999, 0));
    // A right turn away from opposing traffic never yields to it.
    assert!(!should_yield_to(TurnType::Right, TurnType::Through, angle(east, west), 0, 999));
    // Opposing through movements don't conflict.
    assert!(!should_yield_to(TurnType::Through, TurnType::Through, angle(east, west), 0, 999));
    // A left turn yields to the oncoming through.
    assert!(should_yield_to(TurnType::Left, TurnType::Through, angle(east, west), 999, 0));
    // Crossing streams defer to the higher-priority approach.
    assert!(should_yield_to(TurnType::Through, TurnType::Through, angle(east, north), 0, 999));
    assert!(!should_yield_to(TurnType::Through, TurnType::Through, angle(east, north), 999, 0));
}

#[test]
fn giving_way_is_one_sided_at_every_angle() {
    let turns = [TurnType::Left, TurnType::Through, TurnType::Right];
    for a in turns {
        for b in turns {
            for angle in [0.0, 0.59, 0.6, 1.5, 2.5, 2.51, 3.1] {
                for (x, y) in [(1, 2), (2, 1), (5, 5)] {
                    assert!(!(should_yield_to(a, b, q(angle), x, y) && should_yield_to(b, a, q(angle), y, x)));
                }
            }
        }
    }
    assert!(!should_yield_to(TurnType::Left, TurnType::Through, q(0.59), 0, 9), "parallel");
    assert!(should_yield_to(TurnType::Left, TurnType::Through, q(0.6), 0, 9));
    assert!(!should_yield_to(TurnType::Left, TurnType::Left, q(3.0), 0, 9), "two lefts pass each other");
}

#[test]
fn priority_goes_by_class_speed_lanes_and_id() {
    let roads = [
        Road(0, 1, 1, RoadKind::Surface(4), 10.0, 100.0),
        Road(0, 1, 4, RoadKind::Surface(3), 30.0, 100.0),
        Road(0, 1, 2, RoadKind::Surface(3), 30.0, 100.0),
        Road(0, 1, 2, RoadKind::Surface(3), 20.0, 100.0),
        Road(0, 1, 2, RoadKind::Surface(3), 20.0, 100.0),
    ];
    let w = world(network(2, &roads, &[], &[]));
    let key = |l: u32| w.priority_key(LinkId(l));
    assert!(key(0) > key(1), "the class decides before speed and lanes");
    assert!(key(1) > key(2), "more lanes");
    assert!(key(2) > key(3), "faster");
    assert!(key(4) > key(3), "the id last of all");
    assert_eq!(key(3) >> 24, key(4) >> 24, "the road rank leaves the id out");
    assert_eq!(key(3), (3 << 56) | (20_000 << 40) | (2 << 24) | 3);
}

#[test]
fn a_routed_vehicle_takes_its_route() {
    let mut w = world(crossing());
    w.spawn_routed_in_lane(1, vec![LinkId(0), LinkId(3)], LaneId(0), q(10.0), q(5.0), car(), [q(0.0); 3]);
    assert_eq!(w.intended_movement(&w.vehicles()[0]), Some(west_left(&w)));
    assert_eq!(w.next_link_on_path(&w.vehicles()[0]), Some(LinkId(3)));
    // at the end of the route there is nowhere to go on to
    w.fleet.rows[0].route_idx = 1;
    assert_eq!(w.intended_movement(&w.vehicles()[0]), None);
    assert!(!w.still_has_a_route(&w.vehicles()[0], LinkId(0)));
    // a vehicle without a route takes the first movement of its lane
    put(&mut w, 2, 0, 50.0, 5.0);
    assert_eq!(w.intended_movement(&w.vehicles()[1]), Some(west_straight(&w)));
    // a route that does not start on the lane's link is refused
    assert!(!w.spawn_routed_in_lane(3, vec![LinkId(2)], LaneId(0), q(0.0), q(0.0), car(), [q(0.0); 3]));
    assert!(!w.spawn_routed_in_lane(3, vec![], LaneId(0), q(0.0), q(0.0), car(), [q(0.0); 3]));
}

#[test]
fn a_destination_counts_before_a_route() {
    let mut w = world(crossing());
    w.spawn_routed_in_lane(1, vec![LinkId(0), LinkId(1)], LaneId(0), q(10.0), q(5.0), car(), [q(0.0); 3]);
    w.fleet.rows[0].dest = Some(LinkId(3));
    let straight = Some(west_straight(&w));
    assert_eq!((w.next_link_on_path(&w.vehicles()[0]), w.intended_movement(&w.vehicles()[0])), (Some(LinkId(1)), straight));
    assert_eq!(w.movement_from_lane_for(&w.vehicles()[0], LaneId(0)), straight, "without a router it follows its route");
    w.install_router(&vec![LinkId(3)], &vec![1; 6]);
    let left = Some(west_left(&w));
    assert_eq!((w.next_link_on_path(&w.vehicles()[0]), w.intended_movement(&w.vehicles()[0])), (Some(LinkId(3)), left));
    assert_eq!(w.movement_from_lane_for(&w.vehicles()[0], LaneId(0)), left);
    assert_eq!(w.path_hops(&w.vehicles()[0], LinkId(3)), vec![LinkId(3)]);
}

#[test]
fn a_path_is_committed_through_the_whole_junction() {
    // seven short links in a row inside one junction, and one out of it
    let roads: Vec<Road> = (0..9).map(|i| Road(i, i + 1, 1, RoadKind::Surface(3), 15.0, 10.0)).collect();
    let joins: Vec<Join> = (0..8).map(|i| join((i, 0), (i + 1, 0), TurnType::Through)).collect();
    let mut net = network(10, &roads, &joins, &[]);
    let inside: Vec<u32> = (1..9).collect();
    cluster(&mut net, &inside);
    let mut w = world(net);
    put(&mut w, 1, 0, 5.0, 5.0);
    let all: Vec<MovementId> = (0..8).map(|i| mv(&w.network, (i, 0), (i + 1, 0))).collect();
    assert_eq!(w.path_movements(&w.vehicles()[0], all[0]), all, "to the last node of the junction");
    assert_eq!(w.path_movements(&w.vehicles()[0], all[6]), all[6..].to_vec());
    assert!(w.approach_reaches(&w.vehicles()[0], all[7]));
    enter(&mut w, all[0], 1.0);
    assert_eq!(see(&w).crossing_mvs.get(&1), Some(&all), "all of it is reserved");
}

#[test]
fn a_path_that_goes_round_is_followed_once() {
    // a ring of three links inside one junction, and a way in
    let roads = [
        Road(0, 1, 1, RoadKind::Surface(3), 15.0, 50.0),
        Road(1, 2, 1, RoadKind::Surface(3), 15.0, 10.0),
        Road(2, 3, 1, RoadKind::Surface(3), 15.0, 10.0),
        Road(3, 1, 1, RoadKind::Surface(3), 15.0, 10.0),
    ];
    let joins: Vec<Join> =
        [(0, 1), (1, 2), (2, 3), (3, 1)].iter().map(|&(a, b)| join((a, 0), (b, 0), TurnType::Through)).collect();
    let mut net = network(4, &roads, &joins, &[]);
    cluster(&mut net, &[1, 2, 3]);
    let mut w = world(net);
    put(&mut w, 1, 0, 5.0, 5.0);
    let all: Vec<MovementId> = [(0, 1), (1, 2), (2, 3), (3, 1)].iter().map(|&(a, b)| mv(&w.network, (a, 0), (b, 0))).collect();
    assert_eq!(w.path_movements(&w.vehicles()[0], all[0]), all);
}

#[test]
fn a_field_routed_vehicle_follows_the_field() {
    let mut w = world(crossing());
    let costs = vec![1; 6];
    w.install_router(&vec![LinkId(3)], &costs);
    w.spawn_to_in_lane(1, LaneId(0), q(10.0), LinkId(3), q(5.0), car(), [q(0.0); 3]);
    let v = &w.vehicles()[0];
    assert_eq!(w.intended_movement(v), Some(west_left(&w)));
    assert_eq!(w.forward_movement(v, LaneId(0)), Some(west_left(&w)));
    assert_eq!(w.intended_movement_from(v, LaneId(2)), Some(south_straight(&w)));
    assert_eq!(w.intended_movement_from(v, LaneId(3)), None);
    assert!(w.still_has_a_route(v, LinkId(0)) && !w.still_has_a_route(v, LinkId(3)));
    w.fleet.rows[0].lane = LaneId(3);
    assert_eq!(w.intended_movement(&w.vehicles()[0]), None, "arrived");
}

#[test]
fn a_lane_without_movements_borrows_a_siblings() {
    let roads = [Road(0, 1, 2, SURFACE, 15.0, 100.0), Road(1, 2, 1, SURFACE, 15.0, 100.0)];
    let mut w = world(network(3, &roads, &[join((0, 1), (1, 0), TurnType::Through)], &[]));
    put(&mut w, 1, 0, 10.0, 5.0);
    let only = mv(&w.network, (0, 1), (1, 0));
    assert_eq!(w.network.movement_to(LaneId(0), LinkId(1)), None);
    assert_eq!(w.network.any_movement_on(LinkId(0)), Some(only));
    assert_eq!(w.intended_movement(&w.vehicles()[0]), Some(only), "it does not vanish");
    put(&mut w, 2, 2, 10.0, 5.0);
    assert_eq!(w.intended_movement(&w.vehicles()[1]), None, "a dead end");
}

#[test]
fn neighbours_are_found() {
    let mut w = world(crossing());
    put(&mut w, 1, 0, 50.0, 5.0);
    put(&mut w, 2, 0, 120.0, 5.0);
    put(&mut w, 3, 0, 90.0, 5.0);
    put(&mut w, 4, 2, 150.0, 0.2);
    let m = south_straight(&w);
    enter(&mut w, m, 3.0);
    let nb = see(&w);
    assert_eq!(nb.leader_of, vec![Some(2), None, Some(1), None]);
    assert_eq!(nb.lane_front(LaneId(0)), Some(0), "the rearmost");
    assert_eq!(nb.lane_front(LaneId(1)), None);
    assert_eq!(nb.approaching.get(&0), Some(&vec![0, 1, 2]));
    assert_eq!(nb.crossing_at.get(&0), Some(&vec![3]));
    assert_eq!(nb.crossing_mvs.get(&0), Some(&vec![m]));
    assert_eq!(nb.moving_crossing_mvs.get(&0), None, "it creeps");
    assert_eq!(w.entrance_occupant(LaneId(2), &nb), Some(3));
    assert_eq!(w.downstream_node(LaneId(0)), NodeId(0));
}

#[test]
fn the_sort_is_the_same_with_and_without_flat_keys() {
    let mut w = world(crossing());
    for (id, pos) in [(1, 50.0), (2, 10.0), (3, 90.0), (4, 10.0)] {
        put(&mut w, id, 0, pos, 0.0);
    }
    let flat = w.position_keys();
    assert_eq!(flat.len(), 4);
    let cpos: Vec<Quantity> = w.vehicles().iter().map(|v| v.position).collect();
    let with = w.sort_lane_members(&vec![0, 1, 2, 3], &flat);
    let chain = w.sort_corridor_members(&vec![0, 1, 2, 3], &cpos, &w.corridor_keys(&cpos));
    w.set_cache_sort(false);
    assert!(!w.cache_sort() && w.position_keys().is_empty() && w.corridor_keys(&cpos).is_empty());
    assert_eq!(w.sort_lane_members(&vec![0, 1, 2, 3], &vec![]), with);
    assert_eq!(w.sort_corridor_members(&vec![0, 1, 2, 3], &cpos, &vec![]), chain);
    assert_eq!(with, vec![1, 3, 0, 2]);
}

#[test]
fn a_corridor_joins_lanes_that_nothing_else_feeds() {
    let roads = [
        Road(0, 1, 1, RoadKind::Freeway, 30.0, 500.0),
        Road(1, 2, 1, RoadKind::Freeway, 30.0, 500.0),
        Road(2, 3, 1, RoadKind::Freeway, 30.0, 500.0),
        Road(4, 2, 1, RoadKind::Ramp, 20.0, 200.0),
    ];
    let mut joins = vec![
        join((0, 0), (1, 0), TurnType::Through),
        join((1, 0), (2, 0), TurnType::Through),
        join((3, 0), (2, 0), TurnType::Through),
    ];
    for j in joins.iter_mut() {
        j.interchange = true;
    }
    joins[2].straight = 0.7;
    let w = world(network(5, &roads, &joins, &[]));
    let c = &w.topology.corridors;
    assert_eq!(c.of_lane[0], c.of_lane[1], "one continuous road");
    assert_ne!(c.of_lane[1], c.of_lane[2], "broken by the merge");
    assert_ne!(c.of_lane[2], c.of_lane[3]);
    assert!(c.chains.contains(&vec![LaneId(0), LaneId(1)]));
    let (seam, main, ramp) = (mv(&w.network, (0, 0), (1, 0)), mv(&w.network, (1, 0), (2, 0)), mv(&w.network, (3, 0), (2, 0)));
    assert!(w.is_intra_corridor(seam) && !w.is_intra_corridor(main));
    assert!(w.free_flow_seam(seam));
    assert!(w.free_flow_interchange(ramp), "nothing crosses its path");
    assert_eq!(w.topology.through_next[0], Some(seam));
    assert!(w.topology.merge_feeder_lane[1] && w.topology.merge_feeder_lane[3] && !w.topology.merge_feeder_lane[0]);
}

#[test]
fn each_ring_of_lanes_is_a_corridor_of_its_own() {
    let freeway = |a, b| Road(a, b, 1, RoadKind::Freeway, 30.0, 500.0);
    let roads = [freeway(0, 1), freeway(2, 3), freeway(1, 0), freeway(3, 2), freeway(4, 5)];
    let mut joins = vec![
        join((0, 0), (2, 0), TurnType::Through),
        join((1, 0), (3, 0), TurnType::Through),
        join((2, 0), (0, 0), TurnType::Through),
        join((3, 0), (1, 0), TurnType::Through),
    ];
    for j in joins.iter_mut() {
        j.interchange = true;
    }
    let mut w = world(network(6, &roads, &joins, &[]));
    let c = &w.topology.corridors;
    assert_eq!(c.chains, vec![vec![LaneId(4)], vec![LaneId(0), LaneId(2)], vec![LaneId(1), LaneId(3)]]);
    assert_eq!(c.of_lane, vec![1, 2, 1, 2, 0]);
    assert_eq!(c.next, vec![Some(LaneId(2)), Some(LaneId(3)), Some(LaneId(0)), Some(LaneId(1)), None]);
    for k in 0..4 {
        assert!(w.is_intra_corridor(MovementId(k)) && w.free_flow_seam(MovementId(k)));
    }
    // who drives on one of them leads nobody on the other
    put(&mut w, 1, 0, 10.0, 5.0);
    put(&mut w, 2, 1, 30.0, 5.0);
    put(&mut w, 3, 0, 50.0, 5.0);
    assert_eq!(see(&w).leader_of, vec![Some(2), None, None]);
}

#[test]
fn the_way_back_at_grade_is_no_part_of_a_corridor() {
    let freeway = |a, b| Road(a, b, 1, RoadKind::Freeway, 30.0, 500.0);
    let mut joins = vec![join((0, 0), (1, 0), TurnType::Through), join((1, 0), (0, 0), TurnType::Left)];
    joins[0].interchange = true;
    let w = world(network(2, &[freeway(0, 1), freeway(1, 0)], &joins, &[]));
    let c = &w.topology.corridors;
    assert_eq!((&c.chains, &c.of_lane), (&vec![vec![LaneId(0), LaneId(1)]], &vec![0, 0]));
    let (seam, back) = (mv(&w.network, (0, 0), (1, 0)), mv(&w.network, (1, 0), (0, 0)));
    assert!(w.is_intra_corridor(seam) && w.free_flow_seam(seam));
    assert!(!w.is_intra_corridor(back), "its lanes lie in one corridor, yet it is a junction");
}

#[test]
fn a_merge_into_the_start_is_no_part_of_a_corridor() {
    // the last lane of the chain flows back onto its first, which a ramp feeds too
    let freeway = |a, b| Road(a, b, 1, RoadKind::Freeway, 30.0, 500.0);
    let roads = [freeway(0, 1), freeway(1, 0), Road(2, 0, 1, RoadKind::Ramp, 20.0, 200.0)];
    let mut joins = vec![
        join((0, 0), (1, 0), TurnType::Through),
        join((1, 0), (0, 0), TurnType::Through),
        join((2, 0), (0, 0), TurnType::Through),
    ];
    for j in joins.iter_mut() {
        j.interchange = true;
    }
    let w = world(network(3, &roads, &joins, &[]));
    assert_eq!(w.topology.corridors.of_lane, vec![0, 0, 1]);
    let on: Vec<bool> = [(0, 1), (1, 0), (2, 0)]
        .iter()
        .map(|&(a, b)| w.is_intra_corridor(mv(&w.network, (a, 0), (b, 0))))
        .collect();
    assert_eq!(on, vec![true, false, false]);
}

#[test]
fn the_mainline_flows_ungated_through_a_merge_but_the_ramp_yields() {
    // At an on-ramp merge, the freeway through movements cross the seam with no
    // admission gate (a freeway never brake-checks at a segment boundary) while
    // the ramp — not the exit link's through approach — still yields.
    let roads = [
        Road(1, 2, 3, RoadKind::Freeway, 29.0, 400.0),
        Road(2, 3, 3, RoadKind::Freeway, 29.0, 400.0),
        Road(4, 2, 1, RoadKind::Ramp, 25.0, 282.0),
    ];
    let mut joins = vec![
        join((0, 0), (1, 0), TurnType::Through),
        join((0, 1), (1, 1), TurnType::Through),
        join((0, 2), (1, 2), TurnType::Through),
        join((2, 0), (1, 2), TurnType::Through),
    ];
    for j in joins.iter_mut() {
        j.interchange = true;
    }
    joins[3].straight = 0.7;
    let world = world(network(5, &roads, &joins, &[]));
    let mut checked = 0;
    for m in 0..world.network.movements.len() as u32 {
        let mid = MovementId(m);
        let mv = world.network.movement(mid);
        if world.network.lane(mv.to_lane).link != LinkId(1) {
            continue;
        }
        checked += 1;
        if world.network.lane(mv.from_lane).link == LinkId(0) {
            assert!(world.free_flow_seam(mid), "a mainline continuation crosses ungated");
        } else {
            assert!(!world.free_flow_seam(mid), "the merging ramp keeps its admission gate");
        }
    }
    assert!(checked >= 4, "the merge fixture wires mainline and ramp movements, got {checked}");
}

#[test]
fn a_freeway_off_ramp_diverge_has_no_lane_merge() {
    // A 6-lane freeway splits into a 4-lane continuation and a 2-lane off-ramp: the
    // curb lanes lead to the ramp only, and each continuation lane is fed by exactly
    // one freeway lane, so there is no lane-drop merge choking the mainline.
    let roads = [
        Road(0, 1, 6, RoadKind::Freeway, 29.0, 400.0),
        Road(1, 2, 4, RoadKind::Freeway, 29.0, 500.0),
        Road(1, 3, 2, RoadKind::Ramp, 11.0, 397.0),
    ];
    let mut joins: Vec<Join> = (0..4).map(|k| join((0, k), (1, k), TurnType::Through)).collect();
    joins.extend((0..2).map(|k| join((0, 4 + k), (2, k), TurnType::Right)));
    for j in joins.iter_mut() {
        j.interchange = true;
    }
    let w = world(network(4, &roads, &joins, &[]));
    let (mainline, cont, ramp_l) = (LinkId(0), LinkId(1), LinkId(2));
    let net = &w.network;
    // Every continuation lane is fed by exactly one freeway lane — no merge.
    for idx in 0..net.link(cont).lane_count {
        let f = &w.topology.feeders[(net.link(cont).lane_start.0 + idx) as usize];
        assert_eq!(f.len(), 1, "continuation lane {idx} must have a single feeder (no merge), got {f:?}");
    }
    // The two curb lanes feed the ramp and do NOT continue on the mainline.
    for k in [4u32, 5] {
        let lane = LaneId(net.link(mainline).lane_start.0 + k);
        assert!(net.movement_to(lane, ramp_l).is_some(), "exit lane {k} feeds the off-ramp");
        assert!(net.movement_to(lane, cont).is_none(), "exit lane {k} is exit-only");
    }
    // And the inner four lanes carry the mainline (a through car in them just continues).
    for k in 0..4u32 {
        let lane = LaneId(net.link(mainline).lane_start.0 + k);
        assert!(net.movement_to(lane, cont).is_some(), "through lane {k} continues on the mainline");
    }
    assert!(!w.topology.merge_feeder_lane.contains(&true));
}

#[test]
fn an_occupied_box_is_closed_to_paths_that_cross() {
    let mut w = world(crossing());
    put(&mut w, 1, 2, 150.0, 4.0);
    let m = south_straight(&w);
    enter(&mut w, m, 3.0);
    let nb = see(&w);
    let node = NodeId(0);
    assert!(w.network.movements_conflict(west_straight(&w), m) && w.network.movements_conflict(m, west_straight(&w)));
    assert!(!w.network.movements_conflict(east_straight(&w), m));
    assert!(w.box_conflict(west_straight(&w), node, &nb));
    assert!(!w.box_conflict(east_straight(&w), node, &nb));
}

/// One crosser's timings at each of the node's points.
fn timed(w: &NetWorld, arc: f64, tail_clear: f64, short_by: f64, t_reach: f64, t_free: f64) -> Vec<Vec<PointTiming>> {
    let t = PointTiming {
        arc: q(arc),
        tail_clear: q(tail_clear),
        short_by: q(short_by),
        t_reach: q(t_reach),
        t_free: q(t_free),
    };
    vec![vec![t; w.network.nodes[0].conflicts.len()]]
}

#[test]
fn a_crosser_closes_the_box_only_while_it_owns_the_point() {
    let mut w = world(crossing());
    put(&mut w, 1, 2, 150.0, 4.0);
    let m = south_straight(&w);
    enter(&mut w, m, 3.0);
    let nb = see(&w);
    let (node, mine) = (NodeId(0), west_straight(&w));
    let closed = |w: &NetWorld, hold: Option<Quantity>, t: &Vec<Vec<PointTiming>>| {
        w.box_conflict_graded(mine, node, &nb, hold, t)
    };
    assert!(closed(&w, None, &timed(&w, 3.0, 11.5, 3.0, 2.0, 2.7)), "it is there first");
    assert!(!closed(&w, None, &timed(&w, 3.0, 11.5, 3.0, 2.7, 2.7)), "it will have cleared");
    assert!(!closed(&w, None, &timed(&w, 11.5, 11.5, -5.5, 2.0, 2.7)), "its tail is past");
    assert!(!closed(&w, Some(q(8.0)), &timed(&w, 3.0, 11.5, 3.0, 2.0, 2.7)), "the point lies beyond the hold");
    assert!(closed(&w, Some(q(8.1)), &timed(&w, 3.0, 11.5, 3.0, 2.0, 2.7)));
    // standing well short of the point it does not claim it
    w.fleet.rows[0].speed = q(0.2);
    let nb = see(&w);
    assert!(!w.box_conflict_graded(mine, node, &nb, None, &timed(&w, 3.0, 11.5, 1.6, 2.0, 2.7)));
    assert!(w.box_conflict_graded(mine, node, &nb, None, &timed(&w, 3.0, 11.5, 1.5, 2.0, 2.7)));
    // and a path that does not cross is open in any case
    assert!(!w.box_conflict_graded(east_straight(&w), node, &nb, None, &timed(&w, 3.0, 11.5, 1.0, 2.0, 2.7)));
}

#[test]
fn signals_colour_their_movements() {
    let mut w = world(signalled());
    w.set_signal_states(vec![SignalState::Green, SignalState::Red]);
    assert_eq!(w.movement_state(west_straight(&w)), SignalState::Green);
    assert_eq!(w.movement_state(south_straight(&w)), SignalState::Red);
    assert_eq!(w.signal_states(), vec![SignalState::Green, SignalState::Red]);
    assert!(w.is_rtor(south_right(&w)) && !w.is_rtor(south_straight(&w)) && !w.is_rtor(west_left(&w)));
    // the left has a live conflict with oncoming traffic and gives way to it
    assert!(w.left_is_permissive(west_left(&w)) && w.is_permissive(west_left(&w)));
    assert!(w.is_permissive(south_right(&w)) && !w.is_permissive(west_straight(&w)));
    // only the point against the oncoming counts: the south is held by its red
    assert_eq!(w.first_live_conflict_arc(west_left(&w), NodeId(0)), Some(q(10.0)));
    w.set_signal_states(vec![SignalState::Green, SignalState::Green]);
    assert_eq!(w.first_live_conflict_arc(west_left(&w), NodeId(0)), Some(q(4.0)));
    w.set_signal_states(vec![SignalState::Red, SignalState::Red]);
    assert!(!w.is_permissive(west_left(&w)), "red is red");
    assert_eq!(w.first_live_conflict_arc(west_left(&w), NodeId(0)), None);
}

#[test]
fn one_left_turner_waits_inside_the_box() {
    let mut w = world(signalled());
    w.set_signal_states(vec![SignalState::Green, SignalState::Red]);
    let left = west_left(&w);
    put(&mut w, 1, 0, 150.0, 5.0);
    let nb = see(&w);
    assert_eq!(w.permissive_waiter_hold(0, left, NodeId(0), &nb, q(7.0)), Some(q(7.0)));
    assert_eq!(w.permissive_waiter_hold(0, left, NodeId(0), &nb, q(0.9)), None, "too shallow");
    assert_eq!(w.permissive_waiter_hold(0, west_straight(&w), NodeId(0), &nb, q(7.0)), None);
    put(&mut w, 2, 0, 200.0, 1.0);
    enter(&mut w, left, 2.0);
    let nb = see(&w);
    assert_eq!(w.permissive_waiter_hold(0, left, NodeId(0), &nb, q(7.0)), None, "one is there already");
    assert_eq!(w.permissive_waiter_hold(1, left, NodeId(0), &nb, q(7.0)), Some(q(7.0)), "but for itself");
}

fn rivals(n: usize, arrival: f64, critical: f64, angle: f64) -> Vec<Rival> {
    vec![Rival { arrival: q(arrival), critical: q(critical), angle: q(angle) }; n]
}

#[test]
fn accepted_gaps_go_by_the_book() {
    let gap = |turn: TurnType, minor: bool, length: f64| num(base_critical_gap(turn, minor, q(length)));
    // HCM bases: minor movements demand more than the major left; trucks add a second.
    assert_eq!(gap(TurnType::Left, false, 4.5), 4.1);
    assert_eq!(gap(TurnType::Right, true, 4.5), 6.2);
    assert_eq!(gap(TurnType::Through, true, 4.5), 6.5);
    assert_eq!(gap(TurnType::Left, true, 4.5), 7.1);
    assert_eq!(gap(TurnType::Left, true, 8.0), 8.1);
    assert_eq!(gap(TurnType::Through, false, 16.0), 4.1 + 1.0);
    assert_eq!((gap(TurnType::Right, true, 12.0), gap(TurnType::Through, true, 12.0)), (7.2, 7.5));
}

#[test]
fn the_minor_road_waits_for_a_gap() {
    let mut w = world(crossing());
    put(&mut w, 1, 2, 140.0, 3.0); // from the south, the slower road
    put(&mut w, 2, 0, 150.0, 12.0); // from the west
    let nb = see(&w);
    let waits = |i: usize, lane: u32, r: &Vec<Rival>| w.conflicting_priority_traffic(i, LaneId(lane), NodeId(0), &nb, r);
    assert!(waits(0, 2, &rivals(2, 4.0, 6.5, 1.57)), "too close");
    assert!(!waits(0, 2, &rivals(2, 6.5, 6.5, 1.57)), "a gap");
    assert!(!waits(1, 0, &rivals(2, 4.0, 6.5, 1.57)), "the major road does not");
    w.fleet.rows[1].speed = q(0.4);
    let nb = see(&w);
    assert!(!w.conflicting_priority_traffic(0, LaneId(2), NodeId(0), &nb, &rivals(2, 4.0, 6.5, 1.57)), "it stands");
}

#[test]
fn a_turn_gives_way_to_whom_it_crosses() {
    let mut w = world(crossing());
    w.spawn_routed_in_lane(1, vec![LinkId(0), LinkId(3)], LaneId(0), q(180.0), q(5.0), car(), [q(0.0); 3]);
    put(&mut w, 2, 2, 130.0, 5.0);
    let nb = see(&w);
    let near = rivals(2, 4.0, 6.5, 1.57);
    // the left turner is on the major road, yet its path crosses the one going straight
    assert!(w.conflicting_priority_traffic(0, LaneId(0), NodeId(0), &nb, &near));
    assert!(w.conflicting_priority_traffic(1, LaneId(2), NodeId(0), &nb, &near), "who minds the major road in turn");
    // going straight itself, only the minor road gives way
    w.fleet.rows[0].route = vec![LinkId(0), LinkId(1)];
    assert!(!w.conflicting_priority_traffic(0, LaneId(0), NodeId(0), &nb, &near));
    assert!(w.conflicting_priority_traffic(1, LaneId(2), NodeId(0), &nb, &near));
}

#[test]
fn the_one_who_stopped_first_goes_first() {
    let mut net = crossing();
    net.nodes[0].control = NodeControl::Stop;
    net.nodes[0].all_way_stop = true;
    for l in [0, 2, 4] {
        net.links[l].stop_line = true;
    }
    let mut w = world(net);
    put(&mut w, 1, 0, 198.0, 0.0);
    put(&mut w, 2, 2, 148.0, 0.0);
    for (i, ticks) in [(0usize, 10u32), (1, 20)] {
        w.fleet.rows[i].stopped_at = Some(NodeId(0));
        w.fleet.rows[i].wait_ticks = ticks;
    }
    assert!(w.approach_must_stop(LaneId(0)) && !w.approach_must_stop(LaneId(1)));
    let nb = see(&w);
    let room = Room { clear_after: q(50.0), margin: q(4.0), rear: q(50.0), commit_room: q(13.0) };
    let waits = |w: &NetWorld, i: usize, m: MovementId| {
        w.earlier_stopped_conflict(i, m, NodeId(0), &nb, &vec![room; 2])
    };
    assert!(waits(&w, 0, west_straight(&w)), "the south stood longer");
    assert!(!waits(&w, 1, south_straight(&w)), "and does not wait in turn");
    // ties go to the lower id
    w.fleet.rows[1].wait_ticks = 10;
    assert!(!waits(&w, 0, west_straight(&w)) && waits(&w, 1, south_straight(&w)));
    // nobody waits for one who has not served the stop
    w.fleet.rows[0].stopped_at = None;
    assert!(!waits(&w, 1, south_straight(&w)));
}

#[test]
fn nobody_waits_for_one_who_cannot_move() {
    let mut net = crossing();
    net.nodes[0].control = NodeControl::Stop;
    let mut w = world(net);
    put(&mut w, 1, 0, 198.0, 0.0);
    put(&mut w, 2, 2, 148.0, 0.0);
    w.fleet.rows[1].stopped_at = Some(NodeId(0));
    w.fleet.rows[1].wait_ticks = 20;
    put(&mut w, 3, 3, 6.0, 0.0); // stands on the exit to the north
    let nb = see(&w);
    let tight = Room { clear_after: q(9.0), margin: q(4.0), rear: q(1.5), commit_room: q(13.0) };
    let wide = Room { rear: q(13.0), ..tight };
    let m = west_straight(&w);
    assert!(!w.earlier_stopped_conflict(0, m, NodeId(0), &nb, &vec![tight; 2]));
    assert!(w.earlier_stopped_conflict(0, m, NodeId(0), &nb, &vec![wide; 2]));
    assert!(w.movement_downstream_blocked(south_straight(&w), &nb, &tight));
    assert!(!w.movement_downstream_blocked(south_straight(&w), &nb, &wide));
    assert!(!w.movement_downstream_blocked(m, &nb, &tight), "that exit is empty");
}

#[test]
fn a_leaving_tail_is_followed_where_that_is_allowed() {
    let mut w = world(signalled());
    put(&mut w, 1, 3, 6.0, 3.0);
    let nb = see(&w);
    let room = Room { clear_after: q(9.0), margin: q(3.8), rear: q(1.5), commit_room: q(13.0) };
    assert!(w.departing_exemption(south_straight(&w)));
    assert!(!w.movement_downstream_blocked(south_straight(&w), &nb, &room));
    let close = Room { clear_after: q(3.7), ..room };
    assert!(w.movement_downstream_blocked(south_straight(&w), &nb, &close));
    w.fleet.rows[0].speed = q(2.9);
    let nb = see(&w);
    assert!(w.movement_downstream_blocked(south_straight(&w), &nb, &room), "too slow to be leaving");
    let mut plain = world(crossing());
    put(&mut plain, 1, 3, 6.0, 3.0);
    let nb = see(&plain);
    assert!(!plain.departing_exemption(south_straight(&plain)));
    assert!(plain.movement_downstream_blocked(south_straight(&plain), &nb, &room));
}

fn pressure(w: &NetWorld, needed: Option<f64>, inside: usize, coming: usize, arrive: f64) -> Vec<PointPressure> {
    (0..w.network.nodes[0].conflicts.len())
        .map(|_| PointPressure {
            needed: needed.map(q),
            inside: vec![
                PointTiming { arc: q(3.0), tail_clear: q(11.5), short_by: q(3.0), t_reach: q(2.0), t_free: q(2.7) };
                inside
            ],
            coming: vec![
                Arrival { stop_dist: q(10.0), line_dist: q(30.0), arrive: q(arrive), launch: q(arrive) };
                coming
            ],
        })
        .collect()
}

#[test]
fn a_left_turner_waits_for_oncoming_traffic() {
    let mut w = world(signalled());
    w.set_signal_states(vec![SignalState::Green, SignalState::Red]);
    let left = west_left(&w);
    put(&mut w, 1, 0, 199.0, 0.0);
    put(&mut w, 2, 4, 170.0, 12.0);
    let nb = see(&w);
    let pressed = |w: &NetWorld, p: &Vec<PointPressure>| w.permissive_pressure(0, left, NodeId(0), &nb, p);
    assert!(pressed(&w, &pressure(&w, Some(5.0), 0, 2, 3.0)), "oncoming is there first");
    assert!(!pressed(&w, &pressure(&w, Some(5.0), 0, 2, 5.0)), "a gap");
    assert!(!pressed(&w, &pressure(&w, None, 0, 2, 3.0)), "past the points");
    // oncoming traffic that is stopping for its own yellow never arrives
    w.set_signal_states(vec![SignalState::Yellow, SignalState::Red]);
    assert!(!pressed(&w, &pressure(&w, Some(5.0), 0, 2, 3.0)));
    w.set_signal_states(vec![SignalState::Red, SignalState::Red]);
    assert!(!pressed(&w, &pressure(&w, Some(5.0), 0, 2, 3.0)), "held by red, it presses nobody");
}

#[test]
fn a_driver_without_a_view_of_the_light_is_rare() {
    let mut w = world(crossing());
    assert!(!w.runs_red(q(0.0), q(1.0)), "a zero rate disables it");
    w.cfg.red_run_prob = q(0.01);
    assert!(w.runs_red(q(0.004), q(0.005)) && !w.runs_red(q(0.005), q(0.005)));
    w.cfg.red_run_prob = q(-1.0);
    assert!(!w.runs_red(q(0.0), q(1.0)));
}

#[test]
fn a_vehicle_behind_a_parked_one_sleeps() {
    let mut w = world(crossing());
    put(&mut w, 1, 0, 100.0, 0.0);
    put(&mut w, 2, 0, 110.0, 0.0);
    let s = Sight { to_end: q(100.0), leader_gap: q(5.5), clear_horizon: q(180.0) };
    let nb = see(&w);
    assert_eq!(w.decide_intent(0, &nb, &s), (Some(west_straight(&w)), Sleep::Awake), "the scheduler is off");
    w.set_sleep_scheduler(true);
    assert_eq!(w.decide_intent(0, &nb, &s), (None, Sleep::Queued(1)));
    assert_eq!(w.sleep_leader(0, &nb, &s), Some(1));
    assert_eq!(w.sleep_leader(1, &nb, &s), None, "nobody ahead");
    assert_eq!(w.sleep_leader(0, &nb, &Sight { leader_gap: q(12.0), ..s }), None, "too far");
    assert_eq!(w.sleep_leader(0, &nb, &Sight { leader_gap: q(-0.1), ..s }), None, "an overlap is no rest");
    assert_eq!(w.classify(0, &nb, &s), CarState::Frozen);
    assert_eq!(w.gather_input(0, &nb, Sleep::Queued(1)), AccelSource::Queue(1));
    w.fleet.rows[0].speed = q(0.02);
    assert_eq!(w.decide_intent(0, &nb, &s).1, Sleep::Awake, "it rolls");
    let m = west_straight(&w);
    enter(&mut w, m, 1.0);
    assert_eq!(w.decide_intent(1, &nb, &s), (Some(m), Sleep::Awake), "a crosser carries its movement");
    w.fleet.rows[0].wreck = Some(5);
    assert_eq!(w.gather_input(0, &nb, Sleep::Awake), AccelSource::Wreck);
}

#[test]
fn the_first_of_a_lane_stays_awake() {
    // one corridor of two lanes, with a parked vehicle at the start of the second
    let freeway = |a, b| Road(a, b, 1, RoadKind::Freeway, 30.0, 500.0);
    let mut joins = vec![join((0, 0), (1, 0), TurnType::Through)];
    joins[0].interchange = true;
    let mut w = world(network(3, &[freeway(0, 1), freeway(1, 2)], &joins, &[]));
    put(&mut w, 1, 0, 490.0, 0.0);
    put(&mut w, 2, 0, 498.0, 0.0);
    put(&mut w, 3, 1, 5.0, 0.0);
    let nb = w.neighbors(&vec![q(490.0), q(498.0), q(505.0)]);
    assert_eq!(nb.leader_of, vec![Some(1), Some(2), None]);
    let s = Sight { to_end: q(10.0), leader_gap: q(2.5), clear_horizon: q(180.0) };
    assert_eq!((w.sleep_leader(0, &nb, &s), w.sleep_leader(1, &nb, &s)), (Some(1), None));
    w.set_queue_links(vec![true, true]);
    w.set_congestion(CongestionConfig { enabled: true, engage_occ: q(0.3), release_occ: q(0.1), dwell_ticks: 3 });
    assert_eq!((w.queue_follower(0, &nb), w.queue_follower(1, &nb)), (Some(1), None));
}

#[test]
fn a_lone_vehicle_cruises_asleep() {
    let mut w = world(crossing());
    w.set_sleep_scheduler(true);
    put(&mut w, 1, 4, 5.0, 14.0);
    let nb = see(&w);
    let s = Sight { to_end: q(195.0), leader_gap: q(0.0), clear_horizon: q(180.0) };
    assert_eq!(w.decide_intent(0, &nb, &s), (None, Sleep::Free));
    assert_eq!(w.gather_input(0, &nb, Sleep::Free), AccelSource::Free);
    assert_eq!(w.classify(0, &nb, &s), CarState::Free);
    assert_eq!(w.state_census(&nb, &vec![s]), [1, 0, 0]);
    assert!(!w.is_free_sleeper(0, &nb, None, &Sight { to_end: q(180.0), ..s }), "near the node");
    assert!(!w.is_free_sleeper(0, &nb, Some(west_left(&w)), &s), "it will turn");
    assert!(w.is_free_sleeper(0, &nb, None, &s));
    w.link_straight[4] = false;
    assert!(!w.is_free_sleeper(0, &nb, None, &s), "a curve");
    assert_eq!(w.classify(0, &nb, &Sight { to_end: q(89.0), ..s }), CarState::Deciding);
}

#[test]
fn a_congested_link_runs_the_queue_model() {
    let mut w = world(crossing());
    put(&mut w, 1, 0, 100.0, 3.0);
    put(&mut w, 2, 0, 110.0, 3.0);
    let nb = see(&w);
    w.set_queue_links(vec![true, false, false, false, false, false]);
    assert_eq!(w.queue_follower(0, &nb), None, "switched off");
    let on = CongestionConfig { enabled: true, engage_occ: q(0.3), release_occ: q(0.1), dwell_ticks: 3 };
    w.set_congestion(on);
    assert_eq!(w.congestion_active_links(), 1);
    assert_eq!(w.queue_follower(0, &nb), Some(1));
    assert_eq!(w.queue_follower(1, &nb), None, "the front one decides in full");
    assert_eq!(w.gather_input(0, &nb, Sleep::Awake), AccelSource::Queue(1));
    assert!(!w.considers_lane_change(0));
    w.set_congestion(CongestionConfig::disabled());
    assert_eq!((w.congestion_active_links(), w.congestion_config().enabled), (0, false));
    assert_eq!(w.gather_input(0, &nb, Sleep::Awake), AccelSource::Full);
    assert!(w.considers_lane_change(0));
}

/// A view in which nothing holds the vehicle.
fn open_view(w: &NetWorld, to_line: f64) -> GatherView {
    let key = w.network.nodes[0].intersection;
    let inside = w.vehicles().iter().filter(|v| v.crossing.is_some()).count();
    let coming = w.vehicles().iter().filter(|v| v.crossing.is_none() && w.network.nodes[w.downstream_node(v.lane).0 as usize].intersection == key).count();
    let room = Room { clear_after: q(99.0), margin: q(4.0), rear: q(99.0), commit_room: q(13.0) };
    let points = w.network.nodes[0].conflicts.len();
    let never = PointTiming { arc: q(99.0), tail_clear: q(1.0), short_by: q(9.0), t_reach: q(9.0), t_free: q(0.0) };
    GatherView {
        to_line: q(to_line),
        delay: 3,
        signal: SignalView {
            green_elapsed: q(10.0),
            misses_red: false,
            yellow_reach: q(0.0),
            runs_yellow: false,
            stop_dist: q(20.0),
        },
        entry: BoxView {
            hold: q(7.0),
            times: vec![vec![never; points]; inside],
            pressure: pressure(w, Some(5.0), inside, coming, 9.0)
                .into_iter()
                .map(|p| PointPressure { needed: p.needed, inside: vec![never; inside], coming: p.coming })
                .collect(),
            exit: vec![],
            rivals: rivals(coming, 9.0, 6.5, 1.57),
        },
        wide_rivals: rivals(coming, 9.0, 6.5, 1.57),
        room,
        fifo_rooms: vec![room; coming],
    }
}

#[test]
fn nothing_holds_a_vehicle_on_an_empty_road() {
    let mut w = world(crossing());
    put(&mut w, 1, 0, 150.0, 10.0);
    let nb = see(&w);
    let m = Some(west_straight(&w));
    let c = w.gather_context(0, &nb, m, &open_view(&w, 50.0));
    let open = Constraints {
        leader: LeaderSource::Beyond,
        open_road: false,
        line: false,
        cover_brake: false,
        stop_sign: false,
        give_way: false,
    };
    assert_eq!(c, open);
    assert_eq!(w.gather_context(0, &nb, m, &open_view(&w, 181.0)), Constraints { open_road: true, ..open });
    assert!(!w.box_entry_blocked(0, m, &nb, &open_view(&w, 50.0).entry));
    assert!(!w.box_entry_blocked(0, None, &nb, &open_view(&w, 50.0).entry));
}

#[test]
fn a_red_light_holds_at_the_line() {
    let mut w = world(signalled());
    w.set_signal_states(vec![SignalState::Red, SignalState::Green]);
    put(&mut w, 1, 0, 190.0, 5.0);
    let nb = see(&w);
    let m = Some(west_straight(&w));
    assert!(w.gather_context(0, &nb, m, &open_view(&w, 10.0)).line);
    let mut blind = open_view(&w, 10.0);
    blind.signal.misses_red = true;
    assert!(!w.gather_context(0, &nb, m, &blind).line, "the driver misses it");
    // yellow: stop if the brakes allow it
    w.set_signal_states(vec![SignalState::Yellow, SignalState::Green]);
    let mut v = open_view(&w, 20.0);
    assert!(w.gather_context(0, &nb, m, &v).line);
    v.signal.stop_dist = q(20.1);
    assert!(!w.gather_context(0, &nb, m, &v).line, "too late to stop");
    v.signal.stop_dist = q(10.0);
    v.signal.runs_yellow = true;
    v.signal.yellow_reach = q(20.1);
    assert!(!w.gather_context(0, &nb, m, &v).line, "committed and willing");
    v.signal.yellow_reach = q(20.0);
    assert!(w.gather_context(0, &nb, m, &v).line, "not committed yet");
    // green: a standing driver takes a moment to react
    w.set_signal_states(vec![SignalState::Green, SignalState::Red]);
    w.fleet.rows[0].speed = q(0.0);
    let mut v = open_view(&w, 10.0);
    v.signal.green_elapsed = q(0.5);
    assert!(w.gather_context(0, &nb, m, &v).line);
    v.signal.green_elapsed = q(0.6);
    assert!(!w.gather_context(0, &nb, m, &v).line);
}

#[test]
fn a_closed_railway_holds_everyone() {
    let mut net = crossing();
    net.nodes[0].rail_crossing = true;
    let mut w = world(net);
    put(&mut w, 1, 0, 190.0, 5.0);
    let nb = see(&w);
    let m = Some(west_straight(&w));
    w.set_day_secs(q(30_000.0), q(44.0));
    assert!(w.rail_closed(NodeId(0)) && !w.rail_closed(NodeId(1)));
    assert!(w.gather_context(0, &nb, m, &open_view(&w, 10.0)).line);
    assert!(w.box_entry_blocked(0, m, &nb, &open_view(&w, 10.0).entry));
    w.set_day_secs(q(30_001.0), q(45.0));
    assert!(!w.rail_closed(NodeId(0)));
    assert!(!w.gather_context(0, &nb, m, &open_view(&w, 10.0)).line);
}

#[test]
fn a_stop_sign_is_owed_until_served() {
    let mut net = crossing();
    net.nodes[0].control = NodeControl::Stop;
    net.links[2].stop_line = true;
    let mut w = world(net);
    put(&mut w, 1, 2, 140.0, 5.0);
    put(&mut w, 2, 0, 150.0, 12.0);
    let nb = see(&w);
    let m = Some(south_straight(&w));
    assert!(w.gather_context(0, &nb, m, &open_view(&w, 10.0)).stop_sign);
    w.fleet.rows[0].stopped_at = Some(NodeId(0));
    assert!(!w.gather_context(0, &nb, m, &open_view(&w, 10.0)).stop_sign);
    assert!(!w.gather_context(1, &nb, Some(west_straight(&w)), &open_view(&w, 10.0)).stop_sign, "no sign there");
    // having stopped, the minor road still gives way to the major one
    let mut busy = open_view(&w, 10.0);
    busy.entry.rivals = rivals(2, 4.0, 6.5, 1.57);
    assert!(w.gather_context(0, &nb, m, &busy).give_way);
    assert!(w.box_entry_blocked(0, m, &nb, &busy.entry));
    let mut near = open_view(&w, 10.0);
    near.wide_rivals = rivals(2, 4.0, 6.5, 1.57);
    let c = w.gather_context(0, &nb, m, &near);
    assert!(c.cover_brake && !c.give_way);
}

#[test]
fn the_reaction_delay_needs_a_settled_history() {
    let mut w = world(crossing());
    put(&mut w, 1, 0, 100.0, 5.0);
    put(&mut w, 2, 0, 120.0, 5.0);
    let nb = see(&w);
    let m = Some(west_straight(&w));
    let mut v = open_view(&w, 50.0);
    assert_eq!(w.gather_context(0, &nb, m, &v).leader, LeaderSource::Current(1));
    v.delay = 0;
    assert_eq!(w.gather_context(0, &nb, m, &v).leader, LeaderSource::Delayed(1));
    assert_eq!(w.gather_context(1, &nb, m, &v).leader, LeaderSource::Beyond);
}

#[test]
fn a_leader_is_found_across_boundaries() {
    let roads = [
        Road(0, 1, 1, SURFACE, 15.0, 100.0),
        Road(1, 2, 1, SURFACE, 15.0, 40.0),
        Road(2, 3, 1, SURFACE, 15.0, 100.0),
    ];
    let joins = [join((0, 0), (1, 0), TurnType::Through), join((1, 0), (2, 0), TurnType::Through)];
    let mut w = world(network(4, &roads, &joins, &[]));
    put(&mut w, 1, 0, 90.0, 10.0);
    put(&mut w, 2, 2, 30.0, 1.0);
    let nb = see(&w);
    let walk = w.boundary_walk(mv(&w.network, (0, 0), (1, 0)));
    assert_eq!(walk, vec![mv(&w.network, (0, 0), (1, 0)), mv(&w.network, (1, 0), (2, 0))]);
    let dists = vec![q(10.0), q(50.0)];
    assert_eq!(w.cross_boundary_leader(&walk, &nb, &dists, q(60.0)), Some(FarLeader { hop: 1, row: 1 }));
    assert_eq!(w.cross_boundary_leader(&walk, &nb, &dists, q(49.0)), None, "beyond the horizon");
}

#[test]
fn the_ramp_yields_to_the_mainline() {
    let roads = [
        Road(0, 1, 1, RoadKind::Freeway, 30.0, 300.0),
        Road(1, 2, 1, RoadKind::Freeway, 30.0, 300.0),
        Road(3, 1, 1, RoadKind::Ramp, 20.0, 200.0),
    ];
    let mut joins = vec![join((0, 0), (1, 0), TurnType::Through), join((2, 0), (1, 0), TurnType::Through)];
    for j in joins.iter_mut() {
        j.interchange = true;
    }
    let mut w = world(network(4, &roads, &joins, &[]));
    put(&mut w, 1, 0, 290.0, 28.0);
    put(&mut w, 2, 2, 180.0, 15.0);
    let nb = see(&w);
    let (main, ramp) = (mv(&w.network, (0, 0), (1, 0)), mv(&w.network, (2, 0), (1, 0)));
    let to_end = vec![q(10.0), q(20.0)];
    let gaps = vec![q(5.5), q(5.5)];
    assert_eq!(w.merge_conflict(&w.vehicles()[1], Some(ramp), &nb, q(20.0), &to_end, &gaps), Some(0));
    assert_eq!(w.merge_conflict(&w.vehicles()[0], Some(main), &nb, q(10.0), &to_end, &gaps), None);
    assert_eq!(w.merge_conflict(&w.vehicles()[1], Some(ramp), &nb, q(46.0), &to_end, &gaps), None, "still far");
    let behind = vec![q(-1.0), q(5.5)];
    assert_eq!(w.merge_conflict(&w.vehicles()[1], Some(ramp), &nb, q(20.0), &to_end, &behind), None);
}

#[test]
fn equal_roads_interleave_by_distance() {
    let roads = [
        Road(0, 1, 1, SURFACE, 15.0, 100.0),
        Road(1, 2, 1, SURFACE, 15.0, 100.0),
        Road(3, 1, 1, SURFACE, 15.0, 100.0),
    ];
    let joins = [join((0, 0), (1, 0), TurnType::Through), join((2, 0), (1, 0), TurnType::Through)];
    let mut w = world(network(4, &roads, &joins, &[]));
    put(&mut w, 1, 0, 90.0, 8.0);
    put(&mut w, 2, 2, 80.0, 8.0);
    let nb = see(&w);
    let (a, b) = (mv(&w.network, (0, 0), (1, 0)), mv(&w.network, (2, 0), (1, 0)));
    let (to_end, gaps) = (vec![q(10.0), q(20.0)], vec![q(5.5), q(5.5)]);
    assert_eq!(w.merge_conflict(&w.vehicles()[0], Some(a), &nb, q(10.0), &to_end, &gaps), None);
    assert_eq!(w.merge_conflict(&w.vehicles()[1], Some(b), &nb, q(20.0), &to_end, &gaps), Some(0));
}

#[test]
fn a_red_further_on_is_seen() {
    let roads = [
        Road(0, 1, 1, SURFACE, 15.0, 100.0),
        Road(1, 2, 1, SURFACE, 15.0, 40.0),
        Road(2, 3, 1, SURFACE, 15.0, 40.0),
        Road(3, 4, 1, SURFACE, 15.0, 40.0),
    ];
    let mut joins = vec![
        join((0, 0), (1, 0), TurnType::Through),
        join((1, 0), (2, 0), TurnType::Through),
        join((2, 0), (3, 0), TurnType::Through),
    ];
    joins[1].group = Some(0);
    joins[2].group = Some(1);
    let mut net = network(5, &roads, &joins, &[]);
    net.programs.push(Program { phases: vec![1, 2], coordinated: false });
    net.groups = vec![SignalGroup { program: 0, bit: 0 }, SignalGroup { program: 0, bit: 1 }];
    let mut w = world(net);
    w.install_router(&vec![LinkId(3)], &vec![1; 4]);
    w.spawn_to_in_lane(1, LaneId(0), q(95.0), LinkId(3), q(10.0), car(), [q(0.0); 3]);
    let first = Some(mv(&w.network, (0, 0), (1, 0)));
    let ahead = |w: &NetWorld, a: f64, b: f64| w.red_ahead(&w.vehicles()[0], first, q(a), q(b));
    w.set_signal_states(vec![SignalState::Red, SignalState::Red]);
    assert_eq!(ahead(&w, 45.0, 85.0), Some(q(45.0)));
    assert_eq!(ahead(&w, 91.0, 130.0), None, "too far to mind");
    w.set_signal_states(vec![SignalState::Green, SignalState::Red]);
    assert_eq!(ahead(&w, 45.0, 85.0), Some(q(85.0)));
    assert_eq!(ahead(&w, 45.0, 90.1), None);
    w.set_signal_states(vec![SignalState::Green, SignalState::Yellow]);
    assert_eq!(ahead(&w, 45.0, 85.0), None);
    assert_eq!(w.red_ahead(&w.vehicles()[0], None, q(45.0), q(85.0)), None);
}

/// Two nodes in one junction: from the west through both to the east, and from
/// the south across the second.
fn double_junction() -> Network {
    let roads = [
        Road(2, 0, 1, SURFACE, 15.0, 100.0),
        Road(0, 1, 1, SURFACE, 15.0, 8.0),
        Road(1, 3, 1, SURFACE, 15.0, 100.0),
        Road(4, 1, 1, SURFACE, 15.0, 100.0),
        Road(1, 5, 1, SURFACE, 15.0, 100.0),
    ];
    let joins = [
        join((0, 0), (1, 0), TurnType::Through),
        join((1, 0), (2, 0), TurnType::Through),
        join((3, 0), (4, 0), TurnType::Through),
    ];
    let mut net = network(6, &roads, &joins, &[(1, 2, 5.0, 5.0)]);
    cluster(&mut net, &[0, 1]);
    net
}

#[test]
fn entering_commits_to_the_whole_path() {
    let mut w = world(double_junction());
    w.install_router(&vec![LinkId(2)], &vec![1; 5]);
    w.spawn_to_in_lane(1, LaneId(0), q(99.0), LinkId(2), q(2.0), car(), [q(0.0); 3]);
    let (a, b) = (mv(&w.network, (0, 0), (1, 0)), mv(&w.network, (1, 0), (2, 0)));
    assert!(w.network.junction_internal_lane(LaneId(1)) && !w.network.junction_internal_lane(LaneId(0)));
    assert_eq!(w.path_movements(&w.vehicles()[0], a), vec![a, b]);
    assert!(w.approach_reaches(&w.vehicles()[0], b));
    assert_eq!(w.movement_from_lane_for(&w.vehicles()[0], LaneId(1)), Some(b));
    assert_eq!(w.junction_exit_path(&w.vehicles()[0], a, NodeId(0)), vec![a, b]);
    // a crosser on the far node closes the box at the near one
    put(&mut w, 2, 3, 100.0, 5.0);
    let cross = mv(&w.network, (3, 0), (4, 0));
    enter(&mut w, cross, 1.0);
    let nb = see(&w);
    assert!(w.box_conflict_on_path_holding(&w.vehicles()[0], a, NodeId(0), &nb, None, &vec![vec![]]));
    w.fleet.rows.pop();
    w.fleet.hist.pop();
    w.fleet.hist_len.pop();
    let nb = see(&w);
    assert!(!w.box_conflict_on_path_holding(&w.vehicles()[0], a, NodeId(0), &nb, None, &vec![]));
}

#[test]
fn nobody_enters_a_junction_that_cannot_be_left() {
    let mut w = world(double_junction());
    w.install_router(&vec![LinkId(2)], &vec![1; 5]);
    w.spawn_to_in_lane(1, LaneId(0), q(99.0), LinkId(2), q(2.0), car(), [q(0.0); 3]);
    let a = mv(&w.network, (0, 0), (1, 0));
    let at = |slots: usize, onward_rear: f64, rear: f64| {
        let room = Room { clear_after: q(99.0), margin: q(4.0), rear: q(rear), commit_room: q(13.0) };
        vec![ExitMeasure { room, slots, onward_rear: q(onward_rear), unit: q(6.5) }; 2]
    };
    let blocked = |w: &NetWorld, m: &Vec<ExitMeasure>| {
        let nb = see(w);
        w.junction_exit_blocked(&w.vehicles()[0], a, NodeId(0), &nb, m)
    };
    assert!(!blocked(&w, &at(1, 50.0, 50.0)));
    put(&mut w, 2, 2, 5.0, 0.0); // just past the exit
    assert!(blocked(&w, &at(1, 0.5, 0.5)), "the exit is taken");
    assert!(!blocked(&w, &at(1, 50.0, 50.0)), "far enough down the street");
    put(&mut w, 3, 1, 4.0, 0.0); // on the lane inside
    assert!(blocked(&w, &at(1, 50.0, 50.0)), "no slot inside");
    assert!(!blocked(&w, &at(2, 50.0, 50.0)));
    let nb = see(&w);
    assert!(w.internal_lane_full(LaneId(1), &nb, 1) && !w.internal_lane_full(LaneId(1), &nb, 2));
    assert!(!w.junction_exit_blocked(&w.vehicles()[1], mv(&w.network, (3, 0), (4, 0)), NodeId(5), &nb, &vec![]));
}

#[test]
fn inside_a_node_the_nearest_ahead_is_followed() {
    let mut w = world(crossing());
    let m = west_straight(&w);
    for (id, arc) in [(1, 2.0), (2, 12.0), (3, 8.0)] {
        put(&mut w, id, 0, 200.0, 4.0);
        enter(&mut w, m, arc);
    }
    put(&mut w, 4, 1, 5.0, 1.0);
    let nb = see(&w);
    let on = w.crossing_by_movement();
    assert_eq!(on.get(&m.0), Some(&vec![0, 1, 2]));
    let arcs = vec![q(2.0), q(12.0), q(8.0), q(-195.0)];
    let gaps = vec![q(0.0), q(5.5), q(1.5), q(0.0)];
    assert_eq!(w.crossing_leader(0, &nb, &on, &arcs, &gaps, q(20.0)), Some(2));
    assert_eq!(w.leader_inside(0, &nb, &on, &arcs, &gaps, q(20.0)), Some(2));
    assert_eq!(w.crossing_leader(0, &nb, &on, &arcs, &gaps, q(1.0)), Some(3), "the landing is nearer");
    let none = vec![q(f64::INFINITY); 4];
    assert_eq!(w.crossing_leader(1, &nb, &on, &arcs, &none, q(f64::INFINITY)), None);
}

fn cross_view(w: &NetWorld, follow: f64, mine: f64, theirs: f64) -> CrossView {
    let n = w.network.nodes[0].conflicts.len();
    CrossView {
        follow: q(follow),
        hop_hold: q(-2.0),
        arc: q(1.0),
        brink: q(0.0),
        pressure: pressure(w, None, w.vehicles().len(), 0, 9.0),
        wait_hold: q(-3.0),
        ahead: (0..n)
            .map(|_| PointAhead { dist: q(mine), others: vec![OtherAt { dist: q(theirs), cleared: q(-5.5) }] })
            .collect(),
        point_holds: vec![q(-4.0); n],
    }
}

#[test]
fn the_one_nearer_to_the_point_goes_first() {
    let mut w = world(crossing());
    put(&mut w, 1, 0, 200.0, 4.0);
    let a = west_straight(&w);
    enter(&mut w, a, 2.0);
    put(&mut w, 2, 2, 150.0, 4.0);
    let b = south_straight(&w);
    enter(&mut w, b, 2.0);
    let nb = see(&w);
    let on = w.crossing_by_movement();
    let view = |mine: f64, theirs: f64| {
        let mut g = cross_view(&w, 1.0, mine, theirs);
        for (k, p) in g.ahead.iter_mut().enumerate() {
            let c = w.network.conflicts[k];
            if c.a != a && c.b != a {
                p.others.clear();
            }
        }
        g
    };
    assert_eq!(w.crossing_accel(0, &nb, &on, &view(6.0, 4.0)), q(-4.0), "the other is nearer");
    assert_eq!(w.crossing_accel(0, &nb, &on, &view(4.0, 6.0)), q(1.0), "the vehicle itself is");
    assert_eq!(w.crossing_accel(0, &nb, &on, &view(4.0, 4.0)), q(1.0), "a tie goes to the lower id");
    assert_eq!(w.crossing_accel(0, &nb, &on, &view(6.0, -6.0)), q(1.0), "its whole body is past");
    assert_eq!(w.crossing_accel(0, &nb, &on, &view(0.0, -1.0)), q(1.0), "already through");
    assert_eq!(w.points_to_hold(0, &on, &view(6.0, 4.0).ahead), vec![true, false, false]);
    assert!(!w.next_hop_conflict(&w.vehicles()[0], &nb));
}

#[test]
fn a_left_turner_holds_inside_under_pressure() {
    let mut w = world(signalled());
    w.set_signal_states(vec![SignalState::Green, SignalState::Red]);
    put(&mut w, 1, 0, 200.0, 2.0);
    let left = west_left(&w);
    enter(&mut w, left, 1.0);
    put(&mut w, 2, 4, 170.0, 12.0);
    let nb = see(&w);
    let on = w.crossing_by_movement();
    let view = |arrive: f64, brink: f64| {
        let mut g = cross_view(&w, 1.0, 6.0, 4.0);
        g.brink = q(brink);
        g.pressure = pressure(&w, Some(5.0), 1, 1, arrive);
        for p in g.ahead.iter_mut() {
            p.others.clear();
        }
        g
    };
    assert_eq!(w.crossing_accel(0, &nb, &on, &view(3.0, 6.9)), q(-3.0));
    assert_eq!(w.crossing_accel(0, &nb, &on, &view(5.0, 6.9)), q(1.0), "a gap");
    assert_eq!(w.crossing_accel(0, &nb, &on, &view(3.0, 0.9)), q(1.0), "past its waiting place");
}

/// Link 0 of two lanes to link 1 of two lanes, then left to 2 from lane 0 and
/// straight to 3 from lane 1.
fn two_blocks() -> Network {
    let roads = [
        Road(0, 1, 2, SURFACE, 15.0, 400.0),
        Road(1, 2, 2, SURFACE, 15.0, 40.0),
        Road(2, 3, 1, SURFACE, 15.0, 300.0),
        Road(2, 4, 1, SURFACE, 15.0, 300.0),
    ];
    let joins = [
        join((0, 0), (1, 0), TurnType::Through),
        join((0, 1), (1, 1), TurnType::Through),
        join((1, 0), (2, 0), TurnType::Left),
        join((1, 1), (3, 0), TurnType::Through),
    ];
    network(5, &roads, &joins, &[])
}

#[test]
fn lanes_are_chosen_for_the_turn_after_next() {
    let mut w = world(two_blocks());
    let route = vec![LinkId(0), LinkId(1), LinkId(2)];
    w.spawn_routed_in_lane(1, route, LaneId(1), q(50.0), q(12.0), car(), [q(0.0); 3]);
    let v = &w.vehicles()[0];
    let hops = w.path_hops(v, LinkId(1));
    assert_eq!(hops, vec![LinkId(1), LinkId(2)]);
    assert_eq!(w.lane_chain_depth(LaneId(0), &hops), 2);
    assert_eq!(w.lane_chain_depth(LaneId(1), &hops), 1, "reaches the next link, not the one after");
    assert_eq!(w.lanes_to_serving(v), Some(-1));
    assert_eq!(w.lane_serves_route(v, LaneId(1)), Some(true));
    assert!(!w.mandatory_change(v, LaneId(0)));
    assert_eq!(w.vehicle_blinker(v), 0);
    // near the node the deeper lane becomes a must
    let by_lane = w.lane_groups();
    let view = |to_node: f64| LaneView { to_node: q(to_node), far_window: q(400.0), windows: vec![q(100.0), q(100.0)] };
    let near = w.lane_options(0, &by_lane, &view(90.0), true);
    assert!(near.left.unwrap().mandatory && near.right.is_none());
    let far = w.lane_options(0, &by_lane, &view(350.0), true);
    assert!(!far.left.unwrap().mandatory);
    // the pre-positioned vehicle does not drift back
    w.fleet.rows[0].lane = LaneId(0);
    let by_lane = w.lane_groups();
    assert_eq!(w.lane_options(0, &by_lane, &view(90.0), true).right, None);
    assert_eq!(w.lanes_to_serving(&w.vehicles()[0]), Some(0));
}

#[test]
fn a_wrong_lane_blinks_towards_the_right_one() {
    let mut w = world(two_blocks());
    w.spawn_routed_in_lane(1, vec![LinkId(1), LinkId(2)], LaneId(3), q(5.0), q(5.0), car(), [q(0.0); 3]);
    assert_eq!(w.vehicle_blinker(&w.vehicles()[0]), -1);
    assert!(w.mandatory_change(&w.vehicles()[0], LaneId(2)));
    w.fleet.rows[0].route = vec![LinkId(1), LinkId(3)];
    assert_eq!(w.vehicle_blinker(&w.vehicles()[0]), 0);
    w.fleet.rows[0].lane = LaneId(2);
    assert_eq!(w.vehicle_blinker(&w.vehicles()[0]), 1);
    assert_eq!(w.lanes_to_serving(&w.vehicles()[0]), Some(1));
}

#[test]
fn a_lane_change_meets_whom_it_meets() {
    let mut w = world(two_blocks());
    put(&mut w, 1, 0, 100.0, 10.0);
    put(&mut w, 2, 1, 80.0, 10.0);
    put(&mut w, 3, 1, 130.0, 10.0);
    put(&mut w, 4, 1, 160.0, 10.0);
    let by_lane = w.lane_groups();
    assert_eq!(w.nearest_ahead(LaneId(1), q(100.0), &by_lane, 0), Some(2));
    assert_eq!(w.nearest_behind(LaneId(1), q(100.0), &by_lane, 0), Some(1));
    assert_eq!(w.nearest_ahead(LaneId(1), q(160.0), &by_lane, 0), None);
    let view = LaneView { to_node: q(300.0), far_window: q(100.0), windows: vec![q(50.0), q(50.0)] };
    let o = w.lane_options(0, &by_lane, &view, true);
    assert!(o.left.is_none());
    let right = o.right.unwrap();
    assert_eq!((right.target, right.ahead, right.behind, right.behind_leader), (LaneId(1), Some(2), Some(1), Some(2)));
    let score = |take: bool, gain: f64| LaneScore { take, gain: q(gain) };
    assert_eq!(NetWorld::best_lane_change(&o, &score(true, 9.0), &score(true, 1.0)), Some(LaneId(1)), "only one side");
    assert_eq!(NetWorld::best_lane_change(&o, &score(true, 9.0), &score(false, 1.0)), None);
    let both = LaneOptions { left: Some(right), right: o.right };
    let other = LaneOptions { left: Some(net_world::lanes::LaneOption { target: LaneId(9), ..right }), ..both };
    assert_eq!(NetWorld::best_lane_change(&other, &score(true, 1.0), &score(true, 1.0)), Some(LaneId(9)), "a tie goes left");
    assert_eq!(NetWorld::best_lane_change(&other, &score(true, 1.0), &score(true, 1.1)), Some(LaneId(1)));
}

#[test]
fn carpool_lanes_are_offered_to_carpools() {
    let mut net = two_blocks();
    net.lanes[0].hov = true;
    let mut w = world(net);
    put(&mut w, 1, 1, 100.0, 10.0);
    let by_lane = w.lane_groups();
    let view = LaneView { to_node: q(300.0), far_window: q(100.0), windows: vec![q(50.0), q(50.0)] };
    assert!(w.lane_options(0, &by_lane, &view, false).left.is_none());
    assert_eq!(w.lane_options(0, &by_lane, &view, true).left.unwrap().target, LaneId(0));
}

#[test]
fn a_lane_change_needs_a_slot() {
    let mut w = world(two_blocks());
    put(&mut w, 1, 0, 100.0, 10.0);
    put(&mut w, 2, 1, 130.0, 10.0);
    put(&mut w, 3, 2, 5.0, 0.0);
    let tight = |room: f64| vec![SlotGap { room: q(room), needed: q(5.5) }; 3];
    assert!(!w.lane_slot_clear(LaneId(1), &tight(5.5), 0));
    assert!(!w.apply_lane_change(0, LaneId(1), q(100.0), &tight(5.5)));
    assert_eq!(w.vehicles()[0].lane, LaneId(0));
    assert!(!w.apply_lane_change(0, LaneId(1), q(-0.1), &tight(9.0)), "before the pocket begins");
    assert!(!w.apply_lane_change(0, LaneId(1), q(400.1), &tight(9.0)), "beyond the lane");
    assert!(w.apply_lane_change(0, LaneId(1), q(100.0), &tight(5.6)));
    let v = &w.vehicles()[0];
    assert_eq!((v.lane, v.position), (LaneId(1), q(100.0)));
    assert_eq!(v.lane_change, Some(LaneChange { from: LaneId(0), progress: q(0.0) }));
    assert!(!w.fleet.settled(0, 1), "its history begins anew");
}

#[test]
fn a_parked_vehicle_looks_sideways_now_and_then() {
    let mut w = world(two_blocks());
    put(&mut w, 3, 0, 100.0, 0.0);
    w.fleet.rows[0].slept = true;
    let looks: Vec<bool> = (0..10)
        .map(|t| {
            w.tick = t;
            w.considers_lane_change(0)
        })
        .collect();
    assert_eq!(looks, vec![false, false, true, false, false, false, false, true, false, false]);
    w.fleet.rows[0].speed = q(0.02);
    assert!(w.considers_lane_change(0), "it rolls");
    w.fleet.rows[0].wreck = Some(3);
    assert!(!w.considers_lane_change(0));
}

#[test]
fn records_hold_the_constraints_of_a_vehicle() {
    let mut w = world(two_blocks());
    put(&mut w, 7, 0, 100.0, 10.0);
    put(&mut w, 8, 0, 120.0, 4.0);
    let free = w.free_context(0);
    assert_eq!(free.driver.desired_speed, q(15.0), "capped to the lane");
    let none = free.long_context();
    assert_eq!((none.leader, none.stop_line, none.curve, none.merge), (None, None, None, None));
    let queue = w.queue_context(0, 1, q(15.5)).long_context();
    assert_eq!(queue.leader, Some(Obstacle { gap: q(15.5), speed: q(4.0) }));
    let c = Constraints {
        leader: LeaderSource::Current(1),
        open_road: false,
        line: true,
        cover_brake: true,
        stop_sign: true,
        give_way: false,
    };
    let bend = SpeedTarget { speed: q(9.0), distance: q(45.0) };
    let g = ContextView {
        to_line: q(30.0),
        leader: Some(Obstacle { gap: q(15.5), speed: q(4.0) }),
        bend: Some(bend),
        red: Some(q(60.0)),
        bus: Some(q(25.0)),
        merge: None,
    };
    let m = Some(mv(&w.network, (0, 0), (1, 0)));
    let full = w.full_context(0, m, &c, &g).long_context();
    assert_eq!(full.stop_line, Some(q(25.0)), "the bus stop comes first");
    assert_eq!(full.speed_target, Some(SpeedTarget { speed: q(5.0), distance: q(30.0) }), "the brake is covered");
    assert_eq!((full.stop_sign, full.yield_line), (Some(q(30.0)), None));
    assert_eq!(full.curve, Some(bend));
    let red = w.full_context(0, m, &Constraints { line: false, ..c }, &ContextView { bus: None, ..g });
    assert_eq!(red.long_context().stop_line, Some(q(60.0)));
    let open = w.full_context(0, m, &Constraints { open_road: true, ..c }, &g).long_context();
    assert_eq!((open.stop_line, open.stop_sign, open.speed_target), (Some(q(25.0)), None, None));
    // the turn's own curvature, and a slower road beyond
    w.turn_caps[m.unwrap().0 as usize] = q(4.0);
    assert_eq!(w.turn_speed_cap(m.unwrap()), q(4.0));
    let turn = w.full_context(0, m, &c, &ContextView { to_line: q(3.0), ..g }).long_context();
    assert_eq!(turn.curve, Some(SpeedTarget { speed: q(4.0), distance: q(12.0) }));
    assert_eq!(turn.speed_target, Some(SpeedTarget { speed: q(4.0), distance: q(3.0) }));
}

#[test]
fn a_solvers_answers_come_back_to_their_vehicles() {
    let mut w = world(two_blocks());
    put(&mut w, 7, 0, 100.0, 10.0);
    let cx = w.free_context(0);
    let inputs = vec![
        AccelInput::Crossing(q(0.1)),
        AccelInput::Rolling(cx),
        AccelInput::Crossing(q(0.2)),
        AccelInput::Rolling(cx),
        AccelInput::Rolling(cx),
    ];
    assert_eq!(rolling_inputs(&inputs), vec![1, 3, 4]);
    let out = scatter_accels(&inputs, &vec![q(1.0), q(2.0), q(3.0)]);
    assert_eq!(out, vec![q(0.1), q(1.0), q(0.2), q(2.0), q(3.0)]);
    assert_eq!(scatter_accels(&vec![], &vec![]), vec![]);
}
