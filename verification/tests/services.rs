use net_world::backend::AccelBackend;
use net_world::control::{PoseUpdate, Survey};
use net_world::fleet::{Crossing, DriverConfig, NetVehicle, Sample};
use net_world::infrastructure::{closures_per_hour, BusHold, BusView, MeterSums};
use net_world::network::{
    BusStop, Conflict, Junction, Lane, LaneId, Link, LinkId, Movement, MovementId, Network, Node, NodeControl, NodeId,
    Program, RoadKind, SignalGroup, SignalState, TurnType,
};
use net_world::regions::ShardView;
use net_world::shards::Sharding;
use net_world::topology::RailPreempt;
use net_world::world::{BusDwell, NetWorld, SimConfig};
use net_world::Quantity;

fn q(x: f64) -> Quantity {
    let b = x.to_bits() as i64;
    Quantity::at(if b < 0 { b ^ i64::MAX } else { b })
}

/// A link: where from and to, its lanes, its kind, its speed and its length.
struct Road(u32, u32, u32, RoadKind, f64, f64);

/// A movement from a lane of one link to a lane of another.
struct Join {
    from: (u32, u32),
    to: (u32, u32),
    turn: TurnType,
    interchange: bool,
    group: Option<u32>,
    straight: f64,
}

fn join(from: (u32, u32), to: (u32, u32), turn: TurnType) -> Join {
    Join { from, to, turn, interchange: false, group: None, straight: 1.0 }
}

/// A network with the given links and movements. `meets` names pairs of
/// movements (by their place in `joins`) whose paths cross, with the arcs.
fn network(nodes: u32, roads: &[Road], joins: &[Join], meets: &[(usize, usize, f64, f64)]) -> Network {
    let mut net = Network {
        nodes: (0..nodes)
            .map(|i| Node {
                control: NodeControl::Uncontrolled,
                rail_crossing: false,
                junction: None,
                intersection: i,
                all_way_stop: false,
                conflicts: vec![],
            })
            .collect(),
        links: vec![],
        lanes: vec![],
        movements: vec![],
        conflicts: vec![],
        junctions: vec![],
        groups: vec![],
        programs: vec![],
        bus_stops: vec![],
        am_offsets: vec![],
        pm_offsets: vec![],
    };
    for r in roads {
        let rank = match r.3 {
            RoadKind::Freeway => 9,
            RoadKind::Ramp => 1,
            RoadKind::Surface(c) => c as u64,
        };
        net.links.push(Link {
            from: NodeId(r.0),
            to: NodeId(r.1),
            lane_start: LaneId(net.lanes.len() as u32),
            lane_count: r.2,
            kind: r.3,
            rank,
            speed_milli: (r.4 * 1000.0) as u64,
            travel_time_ms: (r.5 / r.4 * 1000.0) as u64,
            stop_line: false,
        });
        for k in 0..r.2 {
            net.lanes.push(Lane {
                link: LinkId(net.links.len() as u32 - 1),
                index_in_link: k,
                movement_start: MovementId(0),
                movement_count: 0,
                length: q(r.5),
                speed_limit: q(r.4),
                hov: false,
            });
        }
    }
    let lane_of = |net: &Network, (link, k): (u32, u32)| LaneId(net.links[link as usize].lane_start.0 + k);
    let mut place = vec![0usize; joins.len()];
    for l in 0..net.lanes.len() {
        net.lanes[l].movement_start = MovementId(net.movements.len() as u32);
        for (i, j) in joins.iter().enumerate() {
            if lane_of(&net, j.from).0 as usize != l {
                continue;
            }
            place[i] = net.movements.len();
            net.movements.push(Movement {
                from_lane: LaneId(l as u32),
                to_lane: lane_of(&net, j.to),
                node: net.links[j.from.0 as usize].to,
                turn: j.turn,
                interchange: j.interchange,
                continuation: j.interchange,
                straightness: q(j.straight),
                signal_group: j.group,
                points: vec![],
            });
            net.lanes[l].movement_count += 1;
        }
    }
    for &(a, b, sa, sb) in meets {
        let c = net.conflicts.len() as u32;
        let (a, b) = (place[a], place[b]);
        net.conflicts.push(Conflict { a: MovementId(a as u32), b: MovementId(b as u32), sa: q(sa), sb: q(sb) });
        net.movements[a].points.push(c);
        net.movements[b].points.push(c);
        let node = net.movements[a].node.0 as usize;
        net.nodes[node].conflicts.push(c);
    }
    net
}

/// The movement between two lanes, given as link and place.
fn mv(net: &Network, from: (u32, u32), to: (u32, u32)) -> MovementId {
    let lane = |(link, k): (u32, u32)| LaneId(net.links[link as usize].lane_start.0 + k);
    let i = net.movements.iter().position(|m| m.from_lane == lane(from) && m.to_lane == lane(to)).unwrap();
    MovementId(i as u32)
}

/// Every pair of nodes in one cluster shares a junction and an intersection.
fn cluster(net: &mut Network, nodes: &[u32]) {
    let j = net.junctions.len() as u32;
    for &n in nodes {
        net.nodes[n as usize].junction = Some(j);
        net.nodes[n as usize].intersection = nodes[0];
    }
    net.junctions.push(Junction { nodes: nodes.iter().map(|&n| NodeId(n)).collect() });
}

fn config() -> SimConfig {
    SimConfig { dt: q(0.2), seed: 7, sleep_scheduler: false, wreck_clear_secs: q(0.0), red_run_prob: q(0.0) }
}

fn world(net: Network) -> NetWorld {
    assert!(net.check(), "the network's tables fit together");
    let survey = Survey {
        link_straight: vec![true; net.links.len()],
        turn_caps: vec![q(f64::INFINITY); net.movements.len()],
        signals: vec![SignalState::Green; net.groups.len()],
        offsets: vec![q(0.0); net.programs.len()],
    };
    NetWorld::new(net, config(), survey)
}

fn car() -> DriverConfig {
    DriverConfig {
        desired_speed: q(30.0),
        accel_exponent: q(4.0),
        min_gap: q(2.0),
        time_headway: q(1.5),
        max_accel: q(1.4),
        comfort_decel: q(2.0),
        vehicle_length: q(4.5),
        reaction_time: q(0.6),
        accel_noise: q(0.0),
        politeness: q(0.3),
        critical_gap: q(4.0),
    }
}

fn put(w: &mut NetWorld, id: u32, lane: u32, position: f64, speed: f64) {
    w.spawn(id, LaneId(lane), q(position), q(speed), car(), [q(0.0); 3]);
}

/// The last vehicle enters the node at the end of its lane.
fn enter(w: &mut NetWorld, m: MovementId, arc: f64) {
    let v = w.fleet.rows.last_mut().unwrap();
    v.crossing = Some(Crossing { movement: m, lat_shift: q(0.0) });
    let len = w.network.lanes[v.lane.0 as usize].length;
    v.position = q(num(len) + arc);
}

fn num(x: Quantity) -> f64 {
    let b = if x.key < 0 { x.key ^ i64::MAX } else { x.key };
    f64::from_bits(b as u64)
}

const SURFACE: RoadKind = RoadKind::Surface(3);

/// A freeway with an on-ramp that joins at node 1, and a surface street.
fn freeway() -> Network {
    let roads = [
        Road(0, 1, 2, RoadKind::Freeway, 29.0, 600.0),
        Road(1, 2, 1, RoadKind::Freeway, 10.0, 600.0),
        Road(3, 1, 1, RoadKind::Ramp, 18.0, 417.0),
        Road(4, 3, 1, SURFACE, 15.0, 100.0),
    ];
    let mut joins = vec![
        join((0, 0), (1, 0), TurnType::Through),
        join((0, 1), (1, 0), TurnType::Through),
        join((2, 0), (1, 0), TurnType::Through),
        join((3, 0), (2, 0), TurnType::Through),
    ];
    for j in joins.iter_mut().take(3) {
        j.interchange = true;
    }
    network(5, &roads, &joins, &[])
}

fn straight(length: f64) -> Network {
    network(2, &[Road(0, 1, 1, SURFACE, 20.0, length)], &[], &[])
}

#[test]
fn a_new_world_is_empty() {
    let w = world(freeway());
    assert_eq!((w.vehicles().len(), w.exited(), w.leaked(), w.crashed()), (0, 0, 0, 0));
    assert_eq!((w.time(), w.tick, w.asleep_count()), (q(0.0), 0, 0));
    assert_eq!((w.par_threshold(), w.parallel_routing(), w.cache_sort()), (500, true, true));
    assert_eq!((w.ramp_metering(), w.ramp_meter_count(), w.congestion_active_links()), (false, 0, 0));
    assert_eq!((w.crash_counts(), w.kinematic_divergences(), w.wreck_clear_secs()), ([0, 0], 0, q(0.0)));
    assert!(w.link_entry_counts().iter().all(|&n| n == 0) && w.crash_log().is_empty());
    assert!(!w.router_knows(LinkId(0)) && w.router_dest_links().is_empty());
}

#[test]
fn active_backend_falls_back_when_a_backend_is_unavailable() {
    let mut w = world(freeway());
    assert_eq!(w.active_backend(), AccelBackend::Serial, "default is serial");
    // Requesting Gpu without a solver installed (enable_gpu_accel) runs serially.
    w.set_accel_backend(AccelBackend::Gpu);
    assert_eq!(w.active_backend(), AccelBackend::Serial);
    // Threads resolves to itself once the pool is ready.
    w.set_accel_backend(AccelBackend::Threads);
    assert_eq!(w.active_backend(), AccelBackend::Threads);
    w.set_threads_ready(false);
    assert_eq!(w.active_backend(), AccelBackend::Serial);
    assert_eq!(AccelBackend::from_name("threads"), AccelBackend::Threads);
    assert_eq!(AccelBackend::from_name("nonsense"), AccelBackend::Serial);
    // With an adapter the request stands, and a solver once installed stays.
    w.set_accel_backend(AccelBackend::Gpu);
    assert!(!w.enable_gpu_accel(false));
    assert!(w.enable_gpu_accel(true) && w.enable_gpu_accel(false));
    assert_eq!(w.active_backend(), AccelBackend::Gpu);
}

#[test]
fn switches_and_counters() {
    let mut w = world(straight(300.0));
    w.set_par_threshold(7);
    w.set_parallel_routing(false);
    assert_eq!((w.par_threshold(), w.parallel_routing(), w.route_field_width()), (7, false, 1));
    w.set_parallel_routing(true);
    assert_eq!((w.field_width(6), w.field_width(0)), (6, 1));
    assert_eq!(w.route_field_width(), rayon::current_num_threads().max(1));
    for (given, kept) in [(30.0, 30.0), (0.0, 0.0), (-4.0, 0.0), (f64::NAN, 0.0)] {
        w.set_wreck_clear_secs(q(given));
        assert_eq!(w.wreck_clear_secs(), q(kept));
    }
    put(&mut w, 4, 0, 10.0, 0.0);
    put(&mut w, 5, 0, 30.0, 0.0);
    put(&mut w, 4, 0, 50.0, 0.0);
    assert_eq!(w.vehicle(4).unwrap().position, q(10.0), "the first of that id");
    assert!(w.vehicle(9).is_none());
    assert_eq!(w.vehicle(5).unwrap().rear_axle(), [q(0.0), q(0.0)]);
    w.clear_vehicles();
    assert!(w.vehicles().is_empty());
    assert_eq!(w.link_entry_counts(), &[3], "the counters stay");
}

#[test]
fn poses_are_written_back() {
    let mut w = world(straight(300.0));
    for (id, speed) in [(1, 0.05), (2, 0.06), (3, 9.0)] {
        put(&mut w, id, 0, 10.0 * id as f64, speed);
    }
    assert_eq!((0..3).map(|i| w.follows_wheels(i)).collect::<Vec<bool>>(), vec![false, true, true]);
    let to = |x: f64, diverged: bool| Some(PoseUpdate { kin: [q(x), q(2.0), q(0.5)], steer: q(0.1), diverged });
    w.write_poses(&vec![None, to(7.0, false), to(8.0, true)]);
    assert_eq!(w.kinematic_divergences(), 1);
    let front: Vec<[Quantity; 2]> = w.vehicles().iter().map(|v| v.rear_axle()).collect();
    assert_eq!(front, vec![[q(0.0), q(0.0)], [q(7.0), q(2.0)], [q(8.0), q(2.0)]]);
    assert_eq!((w.vehicles()[2].steer, w.vehicles()[2].position), (q(0.1), q(30.0)));
    w.write_poses(&vec![None, None, to(9.0, true)]);
    assert_eq!(w.kinematic_divergences(), 2);
}

#[test]
fn vehicles_are_counted_per_link() {
    let mut w = world(freeway());
    put(&mut w, 1, 0, 10.0, 20.0);
    put(&mut w, 2, 1, 20.0, 25.0);
    put(&mut w, 3, 3, 400.0, 9.0);
    let m = mv(&w.network, (2, 0), (1, 0));
    enter(&mut w, m, 2.0);
    assert_eq!(w.link_counts(), vec![2, 0, 1, 0]);
    assert_eq!(w.rolling_counts(), vec![2, 0, 0, 0], "one is inside a node");
    assert_eq!(w.link_vehicles(LinkId(0)), vec![0, 1]);
    assert_eq!(w.link_vehicles(LinkId(1)), Vec::<usize>::new());
}

#[test]
fn the_fingerprint_follows_the_bands() {
    let mut w = world(freeway());
    assert_eq!(w.congestion_fingerprint(&vec![1, 1, 1, 1]), 0, "no traffic");
    put(&mut w, 1, 0, 10.0, 20.0);
    put(&mut w, 2, 3, 10.0, 20.0);
    assert_eq!(w.congestion_fingerprint(&vec![0, 0, 0, 0]), 0, "light traffic");
    let mix = |link: u64, band: u64| {
        link.wrapping_mul(0x9e3779b97f4a7c15) ^ (band + 1).wrapping_mul(0x100000001b3)
    };
    assert_eq!(w.congestion_fingerprint(&vec![2, 0, 0, 0]), mix(0, 2));
    assert_eq!(w.congestion_fingerprint(&vec![2, 9, 1, 9]), mix(0, 2).wrapping_add(mix(2, 1)));
    // another vehicle in the same band changes nothing
    let before = w.congestion_fingerprint(&vec![2, 0, 1, 0]);
    put(&mut w, 3, 0, 50.0, 20.0);
    assert_eq!(w.congestion_fingerprint(&vec![2, 0, 1, 0]), before);
}

#[test]
fn routes_are_refreshed_when_congestion_moves() {
    let roads = [
        Road(0, 1, 1, SURFACE, 20.0, 100.0),
        Road(1, 2, 1, SURFACE, 20.0, 100.0),
        Road(1, 3, 1, SURFACE, 20.0, 100.0),
        Road(2, 4, 1, SURFACE, 20.0, 100.0),
        Road(3, 4, 1, SURFACE, 20.0, 100.0),
        Road(4, 5, 1, SURFACE, 20.0, 100.0),
    ];
    let joins = [
        join((0, 0), (1, 0), TurnType::Left),
        join((0, 0), (2, 0), TurnType::Right),
        join((1, 0), (3, 0), TurnType::Through),
        join((2, 0), (4, 0), TurnType::Through),
        join((3, 0), (5, 0), TurnType::Through),
        join((4, 0), (5, 0), TurnType::Through),
    ];
    let mut w = world(network(6, &roads, &joins, &[]));
    let free = vec![5000; 6];
    w.install_router(&vec![LinkId(5)], &free);
    assert!(w.router_knows(LinkId(5)) && !w.router_knows(LinkId(0)));
    assert_eq!(w.router_dest_links(), vec![LinkId(5)]);
    w.spawn_to_in_lane(1, LaneId(0), q(10.0), LinkId(5), q(5.0), car(), [q(0.0); 3]);
    put(&mut w, 2, 1, 50.0, 0.0);
    let hop = |w: &NetWorld| w.next_link_on_path(&w.vehicles()[0]);
    assert_eq!(hop(&w), Some(LinkId(1)));
    let (bands, jam) = (vec![0, 3, 0, 0, 0, 0], vec![5000, 50_000, 5000, 5000, 5000, 5000]);
    w.refresh_routes(&bands, 10, &jam);
    assert_eq!(hop(&w), Some(LinkId(1)), "not long enough since the last time");
    w.tick = 10;
    w.set_external_reroute(true);
    w.refresh_routes(&bands, 10, &jam);
    assert_eq!(hop(&w), Some(LinkId(1)), "someone else does it");
    w.set_external_reroute(false);
    w.refresh_routes(&bands, 10, &jam);
    assert_eq!(hop(&w), Some(LinkId(2)), "around the jam");
    assert_eq!((w.route_cycle_tick, w.route_fingerprint), (10, w.congestion_fingerprint(&bands)));
    w.tick = 100;
    w.refresh_routes(&bands, 10, &free);
    assert_eq!(hop(&w), Some(LinkId(2)), "nothing has moved since");
    // while a recompute is in flight none begins
    if let Some(r) = w.router.as_mut() {
        r.begin_recompute(&w.network, &free, 1);
    }
    w.refresh_routes(&vec![0, 1, 0, 0, 0, 0], 10, &jam);
    assert_eq!((hop(&w), w.route_cycle_tick), (Some(LinkId(1)), 10), "the one in flight came to its end");
    w.refresh_routes(&vec![0, 1, 0, 0, 0, 0], 10, &jam);
    assert_eq!((hop(&w), w.route_cycle_tick), (Some(LinkId(2)), 100));
    // distances from outside lead the other way again
    w.feed_router_distances(&free, &vec![vec![10, 1, 9, 1, 9, 0]]);
    assert_eq!(hop(&w), Some(LinkId(1)));
}

#[test]
fn ramps_that_join_a_freeway_are_metered() {
    let mut w = world(freeway());
    w.set_ramp_metering(true);
    assert_eq!(w.ramp_meter_count(), 1, "the on-ramp is discovered");
    assert_eq!((w.meters[0].ramp, w.meters[0].mainline), (LinkId(2), LinkId(0)));
    assert_eq!(w.meter_rate(LinkId(2)), Some(q(900.0)));
    assert_eq!(w.meter_rate(LinkId(0)), None);
    assert!(!w.meter_red(LinkId(2)), "green at the start of a cycle");
    let sums = |since: f64, cycle: f64| {
        vec![MeterSums {
            since: q(since),
            cycle: q(cycle),
            rate: q(240.0),
            headway_kept: q(4.0),
            headway_adapted: q(15.0),
        }]
    };
    w.advance_meters(&sums(3.0, 3.0));
    assert!(w.meter_red(LinkId(2)) && !w.meter_red(LinkId(0)));
    assert_eq!((w.meters[0].since_update, w.meters[0].cycle_t), (q(3.0), q(3.0)));
    w.advance_meters(&sums(5.0, 4.0));
    assert_eq!(w.meters[0].cycle_t, q(0.0), "the next cycle begins");
    w.advance_meters(&sums(30.0, 4.0));
    assert_eq!(w.meter_rate(LinkId(2)), Some(q(240.0)), "adapted");
    assert_eq!((w.meters[0].since_update, w.meters[0].cycle_t), (q(0.0), q(4.0)), "by the new headway");
    w.set_ramp_metering(false);
    assert!(!w.ramp_metering() && !w.meter_red(LinkId(2)));
    w.advance_meters(&sums(99.0, 99.0));
    assert_eq!(w.meters[0].cycle_t, q(4.0), "off, it stands still");
    assert_eq!(w.build_ramp_meters().len(), 1);
}

#[test]
fn the_evening_plan_runs_from_noon() {
    let mut net = straight(100.0);
    net.programs = vec![
        Program { phases: vec![1], coordinated: true },
        Program { phases: vec![1], coordinated: false },
    ];
    net.am_offsets = vec![q(10.0), q(20.0)];
    net.pm_offsets = vec![q(30.0), q(40.0)];
    let mut w = world(net);
    w.set_day_secs(q(43_199.0), q(1.0));
    assert_eq!((w.pm_plan, w.offsets.clone()), (false, vec![q(0.0), q(0.0)]));
    w.set_day_secs(q(43_200.0), q(1.0));
    assert_eq!((w.pm_plan, w.offsets.clone()), (true, vec![q(30.0), q(0.0)]), "the coordinated ones only");
    w.set_day_secs(q(100.0), q(7.0));
    assert_eq!((w.pm_plan, w.offsets.clone(), w.rail_since), (false, vec![q(10.0), q(0.0)], q(7.0)));
    let mut plain = world(straight(100.0));
    plain.set_day_secs(q(50_000.0), q(0.0));
    assert!(!plain.pm_plan, "without a second plan there is nothing to load");
}

#[test]
fn trains_keep_a_timetable() {
    for (hour, per_hour) in [(3.0, 1), (4.9, 1), (5.0, 4), (6.0, 10), (8.9, 10), (9.0, 4), (16.0, 10), (18.9, 10), (19.0, 4), (23.5, 4)] {
        assert_eq!(closures_per_hour(q(hour)), per_hour, "at {hour}");
    }
}

/// A railway crossing just before a signalled cross street.
fn railway() -> Network {
    let roads = [
        Road(0, 1, 1, SURFACE, 13.0, 220.0),
        Road(1, 2, 1, SURFACE, 13.0, 80.0),
        Road(2, 3, 1, SURFACE, 13.0, 300.0),
        Road(4, 2, 1, SURFACE, 12.0, 250.0),
        Road(2, 5, 1, SURFACE, 12.0, 250.0),
    ];
    let mut joins = vec![
        join((0, 0), (1, 0), TurnType::Through),
        join((1, 0), (2, 0), TurnType::Through),
        join((3, 0), (4, 0), TurnType::Through),
    ];
    joins[1].group = Some(0);
    joins[2].group = Some(1);
    let mut net = network(6, &roads, &joins, &[(1, 2, 5.0, 5.0)]);
    net.nodes[1].rail_crossing = true;
    net.nodes[2].control = NodeControl::Signalized(0);
    net.programs = vec![Program { phases: vec![0b10, 0b01], coordinated: false }];
    net.groups = vec![SignalGroup { program: 0, bit: 0 }, SignalGroup { program: 0, bit: 1 }];
    net
}

#[test]
fn a_passing_train_forces_the_phase_that_clears_the_tracks() {
    let mut w = world(railway());
    assert_eq!(w.topology.rail_preempts, vec![RailPreempt { program: 0, phase: 1, crossing: NodeId(1) }]);
    w.set_day_secs(q(43_200.0), q(44.9));
    assert_eq!(w.forced_phases(), vec![Some(1)]);
    w.set_day_secs(q(43_200.0), q(45.0));
    assert_eq!(w.forced_phases(), vec![None]);
    let mut far = railway();
    far.lanes[1].length = q(121.0);
    assert!(world(far).topology.rail_preempts.is_empty(), "the signal is too far away");
}

#[test]
fn detectors_call_for_their_own_lane() {
    let mut w = world(freeway());
    put(&mut w, 1, 0, 590.0, 20.0);
    put(&mut w, 2, 1, 100.0, 20.0);
    let to_end = vec![q(10.0), q(500.0)];
    assert_eq!(w.lane_demand(&to_end, q(30.0)), vec![true, false, false, false, false]);
    assert_eq!(w.lane_demand(&to_end, q(10.0)), vec![false; 5]);
}

#[test]
fn buses_serve_their_stops() {
    let mut net = straight(300.0);
    net.bus_stops = vec![BusStop { link: LinkId(0), arc: q(100.0) }, BusStop { link: LinkId(0), arc: q(200.0) }];
    let mut w = world(net);
    put(&mut w, 1, 0, 50.0, 10.0);
    let view = |passed: f64, served: f64| BusView { passed: q(passed), served: q(served) };
    assert_eq!(w.bus_stop_line(&w.vehicles()[0], &view(49.0, 0.0)), BusHold::Nowhere, "a car");
    w.fleet.rows[0].driver.vehicle_length = q(12.0);
    assert_eq!(w.bus_stop_line(&w.vehicles()[0], &view(49.0, 0.0)), BusHold::At(0));
    assert_eq!(w.bus_stop_line(&w.vehicles()[0], &view(100.0, 0.0)), BusHold::At(1), "past the first");
    w.network.bus_stops.swap(0, 1);
    assert_eq!(w.bus_stop_line(&w.vehicles()[0], &view(49.0, 0.0)), BusHold::At(1), "the next, however they are listed");
    w.network.bus_stops.swap(0, 1);
    let near = vec![q(3.4), q(103.4)];
    assert_eq!(w.bus_arrival(&w.vehicles()[0], q(0.0), &near), None, "it still rolls");
    w.fleet.rows[0].speed = q(0.5);
    assert_eq!(w.bus_arrival(&w.vehicles()[0], q(0.0), &near), Some(0));
    assert_eq!(w.bus_arrival(&w.vehicles()[0], q(0.0), &vec![q(3.5), q(103.4)]), None, "not there yet");
    w.tick = 5;
    w.start_dwell(1, 0, 125);
    assert_eq!(w.bus_dwell[&1], BusDwell { until: 130, link: LinkId(0), arc: q(100.0) });
    assert_eq!(w.bus_stop_line(&w.vehicles()[0], &view(99.0, 101.0)), BusHold::Here);
    assert_eq!(w.bus_arrival(&w.vehicles()[0], q(101.0), &near), None, "it is being served");
    w.tick = 130;
    assert_eq!(w.bus_stop_line(&w.vehicles()[0], &view(99.0, 101.0)), BusHold::At(1), "the next stop");
    assert_eq!(w.bus_arrival(&w.vehicles()[0], q(101.0), &near), None, "not served twice");
}

#[test]
fn a_pass_over_the_buses_serves_all_that_arrived() {
    let mut net = straight(300.0);
    net.bus_stops = vec![BusStop { link: LinkId(0), arc: q(100.0) }];
    let mut w = world(net);
    for (id, pos) in [(1, 99.0), (2, 50.0), (3, 98.0)] {
        put(&mut w, id, 0, pos, 0.0);
        w.fleet.rows.last_mut().unwrap().driver.vehicle_length = q(12.0);
    }
    w.fleet.rows[2].driver.vehicle_length = q(4.5);
    w.start_dwell(9, 0, 1);
    w.tick = 7;
    let dists = vec![vec![q(1.0)], vec![q(50.0)], vec![q(2.0)]];
    w.advance_bus_stops(&vec![q(f64::MIN); 3], &dists, 125);
    assert_eq!(w.bus_dwell[&1], BusDwell { until: 132, link: LinkId(0), arc: q(100.0) });
    assert_eq!(w.bus_dwell.len(), 2, "one is too far, one is a car, one has left but is not forgotten yet");
    w.tick = 2048;
    w.advance_bus_stops(&vec![q(104.0); 3], &dists, 125);
    assert_eq!(w.bus_dwell.len(), 1);
}

#[test]
fn buses_that_left_are_forgotten_in_time() {
    let mut net = straight(300.0);
    net.bus_stops = vec![BusStop { link: LinkId(0), arc: q(100.0) }];
    let mut w = world(net);
    put(&mut w, 1, 0, 50.0, 10.0);
    w.start_dwell(1, 0, 10);
    w.start_dwell(2, 0, 10);
    w.tick = 1023;
    w.sweep_bus_dwell();
    assert_eq!(w.bus_dwell.len(), 2);
    w.tick = 1024;
    w.sweep_bus_dwell();
    assert!(w.bus_dwell.len() == 1 && w.bus_dwell.contains_key(&1));
}

/// Four nodes in a row, the middle two in one junction.
fn row_of_nodes() -> Network {
    row_with_junction(&[1, 2])
}

fn row_with_junction(nodes: &[u32]) -> Network {
    let roads = [
        Road(0, 1, 1, SURFACE, 15.0, 100.0),
        Road(1, 2, 1, SURFACE, 15.0, 10.0),
        Road(2, 3, 1, SURFACE, 15.0, 100.0),
    ];
    let joins = [join((0, 0), (1, 0), TurnType::Through), join((1, 0), (2, 0), TurnType::Through)];
    let mut net = network(4, &roads, &joins, &[]);
    cluster(&mut net, nodes);
    net
}

#[test]
fn shards_own_whole_junctions() {
    let net = row_of_nodes();
    for count in [1usize, 2, 3, 8] {
        let s = Sharding::build_with(&net, count);
        assert_eq!((s.count, s.units), (count, 3));
        assert_eq!(s.home_of(LaneId(0)), s.home_of(LaneId(1)), "both end in the junction");
        assert_eq!(s.entry_of(LaneId(1)), s.entry_of(LaneId(2)), "both begin in it");
        assert_eq!(s.home_of(LaneId(0)), s.entry_of(LaneId(1)), "a landing is owned by whoever resolves it");
    }
    let s = Sharding::build_with(&net, 3);
    assert_eq!(s.unit_of, vec![1, 0, 0, 2], "junctions first, then the other nodes");
    // the junction goes to the first shard, the others to the least loaded ones
    assert_eq!((s.home_of(LaneId(0)), s.entry_of(LaneId(0)), s.home_of(LaneId(2))), (0, 1, 2));
}

#[test]
fn shards_are_dealt_anew_by_load() {
    let net = row_of_nodes();
    let mut s = Sharding::build_with(&net, 2);
    assert_eq!((s.entry_of(LaneId(0)), s.home_of(LaneId(2))), (1, 1), "the junction has two nodes");
    s.rebalance(&net, &vec![1, 50, 1]);
    assert_eq!((s.home_of(LaneId(0)), s.entry_of(LaneId(0)), s.home_of(LaneId(2))), (0, 1, 0));
    let dealt = (s.lane_home.clone(), s.lane_entry.clone());
    s.rebalance(&net, &vec![1, 1, 1]);
    assert_eq!((s.home_of(LaneId(0)), s.entry_of(LaneId(0)), s.home_of(LaneId(2))), (0, 1, 0), "equal units in turn");
    s.rebalance(&net, &vec![1, 50, 1, 7, 7]);
    assert_eq!((s.lane_home, s.lane_entry), dealt, "what is listed beyond the units does not count");
}

#[test]
fn two_builds_of_one_network_agree() {
    let net = row_of_nodes();
    for count in [1usize, 2, 5] {
        let (a, b) = (Sharding::build_with(&net, count), Sharding::build_with(&net, count));
        assert_eq!((&a.lane_home, &a.lane_entry, &a.unit_of), (&b.lane_home, &b.lane_entry, &b.unit_of));
    }
}

#[test]
fn there_are_no_more_shards_than_threads() {
    assert_eq!((Sharding::clamp_to(0, 4), Sharding::clamp_to(3, 4), Sharding::clamp_to(9, 4)), (1, 3, 4));
    assert_eq!(Sharding::clamp_to(5, 0), 1);
    let threads = rayon::current_num_threads().max(1);
    assert_eq!(Sharding::clamp_count(1_000_000), threads);
    assert_eq!(Sharding::build(&row_of_nodes(), 1_000_000).count, threads);
    assert_eq!(Sharding::build(&row_of_nodes(), usize::MAX).count, threads);
    assert_eq!(Sharding::build(&row_of_nodes(), 0).count, 1);
}

#[test]
fn regions_hold_the_rows_apart_and_lose_none() {
    let mut w = world(straight(300.0));
    for id in 0..6 {
        put(&mut w, id, 0, 10.0 * id as f64, 0.0);
    }
    let rows: Vec<NetVehicle> = w.vehicles().to_vec();
    let homes = vec![2, 0, 2, 1, 0, 2];
    let mut changed = rows[4].clone();
    changed.speed = q(7.0);
    let mut expected = rows.clone();
    expected[4] = changed.clone();
    for mut view in [ShardView::shared(rows.clone()), ShardView::regions(rows.clone(), &homes, 3)] {
        for (i, r) in rows.iter().enumerate() {
            assert_eq!(view.row(i), r);
        }
        let placed = |v: &ShardView| if let ShardView::Regions { index, .. } = v { index.clone() } else { vec![] };
        let before = placed(&view);
        view.set_row(4, changed.clone());
        assert_eq!(placed(&view), before, "rows stay where they are");
        assert_eq!((view.row(4), view.row(3)), (&changed, &rows[3]));
        assert_eq!(view.merge(), expected);
    }
    if let ShardView::Regions { bufs, index } = ShardView::regions(rows, &homes, 3) {
        assert_eq!(index, vec![(2, 0), (0, 0), (2, 1), (1, 0), (0, 1), (2, 2)]);
        assert_eq!(bufs.iter().map(|b| b.len()).collect::<Vec<usize>>(), vec![2, 1, 3]);
    } else {
        panic!("each shard has a buffer of its own");
    }
}

#[test]
fn memory_order_goes_by_lane_and_position() {
    let mut w = world(row_with_junction(&[2, 3]));
    for (id, lane, pos) in [(1, 2, 5.0), (2, 0, 50.0), (3, 1, 2.0), (4, 0, 10.0), (5, 0, -0.0), (6, 0, 0.0)] {
        put(&mut w, id, lane, pos, 1.0);
    }
    w.fleet.reset_history(0, Sample { position: q(5.0), speed: q(9.0) });
    let ids = |w: &NetWorld| w.vehicles().iter().map(|v| v.id).collect::<Vec<u32>>();
    w.locality_reorder();
    assert_eq!(ids(&w), vec![5, 6, 4, 2, 3, 1]);
    assert_eq!(w.fleet.delayed(5, 0).speed, q(9.0), "histories move with their rows");
    let s = Sharding::build_with(&w.network, 2);
    assert!(s.home_of(LaneId(1)) < s.home_of(LaneId(0)));
    w.sharding = Some(s);
    w.fleet.rows.swap(0, 5);
    w.fleet.rows.swap(1, 2);
    w.locality_reorder();
    assert_eq!(ids(&w), vec![6, 5, 4, 2, 3, 1], "whatever shards own the lanes; equal places keep their order");
}
