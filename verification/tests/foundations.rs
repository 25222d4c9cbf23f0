use net_world::backend::{map_collect, pool_width, shard_map, usable_width, AccelBackend, DEFAULT_PAR_THRESHOLD, LIGHT_PAR_THRESHOLD};
use net_world::groups::GroupMap;
use net_world::sorting::sort_members;
use net_world::{boundary, boxes, context, control, infrastructure, intent, lanes, leading, neighbors, occupancy, quantity, rooms, topology, yielding};
use net_world::Quantity;

fn q(x: f64) -> Quantity {
    let b = x.to_bits() as i64;
    Quantity::at(if b < 0 { b ^ i64::MAX } else { b })
}

#[test]
fn places_compare_as_the_numbers_do() {
    let xs = [
        f64::NEG_INFINITY, f64::MIN, -3.5, -1.0, -1e-300, -0.0, 0.0, 5e-324, 0.3, 1.0, 1.0 + f64::EPSILON, 9.0, f64::MAX,
        f64::INFINITY, f64::NAN, -f64::NAN,
    ];
    for a in xs {
        assert_eq!(q(a).finite(), a.is_finite(), "{a}");
        for b in xs {
            assert_eq!(q(a).below(q(b)), a < b, "{a} < {b}");
            assert_eq!(q(a).at_most(q(b)), a <= b, "{a} <= {b}");
            assert_eq!(q(a).same(q(b)), a == b, "{a} == {b}");
            assert_eq!(q(a).key.cmp(&q(b).key), a.total_cmp(&b), "{a} {b}");
            let least = a.min(b);
            if least.is_nan() {
                assert!(!q(a).least(q(b)).at_most(q(0.0)) && !q(0.0).at_most(q(a).least(q(b))));
            } else {
                assert!(q(a).least(q(b)).same(q(least)), "min {a} {b}");
            }
        }
    }
    assert!(q(-1.0).before(q(2.0)) && !q(-0.0).before(q(0.0)) && !q(2.0).before(q(2.0)));
    assert_eq!(q(-0.0).line_place(), q(0.0).line_place());
}

#[test]
fn thresholds_stand_for_their_numbers() {
    let table = [
        (boundary::COMMITTED_SPEED_SQ, 36.0),
        (boundary::STOP_WINDOW, 5.0),
        (boundary::CHANGE_DONE, 1.0),
        (boundary::BLEND_LIMIT, 0.97),
        (boxes::DEPARTING_SPEED, 3.0),
        (boxes::CLAIM_REACH, 1.5),
        (boxes::SHALLOWEST_HOLD, 1.0),
        (infrastructure::NOON, 12.0 * 3600.0),
        (infrastructure::METER_START_VPH, 900.0),
        (infrastructure::METER_PERIOD_SECS, 30.0),
        (infrastructure::BUS_LENGTH, 11.0),
        (infrastructure::STOP_REACH, 3.5),
        (infrastructure::HOUR_5, 5.0),
        (infrastructure::HOUR_6, 6.0),
        (infrastructure::HOUR_9, 9.0),
        (infrastructure::HOUR_16, 16.0),
        (infrastructure::HOUR_19, 19.0),
        (intent::MOVE_EPS, 0.3),
        (intent::LEADER_PERCEPTION, 120.0),
        (intent::STOP_QUEUE_GAP, 12.0),
        (intent::DECISION_HORIZON, 180.0),
        (intent::LAUNCH_SPEED, 2.0),
        (intent::COMMIT_SPEED, 3.0),
        (lanes::SLEEP_SPEED_EPS, 0.02),
        (leading::MERGE_APPROACH, 45.0),
        (leading::SIGNAL_LOOKAHEAD, 90.0),
        (neighbors::MOVING_SPEED, 0.5),
        (occupancy::MAX_FINITE, f64::MAX),
        (quantity::INFINITY, f64::INFINITY),
        (quantity::ZERO, 0.0),
        (rooms::RAIL_CLOSURE_SECS, 45.0),
        (rooms::METER_GREEN_SECS, 2.5),
        (topology::RAIL_ADJACENT, 120.0),
        (yielding::PARALLEL_ANGLE, 0.6),
        (yielding::HEAVY_LENGTH, 8.0),
        (context::TURN_LOOKAHEAD, 12.0),
        (context::COVER_SPEED, 5.0),
        (control::PARKED_SPEED, 0.05),
        (yielding::OPPOSING_ANGLE, 2.5),
    ];
    for (key, number) in table {
        assert_eq!(Quantity::at(key), q(number), "{number}");
    }
    assert_eq!((DEFAULT_PAR_THRESHOLD, LIGHT_PAR_THRESHOLD), (500, 8000));
}

#[test]
fn map_collect_matches_serial_on_every_backend() {
    let n = 5000;
    let serial: Vec<usize> = (0..n).map(|i| i * i + 7).collect();
    for backend in [AccelBackend::Serial, AccelBackend::Threads, AccelBackend::Gpu] {
        assert_eq!(map_collect(backend, 0, n, |i| i * i + 7), serial, "backend {backend:?}");
    }
}

#[test]
fn a_small_map_stays_in_order_below_the_threshold() {
    for n in [0usize, 1, 7] {
        let got = map_collect(AccelBackend::Threads, 500, n, |i| 100 - i);
        assert_eq!(got, (0..n).map(|i| 100 - i).collect::<Vec<usize>>());
    }
}

#[test]
fn shards_report_in_their_order() {
    let rosters: Vec<Vec<u32>> = (0..50).map(|s| (0..s).collect()).collect();
    let sums = shard_map(&rosters, |s: usize, r: &Vec<u32>| (s, r.iter().sum::<u32>()));
    let plain: Vec<(usize, u32)> = rosters.iter().enumerate().map(|(s, r)| (s, r.iter().sum())).collect();
    assert_eq!(sums, plain);
}

#[test]
fn the_pool_has_a_thread() {
    assert_eq!(pool_width(), rayon::current_num_threads().max(1));
    assert_eq!((usable_width(0), usable_width(1), usable_width(12)), (1, 1, 12));
}

#[test]
fn backends_have_names() {
    for b in [AccelBackend::Serial, AccelBackend::Threads, AccelBackend::Gpu] {
        assert_eq!(AccelBackend::from_name(b.name()), b);
    }
    assert_eq!(AccelBackend::Serial.name(), "serial");
    assert_eq!(AccelBackend::Threads.name(), "threads");
    assert_eq!(AccelBackend::Gpu.name(), "gpu");
    assert_eq!(AccelBackend::from_name("Threads"), AccelBackend::Serial);
    assert_eq!(AccelBackend::from_name(""), AccelBackend::Serial);
}

#[test]
fn dense_groupmap_handles_out_of_range_keys() {
    let mut g: GroupMap<usize> = GroupMap::default();
    g.reserve_dense(4);
    g.begin_tick();
    g.push(1, 10); // in the dense array
    g.push(u32::MAX, 20); // out of range -> hash map
    g.push(1, 11);
    g.push(u32::MAX, 21);
    assert_eq!(g.get(&1), Some(&vec![10, 11]));
    assert_eq!(g.get(&u32::MAX), Some(&vec![20, 21]));
    assert_eq!(g.len(), 2, "two touched groups across both stores");
    let mut seen: Vec<(u32, usize)> = g.iter().iter().map(|(k, v)| (*k, v.len())).collect();
    seen.sort();
    assert_eq!(seen, vec![(1, 2), (u32::MAX, 2)]);
    // A second tick clears both stores' touched buckets.
    g.begin_tick();
    assert_eq!(g.get(&1), None);
    assert_eq!(g.get(&u32::MAX), None);
    assert_eq!(g.len(), 0);
}

#[test]
fn the_array_changes_nothing_but_speed() {
    let (mut dense, mut hashed) = (GroupMap::new(), GroupMap::new());
    dense.reserve_dense(3);
    for tick in 0..3u32 {
        dense.begin_tick();
        hashed.begin_tick();
        for i in 0..20u32 {
            let key = (i * 7 + tick) % 6;
            dense.push(key, i);
            hashed.push(key, i);
        }
        assert_eq!(dense.len(), hashed.len());
        for i in 0..dense.len() {
            assert_eq!(dense.group_at(i), hashed.group_at(i));
        }
        for k in 0..8 {
            assert_eq!(dense.get(&k), hashed.get(&k));
        }
    }
    let (key, group) = dense.group_mut_at(0);
    group.reverse();
    let first = *group.first().unwrap();
    assert_eq!(dense.get(&key).unwrap()[0], first);
}

#[test]
fn groups_sort_by_key_and_keep_the_order_of_equals() {
    let keys: Vec<i128> = vec![5, 3, 5, -1, 3, 9];
    assert_eq!(sort_members(&vec![5, 4, 3, 2, 1, 0], &keys), vec![3, 4, 1, 2, 0, 5]);
    assert_eq!(sort_members(&vec![0, 1, 2, 3, 4, 5], &keys), vec![3, 1, 4, 0, 2, 5]);
    assert_eq!(sort_members(&vec![2, 0], &keys), vec![2, 0]);
    assert_eq!(sort_members(&vec![], &keys), Vec::<usize>::new());
}
