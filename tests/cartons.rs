use webtric::{CartonsComplex, CartonsMap, CartonsMetric, DragSession, Error, ResizeRecord, Sizon, RATIO_ONE};
use webtric::{parse_dataset, size_pos_props, update_style};

fn metric_of(sizes: &[(u64, Option<u32>)]) -> CartonsMetric {
    let list: Vec<(u64, Option<Sizon>)> = sizes.iter().map(|(id, s)| (*id, s.map(Sizon::abs))).collect();
    CartonsMap::new(list, None)
}

fn group(independent: bool, sizes: &[(u64, Option<u32>)], min: u32, max: Option<u32>, zero: bool, threshold: u32) -> CartonsComplex {
    let max_sizon = match max {
        Some(m) => Sizon::abs(m),
        None => Sizon::default(),
    };
    CartonsComplex::new(
        true,
        independent,
        None,
        metric_of(sizes),
        CartonsMap::new(vec![], Sizon::abs(min)),
        CartonsMap::new(vec![], max_sizon),
        CartonsMap::new(vec![], zero),
        CartonsMap::new(vec![], Sizon::abs(threshold)),
        CartonsMap::new(vec![], 0),
    )
}

fn empty_record() -> ResizeRecord {
    ResizeRecord { zeroed_cache: vec![], zero_restored: vec![] }
}

#[test]
fn sizon_max_and_min() {
    let s = Sizon::new(Some(20), Some(RATIO_ONE / 2));
    assert_eq!(s.max(30, None), 30);
    assert_eq!(s.max(30, Some(100)), 50);
    let t = Sizon::new(Some(20), Some(RATIO_ONE / 10));
    assert_eq!(t.min(30, None), 20);
    assert_eq!(t.min(30, Some(100)), 10);
    assert_eq!(Sizon::abs(20).max_abs(30), 30);
    assert_eq!(Sizon::abs(20).min_abs(30), 20);
    assert_eq!(Sizon::rel(200_000).max_rel(300_000), 300_000);
    assert_eq!(Sizon::rel(200_000).min_rel(300_000), 200_000);
}

#[test]
fn sizon_to_abs() {
    assert_eq!(Sizon::new(Some(7), Some(RATIO_ONE)).to_abs(100), Some(7));
    assert_eq!(Sizon::rel(RATIO_ONE / 4).to_abs(200), Some(50));
    assert_eq!(Sizon::default().to_abs(200), None);
}

#[test]
fn cartons_map_get_with_fallback() {
    let map: CartonsMap<u32> = CartonsMap::new(vec![(0, 10), (1, 20)], 0);
    let map2: CartonsMap<u32> = CartonsMap::new(vec![(0, 10)], 20);
    assert_eq!(*map.get(&0), 10);
    assert_eq!(*map2.get(&0), 10);
    assert_eq!(*map.get(&1), 20);
    assert_eq!(*map2.get(&1), 20);
    assert_eq!(*map.get(&2), 0);
    assert_eq!(*map2.get(&2), 20);
}

#[test]
fn cartons_map_later_pair_wins_and_insert_remove() {
    let mut map: CartonsMap<u32> = CartonsMap::new(vec![(5, 1), (5, 2)], 9);
    assert_eq!(*map.get(&5), 2);
    map.insert(5, 3);
    assert_eq!(*map.get(&5), 3);
    map.insert(6, 4);
    assert_eq!(*map.get(&6), 4);
    map.remove(&5);
    assert_eq!(*map.get(&5), 9);
    assert_eq!(*map.get(&6), 4);
}

#[test]
fn fill_blank_two_pass_stops_at_max() {
    let g = group(false, &[(1, Some(40)), (2, Some(40))], 0, Some(60), false, 0);
    let r = g.wrap_effect_on_update(150, &vec![1, 2]);
    assert_eq!(r.data_sizes, vec![(1, Some(60)), (2, Some(60))]);
    assert_eq!(r.total_size, 120);
}

#[test]
fn reconcile_fills_container_when_room_suffices() {
    let g = group(false, &[(1, Some(40)), (2, Some(40)), (3, Some(20))], 0, Some(200), false, 0);
    let r = g.wrap_effect_on_update(300, &vec![1, 2, 3]);
    let sum: u32 = r.data_sizes.iter().map(|(_, s)| s.unwrap_or(0)).sum();
    assert_eq!(sum, 300);
    assert_eq!(r.total_size, 300);
}

#[test]
fn cache_priority_on_reversed_drag() {
    let g = group(false, &[(1, Some(100)), (2, Some(100)), (3, Some(100))], 50, None, false, 0);
    let cartons = vec![(1, 100), (2, 100), (3, 100)];
    let mut cache = vec![];
    let mut rec = empty_record();
    let r = g.update_resize(300, &cartons, 1, -40, &mut cache, &mut rec).unwrap();
    assert_eq!(r.data_sizes, vec![(1, Some(60)), (2, Some(140)), (3, Some(100))]);
    assert_eq!(cache, vec![(0, 100)]);
    let cartons = vec![(1, 60), (2, 140), (3, 100)];
    let r = g.update_resize(300, &cartons, 1, 40, &mut cache, &mut rec).unwrap();
    assert_eq!(r.data_sizes, vec![(1, Some(100)), (2, Some(100)), (3, Some(100))]);
}

#[test]
fn hysteresis_boundary() {
    let g = group(true, &[(1, Some(30))], 30, None, true, 10);
    let cartons = vec![(1, 30)];
    let mut cache = vec![];
    let mut rec = empty_record();
    let r = g.update_resize(300, &cartons, 1, -9, &mut cache, &mut rec);
    assert!(matches!(r, Err(Error::Ignore)));
    let r = g.update_resize(300, &cartons, 1, -11, &mut cache, &mut rec).unwrap();
    assert_eq!(r.data_sizes, vec![(1, None)]);

    let z = group(true, &[(1, None)], 30, None, true, 10);
    let cartons = vec![(1, 0)];
    let r = z.update_resize(300, &cartons, 1, 9, &mut cache, &mut rec);
    assert!(matches!(r, Err(Error::Ignore)));
    let r = z.update_resize(300, &cartons, 1, 11, &mut cache, &mut rec).unwrap();
    assert_eq!(r.data_sizes, vec![(1, Some(30))]);
}

#[test]
fn independent_shrink_stops_at_min() {
    let g = group(true, &[(1, Some(50)), (2, Some(80))], 50, None, false, 0);
    let cartons = vec![(1, 50), (2, 80)];
    let mut cache = vec![];
    let mut rec = empty_record();
    let r = g.update_resize(300, &cartons, 1, -20, &mut cache, &mut rec);
    assert!(matches!(r, Err(Error::Ignore)));
    assert!(rec.zeroed_cache.is_empty());
}

#[test]
fn missing_carton_is_a_message() {
    let g = group(true, &[(1, Some(50))], 0, None, false, 0);
    let mut cache = vec![];
    let mut rec = empty_record();
    let r = g.update_resize(300, &vec![(1, 50)], 7, 5, &mut cache, &mut rec);
    assert!(matches!(r, Err(Error::Msg(_))));
}

#[test]
fn drag_session_gives_distance() {
    let mut s = DragSession::new();
    assert_eq!(s.drag_delta(10, 0), None);
    s.pointer_down(105, 100);
    assert_eq!(s.drag_delta(115, 100), Some(20));
    assert_eq!(s.drag_delta(115, 110), None);
    s.pointer_up();
    assert_eq!(s.pos, None);
    assert_eq!(s.shift, None);
}

#[test]
fn style_offsets_accumulate() {
    let sizes = vec![(1, Some(10)), (2, None), (3, Some(30))];
    assert_eq!(update_style(&sizes, 1), vec![(1, 0, 10), (2, 30, 10)]);
    assert_eq!(size_pos_props(true), ("width", "left"));
    assert_eq!(size_pos_props(false), ("height", "top"));
}

fn get_size(g: &CartonsComplex, id: u64) -> Option<Sizon> {
    *g.metric.get(&id)
}

#[test]
fn switch_zero_independent_collapse_then_restore() {
    let mut g = group(true, &[(1, Some(100)), (2, Some(50))], 0, None, true, 0);
    let r = g.switch_zero(300, &vec![(1, 100), (2, 50)], 1, false).unwrap();
    assert_eq!(r, vec![(1, None), (2, Some(50))]);
    assert_eq!(*g.zeroed_cache.get(&1), 333_333);
    assert_eq!(get_size(&g, 1), None);
    assert_eq!(get_size(&g, 2), Some(Sizon::new(Some(50), Some(RATIO_ONE))));
    assert_eq!(*g.metric.default_value(), Some(Sizon::abs(50)));
    let r = g.switch_zero(300, &vec![(1, 0), (2, 50)], 1, true).unwrap();
    assert_eq!(r, vec![(1, Some(99)), (2, Some(50))]);
    assert_eq!(*g.zeroed_cache.get(&1), 0);
}

#[test]
fn switch_zero_dependent_collapse_then_restore() {
    let mut g = group(false, &[(1, Some(100)), (2, Some(200))], 0, None, true, 0);
    let r = g.switch_zero(300, &vec![(1, 100), (2, 200)], 2, false).unwrap();
    assert_eq!(r, vec![(1, Some(300)), (2, None)]);
    assert_eq!(*g.zeroed_cache.get(&2), 666_666);
    let r = g.switch_zero(300, &vec![(1, 300), (2, 0)], 2, true).unwrap();
    assert_eq!(r, vec![(1, Some(101)), (2, Some(199))]);
}

#[test]
fn switch_zero_refusals() {
    let mut g = group(false, &[(1, Some(100)), (2, Some(200))], 0, None, false, 0);
    let r = g.switch_zero(300, &vec![(1, 100), (2, 200)], 2, false);
    assert!(matches!(r, Err(Error::Ignore)));
    let r = g.switch_zero(300, &vec![(1, 100), (2, 200)], 2, true);
    assert!(matches!(r, Err(Error::Ignore)));
    let r = g.switch_zero(300, &vec![(1, 100), (2, 200)], 3, true);
    assert!(matches!(r, Err(Error::Msg(_))));
    assert_eq!(get_size(&g, 2), Some(Sizon::abs(200)));
}

#[test]
fn dependent_drag_zeroes_carton_without_slack() {
    let g = group(false, &[(1, Some(30)), (2, Some(270))], 30, None, true, 10);
    let mut cache = vec![];
    let mut rec = empty_record();
    let r = g.update_resize(300, &vec![(1, 30), (2, 270)], 1, -15, &mut cache, &mut rec).unwrap();
    assert_eq!(r.data_sizes, vec![(1, None), (2, Some(300))]);
    assert_eq!(r.total_size, 300);
    assert_eq!(cache, vec![(0, 30)]);
    assert_eq!(rec.zeroed_cache, vec![(1, 100_000)]);
    let r = g.update_resize(300, &vec![(1, 30), (2, 270)], 1, -9, &mut cache, &mut rec);
    assert!(matches!(r, Err(Error::Ignore)));
}

#[test]
fn dependent_drag_restores_zeroed_carton() {
    let g = group(false, &[(1, None), (2, Some(300))], 30, None, true, 10);
    let mut cache = vec![];
    let mut rec = empty_record();
    let r = g.update_resize(300, &vec![(1, 0), (2, 300)], 1, 9, &mut cache, &mut rec);
    assert!(matches!(r, Err(Error::Ignore)));
    let r = g.update_resize(300, &vec![(1, 0), (2, 300)], 1, 15, &mut cache, &mut rec).unwrap();
    assert_eq!(r.data_sizes, vec![(1, Some(30)), (2, Some(270))]);
    assert_eq!(rec.zero_restored, vec![1]);
    assert_eq!(cache, vec![(1, 300)]);
}

#[test]
fn dependent_drag_keeps_container_filled() {
    let g = group(false, &[(1, Some(100)), (2, Some(100)), (3, Some(100))], 50, None, false, 0);
    let mut cache = vec![];
    let mut rec = empty_record();
    let r = g.update_resize(300, &vec![(1, 100), (2, 100), (3, 100)], 2, 80, &mut cache, &mut rec).unwrap();
    assert_eq!(r.data_sizes, vec![(1, Some(100)), (2, Some(150)), (3, Some(50))]);
    let sum: u32 = r.data_sizes.iter().map(|(_, s)| s.unwrap_or(0)).sum();
    assert_eq!(sum, 300);
    assert_eq!(r.since, 0);
}

#[test]
fn reconcile_from_ratios_and_again() {
    let metric = CartonsMap::new(vec![(1, Some(Sizon::rel(250_000))), (2, Some(Sizon::rel(750_000)))], None);
    let make = |m: CartonsMetric| CartonsComplex::new(
        true, false, Some(String::from("panel")), m,
        CartonsMap::new(vec![], Sizon::default()),
        CartonsMap::new(vec![], Sizon::default()),
        CartonsMap::new(vec![], false),
        CartonsMap::new(vec![], Sizon::default()),
        CartonsMap::new(vec![], 0),
    );
    let g = make(metric);
    assert_eq!(g.name, "panel");
    let r = g.wrap_effect_on_update(400, &vec![1, 2]);
    assert_eq!(r.data_sizes, vec![(1, Some(100)), (2, Some(300))]);
    assert_eq!(*r.metric.get(&1), Some(Sizon::new(Some(100), Some(250_000))));
    assert_eq!(*r.metric.default_value(), Some(Sizon::abs(400)));
    let g2 = make(r.metric);
    let r2 = g2.wrap_effect_on_update(400, &vec![1, 2]);
    assert_eq!(r2.data_sizes, r.data_sizes);
    assert_eq!(*r2.metric.get(&2), Some(Sizon::new(Some(300), Some(750_000))));
}

#[test]
fn reconcile_independent_keeps_candidates() {
    let g = group(true, &[(1, Some(40)), (2, Some(10))], 20, Some(35), false, 0);
    let r = g.wrap_effect_on_update(500, &vec![1, 2, 3]);
    assert_eq!(r.data_sizes, vec![(1, Some(35)), (2, Some(20)), (3, None)]);
    assert_eq!(r.total_size, 55);
}

#[test]
fn passive_mirror_uses_absolute_sizes() {
    let metric = CartonsMap::new(vec![(1, Some(Sizon::new(Some(12), Some(5)))), (2, None), (3, Some(Sizon::rel(9)))], Some(Sizon::abs(7)));
    let mut g = group(true, &[], 0, None, false, 0);
    g.metric = metric;
    let r = g.passive_wrap_effect_on_update(&vec![1, 2, 3, 4]);
    assert_eq!(r, vec![(1, Some(12)), (2, None), (3, None), (4, Some(7))]);
}

#[test]
fn resize_work_through_session_then_apply() {
    let mut g = group(false, &[(1, Some(30)), (2, Some(270))], 30, None, true, 10);
    let mut session = DragSession::new();
    let cartons = vec![(1, 30), (2, 270)];
    assert!(matches!(g.resize_work(&mut session, 90, 100, 300, &cartons, 1), Err(Error::Ignore)));
    session.pointer_down(100, 100);
    let (resized, record) = g.resize_work(&mut session, 85, 100, 300, &cartons, 1).unwrap();
    assert_eq!(resized.data_sizes, vec![(1, None), (2, Some(300))]);
    assert_eq!(session.cache, vec![(0, 30)]);
    g.apply_resize(resized.metric, &record);
    assert_eq!(get_size(&g, 1), None);
    assert_eq!(get_size(&g, 2), Some(Sizon::new(Some(300), Some(RATIO_ONE))));
    assert_eq!(*g.zeroed_cache.get(&1), 100_000);
    session.pointer_up();
    assert!(session.cache.is_empty());
}

#[test]
fn metric_rebuilt_with_ratios() {
    let sizes = vec![(1, Some(50)), (2, None), (3, Some(150))];
    let m = CartonsMap::new_from(&sizes, 200);
    assert_eq!(*m.get(&1), Some(Sizon::new(Some(50), Some(250_000))));
    assert_eq!(*m.get(&2), None);
    assert_eq!(*m.get(&3), Some(Sizon::new(Some(150), Some(750_000))));
    assert_eq!(*m.default_value(), Some(Sizon::abs(200)));
    let old = CartonsMap::new(vec![(1, Some(Sizon::new(Some(1), Some(42)))), (3, None)], Some(Sizon::rel(9)));
    let r = old.abs_revised(&sizes, 200);
    assert_eq!(*r.get(&1), Some(Sizon::new(Some(50), Some(42))));
    assert_eq!(*r.get(&3), None);
    assert!(r.contains(&2));
}

#[test]
fn dataset_ids() {
    assert_eq!(parse_dataset("42"), Some(42));
    assert_eq!(parse_dataset("+7"), Some(7));
    assert_eq!(parse_dataset(""), None);
    assert_eq!(parse_dataset("+"), None);
    assert_eq!(parse_dataset("-1"), None);
    assert_eq!(parse_dataset("1a"), None);
    assert_eq!(parse_dataset("18446744073709551615"), Some(u64::MAX));
    assert_eq!(parse_dataset("18446744073709551616"), None);
}

#[test]
fn ratio_limits_resolve_against_container() {
    let metric = CartonsMap::new(vec![(1, Some(Sizon::abs(10))), (2, Some(Sizon::abs(10)))], None);
    let g = CartonsComplex::new(
        false, true, None, metric,
        CartonsMap::new(vec![(1, Sizon::rel(100_000))], Sizon::default()),
        CartonsMap::new(vec![(2, Sizon::new(Some(500), Some(20_000)))], Sizon::default()),
        CartonsMap::new(vec![], false),
        CartonsMap::new(vec![], Sizon::default()),
        CartonsMap::new(vec![], 0),
    );
    assert_eq!(g.name, "carton");
    let r = g.wrap_effect_on_update(300, &vec![1, 2]);
    assert_eq!(r.data_sizes, vec![(1, Some(30)), (2, Some(6))]);
}

#[test]
fn drags_keep_cartons_within_limits() {
    let g = group(false, &[(1, Some(100)), (2, Some(100)), (3, Some(100))], 50, Some(150), false, 0);
    let mut cache = vec![];
    let mut rec = empty_record();
    let mut cartons = vec![(1, 100), (2, 100), (3, 100)];
    for delta in [90i64, -200, 35, 120, -7] {
        if let Ok(r) = g.update_resize(300, &cartons, 2, delta, &mut cache, &mut rec) {
            for (_, s) in r.data_sizes.iter() {
                let s = s.unwrap();
                assert!((50..=150).contains(&s));
            }
            let sum: u32 = r.data_sizes.iter().map(|(_, s)| s.unwrap_or(0)).sum();
            assert_eq!(sum, 300);
            cartons = r.data_sizes.iter().map(|(id, s)| (*id, s.unwrap())).collect();
        }
    }
    assert_eq!(cartons, vec![(1, 100), (2, 143), (3, 57)]);
}

#[test]
fn restore_is_lowered_to_upper_limit() {
    let mut g = group(true, &[(1, None), (2, Some(50))], 0, Some(100), true, 0);
    g.zeroed_cache.insert(1, 500_000);
    let r = g.switch_zero(400, &vec![(1, 0), (2, 50)], 1, true).unwrap();
    assert_eq!(r, vec![(1, Some(100)), (2, Some(50))]);
}

#[test]
fn dependent_collapse_needs_room_in_other_cartons() {
    let metric = metric_of(&[(1, Some(100)), (2, Some(100))]);
    let mut g = CartonsComplex::new(
        true, false, None, metric,
        CartonsMap::new(vec![], Sizon::default()),
        CartonsMap::new(vec![(2, Sizon::abs(100))], Sizon::default()),
        CartonsMap::new(vec![], true),
        CartonsMap::new(vec![], Sizon::default()),
        CartonsMap::new(vec![], 0),
    );
    let r = g.switch_zero(200, &vec![(1, 100), (2, 100)], 1, false);
    assert!(matches!(r, Err(Error::Ignore)));
    assert_eq!(get_size(&g, 1), Some(Sizon::abs(100)));
}

#[test]
fn dependent_restore_is_funded_in_proportion() {
    let mut g = group(false, &[(1, None), (2, Some(200)), (3, Some(100))], 50, None, true, 0);
    g.zeroed_cache.insert(1, 500_000);
    let r = g.switch_zero(300, &vec![(1, 0), (2, 200), (3, 100)], 1, true).unwrap();
    assert_eq!(r, vec![(1, Some(150)), (2, Some(87)), (3, Some(63))]);
    assert_eq!(*g.zeroed_cache.get(&1), 0);
}

#[test]
fn style_past_the_end_is_empty() {
    let sizes = vec![(1, Some(10))];
    assert!(update_style(&sizes, 5).is_empty());
}
