use craftsolver::qual::{
    apply_igs, calculate_dur_cost, catalogue, macro_commands, next_state, pack_method,
    quality_gain, unpack_method, DPCache, State,
};

fn base() -> State {
    State {
        time: 0,
        inner_quiet: 0,
        cp: 200,
        durability: 8,
        manipulation: 0,
        waste_not: 0,
        innovation: 0,
        great_strides: 0,
        min_durability: 0,
        trained_perfection: 0,
        heart_and_soul: false,
    }
}

fn step(s: &State, id: u8) -> Option<State> {
    next_state(s, &catalogue(id).unwrap(), 10, false)
}

#[test]
fn pack_round_trip_keeps_every_field() {
    let s = State {
        time: 89,
        inner_quiet: 10,
        cp: 1023,
        durability: 31,
        manipulation: 8,
        waste_not: 8,
        innovation: 4,
        great_strides: 3,
        min_durability: 3,
        trained_perfection: 2,
        heart_and_soul: true,
    };
    assert_eq!(State::unpack(s.index(true)), s);
    let untimed = State::unpack(s.index(false));
    assert_eq!(untimed, State { time: 0, ..s });
}

#[test]
fn index_places_fields_at_their_offsets() {
    let s = State { cp: 1, ..base() };
    let s = State { durability: 0, ..s };
    assert_eq!(s.index(false), 1 << 23);
    let t = State { durability: 0, cp: 0, heart_and_soul: true, time: 2, ..base() };
    assert_eq!(t.index(true), 1 | (2 << 37));
    assert_eq!(t.index(false), 1);
}

#[test]
fn packed_result_splits_back() {
    let s = base();
    let r = pack_method(1234, 17, &s, false);
    assert_eq!(unpack_method(r), (1234, 17, s.index(false)));
    assert_eq!(r >> 48, 1234);
}

#[test]
fn igs_formula_values() {
    assert_eq!(apply_igs(400, 0, 0, 0), 400);
    assert_eq!(apply_igs(400, 1, 1, 10), 2000);
    assert_eq!(apply_igs(500, 1, 0, 3), 975);
}

#[test]
fn durability_cost_formula_values() {
    assert_eq!(calculate_dur_cost(2, 1, 0, 0, 0), 2);
    assert_eq!(calculate_dur_cost(2, 1, 0, 4, 0), 1);
    assert_eq!(calculate_dur_cost(2, 2, 0, 0, 1), 3);
    assert_eq!(calculate_dur_cost(2, 1, 1, 1, 1), 1);
    assert_eq!(calculate_dur_cost(2, 0, 1, 8, 8), 0);
}

#[test]
fn combo_and_focused_gains() {
    let s = State { innovation: 1, great_strides: 1, ..base() };
    assert_eq!(quality_gain(&s, &catalogue(4).unwrap()), 1550);
    let f = State { innovation: 1, great_strides: 1, inner_quiet: 2, ..base() };
    assert_eq!(quality_gain(&f, &catalogue(6).unwrap()), 720);
    let b = State { inner_quiet: 5, ..base() };
    assert_eq!(quality_gain(&b, &catalogue(17).unwrap()), 1200);
    assert_eq!(quality_gain(&base(), &catalogue(14).unwrap()), 0);
}

#[test]
fn inner_quiet_saturates_at_ten() {
    let s = State { inner_quiet: 9, ..base() };
    let n = step(&s, 8).unwrap();
    assert_eq!(n.inner_quiet, 10);
}

#[test]
fn waste_not_then_basic_touch_wears_one() {
    let s = base();
    let w = step(&s, 10).unwrap();
    assert_eq!(w.waste_not, 4);
    assert_eq!(w.durability, 8);
    let b = step(&w, 1).unwrap();
    assert_eq!(b.durability, 7);
    assert_eq!(b.waste_not, 3);
}

#[test]
fn manipulation_does_not_repair_on_its_own_step() {
    let s = State { durability: 5, manipulation: 3, ..base() };
    let m = step(&s, 12).unwrap();
    assert_eq!(m.durability, 5);
    assert_eq!(m.manipulation, 8);
    let b = step(&m, 1).unwrap();
    assert_eq!(b.durability, 4);
}

#[test]
fn trained_finesse_needs_full_inner_quiet() {
    let nine = State { inner_quiet: 9, ..base() };
    assert!(step(&nine, 9).is_none());
    let ten = State { inner_quiet: 10, ..base() };
    let n = step(&ten, 9).unwrap();
    assert_eq!(n.inner_quiet, 10);
    assert_eq!(n.durability, 8);
}

#[test]
fn prudent_touch_refused_under_waste_not() {
    let s = State { waste_not: 2, ..base() };
    assert!(step(&s, 7).is_none());
    assert!(step(&base(), 7).is_some());
}

#[test]
fn observe_slot_is_empty() {
    assert!(catalogue(16).is_none());
    assert!(catalogue(0).is_none());
    assert!(catalogue(22).is_none());
    assert!(macro_commands(16).len() == 1);
}

#[test]
fn terminal_state_checks_reserve() {
    let mut cache = DPCache::new(10, false);
    let short = State { cp: 6, durability: 1, min_durability: 2, ..base() };
    assert_eq!(cache.query(&short), None);
    let ok = State { cp: 6, durability: 2, min_durability: 2, ..base() };
    assert_eq!(cache.query(&ok), Some(1));
}

fn trained_perfection_state() -> State {
    State { cp: 24, inner_quiet: 10, durability: 0, ..base() }
}

#[test]
fn trained_perfection_enables_byregot() {
    let mut cache = DPCache::new(10, false);
    let s = trained_perfection_state();
    let r = cache.query(&s).unwrap();
    let (q, a, _) = unpack_method(r);
    assert_eq!(q, 2400);
    assert_eq!(a, 21);
    let end = cache.check_endstate(&s);
    assert_eq!(end.trained_perfection, 2);
    let ids: Vec<u8> = cache.trace(&s).iter().map(|p| unpack_method(p.1).1).collect();
    assert_eq!(ids, vec![21, 17, 0]);
}

#[test]
fn result_decodes_to_successor() {
    let mut cache = DPCache::new(10, false);
    let s = trained_perfection_state();
    let r = cache.query(&s).unwrap();
    let (q, a, idx) = unpack_method(r);
    let act = catalogue(a).unwrap();
    let next = next_state(&s, &act, 10, false).unwrap();
    assert_eq!(idx, next.index(false));
    let (q2, _, _) = unpack_method(cache.query(&next).unwrap());
    assert_eq!(q2 + quality_gain(&s, &act), q);
}

#[test]
fn specialist_uses_precise_touch() {
    let mut cache = DPCache::new(10, false);
    let s = State { cp: 18, durability: 4, trained_perfection: 2, heart_and_soul: true, ..base() };
    let r = cache.query(&s).unwrap();
    let (q, a, _) = unpack_method(r);
    assert_eq!(q, 800);
    assert_eq!(a, 18);
    assert!(!cache.check_endstate(&s).heart_and_soul);
    let lines = macro_commands(a);
    assert_eq!(lines, vec![("Heart and Soul", 3), ("Precise Touch", 3)]);
}

#[test]
fn more_cp_never_lowers_quality() {
    let mut cache = DPCache::new(7, false);
    let low = State { cp: 60, inner_quiet: 2, durability: 5, ..base() };
    let high = State { cp: 90, ..low };
    let ql = unpack_method(cache.unwrapped_query(&low)).0;
    let qh = unpack_method(cache.unwrapped_query(&high)).0;
    assert!(qh >= ql);
    let more_dur = State { durability: 7, ..low };
    let qd = unpack_method(cache.unwrapped_query(&more_dur)).0;
    assert!(qd >= ql);
}

#[test]
fn cache_entries_follow_queries() {
    let mut cache = DPCache::new(7, false);
    let s = State { cp: 40, durability: 4, ..base() };
    assert_eq!(cache.check(&s), None);
    let r = cache.unwrapped_query(&s);
    assert_eq!(cache.check(&s), Some(r));
    assert_eq!(cache.get(0, s.index(false)), Some(r));
    assert_eq!(cache.get_state(&State { time: 33, ..s }), Some(r));
    let exported = cache.export();
    assert!(exported.contains(&(s.index(false), r)));
    assert_eq!(DPCache::get_time(5 << 37), 5);
}

#[test]
fn timed_cache_stops_when_time_runs_out() {
    let mut cache = DPCache::new(7, true);
    let s = State { cp: 100, time: 1, durability: 4, ..base() };
    assert_eq!(cache.query(&s), Some(1));
    let t = State { time: 3, ..s };
    let (q, a, _) = unpack_method(cache.unwrapped_query(&t));
    assert_eq!(a, 8);
    assert_eq!(q, 800);
    assert_eq!(cache.check_time(&t), 0);
}

#[test]
fn dependencies_list_applicable_actions() {
    let cache = DPCache::new(10, false);
    let s = State { cp: 18, durability: 4, trained_perfection: 2, heart_and_soul: true, ..base() };
    let deps = cache.dependencies(&s);
    let ids: Vec<u8> = deps.iter().map(|d| d.2).collect();
    assert_eq!(ids, vec![1, 14, 18]);
    let gains: Vec<u16> = deps.iter().map(|d| d.1).collect();
    assert_eq!(gains, vec![400, 0, 800]);
    assert!(!deps[2].0.heart_and_soul);
    assert_eq!(deps[1].0.innovation, 4);
}
