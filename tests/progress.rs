use craftsolver::prog::{finisher, Action, State, Status, FINISHER_COUNT, OPENERS};

fn fresh() -> State {
    State {
        time: 0,
        inner_quiet: 0,
        cp: 300,
        durability: 8,
        manipulation: 0,
        waste_not: 0,
        veneration: 0,
        muscle_memory: 0,
        heart_and_soul: false,
        reflect: false,
        progress: 0,
        trained_perfection: 0,
    }
}

#[test]
fn reflect_spends_and_grants_inner_quiet() {
    let mut s = fresh();
    s.apply_char('R');
    assert_eq!(s.durability, 6);
    assert_eq!(s.cp, 282);
    assert_eq!(s.inner_quiet, 2);
    assert!(s.reflect);
    assert_eq!(s.time, 3);
}

#[test]
fn reflect_skipped_without_cp() {
    let mut s = State { cp: 10, ..fresh() };
    s.apply_char('R');
    assert_eq!(s, State { cp: 10, ..fresh() });
}

#[test]
fn muscle_memory_doubles_next_progress() {
    let mut s = fresh();
    s.apply_char('M');
    assert_eq!(s.progress, 30);
    assert_eq!(s.durability, 6);
    assert_eq!(s.cp, 294);
    assert_eq!(s.muscle_memory, 5);
    s.apply_char('g');
    assert_eq!(s.progress, 102);
    assert_eq!(s.durability, 2);
    assert_eq!(s.muscle_memory, 0);
    assert_eq!(s.time, 6);
}

#[test]
fn manipulation_repairs_from_the_next_step() {
    let mut s = fresh();
    s.apply_char('m');
    assert_eq!(s.manipulation, 8);
    assert_eq!(s.durability, 8);
    assert_eq!(s.cp, 204);
    s.apply_char('b');
    assert_eq!(s.durability, 7);
    assert_eq!(s.manipulation, 7);
    assert_eq!(s.progress, 12);
}

#[test]
fn veneration_adds_half() {
    let mut s = fresh();
    s.apply_char('v');
    assert_eq!(s.veneration, 4);
    s.apply_char('b');
    assert_eq!(s.progress, 18);
    assert_eq!(s.veneration, 3);
}

#[test]
fn action_without_cp_is_skipped() {
    let mut s = State { cp: 5, ..fresh() };
    s.apply_char('g');
    assert_eq!(s, State { cp: 5, ..fresh() });
    let mut t = State { durability: 1, ..fresh() };
    t.apply_char('g');
    assert_eq!(t, State { durability: 1, ..fresh() });
}

#[test]
fn focused_synthesis_observes_first() {
    let mut s = State { manipulation: 2, durability: 3, ..fresh() };
    s.apply_char('f');
    assert_eq!(s.progress, 20);
    assert_eq!(s.manipulation, 0);
    assert_eq!(s.durability, 3);
    assert_eq!(s.time, 5);
}

#[test]
fn waste_not_halves_wear() {
    let mut s = fresh();
    s.apply_char('1');
    assert_eq!(s.waste_not, 4);
    s.apply_char('g');
    assert_eq!(s.durability, 6);
    assert_eq!(s.waste_not, 3);
}

#[test]
fn intensive_synthesis_spends_heart_and_soul() {
    let mut s = fresh();
    s.apply_action(&Action::new(40, 2, 6, Status::Plain, 0));
    assert!(s.heart_and_soul);
    assert_eq!(s.progress, 40);
}

#[test]
fn trained_perfection_makes_next_action_free() {
    let mut s = fresh();
    s.apply_char('*');
    assert_eq!(s.trained_perfection, 1);
    s.apply_char('g');
    assert_eq!(s.durability, 8);
    assert_eq!(s.trained_perfection, 2);
}

#[test]
fn opener_runs_in_order() {
    let mut s = fresh();
    s.apply_opener(OPENERS[0], ' ');
    assert_eq!(s.cp, 106);
    assert_eq!(s.durability, 7);
    assert_eq!(s.progress, 120);
    assert_eq!(s.waste_not, 3);
    assert_eq!(s.veneration, 2);
    assert_eq!(s.manipulation, 5);
    assert_eq!(s.muscle_memory, 0);
    assert_eq!(s.time, 12);
    let mut t = fresh();
    t.apply_opener("M", 'b');
    assert_eq!(t.progress, 54);
}

#[test]
fn tick_statuses_repairs_only_when_asked() {
    let mut s = State { manipulation: 2, waste_not: 1, trained_perfection: 1, ..fresh() };
    s.tick_statuses(false);
    assert_eq!(s.manipulation, 2);
    assert_eq!(s.durability, 8);
    assert_eq!(s.waste_not, 0);
    assert_eq!(s.trained_perfection, 2);
    s.tick_statuses(true);
    assert_eq!(s.manipulation, 1);
    assert_eq!(s.durability, 9);
}

#[test]
fn finisher_dominance() {
    let b = finisher(0);
    let c = finisher(1);
    let i = finisher(2);
    assert_eq!(b.description, "b");
    assert!(b.beats(&c));
    assert!(!c.beats(&b));
    assert!(!i.beats(&b));
    assert!(b.beats(&i));
    assert!(!b.beats(&b));
    assert!(!finisher(0).beats(&finisher(0)));
    let mut twin = finisher(0);
    twin.description = "bb";
    assert!(b.beats(&twin));
    assert_eq!(FINISHER_COUNT, 21);
}
