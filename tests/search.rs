use craftsolver::prog::{finisher, State as ProgState};
use craftsolver::qual::{macro_commands, unpack_method, DPCache, State as QualState};
use craftsolver::search::{
    char_commands, check_recipe, check_recipe_timed, convert, convert_char, gearset, min_cms, min_ctrl, pareto_insert,
    prog_unit, qual_unit, Bounds, Solution, Statline,
};

fn opened() -> ProgState {
    ProgState {
        time: 12,
        inner_quiet: 0,
        cp: 106,
        durability: 7,
        manipulation: 5,
        waste_not: 3,
        veneration: 2,
        muscle_memory: 0,
        heart_and_soul: false,
        reflect: false,
        progress: 120,
        trained_perfection: 0,
    }
}

fn minimal_recipe() -> Statline {
    Statline { cp: 300, cms: 3000, ctrl: 3000, rlvl: 560, dur: 40, prog: 1000, qual: 5000, has: false }
}

fn sol(cms: u16, ctrl: u16, cp: u16, has: bool) -> Solution {
    Solution { cms, ctrl, cp, has }
}

#[test]
fn unit_formulas() {
    assert_eq!(prog_unit(3000, 560), 232);
    assert_eq!(prog_unit(3000, 580), 186);
    assert_eq!(qual_unit(3000, 560), 295);
    assert_eq!(qual_unit(3000, 580), 207);
}

#[test]
fn convert_hands_over_resources() {
    let r = convert(&minimal_recipe(), &opened(), &finisher(0), 232);
    let (q, reflect) = r.unwrap();
    assert!(!reflect);
    assert_eq!(
        q,
        QualState {
            time: 60,
            inner_quiet: 0,
            cp: 106,
            durability: 7,
            manipulation: 5,
            waste_not: 3,
            innovation: 0,
            great_strides: 0,
            min_durability: 0,
            trained_perfection: 0,
            heart_and_soul: false,
        }
    );
    let pb = convert(&minimal_recipe(), &opened(), &finisher(10), 232).unwrap().0;
    assert_eq!(pb.min_durability, 1);
    assert_eq!(pb.cp, 88);
    let tp = convert(&minimal_recipe(), &opened(), &finisher(5), 232).unwrap().0;
    assert_eq!(tp.trained_perfection, 2);
}

#[test]
fn convert_refusals() {
    let hard = Statline { prog: 5000, ..minimal_recipe() };
    assert!(convert(&hard, &opened(), &finisher(0), 232).is_none());
    assert!(convert(&minimal_recipe(), &opened(), &finisher(2), 232).is_none());
    let specialist = Statline { has: true, ..minimal_recipe() };
    let spent = ProgState { heart_and_soul: true, ..opened() };
    assert!(convert(&specialist, &spent, &finisher(2), 232).is_none());
    let with_hs = convert(&specialist, &opened(), &finisher(0), 232).unwrap().0;
    assert!(with_hs.heart_and_soul);
    let used = ProgState { trained_perfection: 2, ..opened() };
    assert!(convert(&minimal_recipe(), &used, &finisher(5), 232).is_none());
    let poor = ProgState { cp: 5, ..opened() };
    assert!(convert(&minimal_recipe(), &poor, &finisher(1), 232).is_none());
}

#[test]
fn minimum_stat_formulas() {
    assert_eq!(min_cms(1000, 132), 1209);
    assert_eq!(min_cms(1000, 10000), 0);
    assert_eq!(min_ctrl(5000, 8000), 3705);
    assert_eq!(min_ctrl(10, 4000), 0);
}

#[test]
fn solution_beats_is_strict() {
    let a = sol(2500, 2500, 500, false);
    let b = sol(2600, 2500, 500, false);
    let c = sol(2500, 2500, 500, true);
    assert!(a.beats(&b));
    assert!(!b.beats(&a));
    assert!(!a.beats(&a));
    assert!(!c.beats(&a));
    assert!(a.beats(&c));
    let d = sol(2400, 2700, 500, false);
    assert!(!a.beats(&d) && !d.beats(&a));
}

#[test]
fn pareto_insert_keeps_minimal_members() {
    let a = sol(2500, 2500, 500, false);
    let b = sol(2600, 2500, 500, false);
    let d = sol(2400, 2600, 500, false);
    let mut set = Vec::new();
    pareto_insert(&mut set, b);
    assert_eq!(set, vec![b]);
    pareto_insert(&mut set, a);
    assert_eq!(set, vec![a]);
    pareto_insert(&mut set, b);
    assert_eq!(set, vec![a]);
    pareto_insert(&mut set, a);
    assert_eq!(set, vec![a]);
    pareto_insert(&mut set, d);
    assert_eq!(set, vec![a, d]);
}

#[test]
fn opener_characters_to_commands() {
    assert_eq!(convert_char('M'), ("Muscle Memory", 3));
    assert_eq!(convert_char('x'), ("", 1));
    assert_eq!(char_commands('f'), vec![("Observe", 3), ("Focused Synthesis", 3)]);
    assert_eq!(char_commands('i'), vec![("Heart and Soul", 3), ("Intensive Synthesis", 3)]);
    assert_eq!(char_commands('g'), vec![("Groundwork", 3)]);
}

fn rotation_commands(cache: &mut DPCache, qst: &QualState) -> Vec<&'static str> {
    let mut out = Vec::new();
    for (_, packed) in cache.trace(qst) {
        for (name, _) in macro_commands(unpack_method(packed).1) {
            out.push(name);
        }
    }
    out
}

#[test]
fn minimal_recipe_reaches_quality() {
    let recipe = minimal_recipe();
    let mut cache = DPCache::new(recipe.dur / 5 - 1, false);
    let r = check_recipe(&mut cache, &recipe);
    assert!(r.best_qual >= 5000);
    let rot = r.best_rot.unwrap();
    let mut st = craftsolver::search::start(&recipe, recipe.cp);
    st.apply_opener(rot.opener, rot.extra);
    let (q, _) = convert(&recipe, &st, &rot.finisher, prog_unit(3000, 560)).unwrap();
    assert_eq!(QualState { time: 60, ..q }, r.best_qst.unwrap());
    let commands = rotation_commands(&mut cache, &r.best_qst.unwrap());
    assert!(commands.contains(&"Byregot's Blessing"));
}

#[test]
fn hq_impossible_recipe_falls_short() {
    let recipe = Statline { cp: 180, dur: 20, prog: 5000, qual: 10000, ..minimal_recipe() };
    let mut cache = DPCache::new(recipe.dur / 5 - 1, false);
    let r = check_recipe(&mut cache, &recipe);
    assert!(r.best_qual < 10000);
}

#[test]
fn cache_reuse_gives_same_rotation() {
    let recipe = minimal_recipe();
    let mut cache = DPCache::new(recipe.dur / 5 - 1, false);
    let first = check_recipe(&mut cache, &recipe);
    let image = cache.export();
    let mut loaded = DPCache::new(recipe.dur / 5 - 1, false);
    assert!(loaded.restore(&image));
    let second = check_recipe(&mut loaded, &recipe);
    assert_eq!(first.best_qual, second.best_qual);
    let a = first.best_qst.unwrap();
    let b = second.best_qst.unwrap();
    assert_eq!(a, b);
    let (ra, rb) = (first.best_rot.unwrap(), second.best_rot.unwrap());
    assert_eq!((ra.opener, ra.extra, ra.finisher.description), (rb.opener, rb.extra, rb.finisher.description));
    assert_eq!(rotation_commands(&mut cache, &a), rotation_commands(&mut loaded, &b));
}

#[test]
fn corrupt_cache_image_is_refused() {
    let mut cache = DPCache::new(7, false);
    let s = QualState {
        time: 0,
        inner_quiet: 0,
        cp: 40,
        durability: 4,
        manipulation: 0,
        waste_not: 0,
        innovation: 0,
        great_strides: 0,
        min_durability: 0,
        trained_perfection: 0,
        heart_and_soul: false,
    };
    let r = cache.unwrapped_query(&s);
    let mut image = cache.export();
    let mut fresh = DPCache::new(7, false);
    assert!(fresh.restore(&image));
    for e in image.iter_mut() {
        if e.0 == s.index(false) {
            e.1 = r + (1u64 << 48);
        }
    }
    let mut other = DPCache::new(7, false);
    assert!(!other.restore(&image));
}

#[test]
fn gearset_is_pareto_minimal() {
    let recipe = Statline { cp: 300, prog: 2000, qual: 4000, ..minimal_recipe() };
    let bounds = Bounds { cms: (1000, 5000), ctrl: (1000, 5000), cp: (300, 300) };
    let mut cache = DPCache::new(recipe.dur / 5 - 1, false);
    let set = gearset(&mut cache, &recipe, &bounds);
    assert!(!set.is_empty());
    for a in &set {
        assert_eq!(a.cp, 300);
        assert!(a.cms >= 1000 && a.ctrl >= 1000);
        assert!(a.cms <= 5000 && a.ctrl <= 5000);
        for b in &set {
            assert!(!a.beats(b));
        }
    }
}

#[test]
fn infeasible_recipe_has_no_rotation() {
    let recipe = Statline { prog: 100000, ..minimal_recipe() };
    let mut cache = DPCache::new(recipe.dur / 5 - 1, false);
    let r = check_recipe(&mut cache, &recipe);
    assert_eq!(r.best_qual, 0);
    assert!(r.best_rot.is_none());
    assert!(r.best_qst.is_none());
}

#[test]
fn timed_search_finds_least_time() {
    let recipe = Statline { cp: 150, qual: 100, ..minimal_recipe() };
    let mut cache = DPCache::new(recipe.dur / 5 - 1, true);
    let (r, t) = check_recipe_timed(&mut cache, &recipe, 70);
    assert_eq!(t, 60);
    assert!(r.best_qual >= 100);
}

#[test]
fn timed_search_gives_up_at_the_bound() {
    let recipe = Statline { cp: 150, qual: 1_000_000, ..minimal_recipe() };
    let mut cache = DPCache::new(recipe.dur / 5 - 1, true);
    let (r, t) = check_recipe_timed(&mut cache, &recipe, 61);
    assert_eq!(t, 61);
    assert!(r.best_qual < 1_000_000);
}

#[test]
fn specialist_recipe_spends_heart_and_soul() {
    let recipe = Statline { cp: 220, has: true, ..minimal_recipe() };
    let mut cache = DPCache::new(recipe.dur / 5 - 1, false);
    let r = check_recipe(&mut cache, &recipe);
    let qst = r.best_qst.unwrap();
    assert!(!cache.check_endstate(&qst).heart_and_soul);
    let commands = rotation_commands(&mut cache, &qst);
    let at = commands.iter().position(|c| *c == "Heart and Soul").unwrap();
    assert_eq!(commands[at + 1], "Precise Touch");
}

#[test]
fn tight_durability_recipe_uses_trained_perfection() {
    let recipe = Statline { cp: 250, dur: 20, ..minimal_recipe() };
    let mut cache = DPCache::new(recipe.dur / 5 - 1, false);
    let r = check_recipe(&mut cache, &recipe);
    let rot = r.best_rot.unwrap();
    let qst = r.best_qst.unwrap();
    let chain_uses = cache.trace(&qst).iter().any(|p| unpack_method(p.1).1 == 21);
    assert!(rot.finisher.uses_trained_perfection || rot.opener.contains('*') || chain_uses);
    assert_eq!(cache.check_endstate(&qst).trained_perfection, 2);
}
