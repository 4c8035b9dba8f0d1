use craftsolver::statline::{clamp, combine_info, CrafterStats, Recipe, CLVL_TABLE};

fn recipe(rlvl: u16, reqqual: Option<u32>) -> Recipe {
    Recipe {
        rlvl,
        prog: 1000,
        qual: 5000,
        dur: 40,
        pdiv: 130,
        qdiv: 115,
        pmod: 80,
        qmod: 70,
        reqqual,
    }
}

fn stats(lvl: u8) -> CrafterStats {
    CrafterStats { lvl, cp: 600, cms: 3000, ctrl: 3000 }
}

#[test]
fn clamp_bounds() {
    assert_eq!(clamp(5, 0, 89), 5);
    assert_eq!(clamp(100, 0, 89), 89);
    assert_eq!(clamp(2, 3, 9), 3);
}

#[test]
fn combined_info_applies_modifiers_at_or_below_recipe_level() {
    let info = combine_info(&recipe(560, None), &stats(90));
    assert_eq!(CLVL_TABLE[89], 560);
    assert_eq!(info.p100, 186);
    assert_eq!(info.q100, 207);
    assert_eq!(info.prog, 1000);
    assert_eq!(info.qual, 5000);
    assert_eq!(info.dur, 40);
    assert_eq!(info.cp, 600);
}

#[test]
fn combined_info_without_modifiers_above_recipe_level() {
    let info = combine_info(&recipe(500, Some(4000)), &stats(90));
    assert_eq!(info.p100, 232);
    assert_eq!(info.q100, 295);
    assert_eq!(info.qual, 4000);
}
