//! Crafter stats and recipe records, and the per-100 progress and quality
//! yields that combine them through the crafter-level table.

use vstd::prelude::*;

verus! {

pub struct CrafterStats {
    pub lvl: u8,
    pub cp: u16,
    pub cms: u16,
    pub ctrl: u16,
}

pub struct Recipe {
    pub rlvl: u16,
    pub prog: u32,
    pub qual: u32,
    pub dur: u8,
    pub pdiv: u16,
    pub qdiv: u16,
    pub pmod: u16,
    pub qmod: u16,
    /// Quality required, where it differs from the recipe's full quality.
    pub reqqual: Option<u32>,
}

pub struct CombinedCraftInfo {
    pub prog: u32,
    pub qual: u32,
    pub dur: u8,
    pub cp: u16,
    /// Progress per 100% efficiency.
    pub p100: u16,
    /// Quality per 100% efficiency.
    pub q100: u16,
}

/// Internal crafter level of each character level, from level 1.
pub const CLVL_TABLE: [u16; 90] = [
    1, 2, 3, 4, 5, 6, 7, 8, 9, 10,
    11, 12, 13, 14, 15, 16, 17, 18, 19, 20,
    21, 22, 23, 24, 25, 26, 27, 28, 29, 30,
    31, 32, 33, 34, 35, 36, 37, 38, 39, 40,
    41, 42, 43, 44, 45, 46, 47, 48, 49, 50,
    120, 125, 130, 133, 136, 139, 142, 145, 148, 150,
    260, 265, 270, 273, 276, 279, 282, 285, 288, 290,
    390, 395, 400, 403, 406, 409, 412, 415, 418, 420,
    517, 520, 525, 530, 535, 540, 545, 550, 555, 560,
];

pub open spec fn clamp_spec(v: u8, lb: u8, ub: u8) -> u8 {
    if v < lb { lb } else if v > ub { ub } else { v }
}

pub fn clamp(v: u8, lb: u8, ub: u8) -> (r: u8)
    ensures
        r == clamp_spec(v, lb, ub),
{
    if v < lb {
        lb
    } else if v > ub {
        ub
    } else {
        v
    }
}

/// `⌊(stat · 10 + base · div) · m / (div · 100)⌋`, with the recipe's
/// modifier `m` applied only where the crafter level does not exceed the
/// recipe level (else 100), cut to 16 bits.
pub open spec fn per100(stat: u16, base: int, div: u16, modifier: u16, clvl: u16, rlvl: u16) -> u16 {
    ((stat * 10 + base * div) * (if clvl <= rlvl { modifier as int } else { 100 }) / (div * 100)) as u16
}

pub open spec fn clvl_of(lvl: u8) -> u16 {
    CLVL_TABLE[clamp_spec((lvl - 1) as u8, 0, 89) as int]
}

pub fn combine_info(recipe: &Recipe, stats: &CrafterStats) -> (r: CombinedCraftInfo)
    requires
        stats.lvl >= 1,
        recipe.pdiv > 0,
        recipe.qdiv > 0,
    ensures
        r.prog == recipe.prog,
        r.qual == (match recipe.reqqual {
            Some(q) => q,
            None => recipe.qual,
        }),
        r.dur == recipe.dur,
        r.cp == stats.cp,
        r.p100 == per100(stats.cms, 2, recipe.pdiv, recipe.pmod, clvl_of(stats.lvl), recipe.rlvl),
        r.q100 == per100(stats.ctrl, 35, recipe.qdiv, recipe.qmod, clvl_of(stats.lvl), recipe.rlvl),
{
    let clvl = CLVL_TABLE[clamp(stats.lvl - 1, 0, 89) as usize];
    let pmod: u64 = if clvl <= recipe.rlvl { recipe.pmod as u64 } else { 100 };
    let qmod: u64 = if clvl <= recipe.rlvl { recipe.qmod as u64 } else { 100 };
    proof {
        assert((stats.cms * 10 + 2 * recipe.pdiv) * pmod <= 786420 * 65535) by (nonlinear_arith)
            requires
                pmod <= 65535,
                stats.cms <= 65535,
                recipe.pdiv <= 65535,
        ;
        assert((stats.ctrl * 10 + 35 * recipe.qdiv) * qmod <= 2949075 * 65535) by (nonlinear_arith)
            requires
                qmod <= 65535,
                stats.ctrl <= 65535,
                recipe.qdiv <= 65535,
        ;
    }
    let p100num: u64 = (stats.cms as u64 * 10 + 2 * recipe.pdiv as u64) * pmod;
    let p100denom: u64 = recipe.pdiv as u64 * 100;
    let q100num: u64 = (stats.ctrl as u64 * 10 + 35 * recipe.qdiv as u64) * qmod;
    let q100denom: u64 = recipe.qdiv as u64 * 100;
    CombinedCraftInfo {
        prog: recipe.prog,
        qual: match recipe.reqqual {
            Some(q) => q,
            None => recipe.qual,
        },
        dur: recipe.dur,
        cp: stats.cp,
        p100: #[verifier::truncate] ((p100num / p100denom) as u16),
        q100: #[verifier::truncate] ((q100num / q100denom) as u16),
    }
}

} // verus!
