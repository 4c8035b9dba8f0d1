//! The rotation search: crafter scalings, the conversion of an opener's
//! residual state into a quality state, and the driver that tries every
//! opener, extra step and finisher.

use crate::prog;
use crate::prog::{chars_applied, finisher, finisher_spec, Finisher, FINISHER_COUNT, OPENERS};
use crate::qual;
use crate::qual::{result_quality, stored, value, DPCache, UNIT};
use vstd::prelude::*;

verus! {

/// A recipe together with the crafter's stats.
#[derive(Debug, Clone, Copy, PartialEq, Eq, Structural)]
pub struct Statline {
    pub cp: u16,
    pub cms: u16,
    pub ctrl: u16,
    pub rlvl: u16,
    /// Durability, in points.
    pub dur: u8,
    pub prog: u32,
    pub qual: u32,
    /// Whether the crafter is a specialist (may use Heart and Soul).
    pub has: bool,
}

/// Recipe level from which the level-90 modifiers apply.
pub const LV_90_RLVL: u16 = 580;

/// Progress per 100% efficiency: `⌊(cms · 10 / 130 + 2) · M / 100⌋`, with
/// `M = 80` from recipe level 580 on, else 100.
pub open spec fn prog_unit_spec(cms: u16, rlvl: u16) -> int {
    (cms * 10 + 260) * (if rlvl >= LV_90_RLVL { 80int } else { 100 }) / 13000
}

/// Quality per 100% efficiency: `⌊(ctrl · 10 / 115 + 35) · M / 100⌋`, with
/// `M = 70` from recipe level 580 on, else 100.
pub open spec fn qual_unit_spec(ctrl: u16, rlvl: u16) -> int {
    (ctrl * 10 + 4025) * (if rlvl >= LV_90_RLVL { 70int } else { 100 }) / 11500
}

pub fn prog_unit(cms: u16, rlvl: u16) -> (r: u16)
    ensures
        r == prog_unit_spec(cms, rlvl),
{
    let m: u64 = if rlvl >= LV_90_RLVL { 80 } else { 100 };
    ((cms as u64 * 10 + 260) * m / 13000) as u16
}

pub fn qual_unit(ctrl: u16, rlvl: u16) -> (r: u16)
    ensures
        r == qual_unit_spec(ctrl, rlvl),
{
    let m: u64 = if rlvl >= LV_90_RLVL { 70 } else { 100 };
    ((ctrl as u64 * 10 + 4025) * m / 11500) as u16
}

/// The opener and finisher together reach the required progress.
pub open spec fn completes(st: prog::State, fin: Finisher, prog_unit: u16, recipe: Statline) -> bool {
    (st.progress + fin.progress) * prog_unit >= recipe.prog * 10
}

/// The quality state that the quality phase starts from, and whether the
/// opener used Reflect; `None` where the finisher would not complete the
/// craft, the resources do not cover it, or Heart and Soul or Trained
/// Perfection would be used where they cannot be.
pub open spec fn convert_spec(recipe: Statline, pst: prog::State, fin: Finisher, prog_unit: u16) -> Option<(qual::State, bool)> {
    if !completes(pst, fin, prog_unit, recipe) || recipe.cp < pst.cp + fin.cp || pst.cp < fin.cp
        || fin.durability == 0 || recipe.dur < pst.durability || (!recipe.has && (pst.heart_and_soul
        || fin.heart_and_soul)) || (pst.heart_and_soul && fin.heart_and_soul) || (
    pst.trained_perfection == 2 && fin.uses_trained_perfection) {
        None
    } else {
        Some(
            (
                qual::State {
                    time: 60,
                    cp: (pst.cp - fin.cp) as u16,
                    inner_quiet: pst.inner_quiet,
                    durability: pst.durability,
                    manipulation: pst.manipulation,
                    waste_not: pst.waste_not,
                    innovation: 0,
                    great_strides: 0,
                    min_durability: (fin.durability - 1) as u8,
                    trained_perfection: if fin.uses_trained_perfection { 2 } else { pst.trained_perfection },
                    heart_and_soul: recipe.has && !pst.heart_and_soul && !fin.heart_and_soul,
                },
                pst.reflect,
            ),
        )
    }
}

/// `(progress + extra) · prog_unit ≥ required · 10`.
pub fn reaches(progress: u16, extra: u16, prog_unit: u16, required: u32) -> (r: bool)
    ensures
        r == ((progress + extra) * prog_unit >= required * 10),
{
    let total: u64 = progress as u64 + extra as u64;
    proof {
        assert(total * prog_unit <= 131070 * 65535) by (nonlinear_arith)
            requires
                total <= 131070,
                prog_unit <= 65535,
        ;
    }
    total * (prog_unit as u64) >= required as u64 * 10
}

pub fn convert(recipe: &Statline, pst: &prog::State, finisher: &Finisher, prog_unit: u16) -> (r: Option<(qual::State, bool)>)
    ensures
        r == convert_spec(*recipe, *pst, *finisher, prog_unit),
{
    if !reaches(pst.progress, finisher.progress, prog_unit, recipe.prog) {
        return None;
    }
    if (recipe.cp as u32) < pst.cp as u32 + finisher.cp as u32 || pst.cp < finisher.cp
        || finisher.durability == 0 || recipe.dur < pst.durability || (!recipe.has && (
    pst.heart_and_soul || finisher.heart_and_soul)) || (pst.heart_and_soul
        && finisher.heart_and_soul) || (pst.trained_perfection == 2
        && finisher.uses_trained_perfection) {
        return None;
    }
    Some(
        (
            qual::State {
                time: 60,
                cp: pst.cp - finisher.cp,
                inner_quiet: pst.inner_quiet,
                durability: pst.durability,
                manipulation: pst.manipulation,
                waste_not: pst.waste_not,
                innovation: 0,
                great_strides: 0,
                min_durability: finisher.durability - 1,
                trained_perfection: if finisher.uses_trained_perfection { 2 } else { pst.trained_perfection },
                heart_and_soul: recipe.has && !pst.heart_and_soul && !finisher.heart_and_soul,
            },
            pst.reflect,
        ),
    )
}


/// The extra step tried after each opener: none, Basic or Careful Synthesis.
pub open spec fn extra_spec(e: int) -> char {
    if e == 0 { ' ' } else if e == 1 { 'b' } else { 'c' }
}

pub fn extra(e: usize) -> (r: char)
    ensures
        r == extra_spec(e as int),
{
    if e == 0 { ' ' } else if e == 1 { 'b' } else { 'c' }
}

/// Number of (opener, extra, finisher) triples the search tries.
pub const ROTATION_COUNT: usize = 3024;

/// The progress state a craft starts from with `cp` CP.
pub open spec fn start_state(recipe: Statline, cp: u16) -> prog::State {
    prog::State {
        time: 0,
        inner_quiet: 0,
        cp,
        durability: (recipe.dur / 5) as u8,
        manipulation: 0,
        waste_not: 0,
        veneration: 0,
        muscle_memory: 0,
        heart_and_soul: false,
        reflect: false,
        progress: 0,
        trained_perfection: 0,
    }
}

pub fn start(recipe: &Statline, cp: u16) -> (r: prog::State)
    ensures
        r == start_state(*recipe, cp),
{
    prog::State {
        time: 0,
        inner_quiet: 0,
        cp,
        durability: recipe.dur / 5,
        manipulation: 0,
        waste_not: 0,
        veneration: 0,
        muscle_memory: 0,
        heart_and_soul: false,
        reflect: false,
        progress: 0,
        trained_perfection: 0,
    }
}

/// The state after opener `o` and extra `e`, from `cp` CP.
pub open spec fn opened(recipe: Statline, cp: u16, o: int, e: int) -> prog::State {
    chars_applied(start_state(recipe, cp), OPENERS[o]@.push(extra_spec(e)))
}

/// Another finisher that completes the craft beats finisher `f`.
pub open spec fn dominated(st: prog::State, f: usize, prog_unit: u16, recipe: Statline) -> bool {
    exists|j: usize|
        j < FINISHER_COUNT && j != f && completes(st, finisher_spec(j), prog_unit, recipe)
            && #[trigger] finisher_spec(j).beats_spec(&finisher_spec(f))
}

/// Internal quality, with 3·UNIT for Reflect, in the crafter's quality.
pub open spec fn delivered(q: u16, reflect: bool, qual_unit: u16) -> int {
    (q + (if reflect { 3 * UNIT } else { 0int })) * qual_unit / (UNIT as int)
}

/// The quality state that rotation `k` hands to the quality phase, with
/// its Reflect flag; `None` where the opener alone completes the craft, a
/// finisher that completes it beats this one, or the conversion fails or
/// leaves the packed widths.
pub open spec fn rotation_state(recipe: Statline, prog_unit: u16, k: int) -> Option<(qual::State, bool)> {
    let st = opened(recipe, recipe.cp, k / 63, (k / 21) % 3);
    let f = (k % 21) as usize;
    if st.progress * prog_unit >= recipe.prog * 10 || dominated(st, f, prog_unit, recipe) {
        None
    } else {
        match convert_spec(recipe, st, finisher_spec(f), prog_unit) {
            Some((q, reflect)) => if q.fits() { Some((q, reflect)) } else { None },
            None => None,
        }
    }
}

/// A quality state with its time set to `time`.
pub open spec fn at_time(q: qual::State, time: u8) -> qual::State {
    qual::State { time, ..q }
}

/// The delivered quality of rotation `k` (opener `k / 63`, extra
/// `(k / 21) % 3`, finisher `k % 21`) when the quality phase starts with
/// `time` left, where the rotation is tried.
pub open spec fn rotation_quality(
    recipe: Statline,
    max_dur: u8,
    check_time: bool,
    prog_unit: u16,
    qual_unit: u16,
    time: u8,
    k: int,
) -> Option<int> {
    match rotation_state(recipe, prog_unit, k) {
        Some((q, reflect)) => Some(
            delivered(
                result_quality(stored(value(at_time(q, time), max_dur, check_time))),
                reflect,
                qual_unit,
            ),
        ),
        None => None,
    }
}

/// The best delivered quality among the first `n` rotations, 0 if none.
pub open spec fn best_quality(
    recipe: Statline,
    max_dur: u8,
    check_time: bool,
    prog_unit: u16,
    qual_unit: u16,
    time: u8,
    n: int,
) -> int
    decreases n,
{
    if n <= 0 {
        0
    } else {
        let prev = best_quality(recipe, max_dur, check_time, prog_unit, qual_unit, time, n - 1);
        match rotation_quality(recipe, max_dur, check_time, prog_unit, qual_unit, time, n - 1) {
            Some(q) => if q > prev { q } else { prev },
            None => prev,
        }
    }
}

/// The quality state of a rotation, with its time set to `time`.
pub open spec fn state_at(r: Option<(qual::State, bool)>, time: u8) -> Option<qual::State> {
    match r {
        Some(p) => Some(at_time(p.0, time)),
        None => None,
    }
}

/// A rotation: opener, extra step and finisher.
#[derive(Debug, Clone, Copy)]
pub struct Rotation {
    pub opener: &'static str,
    pub extra: char,
    pub finisher: Finisher,
}

/// The outcome of the recipe search.
#[derive(Debug, Clone, Copy)]
pub struct SimResult {
    pub best_qual: u32,
    pub best_rot: Option<Rotation>,
    /// The quality state the best rotation hands to the quality phase.
    pub best_qst: Option<qual::State>,
}

/// Rotation `k`: opener `k / 63`, extra `(k / 21) % 3`, finisher `k % 21`.
pub open spec fn rotation_of(k: int) -> Rotation {
    Rotation {
        opener: OPENERS[k / 63],
        extra: extra_spec((k / 21) % 3),
        finisher: finisher_spec((k % 21) as usize),
    }
}

/// Rotation `k` delivers `q`, and no earlier rotation delivers as much.
pub open spec fn first_reaching(
    recipe: Statline,
    max_dur: u8,
    check_time: bool,
    prog_unit: u16,
    qual_unit: u16,
    time: u8,
    k: int,
    q: int,
) -> bool {
    &&& rotation_quality(recipe, max_dur, check_time, prog_unit, qual_unit, time, k) == Some(q)
    &&& forall|j: int|
        0 <= j < k ==> match #[trigger] rotation_quality(
            recipe,
            max_dur,
            check_time,
            prog_unit,
            qual_unit,
            time,
            j,
        ) {
            Some(x) => x < q,
            None => true,
        }
}

/// What the search at `time` reports: the best delivered quality over all
/// rotations, and, where it is positive, the first rotation that delivers
/// it with the quality state that rotation hands to the quality phase.
pub open spec fn reports(r: SimResult, recipe: Statline, max_dur: u8, check_time: bool, time: u8) -> bool {
    let pu = prog_unit_spec(recipe.cms, recipe.rlvl) as u16;
    let qu = qual_unit_spec(recipe.ctrl, recipe.rlvl) as u16;
    &&& r.best_qual == best_quality(recipe, max_dur, check_time, pu, qu, time, ROTATION_COUNT as int)
    &&& (r.best_rot is Some <==> r.best_qual > 0)
    &&& (r.best_qst is Some <==> r.best_qual > 0)
    &&& r.best_qual > 0 ==> exists|k: int|
        0 <= k < ROTATION_COUNT && first_reaching(
            recipe,
            max_dur,
            check_time,
            pu,
            qu,
            time,
            k,
            r.best_qual as int,
        ) && r.best_rot == Some(#[trigger] rotation_of(k)) && r.best_qst == state_at(
            rotation_state(recipe, pu, k),
            time,
        )
}

fn dominated_exec(st: &prog::State, f: usize, prog_unit: u16, recipe: &Statline) -> (r: bool)
    requires
        f < FINISHER_COUNT,
    ensures
        r == dominated(*st, f, prog_unit, *recipe),
{
    let fin = finisher(f);
    let mut j: usize = 0;
    while j < FINISHER_COUNT
        invariant
            j <= FINISHER_COUNT,
            f < FINISHER_COUNT,
            fin == finisher_spec(f),
            forall|i: usize|
                i < j ==> !(i != f && completes(*st, finisher_spec(i), prog_unit, *recipe)
                    && #[trigger] finisher_spec(i).beats_spec(&finisher_spec(f))),
        decreases FINISHER_COUNT - j,
    {
        let other = finisher(j);
        if j != f && reaches(st.progress, other.progress, prog_unit, recipe.prog) && other.beats(
            &fin,
        ) {
            return true;
        }
        j += 1;
    }
    false
}

/// The quality state rotation `k` hands to the quality phase.
pub fn rotation_state_exec(recipe: &Statline, prog_unit: u16, k: usize) -> (r: Option<(qual::State, bool)>)
    requires
        k < ROTATION_COUNT,
    ensures
        r == rotation_state(*recipe, prog_unit, k as int),
{
    let o = k / 63;
    let e = (k / 21) % 3;
    let f = k % 21;
    let mut st = start(recipe, recipe.cp);
    st.apply_opener(OPENERS[o], extra(e));
    if reaches(st.progress, 0, prog_unit, recipe.prog) || dominated_exec(&st, f, prog_unit, recipe) {
        return None;
    }
    match convert(recipe, &st, &finisher(f), prog_unit) {
        Some((q, reflect)) => {
            if q.inner_quiet < 16 && q.cp < 1024 && q.durability < 32 && q.manipulation < 16
                && q.waste_not < 16 && q.innovation < 8 && q.great_strides < 4 && q.min_durability
                < 4 && q.trained_perfection < 4 {
                Some((q, reflect))
            } else {
                None
            }
        },
        None => None,
    }
}

/// Runs the search with the quality phase starting at `time`: every
/// opener, extra step and finisher that is tried, with the quality phase
/// solved by the cache; the best delivered quality, the first rotation that
/// reaches it, and its quality state.
pub fn check_recipe_at(cache: &mut DPCache, recipe: &Statline, time: u8) -> (r: SimResult)
    requires
        old(cache).wf(),
    ensures
        final(cache).wf(),
        final(cache).max_durability() == old(cache).max_durability(),
        final(cache).checks_time() == old(cache).checks_time(),
        reports(r, *recipe, old(cache).max_durability(), old(cache).checks_time(), time),
{
    let ghost md = cache.max_durability();
    let ghost ct = cache.checks_time();
    let pu = prog_unit(recipe.cms, recipe.rlvl);
    let qu = qual_unit(recipe.ctrl, recipe.rlvl);
    let mut best_qual: u32 = 0;
    let mut best_rot: Option<Rotation> = None;
    let mut best_qst: Option<qual::State> = None;
    let mut k: usize = 0;
    let ghost mut best_k: int = 0;
    while k < ROTATION_COUNT
        invariant
            k <= ROTATION_COUNT,
            cache.wf(),
            cache.max_durability() == md,
            cache.checks_time() == ct,
            pu == prog_unit_spec(recipe.cms, recipe.rlvl),
            qu == qual_unit_spec(recipe.ctrl, recipe.rlvl),
            best_qual == best_quality(*recipe, md, ct, pu, qu, time, k as int),
            best_rot is Some <==> best_qual > 0,
            best_qst is Some <==> best_qual > 0,
            forall|j: int|
                0 <= j < k ==> match #[trigger] rotation_quality(*recipe, md, ct, pu, qu, time, j) {
                    Some(x) => x <= best_qual,
                    None => true,
                },
            best_qual > 0 ==> 0 <= best_k < k && first_reaching(
                *recipe,
                md,
                ct,
                pu,
                qu,
                time,
                best_k,
                best_qual as int,
            ) && best_rot == Some(rotation_of(best_k)) && best_qst == state_at(
                rotation_state(*recipe, pu, best_k),
                time,
            ),
        decreases ROTATION_COUNT - k,
    {
        if let Some((converted, reflect)) = rotation_state_exec(recipe, pu, k) {
            let qst = qual::State { time, ..converted };
            let (q, _method, _next) = qual::unpack_method(cache.unwrapped_query(&qst));
            let bonus: u64 = if reflect { 3 * UNIT as u64 } else { 0 };
            proof {
                assert((q + bonus) * qu <= 66735 * 65535) by (nonlinear_arith)
                    requires
                        q + bonus <= 66735,
                        qu <= 65535,
                ;
            }
            let delivered = ((q as u64 + bonus) * qu as u64 / UNIT as u64) as u32;
            assert(rotation_quality(*recipe, md, ct, pu, qu, time, k as int) == Some(delivered as int));
            if delivered > best_qual {
                proof {
                    best_k = k as int;
                }
                best_qual = delivered;
                best_qst = Some(qst);
                best_rot = Some(Rotation { opener: OPENERS[k / 63], extra: extra((k / 21) % 3), finisher: finisher(k % 21) });
            }
        }
        proof {
            assert forall|j: int|
                0 <= j < k + 1 implies match #[trigger] rotation_quality(*recipe, md, ct, pu, qu, time, j) {
                    Some(x) => x <= best_qual,
                    None => true,
                } by {
                if j < k {
                    assert(match rotation_quality(*recipe, md, ct, pu, qu, time, j) {
                        Some(x) => x <= best_qual,
                        None => true,
                    });
                }
            };
        }
        k += 1;
    }
    proof {
        assert(pu == prog_unit_spec(recipe.cms, recipe.rlvl) as u16);
        assert(qu == qual_unit_spec(recipe.ctrl, recipe.rlvl) as u16);
        if best_qual > 0 {
            assert(best_rot == Some(rotation_of(best_k)));
        }
    }
    SimResult { best_qual, best_rot, best_qst }
}

/// The search with the quality phase starting at time 60, the time every
/// converted state carries.
pub fn check_recipe(cache: &mut DPCache, recipe: &Statline) -> (r: SimResult)
    requires
        old(cache).wf(),
    ensures
        final(cache).wf(),
        final(cache).max_durability() == old(cache).max_durability(),
        final(cache).checks_time() == old(cache).checks_time(),
        reports(r, *recipe, old(cache).max_durability(), old(cache).checks_time(), 60),
{
    check_recipe_at(cache, recipe, 60)
}

/// Opener characters never take inner quiet past 10.
proof fn lemma_chars_inner_quiet(s: prog::State, cs: Seq<char>)
    requires
        s.inner_quiet <= 10,
    ensures
        chars_applied(s, cs).inner_quiet <= 10,
    decreases cs.len(),
{
    if cs.len() > 0 {
        lemma_chars_inner_quiet(s, cs.drop_last());
    }
}

proof fn lemma_rotation_quality_time(
    recipe: Statline,
    max_dur: u8,
    check_time: bool,
    prog_unit: u16,
    qual_unit: u16,
    t1: u8,
    t2: u8,
    k: int,
)
    requires
        t1 <= t2,
        max_dur < 32,
        rotation_quality(recipe, max_dur, check_time, prog_unit, qual_unit, t1, k) is Some,
    ensures
        rotation_quality(recipe, max_dur, check_time, prog_unit, qual_unit, t2, k) is Some,
        rotation_quality(recipe, max_dur, check_time, prog_unit, qual_unit, t1, k)->0
            <= rotation_quality(recipe, max_dur, check_time, prog_unit, qual_unit, t2, k)->0,
{
    let (q, reflect) = rotation_state(recipe, prog_unit, k)->0;
    lemma_chars_inner_quiet(
        start_state(recipe, recipe.cp),
        OPENERS[k / 63]@.push(extra_spec((k / 21) % 3)),
    );
    let s1 = at_time(q, t1);
    let s2 = at_time(q, t2);
    qual::lemma_value_monotone(s1, s2, max_dur, check_time);
    qual::lemma_sentinel_decodes();
    let v1 = value(s1, max_dur, check_time);
    let v2 = value(s2, max_dur, check_time);
    let x1 = result_quality(stored(v1)) as int;
    let x2 = result_quality(stored(v2)) as int;
    assert(x1 <= x2);
    let bonus: int = if reflect { 3 * UNIT } else { 0 };
    assert((x1 + bonus) * qual_unit / (UNIT as int) <= (x2 + bonus) * qual_unit / (UNIT as int))
        by (nonlinear_arith)
        requires
            0 <= x1 <= x2,
            0 <= bonus,
            0 <= qual_unit,
    ;
}

/// Starting the quality phase with more time never lowers the best
/// delivered quality.
pub proof fn lemma_best_quality_time_monotone(
    recipe: Statline,
    max_dur: u8,
    check_time: bool,
    prog_unit: u16,
    qual_unit: u16,
    t1: u8,
    t2: u8,
    n: int,
)
    requires
        t1 <= t2,
        max_dur < 32,
    ensures
        best_quality(recipe, max_dur, check_time, prog_unit, qual_unit, t1, n) <= best_quality(
            recipe,
            max_dur,
            check_time,
            prog_unit,
            qual_unit,
            t2,
            n,
        ),
    decreases n,
{
    if n > 0 {
        lemma_best_quality_time_monotone(recipe, max_dur, check_time, prog_unit, qual_unit, t1, t2, n - 1);
        if rotation_quality(recipe, max_dur, check_time, prog_unit, qual_unit, t1, n - 1) is Some {
            lemma_rotation_quality_time(recipe, max_dur, check_time, prog_unit, qual_unit, t1, t2, n - 1);
        } else {
            assert(rotation_state(recipe, prog_unit, n - 1) is None);
        }
    }
}

/// The time-bounded search: the least starting time in `[60, max_time]`
/// at which the best delivered quality meets the recipe's quality, found by
/// bisection (or `max_time` where none does), with the search at that time.
pub fn check_recipe_timed(cache: &mut DPCache, recipe: &Statline, max_time: u8) -> (r: (SimResult, u8))
    requires
        old(cache).wf(),
        60 <= max_time,
    ensures
        final(cache).wf(),
        final(cache).max_durability() == old(cache).max_durability(),
        final(cache).checks_time() == old(cache).checks_time(),
        60 <= r.1 <= max_time,
        reports(r.0, *recipe, old(cache).max_durability(), old(cache).checks_time(), r.1),
        r.0.best_qual >= recipe.qual || r.1 == max_time,
        forall|t: u8|
            60 <= t < r.1 ==> #[trigger] best_quality(
                *recipe,
                old(cache).max_durability(),
                old(cache).checks_time(),
                prog_unit_spec(recipe.cms, recipe.rlvl) as u16,
                qual_unit_spec(recipe.ctrl, recipe.rlvl) as u16,
                t,
                ROTATION_COUNT as int,
            ) < recipe.qual,
{
    let ghost md = cache.max_durability();
    let ghost ct = cache.checks_time();
    let ghost pu: u16 = prog_unit_spec(recipe.cms, recipe.rlvl) as u16;
    let ghost qu: u16 = qual_unit_spec(recipe.ctrl, recipe.rlvl) as u16;
    proof {
        cache.lemma_wf_bound();
    }
    let mut lo: u8 = 60;
    let mut hi: u8 = max_time;
    while lo < hi
        invariant
            60 <= lo <= hi <= max_time,
            cache.wf(),
            cache.max_durability() == md,
            cache.checks_time() == ct,
            md < 32,
            pu == prog_unit_spec(recipe.cms, recipe.rlvl) as u16,
            qu == qual_unit_spec(recipe.ctrl, recipe.rlvl) as u16,
            hi == max_time || best_quality(*recipe, md, ct, pu, qu, hi, ROTATION_COUNT as int)
                >= recipe.qual,
            forall|t: u8|
                60 <= t < lo ==> #[trigger] best_quality(*recipe, md, ct, pu, qu, t, ROTATION_COUNT as int)
                    < recipe.qual,
        decreases hi - lo,
    {
        let mid = lo + (hi - lo) / 2;
        let res = check_recipe_at(cache, recipe, mid);
        if res.best_qual >= recipe.qual {
            hi = mid;
        } else {
            proof {
                assert forall|t: u8|
                    60 <= t < mid + 1 implies #[trigger] best_quality(*recipe, md, ct, pu, qu, t, ROTATION_COUNT as int)
                        < recipe.qual by {
                    if t >= lo {
                        lemma_best_quality_time_monotone(*recipe, md, ct, pu, qu, t, mid, ROTATION_COUNT as int);
                    }
                };
            }
            lo = mid + 1;
        }
    }
    let res = check_recipe_at(cache, recipe, lo);
    (res, lo)
}

/// Minimal crafter stats for one way of completing the recipe.
#[derive(Debug, Clone, Copy, PartialEq, Eq, Hash, Structural)]
pub struct Solution {
    pub cms: u16,
    pub ctrl: u16,
    pub cp: u16,
    /// Whether the crafter must be a specialist.
    pub has: bool,
}

impl Solution {
    /// Needs no more of any stat than `other`, differs from it, and needs
    /// a specialist only where `other` does.
    pub open spec fn beats_spec(&self, other: &Solution) -> bool {
        &&& self.cms <= other.cms
        &&& self.ctrl <= other.ctrl
        &&& self.cp <= other.cp
        &&& *self != *other
        &&& !(self.has && !other.has)
    }

    pub fn beats(&self, other: &Solution) -> (r: bool)
        ensures
            r == self.beats_spec(other),
    {
        self.cms <= other.cms && self.ctrl <= other.ctrl && self.cp <= other.cp && *self != *other
            && !(self.has && !other.has)
    }
}

/// `beats` is a strict partial order: irreflexive, antisymmetric and
/// transitive.
pub proof fn lemma_beats_strict_order(a: Solution, b: Solution, c: Solution)
    ensures
        !a.beats_spec(&a),
        a.beats_spec(&b) ==> !b.beats_spec(&a),
        a.beats_spec(&b) && b.beats_spec(&c) ==> a.beats_spec(&c),
{
}

/// No member beats another, and none occurs twice.
pub open spec fn pareto_minimal(s: Seq<Solution>) -> bool {
    &&& forall|x: Solution, y: Solution|
        #![trigger s.contains(x), s.contains(y)]
        s.contains(x) && s.contains(y) ==> !x.beats_spec(&y)
    &&& s.no_duplicates()
}

/// A member that `new` does not beat, and that beats or equals `new`.
pub open spec fn blocks(s: Seq<Solution>, new: Solution) -> bool {
    exists|y: Solution|
        #![trigger s.contains(y)]
        s.contains(y) && !new.beats_spec(&y) && (y.beats_spec(&new) || y == new)
}

proof fn lemma_push_contains(s: Seq<Solution>, x: Solution)
    ensures
        forall|y: Solution| #[trigger] s.push(x).contains(y) <==> (s.contains(y) || y == x),
        s.no_duplicates() && !s.contains(x) ==> s.push(x).no_duplicates(),
{
    assert forall|y: Solution| #[trigger] s.push(x).contains(y) <==> (s.contains(y) || y == x) by {
        if s.push(x).contains(y) {
            let j = choose|j: int| 0 <= j < s.push(x).len() && s.push(x)[j] == y;
            if j < s.len() {
                assert(s[j] == y);
            }
        }
        if y == x {
            assert(s.push(x)[s.len() as int] == x);
        }
        if s.contains(y) {
            let j = choose|j: int| 0 <= j < s.len() && s[j] == y;
            assert(s.push(x)[j] == y);
        }
    };
    if s.no_duplicates() && !s.contains(x) {
        let t = s.push(x);
        assert forall|a: int, b: int| 0 <= a < t.len() && 0 <= b < t.len() && a != b implies t[a]
            != t[b] by {
            if a < s.len() && b < s.len() {
                assert(s[a] != s[b]);
            } else if a < s.len() {
                assert(s.contains(t[a]));
            } else {
                assert(s.contains(t[b]));
            }
        };
    }
}

/// Adds `new` to a Pareto set: drops the members it beats, then adds it
/// unless a remaining member beats it or it is already there.
pub fn pareto_insert(set: &mut Vec<Solution>, new: Solution)
    ensures
        forall|x: Solution|
            #![trigger final(set)@.contains(x)]
            final(set)@.contains(x) <==> ((old(set)@.contains(x) && !new.beats_spec(&x)) || (x
                == new && !blocks(old(set)@, new))),
        pareto_minimal(old(set)@) ==> pareto_minimal(final(set)@),
{
    let ghost orig = set@;
    let mut kept: Vec<Solution> = Vec::new();
    let mut blocked = false;
    let mut i: usize = 0;
    while i < set.len()
        invariant
            set@ == orig,
            i <= set.len(),
            forall|x: Solution|
                #![trigger kept@.contains(x)]
                kept@.contains(x) <==> (orig.take(i as int).contains(x) && !new.beats_spec(&x)),
            orig.no_duplicates() ==> kept@.no_duplicates(),
            blocked <==> blocks(kept@, new),
        decreases set.len() - i,
    {
        let x = set[i];
        proof {
            assert(orig.take(i as int + 1) =~= orig.take(i as int).push(x));
            lemma_push_contains(orig.take(i as int), x);
            if orig.no_duplicates() {
                assert(!orig.take(i as int).contains(x)) by {
                    if orig.take(i as int).contains(x) {
                        let j = choose|j: int| 0 <= j < i && #[trigger] orig.take(i as int)[j] == x;
                        assert(orig[j] == orig[i as int]);
                    }
                }
            }
        }
        if !new.beats(&x) {
            let ghost before = kept@;
            if x.beats(&new) || x == new {
                blocked = true;
            }
            kept.push(x);
            proof {
                lemma_push_contains(before, x);
                assert(kept@ =~= before.push(x));
                if blocks(before, new) {
                    let y = choose|y: Solution| #![trigger before.contains(y)] before.contains(y) && !new.beats_spec(&y) && (y.beats_spec(&new) || y == new);
                    assert(kept@.contains(y));
                }
                if x.beats_spec(&new) || x == new {
                    assert(kept@.contains(x));
                }
                if blocks(kept@, new) {
                    let y = choose|y: Solution| #![trigger kept@.contains(y)] kept@.contains(y) && !new.beats_spec(&y) && (y.beats_spec(&new) || y == new);
                    if y != x {
                        assert(before.contains(y));
                    }
                }
            }
        }
        i += 1;
    }
    proof {
        assert(orig.take(orig.len() as int) =~= orig);
        if blocks(orig, new) {
            let y = choose|y: Solution| #![trigger orig.contains(y)] orig.contains(y) && !new.beats_spec(&y) && (y.beats_spec(&new) || y == new);
            assert(kept@.contains(y));
        }
        if blocks(kept@, new) {
            let y = choose|y: Solution| #![trigger kept@.contains(y)] kept@.contains(y) && !new.beats_spec(&y) && (y.beats_spec(&new) || y == new);
            assert(orig.contains(y));
        }
    }
    let ghost before = kept@;
    if !blocked {
        kept.push(new);
        proof {
            lemma_push_contains(before, new);
            assert(kept@ =~= before.push(new));
        }
    }
    proof {
        if pareto_minimal(orig) {
            assert forall|x: Solution, y: Solution|
                #![trigger kept@.contains(x), kept@.contains(y)]
                kept@.contains(x) && kept@.contains(y) implies !x.beats_spec(&y) by {
                if x != new && y != new {
                    assert(orig.contains(x) && orig.contains(y));
                } else if x != new && y == new {
                    assert(before.contains(x));
                }
            };
        }
    }
    *set = kept;
}


/// Stat bounds for the gear-set search, as `(low, high)` pairs.
#[derive(Debug, Clone, Copy)]
pub struct Bounds {
    pub cms: (u16, u16),
    pub ctrl: (u16, u16),
    pub cp: (u16, u16),
}

pub open spec fn sat_add_u16(a: u16, b: int) -> u16 {
    if a + b > u16::MAX { u16::MAX } else { (a + b) as u16 }
}

/// For a specialist recipe the upper bounds are raised (by 20, 20 and 15)
/// to leave room for specialist gear.
pub open spec fn widened(recipe: Statline, b: Bounds) -> Bounds {
    if recipe.has {
        Bounds {
            cms: (b.cms.0, sat_add_u16(b.cms.1, 20)),
            ctrl: (b.ctrl.0, sat_add_u16(b.ctrl.1, 20)),
            cp: (b.cp.0, sat_add_u16(b.cp.1, 15)),
        }
    } else {
        b
    }
}

pub open spec fn ceil_div(a: int, b: int) -> int {
    (a + b - 1) / b
}

/// `⌈13 · (⌈required / p⌉ · 1.25 − 2)⌉` with `p = progress / 10`, at least
/// 0 and held at `u16::MAX`.
pub open spec fn min_cms_spec(required: u32, progress: int) -> int {
    let k = ceil_div(10 * required, progress);
    let v = 65 * k - 104;
    if v <= 0 { 0 } else if ceil_div(v, 4) > u16::MAX { u16::MAX as int } else { ceil_div(v, 4) }
}

/// `⌈11.5 · (⌈required / q⌉ · 10 / 7 − 35)⌉` with `q = quality / UNIT`, at
/// least 0 and held at `u16::MAX`.
pub open spec fn min_ctrl_spec(required: u32, quality: int) -> int {
    let m = ceil_div(400 * required, quality);
    let v = 23 * (10 * m - 245);
    if v <= 0 { 0 } else if ceil_div(v, 14) > u16::MAX { u16::MAX as int } else { ceil_div(v, 14) }
}

pub fn min_cms(required: u32, progress: u64) -> (r: u16)
    requires
        0 < progress <= 131070,
    ensures
        r == min_cms_spec(required, progress as int),
{
    let k = (10 * required as u64 + progress - 1) / progress;
    proof {
        assert(k as int <= 10 * required as int + progress as int) by (nonlinear_arith)
            requires
                k as int == (10 * required as int + progress as int - 1) / (progress as int),
                progress > 0,
        ;
    }
    if 65 * k <= 104 {
        return 0;
    }
    let c = (65 * k - 104 + 3) / 4;
    if c > u16::MAX as u64 { u16::MAX } else { c as u16 }
}

pub fn min_ctrl(required: u32, quality: u64) -> (r: u16)
    requires
        0 < quality <= 1_000_000,
    ensures
        r == min_ctrl_spec(required, quality as int),
{
    let m = (400 * required as u64 + quality - 1) / quality;
    proof {
        assert(m as int <= 400 * required as int + quality as int) by (nonlinear_arith)
            requires
                m as int == (400 * required as int + quality as int - 1) / (quality as int),
                quality > 0,
        ;
    }
    if 10 * m <= 245 {
        return 0;
    }
    let c = (23 * (10 * m - 245) + 13) / 14;
    if c > u16::MAX as u64 { u16::MAX } else { c as u16 }
}

/// Candidates per CP target: openers, extras, specialist or not, finishers.
pub const GEAR_BLOCK: usize = 6048;

/// The quality state of gear-set candidate `k` under bounds `b` (already
/// widened): `None` where the candidate is not tried.
pub open spec fn gear_state(recipe: Statline, b: Bounds, k: int) -> Option<(qual::State, bool)> {
    let target = b.cp.0 + k / 6048;
    let rem = k % 6048;
    let h = (rem / 21) % 2;
    let f = (rem % 21) as usize;
    let min_pu = prog_unit_spec(b.cms.0, recipe.rlvl) as u16;
    let max_pu = prog_unit_spec(b.cms.1, recipe.rlvl) as u16;
    let st = opened(recipe, target as u16, rem / 126, (rem / 42) % 3);
    if (h == 1 && !recipe.has) || st.progress * min_pu >= recipe.prog * 10 {
        None
    } else {
        match convert_spec(recipe, st, finisher_spec(f), max_pu) {
            Some((q0, reflect)) => {
                if recipe.has && h == 0 && !q0.heart_and_soul {
                    None
                } else {
                    let q = if recipe.has && h == 0 { qual::State { heart_and_soul: false, ..q0 } } else { q0 };
                    if q.fits() { Some((q, reflect)) } else { None }
                }
            },
            None => None,
        }
    }
}

/// The solution gear-set candidate `k` yields: the least craftsmanship and
/// control that complete it at the required quality (no lower than the
/// bounds' lows), its CP target, and whether its best rotation still spends
/// Heart and Soul.
#[verifier::opaque]
pub open spec fn gear_solution(recipe: Statline, b: Bounds, max_dur: u8, check_time: bool, k: int) -> Option<Solution> {
    match gear_state(recipe, b, k) {
        Some((q, reflect)) => {
            let rem = k % 6048;
            let f = finisher_spec((rem % 21) as usize);
            let st = opened(recipe, (b.cp.0 + k / 6048) as u16, rem / 126, (rem / 42) % 3);
            let total_q = result_quality(stored(value(q, max_dur, check_time))) + (if reflect { 3 * UNIT } else { 0int });
            let total_p = f.progress + st.progress;
            let mc = min_cms_spec(recipe.prog, total_p);
            let ml = min_ctrl_spec(recipe.qual, total_q);
            if total_q == 0 || total_p == 0 || mc > b.cms.1 || ml > b.ctrl.1
                || ceil_div(10 * recipe.prog, total_p) + 2 < prog_unit_spec(b.cms.0, recipe.rlvl)
                || ceil_div(400 * recipe.qual, total_q) + 2 < qual_unit_spec(b.ctrl.0, recipe.rlvl) {
                None
            } else {
                Some(Solution {
                    cms: if mc > b.cms.0 { mc as u16 } else { b.cms.0 },
                    ctrl: if ml > b.ctrl.0 { ml as u16 } else { b.ctrl.0 },
                    cp: (b.cp.0 + k / 6048) as u16,
                    has: (rem / 21) % 2 == 1 && !qual::chain(q.normalized(check_time), max_dur, check_time).last().heart_and_soul,
                })
            }
        },
        None => None,
    }
}

/// Number of gear-set candidates under (widened) bounds `b`.
pub open spec fn gear_count(b: Bounds) -> int {
    if b.cp.0 <= b.cp.1 { (b.cp.1 - b.cp.0 + 1) * 6048 } else { 0 }
}

/// Every candidate among the first `n` that yields a solution is in the set
/// or beaten by a member of it.
pub open spec fn covers(set: Seq<Solution>, recipe: Statline, b: Bounds, max_dur: u8, check_time: bool, n: int) -> bool {
    forall|k: int|
        #![trigger gear_solution(recipe, b, max_dur, check_time, k)]
        0 <= k < n && gear_solution(recipe, b, max_dur, check_time, k) is Some ==> (set.contains(
            gear_solution(recipe, b, max_dur, check_time, k)->0,
        ) || exists|y: Solution|
            #![trigger set.contains(y)]
            set.contains(y) && y.beats_spec(&gear_solution(recipe, b, max_dur, check_time, k)->0))
}

/// Every member is the solution of one of the first `n` candidates.
pub open spec fn generated(set: Seq<Solution>, recipe: Statline, b: Bounds, max_dur: u8, check_time: bool, n: int) -> bool {
    forall|x: Solution|
        #![trigger set.contains(x)]
        set.contains(x) ==> exists|k: int|
            0 <= k < n && #[trigger] gear_solution(recipe, b, max_dur, check_time, k) == Some(x)
}

proof fn lemma_insert_covers(old_set: Seq<Solution>, new: Solution, new_set: Seq<Solution>, c: Solution)
    requires
        forall|x: Solution|
            #![trigger new_set.contains(x)]
            new_set.contains(x) <==> ((old_set.contains(x) && !new.beats_spec(&x)) || (x == new
                && !blocks(old_set, new))),
        old_set.contains(c) || exists|y: Solution|
            #![trigger old_set.contains(y)]
            old_set.contains(y) && y.beats_spec(&c),
    ensures
        new_set.contains(c) || exists|y: Solution|
            #![trigger new_set.contains(y)]
            new_set.contains(y) && y.beats_spec(&c),
{
    let w = if old_set.contains(c) {
        c
    } else {
        choose|y: Solution| #![trigger old_set.contains(y)] old_set.contains(y) && y.beats_spec(&c)
    };
    assert(old_set.contains(w));
    if !new.beats_spec(&w) {
        assert(new_set.contains(w));
    } else {
        lemma_beats_strict_order(new, w, c);
        if !blocks(old_set, new) {
            assert(new_set.contains(new));
        } else {
            let z = choose|z: Solution|
                #![trigger old_set.contains(z)]
                old_set.contains(z) && !new.beats_spec(&z) && (z.beats_spec(&new) || z == new);
            assert(new_set.contains(z));
            lemma_beats_strict_order(z, new, c);
        }
    }
}

fn gear_state_exec(recipe: &Statline, b: &Bounds, min_pu: u16, max_pu: u16, k: usize) -> (r: Option<(qual::State, bool, u64)>)
    requires
        k < gear_count(*b),
        min_pu == prog_unit_spec(b.cms.0, recipe.rlvl),
        max_pu == prog_unit_spec(b.cms.1, recipe.rlvl),
    ensures
        match r {
            Some((q, reflect, p)) => gear_state(*recipe, *b, k as int) == Some((q, reflect)) && p
                == finisher_spec((k % 6048 % 21) as usize).progress + opened(
                *recipe,
                (b.cp.0 + k / 6048) as u16,
                (k % 6048) as int / 126,
                ((k % 6048) as int / 42) % 3,
            ).progress,
            None => gear_state(*recipe, *b, k as int) is None,
        },
{
    let target = (b.cp.0 as usize + k / GEAR_BLOCK) as u16;
    let rem = k % GEAR_BLOCK;
    let h = (rem / 21) % 2;
    let f = rem % 21;
    if h == 1 && !recipe.has {
        return None;
    }
    let mut st = start(recipe, target);
    st.apply_opener(OPENERS[rem / 126], extra((rem / 42) % 3));
    if reaches(st.progress, 0, min_pu, recipe.prog) {
        return None;
    }
    let fin = finisher(f);
    match convert(recipe, &st, &fin, max_pu) {
        Some((q0, reflect)) => {
            if recipe.has && h == 0 && !q0.heart_and_soul {
                return None;
            }
            let q = if recipe.has && h == 0 { qual::State { heart_and_soul: false, ..q0 } } else { q0 };
            if q.inner_quiet < 16 && q.cp < 1024 && q.durability < 32 && q.manipulation < 16
                && q.waste_not < 16 && q.innovation < 8 && q.great_strides < 4 && q.min_durability
                < 4 && q.trained_perfection < 4 {
                Some((q, reflect, fin.progress as u64 + st.progress as u64))
            } else {
                None
            }
        },
        None => None,
    }
}

fn gear_solution_exec(
    cache: &mut DPCache,
    recipe: &Statline,
    b: &Bounds,
    min_pu: u16,
    max_pu: u16,
    min_qu: u16,
    k: usize,
) -> (r: Option<Solution>)
    requires
        old(cache).wf(),
        k < gear_count(*b),
        min_pu == prog_unit_spec(b.cms.0, recipe.rlvl),
        max_pu == prog_unit_spec(b.cms.1, recipe.rlvl),
        min_qu == qual_unit_spec(b.ctrl.0, recipe.rlvl),
    ensures
        final(cache).wf(),
        final(cache).max_durability() == old(cache).max_durability(),
        final(cache).checks_time() == old(cache).checks_time(),
        r == gear_solution(*recipe, *b, old(cache).max_durability(), old(cache).checks_time(), k as int),
{
    reveal(gear_solution);
    let (qst, reflect, total_p) = match gear_state_exec(recipe, b, min_pu, max_pu, k) {
        Some(t) => t,
        None => {
            return None;
        },
    };
    let (q, _method, _next) = qual::unpack_method(cache.unwrapped_query(&qst));
    let total_q: u64 = q as u64 + if reflect { 3 * UNIT as u64 } else { 0 };
    if total_q == 0 || total_p == 0 {
        return None;
    }
    let mc = min_cms(recipe.prog, total_p);
    let ml = min_ctrl(recipe.qual, total_q);
    let pu_needed = (10 * recipe.prog as u64 + total_p - 1) / total_p;
    let qu_needed = (400 * recipe.qual as u64 + total_q - 1) / total_q;
    if mc > b.cms.1 || ml > b.ctrl.1 || pu_needed + 2 < min_pu as u64 || qu_needed + 2
        < min_qu as u64 {
        return None;
    }
    let spends = if (k % GEAR_BLOCK / 21) % 2 == 1 {
        !cache.check_endstate(&qst).heart_and_soul
    } else {
        false
    };
    Some(
        Solution {
            cms: if mc > b.cms.0 { mc } else { b.cms.0 },
            ctrl: if ml > b.ctrl.0 { ml } else { b.ctrl.0 },
            cp: (b.cp.0 as usize + k / GEAR_BLOCK) as u16,
            has: spends,
        },
    )
}

proof fn lemma_gear_step(
    before: Seq<Solution>,
    after: Seq<Solution>,
    recipe: Statline,
    b: Bounds,
    md: u8,
    ct: bool,
    k: int,
)
    requires
        0 <= k,
        generated(before, recipe, b, md, ct, k),
        covers(before, recipe, b, md, ct, k),
        gear_solution(recipe, b, md, ct, k) is None ==> after == before,
        gear_solution(recipe, b, md, ct, k) is Some ==> forall|x: Solution|
            #![trigger after.contains(x)]
            after.contains(x) <==> ((before.contains(x) && !gear_solution(recipe, b, md, ct, k)->0.beats_spec(&x))
                || (x == gear_solution(recipe, b, md, ct, k)->0 && !blocks(before, gear_solution(recipe, b, md, ct, k)->0))),
    ensures
        generated(after, recipe, b, md, ct, k + 1),
        covers(after, recipe, b, md, ct, k + 1),
{
    match gear_solution(recipe, b, md, ct, k) {
        None => {
            assert forall|x: Solution| #![trigger after.contains(x)] after.contains(x) implies exists|i: int|
                0 <= i < k + 1 && #[trigger] gear_solution(recipe, b, md, ct, i) == Some(x) by {
                let i = choose|i: int| 0 <= i < k && #[trigger] gear_solution(recipe, b, md, ct, i) == Some(x);
                assert(0 <= i < k + 1 && gear_solution(recipe, b, md, ct, i) == Some(x));
            };
        },
        Some(new_sol) => {
            assert forall|i: int|
                #![trigger gear_solution(recipe, b, md, ct, i)]
                0 <= i < k + 1 && gear_solution(recipe, b, md, ct, i) is Some implies (after.contains(
                    gear_solution(recipe, b, md, ct, i)->0,
                ) || exists|y: Solution|
                    #![trigger after.contains(y)]
                    after.contains(y) && y.beats_spec(&gear_solution(recipe, b, md, ct, i)->0)) by {
                let c = gear_solution(recipe, b, md, ct, i)->0;
                if i < k {
                    lemma_insert_covers(before, new_sol, after, c);
                } else if blocks(before, new_sol) {
                    let z = choose|z: Solution|
                        #![trigger before.contains(z)]
                        before.contains(z) && !new_sol.beats_spec(&z) && (z.beats_spec(&new_sol) || z == new_sol);
                    assert(after.contains(z));
                }
            };
            assert forall|x: Solution| #![trigger after.contains(x)] after.contains(x) implies exists|i: int|
                0 <= i < k + 1 && #[trigger] gear_solution(recipe, b, md, ct, i) == Some(x) by {
                if x != new_sol {
                    assert(before.contains(x));
                    let i = choose|i: int| 0 <= i < k && #[trigger] gear_solution(recipe, b, md, ct, i) == Some(x);
                    assert(0 <= i < k + 1 && gear_solution(recipe, b, md, ct, i) == Some(x));
                } else {
                    assert(0 <= k < k + 1 && gear_solution(recipe, b, md, ct, k) == Some(x));
                }
            };
        },
    }
}

/// Sweeps every CP target, opener, extra step, specialist choice and
/// finisher that completes the craft within the bounds, and keeps the
/// Pareto-minimal set of the stats they need.
pub fn gearset(cache: &mut DPCache, recipe: &Statline, bounds: &Bounds) -> (r: Vec<Solution>)
    requires
        old(cache).wf(),
    ensures
        final(cache).wf(),
        final(cache).max_durability() == old(cache).max_durability(),
        final(cache).checks_time() == old(cache).checks_time(),
        pareto_minimal(r@),
        generated(r@, *recipe, widened(*recipe, *bounds), old(cache).max_durability(), old(cache).checks_time(), gear_count(widened(*recipe, *bounds))),
        covers(r@, *recipe, widened(*recipe, *bounds), old(cache).max_durability(), old(cache).checks_time(), gear_count(widened(*recipe, *bounds))),
{
    let ghost md = cache.max_durability();
    let ghost ct = cache.checks_time();
    let b = if recipe.has {
        Bounds {
            cms: (bounds.cms.0, bounds.cms.1.saturating_add(20)),
            ctrl: (bounds.ctrl.0, bounds.ctrl.1.saturating_add(20)),
            cp: (bounds.cp.0, bounds.cp.1.saturating_add(15)),
        }
    } else {
        *bounds
    };
    assert(b == widened(*recipe, *bounds));
    let min_pu = prog_unit(b.cms.0, recipe.rlvl);
    let max_pu = prog_unit(b.cms.1, recipe.rlvl);
    let min_qu = qual_unit(b.ctrl.0, recipe.rlvl);
    let count: usize = if b.cp.0 <= b.cp.1 { ((b.cp.1 - b.cp.0) as usize + 1) * GEAR_BLOCK } else { 0 };
    let mut solutions: Vec<Solution> = Vec::new();
    let mut k: usize = 0;
    while k < count
        invariant
            k <= count,
            count == gear_count(b),
            b == widened(*recipe, *bounds),
            min_pu == prog_unit_spec(b.cms.0, recipe.rlvl),
            max_pu == prog_unit_spec(b.cms.1, recipe.rlvl),
            min_qu == qual_unit_spec(b.ctrl.0, recipe.rlvl),
            cache.wf(),
            cache.max_durability() == md,
            cache.checks_time() == ct,
            pareto_minimal(solutions@),
            generated(solutions@, *recipe, b, md, ct, k as int),
            covers(solutions@, *recipe, b, md, ct, k as int),
        decreases count - k,
    {
        let ghost before = solutions@;
        if let Some(new_sol) = gear_solution_exec(cache, recipe, &b, min_pu, max_pu, min_qu, k) {
            pareto_insert(&mut solutions, new_sol);
        }
        proof {
            lemma_gear_step(before, solutions@, *recipe, b, md, ct, k as int);
        }
        k += 1;
    }
    solutions
}


/// Macro name and wait of an opener character; `f` and `i` stand for two
/// commands, of which this is the first.
pub open spec fn convert_char_spec(c: char) -> (&'static str, i32) {
    match c {
        'M' => ("Muscle Memory", 3),
        'R' => ("Reflect", 3),
        'm' => ("Manipulation", 2),
        'v' => ("Veneration", 2),
        '1' => ("Waste Not", 2),
        '2' => ("Waste Not II", 2),
        'b' => ("Basic Synthesis", 3),
        'c' => ("Careful Synthesis", 3),
        'p' => ("Prudent Synthesis", 3),
        'f' => ("Observe", 3),
        'g' => ("Groundwork", 3),
        'i' => ("Heart and Soul", 3),
        '*' => ("Trained Perfection", 2),
        _ => ("", 1),
    }
}

pub fn convert_char(c: char) -> (r: (&'static str, i32))
    ensures
        r == convert_char_spec(c),
{
    match c {
        'M' => ("Muscle Memory", 3),
        'R' => ("Reflect", 3),
        'm' => ("Manipulation", 2),
        'v' => ("Veneration", 2),
        '1' => ("Waste Not", 2),
        '2' => ("Waste Not II", 2),
        'b' => ("Basic Synthesis", 3),
        'c' => ("Careful Synthesis", 3),
        'p' => ("Prudent Synthesis", 3),
        'f' => ("Observe", 3),
        'g' => ("Groundwork", 3),
        'i' => ("Heart and Soul", 3),
        '*' => ("Trained Perfection", 2),
        _ => ("", 1),
    }
}

/// The macro commands of an opener character: Observe is followed by
/// Focused Synthesis, Heart and Soul by Intensive Synthesis.
pub fn char_commands(c: char) -> (r: Vec<(&'static str, i32)>)
    ensures
        r@ == (if c == 'f' {
            seq![convert_char_spec(c), ("Focused Synthesis", 3i32)]
        } else if c == 'i' {
            seq![convert_char_spec(c), ("Intensive Synthesis", 3i32)]
        } else {
            seq![convert_char_spec(c)]
        }),
{
    let first = convert_char(c);
    if c == 'f' {
        vec![first, ("Focused Synthesis", 3)]
    } else if c == 'i' {
        vec![first, ("Intensive Synthesis", 3)]
    } else {
        vec![first]
    }
}

} // verus!
